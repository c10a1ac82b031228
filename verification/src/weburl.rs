//! URL parsing and resolution, through the `url` crate.
use vstd::prelude::*;

verus! {

/// The path of `url` as `url::Url::parse` and `Url::path` give it, or `None`
/// when `url` does not parse.
pub uninterp spec fn parsed_path(url: Seq<char>) -> Option<Seq<char>>;

/// The host (`Url::host_str`) and the serialization (`Url::to_string`) of the
/// URL that `href` denotes relative to `base` (`Url::parse(base)` then
/// `Url::join(href)`), or `None` when either step fails.
pub uninterp spec fn joined(base: Seq<char>, href: Seq<char>) -> Option<(Option<Seq<char>>, Seq<char>)>;

/// The host of `url` (`Url::host_str`) when `url::Url::parse` accepts it, or
/// the text of the `url::ParseError` it returns.
pub uninterp spec fn parsed_host(url: Seq<char>) -> Result<Option<Seq<char>>, Seq<char>>;

/// `url::Url::parse` then `Url::path`. Its result is named `parsed_path`;
/// nothing more is stated of the URL parser.
#[verifier::external_body]
pub(crate) fn url_path(url: &str) -> (r: Option<String>)
    ensures
        r.deep_view() == parsed_path(url@),
{
    match url::Url::parse(url) {
        Ok(u) => Some(u.path().to_string()),
        Err(_) => None,
    }
}

/// `url::Url::parse(base)` then `Url::join(href)`, returning the joined URL's
/// `host_str` and its serialization. Its result is named `joined`; nothing more
/// is stated of the URL parser.
#[verifier::external_body]
pub(crate) fn join_url(base: &str, href: &str) -> (r: Option<(Option<String>, String)>)
    ensures
        r.deep_view() == joined(base@, href@),
{
    let b = url::Url::parse(base).ok()?;
    let u = b.join(href).ok()?;
    Some((u.host_str().map(|h| h.to_string()), u.to_string()))
}

/// `url::Url::parse(url)`, returning its `host_str`, or the text of the parse
/// error. Its result is named `parsed_host`; nothing more is stated of the URL
/// parser.
#[verifier::external_body]
pub(crate) fn url_host(url: &str) -> (r: Result<Option<String>, String>)
    ensures
        parsed_host(url@) == match r {
            Ok(h) => Ok(h.deep_view()),
            Err(e) => Err(e@),
        },
{
    match url::Url::parse(url) {
        Ok(u) => Ok(u.host_str().map(|h| h.to_string())),
        Err(e) => Err(e.to_string()),
    }
}

} // verus!
