//! Regular-expression searches, through the `regex` crate.
use vstd::prelude::*;

verus! {

/// The text of every match of the regular expression `pattern` in `text`, in
/// order, as `regex::Regex::find_iter` reports them (non-overlapping, leftmost
/// first); `None` when `pattern` is not a valid expression.
pub uninterp spec fn regex_matches(pattern: Seq<char>, text: Seq<char>) -> Option<Seq<Seq<char>>>;

/// For every match of `pattern` in `text`, in order, the text of its capture
/// group `group`, as `regex::Regex::captures_iter` reports them (`None` where
/// the group took no part in the match); `None` when `pattern` is not valid.
pub uninterp spec fn regex_captures(pattern: Seq<char>, text: Seq<char>, group: nat) -> Option<
    Seq<Option<Seq<char>>>,
>;

/// `text` with every match of `pattern` replaced by `replacement`, as
/// `regex::Regex::replace_all` returns it; `None` when `pattern` is not valid.
pub uninterp spec fn regex_replaced(pattern: Seq<char>, text: Seq<char>, replacement: Seq<char>) -> Option<
    Seq<char>,
>;

/// Compiles `pattern` with `regex::Regex::new` and collects the text of the
/// matches of `Regex::find_iter` on `text`. Its result is named `regex_matches`;
/// nothing more is stated of the regex engine.
#[verifier::external_body]
pub(crate) fn find_all(pattern: &str, text: &str) -> (r: Option<Vec<String>>)
    ensures
        r.deep_view() == regex_matches(pattern@, text@),
{
    let re = regex::Regex::new(pattern).ok()?;
    Some(re.find_iter(text).map(|m| m.as_str().to_string()).collect())
}

/// Compiles `pattern` with `regex::Regex::new` and collects, for each capture of
/// `Regex::captures_iter` on `text`, its group `group`. Its result is named
/// `regex_captures`; nothing more is stated of the regex engine.
#[verifier::external_body]
pub(crate) fn capture_all(pattern: &str, text: &str, group: usize) -> (r: Option<Vec<Option<String>>>)
    ensures
        r.deep_view() == regex_captures(pattern@, text@, group as nat),
{
    let re = regex::Regex::new(pattern).ok()?;
    Some(re.captures_iter(text).map(|c| c.get(group).map(|m| m.as_str().to_string())).collect())
}

/// Compiles `pattern` with `regex::Regex::new` and returns what
/// `Regex::replace_all` makes of `text` with `replacement`. Its result is named
/// `regex_replaced`; nothing more is stated of the regex engine.
#[verifier::external_body]
pub(crate) fn replace_all(pattern: &str, text: &str, replacement: &str) -> (r: Option<String>)
    ensures
        r.deep_view() == regex_replaced(pattern@, text@, replacement@),
{
    let re = regex::Regex::new(pattern).ok()?;
    Some(re.replace_all(text, replacement).to_string())
}

} // verus!
