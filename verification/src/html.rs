//! Reading attributes out of an HTML document, through the `scraper` crate.
use vstd::prelude::*;

verus! {

/// What the `scraper` crate finds when it parses `html` as a document
/// (`Html::parse_document`), selects the elements that match the CSS selector
/// group `selector` (`Html::select`), in the order the parser inserted the nodes
/// into its tree, and reads each one's
/// attribute `attr` (`ElementRef::attr`): `None` when `selector` does not parse,
/// otherwise one entry per matching element, `None` where it lacks the attribute.
pub uninterp spec fn selected_attrs(html: Seq<char>, selector: Seq<char>, attr: Seq<char>) -> Option<
    Seq<Option<Seq<char>>>,
>;

/// Parses `html` as a document with `scraper::Html::parse_document`, parses
/// `selector` with `scraper::Selector::parse`, and returns the value of the
/// attribute `attr` of every matching element, in the tree's node order. Its result is
/// named `selected_attrs`; nothing more is stated of what the HTML parser and
/// the selector engine find.
#[verifier::external_body]
pub(crate) fn select_attrs(html: &str, selector: &str, attr: &str) -> (r: Option<Vec<Option<String>>>)
    ensures
        r.deep_view() == selected_attrs(html@, selector@, attr@),
{
    let sel = scraper::Selector::parse(selector).ok()?;
    let doc = scraper::Html::parse_document(html);
    let found = doc.select(&sel).map(|e| e.value().attr(attr).map(|a| a.to_string())).collect();
    Some(found)
}

} // verus!
