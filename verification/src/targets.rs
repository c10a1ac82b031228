//! Turning the command-line target into the URLs to crawl.
use vstd::prelude::*;
use vstd::string::StringExecFns;

use crate::text::{
    chars_of, split_chars, split_on, starts_with, starts_with_exec, string_of, trim, trim_chars,
};

verus! {

/// A web address: it starts with `http://` or `https://`.
pub open spec fn web_url(s: Seq<char>) -> bool {
    starts_with(s, "http://"@) || starts_with(s, "https://"@)
}

/// Whether `s` starts with `http://` or `https://`.
pub fn is_web_url(s: &str) -> (b: bool)
    ensures
        b == web_url(s@),
{
    let c = chars_of(s);
    starts_with_exec(&c, &chars_of("http://")) || starts_with_exec(&c, &chars_of("https://"))
}

/// The URL a line of a target list gives: the trimmed line, when it is not
/// empty, not a `#` comment, and a web address.
pub open spec fn listed_url(line: Seq<char>) -> Option<Seq<char>> {
    let t = trim(line);
    if t.len() > 0 && !starts_with(t, "#"@) && web_url(t) {
        Some(t)
    } else {
        None
    }
}

/// The URLs that the lines `lines` give, in order.
pub open spec fn listed_urls(lines: Seq<Seq<char>>) -> Seq<Seq<char>>
    decreases lines.len(),
{
    if lines.len() == 0 {
        Seq::empty()
    } else {
        let prev = listed_urls(lines.drop_last());
        match listed_url(lines.last()) {
            Some(u) => prev.push(u),
            None => prev,
        }
    }
}

/// The URLs of a target list file: one per line, blank and `#` lines skipped.
/// (Splitting at `\n` gives the lines of `str::lines` up to a trailing `\r` and
/// a last empty line, neither of which can make a URL once lines are trimmed.)
pub open spec fn urls_in_list(contents: Seq<char>) -> Seq<Seq<char>> {
    listed_urls(split_on(contents, '\n'))
}

/// The URLs of a target list file.
pub fn urls_from_list(contents: &str) -> (r: Vec<String>)
    ensures
        r.deep_view() == urls_in_list(contents@),
{
    let lines = split_chars(&chars_of(contents), '\n');
    let ghost lv = lines.deep_view();
    let mut urls: Vec<String> = Vec::new();
    let mut i: usize = 0;
    while i < lines.len()
        invariant
            i <= lines.len(),
            lv == lines.deep_view(),
            lv == split_on(contents@, '\n'),
            urls.deep_view() == listed_urls(lv.take(i as int)),
        decreases lines.len() - i,
    {
        assert(lv.take(i + 1).drop_last() =~= lv.take(i as int));
        assert(lv.take(i + 1).last() == lines@[i as int]@);
        let t = trim_chars(&lines[i]);
        let ghost before_push = urls.deep_view();
        if t.len() > 0 && !starts_with_exec(&t, &chars_of("#")) && (starts_with_exec(
            &t,
            &chars_of("http://"),
        ) || starts_with_exec(&t, &chars_of("https://"))) {
            let u = string_of(&t);
            urls.push(u);
            assert(urls.deep_view() =~= before_push.push(u@));
        }
        i = i + 1;
    }
    assert(lv.take(i as int) =~= lv);
    urls
}

/// Every URL a target list gives is a web address without surrounding white space.
pub proof fn law_listed_urls_are_web_urls(contents: Seq<char>)
    ensures
        forall|i: int|
            0 <= i < urls_in_list(contents).len() ==> web_url(#[trigger] urls_in_list(contents)[i])
                && exists|line: Seq<char>| urls_in_list(contents)[i] == trim(line),
{
    lemma_listed_urls(split_on(contents, '\n'));
}

/// The URLs that lines give are trimmed web addresses.
proof fn lemma_listed_urls(lines: Seq<Seq<char>>)
    ensures
        forall|i: int|
            0 <= i < listed_urls(lines).len() ==> web_url(#[trigger] listed_urls(lines)[i])
                && exists|line: Seq<char>| listed_urls(lines)[i] == trim(line),
    decreases lines.len(),
{
    if lines.len() > 0 {
        lemma_listed_urls(lines.drop_last());
        let p = listed_urls(lines.drop_last());
        let r = listed_urls(lines);
        assert forall|i: int| 0 <= i < r.len() implies web_url(#[trigger] r[i]) && exists|line: Seq<char>|
            r[i] == trim(line) by {
            if i < p.len() {
                assert(r[i] == p[i]);
            } else {
                assert(r[i] == trim(lines.last()));
            }
        }
    }
}

/// What a command-line target resolves to.
pub enum Targets {
    /// The target is a URL itself.
    Url(String),
    /// The target is a file; these are the URLs it lists.
    Listed(Vec<String>),
    /// The target is a file that could not be read, for this reason.
    Unreadable(String),
    /// The target is neither a URL nor a file; it is treated as a single URL,
    /// with `https://` put in front of it.
    Assumed(String),
}

/// The mathematical value of a [`Targets`].
pub enum TargetsView {
    Url(Seq<char>),
    Listed(Seq<Seq<char>>),
    Unreadable(Seq<char>),
    Assumed(Seq<char>),
}

impl View for Targets {
    type V = TargetsView;

    open spec fn view(&self) -> TargetsView {
        match self {
            Targets::Url(u) => TargetsView::Url(u@),
            Targets::Listed(l) => TargetsView::Listed(l.deep_view()),
            Targets::Unreadable(e) => TargetsView::Unreadable(e@),
            Targets::Assumed(u) => TargetsView::Assumed(u@),
        }
    }
}

/// What `target` resolves to, where `file` is what reading it as a file gave:
/// `None` when no such file exists, else its contents or why they could not be read.
pub open spec fn resolution(target: Seq<char>, file: Option<Result<Seq<char>, Seq<char>>>) -> TargetsView {
    if web_url(target) {
        TargetsView::Url(target)
    } else {
        match file {
            Some(Ok(contents)) => TargetsView::Listed(urls_in_list(contents)),
            Some(Err(e)) => TargetsView::Unreadable(e),
            None => TargetsView::Assumed("https://"@ + target),
        }
    }
}

/// Resolve the target argument into a list of URLs: a URL is taken as it is;
/// else an existing file is read for the URLs it lists; else the target is
/// treated as a single URL, with `https://` put in front of it. The caller reads the file, when `target` is not a URL and
/// names one, and hands in the outcome (`None` when there is no such file).
pub fn resolve_targets(target: &str, file: Option<Result<String, String>>) -> (r: Targets)
    ensures
        r@ == resolution(
            target@,
            match file {
                Some(Ok(c)) => Some(Ok(c@)),
                Some(Err(e)) => Some(Err(e@)),
                None => None,
            },
        ),
{
    if is_web_url(target) {
        return Targets::Url(target.to_owned());
    }
    match file {
        Some(Ok(contents)) => Targets::Listed(urls_from_list(contents.as_str())),
        Some(Err(e)) => Targets::Unreadable(e),
        None => {
            let mut u = "https://".to_owned();
            u.append(target);
            Targets::Assumed(u)
        },
    }
}

} // verus!
