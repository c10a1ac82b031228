//! The decisions of a breadth-first, same-site crawl: which responses to skip,
//! which links to follow, which pages to queue, and how long to wait between
//! requests to one domain. Fetching, waiting and running tasks are left to the
//! caller.
use vstd::prelude::*;
use vstd::hash_map::StringHashMap;
use vstd::string::StringExecFns;

use crate::html::{select_attrs, selected_attrs};
use crate::text::{
    before, before_len, chars_of, contains, contains_exec, ends_with, ends_with_exec, lowercase,
    slice, starts_with, starts_with_exec, string_of, strip_trailing, strip_trailing_exec,
    to_lowercase, trim, trim_chars,
};
use crate::weburl::{join_url, joined, parsed_host, url_host};

verus! {

/// The most pages fetched at once.
pub const BATCH_SIZE: usize = 5;

// ---------------------------------------------------------------------------
// URL normalization
// ---------------------------------------------------------------------------
/// A URL as compared for having been seen: without fragment and trailing
/// slashes, lowercased.
pub open spec fn normalized_url(u: Seq<char>) -> Seq<char> {
    lowercase(strip_trailing(before(u, '#'), '/'))
}

/// The key by which URLs are compared.
pub open spec fn url_key() -> spec_fn(Seq<char>) -> Seq<char> {
    |u: Seq<char>| normalized_url(u)
}

/// Normalize a URL for deduplication (strip fragment, trailing slash).
pub fn normalize_url(url: &str) -> (r: String)
    ensures
        r@ == normalized_url(url@),
{
    let u = chars_of(url);
    let n = before_len(&u, '#');
    proof {
        crate::text::lemma_before(u@, '#');
    }
    let s = strip_trailing_exec(&slice(&u, 0, n), '/');
    to_lowercase(string_of(&s).as_str())
}

/// The part of `s` before the first `c` is all of `s` when `s` holds no `c`,
/// and `s` itself when `s` is followed by a `c`.
proof fn lemma_before_first(s: Seq<char>, c: char, rest: Seq<char>)
    requires
        forall|i: int| 0 <= i < s.len() ==> s[i] != c,
    ensures
        before(s, c) == s,
        before(s + seq![c] + rest, c) == s,
{
    crate::text::lemma_before(s, c);
    let x = s + seq![c] + rest;
    crate::text::lemma_before(x, c);
    let b = before(x, c);
    if b.len() < s.len() {
        assert(x[b.len() as int] == s[b.len() as int]);
    }
    if b.len() > s.len() {
        assert(x[s.len() as int] == c);
    }
    assert(b.len() == s.len());
    assert(x.subrange(0, s.len() as int) =~= s);
}

/// URL normalization keeps everything but the fragment and the trailing
/// slashes, and lowercases: a URL with neither is normalized to its lowercase
/// form (its query string kept), a fragment is ignored, and so is a trailing
/// slash.
pub proof fn law_normalize_url_drops_only_fragment_and_trailing_slash(u: Seq<char>, fragment: Seq<char>)
    requires
        forall|i: int| 0 <= i < u.len() ==> u[i] != '#',
    ensures
        u.len() == 0 || u.last() != '/' ==> normalized_url(u) == lowercase(u),
        normalized_url(u + seq!['#'] + fragment) == normalized_url(u),
        normalized_url(u.push('/')) == normalized_url(u),
{
    lemma_before_first(u, '#', fragment);
    let v = u.push('/');
    assert forall|i: int| 0 <= i < v.len() implies v[i] != '#' by {
        if i < u.len() {
            assert(v[i] == u[i]);
        }
    }
    lemma_before_first(v, '#', fragment);
    assert(v.drop_last() =~= u);
    assert(strip_trailing(v, '/') == strip_trailing(u, '/'));
}

// ---------------------------------------------------------------------------
// Responses to skip
// ---------------------------------------------------------------------------
/// URL endings of files that are not pages.
pub open spec fn skip_extensions() -> Seq<Seq<char>> {
    seq![
        ".png"@, ".jpg"@, ".jpeg"@, ".gif"@, ".svg"@, ".webp"@, ".ico"@, ".bmp"@, ".pdf"@,
        ".zip"@, ".gz"@, ".tar"@, ".rar"@, ".7z"@, ".exe"@, ".dll"@, ".woff"@, ".woff2"@,
        ".ttf"@, ".eot"@, ".mp3"@, ".mp4"@, ".avi"@, ".mov"@, ".wmv"@, ".flv"@, ".css"@,
        ".js"@, ".map"@, ".wasm"@,
    ]
}

/// The first of `skip_extensions()`, from position `k` on, that `lower` ends with.
pub open spec fn skipped_extension_from(lower: Seq<char>, k: int) -> Option<Seq<char>>
    decreases skip_extensions().len() - k,
{
    if k < 0 || k >= skip_extensions().len() {
        None
    } else if ends_with(lower, skip_extensions()[k]) {
        Some(skip_extensions()[k])
    } else {
        skipped_extension_from(lower, k + 1)
    }
}

/// Whether a URL is fetched: not when, lowercased, it ends with a file
/// extension of `skip_extensions()`, and then the first such extension is named.
pub open spec fn url_check(url: Seq<char>) -> Result<(), Seq<char>> {
    match skipped_extension_from(lowercase(url), 0) {
        Some(ext) => Err("Skipped binary extension: "@ + ext),
        None => Ok(()),
    }
}

/// Content types of responses that are not pages.
pub open spec fn skip_content_types() -> Seq<Seq<char>> {
    seq![
        "image/"@, "video/"@, "audio/"@, "application/pdf"@, "application/zip"@,
        "application/octet"@, "font/"@, "application/wasm"@,
    ]
}

/// Whether a response with content type `ct` is read: not when `ct` holds one
/// of `skip_content_types()`.
pub open spec fn content_type_check(ct: Seq<char>) -> Result<(), Seq<char>> {
    if exists|i: int| 0 <= i < skip_content_types().len() && contains(ct, #[trigger] skip_content_types()[i]) {
        Err("Skipped content type: "@ + ct)
    } else {
        Ok(())
    }
}

/// The text `prefix` followed by `rest`.
fn message(prefix: &str, rest: &str) -> (r: String)
    ensures
        r@ == prefix@ + rest@,
{
    let mut m = prefix.to_owned();
    m.append(rest);
    m
}

/// Skip known binary extensions, before fetching a page.
pub fn check_url(url: &str) -> (r: Result<(), String>)
    ensures
        match r {
            Ok(()) => url_check(url@) == Ok::<(), Seq<char>>(()),
            Err(m) => url_check(url@) == Err::<(), Seq<char>>(m@),
        },
{
    let lower = chars_of(to_lowercase(url).as_str());
    let exts: [&str; 30] = [
        ".png", ".jpg", ".jpeg", ".gif", ".svg", ".webp", ".ico", ".bmp", ".pdf", ".zip", ".gz",
        ".tar", ".rar", ".7z", ".exe", ".dll", ".woff", ".woff2", ".ttf", ".eot", ".mp3", ".mp4",
        ".avi", ".mov", ".wmv", ".flv", ".css", ".js", ".map", ".wasm",
    ];
    assert(exts@.map_values(|x: &str| x@) =~= skip_extensions());
    let mut i: usize = 0;
    while i < 30
        invariant
            i <= 30,
            exts@.map_values(|x: &str| x@) == skip_extensions(),
            lower@ == lowercase(url@),
            skipped_extension_from(lower@, 0) == skipped_extension_from(lower@, i as int),
        decreases 30 - i,
    {
        let ext = chars_of(exts[i]);
        assert(ext@ == skip_extensions()[i as int]);
        if ends_with_exec(&lower, &ext) {
            return Err(message("Skipped binary extension: ", exts[i]));
        }
        i = i + 1;
    }
    Ok(())
}

/// Skip responses whose content type is not a page.
pub fn check_content_type(content_type: &str) -> (r: Result<(), String>)
    ensures
        match r {
            Ok(()) => content_type_check(content_type@) == Ok::<(), Seq<char>>(()),
            Err(m) => content_type_check(content_type@) == Err::<(), Seq<char>>(m@),
        },
{
    let ct = chars_of(content_type);
    let skips: [&str; 8] = [
        "image/", "video/", "audio/", "application/pdf", "application/zip", "application/octet",
        "font/", "application/wasm",
    ];
    assert(skips@.map_values(|x: &str| x@) =~= skip_content_types());
    let mut i: usize = 0;
    while i < 8
        invariant
            i <= 8,
            skips@.map_values(|x: &str| x@) == skip_content_types(),
            ct@ == content_type@,
            forall|k: int| 0 <= k < i ==> !contains(ct@, #[trigger] skip_content_types()[k]),
        decreases 8 - i,
    {
        let skip = chars_of(skips[i]);
        assert(skip@ == skip_content_types()[i as int]);
        if contains_exec(&ct, &skip) {
            return Err(message("Skipped content type: ", content_type));
        }
        i = i + 1;
    }
    Ok(())
}

// ---------------------------------------------------------------------------
// Links to follow
// ---------------------------------------------------------------------------
/// Link targets that are not pages: fragments, scripts, mail, telephone, data.
pub open spec fn not_a_page(href: Seq<char>) -> bool {
    ||| starts_with(href, "#"@)
    ||| starts_with(href, "javascript:"@)
    ||| starts_with(href, "mailto:"@)
    ||| starts_with(href, "tel:"@)
    ||| starts_with(href, "data:"@)
}

/// A host on the crawled site: the base domain or one of its subdomains.
pub open spec fn internal_host(host: Seq<char>, base_domain: Seq<char>) -> bool {
    host == base_domain || ends_with(host, "."@ + base_domain)
}

/// The page that a link target on `page_url` leads to, without its fragment,
/// when it is a page on the crawled site.
pub open spec fn internal_link(page_url: Seq<char>, href: Seq<char>, base_domain: Seq<char>) -> Option<
    Seq<char>,
> {
    let h = trim(href);
    if not_a_page(h) {
        None
    } else {
        match joined(page_url, h) {
            Some((Some(host), u)) => if internal_host(host, base_domain) {
                Some(before(u, '#'))
            } else {
                None
            },
            _ => None,
        }
    }
}

/// The internal links that link targets give, in order.
pub open spec fn internal_links_from(
    page_url: Seq<char>,
    hrefs: Seq<Option<Seq<char>>>,
    base_domain: Seq<char>,
) -> Seq<Seq<char>>
    decreases hrefs.len(),
{
    if hrefs.len() == 0 {
        Seq::empty()
    } else {
        let prev = internal_links_from(page_url, hrefs.drop_last(), base_domain);
        match hrefs.last() {
            Some(h) => match internal_link(page_url, h, base_domain) {
                Some(u) => prev.push(u),
                None => prev,
            },
            None => prev,
        }
    }
}

/// The internal links of the HTML page at `page_url`.
pub open spec fn internal_links_in(html: Seq<char>, page_url: Seq<char>, base_domain: Seq<char>) -> Seq<
    Seq<char>,
> {
    match selected_attrs(html, "a[href]"@, "href"@) {
        Some(h) => internal_links_from(page_url, h, base_domain),
        None => Seq::empty(),
    }
}

/// Whether the trimmed link target `h` is not a page.
fn is_not_a_page(h: &Vec<char>) -> (b: bool)
    ensures
        b == not_a_page(h@),
{
    starts_with_exec(h, &chars_of("#")) || starts_with_exec(h, &chars_of("javascript:"))
        || starts_with_exec(h, &chars_of("mailto:")) || starts_with_exec(h, &chars_of("tel:"))
        || starts_with_exec(h, &chars_of("data:"))
}

/// The page a link target leads to, when it is internal.
pub fn internal_link_of(page_url: &str, href: &str, base_domain: &str) -> (r: Option<String>)
    ensures
        r.deep_view() == internal_link(page_url@, href@, base_domain@),
{
    let h = string_of(&trim_chars(&chars_of(href)));
    if is_not_a_page(&chars_of(h.as_str())) {
        return None;
    }
    match join_url(page_url, h.as_str()) {
        Some((Some(host), u)) => {
            let hc = chars_of(host.as_str());
            let dotted = chars_of(message(".", base_domain).as_str());
            if crate::text::same_text(host.as_str(), base_domain) || ends_with_exec(&hc, &dotted) {
                let uc = chars_of(u.as_str());
                let n = before_len(&uc, '#');
                proof {
                    crate::text::lemma_before(uc@, '#');
                }
                Some(string_of(&slice(&uc, 0, n)))
            } else {
                None
            }
        },
        _ => None,
    }
}

/// The internal links that the link targets give.
pub fn collect_internal_links(
    page_url: &str,
    hrefs: Option<Vec<Option<String>>>,
    base_domain: &str,
) -> (r: Vec<String>)
    ensures
        r.deep_view() == match hrefs.deep_view() {
            Some(h) => internal_links_from(page_url@, h, base_domain@),
            None => Seq::empty(),
        },
{
    let mut links: Vec<String> = Vec::new();
    if let Some(hs) = &hrefs {
        let ghost hv = hs.deep_view();
        let mut i: usize = 0;
        assert(links.deep_view() =~= internal_links_from(page_url@, hv.take(0), base_domain@));
        while i < hs.len()
            invariant
                i <= hs.len(),
                hv == hs.deep_view(),
                links.deep_view() == internal_links_from(page_url@, hv.take(i as int), base_domain@),
            decreases hs.len() - i,
        {
            assert(hv.take(i + 1).drop_last() =~= hv.take(i as int));
            assert(hv.take(i + 1).last() == hs@[i as int].deep_view());
            let ghost before_push = links.deep_view();
            if let Some(h) = &hs[i] {
                if let Some(u) = internal_link_of(page_url, h.as_str(), base_domain) {
                    links.push(u);
                    assert(links.deep_view() =~= before_push.push(u@));
                }
            }
            i = i + 1;
        }
        assert(hv.take(i as int) =~= hv);
    }
    links
}

/// Extract internal links (same domain) from an HTML page.
pub fn extract_internal_links(html: &str, page_url: &str, base_domain: &str) -> (r: Vec<String>)
    ensures
        r.deep_view() == internal_links_in(html@, page_url@, base_domain@),
{
    collect_internal_links(page_url, select_attrs(html, "a[href]", "href"), base_domain)
}

/// The domain that a crawl starting at `start` stays on, or why there is none.
pub open spec fn base_domain_of(start: Seq<char>) -> Result<Seq<char>, Seq<char>> {
    match parsed_host(start) {
        Err(e) => Err("Invalid URL: "@ + e),
        Ok(None) => Err("URL has no host"@),
        Ok(Some(h)) => Ok(h),
    }
}

/// The host of the start URL, which the crawl stays on.
pub fn base_domain(start_url: &str) -> (r: Result<String, String>)
    ensures
        base_domain_of(start_url@) == match r {
            Ok(h) => Ok(h@),
            Err(m) => Err(m@),
        },
{
    match url_host(start_url) {
        Err(e) => Err(message("Invalid URL: ", e.as_str())),
        Ok(None) => Err("URL has no host".to_owned()),
        Ok(Some(h)) => Ok(h),
    }
}

/// No link that a page gives to follow holds a fragment (`#`).
pub proof fn law_internal_links_have_no_fragment(html: Seq<char>, page_url: Seq<char>, base_domain: Seq<char>)
    ensures
        forall|i: int, j: int|
            0 <= i < internal_links_in(html, page_url, base_domain).len() && 0 <= j < internal_links_in(
                html,
                page_url,
                base_domain,
            )[i].len() ==> #[trigger] internal_links_in(html, page_url, base_domain)[i][j] != '#',
{
    if let Some(h) = selected_attrs(html, "a[href]"@, "href"@) {
        lemma_links_have_no_fragment(page_url, h, base_domain);
    }
}

/// The links that link targets give hold no `#`.
proof fn lemma_links_have_no_fragment(page_url: Seq<char>, h: Seq<Option<Seq<char>>>, base_domain: Seq<char>)
    ensures
        forall|i: int, j: int|
            0 <= i < internal_links_from(page_url, h, base_domain).len() && 0 <= j
                < internal_links_from(page_url, h, base_domain)[i].len() ==> #[trigger] internal_links_from(
                page_url,
                h,
                base_domain,
            )[i][j] != '#',
    decreases h.len(),
{
    if h.len() > 0 {
        lemma_links_have_no_fragment(page_url, h.drop_last(), base_domain);
        let p = internal_links_from(page_url, h.drop_last(), base_domain);
        let r = internal_links_from(page_url, h, base_domain);
        assert forall|i: int, j: int| 0 <= i < r.len() && 0 <= j < r[i].len() implies #[trigger] r[i][j]
            != '#' by {
            if i < p.len() {
                assert(r[i] == p[i]);
            } else {
                let x = h.last()->0;
                let u = (joined(page_url, trim(x))->0).1;
                crate::text::lemma_before(u, '#');
                assert(r[i] == before(u, '#'));
            }
        }
    }
}

// ---------------------------------------------------------------------------
// Spacing requests to one domain
// ---------------------------------------------------------------------------
/// How long to wait, in the caller's unit of time, before a request at time `now` when the
/// last request to the same domain was at `last` (if any): what is left of
/// `min_interval` since then. Time before `last` counts as no time elapsed.
pub open spec fn wait_needed(last: Option<u64>, now: u64, min_interval: u64) -> u64 {
    match last {
        None => 0,
        Some(t) => {
            let elapsed = if now >= t {
                (now - t) as u64
            } else {
                0u64
            };
            if elapsed < min_interval {
                (min_interval - elapsed) as u64
            } else {
                0
            }
        },
    }
}

/// Per-domain rate limiter state: the time of the last request to each domain,
/// on the caller's clock, and the least time between two of them, in the same unit.
pub struct RateLimiter {
    last_request: StringHashMap<u64>,
    min_interval: u64,
}

impl RateLimiter {
    /// The times of the last request to each domain.
    pub closed spec fn last_requests(&self) -> Map<Seq<char>, u64> {
        self.last_request@
    }

    /// The least time between two requests to one domain.
    pub closed spec fn interval(&self) -> u64 {
        self.min_interval
    }

    /// A limiter that has seen no request, spacing requests by `min_interval`.
    pub fn new(min_interval: u64) -> (r: Self)
        ensures
            r.last_requests() == Map::<Seq<char>, u64>::empty(),
            r.interval() == min_interval,
    {
        RateLimiter { last_request: StringHashMap::new(), min_interval }
    }

    /// How long to wait before a request to `domain` at time `now`.
    pub fn wait_for(&self, domain: &str, now: u64) -> (w: u64)
        ensures
            w == wait_needed(
                if self.last_requests().contains_key(domain@) {
                    Some(self.last_requests()[domain@])
                } else {
                    None
                },
                now,
                self.interval(),
            ),
    {
        match self.last_request.get(domain) {
            None => 0,
            Some(last) => {
                let elapsed = if now >= *last {
                    now - *last
                } else {
                    0
                };
                if elapsed < self.min_interval {
                    self.min_interval - elapsed
                } else {
                    0
                }
            },
        }
    }

    /// Notes a request to `domain` at time `now`.
    pub fn record(&mut self, domain: &str, now: u64)
        ensures
            final(self).last_requests() == old(self).last_requests().insert(domain@, now),
            final(self).interval() == old(self).interval(),
    {
        self.last_request.insert(domain.to_owned(), now);
    }
}

/// A request made after the wait that the limiter asks for comes at least the
/// interval after the last request to that domain; with no earlier request
/// there is no wait.
pub proof fn law_wait_spaces_requests(last: Option<u64>, now: u64, min_interval: u64)
    ensures
        last is None ==> wait_needed(last, now, min_interval) == 0,
        forall|t: u64|
            last == Some(t) && t <= now ==> now + wait_needed(last, now, min_interval) >= t
                + min_interval,
        wait_needed(last, now, min_interval) <= min_interval,
{
}

} // verus!
