//! Extraction of emails, phone numbers, social links and names from an HTML page.
use vstd::prelude::*;

use crate::html::{select_attrs, selected_attrs};
use crate::lead::{
    distinct_keys, lead_dedup, lemma_dedup_distinct, lemma_dedup_from_input,
    social_key, string_key, Lead, LeadView, Social, SocialView,
};
use crate::pattern::{capture_all, find_all, regex_captures, regex_matches, regex_replaced, replace_all};
use crate::text::{after, before, chars_of, collapse_white_space, contains, contains_exec, digit_count, digit_count_exec, ends_with, ends_with_exec, join_words, lowercase, same_text, slice, starts_with, starts_with_exec, string_of, strip_both, strip_leading, strip_prefixes, strip_prefixes_exec, strip_leading_exec, strip_trailing, to_lowercase, trim, trim_chars, words, before_len, utf8_len, utf8_len_below};
use crate::weburl::{parsed_path, url_path};

verus! {

// ---------------------------------------------------------------------------
// Patterns and selectors
// ---------------------------------------------------------------------------
/// Email addresses in running text.
pub const EMAIL_PATTERN: &'static str = r"[a-zA-Z0-9._%+\-]+@[a-zA-Z0-9.\-]+\.[a-zA-Z]{2,}";

/// International numbers: `+1 (234) 567-8901`, `+44 20 7946 0958`.
pub const INTERNATIONAL_PHONE_PATTERN: &'static str =
    r"\+\d{1,3}[\s\-]?\(?\d{1,4}\)?[\s\-]?\d{2,4}[\s\-]?\d{2,4}[\s\-]?\d{0,4}";

/// North American numbers with a parenthesised area code: `(234) 567-8901`.
pub const AREA_CODE_PHONE_PATTERN: &'static str = r"\(\d{3}\)\s?\d{3}[\-\s]\d{4}";

/// Dash or dot separated numbers: `234-567-8901`, `234.567.8901`.
pub const SEPARATED_PHONE_PATTERN: &'static str = r"\b\d{3}[\-\.]\d{3}[\-\.]\d{4}\b";

/// An HTML tag.
pub const TAG_PATTERN: &'static str = r"<[^>]+>";

/// A Schema.org `Person` with its name after the type.
pub const PERSON_TYPE_FIRST_PATTERN: &'static str =
    r#""@type"\s*:\s*"Person"[^}]*"name"\s*:\s*"([^"]+)""#;

/// A Schema.org `Person` with its name before the type.
pub const PERSON_NAME_FIRST_PATTERN: &'static str =
    r#""name"\s*:\s*"([^"]+)"[^}]*"@type"\s*:\s*"Person""#;

/// Links whose target is an email address.
pub const MAILTO_SELECTOR: &'static str = "a[href^='mailto:']";

/// Links whose target is a telephone number.
pub const TEL_SELECTOR: &'static str = "a[href^='tel:']";

/// Every link.
pub const LINK_SELECTOR: &'static str = "a[href]";

/// The author meta tag.
pub const AUTHOR_SELECTOR: &'static str = "meta[name='author']";

/// The Dublin Core creator meta tag.
pub const CREATOR_SELECTOR: &'static str = "meta[name='DC.creator']";

/// The Open Graph site name meta tag.
pub const SITE_NAME_SELECTOR: &'static str = "meta[property='og:site_name']";

// ---------------------------------------------------------------------------
// False email matches
// ---------------------------------------------------------------------------
/// File extensions that show an email-like match to be a file name.
pub open spec fn false_email_extensions() -> Seq<Seq<char>> {
    seq![
        ".png"@, ".jpg"@, ".jpeg"@, ".gif"@, ".svg"@, ".webp"@, ".bmp"@, ".ico"@, ".tiff"@,
        ".pdf"@, ".zip"@, ".gz"@, ".tar"@, ".rar"@, ".7z"@, ".exe"@, ".dll"@, ".woff"@,
        ".woff2"@, ".ttf"@, ".eot"@, ".mp3"@, ".mp4"@, ".avi"@, ".mov"@, ".css"@, ".js"@,
        ".map"@,
    ]
}

/// An email-like match that is a file name or another false positive.
pub open spec fn false_email(e: Seq<char>) -> bool {
    ||| exists|i: int|
        0 <= i < false_email_extensions().len() && ends_with(
            e,
            #[trigger] false_email_extensions()[i],
        )
    ||| contains(e, "example.com"@)
    ||| contains(e, "sentry.io"@)
    ||| contains(e, "webpack"@)
    ||| starts_with(e, "data:"@)
}

/// Check if an email-like match is actually a filename or other false positive.
pub fn is_false_email(email: &str) -> (b: bool)
    ensures
        b == false_email(email@),
{
    let e = chars_of(email);
    let exts: [&str; 28] = [
        ".png", ".jpg", ".jpeg", ".gif", ".svg", ".webp", ".bmp", ".ico", ".tiff", ".pdf", ".zip",
        ".gz", ".tar", ".rar", ".7z", ".exe", ".dll", ".woff", ".woff2", ".ttf", ".eot", ".mp3",
        ".mp4", ".avi", ".mov", ".css", ".js", ".map",
    ];
    assert(exts@.map_values(|x: &str| x@) =~= false_email_extensions());
    let mut i: usize = 0;
    while i < 28
        invariant
            i <= 28,
            exts@.map_values(|x: &str| x@) == false_email_extensions(),
            forall|k: int| 0 <= k < i ==> !ends_with(e@, #[trigger] false_email_extensions()[k]),
            e@ == email@,
        decreases 28 - i,
    {
        let ext = chars_of(exts[i]);
        assert(ext@ == false_email_extensions()[i as int]);
        if ends_with_exec(&e, &ext) {
            return true;
        }
        i = i + 1;
    }
    contains_exec(&e, &chars_of("example.com")) || contains_exec(&e, &chars_of("sentry.io"))
        || contains_exec(&e, &chars_of("webpack")) || starts_with_exec(&e, &chars_of("data:"))
}

// ---------------------------------------------------------------------------
// Emails
// ---------------------------------------------------------------------------
/// The emails that the text matches give: each match lowercased, false ones dropped.
pub open spec fn emails_from_text(matches: Seq<Seq<char>>) -> Seq<Seq<char>>
    decreases matches.len(),
{
    if matches.len() == 0 {
        Seq::empty()
    } else {
        let prev = emails_from_text(matches.drop_last());
        let e = lowercase(matches.last());
        if false_email(e) {
            prev
        } else {
            prev.push(e)
        }
    }
}

/// The address of a `mailto:` link target: what follows the scheme and
/// precedes any `?`, trimmed and lowercased.
pub open spec fn mailto_address(href: Seq<char>) -> Seq<char> {
    lowercase(trim(before(strip_prefixes(href, "mailto:"@), '?')))
}

/// The emails that `mailto:` link targets give: non-empty addresses that are not false.
pub open spec fn emails_from_links(hrefs: Seq<Option<Seq<char>>>) -> Seq<Seq<char>>
    decreases hrefs.len(),
{
    if hrefs.len() == 0 {
        Seq::empty()
    } else {
        let prev = emails_from_links(hrefs.drop_last());
        match hrefs.last() {
            Some(h) => {
                let a = mailto_address(h);
                if a.len() > 0 && !false_email(a) {
                    prev.push(a)
                } else {
                    prev
                }
            },
            None => prev,
        }
    }
}

/// The emails found from the text matches and then from the link targets.
pub open spec fn emails_found(
    matches: Option<Seq<Seq<char>>>,
    hrefs: Option<Seq<Option<Seq<char>>>>,
) -> Seq<Seq<char>> {
    (match matches {
        Some(m) => emails_from_text(m),
        None => Seq::empty(),
    }) + (match hrefs {
        Some(h) => emails_from_links(h),
        None => Seq::empty(),
    })
}

/// The emails of an HTML page: matches of [`EMAIL_PATTERN`] in it, then the
/// targets of its `mailto:` links.
pub open spec fn emails_in(html: Seq<char>) -> Seq<Seq<char>> {
    emails_found(
        regex_matches(EMAIL_PATTERN@, html),
        selected_attrs(html, MAILTO_SELECTOR@, "href"@),
    )
}

/// The address of a `mailto:` link target.
pub fn mailto_address_of(href: &str) -> (r: String)
    ensures
        r@ == mailto_address(href@),
{
    let h = chars_of(href);
    let rest = strip_prefixes_exec(&h, &chars_of("mailto:"));
    let n = before_len(&rest, '?');
    proof {
        crate::text::lemma_before(rest@, '?');
    }
    let addr = trim_chars(&slice(&rest, 0, n));
    to_lowercase(string_of(&addr).as_str())
}

/// The emails that the matches of the email pattern and the `mailto:` link
/// targets give, in that order.
pub fn collect_emails(matches: Option<Vec<String>>, mailto_hrefs: Option<Vec<Option<String>>>) -> (r:
    Vec<String>)
    ensures
        r.deep_view() == emails_found(matches.deep_view(), mailto_hrefs.deep_view()),
{
    let mut emails: Vec<String> = Vec::new();
    if let Some(m) = &matches {
        let ghost ms = m.deep_view();
        let mut i: usize = 0;
        while i < m.len()
            invariant
                i <= m.len(),
                ms == m.deep_view(),
                emails.deep_view() == emails_from_text(ms.take(i as int)),
            decreases m.len() - i,
        {
            assert(ms.take(i + 1).drop_last() =~= ms.take(i as int));
            let ghost before_push = emails.deep_view();
            let email = to_lowercase(m[i].as_str());
            if !is_false_email(email.as_str()) {
                emails.push(email);
                assert(emails.deep_view() =~= before_push.push(email@));
            }
            i = i + 1;
        }
        assert(ms.take(i as int) =~= ms);
    }
    let ghost from_text = emails.deep_view();
    if let Some(hs) = &mailto_hrefs {
        let ghost hv = hs.deep_view();
        let mut i: usize = 0;
        assert(emails.deep_view() =~= from_text + emails_from_links(hv.take(0)));
        while i < hs.len()
            invariant
                i <= hs.len(),
                hv == hs.deep_view(),
                emails.deep_view() == from_text + emails_from_links(hv.take(i as int)),
            decreases hs.len() - i,
        {
            assert(hv.take(i + 1).drop_last() =~= hv.take(i as int));
            assert(hv.take(i + 1).last() == hs@[i as int].deep_view());
            let ghost before_push = emails.deep_view();
            if let Some(href) = &hs[i] {
                let addr = mailto_address_of(href.as_str());
                if !addr.as_str().is_empty() && !is_false_email(addr.as_str()) {
                    emails.push(addr);
                    assert(emails.deep_view() =~= before_push.push(addr@));
                }
            }
            assert(emails.deep_view() =~= from_text + emails_from_links(hv.take(i + 1)));
            i = i + 1;
        }
        assert(hv.take(i as int) =~= hv);
    } else {
        assert(emails.deep_view() =~= from_text + Seq::<Seq<char>>::empty());
    }
    if matches.is_none() {
        assert(from_text =~= Seq::<Seq<char>>::empty());
    }
    emails
}

/// Extract email addresses from HTML content via regex and mailto: links.
pub fn extract_emails(html: &str) -> (r: Vec<String>)
    ensures
        r.deep_view() == emails_in(html@),
{
    let matches = find_all(EMAIL_PATTERN, html);
    let hrefs = select_attrs(html, MAILTO_SELECTOR, "href");
    collect_emails(matches, hrefs)
}

// ---------------------------------------------------------------------------
// Phones
// ---------------------------------------------------------------------------
/// A phone number with its white space normalized: its white-space separated
/// parts joined by single spaces.
pub open spec fn normalized_phone(p: Seq<char>) -> Seq<char> {
    trim(join_words(words(p)))
}

/// Normalize whitespace in phone numbers.
pub fn normalize_phone(phone: &str) -> (r: String)
    ensures
        r@ == normalized_phone(phone@),
{
    let joined = collapse_white_space(&chars_of(phone));
    string_of(&trim_chars(&joined))
}

/// Normalizing a normalized phone number changes nothing.
pub proof fn law_normalize_phone_idempotent(p: Seq<char>)
    ensures
        normalized_phone(normalized_phone(p)) == normalized_phone(p),
{
    crate::text::law_collapse_white_space_idempotent(p);
}

/// A text match is taken as a phone number when, trimmed, it holds 7 to 15 digits.
pub open spec fn plausible_phone(m: Seq<char>) -> bool {
    7 <= digit_count(trim(m)) <= 15
}

/// The phone numbers that matches in the page text give.
pub open spec fn phones_from_text(matches: Seq<Seq<char>>) -> Seq<Seq<char>>
    decreases matches.len(),
{
    if matches.len() == 0 {
        Seq::empty()
    } else {
        let prev = phones_from_text(matches.drop_last());
        if plausible_phone(matches.last()) {
            prev.push(normalized_phone(trim(matches.last())))
        } else {
            prev
        }
    }
}

/// The number of a `tel:` link target: what follows the scheme, trimmed.
pub open spec fn tel_number(href: Seq<char>) -> Seq<char> {
    trim(strip_prefixes(href, "tel:"@))
}

/// The phone numbers that `tel:` link targets give: the non-empty numbers, normalized.
pub open spec fn phones_from_links(hrefs: Seq<Option<Seq<char>>>) -> Seq<Seq<char>>
    decreases hrefs.len(),
{
    if hrefs.len() == 0 {
        Seq::empty()
    } else {
        let prev = phones_from_links(hrefs.drop_last());
        match hrefs.last() {
            Some(h) => if tel_number(h).len() > 0 {
                prev.push(normalized_phone(tel_number(h)))
            } else {
                prev
            },
            None => prev,
        }
    }
}

/// The phone numbers of one search, none when the pattern did not compile.
pub open spec fn phones_from_search(matches: Option<Seq<Seq<char>>>) -> Seq<Seq<char>> {
    match matches {
        Some(m) => phones_from_text(m),
        None => Seq::empty(),
    }
}

/// The phone numbers found by the three text searches, then from the link targets.
pub open spec fn phones_found(
    international: Option<Seq<Seq<char>>>,
    area_code: Option<Seq<Seq<char>>>,
    separated: Option<Seq<Seq<char>>>,
    hrefs: Option<Seq<Option<Seq<char>>>>,
) -> Seq<Seq<char>> {
    phones_from_search(international) + phones_from_search(area_code) + phones_from_search(
        separated,
    ) + match hrefs {
        Some(h) => phones_from_links(h),
        None => Seq::empty(),
    }
}

/// The text of an HTML page: every tag replaced by a space.
pub open spec fn page_text(html: Seq<char>) -> Seq<char> {
    match regex_replaced(TAG_PATTERN@, html, " "@) {
        Some(t) => t,
        None => Seq::empty(),
    }
}

/// The phone numbers of an HTML page: matches of the three phone patterns in its
/// text, then the targets of its `tel:` links.
pub open spec fn phones_in(html: Seq<char>) -> Seq<Seq<char>> {
    let t = page_text(html);
    phones_found(
        regex_matches(INTERNATIONAL_PHONE_PATTERN@, t),
        regex_matches(AREA_CODE_PHONE_PATTERN@, t),
        regex_matches(SEPARATED_PHONE_PATTERN@, t),
        selected_attrs(html, TEL_SELECTOR@, "href"@),
    )
}

/// Strip HTML tags to get plain text (simple approach).
pub fn strip_tags(html: &str) -> (r: String)
    ensures
        r@ == page_text(html@),
{
    match replace_all(TAG_PATTERN, html, " ") {
        Some(t) => t,
        None => String::new(),
    }
}

/// Appends the phone numbers that one text search gives.
fn push_text_phones(phones: &mut Vec<String>, matches: &Option<Vec<String>>)
    ensures
        final(phones).deep_view() == old(phones).deep_view() + phones_from_search(
            matches.deep_view(),
        ),
{
    let ghost start = phones.deep_view();
    if let Some(m) = matches {
        let ghost ms = m.deep_view();
        let mut i: usize = 0;
        assert(phones.deep_view() =~= start + phones_from_text(ms.take(0)));
        while i < m.len()
            invariant
                i <= m.len(),
                ms == m.deep_view(),
                phones.deep_view() == start + phones_from_text(ms.take(i as int)),
            decreases m.len() - i,
        {
            assert(ms.take(i + 1).drop_last() =~= ms.take(i as int));
            assert(ms.take(i + 1).last() == m@[i as int]@);
            let ghost before_push = phones.deep_view();
            let phone = trim_chars(&chars_of(m[i].as_str()));
            let digits = digit_count_exec(&phone);
            if digits >= 7 && digits <= 15 {
                let p = normalize_phone(string_of(&phone).as_str());
                phones.push(p);
                assert(phones.deep_view() =~= before_push.push(p@));
            }
            assert(phones.deep_view() =~= start + phones_from_text(ms.take(i + 1)));
            i = i + 1;
        }
        assert(ms.take(i as int) =~= ms);
    } else {
        assert(phones.deep_view() =~= start + Seq::<Seq<char>>::empty());
    }
}

/// The number of a `tel:` link target.
pub fn tel_number_of(href: &str) -> (r: String)
    ensures
        r@ == tel_number(href@),
{
    let rest = strip_prefixes_exec(&chars_of(href), &chars_of("tel:"));
    string_of(&trim_chars(&rest))
}

/// The phone numbers that the three text searches and the `tel:` link targets
/// give, in that order.
pub fn collect_phones(
    international: Option<Vec<String>>,
    area_code: Option<Vec<String>>,
    separated: Option<Vec<String>>,
    tel_hrefs: Option<Vec<Option<String>>>,
) -> (r: Vec<String>)
    ensures
        r.deep_view() == phones_found(
            international.deep_view(),
            area_code.deep_view(),
            separated.deep_view(),
            tel_hrefs.deep_view(),
        ),
{
    let mut phones: Vec<String> = Vec::new();
    push_text_phones(&mut phones, &international);
    push_text_phones(&mut phones, &area_code);
    push_text_phones(&mut phones, &separated);
    let ghost from_text = phones.deep_view();
    if let Some(hs) = &tel_hrefs {
        let ghost hv = hs.deep_view();
        let mut i: usize = 0;
        assert(phones.deep_view() =~= from_text + phones_from_links(hv.take(0)));
        while i < hs.len()
            invariant
                i <= hs.len(),
                hv == hs.deep_view(),
                phones.deep_view() == from_text + phones_from_links(hv.take(i as int)),
            decreases hs.len() - i,
        {
            assert(hv.take(i + 1).drop_last() =~= hv.take(i as int));
            assert(hv.take(i + 1).last() == hs@[i as int].deep_view());
            let ghost before_push = phones.deep_view();
            if let Some(href) = &hs[i] {
                let num = tel_number_of(href.as_str());
                if !num.as_str().is_empty() {
                    let p = normalize_phone(num.as_str());
                    phones.push(p);
                    assert(phones.deep_view() =~= before_push.push(p@));
                }
            }
            assert(phones.deep_view() =~= from_text + phones_from_links(hv.take(i + 1)));
            i = i + 1;
        }
        assert(hv.take(i as int) =~= hv);
    } else {
        assert(phones.deep_view() =~= from_text + Seq::<Seq<char>>::empty());
    }
    phones
}

/// Extract phone numbers in various international formats.
pub fn extract_phones(html: &str) -> (r: Vec<String>)
    ensures
        r.deep_view() == phones_in(html@),
{
    let text = strip_tags(html);
    let international = find_all(INTERNATIONAL_PHONE_PATTERN, text.as_str());
    let area_code = find_all(AREA_CODE_PHONE_PATTERN, text.as_str());
    let separated = find_all(SEPARATED_PHONE_PATTERN, text.as_str());
    let tel_hrefs = select_attrs(html, TEL_SELECTOR, "href");
    collect_phones(international, area_code, separated, tel_hrefs)
}

// ---------------------------------------------------------------------------
// Social links
// ---------------------------------------------------------------------------
/// The known social platforms, in the order they are tried.
pub open spec fn platform_names() -> Seq<Seq<char>> {
    seq![
        "github"@, "linkedin"@, "twitter"@, "instagram"@, "facebook"@, "youtube"@, "tiktok"@,
        "mastodon"@,
    ]
}

/// The URL fragments that identify a link to platform `k`.
pub open spec fn platform_patterns(k: int) -> Seq<Seq<char>> {
    if k == 0 {
        seq!["github.com/"@]
    } else if k == 1 {
        seq!["linkedin.com/in/"@, "linkedin.com/company/"@]
    } else if k == 2 {
        seq!["twitter.com/"@, "x.com/"@]
    } else if k == 3 {
        seq!["instagram.com/"@]
    } else if k == 4 {
        seq!["facebook.com/"@, "fb.com/"@]
    } else if k == 5 {
        seq!["youtube.com/"@, "youtu.be/"@]
    } else if k == 6 {
        seq!["tiktok.com/@"@]
    } else {
        seq!["mastodon.social/@"@]
    }
}

/// The lowercased link `lower` holds one of the fragments of platform `k`.
pub open spec fn platform_matches(lower: Seq<char>, k: int) -> bool {
    exists|j: int|
        0 <= j < platform_patterns(k).len() && contains(lower, #[trigger] platform_patterns(k)[j])
}

/// Path segments that name a feature of a platform rather than a user.
pub open spec fn generic_paths() -> Seq<Seq<char>> {
    seq!["share"@, "intent"@, "hashtag"@, "search"@, "explore"@, "settings"@, "about"@]
}

/// The username that a URL path names on `platform`: the second path segment
/// on LinkedIn, the first without its leading `@` elsewhere, where a first
/// segment that names a generic page gives none; never an empty one.
pub open spec fn username_from(path: Option<Seq<char>>, platform: Seq<char>) -> Option<Seq<char>> {
    match path {
        None => None,
        Some(p) => {
            let t = strip_trailing(strip_leading(p, '/'), '/');
            if t.len() == 0 {
                None
            } else {
                let first = strip_leading(before(t, '/'), '@');
                let u = if platform == "linkedin"@ {
                    match after(t, '/') {
                        Some(rest) => Some(before(rest, '/')),
                        None => None,
                    }
                } else if platform == "tiktok"@ || platform == "mastodon"@ {
                    Some(first)
                } else if generic_paths().contains(lowercase(first)) {
                    None
                } else {
                    Some(first)
                };
                match u {
                    Some(x) => if x.len() > 0 {
                        Some(x)
                    } else {
                        None
                    },
                    None => None,
                }
            }
        },
    }
}

/// The social link to platform `k` that `href` gives.
pub open spec fn social_for(href: Seq<char>, k: int) -> SocialView {
    SocialView {
        platform: platform_names()[k],
        url: href,
        username: username_from(parsed_path(href), platform_names()[k]),
    }
}

/// The social links that `href` gives among the first `n` platforms.
pub open spec fn socials_among(href: Seq<char>, n: nat) -> Seq<SocialView>
    decreases n,
{
    if n == 0 {
        Seq::empty()
    } else {
        let prev = socials_among(href, (n - 1) as nat);
        if platform_matches(lowercase(href), n - 1) {
            prev.push(social_for(href, n - 1))
        } else {
            prev
        }
    }
}

/// The social links that a (trimmed) link target gives: one for every
/// platform whose fragments it holds, ignoring case.
pub open spec fn socials_for(href: Seq<char>) -> Seq<SocialView> {
    socials_among(href, 8)
}

/// The social links that link targets give, each target trimmed.
pub open spec fn socials_from_links(hrefs: Seq<Option<Seq<char>>>) -> Seq<SocialView>
    decreases hrefs.len(),
{
    if hrefs.len() == 0 {
        Seq::empty()
    } else {
        let prev = socials_from_links(hrefs.drop_last());
        match hrefs.last() {
            Some(h) => prev + socials_for(trim(h)),
            None => prev,
        }
    }
}

/// The social links of an HTML page: those that its link targets give.
pub open spec fn socials_in(html: Seq<char>) -> Seq<SocialView> {
    match selected_attrs(html, LINK_SELECTOR@, "href"@) {
        Some(h) => socials_from_links(h),
        None => Seq::empty(),
    }
}

/// The name of platform `k`.
fn platform_name(k: usize) -> (r: &'static str)
    requires
        k < 8,
    ensures
        r@ == platform_names()[k as int],
{
    match k {
        0 => "github",
        1 => "linkedin",
        2 => "twitter",
        3 => "instagram",
        4 => "facebook",
        5 => "youtube",
        6 => "tiktok",
        _ => "mastodon",
    }
}

/// The URL fragments of platform `k`.
fn platform_pattern_list(k: usize) -> (r: Vec<&'static str>)
    requires
        k < 8,
    ensures
        r@.map_values(|p: &str| p@) == platform_patterns(k as int),
{
    let r = match k {
        0 => vec!["github.com/"],
        1 => vec!["linkedin.com/in/", "linkedin.com/company/"],
        2 => vec!["twitter.com/", "x.com/"],
        3 => vec!["instagram.com/"],
        4 => vec!["facebook.com/", "fb.com/"],
        5 => vec!["youtube.com/", "youtu.be/"],
        6 => vec!["tiktok.com/@"],
        _ => vec!["mastodon.social/@"],
    };
    assert(r@.map_values(|p: &str| p@) =~= platform_patterns(k as int));
    r
}

/// Whether the lowercased link `lower` holds one of the fragments of platform `k`.
fn matches_platform(lower: &Vec<char>, k: usize) -> (b: bool)
    requires
        k < 8,
    ensures
        b == platform_matches(lower@, k as int),
{
    let pats = platform_pattern_list(k);
    let ghost ps = platform_patterns(k as int);
    let mut j: usize = 0;
    while j < pats.len()
        invariant
            j <= pats.len(),
            pats@.map_values(|p: &str| p@) == ps,
            ps == platform_patterns(k as int),
            forall|i: int| 0 <= i < j ==> !contains(lower@, #[trigger] ps[i]),
        decreases pats.len() - j,
    {
        let pat = chars_of(pats[j]);
        assert(pat@ == ps[j as int]);
        if contains_exec(lower, &pat) {
            return true;
        }
        j = j + 1;
    }
    false
}

/// Whether `name` is one of the generic path segments.
fn is_generic_path(name: &str) -> (b: bool)
    ensures
        b == generic_paths().contains(name@),
{
    let generic: [&str; 7] = ["share", "intent", "hashtag", "search", "explore", "settings", "about"];
    assert(generic@.map_values(|x: &str| x@) =~= generic_paths());
    let mut i: usize = 0;
    while i < 7
        invariant
            i <= 7,
            generic@.map_values(|x: &str| x@) == generic_paths(),
            forall|k: int| 0 <= k < i ==> generic_paths()[k] != name@,
        decreases 7 - i,
    {
        assert(generic[i as int]@ == generic_paths()[i as int]);
        if same_text(generic[i], name) {
            assert(generic_paths()[i as int] == name@);
            return true;
        }
        i = i + 1;
    }
    false
}

/// The username that a URL path names on `platform`.
pub fn username_from_path(path: Option<String>, platform: &str) -> (r: Option<String>)
    ensures
        r.deep_view() == username_from(path.deep_view(), platform@),
{
    let p = match path {
        Some(p) => p,
        None => {
            return None;
        },
    };
    let t = strip_both(&chars_of(p.as_str()), '/');
    if t.len() == 0 {
        return None;
    }
    let n = before_len(&t, '/');
    proof {
        crate::text::lemma_before(t@, '/');
    }
    let first = strip_leading_exec(&slice(&t, 0, n), '@');
    let u: Option<Vec<char>> = if same_text(platform, "linkedin") {
        if n < t.len() {
            let rest = slice(&t, n + 1, t.len());
            let m = before_len(&rest, '/');
            proof {
                crate::text::lemma_before(rest@, '/');
            }
            Some(slice(&rest, 0, m))
        } else {
            None
        }
    } else if same_text(platform, "tiktok") || same_text(platform, "mastodon") {
        Some(first)
    } else {
        let lower = to_lowercase(string_of(&first).as_str());
        if is_generic_path(lower.as_str()) {
            None
        } else {
            Some(first)
        }
    };
    match u {
        Some(x) => if x.len() > 0 {
            Some(string_of(&x))
        } else {
            None
        },
        None => None,
    }
}

/// Try to extract a username from a social media URL.
fn extract_username(url: &str, platform: &str) -> (r: Option<String>)
    ensures
        r.deep_view() == username_from(parsed_path(url@), platform@),
{
    username_from_path(url_path(url), platform)
}

/// Appends the social links that the trimmed link target `href` gives.
fn push_socials_for(socials: &mut Vec<Social>, href: &String)
    ensures
        final(socials).deep_view() == old(socials).deep_view() + socials_for(href@),
{
    let ghost start = socials.deep_view();
    let lower = chars_of(to_lowercase(href.as_str()).as_str());
    let mut k: usize = 0;
    assert(socials.deep_view() =~= start + socials_among(href@, 0));
    while k < 8
        invariant
            k <= 8,
            lower@ == lowercase(href@),
            socials.deep_view() == start + socials_among(href@, k as nat),
        decreases 8 - k,
    {
        let ghost before_push = socials.deep_view();
        if matches_platform(&lower, k) {
            let name = platform_name(k);
            let social = Social {
                platform: name.to_owned(),
                url: href.clone(),
                username: extract_username(href.as_str(), name),
            };
            socials.push(social);
            assert(socials.deep_view() =~= before_push.push(social_for(href@, k as int)));
        }
        assert(socials.deep_view() =~= start + socials_among(href@, (k + 1) as nat));
        k = k + 1;
    }
}

/// The social links that the link targets give.
pub fn collect_socials(hrefs: Option<Vec<Option<String>>>) -> (r: Vec<Social>)
    ensures
        r.deep_view() == match hrefs.deep_view() {
            Some(h) => socials_from_links(h),
            None => Seq::empty(),
        },
{
    let mut socials: Vec<Social> = Vec::new();
    if let Some(hs) = &hrefs {
        let ghost hv = hs.deep_view();
        let mut i: usize = 0;
        assert(socials.deep_view() =~= socials_from_links(hv.take(0)));
        while i < hs.len()
            invariant
                i <= hs.len(),
                hv == hs.deep_view(),
                socials.deep_view() == socials_from_links(hv.take(i as int)),
            decreases hs.len() - i,
        {
            assert(hv.take(i + 1).drop_last() =~= hv.take(i as int));
            assert(hv.take(i + 1).last() == hs@[i as int].deep_view());
            if let Some(h) = &hs[i] {
                let href = string_of(&trim_chars(&chars_of(h.as_str())));
                push_socials_for(&mut socials, &href);
            }
            i = i + 1;
        }
        assert(hv.take(i as int) =~= hv);
    }
    socials
}

/// Extract social media links and attempt to parse usernames.
pub fn extract_socials(html: &str) -> (r: Vec<Social>)
    ensures
        r.deep_view() == socials_in(html@),
{
    collect_socials(select_attrs(html, LINK_SELECTOR, "href"))
}

// ---------------------------------------------------------------------------
// Names
// ---------------------------------------------------------------------------
/// The name that a meta tag's content or a captured JSON-LD value gives: the
/// value trimmed, when that is not empty and takes fewer than 100 bytes.
pub open spec fn name_from(content: Seq<char>) -> Option<Seq<char>> {
    let n = trim(content);
    if n.len() > 0 && utf8_len(n) < 100 {
        Some(n)
    } else {
        None
    }
}

/// The names that a list of found values gives.
pub open spec fn names_from(values: Seq<Option<Seq<char>>>) -> Seq<Seq<char>>
    decreases values.len(),
{
    if values.len() == 0 {
        Seq::empty()
    } else {
        let prev = names_from(values.drop_last());
        match values.last() {
            Some(v) => match name_from(v) {
                Some(n) => prev.push(n),
                None => prev,
            },
            None => prev,
        }
    }
}

/// The names of one search, none when it could not run.
pub open spec fn names_from_search(values: Option<Seq<Option<Seq<char>>>>) -> Seq<Seq<char>> {
    match values {
        Some(v) => names_from(v),
        None => Seq::empty(),
    }
}

/// The names of the five searches, in order.
pub open spec fn names_found(
    authors: Option<Seq<Option<Seq<char>>>>,
    creators: Option<Seq<Option<Seq<char>>>>,
    site_names: Option<Seq<Option<Seq<char>>>>,
    persons_type_first: Option<Seq<Option<Seq<char>>>>,
    persons_name_first: Option<Seq<Option<Seq<char>>>>,
) -> Seq<Seq<char>> {
    names_from_search(authors) + names_from_search(creators) + names_from_search(site_names)
        + names_from_search(persons_type_first) + names_from_search(persons_name_first)
}

/// The names of an HTML page: the contents of its author, Dublin Core creator
/// and Open Graph site name meta tags, then the names of Schema.org persons in
/// its JSON-LD, type before name and then name before type.
pub open spec fn names_in(html: Seq<char>) -> Seq<Seq<char>> {
    names_found(
        selected_attrs(html, AUTHOR_SELECTOR@, "content"@),
        selected_attrs(html, CREATOR_SELECTOR@, "content"@),
        selected_attrs(html, SITE_NAME_SELECTOR@, "content"@),
        regex_captures(PERSON_TYPE_FIRST_PATTERN@, html, 1),
        regex_captures(PERSON_NAME_FIRST_PATTERN@, html, 1),
    )
}

/// Appends the names that one search gives.
fn push_names(names: &mut Vec<String>, values: &Option<Vec<Option<String>>>)
    ensures
        final(names).deep_view() == old(names).deep_view() + names_from_search(
            values.deep_view(),
        ),
{
    let ghost start = names.deep_view();
    if let Some(vs) = values {
        let ghost vv = vs.deep_view();
        let mut i: usize = 0;
        assert(names.deep_view() =~= start + names_from(vv.take(0)));
        while i < vs.len()
            invariant
                i <= vs.len(),
                vv == vs.deep_view(),
                names.deep_view() == start + names_from(vv.take(i as int)),
            decreases vs.len() - i,
        {
            assert(vv.take(i + 1).drop_last() =~= vv.take(i as int));
            assert(vv.take(i + 1).last() == vs@[i as int].deep_view());
            let ghost before_push = names.deep_view();
            if let Some(v) = &vs[i] {
                let n = trim_chars(&chars_of(v.as_str()));
                if n.len() > 0 && utf8_len_below(&n, 100) {
                    let name = string_of(&n);
                    names.push(name);
                    assert(names.deep_view() =~= before_push.push(name@));
                }
            }
            assert(names.deep_view() =~= start + names_from(vv.take(i + 1)));
            i = i + 1;
        }
        assert(vv.take(i as int) =~= vv);
    } else {
        assert(names.deep_view() =~= start + Seq::<Seq<char>>::empty());
    }
}

/// The names that the five searches give, in order.
pub fn collect_names(
    authors: Option<Vec<Option<String>>>,
    creators: Option<Vec<Option<String>>>,
    site_names: Option<Vec<Option<String>>>,
    persons_type_first: Option<Vec<Option<String>>>,
    persons_name_first: Option<Vec<Option<String>>>,
) -> (r: Vec<String>)
    ensures
        r.deep_view() == names_found(
            authors.deep_view(),
            creators.deep_view(),
            site_names.deep_view(),
            persons_type_first.deep_view(),
            persons_name_first.deep_view(),
        ),
{
    let mut names: Vec<String> = Vec::new();
    push_names(&mut names, &authors);
    push_names(&mut names, &creators);
    push_names(&mut names, &site_names);
    push_names(&mut names, &persons_type_first);
    push_names(&mut names, &persons_name_first);
    names
}

/// Extract names from meta tags and structured data.
pub fn extract_names(html: &str) -> (r: Vec<String>)
    ensures
        r.deep_view() == names_in(html@),
{
    let authors = select_attrs(html, AUTHOR_SELECTOR, "content");
    let creators = select_attrs(html, CREATOR_SELECTOR, "content");
    let site_names = select_attrs(html, SITE_NAME_SELECTOR, "content");
    let persons_type_first = capture_all(PERSON_TYPE_FIRST_PATTERN, html, 1);
    let persons_name_first = capture_all(PERSON_NAME_FIRST_PATTERN, html, 1);
    collect_names(authors, creators, site_names, persons_type_first, persons_name_first)
}

// ---------------------------------------------------------------------------
// Whole page
// ---------------------------------------------------------------------------
/// The lead of an HTML page at `url`, before deduplication.
pub open spec fn raw_lead(html: Seq<char>, url: Seq<char>) -> LeadView {
    LeadView {
        url: url,
        emails: emails_in(html),
        phones: phones_in(html),
        socials: socials_in(html),
        names: names_in(html),
    }
}

/// Extract all lead information from an HTML page.
pub fn extract_all(html: &str, source_url: &str) -> (l: Lead)
    ensures
        l@ == lead_dedup(raw_lead(html@, source_url@)),
{
    let mut lead = Lead::new(source_url.to_owned());
    lead.emails = extract_emails(html);
    lead.phones = extract_phones(html);
    lead.socials = extract_socials(html);
    lead.names = extract_names(html);
    lead.dedup();
    lead
}

// ---------------------------------------------------------------------------
// Laws of extraction
// ---------------------------------------------------------------------------
/// No email the text matches give is a false one.
proof fn lemma_text_emails_not_false(m: Seq<Seq<char>>)
    ensures
        forall|i: int| 0 <= i < emails_from_text(m).len() ==> !false_email(#[trigger] emails_from_text(m)[i]),
    decreases m.len(),
{
    if m.len() > 0 {
        lemma_text_emails_not_false(m.drop_last());
        let p = emails_from_text(m.drop_last());
        let r = emails_from_text(m);
        assert forall|i: int| 0 <= i < r.len() implies !false_email(#[trigger] r[i]) by {
            if i < p.len() {
                assert(r[i] == p[i]);
            }
        }
    }
}

/// No email the link targets give is a false or an empty one.
proof fn lemma_link_emails_not_false(h: Seq<Option<Seq<char>>>)
    ensures
        forall|i: int|
            0 <= i < emails_from_links(h).len() ==> !false_email(#[trigger] emails_from_links(h)[i])
                && emails_from_links(h)[i].len() > 0,
    decreases h.len(),
{
    if h.len() > 0 {
        lemma_link_emails_not_false(h.drop_last());
        let p = emails_from_links(h.drop_last());
        let r = emails_from_links(h);
        assert forall|i: int| 0 <= i < r.len() implies !false_email(#[trigger] r[i]) && r[i].len()
            > 0 by {
            if i < p.len() {
                assert(r[i] == p[i]);
            }
        }
    }
}

/// Every email of a page is free of the false-positive markers (file
/// extensions, example and tooling domains, `data:` URIs), before and after
/// deduplication.
pub proof fn law_emails_not_false(html: Seq<char>, url: Seq<char>)
    ensures
        forall|i: int| 0 <= i < emails_in(html).len() ==> !false_email(#[trigger] emails_in(html)[i]),
        forall|i: int|
            0 <= i < lead_dedup(raw_lead(html, url)).emails.len() ==> !false_email(
                #[trigger] lead_dedup(raw_lead(html, url)).emails[i],
            ),
{
    let m = regex_matches(EMAIL_PATTERN@, html);
    let h = selected_attrs(html, MAILTO_SELECTOR@, "href"@);
    let a = match m {
        Some(m) => emails_from_text(m),
        None => Seq::empty(),
    };
    let b = match h {
        Some(h) => emails_from_links(h),
        None => Seq::empty(),
    };
    if let Some(mm) = m {
        lemma_text_emails_not_false(mm);
    }
    if let Some(hh) = h {
        lemma_link_emails_not_false(hh);
    }
    let e = emails_in(html);
    assert(e == a + b);
    assert forall|i: int| 0 <= i < e.len() implies !false_email(#[trigger] e[i]) by {
        if i < a.len() {
            assert(e[i] == a[i]);
        } else {
            assert(e[i] == b[i - a.len()]);
        }
    }
    lemma_dedup_from_input(e, string_key());
    let d = lead_dedup(raw_lead(html, url)).emails;
    assert forall|i: int| 0 <= i < d.len() implies !false_email(#[trigger] d[i]) by {
        assert(e.contains(d[i]));
    }
}

/// Every name the searches give is non-empty, free of surrounding white space,
/// and takes fewer than 100 bytes.
proof fn lemma_names_shape(v: Seq<Option<Seq<char>>>)
    ensures
        forall|i: int|
            0 <= i < names_from(v).len() ==> (#[trigger] names_from(v)[i]).len() > 0 && utf8_len(
                names_from(v)[i],
            ) < 100 && exists|c: Seq<char>| names_from(v)[i] == trim(c),
    decreases v.len(),
{
    if v.len() > 0 {
        lemma_names_shape(v.drop_last());
        let p = names_from(v.drop_last());
        let r = names_from(v);
        assert forall|i: int| 0 <= i < r.len() implies (#[trigger] r[i]).len() > 0 && utf8_len(r[i])
            < 100 && exists|c: Seq<char>| r[i] == trim(c) by {
            if i < p.len() {
                assert(r[i] == p[i]);
            } else {
                let c = v.last()->0;
                assert(r[i] == trim(c));
            }
        }
    }
}

/// Every name of a page is non-empty, trimmed (the trim of some found value),
/// and takes fewer than 100 bytes.
pub proof fn law_names_well_formed(html: Seq<char>)
    ensures
        forall|i: int|
            0 <= i < names_in(html).len() ==> (#[trigger] names_in(html)[i]).len() > 0 && utf8_len(
                names_in(html)[i],
            ) < 100 && exists|c: Seq<char>| names_in(html)[i] == trim(c),
{
    let a = names_from_search(selected_attrs(html, AUTHOR_SELECTOR@, "content"@));
    let b = names_from_search(selected_attrs(html, CREATOR_SELECTOR@, "content"@));
    let c = names_from_search(selected_attrs(html, SITE_NAME_SELECTOR@, "content"@));
    let d = names_from_search(regex_captures(PERSON_TYPE_FIRST_PATTERN@, html, 1));
    let e = names_from_search(regex_captures(PERSON_NAME_FIRST_PATTERN@, html, 1));
    if let Some(v) = selected_attrs(html, AUTHOR_SELECTOR@, "content"@) {
        lemma_names_shape(v);
    }
    if let Some(v) = selected_attrs(html, CREATOR_SELECTOR@, "content"@) {
        lemma_names_shape(v);
    }
    if let Some(v) = selected_attrs(html, SITE_NAME_SELECTOR@, "content"@) {
        lemma_names_shape(v);
    }
    if let Some(v) = regex_captures(PERSON_TYPE_FIRST_PATTERN@, html, 1) {
        lemma_names_shape(v);
    }
    if let Some(v) = regex_captures(PERSON_NAME_FIRST_PATTERN@, html, 1) {
        lemma_names_shape(v);
    }
    let all = names_in(html);
    assert(all == a + b + c + d + e);
    assert forall|i: int| 0 <= i < all.len() implies (#[trigger] all[i]).len() > 0 && utf8_len(all[i])
        < 100 && exists|x: Seq<char>| all[i] == trim(x) by {
        let n1 = a.len() as int;
        let n2 = n1 + b.len();
        let n3 = n2 + c.len();
        let n4 = n3 + d.len();
        if i < n1 {
            assert(all[i] == a[i]);
        } else if i < n2 {
            assert(all[i] == b[i - n1]);
        } else if i < n3 {
            assert(all[i] == c[i - n2]);
        } else if i < n4 {
            assert(all[i] == d[i - n3]);
        } else {
            assert(all[i] == e[i - n4]);
        }
    }
}

/// The social links among the first `n` platforms each name one of those
/// platforms, whose fragment the link holds, and a non-empty username if any.
proof fn lemma_socials_among(href: Seq<char>, n: nat)
    requires
        n <= 8,
    ensures
        forall|i: int|
            0 <= i < socials_among(href, n).len() ==> exists|k: int|
                0 <= k < n && #[trigger] socials_among(href, n)[i] == social_for(href, k)
                    && platform_matches(lowercase(href), k),
    decreases n,
{
    if n > 0 {
        lemma_socials_among(href, (n - 1) as nat);
        let p = socials_among(href, (n - 1) as nat);
        let r = socials_among(href, n);
        assert forall|i: int| 0 <= i < r.len() implies exists|k: int|
            0 <= k < n && #[trigger] r[i] == social_for(href, k) && platform_matches(
                lowercase(href),
                k,
            ) by {
            if i < p.len() {
                assert(r[i] == p[i]);
                let k = choose|k: int|
                    0 <= k < n - 1 && #[trigger] p[i] == social_for(href, k) && platform_matches(
                        lowercase(href),
                        k,
                    );
                assert(r[i] == social_for(href, k));
            } else {
                assert(r[i] == social_for(href, n - 1));
            }
        }
    }
}

/// A username that a path gives is never empty.
proof fn lemma_username_nonempty(path: Option<Seq<char>>, platform: Seq<char>)
    ensures
        username_from(path, platform) matches Some(u) ==> u.len() > 0,
{
}

/// Every social link of a page names one of the known platforms, holds (ignoring
/// case) one of that platform's URL fragments, and has a non-empty username
/// when it has one.
pub proof fn law_socials_well_formed(html: Seq<char>)
    ensures
        forall|i: int|
            0 <= i < socials_in(html).len() ==> {
                let s = #[trigger] socials_in(html)[i];
                &&& exists|k: int|
                    0 <= k < 8 && s.platform == platform_names()[k] && platform_matches(
                        lowercase(s.url),
                        k,
                    )
                &&& (s.username matches Some(u) ==> u.len() > 0)
            },
{
    if let Some(h) = selected_attrs(html, LINK_SELECTOR@, "href"@) {
        lemma_socials_from_links(h);
    }
}

/// The social links that link targets give are well formed.
proof fn lemma_socials_from_links(h: Seq<Option<Seq<char>>>)
    ensures
        forall|i: int|
            0 <= i < socials_from_links(h).len() ==> {
                let s = #[trigger] socials_from_links(h)[i];
                &&& exists|k: int|
                    0 <= k < 8 && s.platform == platform_names()[k] && platform_matches(
                        lowercase(s.url),
                        k,
                    )
                &&& (s.username matches Some(u) ==> u.len() > 0)
            },
    decreases h.len(),
{
    if h.len() > 0 {
        lemma_socials_from_links(h.drop_last());
        let p = socials_from_links(h.drop_last());
        let r = socials_from_links(h);
        if let Some(x) = h.last() {
            let href = trim(x);
            let q = socials_for(href);
            lemma_socials_among(href, 8);
            assert(r == p + q);
            assert forall|i: int| 0 <= i < r.len() implies {
                let s = #[trigger] r[i];
                &&& exists|k: int|
                    0 <= k < 8 && s.platform == platform_names()[k] && platform_matches(
                        lowercase(s.url),
                        k,
                    )
                &&& (s.username matches Some(u) ==> u.len() > 0)
            } by {
                if i < p.len() {
                    assert(r[i] == p[i]);
                } else {
                    assert(r[i] == q[i - p.len()]);
                    let k = choose|k: int|
                        0 <= k < 8 && #[trigger] q[i - p.len()] == social_for(href, k)
                            && platform_matches(lowercase(href), k);
                    lemma_username_nonempty(parsed_path(href), platform_names()[k]);
                }
            }
        }
    }
}

/// The lead of a page holds no two emails, phones or names that are equal
/// ignoring case, and no two social links with the same URL.
pub proof fn law_extracted_lead_has_no_repeats(html: Seq<char>, url: Seq<char>)
    ensures
        distinct_keys(lead_dedup(raw_lead(html, url)).emails, string_key()),
        distinct_keys(lead_dedup(raw_lead(html, url)).phones, string_key()),
        distinct_keys(lead_dedup(raw_lead(html, url)).names, string_key()),
        distinct_keys(lead_dedup(raw_lead(html, url)).socials, social_key()),
{
    lemma_dedup_distinct(emails_in(html), string_key());
    lemma_dedup_distinct(phones_in(html), string_key());
    lemma_dedup_distinct(names_in(html), string_key());
    lemma_dedup_distinct(socials_in(html), social_key());
}


// ---------------------------------------------------------------------------
// Laws of extraction
// ---------------------------------------------------------------------------
/// An email-like match is rejected exactly when it ends with an image, archive,
/// binary, font, media, style or script file extension, names the example,
/// Sentry or webpack domains, or is a `data:` URI.
pub proof fn law_false_email_markers(e: Seq<char>)
    ensures
        false_email(e) <==> (ends_with(e, ".png"@)
            || ends_with(e, ".jpg"@)
            || ends_with(e, ".jpeg"@)
            || ends_with(e, ".gif"@)
            || ends_with(e, ".svg"@)
            || ends_with(e, ".webp"@)
            || ends_with(e, ".bmp"@)
            || ends_with(e, ".ico"@)
            || ends_with(e, ".tiff"@)
            || ends_with(e, ".pdf"@)
            || ends_with(e, ".zip"@)
            || ends_with(e, ".gz"@)
            || ends_with(e, ".tar"@)
            || ends_with(e, ".rar"@)
            || ends_with(e, ".7z"@)
            || ends_with(e, ".exe"@)
            || ends_with(e, ".dll"@)
            || ends_with(e, ".woff"@)
            || ends_with(e, ".woff2"@)
            || ends_with(e, ".ttf"@)
            || ends_with(e, ".eot"@)
            || ends_with(e, ".mp3"@)
            || ends_with(e, ".mp4"@)
            || ends_with(e, ".avi"@)
            || ends_with(e, ".mov"@)
            || ends_with(e, ".css"@)
            || ends_with(e, ".js"@)
            || ends_with(e, ".map"@)
            || contains(e, "example.com"@) || contains(e, "sentry.io"@) || contains(e, "webpack"@)
            || starts_with(e, "data:"@)),
{
    let x = false_email_extensions();
    assert(x[0] == ".png"@);
    assert(x[1] == ".jpg"@);
    assert(x[2] == ".jpeg"@);
    assert(x[3] == ".gif"@);
    assert(x[4] == ".svg"@);
    assert(x[5] == ".webp"@);
    assert(x[6] == ".bmp"@);
    assert(x[7] == ".ico"@);
    assert(x[8] == ".tiff"@);
    assert(x[9] == ".pdf"@);
    assert(x[10] == ".zip"@);
    assert(x[11] == ".gz"@);
    assert(x[12] == ".tar"@);
    assert(x[13] == ".rar"@);
    assert(x[14] == ".7z"@);
    assert(x[15] == ".exe"@);
    assert(x[16] == ".dll"@);
    assert(x[17] == ".woff"@);
    assert(x[18] == ".woff2"@);
    assert(x[19] == ".ttf"@);
    assert(x[20] == ".eot"@);
    assert(x[21] == ".mp3"@);
    assert(x[22] == ".mp4"@);
    assert(x[23] == ".avi"@);
    assert(x[24] == ".mov"@);
    assert(x[25] == ".css"@);
    assert(x[26] == ".js"@);
    assert(x[27] == ".map"@);
    if exists|i: int| 0 <= i < x.len() && ends_with(e, #[trigger] x[i]) {
        let i = choose|i: int| 0 <= i < x.len() && ends_with(e, #[trigger] x[i]);
        assert(0 <= i < 28);
    }
}


/// Every plausible text match gives its phone number, normalized.
proof fn lemma_phones_from_text_has(ms: Seq<Seq<char>>)
    ensures
        forall|i: int|
            0 <= i < ms.len() && plausible_phone(ms[i]) ==> phones_from_text(ms).contains(
                normalized_phone(trim(#[trigger] ms[i])),
            ),
    decreases ms.len(),
{
    if ms.len() > 0 {
        let t = ms.drop_last();
        lemma_phones_from_text_has(t);
        let p = phones_from_text(t);
        let r = phones_from_text(ms);
        assert forall|i: int| 0 <= i < ms.len() && plausible_phone(ms[i]) implies r.contains(
            normalized_phone(trim(#[trigger] ms[i])),
        ) by {
            if i < t.len() {
                assert(t[i] == ms[i]);
                let j = choose|j: int| 0 <= j < p.len() && p[j] == normalized_phone(trim(t[i]));
                assert(r[j] == p[j]);
            } else {
                assert(r[r.len() - 1] == normalized_phone(trim(ms[i])));
            }
        }
    }
}

/// Every `tel:` link target with a number gives that number, normalized.
proof fn lemma_phones_from_links_has(hs: Seq<Option<Seq<char>>>)
    ensures
        forall|i: int|
            0 <= i < hs.len() && (#[trigger] hs[i]) is Some && tel_number(hs[i]->0).len() > 0
                ==> phones_from_links(hs).contains(normalized_phone(tel_number(hs[i]->0))),
    decreases hs.len(),
{
    if hs.len() > 0 {
        let t = hs.drop_last();
        lemma_phones_from_links_has(t);
        let p = phones_from_links(t);
        let r = phones_from_links(hs);
        assert forall|i: int|
            0 <= i < hs.len() && (#[trigger] hs[i]) is Some && tel_number(hs[i]->0).len() > 0
                implies r.contains(normalized_phone(tel_number(hs[i]->0))) by {
            if i < t.len() {
                assert(t[i] == hs[i]);
                let j = choose|j: int| 0 <= j < p.len() && p[j] == normalized_phone(tel_number(t[i]->0));
                assert(r[j] == p[j]);
            } else {
                assert(r[r.len() - 1] == normalized_phone(tel_number(hs[i]->0)));
            }
        }
    }
}

/// Every text match that is not a false email gives its lowercase form.
proof fn lemma_emails_from_text_has(ms: Seq<Seq<char>>)
    ensures
        forall|i: int|
            0 <= i < ms.len() && !false_email(lowercase(#[trigger] ms[i])) ==> emails_from_text(
                ms,
            ).contains(lowercase(ms[i])),
    decreases ms.len(),
{
    if ms.len() > 0 {
        let t = ms.drop_last();
        lemma_emails_from_text_has(t);
        let p = emails_from_text(t);
        let r = emails_from_text(ms);
        assert forall|i: int| 0 <= i < ms.len() && !false_email(lowercase(#[trigger] ms[i])) implies r.contains(
            lowercase(ms[i]),
        ) by {
            if i < t.len() {
                assert(t[i] == ms[i]);
                let j = choose|j: int| 0 <= j < p.len() && p[j] == lowercase(t[i]);
                assert(r[j] == p[j]);
            } else {
                assert(r[r.len() - 1] == lowercase(ms[i]));
            }
        }
    }
}

/// Every `mailto:` link target with an address that is not false gives it.
proof fn lemma_emails_from_links_has(hs: Seq<Option<Seq<char>>>)
    ensures
        forall|i: int|
            0 <= i < hs.len() && (#[trigger] hs[i]) is Some && mailto_address(hs[i]->0).len() > 0
                && !false_email(mailto_address(hs[i]->0)) ==> emails_from_links(hs).contains(
                mailto_address(hs[i]->0),
            ),
    decreases hs.len(),
{
    if hs.len() > 0 {
        let t = hs.drop_last();
        lemma_emails_from_links_has(t);
        let p = emails_from_links(t);
        let r = emails_from_links(hs);
        assert forall|i: int|
            0 <= i < hs.len() && (#[trigger] hs[i]) is Some && mailto_address(hs[i]->0).len() > 0
                && !false_email(mailto_address(hs[i]->0)) implies r.contains(mailto_address(hs[i]->0)) by {
            if i < t.len() {
                assert(t[i] == hs[i]);
                let j = choose|j: int| 0 <= j < p.len() && p[j] == mailto_address(t[i]->0);
                assert(r[j] == p[j]);
            } else {
                assert(r[r.len() - 1] == mailto_address(hs[i]->0));
            }
        }
    }
}

/// Every found value whose trimmed form is a name gives that name.
proof fn lemma_names_from_has(vs: Seq<Option<Seq<char>>>)
    ensures
        forall|i: int|
            0 <= i < vs.len() && (#[trigger] vs[i]) is Some && trim(vs[i]->0).len() > 0 && utf8_len(
                trim(vs[i]->0),
            ) < 100 ==> names_from(vs).contains(trim(vs[i]->0)),
    decreases vs.len(),
{
    if vs.len() > 0 {
        let t = vs.drop_last();
        lemma_names_from_has(t);
        let p = names_from(t);
        let r = names_from(vs);
        assert forall|i: int|
            0 <= i < vs.len() && (#[trigger] vs[i]) is Some && trim(vs[i]->0).len() > 0 && utf8_len(
                trim(vs[i]->0),
            ) < 100 implies r.contains(trim(vs[i]->0)) by {
            if i < t.len() {
                assert(t[i] == vs[i]);
                let j = choose|j: int| 0 <= j < p.len() && p[j] == trim(t[i]->0);
                assert(r[j] == p[j]);
            } else {
                assert(r[r.len() - 1] == trim(vs[i]->0));
            }
        }
    }
}

/// Every link target gives all the social links of its trimmed form.
proof fn lemma_socials_from_links_has(hs: Seq<Option<Seq<char>>>)
    ensures
        forall|i: int, s: SocialView|
            0 <= i < hs.len() && (#[trigger] hs[i]) is Some && #[trigger] socials_for(trim(hs[i]->0)).contains(s)
                ==> socials_from_links(hs).contains(s),
    decreases hs.len(),
{
    if hs.len() > 0 {
        let t = hs.drop_last();
        lemma_socials_from_links_has(t);
        let p = socials_from_links(t);
        let r = socials_from_links(hs);
        assert forall|i: int, s: SocialView|
            0 <= i < hs.len() && (#[trigger] hs[i]) is Some && #[trigger] socials_for(trim(hs[i]->0)).contains(s)
                implies r.contains(s) by {
            if i < t.len() {
                assert(t[i] == hs[i]);
                let j = choose|j: int| 0 <= j < p.len() && p[j] == s;
                assert(r[j] == p[j]);
            } else {
                let q = socials_for(trim(hs[i]->0));
                let j = choose|j: int| 0 <= j < q.len() && q[j] == s;
                assert(r == p + q);
                assert(r[p.len() + j] == q[j]);
            }
        }
    }
}


/// Every phone number in the text of a page is found: each match of the
/// international, parenthesised area code and separated patterns in the page
/// text that holds 7 to 15 digits appears among the page's phones, trimmed and
/// with its white space normalized; and so does the number of every `tel:`
/// link, without its scheme and trimmed, when it is not empty.
pub proof fn law_phones_found(html: Seq<char>)
    ensures
        regex_matches(
            r"\+\d{1,3}[\s\-]?\(?\d{1,4}\)?[\s\-]?\d{2,4}[\s\-]?\d{2,4}[\s\-]?\d{0,4}"@,
            page_text(html),
        ) matches Some(ms) ==> forall|i: int|
            0 <= i < ms.len() && 7 <= digit_count(trim(ms[i])) <= 15 ==> phones_in(html).contains(
                normalized_phone(trim(#[trigger] ms[i])),
            ),
        regex_matches(r"\(\d{3}\)\s?\d{3}[\-\s]\d{4}"@, page_text(html)) matches Some(ms)
            ==> forall|i: int|
            0 <= i < ms.len() && 7 <= digit_count(trim(ms[i])) <= 15 ==> phones_in(html).contains(
                normalized_phone(trim(#[trigger] ms[i])),
            ),
        regex_matches(r"\b\d{3}[\-\.]\d{3}[\-\.]\d{4}\b"@, page_text(html)) matches Some(ms)
            ==> forall|i: int|
            0 <= i < ms.len() && 7 <= digit_count(trim(ms[i])) <= 15 ==> phones_in(html).contains(
                normalized_phone(trim(#[trigger] ms[i])),
            ),
        selected_attrs(html, "a[href^='tel:']"@, "href"@) matches Some(hs) ==> forall|i: int|
            0 <= i < hs.len() && (#[trigger] hs[i]) is Some && trim(strip_prefixes(hs[i]->0, "tel:"@)).len()
                > 0 ==> phones_in(html).contains(normalized_phone(trim(strip_prefixes(hs[i]->0, "tel:"@)))),
{
    let t = page_text(html);
    let a = phones_from_search(regex_matches(INTERNATIONAL_PHONE_PATTERN@, t));
    let b = phones_from_search(regex_matches(AREA_CODE_PHONE_PATTERN@, t));
    let c = phones_from_search(regex_matches(SEPARATED_PHONE_PATTERN@, t));
    let hs0 = selected_attrs(html, TEL_SELECTOR@, "href"@);
    let d = match hs0 {
        Some(h) => phones_from_links(h),
        None => Seq::empty(),
    };
    let all = phones_in(html);
    assert(all == a + b + c + d);
    if let Some(ms) = regex_matches(INTERNATIONAL_PHONE_PATTERN@, t) {
        lemma_phones_from_text_has(ms);
        assert forall|i: int| 0 <= i < ms.len() && 7 <= digit_count(trim(ms[i])) <= 15 implies all.contains(
            normalized_phone(trim(#[trigger] ms[i])),
        ) by {
            assert(plausible_phone(ms[i]));
            let j = choose|j: int| 0 <= j < a.len() && a[j] == normalized_phone(trim(ms[i]));
            assert(all[j] == a[j]);
        }
    }
    if let Some(ms) = regex_matches(AREA_CODE_PHONE_PATTERN@, t) {
        lemma_phones_from_text_has(ms);
        assert forall|i: int| 0 <= i < ms.len() && 7 <= digit_count(trim(ms[i])) <= 15 implies all.contains(
            normalized_phone(trim(#[trigger] ms[i])),
        ) by {
            assert(plausible_phone(ms[i]));
            let j = choose|j: int| 0 <= j < b.len() && b[j] == normalized_phone(trim(ms[i]));
            assert(all[a.len() + j] == b[j]);
        }
    }
    if let Some(ms) = regex_matches(SEPARATED_PHONE_PATTERN@, t) {
        lemma_phones_from_text_has(ms);
        assert forall|i: int| 0 <= i < ms.len() && 7 <= digit_count(trim(ms[i])) <= 15 implies all.contains(
            normalized_phone(trim(#[trigger] ms[i])),
        ) by {
            assert(plausible_phone(ms[i]));
            let j = choose|j: int| 0 <= j < c.len() && c[j] == normalized_phone(trim(ms[i]));
            assert(all[a.len() + b.len() + j] == c[j]);
        }
    }
    if let Some(hs) = hs0 {
        lemma_phones_from_links_has(hs);
        assert forall|i: int|
            0 <= i < hs.len() && (#[trigger] hs[i]) is Some && trim(strip_prefixes(hs[i]->0, "tel:"@)).len()
                > 0 implies all.contains(normalized_phone(trim(strip_prefixes(hs[i]->0, "tel:"@)))) by {
            let j = choose|j: int| 0 <= j < d.len() && d[j] == normalized_phone(tel_number(hs[i]->0));
            assert(all[a.len() + b.len() + c.len() + j] == d[j]);
        }
    }
}


/// Every email address on a page is found unless it is a false positive:
/// each match of the email pattern in the page, lowercased, and each
/// `mailto:` link's address (without the scheme and any `?` query, trimmed
/// and lowercased, when not empty) appears among the page's emails when it
/// is not rejected as a false email.
pub proof fn law_emails_found(html: Seq<char>)
    ensures
        regex_matches(r"[a-zA-Z0-9._%+\-]+@[a-zA-Z0-9.\-]+\.[a-zA-Z]{2,}"@, html) matches Some(ms)
            ==> forall|i: int|
            0 <= i < ms.len() && !false_email(lowercase(#[trigger] ms[i])) ==> emails_in(html).contains(
                lowercase(ms[i]),
            ),
        selected_attrs(html, "a[href^='mailto:']"@, "href"@) matches Some(hs) ==> forall|i: int|
            0 <= i < hs.len() && (#[trigger] hs[i]) is Some && ({
                let a = lowercase(trim(before(strip_prefixes(hs[i]->0, "mailto:"@), '?')));
                a.len() > 0 && !false_email(a)
            }) ==> emails_in(html).contains(
                lowercase(trim(before(strip_prefixes(hs[i]->0, "mailto:"@), '?'))),
            ),
{
    let m0 = regex_matches(EMAIL_PATTERN@, html);
    let h0 = selected_attrs(html, MAILTO_SELECTOR@, "href"@);
    let a = match m0 {
        Some(m) => emails_from_text(m),
        None => Seq::empty(),
    };
    let b = match h0 {
        Some(h) => emails_from_links(h),
        None => Seq::empty(),
    };
    let all = emails_in(html);
    assert(all == a + b);
    if let Some(ms) = m0 {
        lemma_emails_from_text_has(ms);
        assert forall|i: int| 0 <= i < ms.len() && !false_email(lowercase(#[trigger] ms[i])) implies all.contains(
            lowercase(ms[i]),
        ) by {
            let j = choose|j: int| 0 <= j < a.len() && a[j] == lowercase(ms[i]);
            assert(all[j] == a[j]);
        }
    }
    if let Some(hs) = h0 {
        lemma_emails_from_links_has(hs);
        assert forall|i: int|
            0 <= i < hs.len() && (#[trigger] hs[i]) is Some && ({
                let a = lowercase(trim(before(strip_prefixes(hs[i]->0, "mailto:"@), '?')));
                a.len() > 0 && !false_email(a)
            }) implies all.contains(lowercase(trim(before(strip_prefixes(hs[i]->0, "mailto:"@), '?')))) by {
            let j = choose|j: int| 0 <= j < b.len() && b[j] == mailto_address(hs[i]->0);
            assert(all[a.len() + j] == b[j]);
        }
    }
}

/// The names that one search gives are among the page's names when that
/// search is one of the page's five.
proof fn lemma_names_in_parts(html: Seq<char>)
    ensures
        ({
            let a = names_from_search(selected_attrs(html, AUTHOR_SELECTOR@, "content"@));
            let b = names_from_search(selected_attrs(html, CREATOR_SELECTOR@, "content"@));
            let c = names_from_search(selected_attrs(html, SITE_NAME_SELECTOR@, "content"@));
            let d = names_from_search(regex_captures(PERSON_TYPE_FIRST_PATTERN@, html, 1));
            let e = names_from_search(regex_captures(PERSON_NAME_FIRST_PATTERN@, html, 1));
            names_in(html) == a + b + c + d + e
        }),
{
}

/// Every name a page gives is found: the trimmed content of each author,
/// Dublin Core creator and Open Graph site name meta tag, and the trimmed name
/// of each Schema.org person in its JSON-LD (type before name, or name before
/// type), appears among the page's names when it is not empty and takes fewer
/// than 100 bytes.
pub proof fn law_names_found(html: Seq<char>)
    ensures
        selected_attrs(html, "meta[name='author']"@, "content"@) matches Some(vs) ==> forall|i: int|
            0 <= i < vs.len() && (#[trigger] vs[i]) is Some && trim(vs[i]->0).len() > 0 && utf8_len(
                trim(vs[i]->0),
            ) < 100 ==> names_in(html).contains(trim(vs[i]->0)),
        selected_attrs(html, "meta[name='DC.creator']"@, "content"@) matches Some(vs) ==> forall|i: int|
            0 <= i < vs.len() && (#[trigger] vs[i]) is Some && trim(vs[i]->0).len() > 0 && utf8_len(
                trim(vs[i]->0),
            ) < 100 ==> names_in(html).contains(trim(vs[i]->0)),
        selected_attrs(html, "meta[property='og:site_name']"@, "content"@) matches Some(vs) ==> forall|i: int|
            0 <= i < vs.len() && (#[trigger] vs[i]) is Some && trim(vs[i]->0).len() > 0 && utf8_len(
                trim(vs[i]->0),
            ) < 100 ==> names_in(html).contains(trim(vs[i]->0)),
        regex_captures(r#""@type"\s*:\s*"Person"[^}]*"name"\s*:\s*"([^"]+)""#@, html, 1) matches Some(vs)
            ==> forall|i: int|
            0 <= i < vs.len() && (#[trigger] vs[i]) is Some && trim(vs[i]->0).len() > 0 && utf8_len(
                trim(vs[i]->0),
            ) < 100 ==> names_in(html).contains(trim(vs[i]->0)),
        regex_captures(r#""name"\s*:\s*"([^"]+)"[^}]*"@type"\s*:\s*"Person""#@, html, 1) matches Some(vs)
            ==> forall|i: int|
            0 <= i < vs.len() && (#[trigger] vs[i]) is Some && trim(vs[i]->0).len() > 0 && utf8_len(
                trim(vs[i]->0),
            ) < 100 ==> names_in(html).contains(trim(vs[i]->0)),
{
    let a = names_from_search(selected_attrs(html, AUTHOR_SELECTOR@, "content"@));
    let b = names_from_search(selected_attrs(html, CREATOR_SELECTOR@, "content"@));
    let c = names_from_search(selected_attrs(html, SITE_NAME_SELECTOR@, "content"@));
    let d = names_from_search(regex_captures(PERSON_TYPE_FIRST_PATTERN@, html, 1));
    let e = names_from_search(regex_captures(PERSON_NAME_FIRST_PATTERN@, html, 1));
    let all = names_in(html);
    lemma_names_in_parts(html);
    if let Some(vs) = selected_attrs(html, AUTHOR_SELECTOR@, "content"@) {
        lemma_names_from_has(vs);
        assert forall|i: int|
            0 <= i < vs.len() && (#[trigger] vs[i]) is Some && trim(vs[i]->0).len() > 0 && utf8_len(
                trim(vs[i]->0),
            ) < 100 implies all.contains(trim(vs[i]->0)) by {
            let j = choose|j: int| 0 <= j < a.len() && a[j] == trim(vs[i]->0);
            assert(all[j] == a[j]);
        }
    }
    if let Some(vs) = selected_attrs(html, CREATOR_SELECTOR@, "content"@) {
        lemma_names_from_has(vs);
        assert forall|i: int|
            0 <= i < vs.len() && (#[trigger] vs[i]) is Some && trim(vs[i]->0).len() > 0 && utf8_len(
                trim(vs[i]->0),
            ) < 100 implies all.contains(trim(vs[i]->0)) by {
            let j = choose|j: int| 0 <= j < b.len() && b[j] == trim(vs[i]->0);
            assert(all[a.len() + j] == b[j]);
        }
    }
    if let Some(vs) = selected_attrs(html, SITE_NAME_SELECTOR@, "content"@) {
        lemma_names_from_has(vs);
        assert forall|i: int|
            0 <= i < vs.len() && (#[trigger] vs[i]) is Some && trim(vs[i]->0).len() > 0 && utf8_len(
                trim(vs[i]->0),
            ) < 100 implies all.contains(trim(vs[i]->0)) by {
            let j = choose|j: int| 0 <= j < c.len() && c[j] == trim(vs[i]->0);
            assert(all[a.len() + b.len() + j] == c[j]);
        }
    }
    if let Some(vs) = regex_captures(PERSON_TYPE_FIRST_PATTERN@, html, 1) {
        lemma_names_from_has(vs);
        assert forall|i: int|
            0 <= i < vs.len() && (#[trigger] vs[i]) is Some && trim(vs[i]->0).len() > 0 && utf8_len(
                trim(vs[i]->0),
            ) < 100 implies all.contains(trim(vs[i]->0)) by {
            let j = choose|j: int| 0 <= j < d.len() && d[j] == trim(vs[i]->0);
            assert(all[a.len() + b.len() + c.len() + j] == d[j]);
        }
    }
    if let Some(vs) = regex_captures(PERSON_NAME_FIRST_PATTERN@, html, 1) {
        lemma_names_from_has(vs);
        assert forall|i: int|
            0 <= i < vs.len() && (#[trigger] vs[i]) is Some && trim(vs[i]->0).len() > 0 && utf8_len(
                trim(vs[i]->0),
            ) < 100 implies all.contains(trim(vs[i]->0)) by {
            let j = choose|j: int| 0 <= j < e.len() && e[j] == trim(vs[i]->0);
            assert(all[a.len() + b.len() + c.len() + d.len() + j] == e[j]);
        }
    }
}


/// A link gives the social link of every platform that it matches.
proof fn lemma_socials_among_has(href: Seq<char>, n: nat)
    ensures
        forall|k: int|
            0 <= k < n && platform_matches(lowercase(href), k) ==> socials_among(href, n).contains(
                #[trigger] social_for(href, k),
            ),
    decreases n,
{
    if n > 0 {
        let m = (n - 1) as nat;
        lemma_socials_among_has(href, m);
        let p = socials_among(href, m);
        let r = socials_among(href, n);
        assert forall|k: int|
            0 <= k < n && platform_matches(lowercase(href), k) implies r.contains(
                #[trigger] social_for(href, k),
            ) by {
            if k < m {
                let j = choose|j: int| 0 <= j < p.len() && p[j] == social_for(href, k);
                assert(r[j] == p[j]);
            } else {
                assert(r[r.len() - 1] == social_for(href, k));
            }
        }
    }
}

/// A link to a known social platform gives a social link to it, whatever the
/// case of the link: one whose lowercase form holds `github.com/`,
/// `linkedin.com/in/` or `linkedin.com/company/`, `twitter.com/` or `x.com/`,
/// `instagram.com/`, `facebook.com/` or `fb.com/`, `youtube.com/` or
/// `youtu.be/`, `tiktok.com/@`, or `mastodon.social/@` gives the link to that
/// platform, with the username its path names there.
pub proof fn law_platform_fragments(href: Seq<char>)
    ensures
        contains(lowercase(href), "github.com/"@) ==> socials_for(href).contains(
            SocialView { platform: "github"@, url: href, username: username_from(parsed_path(href), "github"@) },
        ),
        contains(lowercase(href), "linkedin.com/in/"@) ==> socials_for(href).contains(
            SocialView { platform: "linkedin"@, url: href, username: username_from(parsed_path(href), "linkedin"@) },
        ),
        contains(lowercase(href), "linkedin.com/company/"@) ==> socials_for(href).contains(
            SocialView { platform: "linkedin"@, url: href, username: username_from(parsed_path(href), "linkedin"@) },
        ),
        contains(lowercase(href), "twitter.com/"@) ==> socials_for(href).contains(
            SocialView { platform: "twitter"@, url: href, username: username_from(parsed_path(href), "twitter"@) },
        ),
        contains(lowercase(href), "x.com/"@) ==> socials_for(href).contains(
            SocialView { platform: "twitter"@, url: href, username: username_from(parsed_path(href), "twitter"@) },
        ),
        contains(lowercase(href), "instagram.com/"@) ==> socials_for(href).contains(
            SocialView { platform: "instagram"@, url: href, username: username_from(parsed_path(href), "instagram"@) },
        ),
        contains(lowercase(href), "facebook.com/"@) ==> socials_for(href).contains(
            SocialView { platform: "facebook"@, url: href, username: username_from(parsed_path(href), "facebook"@) },
        ),
        contains(lowercase(href), "fb.com/"@) ==> socials_for(href).contains(
            SocialView { platform: "facebook"@, url: href, username: username_from(parsed_path(href), "facebook"@) },
        ),
        contains(lowercase(href), "youtube.com/"@) ==> socials_for(href).contains(
            SocialView { platform: "youtube"@, url: href, username: username_from(parsed_path(href), "youtube"@) },
        ),
        contains(lowercase(href), "youtu.be/"@) ==> socials_for(href).contains(
            SocialView { platform: "youtube"@, url: href, username: username_from(parsed_path(href), "youtube"@) },
        ),
        contains(lowercase(href), "tiktok.com/@"@) ==> socials_for(href).contains(
            SocialView { platform: "tiktok"@, url: href, username: username_from(parsed_path(href), "tiktok"@) },
        ),
        contains(lowercase(href), "mastodon.social/@"@) ==> socials_for(href).contains(
            SocialView { platform: "mastodon"@, url: href, username: username_from(parsed_path(href), "mastodon"@) },
        ),
{
    lemma_socials_among_has(href, 8);
    assert(platform_names()[0] == "github"@);
    assert(platform_names()[1] == "linkedin"@);
    assert(platform_names()[2] == "twitter"@);
    assert(platform_names()[3] == "instagram"@);
    assert(platform_names()[4] == "facebook"@);
    assert(platform_names()[5] == "youtube"@);
    assert(platform_names()[6] == "tiktok"@);
    assert(platform_names()[7] == "mastodon"@);
    if contains(lowercase(href), "github.com/"@) {
        assert(platform_patterns(0)[0] == "github.com/"@);
        assert(platform_matches(lowercase(href), 0));
        assert(social_for(href, 0) == (SocialView { platform: "github"@, url: href, username: username_from(parsed_path(href), "github"@) }));
    }
    if contains(lowercase(href), "linkedin.com/in/"@) {
        assert(platform_patterns(1)[0] == "linkedin.com/in/"@);
        assert(platform_matches(lowercase(href), 1));
        assert(social_for(href, 1) == (SocialView { platform: "linkedin"@, url: href, username: username_from(parsed_path(href), "linkedin"@) }));
    }
    if contains(lowercase(href), "linkedin.com/company/"@) {
        assert(platform_patterns(1)[1] == "linkedin.com/company/"@);
        assert(platform_matches(lowercase(href), 1));
        assert(social_for(href, 1) == (SocialView { platform: "linkedin"@, url: href, username: username_from(parsed_path(href), "linkedin"@) }));
    }
    if contains(lowercase(href), "twitter.com/"@) {
        assert(platform_patterns(2)[0] == "twitter.com/"@);
        assert(platform_matches(lowercase(href), 2));
        assert(social_for(href, 2) == (SocialView { platform: "twitter"@, url: href, username: username_from(parsed_path(href), "twitter"@) }));
    }
    if contains(lowercase(href), "x.com/"@) {
        assert(platform_patterns(2)[1] == "x.com/"@);
        assert(platform_matches(lowercase(href), 2));
        assert(social_for(href, 2) == (SocialView { platform: "twitter"@, url: href, username: username_from(parsed_path(href), "twitter"@) }));
    }
    if contains(lowercase(href), "instagram.com/"@) {
        assert(platform_patterns(3)[0] == "instagram.com/"@);
        assert(platform_matches(lowercase(href), 3));
        assert(social_for(href, 3) == (SocialView { platform: "instagram"@, url: href, username: username_from(parsed_path(href), "instagram"@) }));
    }
    if contains(lowercase(href), "facebook.com/"@) {
        assert(platform_patterns(4)[0] == "facebook.com/"@);
        assert(platform_matches(lowercase(href), 4));
        assert(social_for(href, 4) == (SocialView { platform: "facebook"@, url: href, username: username_from(parsed_path(href), "facebook"@) }));
    }
    if contains(lowercase(href), "fb.com/"@) {
        assert(platform_patterns(4)[1] == "fb.com/"@);
        assert(platform_matches(lowercase(href), 4));
        assert(social_for(href, 4) == (SocialView { platform: "facebook"@, url: href, username: username_from(parsed_path(href), "facebook"@) }));
    }
    if contains(lowercase(href), "youtube.com/"@) {
        assert(platform_patterns(5)[0] == "youtube.com/"@);
        assert(platform_matches(lowercase(href), 5));
        assert(social_for(href, 5) == (SocialView { platform: "youtube"@, url: href, username: username_from(parsed_path(href), "youtube"@) }));
    }
    if contains(lowercase(href), "youtu.be/"@) {
        assert(platform_patterns(5)[1] == "youtu.be/"@);
        assert(platform_matches(lowercase(href), 5));
        assert(social_for(href, 5) == (SocialView { platform: "youtube"@, url: href, username: username_from(parsed_path(href), "youtube"@) }));
    }
    if contains(lowercase(href), "tiktok.com/@"@) {
        assert(platform_patterns(6)[0] == "tiktok.com/@"@);
        assert(platform_matches(lowercase(href), 6));
        assert(social_for(href, 6) == (SocialView { platform: "tiktok"@, url: href, username: username_from(parsed_path(href), "tiktok"@) }));
    }
    if contains(lowercase(href), "mastodon.social/@"@) {
        assert(platform_patterns(7)[0] == "mastodon.social/@"@);
        assert(platform_matches(lowercase(href), 7));
        assert(social_for(href, 7) == (SocialView { platform: "mastodon"@, url: href, username: username_from(parsed_path(href), "mastodon"@) }));
    }
}

/// Every link of a page gives its social links: for each link target, trimmed,
/// every social link it gives is among the page's social links.
pub proof fn law_socials_found(html: Seq<char>)
    ensures
        selected_attrs(html, "a[href]"@, "href"@) matches Some(hs) ==> forall|i: int, s: SocialView|
            0 <= i < hs.len() && (#[trigger] hs[i]) is Some && #[trigger] socials_for(trim(hs[i]->0)).contains(s)
                ==> socials_in(html).contains(s),
{
    if let Some(hs) = selected_attrs(html, LINK_SELECTOR@, "href"@) {
        lemma_socials_from_links_has(hs);
    }
}


/// `p` is the phone number that a plausible match among `ms` gives.
pub open spec fn phone_of_some_match(ms: Seq<Seq<char>>, p: Seq<char>) -> bool {
    exists|i: int| 0 <= i < ms.len() && plausible_phone(ms[i]) && p == normalized_phone(trim(ms[i]))
}

/// Every phone number that text matches give comes from a plausible match.
proof fn lemma_phones_from_text_from(ms: Seq<Seq<char>>)
    ensures
        forall|j: int|
            0 <= j < phones_from_text(ms).len() ==> phone_of_some_match(ms, #[trigger] phones_from_text(ms)[j]),
    decreases ms.len(),
{
    if ms.len() > 0 {
        let t = ms.drop_last();
        lemma_phones_from_text_from(t);
        let p = phones_from_text(t);
        let r = phones_from_text(ms);
        assert forall|j: int| 0 <= j < r.len() implies phone_of_some_match(ms, #[trigger] r[j]) by {
            if j < p.len() {
                assert(r[j] == p[j]);
                assert(phone_of_some_match(t, p[j]));
                let i = choose|i: int| 0 <= i < t.len() && plausible_phone(t[i]) && p[j] == normalized_phone(trim(t[i]));
                assert(ms[i] == t[i]);
            } else {
                assert(r[j] == normalized_phone(trim(ms[ms.len() - 1])));
            }
        }
    }
}

/// Every phone number that link targets give comes from a `tel:` target.
proof fn lemma_phones_from_links_from(hs: Seq<Option<Seq<char>>>)
    ensures
        forall|j: int|
            0 <= j < phones_from_links(hs).len() ==> exists|i: int|
                0 <= i < hs.len() && hs[i] is Some && tel_number(hs[i]->0).len() > 0
                    && #[trigger] phones_from_links(hs)[j] == normalized_phone(tel_number(hs[i]->0)),
    decreases hs.len(),
{
    if hs.len() > 0 {
        let t = hs.drop_last();
        lemma_phones_from_links_from(t);
        let p = phones_from_links(t);
        let r = phones_from_links(hs);
        assert forall|j: int| 0 <= j < r.len() implies exists|i: int|
            0 <= i < hs.len() && hs[i] is Some && tel_number(hs[i]->0).len() > 0
                && #[trigger] r[j] == normalized_phone(tel_number(hs[i]->0)) by {
            if j < p.len() {
                assert(r[j] == p[j]);
                let i = choose|i: int|
                    0 <= i < t.len() && t[i] is Some && tel_number(t[i]->0).len() > 0 && p[j]
                        == normalized_phone(tel_number(t[i]->0));
                assert(hs[i] == t[i]);
            } else {
                assert(r[j] == normalized_phone(tel_number(hs[hs.len() - 1]->0)));
            }
        }
    }
}

/// A phone number of the text or links of a page: a match of one of the three
/// phone patterns in the page text with 7 to 15 digits, trimmed and with its
/// white space normalized, or the number of a `tel:` link, without its scheme
/// and trimmed, not empty, normalized.
pub open spec fn phone_source(html: Seq<char>, p: Seq<char>) -> bool {
    let t = page_text(html);
    ||| (regex_matches(
        r"\+\d{1,3}[\s\-]?\(?\d{1,4}\)?[\s\-]?\d{2,4}[\s\-]?\d{2,4}[\s\-]?\d{0,4}"@,
        t,
    ) matches Some(ms) && exists|i: int|
        0 <= i < ms.len() && 7 <= digit_count(trim(ms[i])) <= 15 && p == normalized_phone(trim(ms[i])))
    ||| (regex_matches(r"\(\d{3}\)\s?\d{3}[\-\s]\d{4}"@, t) matches Some(ms) && exists|i: int|
        0 <= i < ms.len() && 7 <= digit_count(trim(ms[i])) <= 15 && p == normalized_phone(trim(ms[i])))
    ||| (regex_matches(r"\b\d{3}[\-\.]\d{3}[\-\.]\d{4}\b"@, t) matches Some(ms) && exists|i: int|
        0 <= i < ms.len() && 7 <= digit_count(trim(ms[i])) <= 15 && p == normalized_phone(trim(ms[i])))
    ||| (selected_attrs(html, "a[href^='tel:']"@, "href"@) matches Some(hs) && exists|i: int|
        0 <= i < hs.len() && hs[i] is Some && trim(strip_prefixes(hs[i]->0, "tel:"@)).len() > 0 && p
            == normalized_phone(trim(strip_prefixes(hs[i]->0, "tel:"@))))
}

/// Every phone number of a page comes from its text or its `tel:` links: it is
/// a plausible match of one of the phone patterns, or a `tel:` link's number.
pub proof fn law_phones_come_from_page(html: Seq<char>)
    ensures
        forall|j: int| 0 <= j < phones_in(html).len() ==> phone_source(html, #[trigger] phones_in(html)[j]),
{
    let t = page_text(html);
    let m1 = regex_matches(INTERNATIONAL_PHONE_PATTERN@, t);
    let m2 = regex_matches(AREA_CODE_PHONE_PATTERN@, t);
    let m3 = regex_matches(SEPARATED_PHONE_PATTERN@, t);
    let a = phones_from_search(m1);
    let b = phones_from_search(m2);
    let c = phones_from_search(m3);
    let hs0 = selected_attrs(html, TEL_SELECTOR@, "href"@);
    let d = match hs0 {
        Some(h) => phones_from_links(h),
        None => Seq::empty(),
    };
    let all = phones_in(html);
    assert(all == a + b + c + d);
    if let Some(ms) = m1 {
        lemma_phones_from_text_from(ms);
    }
    if let Some(ms) = m2 {
        lemma_phones_from_text_from(ms);
    }
    if let Some(ms) = m3 {
        lemma_phones_from_text_from(ms);
    }
    if let Some(hs) = hs0 {
        lemma_phones_from_links_from(hs);
    }
    assert forall|j: int| 0 <= j < all.len() implies phone_source(html, #[trigger] all[j]) by {
        if j < a.len() {
            assert(all[j] == a[j]);
            let ms = m1->0;
            assert(phone_of_some_match(ms, a[j]));
            let i = choose|i: int| 0 <= i < ms.len() && plausible_phone(ms[i]) && a[j] == normalized_phone(trim(ms[i]));
        } else if j < a.len() + b.len() {
            let k = j - a.len();
            assert(all[j] == b[k]);
            let ms = m2->0;
            assert(phone_of_some_match(ms, b[k]));
            let i = choose|i: int| 0 <= i < ms.len() && plausible_phone(ms[i]) && b[k] == normalized_phone(trim(ms[i]));
        } else if j < a.len() + b.len() + c.len() {
            let k = j - a.len() - b.len();
            assert(all[j] == c[k]);
            let ms = m3->0;
            assert(phone_of_some_match(ms, c[k]));
            let i = choose|i: int| 0 <= i < ms.len() && plausible_phone(ms[i]) && c[k] == normalized_phone(trim(ms[i]));
        } else {
            let k = j - a.len() - b.len() - c.len();
            assert(all[j] == d[k]);
            let hs = hs0->0;
            let i = choose|i: int|
                0 <= i < hs.len() && hs[i] is Some && tel_number(hs[i]->0).len() > 0 && d[k]
                    == normalized_phone(tel_number(hs[i]->0));
        }
    }
}


/// `e` is the lowercase form of one of the matches `ms`.
pub open spec fn email_of_some_match(ms: Seq<Seq<char>>, e: Seq<char>) -> bool {
    exists|i: int| 0 <= i < ms.len() && e == lowercase(ms[i])
}

/// `e` is the address of one of the link targets `hs`.
pub open spec fn email_of_some_link(hs: Seq<Option<Seq<char>>>, e: Seq<char>) -> bool {
    exists|i: int|
        0 <= i < hs.len() && hs[i] is Some && e == lowercase(
            trim(before(strip_prefixes(hs[i]->0, "mailto:"@), '?')),
        )
}

/// Every email that text matches give is a match, lowercased.
proof fn lemma_emails_from_text_from(ms: Seq<Seq<char>>)
    ensures
        forall|j: int|
            0 <= j < emails_from_text(ms).len() ==> email_of_some_match(ms, #[trigger] emails_from_text(ms)[j]),
    decreases ms.len(),
{
    if ms.len() > 0 {
        let t = ms.drop_last();
        lemma_emails_from_text_from(t);
        let p = emails_from_text(t);
        let r = emails_from_text(ms);
        assert forall|j: int| 0 <= j < r.len() implies email_of_some_match(ms, #[trigger] r[j]) by {
            if j < p.len() {
                assert(r[j] == p[j]);
                assert(email_of_some_match(t, p[j]));
                let i = choose|i: int| 0 <= i < t.len() && p[j] == lowercase(t[i]);
                assert(ms[i] == t[i]);
            } else {
                assert(r[j] == lowercase(ms[ms.len() - 1]));
            }
        }
    }
}

/// Every email that link targets give is the address of one of them.
proof fn lemma_emails_from_links_from(hs: Seq<Option<Seq<char>>>)
    ensures
        forall|j: int|
            0 <= j < emails_from_links(hs).len() ==> email_of_some_link(hs, #[trigger] emails_from_links(hs)[j]),
    decreases hs.len(),
{
    if hs.len() > 0 {
        let t = hs.drop_last();
        lemma_emails_from_links_from(t);
        let p = emails_from_links(t);
        let r = emails_from_links(hs);
        assert forall|j: int| 0 <= j < r.len() implies email_of_some_link(hs, #[trigger] r[j]) by {
            if j < p.len() {
                assert(r[j] == p[j]);
                assert(email_of_some_link(t, p[j]));
                let i = choose|i: int|
                    0 <= i < t.len() && t[i] is Some && p[j] == lowercase(
                        trim(before(strip_prefixes(t[i]->0, "mailto:"@), '?')),
                    );
                assert(hs[i] == t[i]);
            } else {
                assert(r[j] == mailto_address(hs[hs.len() - 1]->0));
            }
        }
    }
}

/// Every email of a page comes from the page: it is a match of the email
/// pattern in the page, lowercased, or the address of one of its `mailto:`
/// links.
pub proof fn law_emails_come_from_page(html: Seq<char>)
    ensures
        forall|j: int|
            0 <= j < emails_in(html).len() ==> {
                ||| (regex_matches(r"[a-zA-Z0-9._%+\-]+@[a-zA-Z0-9.\-]+\.[a-zA-Z]{2,}"@, html) matches Some(ms)
                    && email_of_some_match(ms, #[trigger] emails_in(html)[j]))
                ||| (selected_attrs(html, "a[href^='mailto:']"@, "href"@) matches Some(hs)
                    && email_of_some_link(hs, emails_in(html)[j]))
            },
{
    let m0 = regex_matches(EMAIL_PATTERN@, html);
    let h0 = selected_attrs(html, MAILTO_SELECTOR@, "href"@);
    let a = match m0 {
        Some(m) => emails_from_text(m),
        None => Seq::empty(),
    };
    let b = match h0 {
        Some(h) => emails_from_links(h),
        None => Seq::empty(),
    };
    let all = emails_in(html);
    assert(all == a + b);
    if let Some(ms) = m0 {
        lemma_emails_from_text_from(ms);
    }
    if let Some(hs) = h0 {
        lemma_emails_from_links_from(hs);
    }
    assert forall|j: int| 0 <= j < all.len() implies {
        ||| (m0 matches Some(ms) && email_of_some_match(ms, #[trigger] all[j]))
        ||| (h0 matches Some(hs) && email_of_some_link(hs, all[j]))
    } by {
        if j < a.len() {
            assert(all[j] == a[j]);
        } else {
            assert(all[j] == b[j - a.len()]);
        }
    }
}

/// `n` is the trimmed form of one of the values `vs`.
pub open spec fn name_of_some_value(vs: Seq<Option<Seq<char>>>, n: Seq<char>) -> bool {
    exists|i: int| 0 <= i < vs.len() && vs[i] is Some && n == trim(vs[i]->0)
}

/// `n` is a name that the search results `vs` give, if the search ran.
pub open spec fn name_of_search(vs: Option<Seq<Option<Seq<char>>>>, n: Seq<char>) -> bool {
    vs matches Some(v) && name_of_some_value(v, n)
}

/// Every name that found values give is one of them, trimmed.
proof fn lemma_names_from_from(vs: Seq<Option<Seq<char>>>)
    ensures
        forall|j: int| 0 <= j < names_from(vs).len() ==> name_of_some_value(vs, #[trigger] names_from(vs)[j]),
    decreases vs.len(),
{
    if vs.len() > 0 {
        let t = vs.drop_last();
        lemma_names_from_from(t);
        let p = names_from(t);
        let r = names_from(vs);
        assert forall|j: int| 0 <= j < r.len() implies name_of_some_value(vs, #[trigger] r[j]) by {
            if j < p.len() {
                assert(r[j] == p[j]);
                assert(name_of_some_value(t, p[j]));
                let i = choose|i: int| 0 <= i < t.len() && t[i] is Some && p[j] == trim(t[i]->0);
                assert(vs[i] == t[i]);
            } else {
                assert(r[j] == trim(vs[vs.len() - 1]->0));
            }
        }
    }
}

/// Every name of a page comes from the page: it is the trimmed content of one
/// of its author, Dublin Core creator or Open Graph site name meta tags, or
/// the trimmed name of a Schema.org person in its JSON-LD.
pub proof fn law_names_come_from_page(html: Seq<char>)
    ensures
        forall|j: int|
            0 <= j < names_in(html).len() ==> {
                let n = #[trigger] names_in(html)[j];
                ||| name_of_search(selected_attrs(html, "meta[name='author']"@, "content"@), n)
                ||| name_of_search(selected_attrs(html, "meta[name='DC.creator']"@, "content"@), n)
                ||| name_of_search(selected_attrs(html, "meta[property='og:site_name']"@, "content"@), n)
                ||| name_of_search(
                    regex_captures(r#""@type"\s*:\s*"Person"[^}]*"name"\s*:\s*"([^"]+)""#@, html, 1),
                    n,
                )
                ||| name_of_search(
                    regex_captures(r#""name"\s*:\s*"([^"]+)"[^}]*"@type"\s*:\s*"Person""#@, html, 1),
                    n,
                )
            },
{
    let s1 = selected_attrs(html, AUTHOR_SELECTOR@, "content"@);
    let s2 = selected_attrs(html, CREATOR_SELECTOR@, "content"@);
    let s3 = selected_attrs(html, SITE_NAME_SELECTOR@, "content"@);
    let s4 = regex_captures(PERSON_TYPE_FIRST_PATTERN@, html, 1);
    let s5 = regex_captures(PERSON_NAME_FIRST_PATTERN@, html, 1);
    let a = names_from_search(s1);
    let b = names_from_search(s2);
    let c = names_from_search(s3);
    let d = names_from_search(s4);
    let e = names_from_search(s5);
    let all = names_in(html);
    lemma_names_in_parts(html);
    if let Some(v) = s1 {
        lemma_names_from_from(v);
    }
    if let Some(v) = s2 {
        lemma_names_from_from(v);
    }
    if let Some(v) = s3 {
        lemma_names_from_from(v);
    }
    if let Some(v) = s4 {
        lemma_names_from_from(v);
    }
    if let Some(v) = s5 {
        lemma_names_from_from(v);
    }
    assert forall|j: int| 0 <= j < all.len() implies {
        let n = #[trigger] all[j];
        ||| name_of_search(s1, n)
        ||| name_of_search(s2, n)
        ||| name_of_search(s3, n)
        ||| name_of_search(s4, n)
        ||| name_of_search(s5, n)
    } by {
        let k1 = a.len();
        let k2 = k1 + b.len();
        let k3 = k2 + c.len();
        let k4 = k3 + d.len();
        if j < k1 {
            assert(all[j] == a[j]);
        } else if j < k2 {
            assert(all[j] == b[j - k1]);
        } else if j < k3 {
            assert(all[j] == c[j - k2]);
        } else if j < k4 {
            assert(all[j] == d[j - k3]);
        } else {
            assert(all[j] == e[j - k4]);
        }
    }
}


/// Every social link that a link gives is to one of the first `n` platforms,
/// and that platform matches.
proof fn lemma_socials_among_from(href: Seq<char>, n: nat)
    ensures
        forall|j: int|
            0 <= j < socials_among(href, n).len() ==> exists|k: int|
                0 <= k < n && platform_matches(lowercase(href), k) && #[trigger] socials_among(href, n)[j]
                    == social_for(href, k),
    decreases n,
{
    if n > 0 {
        let m = (n - 1) as nat;
        lemma_socials_among_from(href, m);
        let p = socials_among(href, m);
        let r = socials_among(href, n);
        assert forall|j: int| 0 <= j < r.len() implies exists|k: int|
            0 <= k < n && platform_matches(lowercase(href), k) && #[trigger] r[j] == social_for(href, k) by {
            if j < p.len() {
                assert(r[j] == p[j]);
                let k = choose|k: int| 0 <= k < m && platform_matches(lowercase(href), k) && p[j] == social_for(href, k);
                assert(0 <= k < n && platform_matches(lowercase(href), k) && r[j] == social_for(href, k));
            } else {
                assert(r[j] == social_for(href, m as int));
            }
        }
        assert forall|j: int| 0 <= j < socials_among(href, n).len() implies exists|k: int|
            0 <= k < n && platform_matches(lowercase(href), k) && #[trigger] socials_among(href, n)[j]
                == social_for(href, k) by {
            assert(r[j] == socials_among(href, n)[j]);
        }
    }
}

/// Every social link that a link gives is to a platform whose fragment the
/// link holds, whatever its case: GitHub for `github.com/`, LinkedIn for
/// `linkedin.com/in/` or `linkedin.com/company/`, Twitter for `twitter.com/`
/// or `x.com/`, Instagram for `instagram.com/`, Facebook for `facebook.com/`
/// or `fb.com/`, YouTube for `youtube.com/` or `youtu.be/`, TikTok for
/// `tiktok.com/@` and Mastodon for `mastodon.social/@`; its URL is the link
/// and its username the one its path names on that platform.
pub proof fn law_socials_match_their_platform(href: Seq<char>)
    ensures
        forall|s: SocialView|
            #[trigger] socials_for(href).contains(s) ==> {
                &&& s.url == href
                &&& s.username == username_from(parsed_path(href), s.platform)
                &&& {
                    ||| (s.platform == "github"@ && (contains(lowercase(href), "github.com/"@)))
                    ||| (s.platform == "linkedin"@ && (contains(lowercase(href), "linkedin.com/in/"@) || contains(lowercase(href), "linkedin.com/company/"@)))
                    ||| (s.platform == "twitter"@ && (contains(lowercase(href), "twitter.com/"@) || contains(lowercase(href), "x.com/"@)))
                    ||| (s.platform == "instagram"@ && (contains(lowercase(href), "instagram.com/"@)))
                    ||| (s.platform == "facebook"@ && (contains(lowercase(href), "facebook.com/"@) || contains(lowercase(href), "fb.com/"@)))
                    ||| (s.platform == "youtube"@ && (contains(lowercase(href), "youtube.com/"@) || contains(lowercase(href), "youtu.be/"@)))
                    ||| (s.platform == "tiktok"@ && (contains(lowercase(href), "tiktok.com/@"@)))
                    ||| (s.platform == "mastodon"@ && (contains(lowercase(href), "mastodon.social/@"@)))
                }
            },
{
    lemma_socials_among_from(href, 8);
    assert forall|s: SocialView| #[trigger] socials_for(href).contains(s) implies {
        &&& s.url == href
        &&& s.username == username_from(parsed_path(href), s.platform)
        &&& {
            ||| (s.platform == "github"@ && (contains(lowercase(href), "github.com/"@)))
                    ||| (s.platform == "linkedin"@ && (contains(lowercase(href), "linkedin.com/in/"@) || contains(lowercase(href), "linkedin.com/company/"@)))
                    ||| (s.platform == "twitter"@ && (contains(lowercase(href), "twitter.com/"@) || contains(lowercase(href), "x.com/"@)))
                    ||| (s.platform == "instagram"@ && (contains(lowercase(href), "instagram.com/"@)))
                    ||| (s.platform == "facebook"@ && (contains(lowercase(href), "facebook.com/"@) || contains(lowercase(href), "fb.com/"@)))
                    ||| (s.platform == "youtube"@ && (contains(lowercase(href), "youtube.com/"@) || contains(lowercase(href), "youtu.be/"@)))
                    ||| (s.platform == "tiktok"@ && (contains(lowercase(href), "tiktok.com/@"@)))
                    ||| (s.platform == "mastodon"@ && (contains(lowercase(href), "mastodon.social/@"@)))
        }
    } by {
        let q = socials_for(href);
        let j = choose|j: int| 0 <= j < q.len() && q[j] == s;
        let k = choose|k: int| 0 <= k < 8 && platform_matches(lowercase(href), k) && q[j] == social_for(href, k);
        let i = choose|i: int| 0 <= i < platform_patterns(k).len() && contains(lowercase(href), #[trigger] platform_patterns(k)[i]);
        if k == 0 {
            assert(platform_names()[0] == "github"@);
            assert(platform_patterns(0).len() == 1);
            assert(platform_patterns(0)[0] == "github.com/"@);
        }
        if k == 1 {
            assert(platform_names()[1] == "linkedin"@);
            assert(platform_patterns(1).len() == 2);
            assert(platform_patterns(1)[0] == "linkedin.com/in/"@);
            assert(platform_patterns(1)[1] == "linkedin.com/company/"@);
        }
        if k == 2 {
            assert(platform_names()[2] == "twitter"@);
            assert(platform_patterns(2).len() == 2);
            assert(platform_patterns(2)[0] == "twitter.com/"@);
            assert(platform_patterns(2)[1] == "x.com/"@);
        }
        if k == 3 {
            assert(platform_names()[3] == "instagram"@);
            assert(platform_patterns(3).len() == 1);
            assert(platform_patterns(3)[0] == "instagram.com/"@);
        }
        if k == 4 {
            assert(platform_names()[4] == "facebook"@);
            assert(platform_patterns(4).len() == 2);
            assert(platform_patterns(4)[0] == "facebook.com/"@);
            assert(platform_patterns(4)[1] == "fb.com/"@);
        }
        if k == 5 {
            assert(platform_names()[5] == "youtube"@);
            assert(platform_patterns(5).len() == 2);
            assert(platform_patterns(5)[0] == "youtube.com/"@);
            assert(platform_patterns(5)[1] == "youtu.be/"@);
        }
        if k == 6 {
            assert(platform_names()[6] == "tiktok"@);
            assert(platform_patterns(6).len() == 1);
            assert(platform_patterns(6)[0] == "tiktok.com/@"@);
        }
        if k == 7 {
            assert(platform_names()[7] == "mastodon"@);
            assert(platform_patterns(7).len() == 1);
            assert(platform_patterns(7)[0] == "mastodon.social/@"@);
        }
    }
}

} // verus!
