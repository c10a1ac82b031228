//! The extracted contact data of one page, and its deduplication.
use vstd::prelude::*;
use vstd::hash_set::StringHashSet;

use crate::text::{lowercase, to_lowercase};

verus! {

/// A link to a profile on a social platform.
#[derive(Debug, Clone)]
pub struct Social {
    pub platform: String,
    pub url: String,
    pub username: Option<String>,
}

/// The mathematical value of a [`Social`].
pub struct SocialView {
    pub platform: Seq<char>,
    pub url: Seq<char>,
    pub username: Option<Seq<char>>,
}

impl View for Social {
    type V = SocialView;

    open spec fn view(&self) -> SocialView {
        SocialView {
            platform: self.platform@,
            url: self.url@,
            username: match self.username {
                Some(u) => Some(u@),
                None => None,
            },
        }
    }
}

impl DeepView for Social {
    type V = SocialView;

    open spec fn deep_view(&self) -> SocialView {
        self@
    }
}

/// Two social links are the same link when their URLs are equal.
impl PartialEq for Social {
    fn eq(&self, other: &Self) -> (r: bool) {
        self.url == other.url
    }
}

impl vstd::std_specs::cmp::PartialEqSpecImpl for Social {
    open spec fn obeys_eq_spec() -> bool {
        true
    }

    open spec fn eq_spec(&self, other: &Self) -> bool {
        self.url@ == other.url@
    }
}

impl Eq for Social {

}

/// The contact data found on one page.
#[derive(Debug, Clone)]
pub struct Lead {
    pub url: String,
    pub emails: Vec<String>,
    pub phones: Vec<String>,
    pub socials: Vec<Social>,
    pub names: Vec<String>,
}

/// The mathematical value of a [`Lead`].
pub struct LeadView {
    pub url: Seq<char>,
    pub emails: Seq<Seq<char>>,
    pub phones: Seq<Seq<char>>,
    pub socials: Seq<SocialView>,
    pub names: Seq<Seq<char>>,
}

impl View for Lead {
    type V = LeadView;

    open spec fn view(&self) -> LeadView {
        LeadView {
            url: self.url@,
            emails: self.emails.deep_view(),
            phones: self.phones.deep_view(),
            socials: self.socials.deep_view(),
            names: self.names.deep_view(),
        }
    }
}

impl DeepView for Lead {
    type V = LeadView;

    open spec fn deep_view(&self) -> LeadView {
        self@
    }
}

// ---------------------------------------------------------------------------
// Deduplication, specified
// ---------------------------------------------------------------------------
/// Some element before position `i` of `s` has the same key as `s[i]`.
pub open spec fn key_seen_before<A>(s: Seq<A>, key: spec_fn(A) -> Seq<char>, i: int) -> bool {
    exists|j: int| 0 <= j < i && #[trigger] key(s[j]) == key(s[i])
}

/// The elements of `s` whose key did not occur earlier in `s`, in their order:
/// the first occurrence of each key is kept.
pub open spec fn dedup_by_key<A>(s: Seq<A>, key: spec_fn(A) -> Seq<char>) -> Seq<A>
    decreases s.len(),
{
    if s.len() == 0 {
        s
    } else {
        let prev = dedup_by_key(s.drop_last(), key);
        if key_seen_before(s, key, s.len() - 1) {
            prev
        } else {
            prev.push(s.last())
        }
    }
}

/// The keys of the elements of `s`.
pub open spec fn keys_of<A>(s: Seq<A>, key: spec_fn(A) -> Seq<char>) -> Set<Seq<char>> {
    Set::new(|k: Seq<char>| exists|j: int| 0 <= j < s.len() && #[trigger] key(s[j]) == k)
}

/// The key by which strings are deduplicated: their lowercase form.
pub open spec fn string_key() -> spec_fn(Seq<char>) -> Seq<char> {
    |s: Seq<char>| lowercase(s)
}

/// The key by which social links are deduplicated: their URL.
pub open spec fn social_key() -> spec_fn(SocialView) -> Seq<char> {
    |s: SocialView| s.url
}

/// Strings deduplicated case-insensitively, keeping first occurrences.
pub open spec fn dedup_strings(s: Seq<Seq<char>>) -> Seq<Seq<char>> {
    dedup_by_key(s, string_key())
}

/// Social links deduplicated by URL, keeping first occurrences.
pub open spec fn dedup_socials(s: Seq<SocialView>) -> Seq<SocialView> {
    dedup_by_key(s, social_key())
}

/// No two elements of `s` share a key.
pub open spec fn distinct_keys<A>(s: Seq<A>, key: spec_fn(A) -> Seq<char>) -> bool {
    forall|i: int, j: int| 0 <= i < j < s.len() ==> key(#[trigger] s[i]) != key(#[trigger] s[j])
}

// ---------------------------------------------------------------------------
// Deduplication, laws
// ---------------------------------------------------------------------------
/// Deduplication keeps elements of its input only, and no more of them.
pub proof fn lemma_dedup_from_input<A>(s: Seq<A>, key: spec_fn(A) -> Seq<char>)
    ensures
        dedup_by_key(s, key).len() <= s.len(),
        forall|i: int|
            0 <= i < dedup_by_key(s, key).len() ==> s.contains(#[trigger] dedup_by_key(s, key)[i]),
    decreases s.len(),
{
    let r = dedup_by_key(s, key);
    if s.len() > 0 {
        let t = s.drop_last();
        let p = dedup_by_key(t, key);
        lemma_dedup_from_input(t, key);
        assert forall|i: int| 0 <= i < r.len() implies s.contains(#[trigger] r[i]) by {
            if i < p.len() {
                assert(r[i] == p[i]);
                assert(t.contains(p[i]));
                let j = choose|j: int| 0 <= j < t.len() && t[j] == p[i];
                assert(s[j] == t[j]);
            } else {
                assert(r[i] == s[s.len() - 1]);
            }
        }
    }
}

/// Deduplication keeps exactly the keys of its input.
pub proof fn lemma_dedup_keys<A>(s: Seq<A>, key: spec_fn(A) -> Seq<char>)
    ensures
        keys_of(dedup_by_key(s, key), key) == keys_of(s, key),
    decreases s.len(),
{
    let r = dedup_by_key(s, key);
    if s.len() > 0 {
        let t = s.drop_last();
        let p = dedup_by_key(t, key);
        lemma_dedup_keys(t, key);
        assert(keys_of(p, key) == keys_of(t, key));
        assert forall|k: Seq<char>| keys_of(s, key).contains(k) implies keys_of(r, key).contains(
            k,
        ) by {
            let j = choose|j: int| 0 <= j < s.len() && #[trigger] key(s[j]) == k;
            let k0 = if j == s.len() - 1 && key_seen_before(s, key, s.len() - 1) {
                let j2 = choose|j2: int| 0 <= j2 < s.len() - 1 && #[trigger] key(s[j2]) == key(
                    s[s.len() - 1],
                );
                j2
            } else {
                j
            };
            assert(key(s[k0]) == k);
            if k0 == s.len() - 1 {
                assert(key(r[r.len() - 1]) == k);
            } else {
                assert(t[k0] == s[k0]);
                assert(keys_of(t, key).contains(k));
                assert(keys_of(p, key).contains(k));
                let j3 = choose|j3: int| 0 <= j3 < p.len() && #[trigger] key(p[j3]) == k;
                assert(r[j3] == p[j3]);
            }
        }
        assert forall|k: Seq<char>| keys_of(r, key).contains(k) implies keys_of(s, key).contains(
            k,
        ) by {
            let j = choose|j: int| 0 <= j < r.len() && #[trigger] key(r[j]) == k;
            if j == p.len() {
                assert(key(s[s.len() - 1]) == k);
            } else {
                assert(r[j] == p[j]);
                assert(keys_of(p, key).contains(k));
                assert(keys_of(t, key).contains(k));
                let j2 = choose|j2: int| 0 <= j2 < t.len() && #[trigger] key(t[j2]) == k;
                assert(s[j2] == t[j2]);
            }
        }
        assert(keys_of(r, key) =~= keys_of(s, key));
    }
}

/// No two elements of a deduplicated sequence share a key.
pub proof fn lemma_dedup_distinct<A>(s: Seq<A>, key: spec_fn(A) -> Seq<char>)
    ensures
        distinct_keys(dedup_by_key(s, key), key),
    decreases s.len(),
{
    let r = dedup_by_key(s, key);
    if s.len() > 0 {
        let t = s.drop_last();
        let p = dedup_by_key(t, key);
        lemma_dedup_distinct(t, key);
        lemma_dedup_keys(t, key);
        if !key_seen_before(s, key, s.len() - 1) {
            assert forall|i: int, j: int| 0 <= i < j < r.len() implies key(#[trigger] r[i]) != key(
                #[trigger] r[j],
            ) by {
                if j == r.len() - 1 {
                    assert(r[j] == s.last());
                    assert(r[i] == p[i]);
                    assert(keys_of(p, key).contains(key(p[i])));
                    assert(keys_of(t, key).contains(key(p[i])));
                    let jj = choose|jj: int| 0 <= jj < t.len() && #[trigger] key(t[jj]) == key(p[i]);
                    assert(s[jj] == t[jj]);
                } else {
                    assert(r[i] == p[i]);
                    assert(r[j] == p[j]);
                }
            }
        }
    }
}

/// Deduplication keeps every element whose key did not occur before it.
pub proof fn lemma_dedup_keeps_first<A>(s: Seq<A>, key: spec_fn(A) -> Seq<char>)
    ensures
        forall|i: int|
            0 <= i < s.len() && !key_seen_before(s, key, i) ==> dedup_by_key(s, key).contains(
                #[trigger] s[i],
            ),
    decreases s.len(),
{
    let r = dedup_by_key(s, key);
    if s.len() > 0 {
        let t = s.drop_last();
        let p = dedup_by_key(t, key);
        lemma_dedup_keeps_first(t, key);
        assert forall|i: int|
            0 <= i < s.len() && !key_seen_before(s, key, i) implies r.contains(#[trigger] s[i]) by {
            if i == s.len() - 1 {
                assert(r[r.len() - 1] == s[i]);
            } else {
                assert(t[i] == s[i]);
                if key_seen_before(t, key, i) {
                    let j = choose|j: int| 0 <= j < i && #[trigger] key(t[j]) == key(t[i]);
                    assert(s[j] == t[j]);
                }
                assert(p.contains(t[i]));
                let j = choose|j: int| 0 <= j < p.len() && p[j] == t[i];
                assert(r[j] == p[j]);
            }
        }
    }
}

/// The result of deduplication: its elements come from the input, it holds no
/// two elements with the same key, it holds an element for every key of the input,
/// and it keeps the first element of each key.
pub proof fn law_dedup_by_key<A>(s: Seq<A>, key: spec_fn(A) -> Seq<char>)
    ensures
        dedup_by_key(s, key).len() <= s.len(),
        forall|i: int|
            0 <= i < dedup_by_key(s, key).len() ==> s.contains(#[trigger] dedup_by_key(s, key)[i]),
        distinct_keys(dedup_by_key(s, key), key),
        keys_of(dedup_by_key(s, key), key) == keys_of(s, key),
        forall|i: int|
            0 <= i < s.len() && !key_seen_before(s, key, i) ==> dedup_by_key(s, key).contains(
                #[trigger] s[i],
            ),
{
    lemma_dedup_from_input(s, key);
    lemma_dedup_distinct(s, key);
    lemma_dedup_keys(s, key);
    lemma_dedup_keeps_first(s, key);
}

/// A sequence whose keys are already distinct is left unchanged by deduplication.
pub proof fn lemma_dedup_distinct_is_identity<A>(s: Seq<A>, key: spec_fn(A) -> Seq<char>)
    requires
        distinct_keys(s, key),
    ensures
        dedup_by_key(s, key) == s,
    decreases s.len(),
{
    if s.len() > 0 {
        let t = s.drop_last();
        assert forall|i: int, j: int| 0 <= i < j < t.len() implies key(#[trigger] t[i]) != key(
            #[trigger] t[j],
        ) by {
            assert(t[i] == s[i] && t[j] == s[j]);
        }
        lemma_dedup_distinct_is_identity(t, key);
        if key_seen_before(s, key, s.len() - 1) {
            let j = choose|j: int| 0 <= j < s.len() - 1 && #[trigger] key(s[j]) == key(
                s[s.len() - 1],
            );
            assert(key(s[j]) != key(s[s.len() - 1]));
        }
        assert(t.push(s.last()) =~= s);
    }
}

/// Deduplicating twice gives what deduplicating once gives.
pub proof fn law_dedup_idempotent<A>(s: Seq<A>, key: spec_fn(A) -> Seq<char>)
    ensures
        dedup_by_key(dedup_by_key(s, key), key) == dedup_by_key(s, key),
{
    lemma_dedup_distinct(s, key);
    lemma_dedup_distinct_is_identity(dedup_by_key(s, key), key);
}

// ---------------------------------------------------------------------------
// Executable
// ---------------------------------------------------------------------------
/// Keeps the first of each group of strings that are equal ignoring case.
pub fn dedup_vec(v: &mut Vec<String>)
    ensures
        final(v).deep_view() == dedup_strings(old(v).deep_view()),
{
    let ghost key = string_key();
    let ghost s = v.deep_view();
    let mut seen = StringHashSet::new();
    let mut out: Vec<String> = Vec::new();
    let n = v.len();
    let mut i: usize = 0;
    while i < n
        invariant
            i <= n,
            n == v.len(),
            s == v.deep_view(),
            key == string_key(),
            out.deep_view() == dedup_by_key(s.take(i as int), key),
            seen@ == keys_of(s.take(i as int), key),
        decreases n - i,
    {
        let k = to_lowercase(v[i].as_str());
        let ghost t = s.take(i + 1);
        assert(t.drop_last() =~= s.take(i as int));
        assert(key(t[i as int]) == k@);
        assert(key_seen_before(t, key, i as int) == seen@.contains(k@)) by {
            if seen@.contains(k@) {
                let j = choose|j: int| 0 <= j < i && #[trigger] key(s.take(i as int)[j]) == k@;
                assert(t[j] == s.take(i as int)[j]);
            }
            if key_seen_before(t, key, i as int) {
                let j = choose|j: int| 0 <= j < i && #[trigger] key(t[j]) == key(t[i as int]);
                assert(t[j] == s.take(i as int)[j]);
            }
        }
        let fresh = seen.insert(k);
        if fresh {
            let item = v[i].clone();
            out.push(item);
            assert(out.deep_view() =~= dedup_by_key(s.take(i as int), key).push(t[i as int]));
        }
        assert(seen@ =~= keys_of(t, key)) by {
            assert forall|k2: Seq<char>| keys_of(t, key).contains(k2) implies seen@.contains(k2) by {
                let j = choose|j: int| 0 <= j < t.len() && #[trigger] key(t[j]) == k2;
                if j < i {
                    assert(t[j] == s.take(i as int)[j]);
                }
            }
            assert forall|k2: Seq<char>| seen@.contains(k2) implies keys_of(t, key).contains(k2) by {
                if k2 != k@ {
                    let j = choose|j: int| 0 <= j < i && #[trigger] key(s.take(i as int)[j]) == k2;
                    assert(t[j] == s.take(i as int)[j]);
                }
            }
        }
        i = i + 1;
    }
    assert(s.take(n as int) =~= s);
    *v = out;
}

/// A copy of `s` with the same value.
fn copy_social(s: &Social) -> (r: Social)
    ensures
        r@ == s@,
{
    Social {
        platform: s.platform.clone(),
        url: s.url.clone(),
        username: match &s.username {
            Some(u) => Some(u.clone()),
            None => None,
        },
    }
}

/// Keeps the first of each group of social links with the same URL.
fn dedup_social_vec(v: &mut Vec<Social>)
    ensures
        final(v).deep_view() == dedup_socials(old(v).deep_view()),
{
    let ghost key = social_key();
    let ghost s = v.deep_view();
    let mut seen = StringHashSet::new();
    let mut out: Vec<Social> = Vec::new();
    let n = v.len();
    let mut i: usize = 0;
    while i < n
        invariant
            i <= n,
            n == v.len(),
            s == v.deep_view(),
            key == social_key(),
            out.deep_view() == dedup_by_key(s.take(i as int), key),
            seen@ == keys_of(s.take(i as int), key),
        decreases n - i,
    {
        let k = v[i].url.clone();
        let ghost t = s.take(i + 1);
        assert(t.drop_last() =~= s.take(i as int));
        assert(key(t[i as int]) == k@);
        assert(key_seen_before(t, key, i as int) == seen@.contains(k@)) by {
            if seen@.contains(k@) {
                let j = choose|j: int| 0 <= j < i && #[trigger] key(s.take(i as int)[j]) == k@;
                assert(t[j] == s.take(i as int)[j]);
            }
            if key_seen_before(t, key, i as int) {
                let j = choose|j: int| 0 <= j < i && #[trigger] key(t[j]) == key(t[i as int]);
                assert(t[j] == s.take(i as int)[j]);
            }
        }
        let fresh = seen.insert(k);
        if fresh {
            let item = copy_social(&v[i]);
            out.push(item);
            assert(out.deep_view() =~= dedup_by_key(s.take(i as int), key).push(t[i as int]));
        }
        assert(seen@ =~= keys_of(t, key)) by {
            assert forall|k2: Seq<char>| keys_of(t, key).contains(k2) implies seen@.contains(k2) by {
                let j = choose|j: int| 0 <= j < t.len() && #[trigger] key(t[j]) == k2;
                if j < i {
                    assert(t[j] == s.take(i as int)[j]);
                }
            }
            assert forall|k2: Seq<char>| seen@.contains(k2) implies keys_of(t, key).contains(k2) by {
                if k2 != k@ {
                    let j = choose|j: int| 0 <= j < i && #[trigger] key(s.take(i as int)[j]) == k2;
                    assert(t[j] == s.take(i as int)[j]);
                }
            }
        }
        i = i + 1;
    }
    assert(s.take(n as int) =~= s);
    *v = out;
}

/// A lead holds data when one of its lists is not empty.
pub open spec fn lead_has_data(l: LeadView) -> bool {
    l.emails.len() > 0 || l.phones.len() > 0 || l.socials.len() > 0 || l.names.len() > 0
}

/// A lead deduplicated: strings ignoring case, social links by URL.
pub open spec fn lead_dedup(l: LeadView) -> LeadView {
    LeadView {
        url: l.url,
        emails: dedup_strings(l.emails),
        phones: dedup_strings(l.phones),
        socials: dedup_socials(l.socials),
        names: dedup_strings(l.names),
    }
}

impl Lead {
    /// An empty lead for the page at `url`.
    pub fn new(url: String) -> (r: Self)
        ensures
            r@.url == url@,
            r@.emails.len() == 0,
            r@.phones.len() == 0,
            r@.socials.len() == 0,
            r@.names.len() == 0,
    {
        Lead { url, emails: Vec::new(), phones: Vec::new(), socials: Vec::new(), names: Vec::new() }
    }

    /// Returns true if this lead has any extracted data.
    pub fn has_data(&self) -> (b: bool)
        ensures
            b == lead_has_data(self@),
    {
        !self.emails.is_empty() || !self.phones.is_empty() || !self.socials.is_empty()
            || !self.names.is_empty()
    }

    /// Deduplicate all fields in place.
    pub fn dedup(&mut self)
        ensures
            final(self)@ == lead_dedup(old(self)@),
    {
        dedup_vec(&mut self.emails);
        dedup_vec(&mut self.phones);
        dedup_vec(&mut self.names);
        dedup_social_vec(&mut self.socials);
    }
}

/// Deduplication removes repeats only: a lead holds data after it exactly when it did before.
pub proof fn law_dedup_keeps_has_data(l: LeadView)
    ensures
        lead_has_data(lead_dedup(l)) == lead_has_data(l),
{
    lemma_dedup_nonempty(l.emails, string_key());
    lemma_dedup_nonempty(l.phones, string_key());
    lemma_dedup_nonempty(l.names, string_key());
    lemma_dedup_nonempty(l.socials, social_key());
}

/// Deduplication leaves a sequence empty exactly when it was empty.
pub proof fn lemma_dedup_nonempty<A>(s: Seq<A>, key: spec_fn(A) -> Seq<char>)
    ensures
        (dedup_by_key(s, key).len() == 0) == (s.len() == 0),
{
    lemma_dedup_from_input(s, key);
    if s.len() > 0 {
        lemma_dedup_keeps_first(s, key);
        assert(!key_seen_before(s, key, 0));
        assert(dedup_by_key(s, key).contains(s[0]));
    }
}

/// Deduplicating a lead twice gives what deduplicating it once gives.
pub proof fn law_lead_dedup_idempotent(l: LeadView)
    ensures
        lead_dedup(lead_dedup(l)) == lead_dedup(l),
{
    law_dedup_idempotent(l.emails, string_key());
    law_dedup_idempotent(l.phones, string_key());
    law_dedup_idempotent(l.names, string_key());
    law_dedup_idempotent(l.socials, social_key());
}

} // verus!
