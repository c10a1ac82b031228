//! Character-level text operations used by the extractors, each with a
//! specification over `Seq<char>`.
use vstd::prelude::*;

verus! {

// ---------------------------------------------------------------------------
// Specifications
// ---------------------------------------------------------------------------
/// A character with the Unicode `White_Space` property (what `char::is_whitespace` tests).
pub open spec fn is_white_space(c: char) -> bool {
    ||| ('\u{9}' <= c && c <= '\u{d}')
    ||| c == ' '
    ||| c == '\u{85}'
    ||| c == '\u{a0}'
    ||| c == '\u{1680}'
    ||| ('\u{2000}' <= c && c <= '\u{200a}')
    ||| c == '\u{2028}'
    ||| c == '\u{2029}'
    ||| c == '\u{202f}'
    ||| c == '\u{205f}'
    ||| c == '\u{3000}'
}

/// An ASCII decimal digit.
pub open spec fn is_digit(c: char) -> bool {
    '0' <= c && c <= '9'
}

/// `s` with its leading white space removed.
pub open spec fn trim_start(s: Seq<char>) -> Seq<char>
    decreases s.len(),
{
    if s.len() > 0 && is_white_space(s[0]) {
        trim_start(s.drop_first())
    } else {
        s
    }
}

/// `s` with its trailing white space removed.
pub open spec fn trim_end(s: Seq<char>) -> Seq<char>
    decreases s.len(),
{
    if s.len() > 0 && is_white_space(s.last()) {
        trim_end(s.drop_last())
    } else {
        s
    }
}

/// `s` with leading and trailing white space removed (`str::trim`).
pub open spec fn trim(s: Seq<char>) -> Seq<char> {
    trim_end(trim_start(s))
}

/// `s` begins with `p`.
pub open spec fn starts_with(s: Seq<char>, p: Seq<char>) -> bool {
    p.len() <= s.len() && s.subrange(0, p.len() as int) == p
}

/// `s` ends with `p`.
pub open spec fn ends_with(s: Seq<char>, p: Seq<char>) -> bool {
    p.len() <= s.len() && s.subrange(s.len() - p.len(), s.len() as int) == p
}

/// `p` occurs in `s` starting at position `i`.
pub open spec fn occurs_at(s: Seq<char>, p: Seq<char>, i: int) -> bool {
    0 <= i && i + p.len() <= s.len() && s.subrange(i, i + p.len()) == p
}

/// `p` occurs somewhere in `s`.
pub open spec fn contains(s: Seq<char>, p: Seq<char>) -> bool {
    exists|i: int| #[trigger] occurs_at(s, p, i)
}

/// `s` with every leading copy of the non-empty pattern `p` removed (`str::trim_start_matches`).
pub open spec fn strip_prefixes(s: Seq<char>, p: Seq<char>) -> Seq<char>
    decreases s.len(),
{
    if p.len() > 0 && starts_with(s, p) {
        strip_prefixes(s.subrange(p.len() as int, s.len() as int), p)
    } else {
        s
    }
}

/// `s` with every leading `c` removed.
pub open spec fn strip_leading(s: Seq<char>, c: char) -> Seq<char>
    decreases s.len(),
{
    if s.len() > 0 && s[0] == c {
        strip_leading(s.drop_first(), c)
    } else {
        s
    }
}

/// `s` with every trailing `c` removed.
pub open spec fn strip_trailing(s: Seq<char>, c: char) -> Seq<char>
    decreases s.len(),
{
    if s.len() > 0 && s.last() == c {
        strip_trailing(s.drop_last(), c)
    } else {
        s
    }
}

/// The part of `s` before the first `c`, or all of `s` when it holds no `c`
/// (the first piece of `s.split(c)`).
pub open spec fn before(s: Seq<char>, c: char) -> Seq<char>
    decreases s.len(),
{
    if s.len() == 0 || s[0] == c {
        Seq::empty()
    } else {
        seq![s[0]] + before(s.drop_first(), c)
    }
}

/// The part of `s` after the first `c`, when `s` holds a `c`.
pub open spec fn after(s: Seq<char>, c: char) -> Option<Seq<char>> {
    let b = before(s, c);
    if b.len() < s.len() {
        Some(s.subrange(b.len() as int + 1, s.len() as int))
    } else {
        None
    }
}

/// The number of ASCII digits in `s`.
pub open spec fn digit_count(s: Seq<char>) -> nat
    decreases s.len(),
{
    if s.len() == 0 {
        0
    } else {
        digit_count(s.drop_last()) + if is_digit(s.last()) {
            1nat
        } else {
            0nat
        }
    }
}

/// The maximal runs of non-white-space characters of `s`, in order
/// (what `str::split_whitespace` yields).
pub open spec fn words(s: Seq<char>) -> Seq<Seq<char>>
    decreases s.len(),
{
    if s.len() == 0 {
        Seq::empty()
    } else {
        let w = words(s.drop_last());
        if is_white_space(s.last()) {
            w
        } else if s.len() > 1 && !is_white_space(s[s.len() - 2]) {
            w.drop_last().push(w.last().push(s.last()))
        } else {
            w.push(seq![s.last()])
        }
    }
}

/// The strings of `ws` joined with single spaces (`[String]::join(" ")`).
pub open spec fn join_words(ws: Seq<Seq<char>>) -> Seq<char>
    decreases ws.len(),
{
    if ws.len() == 0 {
        Seq::empty()
    } else if ws.len() == 1 {
        ws[0]
    } else {
        join_words(ws.drop_last()) + seq![' '] + ws.last()
    }
}

/// The pieces of `s` between the separators `c`, in order; there is always at
/// least one (what `str::split` yields).
pub open spec fn split_on(s: Seq<char>, c: char) -> Seq<Seq<char>>
    decreases s.len(),
{
    if s.len() == 0 {
        seq![Seq::empty()]
    } else {
        let p = split_on(s.drop_last(), c);
        if s.last() == c {
            p.push(Seq::empty())
        } else {
            p.drop_last().push(p.last().push(s.last()))
        }
    }
}

/// The number of bytes of `c` in UTF-8.
pub open spec fn utf8_width(c: char) -> nat {
    if (c as u32) < 0x80 {
        1
    } else if (c as u32) < 0x800 {
        2
    } else if (c as u32) < 0x10000 {
        3
    } else {
        4
    }
}

/// The number of bytes of `s` in UTF-8 (what `str::len` returns).
pub open spec fn utf8_len(s: Seq<char>) -> nat
    decreases s.len(),
{
    if s.len() == 0 {
        0
    } else {
        utf8_len(s.drop_last()) + utf8_width(s.last())
    }
}

// ---------------------------------------------------------------------------
// Lemmas
// ---------------------------------------------------------------------------
/// `before` never yields a `c`, and is a prefix of its argument.
pub proof fn lemma_before(s: Seq<char>, c: char)
    ensures
        before(s, c).len() <= s.len(),
        before(s, c) == s.subrange(0, before(s, c).len() as int),
        forall|i: int| 0 <= i < before(s, c).len() ==> s[i] != c,
        before(s, c).len() < s.len() ==> s[before(s, c).len() as int] == c,
    decreases s.len(),
{
    if s.len() > 0 && s[0] != c {
        lemma_before(s.drop_first(), c);
        let b = before(s.drop_first(), c);
        assert(seq![s[0]] + b =~= s.subrange(0, b.len() as int + 1));
        assert forall|i: int| 0 <= i < before(s, c).len() implies s[i] != c by {
            if i > 0 {
                assert(before(s, c)[i] == b[i - 1]);
                assert(s.drop_first()[i - 1] == s[i]);
            }
        }
    }
}

// ---------------------------------------------------------------------------
// Trusted std primitives
// ---------------------------------------------------------------------------
/// What `str::to_lowercase` returns for a string: its Unicode lowercase form
/// (per-character mappings, some of several characters, and the context-dependent
/// final sigma).
pub uninterp spec fn lowercase(s: Seq<char>) -> Seq<char>;

/// `str::to_lowercase`: the Unicode lowercase form of `s`, named `lowercase`.
#[verifier::external_body]
pub(crate) fn to_lowercase(s: &str) -> (r: String)
    ensures
        r@ == lowercase(s@),
{
    s.to_lowercase()
}

/// `String::push`: appends `c` at the end of `s`.
#[verifier::external_body]
fn push_char(s: &mut String, c: char)
    ensures
        final(s)@ == old(s)@.push(c),
{
    s.push(c)
}

// ---------------------------------------------------------------------------
// Executable operations
// ---------------------------------------------------------------------------
/// The characters of `s`, in order.
pub fn chars_of(s: &str) -> (v: Vec<char>)
    ensures
        v@ == s@,
{
    let mut v: Vec<char> = Vec::new();
    for c in it: s.chars()
        invariant
            v@ == it.seq().take(it.index() as int),
            it.seq() == s@,
    {
        v.push(c);
    }
    v
}

/// The string made of the characters `v`.
pub fn string_of(v: &Vec<char>) -> (s: String)
    ensures
        s@ == v@,
{
    let mut s = String::new();
    let mut i: usize = 0;
    while i < v.len()
        invariant
            i <= v.len(),
            s@ == v@.take(i as int),
        decreases v.len() - i,
    {
        push_char(&mut s, v[i]);
        i = i + 1;
        assert(v@.take(i as int) =~= v@.take((i - 1) as int).push(v@[i - 1]));
    }
    assert(v@.take(i as int) =~= v@);
    s
}

/// The characters `v[from..to]`.
pub fn slice(v: &Vec<char>, from: usize, to: usize) -> (r: Vec<char>)
    requires
        from <= to <= v.len(),
    ensures
        r@ == v@.subrange(from as int, to as int),
{
    let mut r: Vec<char> = Vec::new();
    let mut i: usize = from;
    while i < to
        invariant
            from <= i <= to <= v.len(),
            r@ == v@.subrange(from as int, i as int),
        decreases to - i,
    {
        r.push(v[i]);
        i = i + 1;
        assert(r@ =~= v@.subrange(from as int, i as int));
    }
    r
}

/// Whether `c` has the Unicode `White_Space` property.
pub fn is_white_space_char(c: char) -> (b: bool)
    ensures
        b == is_white_space(c),
{
    ('\u{9}' <= c && c <= '\u{d}') || c == ' ' || c == '\u{85}' || c == '\u{a0}' || c
        == '\u{1680}' || ('\u{2000}' <= c && c <= '\u{200a}') || c == '\u{2028}' || c
        == '\u{2029}' || c == '\u{202f}' || c == '\u{205f}' || c == '\u{3000}'
}

/// Whether `c` is an ASCII digit.
pub fn is_digit_char(c: char) -> (b: bool)
    ensures
        b == is_digit(c),
{
    '0' <= c && c <= '9'
}

/// `s` without leading and trailing white space.
pub fn trim_chars(s: &Vec<char>) -> (r: Vec<char>)
    ensures
        r@ == trim(s@),
{
    let mut a: usize = 0;
    assert(s@.subrange(0, s@.len() as int) =~= s@);
    while a < s.len() && is_white_space_char(s[a])
        invariant
            a <= s.len(),
            trim_start(s@.subrange(a as int, s@.len() as int)) == trim_start(s@),
        decreases s.len() - a,
    {
        assert(s@.subrange(a as int, s@.len() as int).drop_first() =~= s@.subrange(
            a + 1,
            s@.len() as int,
        ));
        a = a + 1;
    }
    let ghost t = s@.subrange(a as int, s@.len() as int);
    assert(trim_start(t) == t);
    let mut b: usize = s.len();
    assert(t.subrange(0, (b - a) as int) =~= t);
    while b > a && is_white_space_char(s[b - 1])
        invariant
            a <= b <= s.len(),
            t == s@.subrange(a as int, s@.len() as int),
            trim_end(t.subrange(0, (b - a) as int)) == trim_end(t),
        decreases b,
    {
        assert(t.subrange(0, (b - a) as int).drop_last() =~= t.subrange(0, (b - 1 - a) as int));
        b = b - 1;
    }
    assert(t.subrange(0, (b - a) as int) =~= s@.subrange(a as int, b as int));
    slice(s, a, b)
}

/// Whether `p` occurs in `s` at position `i`.
pub fn occurs_at_exec(s: &Vec<char>, p: &Vec<char>, i: usize) -> (b: bool)
    ensures
        b == occurs_at(s@, p@, i as int),
{
    if i > s.len() || p.len() > s.len() - i {
        return false;
    }
    let mut j: usize = 0;
    while j < p.len()
        invariant
            j <= p.len(),
            i + p.len() <= s.len(),
            forall|k: int| 0 <= k < j ==> s@[i + k] == p@[k],
        decreases p.len() - j,
    {
        if s[i + j] != p[j] {
            assert(s@.subrange(i as int, i + p.len())[j as int] != p@[j as int]);
            return false;
        }
        j = j + 1;
    }
    assert(s@.subrange(i as int, i + p.len()) =~= p@);
    true
}

/// Whether `s` begins with `p`.
pub fn starts_with_exec(s: &Vec<char>, p: &Vec<char>) -> (b: bool)
    ensures
        b == starts_with(s@, p@),
{
    occurs_at_exec(s, p, 0)
}

/// Whether `s` ends with `p`.
pub fn ends_with_exec(s: &Vec<char>, p: &Vec<char>) -> (b: bool)
    ensures
        b == ends_with(s@, p@),
{
    if p.len() > s.len() {
        false
    } else {
        occurs_at_exec(s, p, s.len() - p.len())
    }
}

/// Whether `p` occurs in `s`.
pub fn contains_exec(s: &Vec<char>, p: &Vec<char>) -> (b: bool)
    ensures
        b == contains(s@, p@),
{
    if p.len() > s.len() {
        assert(forall|i: int| !#[trigger] occurs_at(s@, p@, i));
        return false;
    }
    let last = s.len() - p.len();
    let mut i: usize = 0;
    loop
        invariant
            p.len() <= s.len(),
            last == s.len() - p.len(),
            i <= last,
            forall|k: int| 0 <= k < i ==> !#[trigger] occurs_at(s@, p@, k),
        ensures
            forall|k: int| 0 <= k <= last ==> !#[trigger] occurs_at(s@, p@, k),
        decreases last - i,
    {
        if occurs_at_exec(s, p, i) {
            return true;
        }
        if i == last {
            break;
        }
        i = i + 1;
    }
    assert(forall|k: int| !#[trigger] occurs_at(s@, p@, k));
    false
}

/// `s` with every leading copy of `p` removed.
pub fn strip_prefixes_exec(s: &Vec<char>, p: &Vec<char>) -> (r: Vec<char>)
    ensures
        r@ == strip_prefixes(s@, p@),
{
    if p.len() == 0 {
        return slice(s, 0, s.len());
    }
    let mut a: usize = 0;
    assert(s@.subrange(0, s@.len() as int) =~= s@);
    while a <= s.len() && p.len() <= s.len() - a && occurs_at_exec(s, p, a)
        invariant
            a <= s.len(),
            p.len() > 0,
            strip_prefixes(s@.subrange(a as int, s@.len() as int), p@) == strip_prefixes(s@, p@),
        decreases s.len() - a,
    {
        let ghost t = s@.subrange(a as int, s@.len() as int);
        assert(t.subrange(0, p@.len() as int) =~= s@.subrange(a as int, a + p@.len()));
        assert(t.subrange(p@.len() as int, t.len() as int) =~= s@.subrange(
            a + p@.len(),
            s@.len() as int,
        ));
        a = a + p.len();
    }
    let ghost t = s@.subrange(a as int, s@.len() as int);
    if p.len() <= s.len() - a {
        assert(t.subrange(0, p@.len() as int) =~= s@.subrange(a as int, a + p@.len()));
    }
    slice(s, a, s.len())
}

/// `s` without its leading and trailing copies of `c`.
pub fn strip_both(s: &Vec<char>, c: char) -> (r: Vec<char>)
    ensures
        r@ == strip_trailing(strip_leading(s@, c), c),
{
    let mut a: usize = 0;
    assert(s@.subrange(0, s@.len() as int) =~= s@);
    while a < s.len() && s[a] == c
        invariant
            a <= s.len(),
            strip_leading(s@.subrange(a as int, s@.len() as int), c) == strip_leading(s@, c),
        decreases s.len() - a,
    {
        assert(s@.subrange(a as int, s@.len() as int).drop_first() =~= s@.subrange(
            a + 1,
            s@.len() as int,
        ));
        a = a + 1;
    }
    let ghost t = s@.subrange(a as int, s@.len() as int);
    let mut b: usize = s.len();
    assert(t.subrange(0, (b - a) as int) =~= t);
    while b > a && s[b - 1] == c
        invariant
            a <= b <= s.len(),
            t == s@.subrange(a as int, s@.len() as int),
            strip_trailing(t.subrange(0, (b - a) as int), c) == strip_trailing(t, c),
        decreases b,
    {
        assert(t.subrange(0, (b - a) as int).drop_last() =~= t.subrange(0, (b - 1 - a) as int));
        b = b - 1;
    }
    assert(t.subrange(0, (b - a) as int) =~= s@.subrange(a as int, b as int));
    slice(s, a, b)
}

/// `s` without its leading copies of `c`.
pub fn strip_leading_exec(s: &Vec<char>, c: char) -> (r: Vec<char>)
    ensures
        r@ == strip_leading(s@, c),
{
    let mut a: usize = 0;
    assert(s@.subrange(0, s@.len() as int) =~= s@);
    while a < s.len() && s[a] == c
        invariant
            a <= s.len(),
            strip_leading(s@.subrange(a as int, s@.len() as int), c) == strip_leading(s@, c),
        decreases s.len() - a,
    {
        assert(s@.subrange(a as int, s@.len() as int).drop_first() =~= s@.subrange(
            a + 1,
            s@.len() as int,
        ));
        a = a + 1;
    }
    slice(s, a, s.len())
}

/// `s` without its trailing copies of `c`.
pub fn strip_trailing_exec(s: &Vec<char>, c: char) -> (r: Vec<char>)
    ensures
        r@ == strip_trailing(s@, c),
{
    let mut b: usize = s.len();
    assert(s@.subrange(0, b as int) =~= s@);
    while b > 0 && s[b - 1] == c
        invariant
            b <= s.len(),
            strip_trailing(s@.subrange(0, b as int), c) == strip_trailing(s@, c),
        decreases b,
    {
        assert(s@.subrange(0, b as int).drop_last() =~= s@.subrange(0, b - 1));
        b = b - 1;
    }
    slice(s, 0, b)
}

/// The position of the first `c` in `s`, or `s.len()` when there is none.
pub fn before_len(s: &Vec<char>, c: char) -> (n: usize)
    ensures
        n == before(s@, c).len(),
        n <= s.len(),
{
    let mut i: usize = 0;
    assert(s@.subrange(0, 0) + s@.subrange(0, s@.len() as int) =~= s@);
    while i < s.len() && s[i] != c
        invariant
            i <= s.len(),
            before(s@, c) == s@.subrange(0, i as int) + before(
                s@.subrange(i as int, s@.len() as int),
                c,
            ),
        decreases s.len() - i,
    {
        let ghost t = s@.subrange(i as int, s@.len() as int);
        assert(t.drop_first() =~= s@.subrange(i + 1, s@.len() as int));
        assert(s@.subrange(0, i as int) + seq![s@[i as int]] =~= s@.subrange(0, i + 1));
        i = i + 1;
    }
    assert(before(s@.subrange(i as int, s@.len() as int), c) =~= Seq::<char>::empty());
    assert(s@.subrange(0, i as int) + Seq::<char>::empty() =~= s@.subrange(0, i as int));
    i
}

/// The number of ASCII digits in `s`.
pub fn digit_count_exec(s: &Vec<char>) -> (n: usize)
    ensures
        n == digit_count(s@),
{
    let mut n: usize = 0;
    let mut i: usize = 0;
    while i < s.len()
        invariant
            i <= s.len(),
            n == digit_count(s@.take(i as int)),
            n <= i,
        decreases s.len() - i,
    {
        assert(s@.take(i + 1).drop_last() =~= s@.take(i as int));
        if is_digit_char(s[i]) {
            n = n + 1;
        }
        i = i + 1;
    }
    assert(s@.take(i as int) =~= s@);
    n
}

/// Every word of `s` is non-empty, and `s` ends inside a word exactly when its
/// last character is not white space.
pub proof fn lemma_words_shape(s: Seq<char>)
    ensures
        forall|i: int| 0 <= i < words(s).len() ==> #[trigger] words(s)[i].len() > 0,
        s.len() > 0 && !is_white_space(s.last()) ==> words(s).len() > 0,
    decreases s.len(),
{
    if s.len() > 0 {
        lemma_words_shape(s.drop_last());
        let w = words(s.drop_last());
        if !is_white_space(s.last()) && s.len() > 1 && !is_white_space(s[s.len() - 2]) {
            assert(s.drop_last().last() == s[s.len() - 2]);
            let w2 = words(s);
            assert forall|i: int| 0 <= i < w2.len() implies #[trigger] w2[i].len() > 0 by {
                if i < w.len() - 1 {
                    assert(w2[i] == w[i]);
                }
            }
        } else if !is_white_space(s.last()) {
            let w2 = words(s);
            assert forall|i: int| 0 <= i < w2.len() implies #[trigger] w2[i].len() > 0 by {
                if i < w.len() {
                    assert(w2[i] == w[i]);
                }
            }
        }
    }
}

/// A word: a non-empty run of characters none of which is white space.
pub open spec fn is_word(w: Seq<char>) -> bool {
    w.len() > 0 && forall|j: int| 0 <= j < w.len() ==> !is_white_space(#[trigger] w[j])
}

/// Every piece that `words` yields is a word.
pub proof fn lemma_words_are_words(s: Seq<char>)
    ensures
        forall|i: int| 0 <= i < words(s).len() ==> is_word(#[trigger] words(s)[i]),
    decreases s.len(),
{
    if s.len() > 0 {
        lemma_words_are_words(s.drop_last());
        lemma_words_shape(s.drop_last());
        let w = words(s.drop_last());
        let w2 = words(s);
        if !is_white_space(s.last()) && s.len() > 1 && !is_white_space(s[s.len() - 2]) {
            assert(s.drop_last().last() == s[s.len() - 2]);
            assert forall|i: int| 0 <= i < w2.len() implies is_word(#[trigger] w2[i]) by {
                if i < w.len() - 1 {
                    assert(w2[i] == w[i]);
                } else {
                    assert(is_word(w[w.len() - 1]));
                    assert(w2[i] == w.last().push(s.last()));
                    let x = w.last().push(s.last());
                    assert forall|j: int| 0 <= j < x.len() implies !is_white_space(#[trigger] x[j]) by {
                        if j < x.len() - 1 {
                            assert(x[j] == w.last()[j]);
                        }
                    }
                }
            }
        } else if !is_white_space(s.last()) {
            assert forall|i: int| 0 <= i < w2.len() implies is_word(#[trigger] w2[i]) by {
                if i < w.len() {
                    assert(w2[i] == w[i]);
                }
            }
        }
    }
}

/// A word followed by white space and another word splits back into both.
proof fn lemma_words_after_space(a: Seq<char>, w: Seq<char>)
    requires
        is_word(w),
    ensures
        words(a.push(' ') + w) == words(a).push(w),
    decreases w.len(),
{
    let b = a.push(' ');
    assert(b.drop_last() =~= a);
    assert(is_white_space(' '));
    assert(words(b) == words(a));
    let s = b + w;
    let c = w[w.len() - 1];
    assert(s.last() == c);
    assert(!is_white_space(c));
    if w.len() == 1 {
        assert(s.drop_last() =~= b);
        assert(s[s.len() - 2] == ' ');
        assert(words(s) == words(s.drop_last()).push(seq![s.last()]));
        assert(seq![c] =~= w);
    } else {
        let w1 = w.drop_last();
        assert(is_word(w1)) by {
            assert forall|j: int| 0 <= j < w1.len() implies !is_white_space(#[trigger] w1[j]) by {
                assert(w1[j] == w[j]);
            }
        }
        lemma_words_after_space(a, w1);
        assert(s.drop_last() =~= b + w1);
        assert(s[s.len() - 2] == w[w.len() - 2]);
        assert(!is_white_space(w[w.len() - 2]));
        let ws1 = words(b + w1);
        assert(ws1 == words(a).push(w1));
        assert(words(s) == ws1.drop_last().push(ws1.last().push(c)));
        assert(ws1.drop_last() =~= words(a));
        assert(ws1.last() == w1);
        assert(w1.push(c) =~= w);
    }
}

/// A single word splits into itself.
proof fn lemma_words_of_word(w: Seq<char>)
    requires
        is_word(w),
    ensures
        words(w) == seq![w],
    decreases w.len(),
{
    let c = w[w.len() - 1];
    assert(w.last() == c);
    assert(!is_white_space(c));
    if w.len() == 1 {
        assert(w.drop_last() =~= Seq::<char>::empty());
        assert(words(w.drop_last()) == Seq::<Seq<char>>::empty());
        assert(words(w) == words(w.drop_last()).push(seq![c]));
        assert(seq![c] =~= w);
        assert(Seq::<Seq<char>>::empty().push(w) =~= seq![w]);
    } else {
        let w1 = w.drop_last();
        assert(is_word(w1)) by {
            assert forall|j: int| 0 <= j < w1.len() implies !is_white_space(#[trigger] w1[j]) by {
                assert(w1[j] == w[j]);
            }
        }
        lemma_words_of_word(w1);
        assert(w[w.len() - 2] == w1.last());
        assert(!is_white_space(w[w.len() - 2]));
        let ws1 = words(w1);
        assert(words(w) == ws1.drop_last().push(ws1.last().push(c)));
        assert(w1.push(c) =~= w);
        assert(ws1.drop_last().push(w) =~= seq![w]);
    }
}

/// Words joined by single spaces split back into the same words, and the
/// joined text neither begins nor ends with white space.
pub proof fn lemma_join_words_round_trip(ws: Seq<Seq<char>>)
    requires
        forall|i: int| 0 <= i < ws.len() ==> is_word(#[trigger] ws[i]),
    ensures
        words(join_words(ws)) == ws,
        join_words(ws).len() > 0 ==> !is_white_space(join_words(ws)[0]) && !is_white_space(
            join_words(ws).last(),
        ),
        (join_words(ws).len() == 0) == (ws.len() == 0),
    decreases ws.len(),
{
    if ws.len() == 1 {
        lemma_words_of_word(ws[0]);
        assert(!is_white_space(ws[0][0]));
        assert(!is_white_space(ws[0][ws[0].len() - 1]));
    } else if ws.len() > 1 {
        let p = ws.drop_last();
        assert forall|i: int| 0 <= i < p.len() implies is_word(#[trigger] p[i]) by {
            assert(p[i] == ws[i]);
        }
        lemma_join_words_round_trip(p);
        let w = ws.last();
        assert(is_word(ws[ws.len() - 1]));
        let j = join_words(p);
        assert(j + seq![' '] + w =~= j.push(' ') + w);
        lemma_words_after_space(j, w);
        assert(p.push(w) =~= ws);
        let jj = join_words(ws);
        assert(jj[0] == j[0]);
        assert(jj.last() == w[w.len() - 1]);
    }
}

/// Normalizing white space a second time changes nothing: the normalized text
/// is its own normalization.
pub proof fn law_collapse_white_space_idempotent(s: Seq<char>)
    ensures
        trim(join_words(words(s))) == join_words(words(s)),
        trim(join_words(words(join_words(words(s))))) == join_words(words(s)),
{
    lemma_words_are_words(s);
    lemma_join_words_round_trip(words(s));
    let j = join_words(words(s));
    assert(trim_start(j) == j);
    assert(trim_end(j) == j);
}

/// Joining words is empty exactly when there are no words, given non-empty words.
proof fn lemma_join_empty(ws: Seq<Seq<char>>)
    requires
        forall|i: int| 0 <= i < ws.len() ==> #[trigger] ws[i].len() > 0,
    ensures
        (join_words(ws).len() == 0) == (ws.len() == 0),
    decreases ws.len(),
{
    if ws.len() > 1 {
        assert(ws.drop_last().len() > 0);
    }
}

/// `s` with its words joined by single spaces: runs of white space become one
/// space, and leading and trailing white space goes.
pub fn collapse_white_space(s: &Vec<char>) -> (r: Vec<char>)
    ensures
        r@ == join_words(words(s@)),
{
    let mut out: Vec<char> = Vec::new();
    let mut i: usize = 0;
    while i < s.len()
        invariant
            i <= s.len(),
            out@ == join_words(words(s@.take(i as int))),
        decreases s.len() - i,
    {
        let c = s[i];
        let ghost t = s@.take(i as int);
        let ghost t1 = s@.take(i + 1);
        proof {
            assert(t1.drop_last() =~= t);
            lemma_words_shape(t);
            lemma_join_empty(words(t));
        }
        if is_white_space_char(c) {
        } else if i > 0 && !is_white_space_char(s[i - 1]) {
            let ghost w = words(t);
            assert(t.last() == s@[i - 1]);
            assert(t1[t1.len() - 2] == s@[i - 1]);
            out.push(c);
            proof {
                let w2 = w.drop_last().push(w.last().push(c));
                assert(words(t1) == w2);
                if w.len() == 1 {
                    assert(join_words(w2) =~= join_words(w).push(c));
                } else {
                    assert(w2.drop_last() =~= w.drop_last());
                    assert(join_words(w2) =~= join_words(w).push(c));
                }
            }
        } else {
            let ghost w = words(t);
            if i > 0 {
                assert(t1[t1.len() - 2] == s@[i - 1]);
            }
            if out.len() > 0 {
                out.push(' ');
            }
            out.push(c);
            proof {
                let w2 = w.push(seq![c]);
                assert(words(t1) == w2);
                if w.len() == 0 {
                    assert(join_words(w2) =~= seq![c]);
                } else {
                    assert(w2.drop_last() =~= w);
                    assert(join_words(w2) =~= join_words(w) + seq![' '] + seq![c]);
                }
            }
        }
        i = i + 1;
    }
    assert(s@.take(i as int) =~= s@);
    out
}

/// Whether `s` takes fewer than `limit` bytes in UTF-8.
pub fn utf8_len_below(s: &Vec<char>, limit: usize) -> (b: bool)
    ensures
        b == (utf8_len(s@) < limit),
{
    if limit == 0 {
        return false;
    }
    let mut n: usize = 0;
    let mut i: usize = 0;
    while i < s.len()
        invariant
            i <= s.len(),
            n == utf8_len(s@.take(i as int)),
            n < limit,
        decreases s.len() - i,
    {
        assert(s@.take(i + 1).drop_last() =~= s@.take(i as int));
        let c = s[i] as u32;
        let w: usize = if c < 0x80 {
            1
        } else if c < 0x800 {
            2
        } else if c < 0x10000 {
            3
        } else {
            4
        };
        if w >= limit - n {
            proof {
                lemma_utf8_len_prefix(s@, i + 1);
            }
            return false;
        }
        n = n + w;
        i = i + 1;
    }
    assert(s@.take(i as int) =~= s@);
    true
}

/// The UTF-8 length of a prefix is at most that of the whole.
pub proof fn lemma_utf8_len_prefix(s: Seq<char>, k: int)
    requires
        0 <= k <= s.len(),
    ensures
        utf8_len(s.take(k)) <= utf8_len(s),
    decreases s.len(),
{
    if k < s.len() {
        lemma_utf8_len_prefix(s.drop_last(), k);
        assert(s.drop_last().take(k) =~= s.take(k));
    } else {
        assert(s.take(k) =~= s);
    }
}

/// The pieces of `s` between the separators `c`.
pub fn split_chars(s: &Vec<char>, c: char) -> (r: Vec<Vec<char>>)
    ensures
        r.deep_view() == split_on(s@, c),
{
    let mut pieces: Vec<Vec<char>> = Vec::new();
    let mut cur: Vec<char> = Vec::new();
    let mut i: usize = 0;
    assert(split_on(s@.take(0), c) =~= pieces.deep_view().push(cur@));
    while i < s.len()
        invariant
            i <= s.len(),
            split_on(s@.take(i as int), c) == pieces.deep_view().push(cur@),
        decreases s.len() - i,
    {
        let ghost t1 = s@.take(i + 1);
        assert(t1.drop_last() =~= s@.take(i as int));
        let ghost pv = pieces.deep_view();
        let ghost cv = cur@;
        if s[i] == c {
            assert(cur.deep_view() =~= cur@);
            let done = cur;
            pieces.push(done);
            cur = Vec::new();
            assert(pieces.deep_view() =~= pv.push(cv));
            assert(split_on(t1, c) =~= pieces.deep_view().push(cur@));
        } else {
            cur.push(s[i]);
            assert(split_on(t1, c) =~= pieces.deep_view().push(cur@));
        }
        i = i + 1;
    }
    assert(s@.take(i as int) =~= s@);
    let ghost pv = pieces.deep_view();
    let ghost cv = cur@;
    assert(cur.deep_view() =~= cur@);
    pieces.push(cur);
    assert(pieces.deep_view() =~= pv.push(cv));
    pieces
}

/// Whether `a` and `b` hold the same characters.
pub fn same_text(a: &str, b: &str) -> (r: bool)
    ensures
        r == (a@ == b@),
{
    let x = chars_of(a);
    let y = chars_of(b);
    if x.len() != y.len() {
        return false;
    }
    assert(x@.subrange(0, y@.len() as int) =~= x@);
    occurs_at_exec(&x, &y, 0)
}

} // verus!
