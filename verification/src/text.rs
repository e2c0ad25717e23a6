//! Character-level helpers shared by the path and protocol modules.
//!
//! Strings are modelled by their view, a `Seq<char>`. Executable code works
//! on `Vec<char>` copies and turns them back into `String`s at the end.

use vstd::prelude::*;

verus! {

// ------------------------------------------------------------------------
// Character predicates
// ------------------------------------------------------------------------

/// `char::is_whitespace`: the Unicode `White_Space` property.
pub open spec fn is_ws(c: char) -> bool {
    ||| ('\t' <= c && c <= '\r')
    ||| c == ' '
    ||| c == '\u{85}'
    ||| c == '\u{A0}'
    ||| c == '\u{1680}'
    ||| ('\u{2000}' <= c && c <= '\u{200A}')
    ||| c == '\u{2028}'
    ||| c == '\u{2029}'
    ||| c == '\u{202F}'
    ||| c == '\u{205F}'
    ||| c == '\u{3000}'
}

/// `char::is_ascii_digit`.
pub open spec fn is_digit(c: char) -> bool {
    '0' <= c && c <= '9'
}

/// `char::is_ascii_alphanumeric`.
pub open spec fn is_alnum(c: char) -> bool {
    ||| ('a' <= c && c <= 'z')
    ||| ('A' <= c && c <= 'Z')
    ||| is_digit(c)
}

pub fn char_is_ws(c: char) -> (b: bool)
    ensures
        b == is_ws(c),
{
    ('\t' <= c && c <= '\r') || c == ' ' || c == '\u{85}' || c == '\u{A0}' || c == '\u{1680}'
        || ('\u{2000}' <= c && c <= '\u{200A}') || c == '\u{2028}' || c == '\u{2029}'
        || c == '\u{202F}' || c == '\u{205F}' || c == '\u{3000}'
}

pub fn char_is_digit(c: char) -> (b: bool)
    ensures
        b == is_digit(c),
{
    '0' <= c && c <= '9'
}

pub fn char_is_alnum(c: char) -> (b: bool)
    ensures
        b == is_alnum(c),
{
    ('a' <= c && c <= 'z') || ('A' <= c && c <= 'Z') || ('0' <= c && c <= '9')
}

/// `char::to_ascii_lowercase`.
pub open spec fn ascii_lower(c: char) -> char {
    if 'A' <= c && c <= 'Z' {
        ((c as u32) + 32) as char
    } else {
        c
    }
}

pub fn char_ascii_lower(c: char) -> (r: char)
    ensures
        r == ascii_lower(c),
{
    if 'A' <= c && c <= 'Z' {
        ((c as u8) + 32) as char
    } else {
        c
    }
}


/// A set of characters that trimming removes.
#[derive(Clone, Copy, PartialEq, Eq, Debug)]
pub enum CharClass {
    /// `char::is_whitespace`.
    Whitespace,
    /// `'.'`.
    Dot,
    /// `'-'` or `'.'`.
    DashOrDot,
    /// `'\r'` or `'\n'`.
    LineEnd,
    /// `'\r'`.
    CarriageReturn,
    /// `'-'`.
    Dash,
}

pub open spec fn in_class(cls: CharClass, c: char) -> bool {
    match cls {
        CharClass::Whitespace => is_ws(c),
        CharClass::Dot => c == '.',
        CharClass::DashOrDot => c == '-' || c == '.',
        CharClass::LineEnd => c == '\r' || c == '\n',
        CharClass::CarriageReturn => c == '\r',
        CharClass::Dash => c == '-',
    }
}

pub fn class_contains(cls: CharClass, c: char) -> (b: bool)
    ensures
        b == in_class(cls, c),
{
    match cls {
        CharClass::Whitespace => char_is_ws(c),
        CharClass::Dot => c == '.',
        CharClass::DashOrDot => c == '-' || c == '.',
        CharClass::LineEnd => c == '\r' || c == '\n',
        CharClass::CarriageReturn => c == '\r',
        CharClass::Dash => c == '-',
    }
}

// ------------------------------------------------------------------------
// Trimming
// ------------------------------------------------------------------------

/// Number of leading characters of `s` that belong to `cls`.
pub open spec fn lead_count(s: Seq<char>, cls: CharClass) -> nat
    decreases s.len(),
{
    if s.len() > 0 && in_class(cls, s[0]) {
        1 + lead_count(s.drop_first(), cls)
    } else {
        0
    }
}

/// Number of trailing characters of `s` that belong to `cls`.
pub open spec fn trail_count(s: Seq<char>, cls: CharClass) -> nat
    decreases s.len(),
{
    if s.len() > 0 && in_class(cls, s.last()) {
        1 + trail_count(s.drop_last(), cls)
    } else {
        0
    }
}

/// `str::trim_start_matches` for a class of characters.
pub open spec fn trim_start(s: Seq<char>, cls: CharClass) -> Seq<char> {
    s.skip(lead_count(s, cls) as int)
}

/// `str::trim_end_matches` for a class of characters.
pub open spec fn trim_end(s: Seq<char>, cls: CharClass) -> Seq<char> {
    s.take(s.len() - trail_count(s, cls))
}

/// `str::trim_matches` for a class of characters (`str::trim` for whitespace).
pub open spec fn trim(s: Seq<char>, cls: CharClass) -> Seq<char> {
    trim_end(trim_start(s, cls), cls)
}

pub proof fn lemma_lead_count_bound(s: Seq<char>, cls: CharClass)
    ensures
        lead_count(s, cls) <= s.len(),
        forall|j: int| 0 <= j < lead_count(s, cls) ==> in_class(cls, #[trigger] s[j]),
        lead_count(s, cls) < s.len() ==> !in_class(cls, s[lead_count(s, cls) as int]),
    decreases s.len(),
{
    if s.len() > 0 && in_class(cls, s[0]) {
        lemma_lead_count_bound(s.drop_first(), cls);
        assert forall|j: int| 0 <= j < lead_count(s, cls) implies in_class(cls, #[trigger] s[j]) by {
            if j > 0 {
                assert(s[j] == s.drop_first()[j - 1]);
            }
        }
    }
}

pub proof fn lemma_lead_count_is(s: Seq<char>, cls: CharClass, i: int)
    requires
        0 <= i <= s.len(),
        forall|j: int| 0 <= j < i ==> in_class(cls, #[trigger] s[j]),
        i == s.len() || !in_class(cls, s[i]),
    ensures
        lead_count(s, cls) == i,
    decreases i,
{
    if i > 0 {
        assert(in_class(cls, s[0]));
        assert forall|j: int| 0 <= j < i - 1 implies in_class(cls, #[trigger] s.drop_first()[j]) by {
            assert(s.drop_first()[j] == s[j + 1]);
        }
        lemma_lead_count_is(s.drop_first(), cls, i - 1);
    }
}

pub proof fn lemma_trail_count_is(s: Seq<char>, cls: CharClass, i: int)
    requires
        0 <= i <= s.len(),
        forall|j: int| s.len() - i <= j < s.len() ==> in_class(cls, #[trigger] s[j]),
        i == s.len() || !in_class(cls, s[s.len() - i - 1]),
    ensures
        trail_count(s, cls) == i,
    decreases i,
{
    if i > 0 {
        assert(in_class(cls, s[s.len() - 1]));
        assert forall|j: int| s.drop_last().len() - (i - 1) <= j < s.drop_last().len() implies in_class(
            cls,
            #[trigger] s.drop_last()[j],
        ) by {
            assert(s.drop_last()[j] == s[j]);
        }
        lemma_trail_count_is(s.drop_last(), cls, i - 1);
    }
}

/// The characters `v[a..b]`.
pub fn slice_chars(v: &Vec<char>, a: usize, b: usize) -> (res: Vec<char>)
    requires
        a <= b <= v.len(),
    ensures
        res@ == v@.subrange(a as int, b as int),
{
    let mut out: Vec<char> = Vec::new();
    let mut i = a;
    while i < b
        invariant
            a <= i <= b <= v.len(),
            out@ == v@.subrange(a as int, i as int),
        decreases b - i,
    {
        out.push(v[i]);
        i += 1;
    }
    out
}

/// Index of the first character of `v` not in `cls`.
pub fn lead_len(v: &Vec<char>, cls: CharClass) -> (n: usize)
    ensures
        n == lead_count(v@, cls),
{
    let mut i: usize = 0;
    while i < v.len() && class_contains(cls, v[i])
        invariant
            i <= v.len(),
            forall|j: int| 0 <= j < i ==> in_class(cls, #[trigger] v@[j]),
        decreases v.len() - i,
    {
        i += 1;
    }
    proof {
        lemma_lead_count_is(v@, cls, i as int);
    }
    i
}

/// Number of trailing characters of `v` in `cls`.
pub fn trail_len(v: &Vec<char>, cls: CharClass) -> (n: usize)
    ensures
        n == trail_count(v@, cls),
        n <= v.len(),
{
    let mut i: usize = 0;
    while i < v.len() && class_contains(cls, v[v.len() - 1 - i])
        invariant
            i <= v.len(),
            forall|j: int| v.len() - i <= j < v.len() ==> in_class(cls, #[trigger] v@[j]),
        decreases v.len() - i,
    {
        i += 1;
    }
    proof {
        lemma_trail_count_is(v@, cls, i as int);
    }
    i
}

pub fn trim_start_chars(v: &Vec<char>, cls: CharClass) -> (res: Vec<char>)
    ensures
        res@ == trim_start(v@, cls),
{
    let n = lead_len(v, cls);
    proof {
        lemma_lead_count_bound(v@, cls);
    }
    slice_chars(v, n, v.len())
}

pub fn trim_end_chars(v: &Vec<char>, cls: CharClass) -> (res: Vec<char>)
    ensures
        res@ == trim_end(v@, cls),
{
    let n = trail_len(v, cls);
    slice_chars(v, 0, v.len() - n)
}

pub fn trim_chars(v: &Vec<char>, cls: CharClass) -> (res: Vec<char>)
    ensures
        res@ == trim(v@, cls),
{
    let t = trim_start_chars(v, cls);
    trim_end_chars(&t, cls)
}


// ------------------------------------------------------------------------
// Building strings
// ------------------------------------------------------------------------

/// Appends one character to a `String` (`String::push`).
#[verifier::external_body]
pub(crate) fn push_char(s: &mut String, c: char)
    ensures
        final(s)@ == old(s)@.push(c),
{
    s.push(c);
}

/// The characters of `s`, in order.
pub fn chars_of(s: &str) -> (res: Vec<char>)
    ensures
        res@ == s@,
{
    let mut out: Vec<char> = Vec::new();
    for c in it: s.chars()
        invariant
            out@ == it.seq().take(it.index() as int),
            it.seq() == s@,
    {
        out.push(c);
    }
    out
}

/// The `String` whose characters are `v`.
pub fn string_of(v: &Vec<char>) -> (res: String)
    ensures
        res@ == v@,
{
    let mut out = String::new();
    let mut i: usize = 0;
    while i < v.len()
        invariant
            i <= v.len(),
            out@ == v@.take(i as int),
        decreases v.len() - i,
    {
        push_char(&mut out, v[i]);
        proof {
            assert(v@.take(i + 1) == v@.take(i as int).push(v@[i as int]));
        }
        i += 1;
    }
    proof {
        assert(v@.take(v.len() as int) == v@);
    }
    out
}

/// Appends all of `w` to `v`.
pub fn extend_chars(v: &mut Vec<char>, w: &Vec<char>)
    ensures
        final(v)@ == old(v)@ + w@,
{
    let mut i: usize = 0;
    while i < w.len()
        invariant
            i <= w.len(),
            v@ == old(v)@ + w@.take(i as int),
        decreases w.len() - i,
    {
        v.push(w[i]);
        proof {
            assert(w@.take(i + 1) == w@.take(i as int).push(w@[i as int]));
        }
        i += 1;
    }
    proof {
        assert(w@.take(w.len() as int) == w@);
    }
}

/// Appends the characters of `s` to `v`.
pub fn extend_str(v: &mut Vec<char>, s: &str)
    ensures
        final(v)@ == old(v)@ + s@,
{
    let w = chars_of(s);
    extend_chars(v, &w);
}

/// `a == b` on character sequences.
pub fn chars_eq(a: &Vec<char>, b: &Vec<char>) -> (r: bool)
    ensures
        r == (a@ == b@),
{
    if a.len() != b.len() {
        return false;
    }
    let mut i: usize = 0;
    while i < a.len()
        invariant
            i <= a.len() == b.len(),
            forall|j: int| 0 <= j < i ==> a@[j] == b@[j],
        decreases a.len() - i,
    {
        if a[i] != b[i] {
            return false;
        }
        i += 1;
    }
    proof {
        assert(a@ =~= b@);
    }
    true
}

/// `s == lit` for a string slice.
pub fn chars_eq_str(a: &Vec<char>, lit: &str) -> (r: bool)
    ensures
        r == (a@ == lit@),
{
    let b = chars_of(lit);
    chars_eq(a, &b)
}

// ------------------------------------------------------------------------
// Prefixes, suffixes and occurrences
// ------------------------------------------------------------------------

pub open spec fn starts_with(s: Seq<char>, p: Seq<char>) -> bool {
    p.len() <= s.len() && s.subrange(0, p.len() as int) == p
}

pub open spec fn ends_with(s: Seq<char>, p: Seq<char>) -> bool {
    p.len() <= s.len() && s.subrange(s.len() - p.len(), s.len() as int) == p
}

pub open spec fn occurs_at(s: Seq<char>, p: Seq<char>, i: int) -> bool {
    0 <= i && i + p.len() <= s.len() && s.subrange(i, i + p.len()) == p
}

/// `str::contains` for a string pattern.
pub open spec fn contains(s: Seq<char>, p: Seq<char>) -> bool {
    exists|i: int| occurs_at(s, p, i)
}

/// Whether `p` occurs in `s` at index `i`.
pub fn matches_at(s: &Vec<char>, p: &Vec<char>, i: usize) -> (r: bool)
    ensures
        r == occurs_at(s@, p@, i as int),
{
    if i > s.len() || p.len() > s.len() - i {
        return false;
    }
    let mut k: usize = 0;
    while k < p.len()
        invariant
            k <= p.len(),
            i + p.len() <= s.len(),
            forall|j: int| 0 <= j < k ==> s@[i + j] == p@[j],
        decreases p.len() - k,
    {
        if s[i + k] != p[k] {
            assert(s@.subrange(i as int, i + p.len())[k as int] != p@[k as int]);
            return false;
        }
        k += 1;
    }
    assert(s@.subrange(i as int, i + p.len()) =~= p@);
    true
}

pub fn has_prefix(s: &Vec<char>, p: &Vec<char>) -> (r: bool)
    ensures
        r == starts_with(s@, p@),
{
    matches_at(s, p, 0)
}

pub fn has_prefix_str(s: &Vec<char>, lit: &str) -> (r: bool)
    ensures
        r == starts_with(s@, lit@),
{
    let p = chars_of(lit);
    has_prefix(s, &p)
}

pub fn has_suffix(s: &Vec<char>, p: &Vec<char>) -> (r: bool)
    ensures
        r == ends_with(s@, p@),
{
    if p.len() > s.len() {
        return false;
    }
    matches_at(s, p, s.len() - p.len())
}

pub fn has_suffix_str(s: &Vec<char>, lit: &str) -> (r: bool)
    ensures
        r == ends_with(s@, lit@),
{
    let p = chars_of(lit);
    has_suffix(s, &p)
}

pub fn contains_chars(s: &Vec<char>, p: &Vec<char>) -> (r: bool)
    ensures
        r == contains(s@, p@),
{
    if p.len() > s.len() {
        assert forall|j: int| !occurs_at(s@, p@, j) by {}
        return false;
    }
    if p.len() == 0 {
        assert(s@.subrange(0, 0) =~= p@);
        assert(occurs_at(s@, p@, 0));
        return true;
    }
    let last = s.len() - p.len();
    let mut i: usize = 0;
    while i <= last
        invariant
            last == s.len() - p.len(),
            p.len() > 0,
            i <= last + 1,
            forall|j: int| 0 <= j < i ==> !occurs_at(s@, p@, j),
        decreases last + 1 - i,
    {
        if matches_at(s, p, i) {
            return true;
        }
        i += 1;
    }
    assert forall|j: int| !occurs_at(s@, p@, j) by {
        if 0 <= j && j + p@.len() <= s@.len() {
            assert(j < i);
        }
    }
    false
}

pub fn contains_str(s: &Vec<char>, lit: &str) -> (r: bool)
    ensures
        r == contains(s@, lit@),
{
    let p = chars_of(lit);
    contains_chars(s, &p)
}

/// Index of the first `c` in `s`, or -1.
pub open spec fn first_index(s: Seq<char>, c: char) -> int
    decreases s.len(),
{
    if s.len() == 0 {
        -1
    } else if s[0] == c {
        0
    } else {
        let r = first_index(s.drop_first(), c);
        if r < 0 {
            -1
        } else {
            r + 1
        }
    }
}

/// Index of the last `c` in `s`, or -1.
pub open spec fn last_index(s: Seq<char>, c: char) -> int
    decreases s.len(),
{
    if s.len() == 0 {
        -1
    } else if s.last() == c {
        s.len() - 1
    } else {
        last_index(s.drop_last(), c)
    }
}

pub proof fn lemma_first_index(s: Seq<char>, c: char)
    ensures
        -1 <= first_index(s, c) < s.len(),
        first_index(s, c) >= 0 ==> s[first_index(s, c)] == c,
        forall|j: int|
            0 <= j < s.len() && (first_index(s, c) < 0 || j < first_index(s, c)) ==> #[trigger] s[j]
                != c,
    decreases s.len(),
{
    if s.len() > 0 && s[0] != c {
        lemma_first_index(s.drop_first(), c);
        assert forall|j: int|
            0 <= j < s.len() && (first_index(s, c) < 0 || j < first_index(s, c)) implies #[trigger] s[j]
            != c by {
            if j > 0 {
                assert(s[j] == s.drop_first()[j - 1]);
            }
        }
    }
}

pub proof fn lemma_first_index_is(s: Seq<char>, c: char, i: int)
    requires
        0 <= i <= s.len(),
        forall|j: int| 0 <= j < i ==> #[trigger] s[j] != c,
        i == s.len() || s[i] == c,
    ensures
        first_index(s, c) == if i == s.len() {
            -1
        } else {
            i
        },
    decreases i,
{
    if i > 0 {
        assert(s[0] != c);
        assert forall|j: int| 0 <= j < i - 1 implies #[trigger] s.drop_first()[j] != c by {
            assert(s.drop_first()[j] == s[j + 1]);
        }
        lemma_first_index_is(s.drop_first(), c, i - 1);
    }
}

pub proof fn lemma_last_index(s: Seq<char>, c: char)
    ensures
        -1 <= last_index(s, c) < s.len(),
        last_index(s, c) >= 0 ==> s[last_index(s, c)] == c,
        forall|j: int| last_index(s, c) < j < s.len() ==> #[trigger] s[j] != c,
    decreases s.len(),
{
    if s.len() > 0 && s.last() != c {
        lemma_last_index(s.drop_last(), c);
        assert forall|j: int| last_index(s, c) < j < s.len() implies #[trigger] s[j] != c by {
            if j < s.len() - 1 {
                assert(s[j] == s.drop_last()[j]);
            }
        }
    }
}

pub proof fn lemma_last_index_is(s: Seq<char>, c: char, i: int)
    requires
        -1 <= i < s.len(),
        forall|j: int| i < j < s.len() ==> #[trigger] s[j] != c,
        i == -1 || s[i] == c,
    ensures
        last_index(s, c) == i,
    decreases s.len(),
{
    if s.len() > 0 && i < s.len() - 1 {
        assert(s[s.len() - 1] != c);
        assert forall|j: int| i < j < s.drop_last().len() implies #[trigger] s.drop_last()[j] != c by {
            assert(s.drop_last()[j] == s[j]);
        }
        lemma_last_index_is(s.drop_last(), c, i);
    }
}

/// Position of the first `c` in `v`.
pub fn find_char(v: &Vec<char>, c: char) -> (r: Option<usize>)
    ensures
        match r {
            Some(i) => first_index(v@, c) == i,
            None => first_index(v@, c) == -1,
        },
{
    let mut i: usize = 0;
    while i < v.len()
        invariant
            i <= v.len(),
            forall|j: int| 0 <= j < i ==> #[trigger] v@[j] != c,
        decreases v.len() - i,
    {
        if v[i] == c {
            proof {
                lemma_first_index_is(v@, c, i as int);
            }
            return Some(i);
        }
        i += 1;
    }
    proof {
        lemma_first_index_is(v@, c, i as int);
    }
    None
}

/// Position of the last `c` in `v`.
pub fn rfind_char(v: &Vec<char>, c: char) -> (r: Option<usize>)
    ensures
        match r {
            Some(i) => last_index(v@, c) == i,
            None => last_index(v@, c) == -1,
        },
{
    let mut i: usize = v.len();
    while i > 0
        invariant
            i <= v.len(),
            forall|j: int| i <= j < v.len() ==> #[trigger] v@[j] != c,
        decreases i,
    {
        if v[i - 1] == c {
            proof {
                lemma_last_index_is(v@, c, i - 1);
            }
            return Some(i - 1);
        }
        i -= 1;
    }
    proof {
        lemma_last_index_is(v@, c, -1);
    }
    None
}


// ------------------------------------------------------------------------
// Splitting and joining
// ------------------------------------------------------------------------

/// The character views of a list of character vectors.
pub open spec fn views(v: Seq<Vec<char>>) -> Seq<Seq<char>> {
    v.map_values(|w: Vec<char>| w@)
}

/// `str::split` on a single character: always at least one piece.
pub open spec fn split(s: Seq<char>, c: char) -> Seq<Seq<char>>
    decreases s.len(),
{
    let k = last_index(s, c);
    if k < 0 {
        seq![s]
    } else {
        proof {
            lemma_last_index(s, c);
        }
        split(s.take(k), c).push(s.skip(k + 1))
    }
}

/// `[..].join(sep)`.
pub open spec fn join(parts: Seq<Seq<char>>, sep: Seq<char>) -> Seq<char>
    decreases parts.len(),
{
    if parts.len() == 0 {
        Seq::empty()
    } else if parts.len() == 1 {
        parts[0]
    } else {
        join(parts.drop_last(), sep) + sep + parts.last()
    }
}

pub proof fn lemma_split_len(s: Seq<char>, c: char)
    ensures
        split(s, c).len() >= 1,
    decreases s.len(),
{
    let k = last_index(s, c);
    if k >= 0 {
        lemma_last_index(s, c);
        lemma_split_len(s.take(k), c);
    }
}

/// How `split` grows when one character is appended.
pub proof fn lemma_split_push(s: Seq<char>, c: char, x: char)
    ensures
        split(s.push(x), c) == if x == c {
            split(s, c).push(Seq::empty())
        } else {
            split(s, c).update(
                split(s, c).len() - 1,
                split(s, c).last().push(x),
            )
        },
    decreases s.len(),
{
    let t = s.push(x);
    lemma_split_len(s, c);
    if x == c {
        lemma_last_index_is(t, c, s.len() as int);
        assert(t.take(s.len() as int) =~= s);
        assert(t.skip(s.len() as int + 1) =~= Seq::<char>::empty());
    } else {
        lemma_last_index(s, c);
        let k = last_index(s, c);
        assert forall|j: int| k < j < t.len() implies #[trigger] t[j] != c by {
            if j < s.len() {
                assert(t[j] == s[j]);
            }
        }
        lemma_last_index_is(t, c, k);
        if k < 0 {
            assert(split(s, c) == seq![s]);
            assert(split(t, c) =~= split(s, c).update(0, s.push(x)));
        } else {
            assert(t.take(k) =~= s.take(k));
            assert(t.skip(k + 1) =~= s.skip(k + 1).push(x));
            assert(split(t, c) =~= split(s, c).update(
                split(s, c).len() - 1,
                split(s, c).last().push(x),
            ));
        }
    }
}

/// The first piece of a split is the text up to the first separator.
pub proof fn lemma_split_first(s: Seq<char>, c: char)
    ensures
        split(s, c)[0] == if first_index(s, c) < 0 {
            s
        } else {
            s.take(first_index(s, c))
        },
    decreases s.len(),
{
    let k = last_index(s, c);
    lemma_last_index(s, c);
    lemma_first_index(s, c);
    if k < 0 {
        lemma_first_index_is(s, c, s.len() as int);
    } else {
        let t = s.take(k);
        lemma_split_first(t, c);
        lemma_split_len(t, c);
        lemma_first_index(t, c);
        let f = first_index(t, c);
        if f < 0 {
            assert forall|j: int| 0 <= j < k implies #[trigger] s[j] != c by {
                assert(s[j] == t[j]);
            }
            lemma_first_index_is(s, c, k);
        } else {
            assert forall|j: int| 0 <= j < f implies #[trigger] s[j] != c by {
                assert(s[j] == t[j]);
            }
            assert(s[f] == t[f]);
            lemma_first_index_is(s, c, f);
            assert(t.take(f) =~= s.take(f));
        }
    }
}

/// Joining the pieces of a split with the separator gives the text back.
pub proof fn lemma_join_split(s: Seq<char>, c: char)
    ensures
        join(split(s, c), seq![c]) == s,
    decreases s.len(),
{
    let k = last_index(s, c);
    lemma_last_index(s, c);
    if k >= 0 {
        lemma_join_split(s.take(k), c);
        lemma_split_len(s.take(k), c);
        let p = split(s.take(k), c);
        assert(split(s, c).drop_last() =~= p);
        assert(s =~= s.take(k) + seq![c] + s.skip(k + 1));
    }
}

/// The pieces of `v` between occurrences of `c`.
pub fn split_chars(v: &Vec<char>, c: char) -> (res: Vec<Vec<char>>)
    ensures
        views(res@) == split(v@, c),
{
    let mut parts: Vec<Vec<char>> = Vec::new();
    let mut cur: Vec<char> = Vec::new();
    let mut i: usize = 0;
    proof {
        assert(v@.take(0) =~= Seq::<char>::empty());
        lemma_last_index_is(Seq::<char>::empty(), c, -1);
        assert(views(parts@).push(cur@) =~= split(v@.take(0), c));
    }
    while i < v.len()
        invariant
            i <= v.len(),
            views(parts@).push(cur@) == split(v@.take(i as int), c),
        decreases v.len() - i,
    {
        let x = v[i];
        proof {
            assert(v@.take(i + 1) =~= v@.take(i as int).push(x));
            lemma_split_push(v@.take(i as int), c, x);
        }
        if x == c {
            let ghost old_parts = parts@;
            let done = cur;
            parts.push(done);
            cur = Vec::new();
            proof {
                assert(views(parts@) =~= views(old_parts).push(done@));
                assert(views(parts@).push(cur@) =~= split(v@.take(i + 1), c));
            }
        } else {
            let ghost old_cur = cur@;
            cur.push(x);
            proof {
                assert(views(parts@).push(cur@) =~= views(parts@).push(old_cur).update(
                    views(parts@).len() as int,
                    old_cur.push(x),
                ));
            }
        }
        i += 1;
    }
    let ghost before = parts@;
    parts.push(cur);
    proof {
        assert(v@.take(v.len() as int) =~= v@);
        assert(views(parts@) =~= views(before).push(cur@));
    }
    parts
}

pub proof fn lemma_join_take(parts: Seq<Seq<char>>, sep: Seq<char>, i: int)
    requires
        0 <= i < parts.len(),
    ensures
        join(parts.take(i + 1), sep) == if i == 0 {
            parts[0]
        } else {
            join(parts.take(i), sep) + sep + parts[i]
        },
{
    if i > 0 {
        assert(parts.take(i + 1).drop_last() =~= parts.take(i));
    }
}

/// Joins the pieces with `sep` between consecutive ones.
pub fn join_chars(parts: &Vec<Vec<char>>, sep: &Vec<char>) -> (res: Vec<char>)
    ensures
        res@ == join(views(parts@), sep@),
{
    let mut out: Vec<char> = Vec::new();
    let mut i: usize = 0;
    let ghost ps = views(parts@);
    proof {
        assert(ps.take(0) =~= Seq::<Seq<char>>::empty());
    }
    while i < parts.len()
        invariant
            i <= parts.len(),
            ps == views(parts@),
            out@ == join(ps.take(i as int), sep@),
        decreases parts.len() - i,
    {
        proof {
            lemma_join_take(ps, sep@, i as int);
        }
        if i > 0 {
            extend_chars(&mut out, sep);
        }
        extend_chars(&mut out, &parts[i]);
        proof {
            if i == 0 {
                assert(out@ =~= ps[0]);
            }
        }
        i += 1;
    }
    proof {
        assert(ps.take(parts.len() as int) =~= ps);
    }
    out
}

// ------------------------------------------------------------------------
// Replacing
// ------------------------------------------------------------------------

/// `str::replace`: every non-overlapping occurrence of `p`, scanning left to
/// right, is replaced with `r`.
pub open spec fn replace_all(s: Seq<char>, p: Seq<char>, r: Seq<char>) -> Seq<char>
    recommends
        p.len() > 0,
    decreases s.len(),
{
    if s.len() == 0 || p.len() == 0 {
        s
    } else if starts_with(s, p) {
        r + replace_all(s.skip(p.len() as int), p, r)
    } else {
        seq![s[0]] + replace_all(s.drop_first(), p, r)
    }
}

pub fn replace_chars(v: &Vec<char>, p: &Vec<char>, r: &Vec<char>) -> (res: Vec<char>)
    requires
        p.len() > 0,
    ensures
        res@ == replace_all(v@, p@, r@),
{
    let mut out: Vec<char> = Vec::new();
    let mut i: usize = 0;
    proof {
        assert(v@.skip(0) =~= v@);
    }
    while i < v.len()
        invariant
            i <= v.len(),
            p.len() > 0,
            out@ + replace_all(v@.skip(i as int), p@, r@) == replace_all(v@, p@, r@),
        decreases v.len() - i,
    {
        let ghost rest = v@.skip(i as int);
        if matches_at(v, p, i) {
            proof {
                assert(rest.subrange(0, p@.len() as int) =~= v@.subrange(i as int, i + p@.len()));
                assert(rest.skip(p@.len() as int) =~= v@.skip(i + p@.len()));
            }
            extend_chars(&mut out, r);
            i += p.len();
            proof {
                assert(out@ + replace_all(v@.skip(i as int), p@, r@) =~= replace_all(v@, p@, r@));
            }
        } else {
            proof {
                if starts_with(rest, p@) {
                    assert(rest.subrange(0, p@.len() as int) =~= v@.subrange(i as int, i + p@.len()));
                }
                assert(rest.drop_first() =~= v@.skip(i + 1));
            }
            out.push(v[i]);
            i += 1;
            proof {
                assert(out@ + replace_all(v@.skip(i as int), p@, r@) =~= replace_all(v@, p@, r@));
            }
        }
    }
    proof {
        assert(v@.skip(i as int) =~= Seq::<char>::empty());
        assert(out@ + Seq::<char>::empty() =~= out@);
    }
    out
}

// ------------------------------------------------------------------------
// ASCII case folding
// ------------------------------------------------------------------------

/// `str::eq_ignore_ascii_case`.
pub open spec fn eq_ignore_case(a: Seq<char>, b: Seq<char>) -> bool {
    a.len() == b.len() && forall|i: int| 0 <= i < a.len() ==> ascii_lower(#[trigger] a[i]) == ascii_lower(b[i])
}

pub fn chars_eq_ignore_case(a: &Vec<char>, b: &Vec<char>) -> (r: bool)
    ensures
        r == eq_ignore_case(a@, b@),
{
    if a.len() != b.len() {
        return false;
    }
    let mut i: usize = 0;
    while i < a.len()
        invariant
            i <= a.len() == b.len(),
            forall|j: int| 0 <= j < i ==> ascii_lower(#[trigger] a@[j]) == ascii_lower(b@[j]),
        decreases a.len() - i,
    {
        if char_ascii_lower(a[i]) != char_ascii_lower(b[i]) {
            return false;
        }
        i += 1;
    }
    true
}

/// `str::to_lowercase`: the Unicode lowercase mapping of a whole string.
pub uninterp spec fn spec_to_lowercase(s: Seq<char>) -> Seq<char>;

/// A text of ASCII characters only.
pub open spec fn is_ascii_text(s: Seq<char>) -> bool {
    forall|i: int| 0 <= i < s.len() ==> (#[trigger] s[i] as u32) < 128
}

/// Calls `str::to_lowercase`. The result is named; of the Unicode case
/// tables the contract states two facts: an all-ASCII text maps `A`-`Z` to
/// `a`-`z` and keeps every other character, and no lowercase mapping
/// yields an ASCII capital letter.
#[verifier::external_body]
pub fn to_lowercase(s: &str) -> (res: String)
    ensures
        res@ == spec_to_lowercase(s@),
        is_ascii_text(s@) ==> res@ == s@.map_values(|c: char| ascii_lower(c)),
        forall|i: int| 0 <= i < res@.len() ==> !('A' <= #[trigger] res@[i] && res@[i] <= 'Z'),
{
    s.to_lowercase()
}

// ------------------------------------------------------------------------
// Decimal numbers
// ------------------------------------------------------------------------

pub open spec fn all_digits(s: Seq<char>) -> bool {
    forall|i: int| 0 <= i < s.len() ==> is_digit(#[trigger] s[i])
}

pub open spec fn digit_value(c: char) -> nat {
    ((c as u32) - ('0' as u32)) as nat
}

/// The value of a string of decimal digits.
pub open spec fn digits_value(s: Seq<char>) -> nat
    decreases s.len(),
{
    if s.len() == 0 {
        0
    } else {
        digits_value(s.drop_last()) * 10 + digit_value(s.last())
    }
}

/// `<uN as FromStr>::from_str` where `max` is `uN::MAX`: an optional `+`,
/// then one or more ASCII digits whose value does not exceed `max`.
pub open spec fn parse_unsigned(s: Seq<char>, max: nat) -> Option<nat> {
    let d = if s.len() > 0 && s[0] == '+' {
        s.drop_first()
    } else {
        s
    };
    if d.len() > 0 && all_digits(d) && digits_value(d) <= max {
        Some(digits_value(d))
    } else {
        None
    }
}

pub proof fn lemma_digits_value_mono(s: Seq<char>, i: int)
    requires
        0 <= i <= s.len(),
    ensures
        digits_value(s.take(i)) <= digits_value(s),
    decreases s.len() - i,
{
    if i < s.len() {
        lemma_digits_value_mono(s, i + 1);
        assert(s.take(i + 1).drop_last() =~= s.take(i));
    } else {
        assert(s.take(i) =~= s);
    }
}

/// Parses an unsigned decimal number no larger than `max`.
pub fn parse_uint(v: &Vec<char>, max: u64) -> (r: Option<u64>)
    requires
        max >= 9,
    ensures
        match r {
            Some(n) => parse_unsigned(v@, max as nat) == Some(n as nat),
            None => parse_unsigned(v@, max as nat) is None,
        },
{
    let start: usize = if v.len() > 0 && v[0] == '+' {
        1
    } else {
        0
    };
    let ghost d = if v@.len() > 0 && v@[0] == '+' {
        v@.drop_first()
    } else {
        v@
    };
    proof {
        assert(d =~= v@.skip(start as int));
    }
    if start >= v.len() {
        return None;
    }
    let mut acc: u64 = 0;
    let mut i: usize = start;
    while i < v.len()
        invariant
            start <= i <= v.len(),
            start < v.len(),
            d == v@.skip(start as int),
            d == (if v@.len() > 0 && v@[0] == '+' {
                v@.drop_first()
            } else {
                v@
            }),
            all_digits(d.take(i - start)),
            acc as nat == digits_value(d.take(i - start)),
            acc <= max,
            max >= 9,
        decreases v.len() - i,
    {
        let c = v[i];
        proof {
            assert(d[i - start] == c);
            assert(d.take(i - start + 1).drop_last() =~= d.take(i - start));
            assert(d.take(i - start + 1).last() == c);
        }
        if !char_is_digit(c) {
            proof {
                assert(!is_digit(d[i - start]));
                assert(!all_digits(d));
            }
            return None;
        }
        let dv: u64 = ((c as u32) - ('0' as u32)) as u64;
        if acc > (max - dv) / 10 {
            proof {
                assert(acc * 10 + dv > max) by (nonlinear_arith)
                    requires
                        acc > (max - dv) / 10,
                        dv <= 9,
                        dv <= max,
                ;
                lemma_digits_value_mono(d, i - start + 1);
                assert(digits_value(d.take(i - start + 1)) == acc * 10 + dv);
                assert(digits_value(d) > max);
            }
            return None;
        }
        proof {
            assert(acc * 10 + dv <= max) by (nonlinear_arith)
                requires
                    acc <= (max - dv) / 10,
                    dv <= max,
            ;
        }
        acc = acc * 10 + dv;
        proof {
            assert forall|j: int| 0 <= j < i - start + 1 implies is_digit(#[trigger] d.take(i - start + 1)[j]) by {
                if j < i - start {
                    assert(d.take(i - start + 1)[j] == d.take(i - start)[j]);
                }
            }
        }
        i += 1;
    }
    proof {
        assert(d.take(i - start) =~= d);
    }
    Some(acc)
}


// ------------------------------------------------------------------------
// Words
// ------------------------------------------------------------------------

/// Index of the first character of `s` in `cls`, or `s.len()`.
pub open spec fn first_in_class(s: Seq<char>, cls: CharClass) -> nat
    decreases s.len(),
{
    if s.len() == 0 || in_class(cls, s[0]) {
        0
    } else {
        1 + first_in_class(s.drop_first(), cls)
    }
}

pub proof fn lemma_first_in_class(s: Seq<char>, cls: CharClass)
    ensures
        first_in_class(s, cls) <= s.len(),
        s.len() > 0 && !in_class(cls, s[0]) ==> first_in_class(s, cls) >= 1,
    decreases s.len(),
{
    if s.len() > 0 && !in_class(cls, s[0]) {
        lemma_first_in_class(s.drop_first(), cls);
    }
}

/// `str::split_whitespace`: the maximal runs of non-whitespace characters.
pub open spec fn words(s: Seq<char>) -> Seq<Seq<char>>
    decreases s.len(),
{
    let t = trim_start(s, CharClass::Whitespace);
    if t.len() == 0 {
        Seq::empty()
    } else {
        proof {
            lemma_lead_count_bound(s, CharClass::Whitespace);
            lemma_first_in_class(t, CharClass::Whitespace);
        }
        let k = first_in_class(t, CharClass::Whitespace);
        seq![t.take(k as int)] + words(t.skip(k as int))
    }
}

/// Position of the first character of `v` in `cls`, or `v.len()`.
pub fn first_class_pos(v: &Vec<char>, cls: CharClass) -> (n: usize)
    ensures
        n == first_in_class(v@, cls),
{
    let mut i: usize = 0;
    proof {
        assert(v@.skip(0) =~= v@);
    }
    while i < v.len() && !class_contains(cls, v[i])
        invariant
            i <= v.len(),
            first_in_class(v@, cls) == i + first_in_class(v@.skip(i as int), cls),
        decreases v.len() - i,
    {
        proof {
            assert(v@.skip(i as int).drop_first() =~= v@.skip(i + 1));
        }
        i += 1;
    }
    i
}

/// The whitespace-separated words of `v`.
pub fn words_of(v: &Vec<char>) -> (res: Vec<Vec<char>>)
    ensures
        views(res@) == words(v@),
{
    let mut out: Vec<Vec<char>> = Vec::new();
    let mut cur = slice_chars(v, 0, v.len());
    proof {
        assert(cur@ =~= v@);
        assert(views(out@) + words(cur@) =~= words(v@));
    }
    loop
        invariant
            views(out@) + words(cur@) == words(v@),
        decreases cur@.len(),
    {
        let t = trim_start_chars(&cur, CharClass::Whitespace);
        proof {
            lemma_lead_count_bound(cur@, CharClass::Whitespace);
        }
        if t.len() == 0 {
            proof {
                assert(words(cur@) =~= Seq::<Seq<char>>::empty());
                assert(views(out@) + Seq::<Seq<char>>::empty() =~= views(out@));
            }
            return out;
        }
        let k = first_class_pos(&t, CharClass::Whitespace);
        proof {
            lemma_first_in_class(t@, CharClass::Whitespace);
        }
        let w = slice_chars(&t, 0, k);
        let rest = slice_chars(&t, k, t.len());
        let ghost before = out@;
        out.push(w);
        proof {
            assert(views(out@) =~= views(before).push(w@));
            assert(w@ =~= t@.take(k as int));
            assert(rest@ =~= t@.skip(k as int));
            assert(words(cur@) == seq![w@] + words(rest@));
            assert(views(out@) + words(rest@) =~= views(before) + (seq![w@] + words(rest@)));
        }
        cur = rest;
    }
}

// ------------------------------------------------------------------------
// Decimal formatting
// ------------------------------------------------------------------------

/// The character of a decimal digit.
pub open spec fn digit_char(d: nat) -> char {
    ((d + 48) as u32) as char
}

/// `n.to_string()` for an unsigned integer.
pub open spec fn decimal(n: nat) -> Seq<char>
    decreases n,
{
    if n < 10 {
        seq![digit_char(n)]
    } else {
        decimal(n / 10).push(digit_char(n % 10))
    }
}

/// The decimal digits of `n`.
pub fn decimal_chars(n: u64) -> (res: Vec<char>)
    ensures
        res@ == decimal(n as nat),
    decreases n,
{
    let d = (n % 10) as u8;
    let c = (d + 48) as char;
    proof {
        assert(c == digit_char((n % 10) as nat));
    }
    if n < 10 {
        let mut v: Vec<char> = Vec::new();
        v.push(c);
        assert(v@ =~= seq![c]);
        v
    } else {
        let mut v = decimal_chars(n / 10);
        v.push(c);
        v
    }
}


/// Decimal formatting is undone by parsing: `n.to_string().parse() == n`.
pub proof fn lemma_decimal_parses(n: nat, max: nat)
    requires
        n <= max,
    ensures
        parse_unsigned(decimal(n), max) == Some(n),
        decimal(n).len() > 0,
        all_digits(decimal(n)),
{
    lemma_decimal_value(n);
}

proof fn lemma_decimal_value(n: nat)
    ensures
        decimal(n).len() > 0,
        all_digits(decimal(n)),
        digits_value(decimal(n)) == n,
        decimal(n)[0] != '+',
    decreases n,
{
    let d = digit_char(n % 10);
    assert((d as u32) == (n % 10) + 48);
    assert(('0' as u32) == 48);
    assert(digit_value(d) == n % 10);
    if n < 10 {
        assert(digits_value(seq![d]) == digits_value(seq![d].drop_last()) * 10 + digit_value(d));
        assert(decimal(n) == seq![d]);
        assert(seq![d].drop_last() =~= Seq::<char>::empty());
    } else {
        lemma_decimal_value(n / 10);
        let p = decimal(n / 10);
        assert(decimal(n) == p.push(d));
        assert(p.push(d).drop_last() =~= p);
        assert forall|i: int| 0 <= i < p.push(d).len() implies is_digit(#[trigger] p.push(d)[i]) by {
            if i < p.len() {
                assert(p.push(d)[i] == p[i]);
            }
        }
        assert(digits_value(p.push(d)) == digits_value(p) * 10 + digit_value(d));
        assert((n / 10) * 10 + n % 10 == n);
    }
}

pub(crate) proof fn lemma_trail_count_bound(s: Seq<char>, cls: CharClass)
    ensures
        trail_count(s, cls) <= s.len(),
    decreases s.len(),
{
    if s.len() > 0 && in_class(cls, s.last()) {
        lemma_trail_count_bound(s.drop_last(), cls);
    }
}

/// A text that is its own trim stays so when a space is put before it.
pub proof fn lemma_trim_space_prefix(s: Seq<char>)
    requires
        trim(s, CharClass::Whitespace) == s,
    ensures
        trim(seq![' '] + s, CharClass::Whitespace) == s,
{
    let cls = CharClass::Whitespace;
    let lc = lead_count(s, cls);
    lemma_lead_count_bound(s, cls);
    lemma_trail_count_bound(s.skip(lc as int), cls);
    assert(lc == 0);
    assert(s.skip(0) =~= s);
    let u = seq![' '] + s;
    assert(u.drop_first() =~= s);
    assert(lead_count(u, cls) == 1);
    assert(u.skip(1) =~= s);
    assert(s.take(s.len() as int) =~= s);
}

/// A space put in front of a text does not change its trim.
pub proof fn lemma_trim_space_front(s: Seq<char>)
    ensures
        trim(seq![' '] + s, CharClass::Whitespace) == trim(s, CharClass::Whitespace),
{
    let cls = CharClass::Whitespace;
    let u = seq![' '] + s;
    assert(u.drop_first() =~= s);
    assert(in_class(cls, u[0]));
    assert(lead_count(u, cls) == 1 + lead_count(s, cls));
    lemma_lead_count_bound(s, cls);
    assert(u.skip(1 + lead_count(s, cls) as int) =~= s.skip(lead_count(s, cls) as int));
}

/// A text without whitespace is its own trim.
pub proof fn lemma_trim_no_ws(g: Seq<char>)
    requires
        forall|i: int| 0 <= i < g.len() ==> !is_ws(#[trigger] g[i]),
    ensures
        trim(g, CharClass::Whitespace) == g,
{
    if g.len() > 0 {
        assert(!is_ws(g[0]));
        lemma_lead_count_is(g, CharClass::Whitespace, 0);
        assert(g.skip(0) =~= g);
        assert(!is_ws(g.last()));
        assert(trail_count(g, CharClass::Whitespace) == 0);
        assert(g.take(g.len() as int) =~= g);
    } else {
        assert(g.skip(0) =~= g);
        assert(g.take(0) =~= g);
    }
}

} // verus!
