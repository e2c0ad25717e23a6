//! Canonical mkd group paths.
//!
//! The sole locator for GCM memory is [`GroupPath`]. Allowed wire roots are
//! `mkd.<branch>.…` and `monkeyking` / `monkeyking.…`.

use vstd::prelude::*;

use crate::error::{Error, Result};
use crate::text::{
    CharClass, ascii_lower, char_is_alnum, char_is_ws, chars_eq_str, chars_of, contains, contains_str,
    ends_with, extend_chars, extend_str, has_prefix_str, has_suffix_str, in_class, is_alnum,
    is_ws, join, join_chars, lead_count, lemma_lead_count_bound, slice_chars, spec_to_lowercase,
    replace_all, replace_chars, split, split_chars, starts_with, string_of, to_lowercase,
    trail_count, trim, trim_chars, views, occurs_at, contains_chars,
};

verus! {

// ------------------------------------------------------------------------
// Token sanitizing
// ------------------------------------------------------------------------

/// The character that a token keeps in place of `c`.
pub open spec fn sanitize_char(c: char) -> char {
    if is_alnum(c) || c == '.' || c == '-' {
        c
    } else {
        '-'
    }
}

/// Keeps the first dash of every run of dashes.
pub open spec fn collapse_dashes(s: Seq<char>) -> Seq<char>
    decreases s.len(),
{
    if s.len() == 0 {
        s
    } else if s.len() >= 2 && s.last() == '-' && s[s.len() - 2] == '-' {
        collapse_dashes(s.drop_last())
    } else {
        collapse_dashes(s.drop_last()).push(s.last())
    }
}

/// `sanitize_token`: trim, lowercase, map every character outside
/// `[A-Za-z0-9.-]` to `-`, collapse runs of dashes, trim dashes and dots,
/// and fall back to `unknown` when nothing is left.
pub open spec fn sanitize(s: Seq<char>) -> Seq<char> {
    let t = trim(
        collapse_dashes(spec_to_lowercase(trim(s, CharClass::Whitespace)).map_values(|c| sanitize_char(c))),
        CharClass::DashOrDot,
    );
    if t.len() == 0 {
        "unknown"@
    } else {
        t
    }
}

/// A character that may stand in a sanitized token.
pub open spec fn token_char(c: char) -> bool {
    is_alnum(c) || c == '.' || c == '-'
}

/// What every sanitized token satisfies.
pub open spec fn is_token(t: Seq<char>) -> bool {
    &&& t.len() > 0
    &&& forall|i: int| 0 <= i < t.len() ==> token_char(#[trigger] t[i])
    &&& forall|i: int| 0 <= i < t.len() - 1 ==> !(#[trigger] t[i] == '-' && t[i + 1] == '-')
    &&& t[0] != '-' && t[0] != '.'
    &&& t.last() != '-' && t.last() != '.'
}

proof fn lemma_collapse_dashes(s: Seq<char>)
    ensures
        s.len() > 0 ==> collapse_dashes(s).len() > 0 && collapse_dashes(s).last() == s.last(),
        (forall|i: int| 0 <= i < s.len() ==> token_char(#[trigger] s[i])) ==> (forall|i: int|
            0 <= i < collapse_dashes(s).len() ==> token_char(#[trigger] collapse_dashes(s)[i])),
        forall|i: int|
            0 <= i < collapse_dashes(s).len() - 1 ==> !(#[trigger] collapse_dashes(s)[i] == '-'
                && collapse_dashes(s)[i + 1] == '-'),
    decreases s.len(),
{
    if s.len() > 0 {
        let p = s.drop_last();
        lemma_collapse_dashes(p);
        if (forall|i: int| 0 <= i < s.len() ==> token_char(#[trigger] s[i])) {
            assert forall|i: int| 0 <= i < p.len() implies token_char(#[trigger] p[i]) by {
                assert(p[i] == s[i]);
            }
        }
        if s.len() >= 2 && s.last() == '-' && s[s.len() - 2] == '-' {
            assert(p.last() == s[s.len() - 2]);
        } else {
            let c = collapse_dashes(p);
            let r = c.push(s.last());
            assert(collapse_dashes(s) == r);
            assert forall|i: int| 0 <= i < r.len() - 1 implies !(#[trigger] r[i] == '-' && r[i + 1]
                == '-') by {
                if i < c.len() - 1 {
                    assert(r[i] == c[i] && r[i + 1] == c[i + 1]);
                } else {
                    assert(i == c.len() - 1);
                    assert(r[i] == c.last());
                    if s.len() >= 2 {
                        assert(c.last() == p.last());
                        assert(p.last() == s[s.len() - 2]);
                    }
                }
            }
            if (forall|i: int| 0 <= i < s.len() ==> token_char(#[trigger] s[i])) {
                assert forall|i: int| 0 <= i < r.len() implies token_char(#[trigger] r[i]) by {
                    if i < c.len() {
                        assert(r[i] == c[i]);
                    } else {
                        assert(r[i] == s[s.len() - 1]);
                    }
                }
            }
        }
    }
}

proof fn lemma_trail_count_bound(s: Seq<char>, cls: CharClass)
    ensures
        trail_count(s, cls) <= s.len(),
        trail_count(s, cls) < s.len() ==> !in_class(cls, s[s.len() - trail_count(s, cls) - 1]),
    decreases s.len(),
{
    if s.len() > 0 && in_class(cls, s.last()) {
        lemma_trail_count_bound(s.drop_last(), cls);
        let p = s.drop_last();
        if trail_count(s, cls) < s.len() {
            assert(s[s.len() - trail_count(s, cls) - 1] == p[p.len() - trail_count(p, cls) - 1]);
        }
    }
}

/// Trimming keeps a contiguous piece whose ends are outside the class.
pub(crate) proof fn lemma_trim_piece(s: Seq<char>, cls: CharClass)
    ensures
        exists|a: int, b: int| 0 <= a <= b <= s.len() && trim(s, cls) == s.subrange(a, b),
        trim(s, cls).len() > 0 ==> !in_class(cls, trim(s, cls)[0]) && !in_class(
            cls,
            trim(s, cls).last(),
        ),
{
    lemma_lead_count_bound(s, cls);
    let a = lead_count(s, cls) as int;
    let y = s.skip(a);
    lemma_trail_count_bound(y, cls);
    let m = y.len() - trail_count(y, cls);
    assert(trim(s, cls) =~= s.subrange(a, a + m));
    if trim(s, cls).len() > 0 {
        assert(trim(s, cls)[0] == s[a]);
        assert(trim(s, cls).last() == y[y.len() - trail_count(y, cls) - 1]);
    }
}

/// Every sanitized token is a non-empty run of `[A-Za-z0-9.-]` without a
/// double dash, and neither starts nor ends with a dash or a dot.
pub proof fn lemma_sanitize_is_token(s: Seq<char>)
    ensures
        is_token(sanitize(s)),
{
    let m = spec_to_lowercase(trim(s, CharClass::Whitespace)).map_values(|c| sanitize_char(c));
    assert forall|i: int| 0 <= i < m.len() implies token_char(#[trigger] m[i]) by {}
    lemma_collapse_dashes(m);
    let c = collapse_dashes(m);
    lemma_trim_piece(c, CharClass::DashOrDot);
    let t = trim(c, CharClass::DashOrDot);
    if t.len() == 0 {
        reveal_strlit("unknown");
        assert(is_token("unknown"@));
    } else {
        let (a, b) = choose|a: int, b: int| 0 <= a <= b <= c.len() && t == c.subrange(a, b);
        assert forall|i: int| 0 <= i < t.len() implies token_char(#[trigger] t[i]) by {
            assert(t[i] == c[a + i]);
        }
        assert forall|i: int| 0 <= i < t.len() - 1 implies !(#[trigger] t[i] == '-' && t[i + 1]
            == '-') by {
            assert(t[i] == c[a + i] && t[i + 1] == c[a + i + 1]);
        }
    }
}

/// The token made of lowercased text `l` (the steps of [`sanitize`] after
/// lowercasing).
pub open spec fn token_of(l: Seq<char>) -> Seq<char> {
    let t = trim(collapse_dashes(l.map_values(|c| sanitize_char(c))), CharClass::DashOrDot);
    if t.len() == 0 {
        "unknown"@
    } else {
        t
    }
}

/// [`sanitize`] of an ASCII text, where lowercasing maps `A`-`Z` to `a`-`z`.
pub open spec fn ascii_sanitize(s: Seq<char>) -> Seq<char> {
    token_of(trim(s, CharClass::Whitespace).map_values(|c: char| ascii_lower(c)))
}

/// A text without ASCII capital letters.
pub open spec fn lower_chars(s: Seq<char>) -> bool {
    forall|i: int| 0 <= i < s.len() ==> not_upper(#[trigger] s[i])
}

/// A character that is not an ASCII capital letter.
pub open spec fn not_upper(c: char) -> bool {
    !('A' <= c && c <= 'Z')
}

proof fn lemma_collapse_keeps(s: Seq<char>)
    requires
        forall|i: int| 0 <= i < s.len() ==> not_upper(#[trigger] s[i]),
    ensures
        forall|i: int| 0 <= i < collapse_dashes(s).len() ==> not_upper(#[trigger] collapse_dashes(s)[i]),
    decreases s.len(),
{
    if s.len() > 0 {
        let p = s.drop_last();
        assert forall|i: int| 0 <= i < p.len() implies not_upper(#[trigger] p[i]) by {
            assert(p[i] == s[i]);
        }
        lemma_collapse_keeps(p);
        let c = collapse_dashes(p);
        if !(s.len() >= 2 && s.last() == '-' && s[s.len() - 2] == '-') {
            let r = c.push(s.last());
            assert forall|i: int| 0 <= i < r.len() implies not_upper(#[trigger] r[i]) by {
                if i < c.len() {
                    assert(r[i] == c[i]);
                } else {
                    assert(r[i] == s[s.len() - 1]);
                }
            }
        }
    }
}

proof fn lemma_collapse_id(s: Seq<char>)
    requires
        forall|i: int| 0 <= i < s.len() - 1 ==> !(#[trigger] s[i] == '-' && s[i + 1] == '-'),
    ensures
        collapse_dashes(s) == s,
    decreases s.len(),
{
    if s.len() > 0 {
        let p = s.drop_last();
        assert forall|i: int| 0 <= i < p.len() - 1 implies !(#[trigger] p[i] == '-' && p[i + 1] == '-') by {
            assert(p[i] == s[i] && p[i + 1] == s[i + 1]);
        }
        lemma_collapse_id(p);
        if s.len() >= 2 {
            assert(!(s[s.len() - 2] == '-' && s[s.len() - 1] == '-'));
        }
        assert(p.push(s.last()) =~= s);
    }
}

/// The token of a text without capitals is a token without capitals.
proof fn lemma_token_of(l: Seq<char>)
    requires
        forall|i: int| 0 <= i < l.len() ==> not_upper(#[trigger] l[i]),
    ensures
        is_token(token_of(l)),
        forall|i: int| 0 <= i < token_of(l).len() ==> not_upper(#[trigger] token_of(l)[i]),
{
    let m = l.map_values(|c| sanitize_char(c));
    assert forall|i: int| 0 <= i < m.len() implies token_char(#[trigger] m[i]) && not_upper(m[i]) by {
        assert(not_upper(l[i]));
    }
    lemma_collapse_dashes(m);
    lemma_collapse_keeps(m);
    let c = collapse_dashes(m);
    lemma_trim_piece(c, CharClass::DashOrDot);
    let t = trim(c, CharClass::DashOrDot);
    if t.len() == 0 {
        reveal_strlit("unknown");
        assert(is_token("unknown"@));
    } else {
        let (a, b) = choose|a: int, b: int| 0 <= a <= b <= c.len() && t == c.subrange(a, b);
        assert forall|i: int| 0 <= i < t.len() implies token_char(#[trigger] t[i]) && not_upper(t[i]) by {
            assert(t[i] == c[a + i]);
        }
        assert forall|i: int| 0 <= i < t.len() - 1 implies !(#[trigger] t[i] == '-' && t[i + 1]
            == '-') by {
            assert(t[i] == c[a + i] && t[i + 1] == c[a + i + 1]);
        }
    }
}

/// Sanitizing an ASCII text gives a token of lowercase letters, digits,
/// dots and single dashes, and sanitizing that token again changes
/// nothing.
pub proof fn lemma_ascii_sanitize_idempotent(s: Seq<char>)
    ensures
        is_token(ascii_sanitize(s)),
        forall|i: int| 0 <= i < ascii_sanitize(s).len() ==> not_upper(#[trigger] ascii_sanitize(s)[i]),
        crate::text::is_ascii_text(ascii_sanitize(s)),
        ascii_sanitize(ascii_sanitize(s)) == ascii_sanitize(s),
{
    let l = trim(s, CharClass::Whitespace).map_values(|c: char| ascii_lower(c));
    assert forall|i: int| 0 <= i < l.len() implies not_upper(#[trigger] l[i]) by {}
    lemma_token_of(l);
    let t = ascii_sanitize(s);
    assert forall|i: int| 0 <= i < t.len() implies (#[trigger] t[i] as u32) < 128 by {
        assert(token_char(t[i]));
    }
    lemma_ascii_sanitize_fixes(t);
}

proof fn lemma_collapse_dash_dot(s: Seq<char>)
    requires
        forall|i: int| 0 <= i < s.len() ==> in_class(CharClass::DashOrDot, #[trigger] s[i]),
    ensures
        forall|i: int| 0 <= i < collapse_dashes(s).len() ==> in_class(
            CharClass::DashOrDot,
            #[trigger] collapse_dashes(s)[i],
        ),
    decreases s.len(),
{
    if s.len() > 0 {
        let p = s.drop_last();
        assert forall|i: int| 0 <= i < p.len() implies in_class(CharClass::DashOrDot, #[trigger] p[i]) by {
            assert(p[i] == s[i]);
        }
        lemma_collapse_dash_dot(p);
        let c = collapse_dashes(p);
        if !(s.len() >= 2 && s.last() == '-' && s[s.len() - 2] == '-') {
            let r = c.push(s.last());
            assert forall|i: int| 0 <= i < r.len() implies in_class(CharClass::DashOrDot, #[trigger] r[i]) by {
                if i < c.len() {
                    assert(r[i] == c[i]);
                } else {
                    assert(r[i] == s[s.len() - 1]);
                }
            }
        }
    }
}

/// A text whose lowercase form has no ASCII letter or digit sanitizes to
/// `unknown`.
pub proof fn lemma_sanitize_unknown(s: Seq<char>)
    requires
        forall|i: int|
            0 <= i < spec_to_lowercase(trim(s, CharClass::Whitespace)).len() ==> !is_alnum(
                #[trigger] spec_to_lowercase(trim(s, CharClass::Whitespace))[i],
            ),
    ensures
        sanitize(s) == "unknown"@,
{
    let l = spec_to_lowercase(trim(s, CharClass::Whitespace));
    let m = l.map_values(|c| sanitize_char(c));
    assert forall|i: int| 0 <= i < m.len() implies in_class(CharClass::DashOrDot, #[trigger] m[i]) by {
        assert(!is_alnum(l[i]));
    }
    lemma_collapse_dash_dot(m);
    let c = collapse_dashes(m);
    crate::text::lemma_lead_count_is(c, CharClass::DashOrDot, c.len() as int);
    assert(c.skip(c.len() as int) =~= Seq::<char>::empty());
    assert(trim(c, CharClass::DashOrDot).len() == 0);
}

/// A token without capitals is its own ASCII sanitizing.
pub proof fn lemma_ascii_sanitize_fixes(t: Seq<char>)
    requires
        is_token(t),
        forall|i: int| 0 <= i < t.len() ==> not_upper(#[trigger] t[i]),
    ensures
        ascii_sanitize(t) == t,
{
    assert forall|i: int| 0 <= i < t.len() implies !is_ws(#[trigger] t[i]) by {
        assert(token_char(t[i]));
    }
    crate::text::lemma_trim_no_ws(t);
    let l2 = t.map_values(|c: char| ascii_lower(c));
    assert(l2 =~= t) by {
        assert forall|i: int| 0 <= i < t.len() implies l2[i] == t[i] by {
            assert(not_upper(t[i]));
        }
    }
    let m2 = t.map_values(|c| sanitize_char(c));
    assert(m2 =~= t) by {
        assert forall|i: int| 0 <= i < t.len() implies m2[i] == t[i] by {
            assert(token_char(t[i]));
        }
    }
    lemma_collapse_id(t);
    let cls = CharClass::DashOrDot;
    crate::text::lemma_lead_count_is(t, cls, 0);
    crate::text::lemma_trail_count_is(t, cls, 0);
    assert(t.skip(0) =~= t);
    assert(t.take(t.len() as int) =~= t);
}

/// The sanitized form of `v` (see [`sanitize`]).
fn sanitize_chars(v: &Vec<char>) -> (res: Vec<char>)
    ensures
        res@ == sanitize(v@),
        is_token(res@),
        crate::text::is_ascii_text(v@) ==> res@ == ascii_sanitize(v@),
        lower_chars(res@),
        crate::text::is_ascii_text(res@),
        ascii_sanitize(res@) == res@,
{
    let trimmed = trim_chars(v, CharClass::Whitespace);
    let ts = string_of(&trimmed);
    proof {
        if crate::text::is_ascii_text(v@) {
            lemma_trim_piece(v@, CharClass::Whitespace);
            let (a, b) = choose|a: int, b: int|
                0 <= a <= b <= v@.len() && trim(v@, CharClass::Whitespace) == v@.subrange(a, b);
            assert forall|i: int| 0 <= i < ts@.len() implies (#[trigger] ts@[i] as u32) < 128 by {
                assert(ts@[i] == v@[a + i]);
            }
        }
    }
    let lower = to_lowercase(ts.as_str());
    proof {
        assert(sanitize(v@) == token_of(spec_to_lowercase(trim(v@, CharClass::Whitespace))));
        let l = spec_to_lowercase(trim(v@, CharClass::Whitespace));
        assert forall|i: int| 0 <= i < l.len() implies not_upper(#[trigger] l[i]) by {
            assert(!('A' <= lower@[i] && lower@[i] <= 'Z'));
        }
        lemma_token_of(l);
        let t = token_of(l);
        assert forall|i: int| 0 <= i < t.len() implies (#[trigger] t[i] as u32) < 128 by {
            assert(token_char(t[i]));
        }
        lemma_ascii_sanitize_fixes(t);
    }
    let lv = chars_of(lower.as_str());
    let ghost m = lv@.map_values(|c| sanitize_char(c));
    let mut out: Vec<char> = Vec::new();
    let mut prev_dash = false;
    let mut i: usize = 0;
    while i < lv.len()
        invariant
            i <= lv.len(),
            m == lv@.map_values(|c| sanitize_char(c)),
            out@ == collapse_dashes(m.take(i as int)),
            prev_dash == (i > 0 && m[i - 1] == '-'),
        decreases lv.len() - i,
    {
        let c = lv[i];
        let d = if char_is_alnum(c) || c == '.' || c == '-' {
            c
        } else {
            '-'
        };
        proof {
            assert(d == m[i as int]);
            let t = m.take(i + 1);
            assert(t.drop_last() =~= m.take(i as int));
            assert(t.last() == d);
            if i > 0 {
                assert(t[t.len() - 2] == m[i - 1]);
            }
        }
        if d == '-' {
            if !prev_dash {
                out.push(d);
            }
            prev_dash = true;
        } else {
            out.push(d);
            prev_dash = false;
        }
        i += 1;
    }
    proof {
        assert(m.take(lv.len() as int) =~= m);
    }
    let t = trim_chars(&out, CharClass::DashOrDot);
    proof {
        lemma_sanitize_is_token(v@);
    }
    if t.len() == 0 {
        chars_of("unknown")
    } else {
        t
    }
}

/// Sanitize a path segment token for NNTP group segments.
///
/// The result is never empty, holds only lowercase ASCII letters, digits,
/// `.` and `-`, has no `--`, neither starts nor ends with `-` or `.`, and
/// sanitizes to itself.
pub fn sanitize_token(s: &str) -> (res: String)
    ensures
        res@ == sanitize(s@),
        is_token(res@),
        crate::text::is_ascii_text(s@) ==> res@ == ascii_sanitize(s@),
        lower_chars(res@),
        crate::text::is_ascii_text(res@),
        ascii_sanitize(res@) == res@,
        sanitize(res@) == res@,
{
    let v = chars_of(s);
    let r = sanitize_chars(&v);
    let t = string_of(&r);
    // The token holds no capital letter, so lowering it again gives it back;
    // the call also shows that the token is its own sanitized form.
    let res = to_lowercase(t.as_str());
    proof {
        assert(res@ =~= r@) by {
            assert forall|i: int| 0 <= i < r@.len() implies res@[i] == r@[i] by {
                assert(not_upper(r@[i]));
            }
        }
        lemma_sanitize_fixes(r@);
    }
    res
}

/// A sanitized token that lowercases to itself is its own sanitized form.
proof fn lemma_sanitize_fixes(t: Seq<char>)
    requires
        is_token(t),
        lower_chars(t),
        spec_to_lowercase(t) == t,
    ensures
        sanitize(t) == t,
{
    assert forall|i: int| 0 <= i < t.len() implies !is_ws(#[trigger] t[i]) by {
        assert(token_char(t[i]));
    }
    crate::text::lemma_trim_no_ws(t);
    let l2 = t.map_values(|c: char| ascii_lower(c));
    assert(l2 =~= t) by {
        assert forall|i: int| 0 <= i < t.len() implies l2[i] == t[i] by {
            assert(not_upper(t[i]));
        }
    }
    lemma_ascii_sanitize_fixes(t);
}


// ------------------------------------------------------------------------
// Hierarchy branches
// ------------------------------------------------------------------------

/// Top-level branch under the wire root `mkd.`.
#[derive(Debug, Clone, Copy, PartialEq, Eq, Hash, Structural)]
pub enum HierarchyBranch {
    Projects,
    Agents,
    Users,
    System,
    Addressbook,
}

/// The wire segment of a branch.
pub open spec fn branch_name(b: HierarchyBranch) -> Seq<char> {
    match b {
        HierarchyBranch::Projects => "projects"@,
        HierarchyBranch::Agents => "agents"@,
        HierarchyBranch::Users => "users"@,
        HierarchyBranch::System => "system"@,
        HierarchyBranch::Addressbook => "addressbook"@,
    }
}

impl HierarchyBranch {
    pub fn as_str(self) -> (res: &'static str)
        ensures
            res@ == branch_name(self),
    {
        match self {
            HierarchyBranch::Projects => "projects",
            HierarchyBranch::Agents => "agents",
            HierarchyBranch::Users => "users",
            HierarchyBranch::System => "system",
            HierarchyBranch::Addressbook => "addressbook",
        }
    }
}

// ------------------------------------------------------------------------
// Group paths
// ------------------------------------------------------------------------

/// Canonical group path (`mkd.projects.mkd.log`, `monkeyking`, …).
#[derive(Debug, Clone, PartialEq, Eq, Hash)]
pub struct GroupPath {
    /// Full dotted name including wire root (`mkd.` or `monkeyking`).
    name: String,
}

impl View for GroupPath {
    type V = Seq<char>;

    closed spec fn view(&self) -> Seq<char> {
        self.name@
    }
}

/// `mkd.*`, `monkeyking` or `monkeyking.*`.
pub open spec fn allowed_root(n: Seq<char>) -> bool {
    starts_with(n, "mkd."@) || n == "monkeyking"@ || starts_with(n, "monkeyking."@)
}

/// Whether `n` holds a whitespace character.
pub open spec fn has_ws(n: Seq<char>) -> bool {
    exists|i: int| 0 <= i < n.len() && is_ws(#[trigger] n[i])
}

/// What `GroupPath::parse` accepts, after trimming whitespace.
pub open spec fn valid_group(n: Seq<char>) -> bool {
    n.len() > 0 && allowed_root(n) && !has_ws(n)
}

/// The message of the error `GroupPath::parse` gives for the trimmed name `n`.
pub open spec fn parse_error_text(n: Seq<char>) -> Seq<char> {
    if n.len() == 0 {
        "empty group path"@
    } else if !allowed_root(n) {
        "group must start with mkd. or be monkeyking / monkeyking.*: "@ + n
    } else {
        "group has whitespace: "@ + n
    }
}

/// `str::trim_start_matches` for a string pattern: strips `p` as long as it
/// is a prefix.
pub open spec fn strip_all_prefix(s: Seq<char>, p: Seq<char>) -> Seq<char>
    decreases s.len(),
{
    if p.len() > 0 && starts_with(s, p) {
        strip_all_prefix(s.skip(p.len() as int), p)
    } else {
        s
    }
}

/// `GroupPath::monkeyking_sub` on the raw segments.
pub open spec fn monkeyking_sub_name(segments: Seq<char>) -> Seq<char> {
    let segs = trim(trim(segments, CharClass::Whitespace), CharClass::Dot);
    if segs.len() == 0 {
        "monkeyking"@
    } else {
        "monkeyking."@ + join(split(segs, '.').map_values(|p: Seq<char>| sanitize(p)), "."@)
    }
}

/// `GroupPath::fs_relative`: strip the `mkd.` wire root, dots become slashes.
pub open spec fn fs_relative_of(n: Seq<char>) -> Seq<char> {
    let suffix = if starts_with(n, "mkd."@) {
        n.skip(4)
    } else {
        n
    };
    suffix.map_values(|c: char| if c == '.' { '/' } else { c })
}

/// `GroupPath::project_tasks`.
pub open spec fn project_tasks_name(b: HierarchyBranch, name: Seq<char>) -> Seq<char> {
    match b {
        HierarchyBranch::System => "mkd.system.tasks"@,
        _ => "mkd."@ + branch_name(b) + "."@ + sanitize(name) + ".tasks"@,
    }
}

/// The `<id>-<slug>` leaf of a legacy task group.
pub open spec fn task_leaf(task_id: Seq<char>, slug: Seq<char>) -> Seq<char> {
    let id = sanitize(strip_all_prefix(trim(task_id, CharClass::Whitespace), "task-"@));
    let s = sanitize(slug);
    if s.len() == 0 || s == "unknown"@ {
        id
    } else {
        id + "-"@ + s
    }
}

/// `GroupPath::task_group`.
pub open spec fn task_group_name(
    b: HierarchyBranch,
    name: Seq<char>,
    task_id: Seq<char>,
    slug: Seq<char>,
) -> Seq<char> {
    match b {
        HierarchyBranch::System => "mkd.system.tasks."@ + task_leaf(task_id, slug),
        _ => "mkd."@ + branch_name(b) + "."@ + sanitize(name) + ".tasks."@ + task_leaf(task_id, slug),
    }
}

/// A legacy per-task child group: has `.tasks.` and does not end in `.tasks`.
pub open spec fn legacy_task_child(g: Seq<char>) -> bool {
    let t = trim(g, CharClass::Whitespace);
    !ends_with(t, ".tasks"@) && contains(t, ".tasks."@)
}

/// Strips every leading copy of `lit` from `v`.
fn strip_all_prefix_chars(v: &Vec<char>, lit: &str) -> (res: Vec<char>)
    requires
        lit@.len() > 0,
    ensures
        res@ == strip_all_prefix(v@, lit@),
{
    let p = chars_of(lit);
    let mut cur = slice_chars(v, 0, v.len());
    proof {
        assert(cur@ =~= v@);
    }
    while has_prefix_str(&cur, lit)
        invariant
            p@ == lit@,
            p@.len() > 0,
            strip_all_prefix(cur@, p@) == strip_all_prefix(v@, p@),
        decreases cur@.len(),
    {
        cur = slice_chars(&cur, p.len(), cur.len());
    }
    cur
}

impl GroupPath {
    /// True when `name` is a locked wire root: `mkd.*` or `monkeyking` / `monkeyking.*`.
    pub fn is_allowed_root(name: &str) -> (b: bool)
        ensures
            b == allowed_root(name@),
    {
        let v = chars_of(name);
        has_prefix_str(&v, "mkd.") || chars_eq_str(&v, "monkeyking") || has_prefix_str(
            &v,
            "monkeyking.",
        )
    }

    /// Parse a full group name (must use an allowed wire root; non-empty; no whitespace).
    pub fn parse(name: &str) -> (res: Result<GroupPath>)
        ensures
            match res {
                Ok(g) => valid_group(trim(name@, CharClass::Whitespace)) && g@ == trim(
                    name@,
                    CharClass::Whitespace,
                ),
                Err(e) => !valid_group(trim(name@, CharClass::Whitespace)) && e is Message
                    && e.text() == parse_error_text(trim(name@, CharClass::Whitespace)),
            },
    {
        let v = chars_of(name);
        let n = trim_chars(&v, CharClass::Whitespace);
        if n.len() == 0 {
            return Err(Error::Message(string_of(&chars_of("empty group path"))));
        }
        let ns = string_of(&n);
        if !Self::is_allowed_root(ns.as_str()) {
            let mut msg = chars_of("group must start with mkd. or be monkeyking / monkeyking.*: ");
            extend_chars(&mut msg, &n);
            return Err(Error::Message(string_of(&msg)));
        }
        let mut i: usize = 0;
        while i < n.len()
            invariant
                i <= n.len(),
                n@ == trim(name@, CharClass::Whitespace),
                n@.len() > 0,
                allowed_root(n@),
                forall|j: int| 0 <= j < i ==> !is_ws(#[trigger] n@[j]),
            decreases n.len() - i,
        {
            if char_is_ws(n[i]) {
                proof {
                    assert(is_ws(n@[i as int]));
                    assert(has_ws(n@));
                }
                let mut msg = chars_of("group has whitespace: ");
                extend_chars(&mut msg, &n);
                return Err(Error::Message(string_of(&msg)));
            }
            i += 1;
        }
        Ok(GroupPath { name: ns })
    }

    /// Construct without validation (tests / known-good strings / migrator).
    pub fn unchecked(name: String) -> (res: GroupPath)
        ensures
            res@ == name@,
    {
        GroupPath { name }
    }

    /// A copy of this path.
    pub fn duplicate(&self) -> (res: GroupPath)
        ensures
            res@ == self@,
    {
        GroupPath { name: self.name.clone() }
    }

    /// Bare top-level company hierarchy root: `monkeyking`.
    pub fn monkeyking() -> (res: GroupPath)
        ensures
            res@ == "monkeyking"@,
    {
        GroupPath { name: string_of(&chars_of("monkeyking")) }
    }

    /// Subgroup under the top-level `monkeyking` root (e.g. `log` → `monkeyking.log`).
    pub fn monkeyking_sub(segments: &str) -> (res: GroupPath)
        ensures
            res@ == monkeyking_sub_name(segments@),
    {
        let v = chars_of(segments);
        let t = trim_chars(&v, CharClass::Whitespace);
        let segs = trim_chars(&t, CharClass::Dot);
        if segs.len() == 0 {
            return Self::monkeyking();
        }
        let parts = split_chars(&segs, '.');
        let mut cleaned: Vec<Vec<char>> = Vec::new();
        let ghost ps = views(parts@);
        let mut i: usize = 0;
        while i < parts.len()
            invariant
                i <= parts.len(),
                ps == views(parts@),
                views(cleaned@) == ps.take(i as int).map_values(|p: Seq<char>| sanitize(p)),
            decreases parts.len() - i,
        {
            let c = sanitize_chars(&parts[i]);
            let ghost before = cleaned@;
            cleaned.push(c);
            proof {
                assert(views(cleaned@) =~= views(before).push(c@));
                assert(ps.take(i + 1).map_values(|p: Seq<char>| sanitize(p)) =~= ps.take(
                    i as int,
                ).map_values(|p: Seq<char>| sanitize(p)).push(sanitize(ps[i as int])));
            }
            i += 1;
        }
        proof {
            assert(ps.take(parts.len() as int) =~= ps);
        }
        let dot = chars_of(".");
        let joined = join_chars(&cleaned, &dot);
        let mut out = chars_of("monkeyking.");
        extend_chars(&mut out, &joined);
        GroupPath { name: string_of(&out) }
    }

    pub fn as_str(&self) -> (res: &str)
        ensures
            res@ == self@,
    {
        self.name.as_str()
    }

    /// The name as an owned string.
    pub fn to_string(&self) -> (res: String)
        ensures
            res@ == self@,
    {
        self.name.clone()
    }

    /// FS relative path under the storage root.
    ///
    /// - `mkd.projects.mkd.log` → `projects/mkd/log` (strip `mkd.` wire root)
    /// - `monkeyking` → `monkeyking`
    /// - `monkeyking.log` → `monkeyking/log`
    pub fn fs_relative(&self) -> (res: String)
        ensures
            res@ == fs_relative_of(self@),
    {
        let v = chars_of(self.name.as_str());
        let suffix = if has_prefix_str(&v, "mkd.") {
            proof {
                reveal_strlit("mkd.");
            }
            slice_chars(&v, 4, v.len())
        } else {
            slice_chars(&v, 0, v.len())
        };
        let ghost sv = if starts_with(v@, "mkd."@) {
            v@.skip(4)
        } else {
            v@
        };
        proof {
            assert(suffix@ =~= sv);
        }
        let mut out: Vec<char> = Vec::new();
        let mut i: usize = 0;
        while i < suffix.len()
            invariant
                i <= suffix.len(),
                out@ == suffix@.take(i as int).map_values(|c: char| if c == '.' { '/' } else { c }),
            decreases suffix.len() - i,
        {
            let c = suffix[i];
            out.push(if c == '.' { '/' } else { c });
            proof {
                assert(suffix@.take(i + 1).map_values(|c: char| if c == '.' { '/' } else { c })
                    =~= suffix@.take(i as int).map_values(|c: char| if c == '.' { '/' } else { c }).push(
                    if c == '.' { '/' } else { c },
                ));
            }
            i += 1;
        }
        proof {
            assert(suffix@.take(suffix.len() as int) =~= suffix@);
        }
        string_of(&out)
    }

    /// Living collab container for a subject: `mkd.<branch>.<name>.tasks`.
    ///
    /// System branch has no name segment: `mkd.system.tasks`.
    pub fn project_tasks(branch: HierarchyBranch, name: &str) -> (res: GroupPath)
        ensures
            res@ == project_tasks_name(branch, name@),
    {
        match branch {
            HierarchyBranch::System => GroupPath { name: string_of(&chars_of("mkd.system.tasks")) },
            other => {
                let n = sanitize_token(name);
                let mut out = chars_of("mkd.");
                extend_str(&mut out, other.as_str());
                extend_str(&mut out, ".");
                extend_str(&mut out, n.as_str());
                extend_str(&mut out, ".tasks");
                GroupPath { name: string_of(&out) }
            },
        }
    }

    /// Legacy per-task **child** group: `mkd.<branch>.<name>.tasks.<id>-<slug>`.
    ///
    /// Deprecated for living collab writes; prefer [`GroupPath::project_tasks`]
    /// plus in-group threading. Kept for inventory of historical child leaves.
    pub fn task_group(branch: HierarchyBranch, name: &str, task_id: &str, slug: &str) -> (res:
        GroupPath)
        ensures
            res@ == task_group_name(branch, name@, task_id@, slug@),
    {
        let n = sanitize_token(name);
        let tid = chars_of(task_id);
        let tid = trim_chars(&tid, CharClass::Whitespace);
        proof {
            reveal_strlit("task-");
        }
        let tid = strip_all_prefix_chars(&tid, "task-");
        let id = sanitize_chars(&tid);
        let s = sanitize_token(slug);
        let sv = chars_of(s.as_str());
        let mut leaf = slice_chars(&id, 0, id.len());
        if !(sv.len() == 0 || chars_eq_str(&sv, "unknown")) {
            extend_str(&mut leaf, "-");
            extend_chars(&mut leaf, &sv);
        }
        proof {
            assert(id@.subrange(0, id@.len() as int) =~= id@);
        }
        match branch {
            HierarchyBranch::System => {
                let mut out = chars_of("mkd.system.tasks.");
                extend_chars(&mut out, &leaf);
                GroupPath { name: string_of(&out) }
            },
            other => {
                let mut out = chars_of("mkd.");
                extend_str(&mut out, other.as_str());
                extend_str(&mut out, ".");
                extend_str(&mut out, n.as_str());
                extend_str(&mut out, ".tasks.");
                extend_chars(&mut out, &leaf);
                GroupPath { name: string_of(&out) }
            },
        }
    }

    /// True when `group` looks like a **legacy** per-task child under `…tasks.<leaf>`
    /// (extra segment after `.tasks`), not the bare parent `…tasks` group.
    pub fn is_legacy_task_child_group(group: &str) -> (b: bool)
        ensures
            b == legacy_task_child(group@),
    {
        let v = chars_of(group);
        let g = trim_chars(&v, CharClass::Whitespace);
        if has_suffix_str(&g, ".tasks") {
            return false;
        }
        contains_str(&g, ".tasks.")
    }
}

impl core::str::FromStr for GroupPath {
    type Err = Error;

    fn from_str(s: &str) -> (res: Result<GroupPath>)
        ensures
            match res {
                Ok(g) => valid_group(trim(s@, CharClass::Whitespace)) && g@ == trim(s@, CharClass::Whitespace),
                Err(e) => !valid_group(trim(s@, CharClass::Whitespace)) && e is Message
                    && e.text() == parse_error_text(trim(s@, CharClass::Whitespace)),
            },
    {
        GroupPath::parse(s)
    }
}

impl AsRef<str> for GroupPath {
    fn as_ref(&self) -> (r: &str)
        ensures
            r@ == self@,
    {
        self.name.as_str()
    }
}


// ------------------------------------------------------------------------
// Legacy task leaves
// ------------------------------------------------------------------------

/// Replacing a pattern with a shorter one never lengthens the text, and
/// shortens it when the pattern occurs.
pub proof fn lemma_replace_all_len(s: Seq<char>, p: Seq<char>, q: Seq<char>)
    requires
        p.len() > 0,
        q.len() < p.len(),
    ensures
        replace_all(s, p, q).len() <= s.len(),
        contains(s, p) ==> replace_all(s, p, q).len() < s.len(),
    decreases s.len(),
{
    if s.len() > 0 {
        if starts_with(s, p) {
            lemma_replace_all_len(s.skip(p.len() as int), p, q);
        } else {
            let t = s.drop_first();
            lemma_replace_all_len(t, p, q);
            if contains(s, p) {
                let i = choose|i: int| occurs_at(s, p, i);
                if i == 0 {
                    assert(starts_with(s, p));
                }
                assert(t.subrange(i - 1, i - 1 + p.len()) =~= s.subrange(i, i + p.len()));
                assert(occurs_at(t, p, i - 1));
            }
        }
    }
}

/// Drops one `task-` while the text starts with `task-task-`.
pub open spec fn strip_doubled_task(r: Seq<char>) -> Seq<char>
    decreases r.len(),
{
    if r.len() >= 10 && starts_with(r, "task-task-"@) {
        strip_doubled_task(r.skip(5))
    } else {
        r
    }
}

/// Replaces `task-task-` with `task-` until none is left.
pub open spec fn dedup_task(r: Seq<char>) -> Seq<char>
    decreases r.len(),
{
    if contains(r, "task-task-"@) {
        proof {
            reveal_strlit("task-task-");
            reveal_strlit("task-");
            lemma_replace_all_len(r, "task-task-"@, "task-"@);
        }
        dedup_task(replace_all(r, "task-task-"@, "task-"@))
    } else {
        r
    }
}

/// `r` with a `merge-task-` or `merge-` alias rewritten to `task-`.
pub open spec fn unalias_merge(r: Seq<char>) -> Seq<char> {
    if starts_with(r, "merge-task-"@) {
        "task-"@ + r.skip("merge-task-"@.len() as int)
    } else if starts_with(r, "merge-"@) {
        "task-"@ + r.skip("merge-"@.len() as int)
    } else {
        r
    }
}

/// Appends a sanitized slug to a task id, unless the slug sanitizes to nothing.
pub open spec fn with_slug(id: Seq<char>, slug: Option<Seq<char>>) -> Seq<char> {
    match slug {
        Some(s) => {
            let ss = sanitize(s);
            if ss.len() == 0 || ss == "unknown"@ {
                id
            } else {
                id + "-"@ + ss
            }
        },
        None => id,
    }
}

/// The view of an optional string slice.
pub open spec fn opt_str_view(o: Option<&str>) -> Option<Seq<char>> {
    match o {
        Some(s) => Some(s@),
        None => None,
    }
}

/// `normalize_task_leaf`.
pub open spec fn normalize_leaf(room: Seq<char>, slug: Option<Seq<char>>) -> Option<Seq<char>> {
    let r0 = sanitize(room);
    if r0.len() == 0 || r0 == "."@ || r0 == "general"@ || r0 == "overview"@ || r0 == "main"@ || r0
        == "tasks"@ {
        None
    } else {
        let r2 = strip_doubled_task(unalias_merge(r0));
        if starts_with(r2, "task-"@) && r2.len() > 5 {
            let d = dedup_task(r2);
            let id = if d.len() >= 5 {
                d.skip(5)
            } else {
                Seq::empty()
            };
            if id.len() > 0 && is_alnum(id[0]) {
                Some(with_slug(id, slug))
            } else {
                None
            }
        } else {
            None
        }
    }
}

/// A text made of token characters only.
pub open spec fn token_chars(s: Seq<char>) -> bool {
    forall|i: int| 0 <= i < s.len() ==> token_char(#[trigger] s[i])
}

proof fn lemma_token_chars_concat(a: Seq<char>, b: Seq<char>)
    requires
        token_chars(a),
        token_chars(b),
    ensures
        token_chars(a + b),
{
    assert forall|i: int| 0 <= i < (a + b).len() implies token_char(#[trigger] (a + b)[i]) by {
        if i < a.len() {
            assert((a + b)[i] == a[i]);
        } else {
            assert((a + b)[i] == b[i - a.len()]);
        }
    }
}

proof fn lemma_token_chars_skip(a: Seq<char>, k: int)
    requires
        token_chars(a),
        0 <= k <= a.len(),
    ensures
        token_chars(a.skip(k)),
{
    assert forall|i: int| 0 <= i < a.skip(k).len() implies token_char(#[trigger] a.skip(k)[i]) by {
        assert(a.skip(k)[i] == a[k + i]);
    }
}

proof fn lemma_replace_all_tokens(s: Seq<char>, p: Seq<char>, r: Seq<char>)
    requires
        token_chars(s),
        token_chars(r),
    ensures
        token_chars(replace_all(s, p, r)),
    decreases s.len(),
{
    if s.len() > 0 && p.len() > 0 {
        if starts_with(s, p) {
            lemma_token_chars_skip(s, p.len() as int);
            lemma_replace_all_tokens(s.skip(p.len() as int), p, r);
            lemma_token_chars_concat(r, replace_all(s.skip(p.len() as int), p, r));
        } else {
            lemma_token_chars_skip(s, 1);
            assert(s.drop_first() =~= s.skip(1));
            lemma_replace_all_tokens(s.drop_first(), p, r);
            assert(token_chars(seq![s[0]]));
            lemma_token_chars_concat(seq![s[0]], replace_all(s.drop_first(), p, r));
        }
    }
}

proof fn lemma_dedup_tokens(r: Seq<char>)
    requires
        token_chars(r),
    ensures
        token_chars(dedup_task(r)),
    decreases r.len(),
{
    reveal_strlit("task-task-");
    reveal_strlit("task-");
    if contains(r, "task-task-"@) {
        lemma_replace_all_len(r, "task-task-"@, "task-"@);
        assert(token_chars("task-"@));
        lemma_replace_all_tokens(r, "task-task-"@, "task-"@);
        lemma_dedup_tokens(replace_all(r, "task-task-"@, "task-"@));
    }
}

proof fn lemma_strip_doubled_tokens(r: Seq<char>)
    requires
        token_chars(r),
    ensures
        token_chars(strip_doubled_task(r)),
    decreases r.len(),
{
    if r.len() >= 10 && starts_with(r, "task-task-"@) {
        lemma_token_chars_skip(r, 5);
        lemma_strip_doubled_tokens(r.skip(5));
    }
}

/// A normalized task leaf is a non-empty run of token characters that
/// starts with a letter or digit; rooms that sanitize to `general`,
/// `overview`, `main` or `tasks` have none; and a slug only appends
/// `-<slug>` (when it sanitizes to something other than `unknown`) to the
/// leaf without a slug.
pub proof fn lemma_normalize_leaf(room: Seq<char>, slug: Seq<char>)
    ensures
        normalize_leaf(room, None) matches Some(x) ==> x.len() > 0 && is_alnum(x[0]) && token_chars(x),
        normalize_leaf(room, Some(slug)) matches Some(x) ==> x.len() > 0 && is_alnum(x[0]) && token_chars(x),
        sanitize(room) == "general"@ || sanitize(room) == "overview"@ || sanitize(room) == "main"@
            || sanitize(room) == "tasks"@ ==> normalize_leaf(room, Some(slug)) is None && normalize_leaf(room, None) is None,
        normalize_leaf(room, Some(slug)) == match normalize_leaf(room, None) {
            Some(id) => Some(if sanitize(slug) == "unknown"@ {
                id
            } else {
                id + "-"@ + sanitize(slug)
            }),
            None => None::<Seq<char>>,
        },
{
    reveal_strlit("task-");
    reveal_strlit("merge-task-");
    reveal_strlit("merge-");
    reveal_strlit("-");
    let r0 = sanitize(room);
    lemma_sanitize_is_token(room);
    lemma_sanitize_is_token(slug);
    assert(token_chars(r0));
    let r1 = unalias_merge(r0);
    assert(token_chars(r1)) by {
        assert(token_chars("task-"@));
        if starts_with(r0, "merge-task-"@) {
            lemma_token_chars_skip(r0, 11);
            lemma_token_chars_concat("task-"@, r0.skip(11));
        } else if starts_with(r0, "merge-"@) {
            lemma_token_chars_skip(r0, 6);
            lemma_token_chars_concat("task-"@, r0.skip(6));
        }
    }
    let r2 = strip_doubled_task(r1);
    lemma_strip_doubled_tokens(r1);
    let d = dedup_task(r2);
    lemma_dedup_tokens(r2);
    if d.len() >= 5 {
        lemma_token_chars_skip(d, 5);
    }
    let ss = sanitize(slug);
    assert(ss.len() > 0);
    assert(token_chars(ss));
    assert(token_chars("-"@));
    if d.len() >= 5 {
        let id = d.skip(5);
        lemma_token_chars_concat(id, "-"@);
        lemma_token_chars_concat(id + "-"@, ss);
        if id.len() > 0 {
            assert((id + "-"@ + ss)[0] == id[0]);
        }
    }
}

proof fn lemma_lower_concat(a: Seq<char>, b: Seq<char>)
    requires
        lower_chars(a),
        lower_chars(b),
    ensures
        lower_chars(a + b),
{
    assert forall|i: int| 0 <= i < (a + b).len() implies not_upper(#[trigger] (a + b)[i]) by {
        if i < a.len() {
            assert((a + b)[i] == a[i]);
        } else {
            assert((a + b)[i] == b[i - a.len()]);
        }
    }
}

proof fn lemma_lower_skip(a: Seq<char>, k: int)
    requires
        lower_chars(a),
        0 <= k <= a.len(),
    ensures
        lower_chars(a.skip(k)),
{
    assert forall|i: int| 0 <= i < a.skip(k).len() implies not_upper(#[trigger] a.skip(k)[i]) by {
        assert(a.skip(k)[i] == a[k + i]);
    }
}

proof fn lemma_replace_all_lower(s: Seq<char>, p: Seq<char>, r: Seq<char>)
    requires
        lower_chars(s),
        lower_chars(r),
    ensures
        lower_chars(replace_all(s, p, r)),
    decreases s.len(),
{
    if s.len() > 0 && p.len() > 0 {
        if starts_with(s, p) {
            lemma_lower_skip(s, p.len() as int);
            lemma_replace_all_lower(s.skip(p.len() as int), p, r);
            lemma_lower_concat(r, replace_all(s.skip(p.len() as int), p, r));
        } else {
            lemma_lower_skip(s, 1);
            assert(s.drop_first() =~= s.skip(1));
            lemma_replace_all_lower(s.drop_first(), p, r);
            assert(lower_chars(seq![s[0]]));
            lemma_lower_concat(seq![s[0]], replace_all(s.drop_first(), p, r));
        }
    }
}

proof fn lemma_dedup_lower(r: Seq<char>)
    requires
        lower_chars(r),
    ensures
        lower_chars(dedup_task(r)),
    decreases r.len(),
{
    reveal_strlit("task-task-");
    reveal_strlit("task-");
    if contains(r, "task-task-"@) {
        lemma_replace_all_len(r, "task-task-"@, "task-"@);
        assert(lower_chars("task-"@));
        lemma_replace_all_lower(r, "task-task-"@, "task-"@);
        lemma_dedup_lower(replace_all(r, "task-task-"@, "task-"@));
    }
}

proof fn lemma_strip_doubled_lower(r: Seq<char>)
    requires
        lower_chars(r),
    ensures
        lower_chars(strip_doubled_task(r)),
    decreases r.len(),
{
    if r.len() >= 10 && starts_with(r, "task-task-"@) {
        lemma_lower_skip(r, 5);
        lemma_strip_doubled_lower(r.skip(5));
    }
}

/// A task leaf built from sanitized texts without capitals has none.
proof fn lemma_normalize_leaf_lower(room: Seq<char>, slug: Option<Seq<char>>)
    requires
        lower_chars(sanitize(room)),
        slug matches Some(s) ==> lower_chars(sanitize(s)),
    ensures
        normalize_leaf(room, slug) matches Some(x) ==> lower_chars(x),
{
    reveal_strlit("task-");
    reveal_strlit("merge-task-");
    reveal_strlit("merge-");
    reveal_strlit("-");
    let r0 = sanitize(room);
    let r1 = unalias_merge(r0);
    assert(lower_chars(r1)) by {
        assert(lower_chars("task-"@));
        if starts_with(r0, "merge-task-"@) {
            lemma_lower_skip(r0, 11);
            lemma_lower_concat("task-"@, r0.skip(11));
        } else if starts_with(r0, "merge-"@) {
            lemma_lower_skip(r0, 6);
            lemma_lower_concat("task-"@, r0.skip(6));
        }
    }
    let r2 = strip_doubled_task(r1);
    lemma_strip_doubled_lower(r1);
    let d = dedup_task(r2);
    lemma_dedup_lower(r2);
    if d.len() >= 5 {
        let id = d.skip(5);
        lemma_lower_skip(d, 5);
        assert(lower_chars("-"@));
        if let Some(s) = slug {
            lemma_lower_concat(id, "-"@);
            lemma_lower_concat(id + "-"@, sanitize(s));
        }
    }
}

/// Normalize a legacy per-task room/leaf name to the `<id>-<slug>` form.
///
/// Accepts inputs produced by the previous `task-<id>` room naming and by
/// the older `merge-<id>` / `merge-task-<id>` aliases.
pub fn normalize_task_leaf(room: &str, slug: Option<&str>) -> (res: Option<String>)
    ensures
        match res {
            Some(r) => normalize_leaf(room@, opt_str_view(slug)) == Some(r@),
            None => normalize_leaf(room@, opt_str_view(slug)) is None,
        },
        res matches Some(r) ==> lower_chars(r@),
{
    proof {
        reveal_strlit("task-task-");
        reveal_strlit("task-");
        reveal_strlit("merge-task-");
        reveal_strlit("merge-");
    }
    let rv = chars_of(room);
    let r = sanitize_chars(&rv);
    if r.len() == 0 || chars_eq_str(&r, ".") || chars_eq_str(&r, "general") || chars_eq_str(
        &r,
        "overview",
    ) || chars_eq_str(&r, "main") || chars_eq_str(&r, "tasks") {
        return None;
    }
    let mut r = if has_prefix_str(&r, "merge-task-") {
        let mut t = chars_of("task-");
        let rest = slice_chars(&r, 11, r.len());
        extend_chars(&mut t, &rest);
        t
    } else if has_prefix_str(&r, "merge-") {
        let mut t = chars_of("task-");
        let rest = slice_chars(&r, 6, r.len());
        extend_chars(&mut t, &rest);
        t
    } else {
        r
    };
    let ghost r1 = r@;
    proof {
        assert(r1 == unalias_merge(sanitize(room@)));
    }
    while r.len() >= 10 && has_prefix_str(&r, "task-task-")
        invariant
            strip_doubled_task(r@) == strip_doubled_task(r1),
        decreases r@.len(),
    {
        r = slice_chars(&r, 5, r.len());
    }
    if !(has_prefix_str(&r, "task-") && r.len() > 5) {
        return None;
    }
    let ghost r2 = r@;
    let pat = chars_of("task-task-");
    let rep = chars_of("task-");
    while contains_chars(&r, &pat)
        invariant
            pat@ == "task-task-"@,
            rep@ == "task-"@,
            dedup_task(r@) == dedup_task(r2),
        decreases r@.len(),
    {
        proof {
            reveal_strlit("task-task-");
            reveal_strlit("task-");
            lemma_replace_all_len(r@, pat@, rep@);
        }
        r = replace_chars(&r, &pat, &rep);
    }
    proof {
        assert(dedup_task(r@) == r@);
    }
    if r.len() < 5 {
        return None;
    }
    let id = slice_chars(&r, 5, r.len());
    proof {
        assert(id@ =~= dedup_task(r2).skip(5));
    }
    if !(id.len() > 0 && char_is_alnum(id[0])) {
        return None;
    }
    let out = match slug {
        Some(s) => {
            let ss = sanitize_token(s);
            let sv = chars_of(ss.as_str());
            proof {
                lemma_normalize_leaf_lower(room@, opt_str_view(slug));
            }
            if sv.len() == 0 || chars_eq_str(&sv, "unknown") {
                id
            } else {
                let mut o = id;
                extend_str(&mut o, "-");
                extend_chars(&mut o, &sv);
                o
            }
        },
        None => {
            proof {
                lemma_normalize_leaf_lower(room@, opt_str_view(slug));
            }
            id
        },
    };
    Some(string_of(&out))
}


// ------------------------------------------------------------------------
// Laws of group paths
// ------------------------------------------------------------------------

pub(crate) proof fn lemma_has_ws_concat(a: Seq<char>, b: Seq<char>)
    ensures
        has_ws(a + b) == (has_ws(a) || has_ws(b)),
{
    let s = a + b;
    if has_ws(a) {
        let i = choose|i: int| 0 <= i < a.len() && is_ws(#[trigger] a[i]);
        assert(s[i] == a[i]);
    }
    if has_ws(b) {
        let i = choose|i: int| 0 <= i < b.len() && is_ws(#[trigger] b[i]);
        assert(s[a.len() + i] == b[i]);
    }
    if has_ws(s) {
        let i = choose|i: int| 0 <= i < s.len() && is_ws(#[trigger] s[i]);
        if i < a.len() {
            assert(s[i] == a[i]);
        } else {
            assert(s[i] == b[i - a.len()]);
        }
    }
}

pub(crate) proof fn lemma_token_no_ws(t: Seq<char>)
    requires
        is_token(t),
    ensures
        !has_ws(t),
{
    assert forall|i: int| 0 <= i < t.len() implies !is_ws(#[trigger] t[i]) by {
        assert(token_char(t[i]));
    }
}

proof fn lemma_join_no_ws(parts: Seq<Seq<char>>, sep: Seq<char>)
    requires
        !has_ws(sep),
        forall|i: int| 0 <= i < parts.len() ==> !has_ws(#[trigger] parts[i]),
    ensures
        !has_ws(join(parts, sep)),
    decreases parts.len(),
{
    if parts.len() > 1 {
        let p = parts.drop_last();
        assert forall|i: int| 0 <= i < p.len() implies !has_ws(#[trigger] p[i]) by {
            assert(p[i] == parts[i]);
        }
        lemma_join_no_ws(p, sep);
        lemma_has_ws_concat(join(p, sep), sep);
        lemma_has_ws_concat(join(p, sep) + sep, parts.last());
    } else if parts.len() == 1 {
        assert(!has_ws(parts[0]));
    } else {
        assert(!has_ws(Seq::<char>::empty()));
    }
}

pub(crate) proof fn lemma_prefix_starts(a: Seq<char>, b: Seq<char>)
    ensures
        starts_with(a + b, a),
{
    assert((a + b).subrange(0, a.len() as int) =~= a);
}

pub(crate) proof fn lemma_branch_no_ws(b: HierarchyBranch)
    ensures
        !has_ws(branch_name(b)),
{
    reveal_strlit("projects");
    reveal_strlit("agents");
    reveal_strlit("users");
    reveal_strlit("system");
    reveal_strlit("addressbook");
    let n = branch_name(b);
    assert forall|i: int| 0 <= i < n.len() implies !is_ws(#[trigger] n[i]) by {}
}

proof fn lemma_task_leaf_no_ws(task_id: Seq<char>, slug: Seq<char>)
    ensures
        !has_ws(task_leaf(task_id, slug)),
{
    let id = sanitize(strip_all_prefix(trim(task_id, CharClass::Whitespace), "task-"@));
    let s = sanitize(slug);
    lemma_sanitize_is_token(strip_all_prefix(trim(task_id, CharClass::Whitespace), "task-"@));
    lemma_sanitize_is_token(slug);
    lemma_token_no_ws(id);
    lemma_token_no_ws(s);
    reveal_strlit("-");
    assert(!has_ws("-"@));
    lemma_has_ws_concat(id, "-"@);
    lemma_has_ws_concat(id + "-"@, s);
}

/// Every path the helpers build is one that [`GroupPath::parse`] accepts
/// unchanged: it has an allowed root and no whitespace.
pub proof fn lemma_built_paths_valid(b: HierarchyBranch, name: Seq<char>, task_id: Seq<char>, slug: Seq<char>, segments: Seq<char>)
    ensures
        valid_group("monkeyking"@),
        valid_group(monkeyking_sub_name(segments)),
        valid_group(project_tasks_name(b, name)),
        valid_group(task_group_name(b, name, task_id, slug)),
{
    reveal_strlit("monkeyking");
    reveal_strlit("monkeyking.");
    reveal_strlit("mkd.");
    reveal_strlit("mkd.system.tasks");
    reveal_strlit("mkd.system.tasks.");
    reveal_strlit(".");
    reveal_strlit(".tasks");
    reveal_strlit(".tasks.");
    assert(!has_ws("monkeyking"@));
    assert(!has_ws("monkeyking."@));
    assert(!has_ws("mkd."@));
    assert(!has_ws("mkd.system.tasks"@));
    assert(!has_ws("mkd.system.tasks."@));
    assert(!has_ws("."@));
    assert(!has_ws(".tasks"@));
    assert(!has_ws(".tasks."@));
    assert(starts_with("monkeyking."@, "monkeyking."@)) by {
        assert("monkeyking."@.subrange(0, 11) =~= "monkeyking."@);
    }
    assert(starts_with("mkd.system.tasks"@, "mkd."@)) by {
        assert("mkd.system.tasks"@.subrange(0, 4) =~= "mkd."@);
    }
    assert(starts_with("mkd.system.tasks."@, "mkd."@)) by {
        assert("mkd.system.tasks."@.subrange(0, 4) =~= "mkd."@);
    }
    // monkeyking_sub
    let segs = trim(trim(segments, CharClass::Whitespace), CharClass::Dot);
    if segs.len() > 0 {
        let parts = split(segs, '.').map_values(|p: Seq<char>| sanitize(p));
        assert forall|i: int| 0 <= i < parts.len() implies !has_ws(#[trigger] parts[i]) by {
            lemma_sanitize_is_token(split(segs, '.')[i]);
            lemma_token_no_ws(parts[i]);
        }
        lemma_join_no_ws(parts, "."@);
        let j = join(parts, "."@);
        lemma_has_ws_concat("monkeyking."@, j);
        lemma_prefix_starts("monkeyking."@, j);
    }
    // project_tasks
    lemma_sanitize_is_token(name);
    lemma_token_no_ws(sanitize(name));
    lemma_branch_no_ws(b);
    let a = "mkd."@ + branch_name(b);
    lemma_has_ws_concat("mkd."@, branch_name(b));
    lemma_has_ws_concat(a, "."@);
    lemma_has_ws_concat(a + "."@, sanitize(name));
    lemma_has_ws_concat(a + "."@ + sanitize(name), ".tasks"@);
    lemma_has_ws_concat(a + "."@ + sanitize(name), ".tasks."@);
    lemma_task_leaf_no_ws(task_id, slug);
    let leaf = task_leaf(task_id, slug);
    lemma_has_ws_concat(a + "."@ + sanitize(name) + ".tasks."@, leaf);
    lemma_has_ws_concat("mkd.system.tasks."@, leaf);
    lemma_prefix_starts("mkd."@, branch_name(b));
    assert(starts_with(a + "."@ + sanitize(name) + ".tasks"@, "mkd."@)) by {
        assert((a + "."@ + sanitize(name) + ".tasks"@).subrange(0, 4) =~= a.subrange(0, 4));
    }
    assert(starts_with(a + "."@ + sanitize(name) + ".tasks."@ + leaf, "mkd."@)) by {
        assert((a + "."@ + sanitize(name) + ".tasks."@ + leaf).subrange(0, 4) =~= a.subrange(0, 4));
    }
    assert(starts_with("mkd.system.tasks."@ + leaf, "mkd."@)) by {
        assert(("mkd.system.tasks."@ + leaf).subrange(0, 4) =~= "mkd."@);
    }
}

/// Trimming twice is trimming once.
pub proof fn lemma_trim_idempotent(s: Seq<char>, cls: CharClass)
    ensures
        trim(trim(s, cls), cls) == trim(s, cls),
{
    let t = trim(s, cls);
    lemma_trim_piece(s, cls);
    if t.len() > 0 {
        crate::text::lemma_lead_count_is(t, cls, 0);
        assert(t.skip(0) =~= t);
        lemma_trail_zero(t, cls);
        assert(t.take(t.len() as int) =~= t);
    } else {
        assert(lead_count(t, cls) == 0);
        assert(t.skip(0) =~= t);
        assert(trail_count(t, cls) == 0);
    }
}

proof fn lemma_trail_zero(t: Seq<char>, cls: CharClass)
    requires
        t.len() > 0,
        !in_class(cls, t.last()),
    ensures
        trail_count(t, cls) == 0,
{
}

/// A parsed path parses again to itself.
pub proof fn lemma_parse_idempotent(s: Seq<char>)
    requires
        valid_group(trim(s, CharClass::Whitespace)),
    ensures
        valid_group(trim(trim(s, CharClass::Whitespace), CharClass::Whitespace)),
        trim(trim(s, CharClass::Whitespace), CharClass::Whitespace) == trim(s, CharClass::Whitespace),
{
    lemma_trim_idempotent(s, CharClass::Whitespace);
}

/// The living tasks container is never a legacy per-task child group.
pub proof fn lemma_project_tasks_not_legacy(b: HierarchyBranch, name: Seq<char>)
    ensures
        !legacy_task_child(project_tasks_name(b, name)),
{
    reveal_strlit(".tasks");
    reveal_strlit("mkd.system.tasks");
    let g = project_tasks_name(b, name);
    lemma_built_paths_valid(b, name, Seq::empty(), Seq::empty(), Seq::empty());
    lemma_has_ws_trim(g);
    assert(ends_with(g, ".tasks"@)) by {
        if b == HierarchyBranch::System {
            assert(g.subrange(g.len() - 6, g.len() as int) =~= ".tasks"@);
        } else {
            let a = "mkd."@ + branch_name(b) + "."@ + sanitize(name);
            assert(g == a + ".tasks"@);
            assert(g.subrange(g.len() - 6, g.len() as int) =~= ".tasks"@);
        }
    }
}

/// A text without whitespace is its own trim.
pub(crate) proof fn lemma_has_ws_trim(g: Seq<char>)
    requires
        !has_ws(g),
    ensures
        trim(g, CharClass::Whitespace) == g,
{
    if g.len() > 0 {
        assert(!is_ws(g[0]));
        crate::text::lemma_lead_count_is(g, CharClass::Whitespace, 0);
        assert(g.skip(0) =~= g);
        assert(!is_ws(g.last()));
        lemma_trail_zero(g, CharClass::Whitespace);
        assert(g.take(g.len() as int) =~= g);
    } else {
        assert(g.skip(0) =~= g);
        assert(g.take(0) =~= g);
    }
}

} // verus!
