//! Header maps, article and overview types.

use vstd::prelude::*;

use crate::path::GroupPath;
use crate::text::{
    chars_eq_ignore_case, chars_of, eq_ignore_case, extend_str, string_of,
};

verus! {

// ------------------------------------------------------------------------
// Key order
// ------------------------------------------------------------------------

/// Lexicographic order of header names by character (the order of `String`'s
/// `Ord`, since UTF-8 preserves code point order).
pub open spec fn key_lt(a: Seq<char>, b: Seq<char>) -> bool
    decreases a.len(),
{
    if a.len() == 0 {
        b.len() > 0
    } else if b.len() == 0 {
        false
    } else if a[0] != b[0] {
        a[0] < b[0]
    } else {
        key_lt(a.drop_first(), b.drop_first())
    }
}

pub proof fn lemma_key_lt_irreflexive(a: Seq<char>)
    ensures
        !key_lt(a, a),
    decreases a.len(),
{
    if a.len() > 0 {
        lemma_key_lt_irreflexive(a.drop_first());
    }
}

pub proof fn lemma_key_lt_asymmetric(a: Seq<char>, b: Seq<char>)
    ensures
        key_lt(a, b) ==> !key_lt(b, a),
    decreases a.len(),
{
    if a.len() > 0 && b.len() > 0 && a[0] == b[0] {
        lemma_key_lt_asymmetric(a.drop_first(), b.drop_first());
    }
}

pub proof fn lemma_key_lt_total(a: Seq<char>, b: Seq<char>)
    ensures
        a == b || key_lt(a, b) || key_lt(b, a),
    decreases a.len(),
{
    if a.len() > 0 && b.len() > 0 && a[0] == b[0] {
        lemma_key_lt_total(a.drop_first(), b.drop_first());
        if a.drop_first() == b.drop_first() {
            assert(a =~= seq![a[0]] + a.drop_first());
            assert(b =~= seq![b[0]] + b.drop_first());
        }
    }
}

pub proof fn lemma_key_lt_transitive(a: Seq<char>, b: Seq<char>, c: Seq<char>)
    requires
        key_lt(a, b),
        key_lt(b, c),
    ensures
        key_lt(a, c),
    decreases a.len(),
{
    if a.len() > 0 && b.len() > 0 && c.len() > 0 && a[0] == b[0] && b[0] == c[0] {
        lemma_key_lt_transitive(a.drop_first(), b.drop_first(), c.drop_first());
    }
}

/// `key_lt` on character vectors.
pub fn keys_less(a: &Vec<char>, b: &Vec<char>) -> (r: bool)
    ensures
        r == key_lt(a@, b@),
{
    let mut i: usize = 0;
    proof {
        assert(a@.skip(0) =~= a@);
        assert(b@.skip(0) =~= b@);
    }
    while i < a.len() && i < b.len() && a[i] == b[i]
        invariant
            i <= a.len(),
            i <= b.len(),
            key_lt(a@, b@) == key_lt(a@.skip(i as int), b@.skip(i as int)),
        decreases a.len() - i,
    {
        proof {
            assert(a@.skip(i as int).drop_first() =~= a@.skip(i + 1));
            assert(b@.skip(i as int).drop_first() =~= b@.skip(i + 1));
        }
        i += 1;
    }
    if i == a.len() {
        i < b.len()
    } else if i == b.len() {
        false
    } else {
        a[i] < b[i]
    }
}

// ------------------------------------------------------------------------
// Header maps
// ------------------------------------------------------------------------

/// The view of a header entry.
pub open spec fn entry_view(e: (String, String)) -> (Seq<char>, Seq<char>) {
    (e.0@, e.1@)
}

/// Header entries ordered strictly by name.
pub open spec fn sorted(s: Seq<(Seq<char>, Seq<char>)>) -> bool {
    forall|i: int, j: int| 0 <= i < j < s.len() ==> key_lt(#[trigger] s[i].0, #[trigger] s[j].0)
}

/// Inserting `(k, v)` into ordered entries: replaces the value of `k` when
/// present, else places the entry before the first larger name.
pub open spec fn insert_entry(s: Seq<(Seq<char>, Seq<char>)>, k: Seq<char>, v: Seq<char>) -> Seq<
    (Seq<char>, Seq<char>),
>
    decreases s.len(),
{
    if s.len() == 0 {
        seq![(k, v)]
    } else if s[0].0 == k {
        seq![(k, v)] + s.drop_first()
    } else if key_lt(k, s[0].0) {
        seq![(k, v)] + s
    } else {
        seq![s[0]] + insert_entry(s.drop_first(), k, v)
    }
}

/// The value of the first entry whose name equals `name` ignoring ASCII case.
pub open spec fn find_ignore_case(s: Seq<(Seq<char>, Seq<char>)>, name: Seq<char>) -> Option<
    Seq<char>,
>
    decreases s.len(),
{
    if s.len() == 0 {
        None
    } else if eq_ignore_case(s[0].0, name) {
        Some(s[0].1)
    } else {
        find_ignore_case(s.drop_first(), name)
    }
}

/// Header lines `Name: value\r\n` for every entry, in order.
pub open spec fn wire_of(s: Seq<(Seq<char>, Seq<char>)>) -> Seq<char>
    decreases s.len(),
{
    if s.len() == 0 {
        Seq::empty()
    } else {
        wire_of(s.drop_last()) + s.last().0 + ": "@ + s.last().1 + "\r\n"@
    }
}

/// An ordered map from header names to values (case-preserving names).
#[derive(Debug)]
pub struct HeaderMap {
    entries: Vec<(String, String)>,
}

impl View for HeaderMap {
    type V = Seq<(Seq<char>, Seq<char>)>;

    closed spec fn view(&self) -> Seq<(Seq<char>, Seq<char>)> {
        self.entries@.map_values(|e: (String, String)| entry_view(e))
    }
}

impl Clone for HeaderMap {
    /// A copy of this map (written out so that the copy keeps the order).
    fn clone(&self) -> (res: HeaderMap)
        ensures
            res@ == self@,
    {
        self.duplicate()
    }
}

impl HeaderMap {
    #[verifier::type_invariant]
    closed spec fn well_ordered(&self) -> bool {
        sorted(self@)
    }

    pub fn new() -> (res: HeaderMap)
        ensures
            res@ == Seq::<(Seq<char>, Seq<char>)>::empty(),
    {
        let res = HeaderMap { entries: Vec::new() };
        assert(res@ =~= Seq::<(Seq<char>, Seq<char>)>::empty());
        res
    }

    pub fn len(&self) -> (n: usize)
        ensures
            n == self@.len(),
    {
        self.entries.len()
    }

    /// The name of entry `i`.
    pub fn name_at(&self, i: usize) -> (r: &str)
        requires
            i < self@.len(),
        ensures
            r@ == self@[i as int].0,
    {
        self.entries[i].0.as_str()
    }

    /// The value of entry `i`.
    pub fn value_at(&self, i: usize) -> (r: &str)
        requires
            i < self@.len(),
        ensures
            r@ == self@[i as int].1,
    {
        self.entries[i].1.as_str()
    }

    /// A copy of this map.
    pub fn duplicate(&self) -> (res: HeaderMap)
        ensures
            res@ == self@,
            sorted(res@),
    {
        proof {
            use_type_invariant(self);
        }
        let mut out: Vec<(String, String)> = Vec::new();
        let mut i: usize = 0;
        while i < self.entries.len()
            invariant
                i <= self.entries.len(),
                out.len() == i,
                out@.map_values(|e: (String, String)| entry_view(e)) == self@.take(i as int),
            decreases self.entries.len() - i,
        {
            let k = self.entries[i].0.clone();
            let v = self.entries[i].1.clone();
            out.push((k, v));
            proof {
                assert(self@[i as int] == entry_view(self.entries@[i as int]));
                assert(out@[i as int] == (k, v));
                assert(out@.map_values(|e: (String, String)| entry_view(e)) =~= self@.take(
                    i + 1,
                ));
            }
            i += 1;
        }
        proof {
            assert(self@.take(i as int) =~= self@);
        }
        HeaderMap { entries: out }
    }

    /// Sets `name` to `value` (replacing the value of the same name).
    pub fn insert(&mut self, name: String, value: String)
        ensures
            final(self)@ == insert_entry(old(self)@, name@, value@),
            sorted(final(self)@),
    {
        proof {
            use_type_invariant(&*self);
        }
        let ghost s = self@;
        let kv = chars_of(name.as_str());
        let mut p: usize = 0;
        while p < self.entries.len() && keys_less(&chars_of(self.entries[p].0.as_str()), &kv)
            invariant
                p <= self.entries.len(),
                s == self@,
                sorted(s),
                kv@ == name@,
                forall|j: int| 0 <= j < p ==> key_lt(#[trigger] s[j].0, name@),
            decreases self.entries.len() - p,
        {
            p += 1;
        }
        proof {
            lemma_insert_at(s, name@, value@, p as int);
            lemma_insert_sorted(s, name@, value@);
        }
        let mut entries = Vec::new();
        std::mem::swap(&mut entries, &mut self.entries);
        let ghost old_entries = entries@;
        if p < entries.len() && chars_eq_str_string(&entries[p].0, &kv) {
            entries.set(p, (name, value));
            proof {
                assert(entries@.map_values(|e: (String, String)| entry_view(e)) =~= s.update(
                    p as int,
                    (kv@, value@),
                ));
            }
        } else {
            entries.insert(p, (name, value));
            proof {
                assert(entries@.map_values(|e: (String, String)| entry_view(e)) =~= s.insert(
                    p as int,
                    (kv@, value@),
                ));
            }
        }
        self.entries = entries;
    }

    /// The value of the first entry whose name equals `name` ignoring ASCII case.
    pub fn get_ignore_case(&self, name: &str) -> (r: Option<&str>)
        ensures
            match r {
                Some(v) => find_ignore_case(self@, name@) == Some(v@),
                None => find_ignore_case(self@, name@) is None,
            },
    {
        let nv = chars_of(name);
        let mut i: usize = 0;
        proof {
            assert(self@.skip(0) =~= self@);
        }
        while i < self.entries.len()
            invariant
                i <= self.entries.len(),
                nv@ == name@,
                find_ignore_case(self@, name@) == find_ignore_case(self@.skip(i as int), name@),
            decreases self.entries.len() - i,
        {
            proof {
                assert(self@.skip(i as int).drop_first() =~= self@.skip(i + 1));
                assert(self@.skip(i as int)[0] == self@[i as int]);
            }
            let k = chars_of(self.entries[i].0.as_str());
            if chars_eq_ignore_case(&k, &nv) {
                return Some(self.entries[i].1.as_str());
            }
            i += 1;
        }
        None
    }

    /// Header lines `Name: value\r\n` in name order.
    pub fn to_wire(&self) -> (res: String)
        ensures
            res@ == wire_of(self@),
    {
        let mut out: Vec<char> = Vec::new();
        let mut i: usize = 0;
        while i < self.entries.len()
            invariant
                i <= self.entries.len(),
                out@ == wire_of(self@.take(i as int)),
            decreases self.entries.len() - i,
        {
            proof {
                assert(self@.take(i + 1).drop_last() =~= self@.take(i as int));
            }
            extend_str(&mut out, self.entries[i].0.as_str());
            extend_str(&mut out, ": ");
            extend_str(&mut out, self.entries[i].1.as_str());
            extend_str(&mut out, "\r\n");
            i += 1;
        }
        proof {
            assert(self@.take(i as int) =~= self@);
        }
        string_of(&out)
    }
}

/// Whether the name `a` equals the characters `b`.
fn chars_eq_str_string(a: &String, b: &Vec<char>) -> (r: bool)
    ensures
        r == (a@ == b@),
{
    let av = chars_of(a.as_str());
    crate::text::chars_eq(&av, b)
}

/// Where the insertion lands, given the first position whose name is not smaller.
pub(crate) proof fn lemma_insert_at(s: Seq<(Seq<char>, Seq<char>)>, k: Seq<char>, v: Seq<char>, p: int)
    requires
        sorted(s),
        0 <= p <= s.len(),
        forall|j: int| 0 <= j < p ==> key_lt(#[trigger] s[j].0, k),
        p == s.len() || !key_lt(s[p].0, k),
    ensures
        insert_entry(s, k, v) == if p < s.len() && s[p].0 == k {
            s.update(p, (k, v))
        } else {
            s.insert(p, (k, v))
        },
    decreases p,
{
    if p == 0 {
        if s.len() > 0 && s[0].0 != k {
            lemma_key_lt_total(k, s[0].0);
        }
        if s.len() > 0 && s[0].0 == k {
            assert(s.update(0, (k, v)) =~= seq![(k, v)] + s.drop_first());
        } else {
            assert(s.insert(0, (k, v)) =~= seq![(k, v)] + s);
        }
    } else {
        assert(key_lt(s[0].0, k));
        lemma_key_lt_asymmetric(s[0].0, k);
        lemma_key_lt_irreflexive(k);
        let t = s.drop_first();
        assert forall|i: int, j: int| 0 <= i < j < t.len() implies key_lt(#[trigger] t[i].0, #[trigger] t[j].0) by {
            assert(t[i] == s[i + 1] && t[j] == s[j + 1]);
        }
        assert forall|j: int| 0 <= j < p - 1 implies key_lt(#[trigger] t[j].0, k) by {
            assert(t[j] == s[j + 1]);
        }
        lemma_insert_at(t, k, v, p - 1);
        if p < s.len() && s[p].0 == k {
            assert(s.update(p, (k, v)) =~= seq![s[0]] + t.update(p - 1, (k, v)));
        } else {
            assert(s.insert(p, (k, v)) =~= seq![s[0]] + t.insert(p - 1, (k, v)));
        }
    }
}

/// Inserting keeps the entries ordered.
pub proof fn lemma_insert_sorted(s: Seq<(Seq<char>, Seq<char>)>, k: Seq<char>, v: Seq<char>)
    requires
        sorted(s),
    ensures
        sorted(insert_entry(s, k, v)),
        forall|i: int|
            0 <= i < insert_entry(s, k, v).len() ==> (#[trigger] insert_entry(s, k, v)[i].0 == k
                || exists|j: int| 0 <= j < s.len() && s[j].0 == insert_entry(s, k, v)[i].0),
    decreases s.len(),
{
    let r = insert_entry(s, k, v);
    if s.len() == 0 {
    } else if s[0].0 == k {
        assert forall|i: int, j: int| 0 <= i < j < r.len() implies key_lt(#[trigger] r[i].0, #[trigger] r[j].0) by {
            assert(r[i].0 == s[i].0 && r[j].0 == s[j].0);
        }
        assert forall|i: int| 0 <= i < r.len() implies (#[trigger] r[i].0 == k || exists|j: int|
            0 <= j < s.len() && s[j].0 == r[i].0) by {
            assert(r[i].0 == s[i].0);
        }
    } else if key_lt(k, s[0].0) {
        assert forall|i: int, j: int| 0 <= i < j < r.len() implies key_lt(#[trigger] r[i].0, #[trigger] r[j].0) by {
            if i == 0 {
                if j > 1 {
                    lemma_key_lt_transitive(k, s[0].0, s[j - 1].0);
                }
            } else {
                assert(r[i] == s[i - 1] && r[j] == s[j - 1]);
            }
        }
        assert forall|i: int| 0 <= i < r.len() implies (#[trigger] r[i].0 == k || exists|j: int|
            0 <= j < s.len() && s[j].0 == r[i].0) by {
            if i > 0 {
                assert(r[i] == s[i - 1]);
            }
        }
    } else {
        let t = s.drop_first();
        assert forall|i: int, j: int| 0 <= i < j < t.len() implies key_lt(#[trigger] t[i].0, #[trigger] t[j].0) by {
            assert(t[i] == s[i + 1] && t[j] == s[j + 1]);
        }
        lemma_insert_sorted(t, k, v);
        let rt = insert_entry(t, k, v);
        lemma_key_lt_total(k, s[0].0);
        assert forall|i: int| 0 <= i < r.len() implies (#[trigger] r[i].0 == k || exists|j: int|
            0 <= j < s.len() && s[j].0 == r[i].0) by {
            if i == 0 {
                assert(s[0].0 == r[0].0);
            } else {
                assert(r[i] == rt[i - 1]);
                if rt[i - 1].0 != k {
                    let j = choose|j: int| 0 <= j < t.len() && t[j].0 == rt[i - 1].0;
                    assert(s[j + 1].0 == r[i].0);
                }
            }
        }
        assert forall|i: int, j: int| 0 <= i < j < r.len() implies key_lt(#[trigger] r[i].0, #[trigger] r[j].0) by {
            if i == 0 {
                assert(r[j] == rt[j - 1]);
                if rt[j - 1].0 == k {
                } else {
                    let m = choose|m: int| 0 <= m < t.len() && t[m].0 == rt[j - 1].0;
                    assert(t[m] == s[m + 1]);
                }
            } else {
                assert(r[i] == rt[i - 1] && r[j] == rt[j - 1]);
            }
        }
    }
}


// ------------------------------------------------------------------------
// Laws of header maps
// ------------------------------------------------------------------------

/// Reading a header right after setting it gives the value just set, when no
/// other header's name differs from it only in ASCII case.
pub proof fn lemma_get_after_set(s: Seq<(Seq<char>, Seq<char>)>, k: Seq<char>, v: Seq<char>)
    requires
        forall|j: int| 0 <= j < s.len() && eq_ignore_case(#[trigger] s[j].0, k) ==> s[j].0 == k,
    ensures
        find_ignore_case(insert_entry(s, k, v), k) == Some(v),
    decreases s.len(),
{
    let r = insert_entry(s, k, v);
    assert(eq_ignore_case(k, k));
    if s.len() == 0 || s[0].0 == k || key_lt(k, s[0].0) {
        assert(r[0] == (k, v));
    } else {
        let t = s.drop_first();
        assert forall|j: int| 0 <= j < t.len() && eq_ignore_case(#[trigger] t[j].0, k) implies t[j].0
            == k by {
            assert(t[j] == s[j + 1]);
        }
        lemma_get_after_set(t, k, v);
        assert(r.drop_first() =~= insert_entry(t, k, v));
        assert(!eq_ignore_case(s[0].0, k));
    }
}

/// Setting a header leaves the reading of every name that differs from it
/// beyond ASCII case unchanged.
pub proof fn lemma_set_keeps_others(
    s: Seq<(Seq<char>, Seq<char>)>,
    k: Seq<char>,
    v: Seq<char>,
    m: Seq<char>,
)
    requires
        !eq_ignore_case(k, m),
    ensures
        find_ignore_case(insert_entry(s, k, v), m) == find_ignore_case(s, m),
    decreases s.len(),
{
    let r = insert_entry(s, k, v);
    if s.len() == 0 {
        assert(r.drop_first() =~= Seq::<(Seq<char>, Seq<char>)>::empty());
        assert(find_ignore_case(r, m) == find_ignore_case(r.drop_first(), m));
    } else if s[0].0 == k {
        assert(!eq_ignore_case(s[0].0, m));
        assert(r.drop_first() =~= s.drop_first());
        assert(find_ignore_case(r, m) == find_ignore_case(r.drop_first(), m));
    } else if key_lt(k, s[0].0) {
        assert(r.drop_first() =~= s);
        assert(find_ignore_case(r, m) == find_ignore_case(r.drop_first(), m));
    } else {
        lemma_set_keeps_others(s.drop_first(), k, v, m);
        assert(r.drop_first() =~= insert_entry(s.drop_first(), k, v));
        assert(r[0] == s[0]);
    }
}

/// After setting `k`, a header named `k` (ignoring ASCII case) is present.
pub proof fn lemma_set_makes_present(s: Seq<(Seq<char>, Seq<char>)>, k: Seq<char>, v: Seq<char>)
    ensures
        find_ignore_case(insert_entry(s, k, v), k) is Some,
    decreases s.len(),
{
    let r = insert_entry(s, k, v);
    assert(eq_ignore_case(k, k));
    if s.len() == 0 || s[0].0 == k || key_lt(k, s[0].0) {
        assert(r[0] == (k, v));
    } else {
        lemma_set_makes_present(s.drop_first(), k, v);
        assert(r.drop_first() =~= insert_entry(s.drop_first(), k, v));
        assert(r[0] == s[0]);
    }
}

/// Setting a header never makes another header absent.
pub proof fn lemma_set_keeps_present(s: Seq<(Seq<char>, Seq<char>)>, k: Seq<char>, v: Seq<char>, m: Seq<char>)
    requires
        find_ignore_case(s, m) is Some,
    ensures
        find_ignore_case(insert_entry(s, k, v), m) is Some,
    decreases s.len(),
{
    let r = insert_entry(s, k, v);
    if s[0].0 == k {
        assert(r[0].0 == k);
        assert(r.drop_first() =~= s.drop_first());
    } else if key_lt(k, s[0].0) {
        assert(r[0].0 == k);
        assert(r.drop_first() =~= s);
    } else {
        assert(r[0] == s[0]);
        assert(r.drop_first() =~= insert_entry(s.drop_first(), k, v));
        if !eq_ignore_case(s[0].0, m) {
            lemma_set_keeps_present(s.drop_first(), k, v, m);
        }
    }
}

/// Setting the same header twice keeps only the second value.
pub proof fn lemma_set_twice(s: Seq<(Seq<char>, Seq<char>)>, k: Seq<char>, v1: Seq<char>, v2: Seq<char>)
    ensures
        insert_entry(insert_entry(s, k, v1), k, v2) == insert_entry(s, k, v2),
    decreases s.len(),
{
    let r1 = insert_entry(s, k, v1);
    if s.len() == 0 {
        assert(insert_entry(r1, k, v2) =~= seq![(k, v2)] + r1.drop_first());
    } else if s[0].0 == k {
        assert(r1.drop_first() =~= s.drop_first());
        assert(insert_entry(r1, k, v2) =~= insert_entry(s, k, v2));
    } else if key_lt(k, s[0].0) {
        assert(r1.drop_first() =~= s);
        assert(insert_entry(r1, k, v2) =~= insert_entry(s, k, v2));
    } else {
        lemma_set_twice(s.drop_first(), k, v1, v2);
        assert(r1.drop_first() =~= insert_entry(s.drop_first(), k, v1));
        assert(insert_entry(r1, k, v2) =~= insert_entry(s, k, v2));
    }
}

// ------------------------------------------------------------------------
// Post headers and article types
// ------------------------------------------------------------------------

/// Headers for a POST (case-preserving names; Newsgroups filled from the
/// group if absent).
#[derive(Debug, Clone)]
pub struct PostHeaders {
    /// Ordered header map (Subject, From, X-Mkd-Slot, …).
    pub fields: HeaderMap,
}

impl View for PostHeaders {
    type V = Seq<(Seq<char>, Seq<char>)>;

    open spec fn view(&self) -> Seq<(Seq<char>, Seq<char>)> {
        self.fields@
    }
}

impl PostHeaders {
    pub fn new() -> (res: PostHeaders)
        ensures
            res@ == Seq::<(Seq<char>, Seq<char>)>::empty(),
    {
        PostHeaders { fields: HeaderMap::new() }
    }

    /// These headers with `name` set to `value`.
    pub fn with(self, name: &str, value: &str) -> (res: PostHeaders)
        ensures
            res@ == insert_entry(self@, name@, value@),
    {
        let mut h = self;
        h.set(name, value);
        h
    }

    /// Sets `name` to `value` (an entry with exactly that name is replaced).
    pub fn set(&mut self, name: &str, value: &str)
        ensures
            final(self)@ == insert_entry(old(self)@, name@, value@),
    {
        self.fields.insert(string_of(&chars_of(name)), string_of(&chars_of(value)));
    }

    /// The value of the first header (in name order) whose name equals `name`
    /// ignoring ASCII case.
    pub fn get(&self, name: &str) -> (r: Option<&str>)
        ensures
            match r {
                Some(v) => find_ignore_case(self@, name@) == Some(v@),
                None => find_ignore_case(self@, name@) is None,
            },
    {
        self.fields.get_ignore_case(name)
    }

    /// Wire header block (no trailing blank line).
    pub fn to_wire(&self) -> (res: String)
        ensures
            res@ == wire_of(self@),
    {
        self.fields.to_wire()
    }

    /// A copy of these headers.
    pub fn duplicate(&self) -> (res: PostHeaders)
        ensures
            res@ == self@,
    {
        PostHeaders { fields: self.fields.duplicate() }
    }
}

impl Default for PostHeaders {
    /// No headers.
    fn default() -> (res: PostHeaders)
        ensures
            res@ == Seq::<(Seq<char>, Seq<char>)>::empty(),
    {
        PostHeaders::new()
    }
}

/// The view of an optional string.
pub open spec fn opt_view(o: Option<String>) -> Option<Seq<char>> {
    match o {
        Some(s) => Some(s@),
        None => None,
    }
}

/// Reference to a stored post after write or lookup.
#[derive(Debug, Clone, PartialEq, Eq)]
pub struct PostRef {
    pub message_id: String,
    pub group: GroupPath,
    pub slot: Option<String>,
    pub version: Option<u32>,
}

impl PostRef {
    /// A copy of this reference.
    pub fn duplicate(&self) -> (res: PostRef)
        ensures
            res.message_id@ == self.message_id@,
            res.group@ == self.group@,
            opt_view(res.slot) == opt_view(self.slot),
            res.version == self.version,
    {
        PostRef {
            message_id: self.message_id.clone(),
            group: self.group.duplicate(),
            slot: match &self.slot {
                Some(s) => Some(s.clone()),
                None => None,
            },
            version: self.version,
        }
    }
}

/// Full article payload.
#[derive(Debug, Clone)]
pub struct Article {
    pub post_ref: PostRef,
    pub headers: HeaderMap,
    pub body: String,
}

/// LIST ACTIVE-style group summary.
#[derive(Debug, Clone)]
pub struct GroupInfo {
    pub name: String,
    pub high: u64,
    pub low: u64,
    pub status: char,
}

/// XOVER row (subset).
#[derive(Debug, Clone)]
pub struct OverviewRow {
    pub number: u64,
    pub subject: String,
    pub from: String,
    pub date: String,
    pub message_id: String,
    pub bytes: u64,
    pub lines: u64,
}

/// Search hit from a backend that implements full-text search.
#[derive(Debug, Clone)]
pub struct SearchHit {
    pub message_id: String,
    pub group: String,
    pub subject: String,
    pub snippet: String,
}

} // verus!
