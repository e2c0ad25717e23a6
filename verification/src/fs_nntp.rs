//! Filesystem article layout under a storage root (bulk import / disaster
//! recovery). Not the default agent write path. The files themselves are
//! read and written by the host; this module decides names and contents.

use std::path::PathBuf;
use vstd::prelude::*;

use crate::error::{Error, Result};
use crate::path::GroupPath;
use crate::text::{
    chars_of, decimal, decimal_chars, eq_ignore_case, extend_chars, extend_str, has_suffix_str,
    matches_at, occurs_at, parse_uint, parse_unsigned, slice_chars, split, split_chars, string_of,
    trim, trim_chars, views, CharClass, find_char, first_index, ends_with,
};
use crate::types::{
    Article, HeaderMap, PostHeaders, PostRef, find_ignore_case, insert_entry, opt_view,
};

verus! {

/// `std::path::PathBuf`, carried through unchanged.
#[verifier::external_type_specification]
#[verifier::external_body]
pub struct ExPathBuf(PathBuf);

/// `PathBuf::clone`; nothing is stated of the copy.
pub assume_specification[ <PathBuf as Clone>::clone ](p: &PathBuf) -> PathBuf;

/// `Path::join`. Path syntax depends on the platform, so nothing is stated
/// of the result.
#[verifier::external_body]
fn path_join(base: &PathBuf, rel: &str) -> PathBuf {
    base.join(rel)
}

/// `chrono::Utc::now().to_rfc2822()`. It reads the clock, so only what
/// holds of every outcome is stated: the RFC 2822 form is one line.
#[verifier::external_body]
fn now_rfc2822() -> (res: String)
    ensures
        forall|j: int| 0 <= j < res@.len() ==> res@[j] != '\n' && res@[j] != '\r',
{
    chrono::Utc::now().to_rfc2822()
}

/// Writes articles under a root directory in the server's layout.
#[derive(Debug, Clone)]
pub struct FsNntpMemoryStore {
    root: PathBuf,
    operator_fqdn: String,
}

impl FsNntpMemoryStore {
    pub closed spec fn fqdn(&self) -> Seq<char> {
        self.operator_fqdn@
    }

    pub closed spec fn root_path(&self) -> PathBuf {
        self.root
    }

    /// A store under `root`; the operator FQDN is the configured value when
    /// it is set and non-empty, else `localhost`.
    pub fn new(root: PathBuf, configured_fqdn: Option<&str>) -> (res: FsNntpMemoryStore)
        ensures
            res.root_path() == root,
            res.fqdn() == match configured_fqdn {
                Some(f) => if f@.len() > 0 {
                    f@
                } else {
                    "localhost"@
                },
                None => "localhost"@,
            },
    {
        let fqdn = match configured_fqdn {
            Some(f) => if f.is_empty() {
                string_of(&chars_of("localhost"))
            } else {
                string_of(&chars_of(f))
            },
            None => string_of(&chars_of("localhost")),
        };
        FsNntpMemoryStore { root, operator_fqdn: fqdn }
    }

    pub fn with_operator_fqdn(self, fqdn: &str) -> (res: FsNntpMemoryStore)
        ensures
            res.fqdn() == fqdn@,
            res.root_path() == self.root_path(),
    {
        let mut s = self;
        s.operator_fqdn = string_of(&chars_of(fqdn));
        s
    }

    pub fn root(&self) -> (r: &PathBuf)
        ensures
            *r == self.root_path(),
    {
        &self.root
    }

    pub fn operator_fqdn(&self) -> (r: &str)
        ensures
            r@ == self.fqdn(),
    {
        self.operator_fqdn.as_str()
    }

    /// The directory of `group`: the root joined with [`GroupPath::fs_relative`].
    pub fn group_dir(&self, group: &GroupPath) -> PathBuf {
        let rel = group.fs_relative();
        path_join(&self.root, rel.as_str())
    }
}

// ------------------------------------------------------------------------
// Posting
// ------------------------------------------------------------------------

/// The slot a post goes to: its X-Mkd-Slot header, else `note`.
pub open spec fn fs_slot_of(h: Seq<(Seq<char>, Seq<char>)>) -> Seq<char> {
    match find_ignore_case(h, "X-Mkd-Slot"@) {
        Some(s) => s,
        None => "note"@,
    }
}

pub fn fs_slot(headers: &PostHeaders) -> (res: String)
    ensures
        res@ == fs_slot_of(headers@),
{
    match headers.get("X-Mkd-Slot") {
        Some(s) => string_of(&chars_of(s)),
        None => string_of(&chars_of("note")),
    }
}

/// The version a file name records: `<n>.md` with `n` a `u32`.
pub open spec fn file_version(name: Seq<char>) -> Option<nat> {
    if ends_with(name, ".md"@) && name.len() >= 3 {
        parse_unsigned(name.take(name.len() - 3), u32::MAX as nat)
    } else {
        None
    }
}

/// The largest recorded version among the file names (0 when none).
pub open spec fn max_version(names: Seq<Seq<char>>) -> nat
    decreases names.len(),
{
    if names.len() == 0 {
        0
    } else {
        let m = max_version(names.drop_last());
        match file_version(names.last()) {
            Some(n) => if n > m {
                n
            } else {
                m
            },
            None => m,
        }
    }
}

/// The views of a list of strings.
pub open spec fn name_views(v: Seq<String>) -> Seq<Seq<char>> {
    v.map_values(|s: String| s@)
}

/// Whether a slot holding files `names` has room for one more version.
pub fn version_room_left(names: &Vec<String>) -> (b: bool)
    ensures
        b == (max_version(name_views(names@)) < u32::MAX),
{
    let ghost ns = name_views(names@);
    let mut max: u32 = 0;
    let mut i: usize = 0;
    proof {
        assert(ns.take(0) =~= Seq::<Seq<char>>::empty());
    }
    while i < names.len()
        invariant
            i <= names.len(),
            ns == name_views(names@),
            max == max_version(ns.take(i as int)),
        decreases names.len() - i,
    {
        proof {
            assert(ns.take(i + 1).drop_last() =~= ns.take(i as int));
            assert(ns.take(i + 1).last() == names@[i as int]@);
        }
        let name = chars_of(names[i].as_str());
        if has_suffix_str(&name, ".md") && name.len() >= 3 {
            proof {
                reveal_strlit(".md");
            }
            let stem = slice_chars(&name, 0, name.len() - 3);
            match parse_uint(&stem, 0xffff_ffff) {
                Some(n) => {
                    if n as u32 > max {
                        max = n as u32;
                    }
                },
                None => {},
            }
        }
        i += 1;
    }
    proof {
        assert(ns.take(names.len() as int) =~= ns);
    }
    max < 0xffff_ffff
}

/// The next version in a slot directory holding files `names`: one past
/// the largest `<n>.md`.
pub fn next_version_from_names(names: &Vec<String>) -> (res: u32)
    requires
        max_version(name_views(names@)) < u32::MAX,
    ensures
        res == max_version(name_views(names@)) + 1,
{
    let ghost ns = name_views(names@);
    let mut max: u32 = 0;
    let mut i: usize = 0;
    proof {
        assert(ns.take(0) =~= Seq::<Seq<char>>::empty());
    }
    while i < names.len()
        invariant
            i <= names.len(),
            ns == name_views(names@),
            max == max_version(ns.take(i as int)),
        decreases names.len() - i,
    {
        proof {
            assert(ns.take(i + 1).drop_last() =~= ns.take(i as int));
            assert(ns.take(i + 1).last() == names@[i as int]@);
        }
        let name = chars_of(names[i].as_str());
        if has_suffix_str(&name, ".md") && name.len() >= 3 {
            proof {
                reveal_strlit(".md");
            }
            let stem = slice_chars(&name, 0, name.len() - 3);
            match parse_uint(&stem, 0xffff_ffff) {
                Some(n) => {
                    if n as u32 > max {
                        max = n as u32;
                    }
                },
                None => {},
            }
        }
        i += 1;
    }
    proof {
        assert(ns.take(names.len() as int) =~= ns);
    }
    max + 1
}

/// The names of the headers written in fixed order.
pub open spec fn is_fixed_header(k: Seq<char>) -> bool {
    ||| eq_ignore_case(k, "Newsgroups"@)
    ||| eq_ignore_case(k, "Message-ID"@)
    ||| eq_ignore_case(k, "Subject"@)
    ||| eq_ignore_case(k, "From"@)
    ||| eq_ignore_case(k, "Date"@)
    ||| eq_ignore_case(k, "X-Mkd-Loc"@)
    ||| eq_ignore_case(k, "X-Mkd-Slot"@)
    ||| eq_ignore_case(k, "X-Mkd-Version"@)
}

/// `Name: value\n` for every other header, in name order.
pub open spec fn extra_header_lines(h: Seq<(Seq<char>, Seq<char>)>) -> Seq<char>
    decreases h.len(),
{
    if h.len() == 0 {
        Seq::empty()
    } else {
        extra_header_lines(h.drop_last()) + if is_fixed_header(h.last().0) {
            Seq::empty()
        } else {
            h.last().0 + ": "@ + h.last().1 + "\n"@
        }
    }
}

/// The header value of `name`, or `default`.
pub open spec fn header_or(h: Seq<(Seq<char>, Seq<char>)>, name: Seq<char>, default: Seq<char>) -> Seq<char> {
    match find_ignore_case(h, name) {
        Some(v) => v,
        None => default,
    }
}

/// The Message-ID of a file post: the header's, else `<slot-vN@fqdn>`.
pub open spec fn fs_message_id(h: Seq<(Seq<char>, Seq<char>)>, slot: Seq<char>, version: u32, fqdn: Seq<char>) -> Seq<char> {
    header_or(h, "Message-ID"@, "<"@ + slot + "-v"@ + decimal(version as nat) + "@"@ + fqdn + ">"@)
}

/// The text of an article file.
pub open spec fn fs_article_text(
    group: Seq<char>,
    h: Seq<(Seq<char>, Seq<char>)>,
    body: Seq<char>,
    slot: Seq<char>,
    version: u32,
    message_id: Seq<char>,
    date: Seq<char>,
) -> Seq<char> {
    "Newsgroups: "@ + group + "\n"@
    + "Message-ID: "@ + message_id + "\n"@
    + "Subject: "@ + header_or(h, "Subject"@, "mkd post"@) + "\n"@
    + "From: "@ + header_or(h, "From"@, "mkd-agent <mkd-agent@localhost>"@) + "\n"@
    + "Date: "@ + date + "\n"@
    + "X-Mkd-Loc: "@ + group + "\n"@
    + "X-Mkd-Slot: "@ + slot + "\n"@
    + "X-Mkd-Version: "@ + decimal(version as nat) + "\n"@
    + extra_header_lines(h) + "\n"@ + body + if ends_with(body, "\n"@) {
        Seq::empty()
    } else {
        "\n"@
    }
}

fn is_fixed_header_name(k: &Vec<char>) -> (b: bool)
    ensures
        b == is_fixed_header(k@),
{
    let names: Vec<&str> = vec![
        "Newsgroups",
        "Message-ID",
        "Subject",
        "From",
        "Date",
        "X-Mkd-Loc",
        "X-Mkd-Slot",
        "X-Mkd-Version",
    ];
    let mut i: usize = 0;
    while i < names.len()
        invariant
            i <= names.len(),
            names@ == seq!["Newsgroups", "Message-ID", "Subject", "From", "Date", "X-Mkd-Loc", "X-Mkd-Slot", "X-Mkd-Version"],
            forall|j: int| 0 <= j < i ==> !eq_ignore_case(k@, (#[trigger] names@[j])@),
        decreases names.len() - i,
    {
        if crate::text::chars_eq_ignore_case(k, &chars_of(names[i])) {
            return true;
        }
        i += 1;
    }
    proof {
        assert(!eq_ignore_case(k@, names@[0]@));
        assert(!eq_ignore_case(k@, names@[1]@));
        assert(!eq_ignore_case(k@, names@[2]@));
        assert(!eq_ignore_case(k@, names@[3]@));
        assert(!eq_ignore_case(k@, names@[4]@));
        assert(!eq_ignore_case(k@, names@[5]@));
        assert(!eq_ignore_case(k@, names@[6]@));
        assert(!eq_ignore_case(k@, names@[7]@));
    }
    false
}

fn header_value_or(h: &PostHeaders, name: &str, default: &str) -> (r: Vec<char>)
    ensures
        r@ == header_or(h@, name@, default@),
{
    match h.get(name) {
        Some(v) => chars_of(v),
        None => chars_of(default),
    }
}

fn push_field(out: &mut Vec<char>, name: &str, value: &Vec<char>)
    ensures
        final(out)@ == old(out)@ + name@ + value@ + "\n"@,
{
    extend_str(out, name);
    extend_chars(out, value);
    extend_str(out, "\n");
}

impl FsNntpMemoryStore {
    /// The reference and file text of a post of `body` to `group`, stored as
    /// `version` of `slot`. The Date header is used when present, else the
    /// current time.
    pub fn render_post(&self, group: &GroupPath, headers: &PostHeaders, body: &str, slot: &str, version: u32) -> (res: (PostRef, String))
        ensures
            res.0.message_id@ == fs_message_id(headers@, slot@, version, self.fqdn()),
            res.0.group@ == group@,
            opt_view(res.0.slot) == Some(slot@),
            res.0.version == Some(version),
            match find_ignore_case(headers@, "Date"@) {
                Some(d) => res.1@ == fs_article_text(group@, headers@, body@, slot@, version, res.0.message_id@, d),
                None => exists|d: Seq<char>|
                    one_line(d) && res.1@ == fs_article_text(group@, headers@, body@, slot@, version, res.0.message_id@, d),
            },
            one_line(group@) && one_line(slot@) && one_line(res.0.message_id@) && fields_one_line(headers@)
                ==> split_file(res.1@).1 == body@ + if ends_with(body@, "\n"@) {
                Seq::empty()
            } else {
                "\n"@
            },
    {
        let vdigits = decimal_chars(version as u64);
        let message_id = match headers.get("Message-ID") {
            Some(m) => chars_of(m),
            None => {
                let mut v = chars_of("<");
                extend_str(&mut v, slot);
                extend_str(&mut v, "-v");
                extend_chars(&mut v, &vdigits);
                extend_str(&mut v, "@");
                extend_str(&mut v, self.operator_fqdn.as_str());
                extend_str(&mut v, ">");
                v
            },
        };
        let subject = header_value_or(headers, "Subject", "mkd post");
        let from = header_value_or(headers, "From", "mkd-agent <mkd-agent@localhost>");
        let date = match headers.get("Date") {
            Some(d) => chars_of(d),
            None => {
                let now = now_rfc2822();
                chars_of(now.as_str())
            },
        };
        assert(find_ignore_case(headers@, "Date"@) is None ==> one_line(date@));
        let g = chars_of(group.as_str());
        let sv = chars_of(slot);
        let mut out: Vec<char> = Vec::new();
        push_field(&mut out, "Newsgroups: ", &g);
        push_field(&mut out, "Message-ID: ", &message_id);
        push_field(&mut out, "Subject: ", &subject);
        push_field(&mut out, "From: ", &from);
        push_field(&mut out, "Date: ", &date);
        push_field(&mut out, "X-Mkd-Loc: ", &g);
        push_field(&mut out, "X-Mkd-Slot: ", &sv);
        push_field(&mut out, "X-Mkd-Version: ", &vdigits);
        let ghost fixed = out@;
        let ghost hv = headers@;
        let n = headers.fields.len();
        let mut i: usize = 0;
        proof {
            assert(hv.take(0) =~= Seq::<(Seq<char>, Seq<char>)>::empty());
            assert(out@ =~= fixed + extra_header_lines(hv.take(0)));
        }
        while i < n
            invariant
                i <= n,
                n == hv.len(),
                hv == headers@,
                out@ == fixed + extra_header_lines(hv.take(i as int)),
            decreases n - i,
        {
            proof {
                assert(hv.take(i + 1).drop_last() =~= hv.take(i as int));
                assert(hv.take(i + 1).last() == hv[i as int]);
            }
            let k = chars_of(headers.fields.name_at(i));
            if !is_fixed_header_name(&k) {
                extend_chars(&mut out, &k);
                extend_str(&mut out, ": ");
                extend_str(&mut out, headers.fields.value_at(i));
                extend_str(&mut out, "\n");
            }
            proof {
                assert(out@ =~= fixed + extra_header_lines(hv.take(i + 1)));
            }
            i += 1;
        }
        proof {
            assert(hv.take(n as int) =~= hv);
        }
        extend_str(&mut out, "\n");
        extend_str(&mut out, body);
        let bv = chars_of(body);
        if !has_suffix_str(&bv, "\n") {
            extend_str(&mut out, "\n");
        }
        let text = string_of(&out);
        let pref = PostRef {
            message_id: string_of(&message_id),
            group: group.duplicate(),
            slot: Some(string_of(&chars_of(slot))),
            version: Some(version),
        };
        proof {
            let t = fs_article_text(group@, headers@, body@, slot@, version, message_id@, date@);
            assert(text@ =~= t);
            lemma_render_read_back(group@, headers@, body@, slot@, version, message_id@, date@);
            match find_ignore_case(headers@, "Date"@) {
                Some(d) => {
                    assert(date@ == d);
                    assert(text@ == fs_article_text(group@, headers@, body@, slot@, version, pref.message_id@, d));
                },
                None => {
                    assert(text@ == fs_article_text(group@, headers@, body@, slot@, version, pref.message_id@, date@));
                    assert(exists|d: Seq<char>| text@ == fs_article_text(group@, headers@, body@, slot@, version, pref.message_id@, d));
                },
            }
        }
        (pref, text)
    }
}

// ------------------------------------------------------------------------
// Reading
// ------------------------------------------------------------------------

/// The slot and version of a stored post, which a file lookup needs.
pub fn fs_article_key(post: &PostRef) -> (res: Result<(String, u32)>)
    ensures
        match res {
            Ok((s, v)) => opt_view(post.slot) == Some(s@) && post.version == Some(v),
            Err(e) => e is Message && if post.slot is None {
                e.text() == "FsNntp get requires slot"@
            } else {
                post.version is None && e.text() == "FsNntp get requires version"@
            },
        },
{
    let slot = match &post.slot {
        Some(s) => s.clone(),
        None => return Err(Error::Message(string_of(&chars_of("FsNntp get requires slot")))),
    };
    let version = match post.version {
        Some(v) => v,
        None => return Err(Error::Message(string_of(&chars_of("FsNntp get requires version")))),
    };
    Ok((slot, version))
}

/// `<version>.md`, the file name of a stored version.
pub fn version_file_name(version: u32) -> (res: String)
    ensures
        res@ == decimal(version as nat) + ".md"@,
{
    let mut v = decimal_chars(version as u64);
    extend_str(&mut v, ".md");
    string_of(&v)
}

/// The next version is larger than every version already in the slot, so
/// a post never overwrites an earlier file.
pub proof fn lemma_next_version_is_new(names: Seq<Seq<char>>, i: int)
    requires
        0 <= i < names.len(),
        file_version(names[i]) is Some,
    ensures
        file_version(names[i])->0 <= max_version(names),
        file_version(names[i])->0 < max_version(names) + 1,
    decreases names.len(),
{
    if i < names.len() - 1 {
        lemma_next_version_is_new(names.drop_last(), i);
        assert(names.drop_last()[i] == names[i]);
    }
}

/// The file written for version `v` is read back as version `v`.
pub proof fn lemma_version_file_roundtrip(v: u32)
    ensures
        file_version(decimal(v as nat) + ".md"@) == Some(v as nat),
{
    reveal_strlit(".md");
    let n = decimal(v as nat) + ".md"@;
    crate::text::lemma_decimal_parses(v as nat, u32::MAX as nat);
    assert(n.subrange(n.len() - 3, n.len() as int) =~= ".md"@);
    assert(n.take(n.len() - 3) =~= decimal(v as nat));
}

/// Index of the first occurrence of `p` in `s`, or -1.
pub open spec fn find_pattern(s: Seq<char>, p: Seq<char>) -> int
    decreases s.len(),
{
    if occurs_at(s, p, 0) {
        0
    } else if s.len() == 0 {
        -1
    } else {
        let r = find_pattern(s.drop_first(), p);
        if r < 0 {
            -1
        } else {
            r + 1
        }
    }
}

/// The header part and body of a stored file: split at the first blank line.
pub open spec fn split_file(raw: Seq<char>) -> (Seq<char>, Seq<char>) {
    let k = find_pattern(raw, "\n\n"@);
    if k < 0 {
        (raw, Seq::empty())
    } else {
        (raw.take(k), raw.skip(k + 2))
    }
}

/// Headers read from the header part, one `Name: value` per line; later
/// lines win, lines without a colon are ignored. (A `\r` before the line
/// end falls to the value's trimming, as it does with `str::lines`.)
pub open spec fn file_headers(lines: Seq<Seq<char>>) -> Seq<(Seq<char>, Seq<char>)>
    decreases lines.len(),
{
    if lines.len() == 0 {
        Seq::empty()
    } else {
        let h = file_headers(lines.drop_last());
        let l = lines.last();
        let k = first_index(l, ':');
        if k < 0 {
            h
        } else {
            insert_entry(h, trim(l.take(k), CharClass::Whitespace), trim(l.skip(k + 1), CharClass::Whitespace))
        }
    }
}

proof fn lemma_find_pattern_is(s: Seq<char>, p: Seq<char>, i: int)
    requires
        0 <= i <= s.len(),
        forall|j: int| 0 <= j < i ==> !occurs_at(s, p, j),
        occurs_at(s, p, i) || (i == s.len() && !occurs_at(s, p, i)),
    ensures
        find_pattern(s, p) == if occurs_at(s, p, i) { i } else { -1 },
    decreases i,
{
    if i > 0 {
        assert(!occurs_at(s, p, 0));
        let t = s.drop_first();
        assert forall|j: int| 0 <= j < i - 1 implies !occurs_at(t, p, j) by {
            assert(!occurs_at(s, p, j + 1));
            if occurs_at(t, p, j) {
                assert(s.subrange(j + 1, j + 1 + p.len()) =~= t.subrange(j, j + p.len()));
                assert(occurs_at(s, p, j + 1));
            }
        }
        if occurs_at(s, p, i) {
            assert(t.subrange(i - 1, i - 1 + p.len()) =~= s.subrange(i, i + p.len()));
        } else {
            if occurs_at(t, p, i - 1) {
                assert(t.subrange(i - 1, i - 1 + p.len()) =~= s.subrange(i, i + p.len()));
            }
        }
        lemma_find_pattern_is(t, p, i - 1);
    }
}

/// The first position where `p` occurs in `v` (or `(false, v.len())`).
fn find_pattern_pos(v: &Vec<char>, p: &Vec<char>) -> (res: (bool, usize))
    ensures
        res.1 <= v.len(),
        res.0 ==> occurs_at(v@, p@, res.1 as int),
        !res.0 ==> res.1 == v.len(),
        forall|j: int| 0 <= j < res.1 ==> !occurs_at(v@, p@, j),
{
    let mut k: usize = 0;
    while k < v.len()
        invariant
            k <= v.len(),
            forall|j: int| 0 <= j < k ==> !occurs_at(v@, p@, j),
        decreases v.len() - k,
    {
        if matches_at(v, p, k) {
            return (true, k);
        }
        k += 1;
    }
    (false, k)
}

/// The article stored in a file, for the reference it was looked up by.
pub fn parse_fs_article(post: &PostRef, raw: &str) -> (res: Article)
    ensures
        res.headers@ == file_headers(split(split_file(raw@).0, '\n')),
        res.body@ == split_file(raw@).1,
        res.post_ref.message_id@ == post.message_id@,
        res.post_ref.group@ == post.group@,
        opt_view(res.post_ref.slot) == opt_view(post.slot),
        res.post_ref.version == post.version,
{
    proof {
        reveal_strlit("\n\n");
    }
    let rv = chars_of(raw);
    let pat = chars_of("\n\n");
    let (found, k) = find_pattern_pos(&rv, &pat);
    let (hdr, body) = if found {
        proof {
            lemma_find_pattern_is(rv@, pat@, k as int);
        }
        (slice_chars(&rv, 0, k), slice_chars(&rv, k + 2, rv.len()))
    } else {
        proof {
            assert(!occurs_at(rv@, pat@, rv@.len() as int));
            lemma_find_pattern_is(rv@, pat@, rv@.len() as int);
        }
        (slice_chars(&rv, 0, rv.len()), Vec::new())
    };
    proof {
        assert(hdr@ == split_file(raw@).0);
        assert(body@ =~= split_file(raw@).1);
    }
    let lines = split_chars(&hdr, '\n');
    let ghost ls = views(lines@);
    let mut headers = HeaderMap::new();
    let mut i: usize = 0;
    proof {
        assert(ls.take(0) =~= Seq::<Seq<char>>::empty());
    }
    while i < lines.len()
        invariant
            i <= lines.len(),
            ls == views(lines@),
            headers@ == file_headers(ls.take(i as int)),
        decreases lines.len() - i,
    {
        proof {
            assert(ls.take(i + 1).drop_last() =~= ls.take(i as int));
            assert(ls.take(i + 1).last() == lines@[i as int]@);
        }
        let l = &lines[i];
        match find_char(l, ':') {
            Some(c) => {
                proof {
                    crate::text::lemma_first_index(l@, ':');
                }
                let key = trim_chars(&slice_chars(l, 0, c), CharClass::Whitespace);
                let val = trim_chars(&slice_chars(l, c + 1, l.len()), CharClass::Whitespace);
                headers.insert(string_of(&key), string_of(&val));
            },
            None => {},
        }
        i += 1;
    }
    proof {
        assert(ls.take(lines.len() as int) =~= ls);
    }
    Article { post_ref: post.duplicate(), headers, body: string_of(&body) }
}


// ------------------------------------------------------------------------
// Reading back what was stored
// ------------------------------------------------------------------------

/// Header names and values without a line break.
pub open spec fn fields_one_line(h: Seq<(Seq<char>, Seq<char>)>) -> bool {
    forall|i: int| 0 <= i < h.len() ==> one_line(#[trigger] h[i].0) && one_line(h[i].1)
}

/// A text without a line break.
pub open spec fn one_line(s: Seq<char>) -> bool {
    forall|j: int| 0 <= j < s.len() ==> s[j] != '\n'
}

/// Lines that do not start with a line break and never hold two line
/// breaks in a row, ending in one.
spec fn lines_part(s: Seq<char>) -> bool {
    s.len() == 0 || (s[0] != '\n' && s.last() == '\n' && forall|j: int|
        0 <= j < s.len() - 1 ==> !(s[j] == '\n' && #[trigger] s[j + 1] == '\n'))
}

proof fn lemma_lines_part_concat(a: Seq<char>, b: Seq<char>)
    requires
        lines_part(a),
        lines_part(b),
    ensures
        lines_part(a + b),
{
    let c = a + b;
    if a.len() > 0 && b.len() > 0 {
        assert forall|j: int| 0 <= j < c.len() - 1 implies !(c[j] == '\n' && #[trigger] c[j + 1] == '\n') by {
            if j < a.len() - 1 {
                assert(c[j] == a[j] && c[j + 1] == a[j + 1]);
            } else if j == a.len() - 1 {
                assert(c[j] == a[j] && c[j + 1] == b[0]);
            } else {
                let jj = j - a.len();
                assert(c[j] == b[jj] && c[j + 1] == b[jj + 1]);
            }
        }
    } else if a.len() == 0 {
        assert(c =~= b);
    } else {
        assert(c =~= a);
    }
}

proof fn lemma_line_part(pre: Seq<char>, value: Seq<char>)
    requires
        one_line(pre),
        pre.len() > 0,
        one_line(value),
    ensures
        lines_part(pre + value + "\n"@),
{
    reveal_strlit("\n");
    let l = pre + value + "\n"@;
    assert forall|j: int| 0 <= j < l.len() - 1 implies l[j] != '\n' by {
        if j < pre.len() {
            assert(l[j] == pre[j]);
        } else {
            assert(l[j] == value[j - pre.len()]);
        }
    }
    assert(l[0] == pre[0]);
}

proof fn lemma_extra_lines_part(h: Seq<(Seq<char>, Seq<char>)>)
    requires
        fields_one_line(h),
    ensures
        lines_part(extra_header_lines(h)),
    decreases h.len(),
{
    if h.len() > 0 {
        lemma_extra_lines_part(h.drop_last());
        let e = h.last();
        assert(one_line(h[h.len() - 1].0));
        if is_fixed_header(e.0) {
            assert(extra_header_lines(h) =~= extra_header_lines(h.drop_last()));
        } else {
            reveal_strlit(": ");
            let pre = e.0 + ": "@;
            assert forall|j: int| 0 <= j < pre.len() implies pre[j] != '\n' by {
                if j < e.0.len() {
                    assert(pre[j] == e.0[j]);
                }
            }
            lemma_line_part(pre, e.1);
            lemma_lines_part_concat(extra_header_lines(h.drop_last()), pre + e.1 + "\n"@);
        }
    }
}

proof fn lemma_found_value(h: Seq<(Seq<char>, Seq<char>)>, name: Seq<char>)
    requires
        fields_one_line(h),
    ensures
        find_ignore_case(h, name) matches Some(v) ==> one_line(v),
    decreases h.len(),
{
    if h.len() > 0 {
        assert(one_line(h[0].1));
        assert forall|i: int| 0 <= i < h.drop_first().len() implies one_line(#[trigger] h.drop_first()[i].0)
            && one_line(h.drop_first()[i].1) by {
            assert(h.drop_first()[i] == h[i + 1]);
        }
        lemma_found_value(h.drop_first(), name);
    }
}

proof fn lemma_split_after_part(p: Seq<char>, rest: Seq<char>)
    requires
        lines_part(p),
        p.len() > 0,
        rest.len() > 0,
        rest[0] == '\n',
    ensures
        split_file(p + rest).1 == rest.skip(1),
{
    reveal_strlit("\n\n");
    let t = p + rest;
    let pat = "\n\n"@;
    let k = p.len() - 1;
    assert forall|j: int| 0 <= j < k implies !occurs_at(t, pat, j) by {
        if occurs_at(t, pat, j) {
            assert(t.subrange(j, j + 2)[0] == t[j] && t.subrange(j, j + 2)[1] == t[j + 1]);
            assert(t[j] == p[j] && t[j + 1] == p[j + 1]);
        }
    }
    assert(t[k] == p.last() && t[k + 1] == rest[0]);
    assert(t.subrange(k, k + 2) =~= pat);
    lemma_find_pattern_is(t, pat, k);
    assert(t.skip(k + 2) =~= rest.skip(1));
}

spec fn fixed_lines(
    group: Seq<char>,
    message_id: Seq<char>,
    subject: Seq<char>,
    from: Seq<char>,
    date: Seq<char>,
    slot: Seq<char>,
    vd: Seq<char>,
) -> Seq<char> {
    "Newsgroups: "@ + group + "\n"@
    + "Message-ID: "@ + message_id + "\n"@
    + "Subject: "@ + subject + "\n"@
    + "From: "@ + from + "\n"@
    + "Date: "@ + date + "\n"@
    + "X-Mkd-Loc: "@ + group + "\n"@
    + "X-Mkd-Slot: "@ + slot + "\n"@
    + "X-Mkd-Version: "@ + vd + "\n"@
}

proof fn lemma_fixed_lines_part(
    group: Seq<char>,
    message_id: Seq<char>,
    subject: Seq<char>,
    from: Seq<char>,
    date: Seq<char>,
    slot: Seq<char>,
    vd: Seq<char>,
)
    requires
        one_line(group),
        one_line(message_id),
        one_line(subject),
        one_line(from),
        one_line(date),
        one_line(slot),
        one_line(vd),
    ensures
        lines_part(fixed_lines(group, message_id, subject, from, date, slot, vd)),
{
    reveal_strlit("Newsgroups: ");
    reveal_strlit("Message-ID: ");
    reveal_strlit("Subject: ");
    reveal_strlit("From: ");
    reveal_strlit("Date: ");
    reveal_strlit("X-Mkd-Loc: ");
    reveal_strlit("X-Mkd-Slot: ");
    reveal_strlit("X-Mkd-Version: ");
    let l1 = "Newsgroups: "@ + group + "\n"@;
    let l2 = "Message-ID: "@ + message_id + "\n"@;
    let l3 = "Subject: "@ + subject + "\n"@;
    let l4 = "From: "@ + from + "\n"@;
    let l5 = "Date: "@ + date + "\n"@;
    let l6 = "X-Mkd-Loc: "@ + group + "\n"@;
    let l7 = "X-Mkd-Slot: "@ + slot + "\n"@;
    let l8 = "X-Mkd-Version: "@ + vd + "\n"@;
    lemma_line_part("Newsgroups: "@, group);
    lemma_line_part("Message-ID: "@, message_id);
    lemma_line_part("Subject: "@, subject);
    lemma_line_part("From: "@, from);
    lemma_line_part("Date: "@, date);
    lemma_line_part("X-Mkd-Loc: "@, group);
    lemma_line_part("X-Mkd-Slot: "@, slot);
    lemma_line_part("X-Mkd-Version: "@, vd);
    lemma_lines_part_concat(l1, l2);
    lemma_lines_part_concat(l1 + l2, l3);
    lemma_lines_part_concat(l1 + l2 + l3, l4);
    lemma_lines_part_concat(l1 + l2 + l3 + l4, l5);
    lemma_lines_part_concat(l1 + l2 + l3 + l4 + l5, l6);
    lemma_lines_part_concat(l1 + l2 + l3 + l4 + l5 + l6, l7);
    lemma_lines_part_concat(l1 + l2 + l3 + l4 + l5 + l6 + l7, l8);
    assert(fixed_lines(group, message_id, subject, from, date, slot, vd) =~= l1 + l2 + l3 + l4 + l5 + l6 + l7 + l8);
}

proof fn lemma_render_read_back(
    group: Seq<char>,
    h: Seq<(Seq<char>, Seq<char>)>,
    body: Seq<char>,
    slot: Seq<char>,
    version: u32,
    message_id: Seq<char>,
    date: Seq<char>,
)
    requires
        find_ignore_case(h, "Date"@) is None ==> one_line(date),
        find_ignore_case(h, "Date"@) matches Some(d) ==> date == d,
    ensures
        one_line(group) && one_line(slot) && one_line(message_id) && fields_one_line(h)
            ==> split_file(fs_article_text(group, h, body, slot, version, message_id, date)).1 == body
            + if ends_with(body, "\n"@) {
            Seq::empty()
        } else {
            "\n"@
        },
{
    if one_line(group) && one_line(slot) && one_line(message_id) && fields_one_line(h) {
        lemma_found_value(h, "Date"@);
        lemma_fs_body_read_back(group, h, body, slot, version, message_id, date);
    }
}

/// What a read of a stored post gives back: when no header field spans a
/// line break, the body read from the file is the body that was posted,
/// ending in a newline.
pub proof fn lemma_fs_body_read_back(
    group: Seq<char>,
    h: Seq<(Seq<char>, Seq<char>)>,
    body: Seq<char>,
    slot: Seq<char>,
    version: u32,
    message_id: Seq<char>,
    date: Seq<char>,
)
    requires
        one_line(group),
        one_line(message_id),
        one_line(date),
        one_line(slot),
        fields_one_line(h),
    ensures
        split_file(fs_article_text(group, h, body, slot, version, message_id, date)).1 == body + if ends_with(
            body,
            "\n"@,
        ) {
            Seq::empty()
        } else {
            "\n"@
        },
{
    let subject = header_or(h, "Subject"@, "mkd post"@);
    let from = header_or(h, "From"@, "mkd-agent <mkd-agent@localhost>"@);
    let vd = decimal(version as nat);
    assert(one_line(subject)) by {
        lemma_found_value(h, "Subject"@);
        reveal_strlit("mkd post");
    }
    assert(one_line(from)) by {
        lemma_found_value(h, "From"@);
        reveal_strlit("mkd-agent <mkd-agent@localhost>");
    }
    crate::text::lemma_decimal_parses(version as nat, version as nat);
    assert forall|j: int| 0 <= j < vd.len() implies vd[j] != '\n' by {
        assert(crate::text::is_digit(vd[j]));
    }
    let p = fixed_lines(group, message_id, subject, from, date, slot, vd) + extra_header_lines(h);
    lemma_fixed_lines_part(group, message_id, subject, from, date, slot, vd);
    lemma_extra_lines_part(h);
    lemma_lines_part_concat(fixed_lines(group, message_id, subject, from, date, slot, vd), extra_header_lines(h));
    let tail: Seq<char> = if ends_with(body, "\n"@) {
        Seq::empty()
    } else {
        "\n"@
    };
    let rest = "\n"@ + body + tail;
    reveal_strlit("\n");
    assert(fs_article_text(group, h, body, slot, version, message_id, date) =~= p + rest);
    lemma_split_after_part(p, rest);
    assert(rest.skip(1) =~= body + tail);
}

} // verus!
