//! The GCM (NNTP) client: endpoint parsing, authentication messages, and the
//! decisions of each protocol exchange. The socket work itself is done by
//! the host, which feeds server replies into these functions.

use base64::Engine;
use core::time::Duration;
use vstd::prelude::*;
use vstd::utf8::encode_utf8;

use vstd::string::StringSliceAdditionalSpecFns;
use vstd::utf8::{decode_utf8, encode_utf8_decode_utf8, is_char_boundary};

use crate::error::{Error, Result};
use crate::path::GroupPath;
use crate::text::{
    CharClass, all_digits, char_is_alnum, chars_of, extend_chars, extend_str, find_char,
    first_index, has_prefix_str, is_alnum, last_index, parse_uint, parse_unsigned, rfind_char,
    slice_chars, spec_to_lowercase, split, split_chars, starts_with, string_of, to_lowercase,
    trim, trim_chars, trim_end, trim_end_chars, views, words, words_of, eq_ignore_case,
    chars_eq_ignore_case,
};
use crate::path::{valid_group};
use crate::types::{
    Article, GroupInfo, HeaderMap, OverviewRow, PostHeaders, PostRef, find_ignore_case, insert_entry,
    opt_view, sorted, wire_of,
};

verus! {

// ------------------------------------------------------------------------
// Outside calls
// ------------------------------------------------------------------------

/// `Duration::from_secs`. Nothing is stated of the value.
#[verifier::external_body]
fn duration_from_secs(secs: u64) -> Duration {
    Duration::from_secs(secs)
}

/// `Duration` is `Copy`: its `clone` returns the same value.
pub assume_specification[ <Duration as Clone>::clone ](d: &Duration) -> (r: Duration)
    ensures
        r == *d,
;

/// The character of a 6-bit value in the standard Base64 alphabet.
pub open spec fn base64_digit(x: int) -> char {
    if x < 26 {
        (65 + x) as char
    } else if x < 52 {
        (97 + (x - 26)) as char
    } else if x < 62 {
        (48 + (x - 52)) as char
    } else if x == 62 {
        '+'
    } else {
        '/'
    }
}

/// The standard (RFC 4648, padded) Base64 encoding of `bytes`: each group of
/// three bytes gives four characters of six bits each, high bits first; a
/// last group of one or two bytes gives two or three characters, padded with
/// `=` to four.
pub open spec fn base64_standard(bytes: Seq<u8>) -> Seq<char>
    decreases bytes.len(),
{
    if bytes.len() == 0 {
        Seq::empty()
    } else if bytes.len() == 1 {
        let b0 = bytes[0] as int;
        seq![base64_digit(b0 / 4), base64_digit((b0 % 4) * 16), '=', '=']
    } else if bytes.len() == 2 {
        let b0 = bytes[0] as int;
        let b1 = bytes[1] as int;
        seq![
            base64_digit(b0 / 4),
            base64_digit((b0 % 4) * 16 + b1 / 16),
            base64_digit((b1 % 16) * 4),
            '=',
        ]
    } else {
        let b0 = bytes[0] as int;
        let b1 = bytes[1] as int;
        let b2 = bytes[2] as int;
        seq![
            base64_digit(b0 / 4),
            base64_digit((b0 % 4) * 16 + b1 / 16),
            base64_digit((b1 % 16) * 4 + b2 / 64),
            base64_digit(b2 % 64),
        ] + base64_standard(bytes.skip(3))
    }
}

/// A character of the standard Base64 alphabet, or the padding `=`.
pub open spec fn base64_char(c: char) -> bool {
    ||| ('A' <= c && c <= 'Z')
    ||| ('a' <= c && c <= 'z')
    ||| ('0' <= c && c <= '9')
    ||| c == '+'
    ||| c == '/'
    ||| c == '='
}

proof fn lemma_base64_digit(x: int)
    requires
        0 <= x < 64,
    ensures
        base64_char(base64_digit(x)),
{
}

/// The padded Base64 encoding has `4 * ceil(n / 3)` characters, each of the
/// standard alphabet or `=`.
pub proof fn lemma_base64_shape(bytes: Seq<u8>)
    ensures
        base64_standard(bytes).len() == 4 * ((bytes.len() + 2) / 3),
        forall|i: int|
            0 <= i < base64_standard(bytes).len() ==> base64_char(#[trigger] base64_standard(bytes)[i]),
    decreases bytes.len(),
{
    let e = base64_standard(bytes);
    if bytes.len() == 0 {
    } else if bytes.len() == 1 {
        let b0 = bytes[0] as int;
        lemma_base64_digit(b0 / 4);
        lemma_base64_digit((b0 % 4) * 16);
        assert forall|i: int| 0 <= i < e.len() implies base64_char(#[trigger] e[i]) by {}
    } else if bytes.len() == 2 {
        let b0 = bytes[0] as int;
        let b1 = bytes[1] as int;
        lemma_base64_digit(b0 / 4);
        lemma_base64_digit((b0 % 4) * 16 + b1 / 16);
        lemma_base64_digit((b1 % 16) * 4);
        assert forall|i: int| 0 <= i < e.len() implies base64_char(#[trigger] e[i]) by {}
    } else {
        let b0 = bytes[0] as int;
        let b1 = bytes[1] as int;
        let b2 = bytes[2] as int;
        lemma_base64_digit(b0 / 4);
        lemma_base64_digit((b0 % 4) * 16 + b1 / 16);
        lemma_base64_digit((b1 % 16) * 4 + b2 / 64);
        lemma_base64_digit(b2 % 64);
        let rest = bytes.skip(3);
        lemma_base64_shape(rest);
        let head = seq![
            base64_digit(b0 / 4),
            base64_digit((b0 % 4) * 16 + b1 / 16),
            base64_digit((b1 % 16) * 4 + b2 / 64),
            base64_digit(b2 % 64),
        ];
        assert(e == head + base64_standard(rest));
        assert forall|i: int| 0 <= i < e.len() implies base64_char(#[trigger] e[i]) by {
            if i >= 4 {
                assert(e[i] == base64_standard(rest)[i - 4]);
            }
        }
    }
}

/// Calls `base64::engine::general_purpose::STANDARD.encode`: the standard
/// alphabet with `=` padding, so the result is [`base64_standard`] of the
/// bytes. The engine panics when the encoded length overflows `usize`;
/// `requires` keeps such inputs out.
#[verifier::external_body]
fn base64_encode(bytes: &[u8]) -> (res: String)
    requires
        bytes@.len() <= usize::MAX / 2,
    ensures
        res@ == base64_standard(bytes@),
{
    base64::engine::general_purpose::STANDARD.encode(bytes)
}

// ------------------------------------------------------------------------
// UTF-8 length facts
// ------------------------------------------------------------------------

pub proof fn lemma_encode_utf8_concat(a: Seq<char>, b: Seq<char>)
    ensures
        encode_utf8(a + b) == encode_utf8(a) + encode_utf8(b),
    decreases a.len(),
{
    if a.len() > 0 {
        lemma_encode_utf8_concat(a.drop_first(), b);
        assert((a + b).drop_first() =~= a.drop_first() + b);
        assert(encode_utf8(a + b) =~= encode_utf8(a) + encode_utf8(b));
    } else {
        assert(a + b =~= b);
    }
}

pub proof fn lemma_encode_utf8_len(a: Seq<char>)
    ensures
        encode_utf8(a).len() <= 4 * a.len(),
    decreases a.len(),
{
    if a.len() > 0 {
        lemma_encode_utf8_len(a.drop_first());
    }
}

// ------------------------------------------------------------------------
// OAUTHBEARER
// ------------------------------------------------------------------------

/// The view of an optional string slice.
pub open spec fn opt_str(o: Option<&str>) -> Option<Seq<char>> {
    match o {
        Some(s) => Some(s@),
        None => None,
    }
}

/// RFC 7628 one-shot OAUTHBEARER initial response, before Base64:
/// `n,a=<authzid>,` (or `n,` without an authzid) `\x01auth=Bearer <token>\x01\x01`.
pub open spec fn oauthbearer_raw(authzid: Option<Seq<char>>, token: Seq<char>) -> Seq<char> {
    let gs2 = match authzid {
        Some(a) => if a.len() > 0 {
            "n,a="@ + a + ","@
        } else {
            "n,"@
        },
        None => "n,"@,
    };
    gs2 + "\u{1}auth=Bearer "@ + token + "\u{1}\u{1}"@
}

/// Length bound that keeps the encoding within `usize`.
pub open spec fn oauth_fits(authzid: Option<Seq<char>>, token: Seq<char>) -> bool {
    (match authzid {
        Some(a) => a.len(),
        None => 0,
    }) + token.len() <= usize::MAX / 16
}

/// The OAUTHBEARER initial response before Base64.
pub fn oauthbearer_message(authzid: Option<&str>, token: &str) -> (res: String)
    ensures
        res@ == oauthbearer_raw(opt_str(authzid), token@),
{
    let mut v = match authzid {
        Some(a) => {
            if a.is_empty() {
                chars_of("n,")
            } else {
                let mut g = chars_of("n,a=");
                extend_str(&mut g, a);
                extend_str(&mut g, ",");
                g
            }
        },
        None => chars_of("n,"),
    };
    extend_str(&mut v, "\u{1}auth=Bearer ");
    extend_str(&mut v, token);
    extend_str(&mut v, "\u{1}\u{1}");
    string_of(&v)
}

/// RFC 7628 one-shot OAUTHBEARER initial response (matches mkd-gcm-server):
/// the Base64 of [`oauthbearer_message`].
pub fn encode_oauthbearer_message(authzid: Option<&str>, token: &str) -> (res: String)
    requires
        oauth_fits(opt_str(authzid), token@),
    ensures
        res@ == base64_standard(encode_utf8(oauthbearer_raw(opt_str(authzid), token@))),
        res@.len() == 4 * ((encode_utf8(oauthbearer_raw(opt_str(authzid), token@)).len() + 2) / 3),
        forall|i: int| 0 <= i < res@.len() ==> base64_char(#[trigger] res@[i]),
{
    let raw = oauthbearer_message(authzid, token);
    proof {
        reveal_strlit("n,a=");
        reveal_strlit("n,");
        reveal_strlit(",");
        reveal_strlit("\u{1}auth=Bearer ");
        reveal_strlit("\u{1}\u{1}");
        lemma_encode_utf8_len(raw@);
        lemma_base64_shape(encode_utf8(raw@));
    }
    let bytes = raw.as_str().as_bytes();
    base64_encode(bytes)
}

// ------------------------------------------------------------------------
// The client
// ------------------------------------------------------------------------

/// Default `From:` mailbox.
pub open spec fn default_mailbox() -> Seq<char> {
    "mkd-agent <mkd-agent@localhost>"@
}

/// Blocking GCM client settings: endpoint, credentials and defaults.
#[derive(Debug, Clone)]
pub struct NntpMemoryStore {
    host: String,
    port: u16,
    /// AUTHINFO USER (optional).
    user: Option<String>,
    /// AUTHINFO PASS (optional).
    pass: Option<String>,
    /// Named PAT / session bearer for AUTHINFO SASL OAUTHBEARER.
    bearer_token: Option<String>,
    /// Optional authzid for the OAUTHBEARER GS2 header (e.g. email).
    bearer_authzid: Option<String>,
    /// Default From: mailbox if headers omit it.
    default_from: String,
    timeout: Duration,
}

/// The view of an optional string.
pub open spec fn opt_string(o: Option<String>) -> Option<Seq<char>> {
    match o {
        Some(s) => Some(s@),
        None => None,
    }
}

/// `host:port` as parsed from a URL.
pub open spec fn url_endpoint(url: Seq<char>) -> core::result::Result<(Seq<char>, u16), Seq<char>> {
    let s0 = trim(url, CharClass::Whitespace);
    let s1 = if starts_with(s0, "nntp://"@) {
        s0.skip(7)
    } else if starts_with(s0, "NNTP://"@) {
        s0.skip(7)
    } else {
        s0
    };
    let s = split(s1, '/')[0];
    let k = last_index(s, ':');
    let hp: core::result::Result<(Seq<char>, u16), Seq<char>> = if k >= 0 && all_digits(s.skip(k + 1)) {
        match parse_unsigned(s.skip(k + 1), 65535) {
            Some(n) => Ok((s.take(k), n as u16)),
            None => Err("bad NNTP port in "@ + url),
        }
    } else {
        Ok((s, 1119u16))
    };
    match hp {
        Ok((h, p)) => if h.len() == 0 {
            Err("empty NNTP host"@)
        } else {
            Ok((h, p))
        },
        Err(e) => Err(e),
    }
}

/// `host:port` for a host name and a port number.
pub open spec fn endpoint_text(host: Seq<char>, port: u16) -> Seq<char> {
    host + ":"@ + crate::text::decimal(port as nat)
}

proof fn lemma_trail_stops(y: Seq<char>, x: Seq<char>)
    ensures
        crate::text::trail_count(y + seq!['/'] + x, CharClass::Whitespace) <= x.len(),
    decreases x.len(),
{
    let w = y + seq!['/'] + x;
    if x.len() > 0 && crate::text::is_ws(x.last()) {
        assert(w.drop_last() =~= y + seq!['/'] + x.drop_last());
        lemma_trail_stops(y, x.drop_last());
    } else if x.len() > 0 {
        assert(w.last() == x.last());
    }
}

proof fn lemma_endpoint_facts(host: Seq<char>, port: u16)
    requires
        host.len() > 0,
        forall|j: int| 0 <= j < host.len() ==> #[trigger] host[j] != ':' && host[j] != '/',
        trim(host, CharClass::Whitespace) == host,
    ensures
        ({
            let u = endpoint_text(host, port);
            let d = crate::text::decimal(port as nat);
            &&& forall|j: int| 0 <= j < u.len() ==> #[trigger] u[j] != '/'
            &&& trim(u, CharClass::Whitespace) == u
            &&& !starts_with(u, "nntp://"@)
            &&& !starts_with(u, "NNTP://"@)
            &&& split(u, '/') == seq![u]
            &&& last_index(u, ':') == host.len()
            &&& u.skip(host.len() as int + 1) == d
            &&& u.take(host.len() as int) == host
            &&& all_digits(d)
            &&& parse_unsigned(d, 65535) == Some(port as nat)
            &&& u.len() > 0
            &&& !crate::text::is_ws(u.last())
            &&& u.len() > host.len()
            &&& u[host.len() as int] == ':'
        }),
{
    reveal_strlit(":");
    reveal_strlit("nntp://");
    reveal_strlit("NNTP://");
    let d = crate::text::decimal(port as nat);
    crate::text::lemma_decimal_parses(port as nat, 65535);
    let u = endpoint_text(host, port);
    let k = host.len() as int;
    assert(u[k] == ':');
    assert forall|j: int| 0 <= j < u.len() implies #[trigger] u[j] != '/' by {
        if j < k {
            assert(u[j] == host[j]);
        } else if j > k {
            assert(u[j] == d[j - k - 1]);
            assert(crate::text::is_digit(d[j - k - 1]));
        }
    }
    // No surrounding whitespace.
    let cls = CharClass::Whitespace;
    crate::text::lemma_lead_count_bound(host, cls);
    assert(host.skip(0) =~= host);
    assert(!crate::text::in_class(cls, host[0])) by {
        if crate::text::in_class(cls, host[0]) {
            assert(crate::text::lead_count(host, cls) >= 1);
            let y = host.skip(crate::text::lead_count(host, cls) as int);
            crate::text::lemma_trail_count_bound(y, cls);
            assert(trim(host, cls).len() < host.len());
        }
    }
    assert(u[0] == host[0]);
    crate::text::lemma_lead_count_is(u, cls, 0);
    assert(crate::text::is_digit(d[d.len() - 1]));
    assert(u.last() == d[d.len() - 1]);
    crate::text::lemma_trail_count_is(u, cls, 0);
    assert(u.skip(0) =~= u);
    assert(u.take(u.len() as int) =~= u);
    assert(trim(u, cls) == u);
    // No scheme.
    assert(!starts_with(u, "nntp://"@)) by {
        if starts_with(u, "nntp://"@) {
            assert(u.subrange(0, 7)[4] == ':');
            if k > 4 {
                assert(u[4] == host[4]);
            } else if k < 4 {
                assert(u.subrange(0, 7)[k] == u[k]);
            } else {
                assert(u.subrange(0, 7)[5] == u[5]);
                assert(u[5] == d[0]);
                assert(crate::text::is_digit(d[0]));
            }
        }
    }
    assert(!starts_with(u, "NNTP://"@)) by {
        if starts_with(u, "NNTP://"@) {
            assert(u.subrange(0, 7)[4] == ':');
            if k > 4 {
                assert(u[4] == host[4]);
            } else if k < 4 {
                assert(u.subrange(0, 7)[k] == u[k]);
            } else {
                assert(u.subrange(0, 7)[5] == u[5]);
                assert(u[5] == d[0]);
                assert(crate::text::is_digit(d[0]));
            }
        }
    }
    // The piece before any path, and its last colon.
    crate::text::lemma_last_index_is(u, '/', -1);
    assert(split(u, '/') == seq![u]);
    assert forall|j: int| k < j < u.len() implies #[trigger] u[j] != ':' by {
        assert(u[j] == d[j - k - 1]);
        assert(crate::text::is_digit(d[j - k - 1]));
    }
    crate::text::lemma_last_index_is(u, ':', k);
    assert(u.skip(k + 1) =~= d);
    assert(u.take(k) =~= host);
    assert(!crate::text::is_ws(u.last()));
}

proof fn lemma_url_scheme(host: Seq<char>, port: u16)
    requires
        host.len() > 0,
        forall|j: int| 0 <= j < host.len() ==> #[trigger] host[j] != ':' && host[j] != '/',
        trim(host, CharClass::Whitespace) == host,
    ensures
        url_endpoint("nntp://"@ + endpoint_text(host, port)) == Ok::<(Seq<char>, u16), Seq<char>>(
            (host, port),
        ),
{
    reveal_strlit("nntp://");
    lemma_endpoint_facts(host, port);
    let u = endpoint_text(host, port);
    let cls = CharClass::Whitespace;
    // With the scheme.
    let w = "nntp://"@ + u;
    assert forall|j: int| 0 <= j < 7 implies !crate::text::is_ws(#[trigger] w[j]) by {}
    crate::text::lemma_lead_count_is(w, cls, 0);
    assert(w.last() == u.last());
    crate::text::lemma_trail_count_is(w, cls, 0);
    assert(w.skip(0) =~= w);
    assert(w.take(w.len() as int) =~= w);
    assert(w.subrange(0, 7) =~= "nntp://"@);
    assert(w.skip(7) =~= u);
}

proof fn lemma_url_path(host: Seq<char>, port: u16, path: Seq<char>)
    requires
        host.len() > 0,
        forall|j: int| 0 <= j < host.len() ==> #[trigger] host[j] != ':' && host[j] != '/',
        trim(host, CharClass::Whitespace) == host,
    ensures
        url_endpoint("nntp://"@ + endpoint_text(host, port) + "/"@ + path) == Ok::<
            (Seq<char>, u16),
            Seq<char>,
        >((host, port)),
{
    reveal_strlit("nntp://");
    lemma_endpoint_facts(host, port);
    let u = endpoint_text(host, port);
    let cls = CharClass::Whitespace;
    // With the scheme and a path.
    reveal_strlit("/");
    let z = "nntp://"@ + u + seq!['/'] + path;
    assert("nntp://"@ + u + "/"@ + path =~= z);
    assert forall|j: int| 0 <= j < 7 implies !crate::text::is_ws(#[trigger] z[j]) by {}
    crate::text::lemma_lead_count_is(z, cls, 0);
    assert(z.skip(0) =~= z);
    lemma_trail_stops("nntp://"@ + u, path);
    let tc = crate::text::trail_count(z, cls);
    let z1 = z.take(z.len() - tc);
    let s1 = u + seq!['/'] + path.take(path.len() - tc);
    assert(z1 =~= "nntp://"@ + s1);
    assert(z1.subrange(0, 7) =~= "nntp://"@);
    assert(z1.skip(7) =~= s1);
    assert(s1[u.len() as int] == '/');
    assert forall|j: int| 0 <= j < u.len() implies #[trigger] s1[j] != '/' by {
        assert(s1[j] == u[j]);
    }
    crate::text::lemma_first_index_is(s1, '/', u.len() as int);
    crate::text::lemma_split_first(s1, '/');
    assert(s1.take(u.len() as int) =~= u);
    assert(trim(z, cls) == z1);
    assert(starts_with(z1, "nntp://"@));
    assert(split(z1.skip(7), '/')[0] == u);
    lemma_endpoint_of_piece(z, host, port);
}

/// `url_endpoint` of a URL whose piece before any path is `host:port`.
proof fn lemma_endpoint_of_piece(url: Seq<char>, host: Seq<char>, port: u16)
    requires
        host.len() > 0,
        forall|j: int| 0 <= j < host.len() ==> #[trigger] host[j] != ':' && host[j] != '/',
        trim(host, CharClass::Whitespace) == host,
        starts_with(trim(url, CharClass::Whitespace), "nntp://"@),
        split(trim(url, CharClass::Whitespace).skip(7), '/')[0] == endpoint_text(host, port),
    ensures
        url_endpoint(url) == Ok::<(Seq<char>, u16), Seq<char>>((host, port)),
{
    lemma_endpoint_facts(host, port);
}

proof fn lemma_url_bare(host: Seq<char>)
    requires
        host.len() > 0,
        forall|j: int| 0 <= j < host.len() ==> #[trigger] host[j] != ':' && host[j] != '/',
        trim(host, CharClass::Whitespace) == host,
    ensures
        url_endpoint(host) == Ok::<(Seq<char>, u16), Seq<char>>((host, 1119u16)),
{
    reveal_strlit("nntp://");
    reveal_strlit("NNTP://");
    // A bare host.
    assert(!starts_with(host, "nntp://"@)) by {
        if starts_with(host, "nntp://"@) {
            assert(host.subrange(0, 7)[4] == ':');
            assert(host[4] == host.subrange(0, 7)[4]);
        }
    }
    assert(!starts_with(host, "NNTP://"@)) by {
        if starts_with(host, "NNTP://"@) {
            assert(host.subrange(0, 7)[4] == ':');
            assert(host[4] == host.subrange(0, 7)[4]);
        }
    }
    crate::text::lemma_last_index_is(host, '/', -1);
    assert(split(host, '/') == seq![host]);
    crate::text::lemma_last_index_is(host, ':', -1);
}


/// An endpoint written as `host:port`, after `nntp://`, and followed by a
/// path, parses back to the same host and port; a bare host takes port
/// 1119. This holds for a host without a colon, a slash or surrounding
/// whitespace.
pub proof fn lemma_url_roundtrip(host: Seq<char>, port: u16, path: Seq<char>)
    requires
        host.len() > 0,
        forall|j: int| 0 <= j < host.len() ==> #[trigger] host[j] != ':' && host[j] != '/',
        trim(host, CharClass::Whitespace) == host,
    ensures
        url_endpoint(endpoint_text(host, port)) == Ok::<(Seq<char>, u16), Seq<char>>((host, port)),
        url_endpoint("nntp://"@ + endpoint_text(host, port)) == Ok::<(Seq<char>, u16), Seq<char>>(
            (host, port),
        ),
        url_endpoint("nntp://"@ + endpoint_text(host, port) + "/"@ + path) == Ok::<
            (Seq<char>, u16),
            Seq<char>,
        >((host, port)),
        url_endpoint(host) == Ok::<(Seq<char>, u16), Seq<char>>((host, 1119u16)),
{
    lemma_endpoint_facts(host, port);
    lemma_url_scheme(host, port);
    lemma_url_path(host, port, path);
    lemma_url_bare(host);
}

fn clone_opt_exact(o: &Option<String>) -> (r: Option<String>)
    ensures
        r == *o,
{
    match o {
        Some(s) => Some(s.clone()),
        None => None,
    }
}

impl NntpMemoryStore {
    pub closed spec fn host_name(&self) -> Seq<char> {
        self.host@
    }

    pub closed spec fn port_number(&self) -> u16 {
        self.port
    }

    pub closed spec fn user_name(&self) -> Option<Seq<char>> {
        opt_string(self.user)
    }

    pub closed spec fn password(&self) -> Option<Seq<char>> {
        opt_string(self.pass)
    }

    pub closed spec fn token(&self) -> Option<Seq<char>> {
        opt_string(self.bearer_token)
    }

    pub closed spec fn authzid(&self) -> Option<Seq<char>> {
        opt_string(self.bearer_authzid)
    }

    pub closed spec fn from_mailbox(&self) -> Seq<char> {
        self.default_from@
    }

    pub closed spec fn timeout_value(&self) -> Duration {
        self.timeout
    }

    /// A copy of these settings.
    pub fn duplicate(&self) -> (res: NntpMemoryStore)
        ensures
            res == *self,
    {
        NntpMemoryStore {
            host: self.host.clone(),
            port: self.port,
            user: clone_opt_exact(&self.user),
            pass: clone_opt_exact(&self.pass),
            bearer_token: clone_opt_exact(&self.bearer_token),
            bearer_authzid: clone_opt_exact(&self.bearer_authzid),
            default_from: self.default_from.clone(),
            timeout: self.timeout.clone(),
        }
    }

    /// A client for `host:port` with no credentials, the default `From:`
    /// mailbox and a 15 second timeout.
    pub fn new(host: &str, port: u16) -> (res: NntpMemoryStore)
        ensures
            res.host_name() == host@,
            res.port_number() == port,
            res.user_name() is None,
            res.password() is None,
            res.token() is None,
            res.authzid() is None,
            res.from_mailbox() == default_mailbox(),
    {
        NntpMemoryStore {
            host: string_of(&chars_of(host)),
            port,
            user: None,
            pass: None,
            bearer_token: None,
            bearer_authzid: None,
            default_from: string_of(&chars_of("mkd-agent <mkd-agent@localhost>")),
            timeout: duration_from_secs(15),
        }
    }

    /// Parse `host:port`, `nntp://host:port`, or bare host (port 1119).
    ///
    /// Host may be a DNS name or an IP; resolution happens at connect time.
    pub fn from_url(url: &str) -> (res: Result<NntpMemoryStore>)
        ensures
            match res {
                Ok(s) => url_endpoint(url@) == Ok::<(Seq<char>, u16), Seq<char>>(
                    (s.host_name(), s.port_number()),
                ) && s.user_name() is None && s.password() is None && s.token() is None
                    && s.authzid() is None && s.from_mailbox() == default_mailbox(),
                Err(e) => e is Config && url_endpoint(url@) == Err::<(Seq<char>, u16), Seq<char>>(
                    e.text(),
                ),
            },
    {
        proof {
            reveal_strlit("nntp://");
            reveal_strlit("NNTP://");
        }
        let v = chars_of(url);
        let s0 = trim_chars(&v, CharClass::Whitespace);
        let s1 = if has_prefix_str(&s0, "nntp://") {
            slice_chars(&s0, 7, s0.len())
        } else if has_prefix_str(&s0, "NNTP://") {
            slice_chars(&s0, 7, s0.len())
        } else {
            s0
        };
        let pieces = split_chars(&s1, '/');
        proof {
            crate::text::lemma_split_len(s1@, '/');
            assert(views(pieces@)[0] == pieces@[0]@);
        }
        let s = slice_chars(&pieces[0], 0, pieces[0].len());
        proof {
            assert(s@ =~= split(s1@, '/')[0]);
        }
        let (host, port): (Vec<char>, u16) = match rfind_char(&s, ':') {
            Some(k) => {
                proof {
                    crate::text::lemma_last_index(s@, ':');
                }
                let p = slice_chars(&s, k + 1, s.len());
                let mut all = true;
                let mut i: usize = 0;
                while i < p.len()
                    invariant
                        i <= p.len(),
                        all == (forall|j: int| 0 <= j < i ==> crate::text::is_digit(#[trigger] p@[j])),
                    decreases p.len() - i,
                {
                    if !crate::text::char_is_digit(p[i]) {
                        all = false;
                    }
                    i += 1;
                }
                proof {
                    assert(p@ =~= s@.skip(k + 1));
                }
                if all {
                    match parse_uint(&p, 65535) {
                        Some(n) => (slice_chars(&s, 0, k), n as u16),
                        None => {
                            let mut msg = chars_of("bad NNTP port in ");
                            extend_str(&mut msg, url);
                            return Err(Error::Config(string_of(&msg)));
                        },
                    }
                } else {
                    (s, 1119)
                }
            },
            None => (s, 1119),
        };
        if host.len() == 0 {
            return Err(Error::Config(string_of(&chars_of("empty NNTP host"))));
        }
        let mut store = NntpMemoryStore::new("", port);
        store.host = string_of(&host);
        Ok(store)
    }

    /// These settings with AUTHINFO USER/PASS credentials.
    pub fn with_auth(self, user: &str, pass: &str) -> (res: NntpMemoryStore)
        ensures
            res.user_name() == Some(user@),
            res.password() == Some(pass@),
            res.host_name() == self.host_name(),
            res.port_number() == self.port_number(),
            res.token() == self.token(),
            res.authzid() == self.authzid(),
            res.from_mailbox() == self.from_mailbox(),
            res.timeout_value() == self.timeout_value(),
    {
        let mut s = self;
        s.user = Some(string_of(&chars_of(user)));
        s.pass = Some(string_of(&chars_of(pass)));
        s
    }

    /// Authenticate with a membership session token or named PAT (OAUTHBEARER).
    pub fn with_bearer_token(self, token: &str) -> (res: NntpMemoryStore)
        ensures
            res.token() == Some(token@),
            res.user_name() == self.user_name(),
            res.password() == self.password(),
            res.host_name() == self.host_name(),
            res.port_number() == self.port_number(),
            res.authzid() == self.authzid(),
            res.from_mailbox() == self.from_mailbox(),
            res.timeout_value() == self.timeout_value(),
    {
        let mut s = self;
        s.bearer_token = Some(string_of(&chars_of(token)));
        s
    }

    /// Optional authzid (e.g. submitter or service email) for OAUTHBEARER GS2.
    pub fn with_bearer_authzid(self, authzid: &str) -> (res: NntpMemoryStore)
        ensures
            res.authzid() == Some(authzid@),
            res.token() == self.token(),
            res.user_name() == self.user_name(),
            res.password() == self.password(),
            res.host_name() == self.host_name(),
            res.port_number() == self.port_number(),
            res.from_mailbox() == self.from_mailbox(),
            res.timeout_value() == self.timeout_value(),
    {
        let mut s = self;
        s.bearer_authzid = Some(string_of(&chars_of(authzid)));
        s
    }

    /// These settings with another default `From:` mailbox.
    pub fn with_default_from(self, from: &str) -> (res: NntpMemoryStore)
        ensures
            res.from_mailbox() == from@,
            res.authzid() == self.authzid(),
            res.token() == self.token(),
            res.user_name() == self.user_name(),
            res.password() == self.password(),
            res.host_name() == self.host_name(),
            res.port_number() == self.port_number(),
            res.timeout_value() == self.timeout_value(),
    {
        let mut s = self;
        s.default_from = string_of(&chars_of(from));
        s
    }

    /// These settings with another socket timeout.
    pub fn with_timeout(self, timeout: Duration) -> (res: NntpMemoryStore)
        ensures
            res.timeout_value() == timeout,
            res.from_mailbox() == self.from_mailbox(),
            res.authzid() == self.authzid(),
            res.token() == self.token(),
            res.user_name() == self.user_name(),
            res.password() == self.password(),
            res.host_name() == self.host_name(),
            res.port_number() == self.port_number(),
    {
        let mut s = self;
        s.timeout = timeout;
        s
    }

    pub fn host(&self) -> (r: &str)
        ensures
            r@ == self.host_name(),
    {
        self.host.as_str()
    }

    pub fn port(&self) -> (r: u16)
        ensures
            r == self.port_number(),
    {
        self.port
    }

    /// The socket timeout.
    pub fn timeout(&self) -> (r: Duration)
        ensures
            r == self.timeout_value(),
    {
        self.timeout
    }

    /// The default `From:` mailbox.
    pub fn default_from(&self) -> (r: &str)
        ensures
            r@ == self.from_mailbox(),
    {
        self.default_from.as_str()
    }
}


// ------------------------------------------------------------------------
// Replies
// ------------------------------------------------------------------------

/// Whether a reply line starts with the status `code` and a space.
pub open spec fn reply_is(reply: Seq<char>, code: Seq<char>) -> bool {
    starts_with(reply, code + " "@)
}

/// Whether `reply` starts with `code` followed by a space.
pub fn reply_has_code(reply: &str, code: &str) -> (b: bool)
    ensures
        b == reply_is(reply@, code@),
{
    let r = chars_of(reply);
    let mut c = chars_of(code);
    c.push(' ');
    proof {
        reveal_strlit(" ");
        assert(c@ =~= code@ + " "@);
    }
    crate::text::has_prefix(&r, &c)
}

/// `prefix` followed by `rest`, as a `String`.
fn concat_str(prefix: &str, rest: &str) -> (res: String)
    ensures
        res@ == prefix@ + rest@,
{
    let mut v = chars_of(prefix);
    extend_str(&mut v, rest);
    string_of(&v)
}

// ------------------------------------------------------------------------
// Connection handshake
// ------------------------------------------------------------------------

/// The reply the client is waiting for during the handshake.
#[derive(Debug, Clone, Copy, PartialEq, Eq, Structural)]
pub enum HandshakeStep {
    /// The server greeting.
    Greeting,
    /// The reply to `MODE READER`.
    ModeReader,
    /// The reply to `AUTHINFO SASL OAUTHBEARER`.
    Bearer,
    /// The reply to `AUTHINFO USER`.
    User,
    /// The reply to `AUTHINFO PASS`.
    Pass,
}

/// What the client does after a handshake reply.
#[derive(Debug)]
pub enum HandshakeAction {
    /// Send the command line, then wait for the reply of the given step.
    Send(String, HandshakeStep),
    /// The session is ready for commands.
    Ready,
}

/// The handshake outcome, on views.
pub enum HandshakeOutcome {
    Send(Seq<char>, HandshakeStep),
    Ready,
    Fail(Seq<char>),
}

/// The command that follows an accepted `MODE READER`: OAUTHBEARER when a
/// bearer token is set, else USER/PASS when both are set, else nothing.
pub open spec fn auth_outcome(
    token: Option<Seq<char>>,
    authzid: Option<Seq<char>>,
    user: Option<Seq<char>>,
    pass: Option<Seq<char>>,
) -> HandshakeOutcome {
    match token {
        Some(t) => HandshakeOutcome::Send(
            "AUTHINFO SASL OAUTHBEARER "@ + base64_standard(encode_utf8(oauthbearer_raw(authzid, t))),
            HandshakeStep::Bearer,
        ),
        None => match (user, pass) {
            (Some(u), Some(_)) => HandshakeOutcome::Send("AUTHINFO USER "@ + u, HandshakeStep::User),
            _ => HandshakeOutcome::Ready,
        },
    }
}

/// The handshake transition for a reply.
pub open spec fn handshake_outcome(
    token: Option<Seq<char>>,
    authzid: Option<Seq<char>>,
    user: Option<Seq<char>>,
    pass: Option<Seq<char>>,
    step: HandshakeStep,
    reply: Seq<char>,
) -> HandshakeOutcome {
    match step {
        HandshakeStep::Greeting => if reply_is(reply, "200"@) || reply_is(reply, "201"@) {
            HandshakeOutcome::Send("MODE READER"@, HandshakeStep::ModeReader)
        } else {
            HandshakeOutcome::Fail("NNTP greeting: "@ + reply)
        },
        HandshakeStep::ModeReader => if reply_is(reply, "200"@) || reply_is(reply, "201"@) {
            auth_outcome(token, authzid, user, pass)
        } else {
            HandshakeOutcome::Fail("MODE READER: "@ + reply)
        },
        HandshakeStep::Bearer => if reply_is(reply, "281"@) {
            HandshakeOutcome::Ready
        } else {
            HandshakeOutcome::Fail("AUTHINFO SASL OAUTHBEARER: "@ + reply)
        },
        HandshakeStep::User => if reply_is(reply, "381"@) {
            HandshakeOutcome::Send("AUTHINFO PASS "@ + pass->0, HandshakeStep::Pass)
        } else if reply_is(reply, "281"@) {
            HandshakeOutcome::Ready
        } else {
            HandshakeOutcome::Fail("AUTHINFO USER: "@ + reply)
        },
        HandshakeStep::Pass => if reply_is(reply, "281"@) {
            HandshakeOutcome::Ready
        } else {
            HandshakeOutcome::Fail("AUTHINFO PASS: "@ + reply)
        },
    }
}

/// Authentication answers: after the bearer (OAUTHBEARER) command and after
/// `AUTHINFO PASS`, a reply that starts with `281 ` completes the handshake,
/// and every other reply fails with the command's name and the reply.
pub proof fn lemma_auth_accepted_by_281(
    token: Option<Seq<char>>,
    authzid: Option<Seq<char>>,
    user: Option<Seq<char>>,
    pass: Option<Seq<char>>,
    reply: Seq<char>,
)
    ensures
        starts_with(reply, "281 "@) ==> handshake_outcome(token, authzid, user, pass, HandshakeStep::Bearer, reply)
            == HandshakeOutcome::Ready,
        !starts_with(reply, "281 "@) ==> handshake_outcome(token, authzid, user, pass, HandshakeStep::Bearer, reply)
            == HandshakeOutcome::Fail("AUTHINFO SASL OAUTHBEARER: "@ + reply),
        starts_with(reply, "281 "@) ==> handshake_outcome(token, authzid, user, pass, HandshakeStep::Pass, reply)
            == HandshakeOutcome::Ready,
        !starts_with(reply, "281 "@) ==> handshake_outcome(token, authzid, user, pass, HandshakeStep::Pass, reply)
            == HandshakeOutcome::Fail("AUTHINFO PASS: "@ + reply),
        starts_with(reply, "281 "@) ==> handshake_outcome(token, authzid, user, pass, HandshakeStep::User, reply)
            == HandshakeOutcome::Ready,
{
    reveal_strlit("281");
    reveal_strlit("281 ");
    reveal_strlit("381");
    reveal_strlit(" ");
    assert("281"@ + " "@ =~= "281 "@);
    if starts_with(reply, "281 "@) {
        assert(!starts_with(reply, "381"@ + " "@)) by {
            assert(reply.subrange(0, 4)[0] == "281 "@[0]);
            assert(("381"@ + " "@)[0] == '3');
        }
    }
}

/// The greeting and the `MODE READER` answer are accepted when they start
/// with `200 ` or `201 `: the greeting is then followed by `MODE READER`, the
/// answer by the authentication command; any other reply fails with the
/// step's name and the reply. After `AUTHINFO USER`, `381 ` asks for the
/// password, which is sent next.
pub proof fn lemma_handshake_codes(
    token: Option<Seq<char>>,
    authzid: Option<Seq<char>>,
    user: Option<Seq<char>>,
    pass: Option<Seq<char>>,
    reply: Seq<char>,
)
    ensures
        (starts_with(reply, "200 "@) || starts_with(reply, "201 "@)) ==> handshake_outcome(
            token,
            authzid,
            user,
            pass,
            HandshakeStep::Greeting,
            reply,
        ) == HandshakeOutcome::Send("MODE READER"@, HandshakeStep::ModeReader),
        !(starts_with(reply, "200 "@) || starts_with(reply, "201 "@)) ==> handshake_outcome(
            token,
            authzid,
            user,
            pass,
            HandshakeStep::Greeting,
            reply,
        ) == HandshakeOutcome::Fail("NNTP greeting: "@ + reply),
        (starts_with(reply, "200 "@) || starts_with(reply, "201 "@)) ==> handshake_outcome(
            token,
            authzid,
            user,
            pass,
            HandshakeStep::ModeReader,
            reply,
        ) == auth_outcome(token, authzid, user, pass),
        !(starts_with(reply, "200 "@) || starts_with(reply, "201 "@)) ==> handshake_outcome(
            token,
            authzid,
            user,
            pass,
            HandshakeStep::ModeReader,
            reply,
        ) == HandshakeOutcome::Fail("MODE READER: "@ + reply),
        starts_with(reply, "381 "@) && pass is Some ==> handshake_outcome(
            token,
            authzid,
            user,
            pass,
            HandshakeStep::User,
            reply,
        ) == HandshakeOutcome::Send("AUTHINFO PASS "@ + pass->0, HandshakeStep::Pass),
{
    reveal_strlit("200");
    reveal_strlit("201");
    reveal_strlit("381");
    reveal_strlit("200 ");
    reveal_strlit("201 ");
    reveal_strlit("381 ");
    reveal_strlit(" ");
    assert("200"@ + " "@ =~= "200 "@);
    assert("201"@ + " "@ =~= "201 "@);
    assert("381"@ + " "@ =~= "381 "@);
}

/// The outcome of a handshake step, on views.
pub open spec fn action_outcome(r: Result<HandshakeAction>) -> HandshakeOutcome {
    match r {
        Ok(HandshakeAction::Send(c, s)) => HandshakeOutcome::Send(c@, s),
        Ok(HandshakeAction::Ready) => HandshakeOutcome::Ready,
        Err(e) => HandshakeOutcome::Fail(e.text()),
    }
}

impl NntpMemoryStore {
    /// What the OAUTHBEARER message needs to stay within `usize`.
    pub open spec fn bearer_fits(&self) -> bool {
        self.token() matches Some(t) ==> oauth_fits(self.authzid(), t)
    }

    /// Whether the bearer credentials are short enough to encode.
    pub fn bearer_credentials_fit(&self) -> (b: bool)
        ensures
            b == self.bearer_fits(),
    {
        match &self.bearer_token {
            Some(t) => {
                let a: usize = match &self.bearer_authzid {
                    Some(a) => chars_of(a.as_str()).len(),
                    None => 0,
                };
                let tl = chars_of(t.as_str()).len();
                a <= usize::MAX / 16 && tl <= usize::MAX / 16 - a
            },
            None => true,
        }
    }

    /// The next handshake action after `reply` arrives in `step`.
    ///
    /// The session starts in [`HandshakeStep::Greeting`] without sending
    /// anything; a `Send` names the command to write and the step whose reply
    /// comes next.
    pub fn handshake_next(&self, step: HandshakeStep, reply: &str) -> (res: Result<
        HandshakeAction,
    >)
        requires
            self.bearer_fits(),
            step == HandshakeStep::User ==> self.password() is Some,
        ensures
            action_outcome(res) == handshake_outcome(
                self.token(),
                self.authzid(),
                self.user_name(),
                self.password(),
                step,
                reply@,
            ),
            res matches Err(e) ==> e is Message,
    {
        match step {
            HandshakeStep::Greeting => {
                if reply_has_code(reply, "200") || reply_has_code(reply, "201") {
                    Ok(HandshakeAction::Send(string_of(&chars_of("MODE READER")), HandshakeStep::ModeReader))
                } else {
                    Err(Error::Message(concat_str("NNTP greeting: ", reply)))
                }
            },
            HandshakeStep::ModeReader => {
                if !(reply_has_code(reply, "200") || reply_has_code(reply, "201")) {
                    return Err(Error::Message(concat_str("MODE READER: ", reply)));
                }
                match &self.bearer_token {
                    Some(token) => {
                        let authzid: Option<&str> = match &self.bearer_authzid {
                            Some(a) => Some(a.as_str()),
                            None => None,
                        };
                        let b64 = encode_oauthbearer_message(authzid, token.as_str());
                        Ok(
                            HandshakeAction::Send(
                                concat_str("AUTHINFO SASL OAUTHBEARER ", b64.as_str()),
                                HandshakeStep::Bearer,
                            ),
                        )
                    },
                    None => match (&self.user, &self.pass) {
                        (Some(u), Some(_)) => Ok(
                            HandshakeAction::Send(
                                concat_str("AUTHINFO USER ", u.as_str()),
                                HandshakeStep::User,
                            ),
                        ),
                        _ => Ok(HandshakeAction::Ready),
                    },
                }
            },
            HandshakeStep::Bearer => {
                if reply_has_code(reply, "281") {
                    Ok(HandshakeAction::Ready)
                } else {
                    Err(Error::Message(concat_str("AUTHINFO SASL OAUTHBEARER: ", reply)))
                }
            },
            HandshakeStep::User => {
                if reply_has_code(reply, "381") {
                    match &self.pass {
                        Some(p) => Ok(
                            HandshakeAction::Send(
                                concat_str("AUTHINFO PASS ", p.as_str()),
                                HandshakeStep::Pass,
                            ),
                        ),
                        None => Ok(HandshakeAction::Ready),
                    }
                } else if reply_has_code(reply, "281") {
                    Ok(HandshakeAction::Ready)
                } else {
                    Err(Error::Message(concat_str("AUTHINFO USER: ", reply)))
                }
            },
            HandshakeStep::Pass => {
                if reply_has_code(reply, "281") {
                    Ok(HandshakeAction::Ready)
                } else {
                    Err(Error::Message(concat_str("AUTHINFO PASS: ", reply)))
                }
            },
        }
    }
}


// ------------------------------------------------------------------------
// Posting
// ------------------------------------------------------------------------

/// `body.lines().next()`: the text before the first `\n` (without a `\r`
/// right before it), the whole body when it has no `\n`, `None` when empty.
pub open spec fn first_line(body: Seq<char>) -> Option<Seq<char>> {
    if body.len() == 0 {
        None
    } else {
        let k = first_index(body, '\n');
        if k < 0 {
            Some(body)
        } else {
            let piece = body.take(k);
            if piece.len() > 0 && piece.last() == '\r' {
                Some(piece.drop_last())
            } else {
                Some(piece)
            }
        }
    }
}

/// The line a default subject is taken from.
pub open spec fn subject_line(body: Seq<char>) -> Seq<char> {
    match first_line(body) {
        Some(l) => l,
        None => "mkd post"@,
    }
}

/// Cutting the subject line at byte 72 does not split a character (a
/// post slices the line there, which panics inside a character).
pub open spec fn subject_cut_ok(body: Seq<char>) -> bool {
    let b = encode_utf8(subject_line(body));
    b.len() > 72 ==> is_char_boundary(b, 72)
}

/// The default subject: the first body line, cut to its first 72 bytes.
pub open spec fn subject_of_body(body: Seq<char>) -> Seq<char> {
    let l = subject_line(body);
    if encode_utf8(l).len() > 72 {
        decode_utf8(encode_utf8(l).subrange(0, 72))
    } else {
        l
    }
}

/// One step of slot derivation: letters and digits are kept, a space, dash
/// or underscore adds a dash unless one was just added.
pub open spec fn slot_step(out: Seq<char>, c: char) -> Seq<char> {
    if is_alnum(c) {
        out.push(c)
    } else if (c == ' ' || c == '-' || c == '_') && !(out.len() > 0 && out.last() == '-') {
        out.push('-')
    } else {
        out
    }
}

/// Slot derivation over `s`, stopping once 48 characters are collected.
pub open spec fn slot_scan(s: Seq<char>, out: Seq<char>) -> Seq<char>
    decreases s.len(),
{
    if s.len() == 0 {
        out
    } else {
        let o = slot_step(out, s[0]);
        if o.len() >= 48 {
            o
        } else {
            slot_scan(s.drop_first(), o)
        }
    }
}

/// `derive_slot`: a short dash-separated slug of the subject, `note` when
/// nothing is left.
pub open spec fn slot_of(subject: Seq<char>) -> Seq<char> {
    let r = trim(
        slot_scan(spec_to_lowercase(trim(subject, CharClass::Whitespace)), Seq::empty()),
        CharClass::Dash,
    );
    if r.len() == 0 {
        "note"@
    } else {
        r
    }
}

/// [`slot_of`] for an ASCII subject, where lowercasing maps `A`-`Z` to
/// `a`-`z`.
pub open spec fn ascii_slot_of(subject: Seq<char>) -> Seq<char> {
    let r = trim(
        slot_scan(trim(subject, CharClass::Whitespace).map_values(|c: char| crate::text::ascii_lower(c)), Seq::empty()),
        CharClass::Dash,
    );
    if r.len() == 0 {
        "note"@
    } else {
        r
    }
}

/// A slot name: a non-empty run of at most 48 ASCII letters, digits and
/// single dashes that neither starts nor ends with a dash.
pub open spec fn is_slot(s: Seq<char>) -> bool {
    &&& 0 < s.len() <= 48
    &&& forall|i: int| 0 <= i < s.len() ==> is_alnum(#[trigger] s[i]) || s[i] == '-'
    &&& forall|i: int| 0 <= i < s.len() - 1 ==> !(#[trigger] s[i] == '-' && s[i + 1] == '-')
    &&& s[0] != '-'
    &&& s.last() != '-'
}

spec fn slot_chars_ok(o: Seq<char>) -> bool {
    &&& forall|i: int| 0 <= i < o.len() ==> is_alnum(#[trigger] o[i]) || o[i] == '-'
    &&& forall|i: int| 0 <= i < o.len() - 1 ==> !(#[trigger] o[i] == '-' && o[i + 1] == '-')
}

proof fn lemma_slot_scan(s: Seq<char>, out: Seq<char>)
    requires
        slot_chars_ok(out),
        out.len() < 48,
    ensures
        slot_chars_ok(slot_scan(s, out)),
        slot_scan(s, out).len() <= 48,
    decreases s.len(),
{
    if s.len() > 0 {
        let c = s[0];
        let o = slot_step(out, c);
        assert(slot_chars_ok(o)) by {
            if o.len() > out.len() {
                assert forall|i: int| 0 <= i < o.len() implies is_alnum(#[trigger] o[i]) || o[i] == '-' by {
                    if i < out.len() {
                        assert(o[i] == out[i]);
                    }
                }
                assert forall|i: int| 0 <= i < o.len() - 1 implies !(#[trigger] o[i] == '-' && o[i + 1]
                    == '-') by {
                    assert(o[i] == out[i]);
                    if i + 1 < out.len() {
                        assert(o[i + 1] == out[i + 1]);
                    }
                }
            }
        }
        if o.len() < 48 {
            lemma_slot_scan(s.drop_first(), o);
        }
    }
}

/// Every derived slot is a slot name (see [`is_slot`]).
pub proof fn lemma_slot_is_slot(subject: Seq<char>)
    ensures
        is_slot(slot_of(subject)),
{
    let x = spec_to_lowercase(trim(subject, CharClass::Whitespace));
    lemma_slot_scan(x, Seq::empty());
    let r = slot_scan(x, Seq::empty());
    crate::path::lemma_trim_piece(r, CharClass::Dash);
    let t = trim(r, CharClass::Dash);
    if t.len() == 0 {
        reveal_strlit("note");
    } else {
        let (a, b) = choose|a: int, b: int| 0 <= a <= b <= r.len() && t == r.subrange(a, b);
        assert forall|i: int| 0 <= i < t.len() implies is_alnum(#[trigger] t[i]) || t[i] == '-' by {
            assert(t[i] == r[a + i]);
        }
        assert forall|i: int| 0 <= i < t.len() - 1 implies !(#[trigger] t[i] == '-' && t[i + 1] == '-') by {
            assert(t[i] == r[a + i] && t[i + 1] == r[a + i + 1]);
        }
    }
}

/// The ASCII letters and digits of `s`, in order.
pub open spec fn alnums(s: Seq<char>) -> Seq<char>
    decreases s.len(),
{
    if s.len() == 0 {
        Seq::empty()
    } else if is_alnum(s[0]) {
        seq![s[0]] + alnums(s.drop_first())
    } else {
        alnums(s.drop_first())
    }
}

proof fn lemma_alnums_concat(a: Seq<char>, b: Seq<char>)
    ensures
        alnums(a + b) == alnums(a) + alnums(b),
    decreases a.len(),
{
    if a.len() == 0 {
        assert(a + b =~= b);
        assert(alnums(a) + alnums(b) =~= alnums(b));
    } else {
        lemma_alnums_concat(a.drop_first(), b);
        assert((a + b).drop_first() =~= a.drop_first() + b);
        assert((a + b)[0] == a[0]);
        if is_alnum(a[0]) {
            assert(seq![a[0]] + (alnums(a.drop_first()) + alnums(b)) =~= (seq![a[0]] + alnums(
                a.drop_first(),
            )) + alnums(b));
        }
    }
}

proof fn lemma_alnums_one(c: char)
    ensures
        alnums(seq![c]) == (if is_alnum(c) {
            seq![c]
        } else {
            Seq::<char>::empty()
        }),
{
    assert(seq![c].drop_first() =~= Seq::<char>::empty());
    assert(alnums(Seq::<char>::empty()) == Seq::<char>::empty());
    assert(seq![c] + Seq::<char>::empty() =~= seq![c]);
}

proof fn lemma_alnums_trim_dash(s: Seq<char>)
    ensures
        alnums(trim(s, CharClass::Dash)) == alnums(s),
{
    lemma_alnums_skip_dashes(s);
    let y = s.skip(crate::text::lead_count(s, CharClass::Dash) as int);
    lemma_alnums_take_dashes(y);
}

proof fn lemma_alnums_skip_dashes(s: Seq<char>)
    ensures
        alnums(s.skip(crate::text::lead_count(s, CharClass::Dash) as int)) == alnums(s),
    decreases s.len(),
{
    let cls = CharClass::Dash;
    if s.len() > 0 && crate::text::in_class(cls, s[0]) {
        lemma_alnums_skip_dashes(s.drop_first());
        crate::text::lemma_lead_count_bound(s.drop_first(), cls);
        assert(crate::text::lead_count(s, cls) == 1 + crate::text::lead_count(s.drop_first(), cls));
        assert(s.skip(crate::text::lead_count(s, cls) as int) =~= s.drop_first().skip(
            crate::text::lead_count(s.drop_first(), cls) as int,
        ));
    } else {
        assert(s.skip(0) =~= s);
    }
}

proof fn lemma_alnums_take_dashes(s: Seq<char>)
    ensures
        alnums(s.take(s.len() - crate::text::trail_count(s, CharClass::Dash))) == alnums(s),
    decreases s.len(),
{
    let cls = CharClass::Dash;
    if s.len() > 0 && crate::text::in_class(cls, s.last()) {
        let d = s.drop_last();
        lemma_alnums_take_dashes(d);
        crate::text::lemma_trail_count_bound(d, cls);
        assert(s.take(s.len() - crate::text::trail_count(s, cls)) =~= d.take(
            d.len() - crate::text::trail_count(d, cls),
        ));
        assert(s =~= d + seq![s.last()]);
        lemma_alnums_concat(d, seq![s.last()]);
        lemma_alnums_one(s.last());
        assert(alnums(d) + Seq::<char>::empty() =~= alnums(d));
    } else {
        assert(s.take(s.len() as int) =~= s);
    }
}

proof fn lemma_alnums_step(out: Seq<char>, c: char)
    ensures
        alnums(slot_step(out, c)) == alnums(out) + alnums(seq![c]),
        slot_step(out, c).len() <= out.len() + 1,
        out.is_prefix_of(slot_step(out, c)),
{
    lemma_alnums_one(c);
    let o = slot_step(out, c);
    if is_alnum(c) {
        assert(o =~= out + seq![c]);
        lemma_alnums_concat(out, seq![c]);
    } else if o.len() > out.len() {
        assert(o =~= out + seq!['-']);
        lemma_alnums_concat(out, seq!['-']);
        lemma_alnums_one('-');
        assert(alnums(out) + Seq::<char>::empty() =~= alnums(out));
    } else {
        assert(alnums(out) + Seq::<char>::empty() =~= alnums(out));
    }
    assert(o.subrange(0, out.len() as int) =~= out);
}

proof fn lemma_alnums_first(s: Seq<char>)
    requires
        s.len() > 0,
    ensures
        alnums(s) == alnums(seq![s[0]]) + alnums(s.drop_first()),
{
    assert(s =~= seq![s[0]] + s.drop_first());
    lemma_alnums_concat(seq![s[0]], s.drop_first());
}

proof fn lemma_prefix_trans(a: Seq<char>, b: Seq<char>, c: Seq<char>)
    requires
        a.is_prefix_of(b),
        b.is_prefix_of(c),
    ensures
        a.is_prefix_of(c),
{
    assert forall|i: int| 0 <= i < a.len() implies a[i] == c[i] by {
        assert(a[i] == b.subrange(0, a.len() as int)[i]);
        assert(b[i] == c.subrange(0, b.len() as int)[i]);
    }
    assert(a =~= c.subrange(0, a.len() as int));
}

proof fn lemma_scan_alnums(s: Seq<char>, out: Seq<char>)
    requires
        out.len() < 48,
    ensures
        alnums(slot_scan(s, out)).is_prefix_of(alnums(out) + alnums(s)),
        alnums(out).is_prefix_of(alnums(slot_scan(s, out))),
        out.len() + s.len() <= 48 ==> alnums(slot_scan(s, out)) == alnums(out) + alnums(s),
        out.len() <= 1 && (out.len() == 1 ==> out[0] == '-') && alnums(s).len() > 0 ==> alnums(
            slot_scan(s, out),
        ).len() > 0,
    decreases s.len(),
{
    if s.len() == 0 {
        assert(alnums(out) + alnums(s) =~= alnums(out));
        assert(alnums(out).subrange(0, alnums(out).len() as int) =~= alnums(out));
    } else {
        let c = s[0];
        let rest = s.drop_first();
        let o = slot_step(out, c);
        lemma_alnums_step(out, c);
        lemma_alnums_first(s);
        lemma_alnums_one(c);
        let whole = alnums(out) + alnums(s);
        assert(whole =~= alnums(o) + alnums(rest));
        if o.len() >= 48 {
            assert(alnums(o).subrange(0, alnums(o).len() as int) =~= alnums(o));
            assert(whole.subrange(0, alnums(o).len() as int) =~= alnums(o));
            assert(alnums(out).is_prefix_of(alnums(o))) by {
                assert(alnums(o).subrange(0, alnums(out).len() as int) =~= alnums(out));
            }
            if out.len() + s.len() <= 48 {
                assert(rest.len() == 0);
                assert(alnums(rest) =~= Seq::<char>::empty());
                assert(whole =~= alnums(o));
            }
        } else {
            lemma_scan_alnums(rest, o);
            let r = alnums(slot_scan(rest, o));
            assert(slot_scan(s, out) == slot_scan(rest, o));
            assert(alnums(out).is_prefix_of(alnums(o))) by {
                assert(alnums(o).subrange(0, alnums(out).len() as int) =~= alnums(out));
            }
            lemma_prefix_trans(alnums(out), alnums(o), r);
            if out.len() <= 1 && (out.len() == 1 ==> out[0] == '-') && alnums(s).len() > 0 {
                if is_alnum(c) {
                    assert(alnums(o).len() > 0);
                } else {
                    assert(alnums(rest).len() > 0);
                    assert(o.len() <= 1);
                    if o.len() == 1 {
                        if out.len() == 1 {
                            assert(o =~= out);
                        } else {
                            assert(o[0] == '-');
                        }
                    }
                }
            }
        }
    }
}

/// A derived slot keeps the subject's letters and digits: those of the
/// slot are the leading ones of the trimmed, lowercased subject, in order,
/// at least one of them, and all of them when the subject is within the
/// 48-character cap; a subject without letters or digits gives `note`.
pub proof fn lemma_slot_keeps_alnums(subject: Seq<char>)
    ensures
        alnums(spec_to_lowercase(trim(subject, CharClass::Whitespace))).len() == 0 ==> slot_of(subject)
            == "note"@,
        alnums(spec_to_lowercase(trim(subject, CharClass::Whitespace))).len() > 0 ==> alnums(
            slot_of(subject),
        ).len() > 0 && alnums(slot_of(subject)).is_prefix_of(
            alnums(spec_to_lowercase(trim(subject, CharClass::Whitespace))),
        ),
        spec_to_lowercase(trim(subject, CharClass::Whitespace)).len() <= 48 ==> (alnums(
            spec_to_lowercase(trim(subject, CharClass::Whitespace)),
        ).len() > 0 ==> alnums(slot_of(subject)) == alnums(
            spec_to_lowercase(trim(subject, CharClass::Whitespace)),
        )),
{
    let x = spec_to_lowercase(trim(subject, CharClass::Whitespace));
    let e = Seq::<char>::empty();
    lemma_scan_alnums(x, e);
    assert(alnums(e) =~= e);
    assert(alnums(e) + alnums(x) =~= alnums(x));
    let r = slot_scan(x, e);
    let t = trim(r, CharClass::Dash);
    lemma_alnums_trim_dash(r);
    lemma_slot_is_slot(subject);
    crate::path::lemma_trim_piece(r, CharClass::Dash);
    if t.len() > 0 {
        assert(slot_of(subject) == t);
        assert(t[0] != '-');
        assert(is_alnum(t[0]));
        assert(alnums(t).len() > 0);
    } else {
        assert(alnums(t) =~= e);
    }
}

/// Sets `name` unless a header of that name (ignoring ASCII case) is present.
pub open spec fn set_default(
    h: Seq<(Seq<char>, Seq<char>)>,
    name: Seq<char>,
    value: Seq<char>,
) -> Seq<(Seq<char>, Seq<char>)> {
    if find_ignore_case(h, name) is None {
        insert_entry(h, name, value)
    } else {
        h
    }
}

/// The headers `post` sends: Newsgroups, Subject, From and X-Mkd-Slot are
/// filled in when absent, in that order.
pub open spec fn post_headers(
    h: Seq<(Seq<char>, Seq<char>)>,
    group: Seq<char>,
    body: Seq<char>,
    from: Seq<char>,
) -> Seq<(Seq<char>, Seq<char>)> {
    let h1 = set_default(h, "Newsgroups"@, group);
    let h2 = set_default(h1, "Subject"@, subject_of_body(body));
    let h3 = set_default(h2, "From"@, from);
    let subj = match find_ignore_case(h3, "Subject"@) {
        Some(s) => s,
        None => "note"@,
    };
    set_default(h3, "X-Mkd-Slot"@, slot_of(subj))
}

/// A body line on the wire: a leading `.` is doubled.
pub open spec fn dot_stuff(l: Seq<char>) -> Seq<char> {
    if l.len() > 0 && l[0] == '.' {
        seq!['.'] + l
    } else {
        l
    }
}

/// The body lines on the wire, each without trailing `\r` and ending in CRLF.
pub open spec fn body_block(lines: Seq<Seq<char>>) -> Seq<char>
    decreases lines.len(),
{
    if lines.len() == 0 {
        Seq::empty()
    } else {
        body_block(lines.drop_last()) + dot_stuff(trim_end(lines.last(), CharClass::CarriageReturn))
            + "\r\n"@
    }
}

/// The article text of a POST: headers, blank line, body, `.` line.
pub open spec fn article_text(h: Seq<(Seq<char>, Seq<char>)>, body: Seq<char>) -> Seq<char> {
    wire_of(h) + "\r\n"@ + body_block(split(body, '\n')) + ".\r\n"@
}

/// The `<…>` Message-ID in a `240` reply.
pub open spec fn msgid_in_reply(r: Seq<char>) -> Option<Seq<char>> {
    let i = first_index(r, '<');
    if i < 0 {
        None
    } else {
        let j = first_index(r.skip(i), '>');
        if j < 0 {
            None
        } else {
            Some(r.subrange(i, i + j + 1))
        }
    }
}

/// The Message-ID a post is known by after a `240` reply.
pub open spec fn posted_message_id(
    reply: Seq<char>,
    h: Seq<(Seq<char>, Seq<char>)>,
    group: Seq<char>,
) -> Seq<char> {
    match msgid_in_reply(reply) {
        Some(m) => m,
        None => match find_ignore_case(h, "Message-ID"@) {
            Some(m) => m,
            None => "<unknown@"@ + group + ">"@,
        },
    }
}

/// Extract the `<…>` Message-ID from a `240` reply.
pub fn extract_msgid_from_240(resp: &str) -> (res: Option<String>)
    ensures
        opt_view(res) == msgid_in_reply(resp@),
{
    let r = chars_of(resp);
    match find_char(&r, '<') {
        None => None,
        Some(i) => {
            proof {
                crate::text::lemma_first_index(r@, '<');
            }
            let tail = slice_chars(&r, i, r.len());
            match find_char(&tail, '>') {
                None => None,
                Some(j) => {
                    proof {
                        crate::text::lemma_first_index(tail@, '>');
                        assert(tail@ =~= r@.skip(i as int));
                    }
                    let m = slice_chars(&r, i, i + j + 1);
                    Some(string_of(&m))
                },
            }
        },
    }
}

/// The first line of `body` (see [`first_line`]).
fn first_line_of(body: &Vec<char>) -> (res: Option<Vec<char>>)
    ensures
        match res {
            Some(l) => first_line(body@) == Some(l@),
            None => first_line(body@) is None,
        },
{
    if body.len() == 0 {
        return None;
    }
    match find_char(body, '\n') {
        None => Some(slice_chars(body, 0, body.len())),
        Some(k) => {
            proof {
                crate::text::lemma_first_index(body@, '\n');
            }
            let piece = slice_chars(body, 0, k);
            if piece.len() > 0 && piece[piece.len() - 1] == '\r' {
                Some(slice_chars(&piece, 0, piece.len() - 1))
            } else {
                Some(piece)
            }
        },
    }
}

/// The default subject of a post (see [`subject_of_body`]).
pub fn default_subject(body: &str) -> (res: String)
    requires
        subject_cut_ok(body@),
    ensures
        res@ == subject_of_body(body@),
{
    let bv = chars_of(body);
    let line = match first_line_of(&bv) {
        Some(l) => string_of(&l),
        None => string_of(&chars_of("mkd post")),
    };
    let ls = line.as_str();
    proof {
        assert(line@ == subject_line(body@));
        assert(ls.spec_bytes() == encode_utf8(subject_line(body@)));
    }
    let nbytes = ls.as_bytes().len();
    if nbytes > 72 {
        let (a, _b) = ls.split_at(72);
        proof {
            encode_utf8_decode_utf8(a@);
        }
        a.to_owned()
    } else {
        line
    }
}

/// Whether the default subject of `body` can be cut at byte 72 (see
/// [`subject_cut_ok`]).
pub fn subject_cut_is_ok(body: &str) -> (b: bool)
    ensures
        b == subject_cut_ok(body@),
{
    let bv = chars_of(body);
    let line = match first_line_of(&bv) {
        Some(l) => string_of(&l),
        None => string_of(&chars_of("mkd post")),
    };
    let ls = line.as_str();
    let nbytes = ls.as_bytes().len();
    if nbytes > 72 {
        ls.is_char_boundary(72)
    } else {
        true
    }
}

/// Derive a slot name from a subject (see [`slot_of`]).
pub fn derive_slot(subject: &str) -> (res: String)
    ensures
        res@ == slot_of(subject@),
        is_slot(res@),
        crate::text::is_ascii_text(subject@) ==> res@ == ascii_slot_of(subject@),
{
    proof {
        lemma_slot_is_slot(subject@);
    }
    let v = chars_of(subject);
    let t = trim_chars(&v, CharClass::Whitespace);
    proof {
        if crate::text::is_ascii_text(subject@) {
            crate::path::lemma_trim_piece(v@, CharClass::Whitespace);
            let (a, b) = choose|a: int, b: int|
                0 <= a <= b <= v@.len() && trim(v@, CharClass::Whitespace) == v@.subrange(a, b);
            assert forall|i: int| 0 <= i < t@.len() implies (#[trigger] t@[i] as u32) < 128 by {
                assert(t@[i] == v@[a + i]);
            }
        }
    }
    let lower = to_lowercase(string_of(&t).as_str());
    let s = chars_of(lower.as_str());
    let mut out: Vec<char> = Vec::new();
    let mut i: usize = 0;
    proof {
        assert(s@.skip(0) =~= s@);
    }
    while i < s.len() && out.len() < 48
        invariant
            i <= s.len(),
            slot_scan(s@, Seq::empty()) == if out@.len() >= 48 {
                out@
            } else {
                slot_scan(s@.skip(i as int), out@)
            },
        decreases s.len() - i,
    {
        let c = s[i];
        proof {
            assert(s@.skip(i as int)[0] == c);
            assert(s@.skip(i as int).drop_first() =~= s@.skip(i + 1));
        }
        if char_is_alnum(c) {
            out.push(c);
        } else if (c == ' ' || c == '-' || c == '_') && !(out.len() > 0 && out[out.len() - 1] == '-') {
            out.push('-');
        }
        i += 1;
    }
    proof {
        if out@.len() < 48 {
            assert(s@.skip(i as int) =~= Seq::<char>::empty());
        }
    }
    let r = trim_chars(&out, CharClass::Dash);
    if r.len() == 0 {
        string_of(&chars_of("note"))
    } else {
        string_of(&r)
    }
}

/// Sets `name` to `value` unless such a header is present (ignoring ASCII case).
fn set_if_absent(h: &mut PostHeaders, name: &str, value: &str)
    ensures
        final(h)@ == set_default(old(h)@, name@, value@),
{
    if h.get(name).is_none() {
        h.set(name, value);
    }
}

/// The article body on the wire (see [`body_block`]).
fn body_block_of(body: &str) -> (res: Vec<char>)
    ensures
        res@ == body_block(split(body@, '\n')),
{
    let bv = chars_of(body);
    let lines = split_chars(&bv, '\n');
    let ghost ls = views(lines@);
    let mut out: Vec<char> = Vec::new();
    let mut i: usize = 0;
    proof {
        assert(ls.take(0) =~= Seq::<Seq<char>>::empty());
    }
    while i < lines.len()
        invariant
            i <= lines.len(),
            ls == views(lines@),
            out@ == body_block(ls.take(i as int)),
        decreases lines.len() - i,
    {
        proof {
            assert(ls.take(i + 1).drop_last() =~= ls.take(i as int));
            assert(ls.take(i + 1).last() == lines@[i as int]@);
        }
        let line = trim_end_chars(&lines[i], CharClass::CarriageReturn);
        if line.len() > 0 && line[0] == '.' {
            out.push('.');
        }
        extend_chars(&mut out, &line);
        extend_str(&mut out, "\r\n");
        proof {
            let d = dot_stuff(line@);
            if line@.len() > 0 && line@[0] == '.' {
                assert(d =~= seq!['.'] + line@);
            }
        }
        i += 1;
    }
    proof {
        assert(ls.take(lines.len() as int) =~= ls);
    }
    out
}

impl NntpMemoryStore {
    /// The headers a POST of `body` to `group` sends (see [`post_headers`]).
    pub fn prepare_post_headers(&self, group: &GroupPath, headers: &PostHeaders, body: &str) -> (res:
        PostHeaders)
        requires
            find_ignore_case(headers@, "Subject"@) is None ==> subject_cut_ok(body@),
        ensures
            res@ == post_headers(headers@, group@, body@, self.from_mailbox()),
    {
        let mut h = headers.duplicate();
        set_if_absent(&mut h, "Newsgroups", group.as_str());
        proof {
            reveal_strlit("Newsgroups");
            reveal_strlit("Subject");
            assert(!eq_ignore_case("Newsgroups"@, "Subject"@));
            if find_ignore_case(headers@, "Newsgroups"@) is None {
                crate::types::lemma_set_keeps_others(headers@, "Newsgroups"@, group@, "Subject"@);
            }
        }
        if h.get("Subject").is_none() {
            let subj = default_subject(body);
            h.set("Subject", subj.as_str());
        }
        set_if_absent(&mut h, "From", self.default_from.as_str());
        if h.get("X-Mkd-Slot").is_none() {
            let slot = match h.get("Subject") {
                Some(s) => derive_slot(s),
                None => derive_slot("note"),
            };
            h.set("X-Mkd-Slot", slot.as_str());
        }
        h
    }
}

/// Every header `post` needs is present after [`post_headers`]:
/// Newsgroups, Subject, From and X-Mkd-Slot.
pub proof fn lemma_post_headers_complete(
    h: Seq<(Seq<char>, Seq<char>)>,
    group: Seq<char>,
    body: Seq<char>,
    from: Seq<char>,
)
    ensures
        find_ignore_case(post_headers(h, group, body, from), "Newsgroups"@) is Some,
        find_ignore_case(post_headers(h, group, body, from), "Subject"@) is Some,
        find_ignore_case(post_headers(h, group, body, from), "From"@) is Some,
        find_ignore_case(post_headers(h, group, body, from), "X-Mkd-Slot"@) is Some,
{
    let h1 = set_default(h, "Newsgroups"@, group);
    let h2 = set_default(h1, "Subject"@, subject_of_body(body));
    let h3 = set_default(h2, "From"@, from);
    let subj = match find_ignore_case(h3, "Subject"@) {
        Some(s) => s,
        None => "note"@,
    };
    let h4 = set_default(h3, "X-Mkd-Slot"@, slot_of(subj));
    lemma_set_default_present(h, "Newsgroups"@, group);
    lemma_set_default_keeps(h1, "Subject"@, subject_of_body(body), "Newsgroups"@);
    lemma_set_default_present(h1, "Subject"@, subject_of_body(body));
    lemma_set_default_keeps(h2, "From"@, from, "Newsgroups"@);
    lemma_set_default_keeps(h2, "From"@, from, "Subject"@);
    lemma_set_default_present(h2, "From"@, from);
    lemma_set_default_keeps(h3, "X-Mkd-Slot"@, slot_of(subj), "Newsgroups"@);
    lemma_set_default_keeps(h3, "X-Mkd-Slot"@, slot_of(subj), "Subject"@);
    lemma_set_default_keeps(h3, "X-Mkd-Slot"@, slot_of(subj), "From"@);
    lemma_set_default_present(h3, "X-Mkd-Slot"@, slot_of(subj));
}

/// Every header a JSON post needs is present after [`json_headers`]:
/// Subject, Content-Type and X-Mkd-Format.
pub proof fn lemma_json_headers_complete(h: Seq<(Seq<char>, Seq<char>)>, subject: Seq<char>)
    ensures
        find_ignore_case(json_headers(h, subject), "Subject"@) is Some,
        find_ignore_case(json_headers(h, subject), "Content-Type"@) is Some,
        find_ignore_case(json_headers(h, subject), "X-Mkd-Format"@) is Some,
{
    let h1 = set_default(h, "Subject"@, subject);
    let h2 = set_default(h1, "Content-Type"@, "application/json; charset=utf-8"@);
    lemma_set_default_present(h, "Subject"@, subject);
    lemma_set_default_keeps(h1, "Content-Type"@, "application/json; charset=utf-8"@, "Subject"@);
    lemma_set_default_present(h1, "Content-Type"@, "application/json; charset=utf-8"@);
    lemma_set_default_keeps(h2, "X-Mkd-Format"@, "json"@, "Subject"@);
    lemma_set_default_keeps(h2, "X-Mkd-Format"@, "json"@, "Content-Type"@);
    lemma_set_default_present(h2, "X-Mkd-Format"@, "json"@);
}

proof fn lemma_set_default_present(h: Seq<(Seq<char>, Seq<char>)>, name: Seq<char>, value: Seq<char>)
    ensures
        find_ignore_case(set_default(h, name, value), name) is Some,
{
    if find_ignore_case(h, name) is None {
        crate::types::lemma_set_makes_present(h, name, value);
    }
}

proof fn lemma_set_default_keeps(h: Seq<(Seq<char>, Seq<char>)>, name: Seq<char>, value: Seq<char>, m: Seq<char>)
    requires
        find_ignore_case(h, m) is Some,
    ensures
        find_ignore_case(set_default(h, name, value), m) is Some,
{
    if find_ignore_case(h, name) is None {
        crate::types::lemma_set_keeps_present(h, name, value, m);
    }
}

/// Removing one leading `.` from a body line, as the reader does.
pub open spec fn unstuff(l: Seq<char>) -> Seq<char> {
    if l.len() > 0 && l[0] == '.' {
        l.drop_first()
    } else {
        l
    }
}

/// Dot-stuffing is undone by the reader, and a stuffed line is never the
/// lone `.` that ends an article.
pub proof fn lemma_dot_stuff(l: Seq<char>)
    ensures
        unstuff(dot_stuff(l)) == l,
        dot_stuff(l) != seq!['.'],
{
    if l.len() > 0 && l[0] == '.' {
        assert((seq!['.'] + l).drop_first() =~= l);
        assert((seq!['.'] + l).len() >= 2);
    }
}

/// The article text of a POST (see [`article_text`]).
pub fn post_article_text(headers: &PostHeaders, body: &str) -> (res: String)
    ensures
        res@ == article_text(headers@, body@),
{
    let wire = headers.to_wire();
    let mut out = chars_of(wire.as_str());
    extend_str(&mut out, "\r\n");
    let b = body_block_of(body);
    extend_chars(&mut out, &b);
    extend_str(&mut out, ".\r\n");
    string_of(&out)
}

/// The reply to `POST` must be `340` before the article is sent.
pub fn check_post_ready(reply: &str) -> (res: Result<()>)
    ensures
        res is Ok <==> reply_is(reply@, "340"@),
        res matches Err(e) ==> e is Message && e.text() == "POST not accepted: "@ + reply@,
{
    if reply_has_code(reply, "340") {
        Ok(())
    } else {
        Err(Error::Message(concat_str("POST not accepted: ", reply)))
    }
}

/// The reference of a post from the reply to its article: `240` accepts.
pub fn posted_ref(group: &GroupPath, headers: &PostHeaders, reply: &str) -> (res: Result<PostRef>)
    ensures
        match res {
            Ok(r) => reply_is(reply@, "240"@) && r.message_id@ == posted_message_id(
                reply@,
                headers@,
                group@,
            ) && r.group@ == group@ && opt_view(r.slot) == find_ignore_case(headers@, "X-Mkd-Slot"@)
                && r.version is None,
            Err(e) => !reply_is(reply@, "240"@) && e is Message && e.text() == "POST rejected: "@
                + reply@,
        },
{
    if !reply_has_code(reply, "240") {
        return Err(Error::Message(concat_str("POST rejected: ", reply)));
    }
    let message_id = match extract_msgid_from_240(reply) {
        Some(m) => m,
        None => match headers.get("Message-ID") {
            Some(m) => string_of(&chars_of(m)),
            None => {
                let mut v = chars_of("<unknown@");
                extend_str(&mut v, group.as_str());
                extend_str(&mut v, ">");
                string_of(&v)
            },
        },
    };
    let slot = match headers.get("X-Mkd-Slot") {
        Some(s) => Some(string_of(&chars_of(s))),
        None => None,
    };
    Ok(PostRef { message_id, group: group.duplicate(), slot, version: None })
}


// ------------------------------------------------------------------------
// Reading articles
// ------------------------------------------------------------------------

/// A Message-ID in angle brackets.
pub open spec fn angle_id(m: Seq<char>) -> Seq<char> {
    if m.len() > 0 && m[0] == '<' {
        m
    } else {
        "<"@ + m + ">"@
    }
}

/// `str::split_once(':')`.
pub open spec fn split_colon(line: Seq<char>) -> Option<(Seq<char>, Seq<char>)> {
    let k = first_index(line, ':');
    if k < 0 {
        None
    } else {
        Some((line.take(k), line.skip(k + 1)))
    }
}

/// The state of reading an article: headers so far, body so far, and
/// whether the blank line was seen.
pub open spec fn article_step(
    st: (Seq<(Seq<char>, Seq<char>)>, Seq<char>, bool),
    line: Seq<char>,
) -> (Seq<(Seq<char>, Seq<char>)>, Seq<char>, bool) {
    let (h, b, in_body) = st;
    if !in_body {
        if line.len() == 0 {
            (h, b, true)
        } else {
            match split_colon(line) {
                Some((k, v)) => (
                    insert_entry(h, trim(k, CharClass::Whitespace), trim(v, CharClass::Whitespace)),
                    b,
                    false,
                ),
                None => (h, b, false),
            }
        }
    } else {
        let content = unstuff(line);
        (h, if b.len() == 0 {
            content
        } else {
            b + "\n"@ + content
        }, true)
    }
}

/// The article read from its lines (up to, not including, the `.` line).
pub open spec fn article_fold(lines: Seq<Seq<char>>) -> (Seq<(Seq<char>, Seq<char>)>, Seq<char>, bool)
    decreases lines.len(),
{
    if lines.len() == 0 {
        (Seq::empty(), Seq::empty(), false)
    } else {
        article_step(article_fold(lines.drop_last()), lines.last())
    }
}

/// Reading more lines on from a state.
pub open spec fn fold_from(
    st: (Seq<(Seq<char>, Seq<char>)>, Seq<char>, bool),
    lines: Seq<Seq<char>>,
) -> (Seq<(Seq<char>, Seq<char>)>, Seq<char>, bool)
    decreases lines.len(),
{
    if lines.len() == 0 {
        st
    } else {
        article_step(fold_from(st, lines.drop_last()), lines.last())
    }
}

/// The lines of a body without their trailing `\r`.
pub open spec fn body_lines(body: Seq<char>) -> Seq<Seq<char>> {
    split(body, '\n').map_values(|l: Seq<char>| trim_end(l, CharClass::CarriageReturn))
}

/// The body lines as they go on the wire (dot-stuffed).
pub open spec fn wire_body_lines(body: Seq<char>) -> Seq<Seq<char>> {
    body_lines(body).map_values(|l: Seq<char>| dot_stuff(l))
}

/// The header lines as they go on the wire.
pub open spec fn header_wire_lines(h: Seq<(Seq<char>, Seq<char>)>) -> Seq<Seq<char>> {
    h.map_values(|e: (Seq<char>, Seq<char>)| e.0 + ": "@ + e.1)
}

/// The lines of a posted article before its `.` line.
pub open spec fn posted_lines(h: Seq<(Seq<char>, Seq<char>)>, body: Seq<char>) -> Seq<Seq<char>> {
    header_wire_lines(h) + seq![Seq::<char>::empty()] + wire_body_lines(body)
}

/// Lines, each followed by CRLF.
pub open spec fn crlf_lines(lines: Seq<Seq<char>>) -> Seq<char>
    decreases lines.len(),
{
    if lines.len() == 0 {
        Seq::empty()
    } else {
        crlf_lines(lines.drop_last()) + lines.last() + "\r\n"@
    }
}

proof fn lemma_crlf_lines_concat(a: Seq<Seq<char>>, b: Seq<Seq<char>>)
    ensures
        crlf_lines(a + b) == crlf_lines(a) + crlf_lines(b),
    decreases b.len(),
{
    if b.len() == 0 {
        assert(a + b =~= a);
    } else {
        assert((a + b).drop_last() =~= a + b.drop_last());
        lemma_crlf_lines_concat(a, b.drop_last());
    }
}

proof fn lemma_wire_of_lines(h: Seq<(Seq<char>, Seq<char>)>)
    ensures
        wire_of(h) == crlf_lines(header_wire_lines(h)),
    decreases h.len(),
{
    if h.len() > 0 {
        assert(header_wire_lines(h).drop_last() =~= header_wire_lines(h.drop_last()));
        lemma_wire_of_lines(h.drop_last());
    }
}

proof fn lemma_body_block_lines(ls: Seq<Seq<char>>)
    ensures
        body_block(ls) == crlf_lines(
            ls.map_values(|l: Seq<char>| trim_end(l, CharClass::CarriageReturn)).map_values(
                |l: Seq<char>| dot_stuff(l),
            ),
        ),
    decreases ls.len(),
{
    if ls.len() > 0 {
        let t = ls.map_values(|l: Seq<char>| trim_end(l, CharClass::CarriageReturn));
        let td = ls.drop_last().map_values(|l: Seq<char>| trim_end(l, CharClass::CarriageReturn));
        assert(td =~= t.drop_last());
        assert(td.map_values(|l: Seq<char>| dot_stuff(l)) =~= t.map_values(|l: Seq<char>| dot_stuff(l)).drop_last());
        lemma_body_block_lines(ls.drop_last());
    }
}

proof fn lemma_fold_concat(p: Seq<Seq<char>>, q: Seq<Seq<char>>)
    ensures
        article_fold(p + q) == fold_from(article_fold(p), q),
    decreases q.len(),
{
    if q.len() == 0 {
        assert(p + q =~= p);
    } else {
        assert((p + q).drop_last() =~= p + q.drop_last());
        lemma_fold_concat(p, q.drop_last());
    }
}

proof fn lemma_fold_header_lines(hl: Seq<Seq<char>>)
    requires
        forall|i: int| 0 <= i < hl.len() ==> #[trigger] hl[i].len() > 0,
    ensures
        article_fold(hl).1.len() == 0,
        !article_fold(hl).2,
    decreases hl.len(),
{
    if hl.len() > 0 {
        lemma_fold_header_lines(hl.drop_last());
        assert(hl.last().len() > 0);
    }
}

proof fn lemma_join_len(parts: Seq<Seq<char>>, sep: Seq<char>)
    requires
        parts.len() >= 1,
    ensures
        crate::text::join(parts, sep).len() >= parts[0].len(),
    decreases parts.len(),
{
    if parts.len() > 1 {
        lemma_join_len(parts.drop_last(), sep);
    }
}

proof fn lemma_fold_body(h: Seq<(Seq<char>, Seq<char>)>, t: Seq<Seq<char>>)
    requires
        t.len() >= 1,
        t[0].len() > 0,
    ensures
        fold_from((h, Seq::empty(), true), t.map_values(|l: Seq<char>| dot_stuff(l))) == (
            h,
            crate::text::join(t, "\n"@),
            true,
        ),
    decreases t.len(),
{
    let w = t.map_values(|l: Seq<char>| dot_stuff(l));
    lemma_dot_stuff(t.last());
    assert(w.last() == dot_stuff(t.last()));
    if t.len() == 1 {
        assert(w.drop_last() =~= Seq::<Seq<char>>::empty());
        assert(fold_from((h, Seq::empty(), true), w.drop_last()) == (h, Seq::<char>::empty(), true));
    } else {
        assert(w.drop_last() =~= t.drop_last().map_values(|l: Seq<char>| dot_stuff(l)));
        lemma_fold_body(h, t.drop_last());
        lemma_join_len(t.drop_last(), "\n"@);
        assert(t.drop_last()[0] == t[0]);
    }
}

proof fn lemma_no_cr_pieces(s: Seq<char>)
    requires
        forall|j: int| 0 <= j < s.len() ==> s[j] != '\r',
    ensures
        body_lines(s) == split(s, '\n'),
    decreases s.len(),
{
    let k = last_index(s, '\n');
    crate::text::lemma_last_index(s, '\n');
    crate::text::lemma_split_len(s, '\n');
    let p = split(s, '\n');
    if k < 0 {
        assert(crate::text::trail_count(s, CharClass::CarriageReturn) == 0);
        assert(trim_end(s, CharClass::CarriageReturn) =~= s);
        assert(body_lines(s) =~= p);
    } else {
        let a = s.take(k);
        let r = s.skip(k + 1);
        lemma_no_cr_pieces(a);
        assert(r.len() == 0 || r.last() != '\r');
        assert(crate::text::trail_count(r, CharClass::CarriageReturn) == 0);
        assert(trim_end(r, CharClass::CarriageReturn) =~= r);
        assert(body_lines(s) =~= body_lines(a).push(trim_end(r, CharClass::CarriageReturn)));
    }
}

/// Header names without a colon, and names and values without surrounding
/// whitespace: headers that come through their wire lines unchanged.
pub open spec fn clean_headers(h: Seq<(Seq<char>, Seq<char>)>) -> bool {
    forall|i: int|
        0 <= i < h.len() ==> first_index(#[trigger] h[i].0, ':') < 0 && trim(h[i].0, CharClass::Whitespace)
            == h[i].0 && trim(h[i].1, CharClass::Whitespace) == h[i].1
}

proof fn lemma_fold_headers_back(h: Seq<(Seq<char>, Seq<char>)>, n: int)
    requires
        sorted(h),
        clean_headers(h),
        0 <= n <= h.len(),
    ensures
        article_fold(header_wire_lines(h).take(n)) == (h.take(n), Seq::<char>::empty(), false),
    decreases n,
{
    let hl = header_wire_lines(h);
    if n == 0 {
        assert(hl.take(0) =~= Seq::<Seq<char>>::empty());
        assert(h.take(0) =~= Seq::<(Seq<char>, Seq<char>)>::empty());
    } else {
        lemma_fold_headers_back(h, n - 1);
        assert(hl.take(n).drop_last() =~= hl.take(n - 1));
        let k = h[n - 1].0;
        let v = h[n - 1].1;
        let line = hl[n - 1];
        reveal_strlit(": ");
        assert(line == k + ": "@ + v);
        crate::text::lemma_first_index(k, ':');
        assert forall|j: int| 0 <= j < k.len() implies #[trigger] line[j] != ':' by {
            assert(line[j] == k[j]);
        }
        crate::text::lemma_first_index_is(line, ':', k.len() as int);
        assert(line.take(k.len() as int) =~= k);
        assert(line.skip(k.len() as int + 1) =~= seq![' '] + v);
        crate::text::lemma_trim_space_prefix(v);
        let prev = h.take(n - 1);
        assert forall|i: int, j: int| 0 <= i < j < prev.len() implies crate::types::key_lt(
            #[trigger] prev[i].0,
            #[trigger] prev[j].0,
        ) by {
            assert(prev[i] == h[i] && prev[j] == h[j]);
        }
        assert forall|j: int| 0 <= j < n - 1 implies crate::types::key_lt(#[trigger] prev[j].0, k) by {
            assert(prev[j] == h[j]);
        }
        crate::types::lemma_insert_at(prev, k, v, n - 1);
        assert(prev.insert(n - 1, (k, v)) =~= h.take(n));
    }
}

/// The header map a reader builds from header entries: each name and value
/// trimmed, inserted in turn (a later equal name replaces the value).
pub open spec fn trimmed_headers(h: Seq<(Seq<char>, Seq<char>)>) -> Seq<(Seq<char>, Seq<char>)>
    decreases h.len(),
{
    if h.len() == 0 {
        Seq::empty()
    } else {
        insert_entry(
            trimmed_headers(h.drop_last()),
            trim(h.last().0, CharClass::Whitespace),
            trim(h.last().1, CharClass::Whitespace),
        )
    }
}

/// No header name holds a `:`.
pub open spec fn colon_free_names(h: Seq<(Seq<char>, Seq<char>)>) -> bool {
    forall|i: int| 0 <= i < h.len() ==> first_index(#[trigger] h[i].0, ':') < 0
}

/// Whether `n` is the trimmed name of one of the entries of `h`.
pub open spec fn trimmed_name_of(n: Seq<char>, h: Seq<(Seq<char>, Seq<char>)>) -> bool {
    exists|m: int| 0 <= m < h.len() && n == trim(#[trigger] h[m].0, CharClass::Whitespace)
}

proof fn lemma_insert_names(s: Seq<(Seq<char>, Seq<char>)>, k: Seq<char>, v: Seq<char>)
    ensures
        forall|j: int|
            0 <= j < insert_entry(s, k, v).len() ==> (#[trigger] insert_entry(s, k, v)[j]).0 == k
                || exists|m: int| 0 <= m < s.len() && s[m].0 == insert_entry(s, k, v)[j].0,
    decreases s.len(),
{
    let r = insert_entry(s, k, v);
    if s.len() == 0 {
    } else if s[0].0 == k {
        assert forall|j: int| 0 <= j < r.len() implies (#[trigger] r[j]).0 == k || exists|m: int|
            0 <= m < s.len() && s[m].0 == r[j].0 by {
            if j > 0 {
                assert(r[j] == s[j]);
            }
        }
    } else if crate::types::key_lt(k, s[0].0) {
        assert forall|j: int| 0 <= j < r.len() implies (#[trigger] r[j]).0 == k || exists|m: int|
            0 <= m < s.len() && s[m].0 == r[j].0 by {
            if j > 0 {
                assert(r[j] == s[j - 1]);
            }
        }
    } else {
        let t = s.drop_first();
        lemma_insert_names(t, k, v);
        let ri = insert_entry(t, k, v);
        assert(r =~= seq![s[0]] + ri);
        assert forall|j: int| 0 <= j < r.len() implies (#[trigger] r[j]).0 == k || exists|m: int|
            0 <= m < s.len() && s[m].0 == r[j].0 by {
            if j == 0 {
                assert(s[0].0 == r[0].0);
            } else {
                assert(r[j] == ri[j - 1]);
                if ri[j - 1].0 != k {
                    let m = choose|m: int| 0 <= m < t.len() && t[m].0 == ri[j - 1].0;
                    assert(s[m + 1].0 == r[j].0);
                }
            }
        }
    }
}

proof fn lemma_trimmed_names(h: Seq<(Seq<char>, Seq<char>)>)
    ensures
        forall|j: int|
            0 <= j < trimmed_headers(h).len() ==> trimmed_name_of(
                (#[trigger] trimmed_headers(h)[j]).0,
                h,
            ),
    decreases h.len(),
{
    if h.len() > 0 {
        let p = h.drop_last();
        lemma_trimmed_names(p);
        let s = trimmed_headers(p);
        let k = trim(h.last().0, CharClass::Whitespace);
        lemma_insert_names(s, k, trim(h.last().1, CharClass::Whitespace));
        let r = trimmed_headers(h);
        assert forall|j: int| 0 <= j < r.len() implies trimmed_name_of((#[trigger] r[j]).0, h) by {
            if r[j].0 == k {
                assert(h[h.len() - 1] == h.last());
            } else {
                let m = choose|m: int| 0 <= m < s.len() && s[m].0 == r[j].0;
                assert(trimmed_name_of(s[m].0, p));
                let q = choose|q: int| 0 <= q < p.len() && s[m].0 == trim(#[trigger] p[q].0, CharClass::Whitespace);
                assert(p[q] == h[q]);
            }
        }
    }
}

/// Reading back one header: where no other header's trimmed name equals its
/// trimmed name ignoring ASCII case, the header map holds its trimmed value
/// under its trimmed name.
pub proof fn lemma_trimmed_headers_find(h: Seq<(Seq<char>, Seq<char>)>, i: int)
    requires
        0 <= i < h.len(),
        forall|j: int|
            0 <= j < h.len() && j != i ==> !eq_ignore_case(
                trim(#[trigger] h[j].0, CharClass::Whitespace),
                trim(h[i].0, CharClass::Whitespace),
            ),
    ensures
        find_ignore_case(trimmed_headers(h), trim(h[i].0, CharClass::Whitespace)) == Some(
            trim(h[i].1, CharClass::Whitespace),
        ),
    decreases h.len(),
{
    let p = h.drop_last();
    let s = trimmed_headers(p);
    let last = h.len() - 1;
    let k = trim(h[last].0, CharClass::Whitespace);
    let v = trim(h[last].1, CharClass::Whitespace);
    let ki = trim(h[i].0, CharClass::Whitespace);
    assert(h.last() == h[last]);
    if i == last {
        lemma_trimmed_names(p);
        assert forall|j: int| 0 <= j < s.len() && eq_ignore_case(#[trigger] s[j].0, k) implies s[j].0
            == k by {
            assert(trimmed_name_of(s[j].0, p));
            let q = choose|q: int| 0 <= q < p.len() && s[j].0 == trim(#[trigger] p[q].0, CharClass::Whitespace);
            assert(p[q] == h[q]);
            assert(!eq_ignore_case(trim(h[q].0, CharClass::Whitespace), k));
        }
        crate::types::lemma_get_after_set(s, k, v);
    } else {
        assert(!eq_ignore_case(k, ki));
        crate::types::lemma_set_keeps_others(s, k, v, ki);
        assert forall|j: int| 0 <= j < p.len() && j != i implies !eq_ignore_case(
            trim(#[trigger] p[j].0, CharClass::Whitespace),
            trim(p[i].0, CharClass::Whitespace),
        ) by {
            assert(p[j] == h[j] && p[i] == h[i]);
        }
        lemma_trimmed_headers_find(p, i);
        assert(p[i] == h[i]);
    }
}

proof fn lemma_fold_headers_trimmed(h: Seq<(Seq<char>, Seq<char>)>, n: int)
    requires
        colon_free_names(h),
        0 <= n <= h.len(),
    ensures
        article_fold(header_wire_lines(h).take(n)) == (
            trimmed_headers(h.take(n)),
            Seq::<char>::empty(),
            false,
        ),
    decreases n,
{
    let hl = header_wire_lines(h);
    if n == 0 {
        assert(hl.take(0) =~= Seq::<Seq<char>>::empty());
        assert(h.take(0) =~= Seq::<(Seq<char>, Seq<char>)>::empty());
    } else {
        lemma_fold_headers_trimmed(h, n - 1);
        assert(hl.take(n).drop_last() =~= hl.take(n - 1));
        assert(h.take(n).drop_last() =~= h.take(n - 1));
        let k = h[n - 1].0;
        let v = h[n - 1].1;
        let line = hl[n - 1];
        reveal_strlit(": ");
        assert(line == k + ": "@ + v);
        crate::text::lemma_first_index(k, ':');
        assert forall|j: int| 0 <= j < k.len() implies #[trigger] line[j] != ':' by {
            assert(line[j] == k[j]);
        }
        crate::text::lemma_first_index_is(line, ':', k.len() as int);
        assert(line.take(k.len() as int) =~= k);
        assert(line.skip(k.len() as int + 1) =~= seq![' '] + v);
        crate::text::lemma_trim_space_front(v);
    }
}

proof fn lemma_fold_keeps_headers(st: (Seq<(Seq<char>, Seq<char>)>, Seq<char>, bool), ls: Seq<Seq<char>>)
    requires
        st.2,
    ensures
        fold_from(st, ls).0 == st.0,
        fold_from(st, ls).2,
    decreases ls.len(),
{
    if ls.len() > 0 {
        lemma_fold_keeps_headers(st, ls.drop_last());
    }
}

/// The number of empty lines at the start of `ls`.
pub open spec fn leading_empty(ls: Seq<Seq<char>>) -> nat
    decreases ls.len(),
{
    if ls.len() > 0 && ls[0].len() == 0 {
        1 + leading_empty(ls.drop_first())
    } else {
        0
    }
}

/// What a reader gets back of a posted body: its lines without trailing
/// `\r`, after the empty lines at its start, joined by newlines (empty when
/// every line is empty).
pub open spec fn read_back_body(body: Seq<char>) -> Seq<char> {
    let bl = body_lines(body);
    let m = leading_empty(bl);
    if m == bl.len() {
        Seq::empty()
    } else {
        crate::text::join(bl.skip(m as int), "\n"@)
    }
}

proof fn lemma_leading_empty(ls: Seq<Seq<char>>)
    ensures
        leading_empty(ls) <= ls.len(),
        forall|j: int| 0 <= j < leading_empty(ls) ==> (#[trigger] ls[j]).len() == 0,
        leading_empty(ls) < ls.len() ==> ls[leading_empty(ls) as int].len() > 0,
    decreases ls.len(),
{
    if ls.len() > 0 && ls[0].len() == 0 {
        lemma_leading_empty(ls.drop_first());
        assert forall|j: int| 0 <= j < leading_empty(ls) implies (#[trigger] ls[j]).len() == 0 by {
            if j > 0 {
                assert(ls[j] == ls.drop_first()[j - 1]);
            }
        }
    }
}

proof fn lemma_fold_from_concat(
    st: (Seq<(Seq<char>, Seq<char>)>, Seq<char>, bool),
    p: Seq<Seq<char>>,
    q: Seq<Seq<char>>,
)
    ensures
        fold_from(st, p + q) == fold_from(fold_from(st, p), q),
    decreases q.len(),
{
    if q.len() == 0 {
        assert(p + q =~= p);
    } else {
        assert((p + q).drop_last() =~= p + q.drop_last());
        lemma_fold_from_concat(st, p, q.drop_last());
    }
}

proof fn lemma_fold_empties(h: Seq<(Seq<char>, Seq<char>)>, ls: Seq<Seq<char>>)
    requires
        forall|j: int| 0 <= j < ls.len() ==> (#[trigger] ls[j]).len() == 0,
    ensures
        fold_from((h, Seq::empty(), true), ls) == (h, Seq::<char>::empty(), true),
    decreases ls.len(),
{
    if ls.len() > 0 {
        let p = ls.drop_last();
        assert forall|j: int| 0 <= j < p.len() implies (#[trigger] p[j]).len() == 0 by {
            assert(p[j] == ls[j]);
        }
        lemma_fold_empties(h, p);
        assert(ls[ls.len() - 1].len() == 0);
        assert(unstuff(ls.last()) =~= Seq::<char>::empty());
    }
}

proof fn lemma_read_back_body(h: Seq<(Seq<char>, Seq<char>)>, body: Seq<char>)
    ensures
        fold_from((h, Seq::empty(), true), wire_body_lines(body)) == (h, read_back_body(body), true),
{
    let bl = body_lines(body);
    let m = leading_empty(bl);
    lemma_leading_empty(bl);
    let wl = wire_body_lines(body);
    let w1 = wl.take(m as int);
    let w2 = wl.skip(m as int);
    assert(wl =~= w1 + w2);
    assert forall|j: int| 0 <= j < w1.len() implies (#[trigger] w1[j]).len() == 0 by {
        assert(bl[j].len() == 0);
        assert(w1[j] == dot_stuff(bl[j]));
    }
    lemma_fold_empties(h, w1);
    lemma_fold_from_concat((h, Seq::empty(), true), w1, w2);
    if m == bl.len() {
        assert(w2 =~= Seq::<Seq<char>>::empty());
    } else {
        let t = bl.skip(m as int);
        assert(t[0] == bl[m as int]);
        assert(w2 =~= t.map_values(|l: Seq<char>| dot_stuff(l)));
        lemma_fold_body(h, t);
    }
}

/// What a reader gets back of a post. The article text is the header lines,
/// a blank line and the dot-stuffed body lines, each ending in CRLF, then
/// the `.` line, and no body line is a lone `.`. When the first body line
/// is not empty, reading those lines back gives the body, each line without
/// its trailing `\r` (the body itself when it holds no `\r`).
pub proof fn lemma_post_read_back(h: Seq<(Seq<char>, Seq<char>)>, body: Seq<char>)
    ensures
        article_text(h, body) == crlf_lines(posted_lines(h, body)) + ".\r\n"@,
        forall|i: int| 0 <= i < wire_body_lines(body).len() ==> #[trigger] wire_body_lines(body)[i] != seq!['.'],
        body_lines(body)[0].len() > 0 ==> article_fold(posted_lines(h, body)).1 == crate::text::join(
            body_lines(body),
            "\n"@,
        ),
        body_lines(body)[0].len() > 0 && (forall|j: int| 0 <= j < body.len() ==> body[j] != '\r')
            ==> article_fold(posted_lines(h, body)).1 == body,
        sorted(h) && clean_headers(h) ==> article_fold(posted_lines(h, body)).0 == h,
        colon_free_names(h) ==> article_fold(posted_lines(h, body)).0 == trimmed_headers(h),
        article_fold(posted_lines(h, body)).1 == read_back_body(body),
        body.len() == 0 ==> article_fold(posted_lines(h, body)).1 == body,
{
    let hl = header_wire_lines(h);
    let bl = body_lines(body);
    let wl = wire_body_lines(body);
    let blank = seq![Seq::<char>::empty()];
    crate::text::lemma_split_len(body, '\n');
    // The text.
    lemma_wire_of_lines(h);
    lemma_body_block_lines(split(body, '\n'));
    lemma_crlf_lines_concat(hl, blank);
    lemma_crlf_lines_concat(hl + blank, wl);
    assert(crlf_lines(blank) =~= "\r\n"@) by {
        assert(blank.drop_last() =~= Seq::<Seq<char>>::empty());
        assert(crlf_lines(Seq::<Seq<char>>::empty()) == Seq::<char>::empty());
    }
    // No lone dot.
    assert forall|i: int| 0 <= i < wl.len() implies #[trigger] wl[i] != seq!['.'] by {
        lemma_dot_stuff(bl[i]);
    }
    // Reading back the headers.
    if sorted(h) && clean_headers(h) {
        lemma_fold_headers_back(h, h.len() as int);
        assert(hl.take(h.len() as int) =~= hl);
        assert(h.take(h.len() as int) =~= h);
        lemma_fold_concat(hl, blank);
        assert(blank.drop_last() =~= Seq::<Seq<char>>::empty());
        assert(fold_from(article_fold(hl), Seq::<Seq<char>>::empty()) == article_fold(hl));
        lemma_fold_concat(hl + blank, wl);
        lemma_fold_keeps_headers(article_fold(hl + blank), wl);
    }
    if colon_free_names(h) {
        lemma_fold_headers_trimmed(h, h.len() as int);
        assert(hl.take(h.len() as int) =~= hl);
        assert(h.take(h.len() as int) =~= h);
        lemma_fold_concat(hl, blank);
        assert(blank.drop_last() =~= Seq::<Seq<char>>::empty());
        assert(fold_from(article_fold(hl), Seq::<Seq<char>>::empty()) == article_fold(hl));
        lemma_fold_concat(hl + blank, wl);
        lemma_fold_keeps_headers(article_fold(hl + blank), wl);
    }
    // Reading back the body.
    assert(article_fold(posted_lines(h, body)).1 == read_back_body(body)) by {
        assert forall|i: int| 0 <= i < hl.len() implies #[trigger] hl[i].len() > 0 by {
            reveal_strlit(": ");
            assert((h[i].0 + ": "@ + h[i].1).len() >= 2);
        }
        lemma_fold_header_lines(hl);
        lemma_fold_concat(hl, blank);
        assert(blank.drop_last() =~= Seq::<Seq<char>>::empty());
        assert(fold_from(article_fold(hl), Seq::<Seq<char>>::empty()) == article_fold(hl));
        assert(article_fold(hl).1 =~= Seq::<char>::empty());
        lemma_fold_concat(hl + blank, wl);
        lemma_read_back_body(article_fold(hl).0, body);
    }
    if body.len() == 0 {
        reveal_strlit("\n");
        crate::text::lemma_last_index_is(body, '\n', -1);
        assert(split(body, '\n') == seq![body]);
        assert(trim_end(body, CharClass::CarriageReturn) =~= body);
        assert(bl =~= seq![body]);
        assert(leading_empty(bl.drop_first()) == 0);
    }
    if bl[0].len() > 0 {
        assert forall|i: int| 0 <= i < hl.len() implies #[trigger] hl[i].len() > 0 by {
            reveal_strlit(": ");
            assert((h[i].0 + ": "@ + h[i].1).len() >= 2);
        }
        lemma_fold_header_lines(hl);
        lemma_fold_concat(hl, blank);
        assert(blank.drop_last() =~= Seq::<Seq<char>>::empty());
        let st = article_fold(hl + blank);
        assert(fold_from(article_fold(hl), Seq::<Seq<char>>::empty()) == article_fold(hl));
        assert(article_fold(hl).1 =~= Seq::<char>::empty());
        assert(st == (article_fold(hl).0, Seq::<char>::empty(), true));
        lemma_fold_concat(hl + blank, wl);
        lemma_fold_body(article_fold(hl).0, bl);
        if forall|j: int| 0 <= j < body.len() ==> body[j] != '\r' {
            lemma_no_cr_pieces(body);
            crate::text::lemma_join_split(body, '\n');
            assert("\n"@ =~= seq!['\n']) by {
                reveal_strlit("\n");
            }
        }
    }
}

/// The value of the first header named `a` or `b` (ignoring ASCII case).
pub open spec fn find_either(s: Seq<(Seq<char>, Seq<char>)>, a: Seq<char>, b: Seq<char>) -> Option<
    Seq<char>,
>
    decreases s.len(),
{
    if s.len() == 0 {
        None
    } else if eq_ignore_case(s[0].0, a) || eq_ignore_case(s[0].0, b) {
        Some(s[0].1)
    } else {
        find_either(s.drop_first(), a, b)
    }
}

/// The group named by an article's Newsgroups / X-Mkd-Loc header, if valid.
pub open spec fn article_group(h: Seq<(Seq<char>, Seq<char>)>) -> Option<Seq<char>> {
    match find_either(h, "Newsgroups"@, "X-Mkd-Loc"@) {
        Some(v) => {
            let n = trim(trim(split(v, ',')[0], CharClass::Whitespace), CharClass::Whitespace);
            if valid_group(n) {
                Some(n)
            } else {
                None
            }
        },
        None => None,
    }
}

/// The version in an article's X-Mkd-Version header, when it parses.
pub open spec fn header_version(h: Seq<(Seq<char>, Seq<char>)>) -> Option<u32> {
    match find_ignore_case(h, "X-Mkd-Version"@) {
        Some(v) => match parse_unsigned(v, u32::MAX as nat) {
            Some(n) => Some(n as u32),
            None => None,
        },
        None => None,
    }
}

/// The selection of `group` must succeed (`211`).
pub fn check_group_selected(group: &GroupPath, reply: &str) -> (res: Result<()>)
    ensures
        res is Ok <==> reply_is(reply@, "211"@),
        res matches Err(e) ==> e is NotFound && e.text() == "GROUP "@ + group@ + ": "@ + reply@,
{
    if reply_has_code(reply, "211") {
        Ok(())
    } else {
        let mut v = chars_of("GROUP ");
        extend_str(&mut v, group.as_str());
        extend_str(&mut v, ": ");
        extend_str(&mut v, reply);
        Err(Error::NotFound(string_of(&v)))
    }
}

/// `GROUP <group>`.
pub fn group_command(group: &GroupPath) -> (res: String)
    ensures
        res@ == "GROUP "@ + group@,
{
    concat_str("GROUP ", group.as_str())
}

/// The Message-ID to ask for, in angle brackets.
pub fn article_message_id(post: &PostRef) -> (res: String)
    ensures
        res@ == angle_id(post.message_id@),
{
    let m = chars_of(post.message_id.as_str());
    if m.len() > 0 && m[0] == '<' {
        post.message_id.clone()
    } else {
        let mut v = chars_of("<");
        extend_chars(&mut v, &m);
        extend_str(&mut v, ">");
        string_of(&v)
    }
}

/// Whether the group must be selected before `ARTICLE` (it is known).
pub fn needs_group_select(post: &PostRef) -> (b: bool)
    ensures
        b == (post.group@.len() > 0),
{
    !post.group.as_str().is_empty()
}

/// `ARTICLE <mid>`.
pub fn article_command(mid: &str) -> (res: String)
    ensures
        res@ == "ARTICLE "@ + mid@,
{
    concat_str("ARTICLE ", mid)
}

/// The reply to `ARTICLE` must be `220`.
pub fn check_article_found(mid: &str, head: &str) -> (res: Result<()>)
    ensures
        res is Ok <==> reply_is(head@, "220"@),
        res matches Err(e) ==> e is NotFound && e.text() == "ARTICLE "@ + mid@ + ": "@ + head@,
{
    if reply_has_code(head, "220") {
        Ok(())
    } else {
        let mut v = chars_of("ARTICLE ");
        extend_str(&mut v, mid);
        extend_str(&mut v, ": ");
        extend_str(&mut v, head);
        Err(Error::NotFound(string_of(&v)))
    }
}

/// The views of a list of strings.
pub open spec fn string_views(v: Seq<String>) -> Seq<Seq<char>> {
    v.map_values(|s: String| s@)
}

/// Headers and body of an article from its lines (without the `.` line).
pub fn parse_article_lines(lines: &Vec<String>) -> (res: (HeaderMap, String))
    ensures
        res.0@ == article_fold(string_views(lines@)).0,
        res.1@ == article_fold(string_views(lines@)).1,
{
    let ghost ls = string_views(lines@);
    let mut headers = HeaderMap::new();
    let mut body: Vec<char> = Vec::new();
    let mut in_body = false;
    let mut i: usize = 0;
    proof {
        assert(ls.take(0) =~= Seq::<Seq<char>>::empty());
    }
    while i < lines.len()
        invariant
            i <= lines.len(),
            ls == string_views(lines@),
            article_fold(ls.take(i as int)) == (headers@, body@, in_body),
        decreases lines.len() - i,
    {
        proof {
            assert(ls.take(i + 1).drop_last() =~= ls.take(i as int));
            assert(ls.take(i + 1).last() == lines@[i as int]@);
        }
        let line = chars_of(lines[i].as_str());
        if !in_body {
            if line.len() == 0 {
                in_body = true;
            } else {
                match find_char(&line, ':') {
                    Some(k) => {
                        proof {
                            crate::text::lemma_first_index(line@, ':');
                        }
                        let key = slice_chars(&line, 0, k);
                        let val = slice_chars(&line, k + 1, line.len());
                        let key = trim_chars(&key, CharClass::Whitespace);
                        let val = trim_chars(&val, CharClass::Whitespace);
                        headers.insert(string_of(&key), string_of(&val));
                    },
                    None => {},
                }
            }
        } else {
            let content = if line.len() > 0 && line[0] == '.' {
                slice_chars(&line, 1, line.len())
            } else {
                line
            };
            if body.len() > 0 {
                body.push('\n');
                proof {
                    reveal_strlit("\n");
                }
            }
            extend_chars(&mut body, &content);
            proof {
                if line@.len() > 0 && line@[0] == '.' {
                    assert(content@ =~= line@.drop_first());
                }
            }
        }
        i += 1;
    }
    proof {
        assert(ls.take(lines.len() as int) =~= ls);
    }
    (headers, string_of(&body))
}

/// The first value of a header named `a` or `b` (ignoring ASCII case).
fn header_either(h: &HeaderMap, a: &str, b: &str) -> (r: Option<String>)
    ensures
        opt_view(r) == find_either(h@, a@, b@),
{
    let av = chars_of(a);
    let bv = chars_of(b);
    let mut i: usize = 0;
    proof {
        assert(h@.skip(0) =~= h@);
    }
    while i < h.len()
        invariant
            i <= h@.len(),
            av@ == a@,
            bv@ == b@,
            find_either(h@, a@, b@) == find_either(h@.skip(i as int), a@, b@),
        decreases h@.len() - i,
    {
        proof {
            assert(h@.skip(i as int).drop_first() =~= h@.skip(i + 1));
            assert(h@.skip(i as int)[0] == h@[i as int]);
        }
        let k = chars_of(h.name_at(i));
        if chars_eq_ignore_case(&k, &av) || chars_eq_ignore_case(&k, &bv) {
            return Some(string_of(&chars_of(h.value_at(i))));
        }
        i += 1;
    }
    None
}

/// The article built from its reply: slot, version, group and Message-ID
/// come from its headers when present, else from the reference asked for.
pub fn article_from_reply(post: &PostRef, mid: &str, headers: HeaderMap, body: String) -> (res:
    Article)
    ensures
        res.headers@ == headers@,
        res.body@ == body@,
        opt_view(res.post_ref.slot) == match find_ignore_case(headers@, "X-Mkd-Slot"@) {
            Some(s) => Some(s),
            None => opt_view(post.slot),
        },
        res.post_ref.version == match header_version(headers@) {
            Some(n) => Some(n),
            None => post.version,
        },
        res.post_ref.group@ == match article_group(headers@) {
            Some(g) => g,
            None => post.group@,
        },
        res.post_ref.message_id@ == match find_ignore_case(headers@, "Message-ID"@) {
            Some(m) => m,
            None => mid@,
        },
{
    let slot = match headers.get_ignore_case("X-Mkd-Slot") {
        Some(s) => Some(string_of(&chars_of(s))),
        None => match &post.slot {
            Some(s) => Some(s.clone()),
            None => None,
        },
    };
    let version = match headers.get_ignore_case("X-Mkd-Version") {
        Some(v) => match parse_uint(&chars_of(v), 0xffff_ffff) {
            Some(n) => Some(n as u32),
            None => post.version,
        },
        None => post.version,
    };
    let group = match header_either(&headers, "Newsgroups", "X-Mkd-Loc") {
        Some(v) => {
            let vv = chars_of(v.as_str());
            let pieces = split_chars(&vv, ',');
            proof {
                crate::text::lemma_split_len(vv@, ',');
                assert(views(pieces@)[0] == pieces@[0]@);
            }
            let first = trim_chars(&pieces[0], CharClass::Whitespace);
            match GroupPath::parse(string_of(&first).as_str()) {
                Ok(g) => g,
                Err(_) => post.group.duplicate(),
            }
        },
        None => post.group.duplicate(),
    };
    let message_id = match headers.get_ignore_case("Message-ID") {
        Some(m) => string_of(&chars_of(m)),
        None => string_of(&chars_of(mid)),
    };
    Article { post_ref: PostRef { message_id, group, slot, version }, headers, body }
}

// ------------------------------------------------------------------------
// Listing groups
// ------------------------------------------------------------------------

/// `LIST ACTIVE [wildmat]`.
pub fn list_active_command(wildmat: Option<&str>) -> (res: String)
    ensures
        res@ == match wildmat {
            Some(w) => "LIST ACTIVE "@ + w@,
            None => "LIST ACTIVE"@,
        },
{
    match wildmat {
        Some(w) => concat_str("LIST ACTIVE ", w),
        None => string_of(&chars_of("LIST ACTIVE")),
    }
}

/// The reply to `LIST ACTIVE` must be `215`.
pub fn check_list_active(head: &str) -> (res: Result<()>)
    ensures
        res is Ok <==> reply_is(head@, "215"@),
        res matches Err(e) ==> e is Message && e.text() == "LIST ACTIVE: "@ + head@,
{
    if reply_has_code(head, "215") {
        Ok(())
    } else {
        Err(Error::Message(concat_str("LIST ACTIVE: ", head)))
    }
}

/// A number field that defaults to 0 when it does not parse.
pub open spec fn number_or_zero(s: Seq<char>) -> nat {
    match parse_unsigned(s, u64::MAX as nat) {
        Some(n) => n,
        None => 0,
    }
}

/// The view of a group summary.
pub open spec fn group_info_view(g: GroupInfo) -> (Seq<char>, u64, u64, char) {
    (g.name@, g.high, g.low, g.status)
}

/// `group high low status`: lines with fewer than four words are skipped.
pub open spec fn list_active_row(line: Seq<char>) -> Option<(Seq<char>, u64, u64, char)> {
    let w = words(line);
    if w.len() >= 4 {
        Some((w[0], number_or_zero(w[1]) as u64, number_or_zero(w[2]) as u64, w[3][0]))
    } else {
        None
    }
}

fn u64_or_zero(v: &Vec<char>) -> (n: u64)
    ensures
        n as nat == number_or_zero(v@),
{
    match parse_uint(v, u64::MAX) {
        Some(n) => n,
        None => 0,
    }
}

/// One `LIST ACTIVE` line.
pub fn parse_list_active_line(line: &str) -> (res: Option<GroupInfo>)
    ensures
        match res {
            Some(g) => list_active_row(line@) == Some(group_info_view(g)),
            None => list_active_row(line@) is None,
        },
{
    let v = chars_of(line);
    let w = words_of(&v);
    if w.len() < 4 {
        return None;
    }
    proof {
        assert(views(w@)[0] == w@[0]@ && views(w@)[1] == w@[1]@);
        assert(views(w@)[2] == w@[2]@ && views(w@)[3] == w@[3]@);
        words_nonempty(v@, 3);
    }
    let name = string_of(&w[0]);
    let high = u64_or_zero(&w[1]);
    let low = u64_or_zero(&w[2]);
    let status = w[3][0];
    Some(GroupInfo { name, high, low, status })
}

/// Every word is non-empty.
proof fn words_nonempty(s: Seq<char>, i: int)
    requires
        0 <= i < words(s).len(),
    ensures
        words(s)[i].len() > 0,
    decreases s.len(),
{
    let t = crate::text::trim_start(s, CharClass::Whitespace);
    crate::text::lemma_lead_count_bound(s, CharClass::Whitespace);
    if t.len() > 0 {
        crate::text::lemma_first_in_class(t, CharClass::Whitespace);
        let k = crate::text::first_in_class(t, CharClass::Whitespace);
        if i > 0 {
            words_nonempty(t.skip(k as int), i - 1);
        }
    }
}

/// The rows of all `LIST ACTIVE` lines, in order, skipping those that do not parse.
pub open spec fn list_active_rows(lines: Seq<Seq<char>>) -> Seq<(Seq<char>, u64, u64, char)>
    decreases lines.len(),
{
    if lines.len() == 0 {
        Seq::empty()
    } else {
        list_active_rows(lines.drop_last()) + match list_active_row(lines.last()) {
            Some(r) => seq![r],
            None => Seq::empty(),
        }
    }
}

/// All `LIST ACTIVE` rows of the reply lines (without the `.` line).
pub fn parse_list_active(lines: &Vec<String>) -> (res: Vec<GroupInfo>)
    ensures
        res@.map_values(|g: GroupInfo| group_info_view(g)) == list_active_rows(string_views(lines@)),
{
    let ghost ls = string_views(lines@);
    let mut out: Vec<GroupInfo> = Vec::new();
    let mut i: usize = 0;
    proof {
        assert(ls.take(0) =~= Seq::<Seq<char>>::empty());
        assert(out@.map_values(|g: GroupInfo| group_info_view(g)) =~= list_active_rows(ls.take(0)));
    }
    while i < lines.len()
        invariant
            i <= lines.len(),
            ls == string_views(lines@),
            out@.map_values(|g: GroupInfo| group_info_view(g)) == list_active_rows(ls.take(i as int)),
        decreases lines.len() - i,
    {
        proof {
            assert(ls.take(i + 1).drop_last() =~= ls.take(i as int));
            assert(ls.take(i + 1).last() == lines@[i as int]@);
        }
        let ghost before = out@;
        match parse_list_active_line(lines[i].as_str()) {
            Some(g) => {
                out.push(g);
                proof {
                    assert(out@.map_values(|g: GroupInfo| group_info_view(g)) =~= before.map_values(
                        |g: GroupInfo| group_info_view(g),
                    ) + seq![group_info_view(g)]);
                }
            },
            None => {
                proof {
                    assert(before.map_values(|g: GroupInfo| group_info_view(g)) + Seq::empty()
                        =~= before.map_values(|g: GroupInfo| group_info_view(g)));
                }
            },
        }
        i += 1;
    }
    proof {
        assert(ls.take(lines.len() as int) =~= ls);
    }
    out
}


// ------------------------------------------------------------------------
// Overview
// ------------------------------------------------------------------------

/// `XOVER [range]`: a blank range is left out.
pub fn xover_command(range: Option<&str>) -> (res: String)
    ensures
        res@ == match range {
            Some(r) => if trim(r@, CharClass::Whitespace).len() > 0 {
                "XOVER "@ + trim(r@, CharClass::Whitespace)
            } else {
                "XOVER"@
            },
            None => "XOVER"@,
        },
{
    match range {
        Some(r) => {
            let t = trim_chars(&chars_of(r), CharClass::Whitespace);
            if t.len() > 0 {
                let mut v = chars_of("XOVER ");
                extend_chars(&mut v, &t);
                string_of(&v)
            } else {
                string_of(&chars_of("XOVER"))
            }
        },
        None => string_of(&chars_of("XOVER")),
    }
}

/// The reply to `XOVER`: `224` means rows follow, `420` means there are
/// none (`Ok(false)`), anything else fails.
pub fn check_xover_head(head: &str) -> (res: Result<bool>)
    ensures
        match res {
            Ok(rows) => if rows {
                !reply_is(head@, "420"@) && reply_is(head@, "224"@)
            } else {
                reply_is(head@, "420"@)
            },
            Err(e) => !reply_is(head@, "420"@) && !reply_is(head@, "224"@) && e is Message && e.text()
                == "XOVER: "@ + head@,
        },
{
    if reply_has_code(head, "420") {
        Ok(false)
    } else if reply_has_code(head, "224") {
        Ok(true)
    } else {
        Err(Error::Message(concat_str("XOVER: ", head)))
    }
}

/// The view of an overview row.
pub open spec fn overview_view(r: OverviewRow) -> (u64, Seq<char>, Seq<char>, Seq<char>, Seq<char>, u64, u64) {
    (r.number, r.subject@, r.from@, r.date@, r.message_id@, r.bytes, r.lines)
}

/// Optional number field `i` of a split line, 0 when absent or unparsable.
pub open spec fn field_number(parts: Seq<Seq<char>>, i: int) -> u64 {
    if i < parts.len() {
        number_or_zero(trim(parts[i], CharClass::Whitespace)) as u64
    } else {
        0
    }
}

/// A tab-separated XOVER line:
/// `num\tSubject\tFrom\tDate\tMessage-ID\tReferences\tBytes\tLines\t…`.
pub open spec fn xover_row(line: Seq<char>) -> Option<(u64, Seq<char>, Seq<char>, Seq<char>, Seq<char>, u64, u64)> {
    let l = trim_end(line, CharClass::LineEnd);
    let parts = split(l, '\t');
    if l.len() == 0 || parts.len() < 5 {
        None
    } else {
        match parse_unsigned(trim(parts[0], CharClass::Whitespace), u64::MAX as nat) {
            Some(n) => Some(
                (
                    n as u64,
                    parts[1],
                    parts[2],
                    parts[3],
                    parts[4],
                    field_number(parts, 6),
                    field_number(parts, 7),
                ),
            ),
            None => None,
        }
    }
}

/// XOVER fields in order: a line (without line ends) splits at tabs into
/// `num`, Subject, From, Date, Message-ID, …. With fewer than five fields it
/// reads as nothing; otherwise, when the first field (trimmed) is a number,
/// the row has that number, the second field as subject, the third as From,
/// the fourth as Date and the fifth as Message-ID, and the seventh and eighth
/// fields (trimmed) as byte and line counts, 0 when absent or not a number.
pub proof fn lemma_xover_fields(line: Seq<char>)
    requires
        forall|i: int| 0 <= i < line.len() ==> #[trigger] line[i] != '\r' && line[i] != '\n',
    ensures
        split(line, '\t').len() < 5 ==> xover_row(line) is None,
        xover_row(line) matches Some(r) ==> r.1 == split(line, '\t')[1] && r.2 == split(line, '\t')[2]
            && r.3 == split(line, '\t')[3] && r.4 == split(line, '\t')[4],
        xover_row(line) matches Some(r) ==> r.5 == (if split(line, '\t').len() > 6 {
            parse_unsigned(trim(split(line, '\t')[6], CharClass::Whitespace), u64::MAX as nat).unwrap_or(0)
        } else {
            0
        }) && r.6 == (if split(line, '\t').len() > 7 {
            parse_unsigned(trim(split(line, '\t')[7], CharClass::Whitespace), u64::MAX as nat).unwrap_or(0)
        } else {
            0
        }),
        split(line, '\t').len() >= 5 ==> match parse_unsigned(
            trim(split(line, '\t')[0], CharClass::Whitespace),
            u64::MAX as nat,
        ) {
            Some(n) => xover_row(line) matches Some(r) && r.0 == n,
            None => xover_row(line) is None,
        },
{
    if line.len() > 0 {
        assert(!crate::text::in_class(CharClass::LineEnd, line.last()));
    }
    assert(crate::text::trail_count(line, CharClass::LineEnd) == 0);
    assert(trim_end(line, CharClass::LineEnd) =~= line);
    if line.len() == 0 {
        crate::text::lemma_split_len(line, '\t');
    }
}

fn number_field(parts: &Vec<Vec<char>>, i: usize) -> (n: u64)
    ensures
        n == field_number(views(parts@), i as int),
{
    if i < parts.len() {
        proof {
            assert(views(parts@)[i as int] == parts@[i as int]@);
        }
        let t = trim_chars(&parts[i], CharClass::Whitespace);
        u64_or_zero(&t)
    } else {
        0
    }
}

/// Parse a single XOVER overview line (tab-separated).
pub fn parse_xover_line(line: &str) -> (res: Option<OverviewRow>)
    ensures
        match res {
            Some(r) => xover_row(line@) == Some(overview_view(r)),
            None => xover_row(line@) is None,
        },
{
    let l = trim_end_chars(&chars_of(line), CharClass::LineEnd);
    let parts = split_chars(&l, '\t');
    if l.len() == 0 || parts.len() < 5 {
        return None;
    }
    proof {
        assert(views(parts@)[0] == parts@[0]@);
        assert(views(parts@)[1] == parts@[1]@);
        assert(views(parts@)[2] == parts@[2]@);
        assert(views(parts@)[3] == parts@[3]@);
        assert(views(parts@)[4] == parts@[4]@);
    }
    let n0 = trim_chars(&parts[0], CharClass::Whitespace);
    let number = match parse_uint(&n0, u64::MAX) {
        Some(n) => n,
        None => return None,
    };
    Some(
        OverviewRow {
            number,
            subject: string_of(&parts[1]),
            from: string_of(&parts[2]),
            date: string_of(&parts[3]),
            message_id: string_of(&parts[4]),
            bytes: number_field(&parts, 6),
            lines: number_field(&parts, 7),
        },
    )
}

/// The rows of all XOVER lines, in order, skipping those that do not parse.
pub open spec fn xover_rows(lines: Seq<Seq<char>>) -> Seq<(u64, Seq<char>, Seq<char>, Seq<char>, Seq<char>, u64, u64)>
    decreases lines.len(),
{
    if lines.len() == 0 {
        Seq::empty()
    } else {
        xover_rows(lines.drop_last()) + match xover_row(lines.last()) {
            Some(r) => seq![r],
            None => Seq::empty(),
        }
    }
}

/// All overview rows of the reply lines (without the `.` line).
pub fn parse_overview(lines: &Vec<String>) -> (res: Vec<OverviewRow>)
    ensures
        res@.map_values(|r: OverviewRow| overview_view(r)) == xover_rows(string_views(lines@)),
{
    let ghost ls = string_views(lines@);
    let mut out: Vec<OverviewRow> = Vec::new();
    let mut i: usize = 0;
    proof {
        assert(ls.take(0) =~= Seq::<Seq<char>>::empty());
        assert(out@.map_values(|r: OverviewRow| overview_view(r)) =~= xover_rows(ls.take(0)));
    }
    while i < lines.len()
        invariant
            i <= lines.len(),
            ls == string_views(lines@),
            out@.map_values(|r: OverviewRow| overview_view(r)) == xover_rows(ls.take(i as int)),
        decreases lines.len() - i,
    {
        proof {
            assert(ls.take(i + 1).drop_last() =~= ls.take(i as int));
            assert(ls.take(i + 1).last() == lines@[i as int]@);
        }
        let ghost before = out@;
        match parse_xover_line(lines[i].as_str()) {
            Some(r) => {
                out.push(r);
                proof {
                    assert(out@.map_values(|r: OverviewRow| overview_view(r)) =~= before.map_values(
                        |r: OverviewRow| overview_view(r),
                    ) + seq![overview_view(r)]);
                }
            },
            None => {
                proof {
                    assert(before.map_values(|r: OverviewRow| overview_view(r)) + Seq::empty()
                        =~= before.map_values(|r: OverviewRow| overview_view(r)));
                }
            },
        }
        i += 1;
    }
    proof {
        assert(ls.take(lines.len() as int) =~= ls);
    }
    out
}


// ------------------------------------------------------------------------
// Resolving documents by source file
// ------------------------------------------------------------------------

/// A path written with `/` as its only separator and without the syntax
/// of any platform's prefixes: no `\\`, no `:`, not starting with `//`.
pub open spec fn slash_path(s: Seq<char>) -> bool {
    &&& forall|j: int| 0 <= j < s.len() ==> #[trigger] s[j] != '\\' && s[j] != ':'
    &&& !starts_with(s, "//"@)
}

/// A path component that is a name: non-empty, without `/`, and not `.`
/// or `..`.
pub open spec fn plain_component(n: Seq<char>) -> bool {
    &&& n.len() > 0
    &&& forall|j: int| 0 <= j < n.len() ==> #[trigger] n[j] != '/'
    &&& n != "."@
    &&& n != ".."@
}

/// The text after the last `/` of a path.
pub open spec fn last_segment(s: Seq<char>) -> Seq<char> {
    s.skip(last_index(s, '/') + 1)
}

/// A path whose last component is `..`.
pub open spec fn ends_in_parent(s: Seq<char>) -> bool {
    s == ".."@ || crate::text::ends_with(s, "/.."@)
}

/// `Path::file_name` of `source_file`, as a string. The contract states
/// only what holds on every platform: a `/`-separated path (see
/// [`slash_path`]) whose last segment is a name has that segment as its
/// final component, and a path that terminates in `..` has none. Other
/// paths (with `\\`, drive or UNC prefixes) are parsed by the platform's
/// rules, of which nothing is stated.
#[verifier::external_body]
fn path_file_name(source_file: &str) -> (r: Option<String>)
    ensures
        slash_path(source_file@) && plain_component(last_segment(source_file@)) ==> opt_view(r) == Some(
            last_segment(source_file@)),
        slash_path(source_file@) && ends_in_parent(source_file@) ==> opt_view(r) == None::<Seq<char>>,
{
    std::path::Path::new(source_file).file_name().and_then(|n| n.to_str()).map(|n| n.to_string())
}

/// The file name of `source_file`, or `source_file` itself when it has none.
pub fn source_base(source_file: &str) -> (res: String)
    ensures
        slash_path(source_file@) && plain_component(last_segment(source_file@)) ==> res@
            == last_segment(source_file@),
        slash_path(source_file@) && ends_in_parent(source_file@) ==> res@ == source_file@,
{
    match path_file_name(source_file) {
        Some(n) => n,
        None => string_of(&chars_of(source_file)),
    }
}

/// A lookup by source file needs at least one overview row.
pub fn check_overview_rows(rows: &Vec<OverviewRow>, group: &GroupPath) -> (res: Result<()>)
    ensures
        res is Ok <==> rows.len() > 0,
        res matches Err(e) ==> e is NotFound && e.text() == "no overview rows in "@ + group@,
{
    if rows.len() == 0 {
        Err(Error::NotFound(concat_str("no overview rows in ", group.as_str())))
    } else {
        Ok(())
    }
}

/// Whether an overview subject names the source file.
pub open spec fn subject_names_source(subject: Seq<char>, source: Seq<char>, base: Seq<char>) -> bool {
    let t = trim(subject, CharClass::Whitespace);
    t == source || t == base || crate::text::ends_with(t, source)
}

/// Message-IDs of the rows whose subject names the source file, in order.
pub open spec fn matching_ids(rows: Seq<(Seq<char>, Seq<char>)>, source: Seq<char>, base: Seq<char>) -> Seq<Seq<char>>
    decreases rows.len(),
{
    if rows.len() == 0 {
        Seq::empty()
    } else {
        matching_ids(rows.drop_last(), source, base) + if subject_names_source(rows.last().0, source, base) {
            seq![rows.last().1]
        } else {
            Seq::empty()
        }
    }
}

/// `(subject, Message-ID)` of each overview row.
pub open spec fn row_keys(rows: Seq<OverviewRow>) -> Seq<(Seq<char>, Seq<char>)> {
    rows.map_values(|r: OverviewRow| (r.subject@, r.message_id@))
}

/// The Message-IDs to probe: those whose subject names the source file, or
/// every row when none does.
pub open spec fn candidate_ids(rows: Seq<(Seq<char>, Seq<char>)>, source: Seq<char>, base: Seq<char>) -> Seq<Seq<char>> {
    let m = matching_ids(rows, source, base);
    if m.len() > 0 {
        m
    } else {
        rows.map_values(|r: (Seq<char>, Seq<char>)| r.1)
    }
}

/// References to probe for a source file (see [`candidate_ids`]).
pub fn source_candidates(rows: &Vec<OverviewRow>, group: &GroupPath, source_file: &str, base: &str) -> (res: Vec<PostRef>)
    ensures
        res.len() == candidate_ids(row_keys(rows@), source_file@, base@).len(),
        forall|i: int| 0 <= i < res.len() ==> {
            &&& (#[trigger] res@[i]).message_id@ == candidate_ids(row_keys(rows@), source_file@, base@)[i]
            &&& res@[i].group@ == group@
            &&& res@[i].slot is None
            &&& res@[i].version is None
        },
{
    let ghost keys = row_keys(rows@);
    let src = chars_of(source_file);
    let bv = chars_of(base);
    let mut matched: Vec<PostRef> = Vec::new();
    let mut all: Vec<PostRef> = Vec::new();
    let mut i: usize = 0;
    proof {
        assert(keys.take(0) =~= Seq::<(Seq<char>, Seq<char>)>::empty());
    }
    while i < rows.len()
        invariant
            i <= rows.len(),
            keys == row_keys(rows@),
            src@ == source_file@,
            bv@ == base@,
            matched.len() == matching_ids(keys.take(i as int), source_file@, base@).len(),
            forall|k: int| 0 <= k < matched.len() ==> {
                &&& (#[trigger] matched@[k]).message_id@ == matching_ids(keys.take(i as int), source_file@, base@)[k]
                &&& matched@[k].group@ == group@
                &&& matched@[k].slot is None
                &&& matched@[k].version is None
            },
            all.len() == i,
            forall|k: int| 0 <= k < all.len() ==> {
                &&& (#[trigger] all@[k]).message_id@ == keys[k].1
                &&& all@[k].group@ == group@
                &&& all@[k].slot is None
                &&& all@[k].version is None
            },
        decreases rows.len() - i,
    {
        proof {
            assert(keys.take(i + 1).drop_last() =~= keys.take(i as int));
            assert(keys.take(i + 1).last() == keys[i as int]);
            assert(keys[i as int] == (rows@[i as int].subject@, rows@[i as int].message_id@));
        }
        let subj = trim_chars(&chars_of(rows[i].subject.as_str()), CharClass::Whitespace);
        let hit = crate::text::chars_eq(&subj, &src) || crate::text::chars_eq(&subj, &bv)
            || crate::text::has_suffix(&subj, &src);
        let ghost mb = matched@;
        if hit {
            matched.push(PostRef { message_id: rows[i].message_id.clone(), group: group.duplicate(), slot: None, version: None });
            proof {
                let prev = matching_ids(keys.take(i as int), source_file@, base@);
                assert(matching_ids(keys.take(i + 1), source_file@, base@) =~= prev.push(keys[i as int].1));
                assert forall|k: int| 0 <= k < matched.len() implies (#[trigger] matched@[k]).message_id@
                    == matching_ids(keys.take(i + 1), source_file@, base@)[k] by {
                    if k < mb.len() {
                        assert(matched@[k] == mb[k]);
                    }
                }
            }
        } else {
            proof {
                let prev = matching_ids(keys.take(i as int), source_file@, base@);
                assert(matching_ids(keys.take(i + 1), source_file@, base@) =~= prev);
            }
        }
        all.push(PostRef { message_id: rows[i].message_id.clone(), group: group.duplicate(), slot: None, version: None });
        i += 1;
    }
    proof {
        assert(keys.take(rows.len() as int) =~= keys);
    }
    if matched.len() > 0 {
        matched
    } else {
        proof {
            assert forall|k: int| 0 <= k < all.len() implies (#[trigger] all@[k]).message_id@
                == candidate_ids(keys, source_file@, base@)[k] by {
                assert(keys.map_values(|r: (Seq<char>, Seq<char>)| r.1)[k] == keys[k].1);
            }
        }
        all
    }
}

/// How an article found for a source file compares with the best so far.
#[derive(Debug, Clone, Copy, PartialEq, Eq, Structural)]
pub enum SourceVerdict {
    /// The article does not belong to the source file, or is not the wanted version.
    Skip,
    /// The article is the wanted version.
    Found,
    /// The article is at least as new as the best so far; its version.
    Better(u32),
    /// The article is older than the best so far.
    Older,
}

/// Whether an article's headers name the source file.
pub open spec fn article_names_source(h: Seq<(Seq<char>, Seq<char>)>, source: Seq<char>, base: Seq<char>) -> bool {
    let src = match find_ignore_case(h, "X-Mkd-Source-File"@) {
        Some(v) => v,
        None => Seq::empty(),
    };
    let subj = match find_ignore_case(h, "Subject"@) {
        Some(v) => v,
        None => Seq::empty(),
    };
    ||| src == source
    ||| src == base
    ||| subj == source
    ||| subj == base
    ||| src.len() > 0 && (crate::text::ends_with(src, source) || crate::text::ends_with(src, base))
}

/// The version of an article: its reference's, else its header's, else 1.
pub open spec fn article_version(version: Option<u32>, h: Seq<(Seq<char>, Seq<char>)>) -> u32 {
    match version {
        Some(v) => v,
        None => match header_version(h) {
            Some(n) => n,
            None => 1,
        },
    }
}

/// The verdict on one article (see [`SourceVerdict`]); `best` is the
/// version of the best article so far.
pub open spec fn source_verdict(
    h: Seq<(Seq<char>, Seq<char>)>,
    version: Option<u32>,
    source: Seq<char>,
    base: Seq<char>,
    want: Option<u32>,
    best: Option<u32>,
) -> SourceVerdict {
    if !article_names_source(h, source, base) {
        SourceVerdict::Skip
    } else {
        let ver = article_version(version, h);
        match want {
            Some(w) => if ver == w {
                SourceVerdict::Found
            } else {
                SourceVerdict::Skip
            },
            None => match best {
                None => SourceVerdict::Better(ver),
                Some(b) => if ver >= b {
                    SourceVerdict::Better(ver)
                } else {
                    SourceVerdict::Older
                },
            },
        }
    }
}

/// An article whose Subject header, or whose X-Mkd-Source-File header, is
/// the source file path or its base name, or whose X-Mkd-Source-File header
/// ends with one of them, belongs to that source file: with no
/// wanted version it is never skipped (it is the new best, or older than the
/// best so far: older exactly when its version is below the best's), the
/// first one being the best; with a wanted version it is found exactly when
/// its version is that one. Its version is its reference's, else 1 when it
/// has no X-Mkd-Version header.
pub proof fn lemma_source_named_by_headers(
    h: Seq<(Seq<char>, Seq<char>)>,
    version: Option<u32>,
    source: Seq<char>,
    base: Seq<char>,
    want: Option<u32>,
    best: Option<u32>,
)
    requires
        find_ignore_case(h, "Subject"@) == Some(source) || find_ignore_case(h, "Subject"@) == Some(base)
            || find_ignore_case(h, "X-Mkd-Source-File"@) == Some(source) || find_ignore_case(
            h,
            "X-Mkd-Source-File"@,
        ) == Some(base) || (find_ignore_case(h, "X-Mkd-Source-File"@) matches Some(f) && f.len() > 0
            && (crate::text::ends_with(f, source) || crate::text::ends_with(f, base))),
    ensures
        want is None ==> source_verdict(h, version, source, base, want, best) != SourceVerdict::Skip,
        want is None && best is None ==> source_verdict(h, version, source, base, want, best)
            == SourceVerdict::Better(article_version(version, h)),
        version matches Some(v) ==> (want is None && best is None ==> source_verdict(
            h,
            version,
            source,
            base,
            want,
            best,
        ) == SourceVerdict::Better(v)),
        want is None && best is None && version is None && find_ignore_case(h, "X-Mkd-Version"@)
            is None ==> source_verdict(h, version, source, base, want, best) == SourceVerdict::Better(1),
        best matches Some(b) ==> (want is None && b > article_version(version, h) ==> source_verdict(
            h,
            version,
            source,
            base,
            want,
            best,
        ) == SourceVerdict::Older),
        want matches Some(w) ==> (source_verdict(h, version, source, base, want, best)
            == SourceVerdict::Found) == (article_version(version, h) == w),
        want is Some ==> source_verdict(h, version, source, base, want, best) == SourceVerdict::Found
            || source_verdict(h, version, source, base, want, best) == SourceVerdict::Skip,
{
}

/// An article whose Subject and X-Mkd-Source-File headers (an absent one
/// read as empty) are neither the source file path nor its base name, and
/// whose X-Mkd-Source-File header does not end with either, is skipped.
pub proof fn lemma_source_not_named_skipped(
    h: Seq<(Seq<char>, Seq<char>)>,
    version: Option<u32>,
    source: Seq<char>,
    base: Seq<char>,
    want: Option<u32>,
    best: Option<u32>,
    subject: Seq<char>,
    file: Seq<char>,
)
    requires
        subject == (match find_ignore_case(h, "Subject"@) {
            Some(v) => v,
            None => Seq::empty(),
        }),
        file == (match find_ignore_case(h, "X-Mkd-Source-File"@) {
            Some(v) => v,
            None => Seq::empty(),
        }),
        subject != source && subject != base,
        file != source && file != base,
        file.len() > 0 ==> !crate::text::ends_with(file, source) && !crate::text::ends_with(file, base),
    ensures
        source_verdict(h, version, source, base, want, best) == SourceVerdict::Skip,
{
}

fn header_or_empty(h: &HeaderMap, name: &str) -> (r: Vec<char>)
    ensures
        r@ == match find_ignore_case(h@, name@) {
            Some(v) => v,
            None => Seq::empty(),
        },
{
    match h.get_ignore_case(name) {
        Some(v) => chars_of(v),
        None => Vec::new(),
    }
}

/// Judge one article fetched while resolving a source file.
pub fn judge_source_article(art: &Article, source_file: &str, base: &str, want: Option<u32>, best: Option<u32>) -> (res: SourceVerdict)
    ensures
        res == source_verdict(art.headers@, art.post_ref.version, source_file@, base@, want, best),
{
    let src = header_or_empty(&art.headers, "X-Mkd-Source-File");
    let subj = header_or_empty(&art.headers, "Subject");
    let sv = chars_of(source_file);
    let bv = chars_of(base);
    let names = crate::text::chars_eq(&src, &sv) || crate::text::chars_eq(&src, &bv)
        || crate::text::chars_eq(&subj, &sv) || crate::text::chars_eq(&subj, &bv) || (src.len() > 0
        && (crate::text::has_suffix(&src, &sv) || crate::text::has_suffix(&src, &bv)));
    if !names {
        return SourceVerdict::Skip;
    }
    let ver: u32 = match art.post_ref.version {
        Some(v) => v,
        None => match art.headers.get_ignore_case("X-Mkd-Version") {
            Some(v) => match parse_uint(&chars_of(v), 0xffff_ffff) {
                Some(n) => n as u32,
                None => 1,
            },
            None => 1,
        },
    };
    match want {
        Some(w) => if ver == w {
            SourceVerdict::Found
        } else {
            SourceVerdict::Skip
        },
        None => match best {
            None => SourceVerdict::Better(ver),
            Some(b) => if ver >= b {
                SourceVerdict::Better(ver)
            } else {
                SourceVerdict::Older
            },
        },
    }
}

/// What to do after considering one article.
#[derive(Debug)]
pub enum ResolveFlow {
    /// The wanted version: the answer.
    Found(Article),
    /// Keep probing with this best article so far.
    Continue(Option<Article>),
}

/// The version by which the best article so far is compared.
pub open spec fn best_version(best: Option<Article>) -> Option<u32> {
    match best {
        Some(a) => Some(match a.post_ref.version {
            Some(v) => v,
            None => 1,
        }),
        None => None,
    }
}

/// The version of the best article after considering articles (headers
/// and version) in order, from `best`, when no version is wanted.
pub open spec fn kept_version(
    best: Option<u32>,
    arts: Seq<(Seq<(Seq<char>, Seq<char>)>, Option<u32>)>,
    source: Seq<char>,
    base: Seq<char>,
) -> Option<u32>
    decreases arts.len(),
{
    if arts.len() == 0 {
        best
    } else {
        let prev = kept_version(best, arts.drop_last(), source, base);
        match source_verdict(arts.last().0, arts.last().1, source, base, None, prev) {
            SourceVerdict::Better(v) => Some(v),
            _ => prev,
        }
    }
}

/// Without a wanted version, a lookup by source file picks the highest
/// version: considering articles in order keeps none exactly when none
/// names the source file, and otherwise the version of one that does,
/// which no other such article exceeds.
pub proof fn lemma_resolve_picks_highest(
    arts: Seq<(Seq<(Seq<char>, Seq<char>)>, Option<u32>)>,
    source: Seq<char>,
    base: Seq<char>,
)
    ensures
        kept_version(None, arts, source, base) is None <==> forall|i: int|
            0 <= i < arts.len() ==> !article_names_source(#[trigger] arts[i].0, source, base),
        kept_version(None, arts, source, base) matches Some(m) ==> {
            &&& exists|i: int|
                0 <= i < arts.len() && article_names_source(#[trigger] arts[i].0, source, base)
                    && article_version(arts[i].1, arts[i].0) == m
            &&& forall|i: int|
                0 <= i < arts.len() && article_names_source(#[trigger] arts[i].0, source, base)
                    ==> article_version(arts[i].1, arts[i].0) <= m
        },
    decreases arts.len(),
{
    if arts.len() > 0 {
        let p = arts.drop_last();
        let n = arts.len() - 1;
        lemma_resolve_picks_highest(p, source, base);
        assert forall|i: int| 0 <= i < n implies #[trigger] arts[i] == p[i] by {}
        let prev = kept_version(None, p, source, base);
        let last = arts.last();
        assert(arts[n] == last);
        if article_names_source(last.0, source, base) {
            let v = article_version(last.1, last.0);
            match prev {
                None => {
                    assert forall|i: int|
                        0 <= i < arts.len() && article_names_source(#[trigger] arts[i].0, source, base)
                            implies article_version(arts[i].1, arts[i].0) <= v by {
                        if i < n {
                            assert(!article_names_source(p[i].0, source, base));
                        }
                    }
                },
                Some(b) => {
                    if v >= b {
                        assert forall|i: int|
                            0 <= i < arts.len() && article_names_source(#[trigger] arts[i].0, source, base)
                                implies article_version(arts[i].1, arts[i].0) <= v by {
                            if i < n {
                                assert(article_names_source(p[i].0, source, base));
                            }
                        }
                    } else {
                        let j = choose|j: int|
                            0 <= j < p.len() && article_names_source(#[trigger] p[j].0, source, base)
                                && article_version(p[j].1, p[j].0) == b;
                        assert(arts[j] == p[j]);
                        assert forall|i: int|
                            0 <= i < arts.len() && article_names_source(#[trigger] arts[i].0, source, base)
                                implies article_version(arts[i].1, arts[i].0) <= b by {
                            if i < n {
                                assert(article_names_source(p[i].0, source, base));
                            }
                        }
                    }
                },
            }
        } else {
            match prev {
                None => {
                    assert forall|i: int| 0 <= i < arts.len() implies !article_names_source(
                        #[trigger] arts[i].0,
                        source,
                        base,
                    ) by {
                        if i < n {
                            assert(!article_names_source(p[i].0, source, base));
                        }
                    }
                },
                Some(b) => {
                    let j = choose|j: int|
                        0 <= j < p.len() && article_names_source(#[trigger] p[j].0, source, base)
                            && article_version(p[j].1, p[j].0) == b;
                    assert(arts[j] == p[j]);
                    assert forall|i: int|
                        0 <= i < arts.len() && article_names_source(#[trigger] arts[i].0, source, base)
                            implies article_version(arts[i].1, arts[i].0) <= b by {
                        if i < n {
                            assert(article_names_source(p[i].0, source, base));
                        }
                    }
                },
            }
        }
    }
}

/// The position of the first article (headers and version) that names the
/// source file with version `w`, or -1.
pub open spec fn first_wanted(
    arts: Seq<(Seq<(Seq<char>, Seq<char>)>, Option<u32>)>,
    source: Seq<char>,
    base: Seq<char>,
    w: u32,
) -> int
    decreases arts.len(),
{
    if arts.len() == 0 {
        -1
    } else if article_names_source(arts[0].0, source, base) && article_version(arts[0].1, arts[0].0) == w {
        0
    } else {
        let r = first_wanted(arts.drop_first(), source, base, w);
        if r < 0 {
            -1
        } else {
            r + 1
        }
    }
}

/// With a wanted version, a lookup by source file returns the first article
/// that names the source file with that version: every article before it
/// is skipped (the best so far stays), and that one is found.
pub proof fn lemma_resolve_picks_wanted(
    arts: Seq<(Seq<(Seq<char>, Seq<char>)>, Option<u32>)>,
    source: Seq<char>,
    base: Seq<char>,
    w: u32,
    best: Option<u32>,
)
    ensures
        -1 <= first_wanted(arts, source, base, w) < arts.len(),
        forall|i: int|
            0 <= i < arts.len() && (first_wanted(arts, source, base, w) < 0 || i < first_wanted(
                arts,
                source,
                base,
                w,
            )) ==> source_verdict(#[trigger] arts[i].0, arts[i].1, source, base, Some(w), best)
                == SourceVerdict::Skip,
        first_wanted(arts, source, base, w) >= 0 ==> source_verdict(
            arts[first_wanted(arts, source, base, w)].0,
            arts[first_wanted(arts, source, base, w)].1,
            source,
            base,
            Some(w),
            best,
        ) == SourceVerdict::Found,
    decreases arts.len(),
{
    if arts.len() > 0 {
        let t = arts.drop_first();
        lemma_resolve_picks_wanted(t, source, base, w, best);
        let f = first_wanted(arts, source, base, w);
        if f != 0 {
            assert forall|i: int|
                0 <= i < arts.len() && (f < 0 || i < f) implies source_verdict(
                #[trigger] arts[i].0,
                arts[i].1,
                source,
                base,
                Some(w),
                best,
            ) == SourceVerdict::Skip by {
                if i > 0 {
                    assert(arts[i] == t[i - 1]);
                }
            }
            if f > 0 {
                assert(arts[f] == t[f - 1]);
            }
        }
    }
}

/// Consider one article: return it when it is the wanted version, else
/// keep the newer of it and the best so far (the later one on a tie), with
/// its version recorded.
pub fn resolve_consider(best: Option<Article>, art: Article, source_file: &str, base: &str, want: Option<u32>) -> (res: ResolveFlow)
    ensures
        match source_verdict(art.headers@, art.post_ref.version, source_file@, base@, want, best_version(best)) {
            SourceVerdict::Found => res == ResolveFlow::Found(art),
            SourceVerdict::Better(v) => res matches ResolveFlow::Continue(Some(a)) && a.headers@ == art.headers@
                && a.body@ == art.body@ && a.post_ref.message_id@ == art.post_ref.message_id@
                && a.post_ref.group@ == art.post_ref.group@ && opt_view(a.post_ref.slot) == opt_view(art.post_ref.slot)
                && a.post_ref.version == Some(v),
            _ => res == ResolveFlow::Continue(best),
        },
        want is None ==> (res matches ResolveFlow::Continue(b) && best_version(b) == kept_version(
            best_version(best),
            seq![(art.headers@, art.post_ref.version)],
            source_file@,
            base@,
        )),
{
    proof {
        let one = seq![(art.headers@, art.post_ref.version)];
        assert(one.drop_last() =~= Seq::<(Seq<(Seq<char>, Seq<char>)>, Option<u32>)>::empty());
        assert(kept_version(best_version(best), one.drop_last(), source_file@, base@) == best_version(best));
        assert(one.last() == (art.headers@, art.post_ref.version));
    }
    let bv: Option<u32> = match &best {
        Some(a) => Some(match a.post_ref.version {
            Some(v) => v,
            None => 1,
        }),
        None => None,
    };
    match judge_source_article(&art, source_file, base, want, bv) {
        SourceVerdict::Found => ResolveFlow::Found(art),
        SourceVerdict::Better(v) => {
            let mut a = art;
            a.post_ref.version = Some(v);
            ResolveFlow::Continue(Some(a))
        },
        _ => ResolveFlow::Continue(best),
    }
}

/// The answer once every candidate was probed.
pub fn resolve_finish(best: Option<Article>, group: &GroupPath, source_file: &str) -> (res: Result<Article>)
    ensures
        match best {
            Some(a) => res == Ok::<Article, Error>(a),
            None => res matches Err(e) && e is NotFound && e.text() == "no NNTP article for source_file="@
                + source_file@ + " in "@ + group@,
        },
{
    match best {
        Some(a) => Ok(a),
        None => {
            let mut v = chars_of("no NNTP article for source_file=");
            extend_str(&mut v, source_file);
            extend_str(&mut v, " in ");
            extend_str(&mut v, group.as_str());
            Err(Error::NotFound(string_of(&v)))
        },
    }
}


// ------------------------------------------------------------------------
// JSON posts
// ------------------------------------------------------------------------

/// The headers of a JSON post: Subject, `Content-Type: application/json;
/// charset=utf-8` and `X-Mkd-Format: json`, each unless already present.
pub open spec fn json_headers(h: Seq<(Seq<char>, Seq<char>)>, subject: Seq<char>) -> Seq<(Seq<char>, Seq<char>)> {
    let h1 = set_default(h, "Subject"@, subject);
    let h2 = set_default(h1, "Content-Type"@, "application/json; charset=utf-8"@);
    set_default(h2, "X-Mkd-Format"@, "json"@)
}

impl NntpMemoryStore {
    /// The headers `post_json` posts with (see [`json_headers`]).
    pub fn post_json_headers(subject: &str, extra: &PostHeaders) -> (res: PostHeaders)
        ensures
            res@ == json_headers(extra@, subject@),
    {
        let mut h = extra.duplicate();
        set_if_absent(&mut h, "Subject", subject);
        set_if_absent(&mut h, "Content-Type", "application/json; charset=utf-8");
        set_if_absent(&mut h, "X-Mkd-Format", "json");
        h
    }
}

} // verus!
