use base64::Engine;
use mkd_gcm::NntpMemoryStore;
use mkd_gcm::encode_oauthbearer_message;
use mkd_gcm::nntp::{extract_msgid_from_240, parse_xover_line};

#[test]
fn parse_url() {
    let s = NntpMemoryStore::from_url("127.0.0.1:1119").unwrap();
    assert_eq!(s.host(), "127.0.0.1");
    assert_eq!(s.port(), 1119);
    let s2 = NntpMemoryStore::from_url("nntp://localhost:2222").unwrap();
    assert_eq!(s2.host(), "localhost");
    assert_eq!(s2.port(), 2222);
    let s3 = NntpMemoryStore::from_url("mkd-gcm-server:1119").unwrap();
    assert_eq!(s3.host(), "mkd-gcm-server");
    assert_eq!(s3.port(), 1119);
}

#[test]
fn msgid_extract() {
    assert_eq!(
        extract_msgid_from_240("240 Article posted <a@b.com>"),
        Some("<a@b.com>".into())
    );
}

#[test]
fn xover_line_parses_classic() {
    let line = "3\tphase1-document-proof.md\tagent <a@b>\t12 Jul 2026 00:00:00 +0000\t<phase1-document-proof-md-v1-v1@lab.example.internal>\t\t120\t4\tXref: local group:3";
    let row = parse_xover_line(line).expect("parse");
    assert_eq!(row.number, 3);
    assert_eq!(row.subject, "phase1-document-proof.md");
    assert_eq!(
        row.message_id,
        "<phase1-document-proof-md-v1-v1@lab.example.internal>"
    );
    assert_eq!(row.bytes, 120);
    assert_eq!(row.lines, 4);
}

#[test]
fn oauthbearer_roundtrip_shape() {
    let b64 = encode_oauthbearer_message(Some("user@example.com"), "tok");
    let raw = base64::engine::general_purpose::STANDARD
        .decode(&b64)
        .unwrap();
    let s = String::from_utf8(raw).unwrap();
    assert!(s.starts_with("n,a=user@example.com,"));
    assert!(s.contains("auth=Bearer tok"));
}
