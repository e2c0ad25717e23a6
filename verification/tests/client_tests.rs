use base64::Engine;
use mkd_gcm::nntp::{HandshakeAction, HandshakeStep, oauthbearer_message};
use mkd_gcm::{Error, MkdGcmClient, NntpMemoryStore};

fn send(r: mkd_gcm::Result<HandshakeAction>) -> (String, HandshakeStep) {
    match r {
        Ok(HandshakeAction::Send(c, s)) => (c, s),
        other => panic!("expected a command, got {other:?}"),
    }
}

#[test]
fn from_url_errors() {
    for (url, msg) in [
        ("   ", "empty NNTP host"),
        (":1119", "empty NNTP host"),
        ("h:70000", "bad NNTP port in h:70000"),
    ] {
        match NntpMemoryStore::from_url(url) {
            Err(Error::Config(m)) => assert_eq!(m, msg),
            _ => panic!("expected a configuration error for {url}"),
        }
    }
}

#[test]
fn from_url_forms() {
    let a = NntpMemoryStore::from_url(" NNTP://gcm:12/path?x ").unwrap();
    assert_eq!((a.host(), a.port()), ("gcm", 12));
    let b = NntpMemoryStore::from_url("h:abc").unwrap();
    assert_eq!((b.host(), b.port()), ("h:abc", 1119));
    let c = NntpMemoryStore::from_url("bare").unwrap();
    assert_eq!((c.host(), c.port()), ("bare", 1119));
}

#[test]
fn new_store_defaults() {
    let s = NntpMemoryStore::new("h", 7);
    assert_eq!(s.default_from(), "mkd-agent <mkd-agent@localhost>");
    assert_eq!(s.timeout(), std::time::Duration::from_secs(15));
    let t = s.with_timeout(std::time::Duration::from_secs(3));
    assert_eq!(t.timeout(), std::time::Duration::from_secs(3));
}

#[test]
fn handshake_with_user_and_password() {
    let s = NntpMemoryStore::new("h", 1).with_auth("u", "p");
    let (c, st) = send(s.handshake_next(HandshakeStep::Greeting, "200 hello"));
    assert_eq!((c.as_str(), st), ("MODE READER", HandshakeStep::ModeReader));
    let (c, st) = send(s.handshake_next(HandshakeStep::ModeReader, "201 no posting"));
    assert_eq!((c.as_str(), st), ("AUTHINFO USER u", HandshakeStep::User));
    let (c, st) = send(s.handshake_next(HandshakeStep::User, "381 more"));
    assert_eq!((c.as_str(), st), ("AUTHINFO PASS p", HandshakeStep::Pass));
    assert!(matches!(s.handshake_next(HandshakeStep::Pass, "281 ok"), Ok(HandshakeAction::Ready)));
    assert!(matches!(s.handshake_next(HandshakeStep::User, "281 ok"), Ok(HandshakeAction::Ready)));
    match s.handshake_next(HandshakeStep::Pass, "481 bad") {
        Err(Error::Message(m)) => assert_eq!(m, "AUTHINFO PASS: 481 bad"),
        _ => panic!("expected a message error"),
    }
    match s.handshake_next(HandshakeStep::User, "482 no") {
        Err(Error::Message(m)) => assert_eq!(m, "AUTHINFO USER: 482 no"),
        _ => panic!("expected a message error"),
    }
}

#[test]
fn handshake_failures() {
    let s = NntpMemoryStore::new("h", 1);
    match s.handshake_next(HandshakeStep::Greeting, "502 go away") {
        Err(Error::Message(m)) => assert_eq!(m, "NNTP greeting: 502 go away"),
        _ => panic!("expected a message error"),
    }
    match s.handshake_next(HandshakeStep::ModeReader, "200") {
        Err(Error::Message(m)) => assert_eq!(m, "MODE READER: 200"),
        _ => panic!("expected a message error"),
    }
    assert!(matches!(s.handshake_next(HandshakeStep::ModeReader, "200 ok"), Ok(HandshakeAction::Ready)));
}

#[test]
fn handshake_prefers_bearer() {
    let s = NntpMemoryStore::new("h", 1).with_auth("u", "p").with_bearer_token("tok");
    assert!(s.bearer_credentials_fit());
    let (c, st) = send(s.handshake_next(HandshakeStep::ModeReader, "200 ok"));
    let expected = base64::engine::general_purpose::STANDARD.encode("n,\u{1}auth=Bearer tok\u{1}\u{1}");
    assert_eq!(c, format!("AUTHINFO SASL OAUTHBEARER {expected}"));
    assert_eq!(st, HandshakeStep::Bearer);
    match s.handshake_next(HandshakeStep::Bearer, "481 denied") {
        Err(Error::Message(m)) => assert_eq!(m, "AUTHINFO SASL OAUTHBEARER: 481 denied"),
        _ => panic!("expected a message error"),
    }
}

#[test]
fn oauthbearer_raw_message() {
    assert_eq!(oauthbearer_message(Some("a@b"), "t"), "n,a=a@b,\u{1}auth=Bearer t\u{1}\u{1}");
    assert_eq!(oauthbearer_message(Some(""), "t"), "n,\u{1}auth=Bearer t\u{1}\u{1}");
    assert_eq!(oauthbearer_message(None, "t"), "n,\u{1}auth=Bearer t\u{1}\u{1}");
    assert_eq!(mkd_gcm::encode_oauthbearer_message(None, "t"), "biwBYXV0aD1CZWFyZXIgdAEB");
}

#[test]
fn client_creation() {
    match MkdGcmClient::create("", 5) {
        Err(m) => assert_eq!(m, "host is empty"),
        Ok(_) => panic!("expected an error"),
    }
    let c = MkdGcmClient::create("h", 0).unwrap();
    assert_eq!((c.store().host(), c.store().port()), ("h", 1119));
    match MkdGcmClient::create_url("h:99999") {
        Err(m) => assert_eq!(m, "Configuration error: bad NNTP port in h:99999"),
        Ok(_) => panic!("expected an error"),
    }
    let u = MkdGcmClient::create_url("nntp://g:5").unwrap();
    assert_eq!((u.store().host(), u.store().port()), ("g", 5));
}

#[test]
fn client_settings() {
    let mut c = MkdGcmClient::create("h", 1).unwrap();
    match c.set_bearer("", Some("a")) {
        Err(m) => assert_eq!(m, "token is empty"),
        Ok(()) => panic!("expected an error"),
    }
    assert!(c.set_bearer("tok", Some("")).is_ok());
    c.set_from("me <me@x>");
    assert_eq!(c.store().default_from(), "me <me@x>");
    c.set_user_pass("u", "p");
    assert_eq!(c.store().host(), "h");
}

#[test]
fn client_post_headers() {
    let j = MkdGcmClient::post_headers("s", Some("Application/JSON"));
    assert_eq!(j.get("Subject"), Some("s"));
    assert_eq!(j.get("Content-Type"), Some("Application/JSON"));
    assert_eq!(j.get("X-Mkd-Format"), Some("json"));
    let t = MkdGcmClient::post_headers("s", Some("text/plain"));
    assert_eq!(t.get("X-Mkd-Format"), None);
    assert_eq!(t.get("Content-Type"), Some("text/plain"));
    let e = MkdGcmClient::post_headers("s", Some(""));
    assert_eq!(e.to_wire(), "Subject: s\r\n");
    let n = MkdGcmClient::post_headers("s", None);
    assert_eq!(n.to_wire(), "Subject: s\r\n");
}

#[test]
fn error_descriptions() {
    assert_eq!(Error::Message("m".into()).describe(), "gcm error: m");
    assert_eq!(Error::Config("c".into()).describe(), "Configuration error: c");
    assert_eq!(Error::NotFound("n".into()).describe(), "Not found: n");
    let io = Error::Io(std::io::Error::new(std::io::ErrorKind::Other, "boom"));
    assert_eq!(io.describe(), "IO error: boom");
}

#[test]
fn endpoint_text_parses_back() {
    for (h, p) in [("gcm.monkeyking.dev", 1119u16), ("10.0.0.7", 0), ("n", 65535)] {
        let s = NntpMemoryStore::from_url(&format!("{h}:{p}")).unwrap();
        assert_eq!((s.host(), s.port()), (h, p));
        let t = NntpMemoryStore::from_url(&format!("nntp://{h}:{p}")).unwrap();
        assert_eq!((t.host(), t.port()), (h, p));
    }
}

#[test]
fn bare_host_and_path_forms_parse() {
    let b = NntpMemoryStore::from_url("gcm.local").unwrap();
    assert_eq!((b.host(), b.port()), ("gcm.local", 1119));
    let p = NntpMemoryStore::from_url("nntp://gcm.local:2200/extra/path ").unwrap();
    assert_eq!((p.host(), p.port()), ("gcm.local", 2200));
}

#[test]
fn oauthbearer_encoding_is_padded_base64() {
    let e = mkd_gcm::encode_oauthbearer_message(None, "tok");
    assert_eq!(e, "biwBYXV0aD1CZWFyZXIgdG9rAQE=");
    assert_eq!(e.len() % 4, 0);
}
