use mkd_gcm::nntp::{
    check_post_ready, default_subject, derive_slot, parse_article_lines, post_article_text,
    posted_ref, subject_cut_is_ok,
};
use mkd_gcm::{Error, GroupPath, NntpMemoryStore, PostHeaders};

fn group() -> GroupPath {
    GroupPath::parse("mkd.projects.mkd.log").unwrap()
}

#[test]
fn derive_slot_examples() {
    assert_eq!(derive_slot("Hello World"), "hello-world");
    assert_eq!(derive_slot("  --Foo__Bar--  "), "foo-bar");
    assert_eq!(derive_slot("!!!"), "note");
    assert_eq!(derive_slot(""), "note");
    assert_eq!(derive_slot(&"a".repeat(60)), "a".repeat(48));
}

#[test]
fn default_subject_is_first_line_cut_at_72_bytes() {
    assert_eq!(default_subject("first line\r\nsecond"), "first line");
    assert_eq!(default_subject(""), "mkd post");
    assert_eq!(default_subject(&"x".repeat(100)), "x".repeat(72));
    assert_eq!(default_subject("\nafter blank"), "");
}

#[test]
fn subject_cut_inside_a_character_is_refused() {
    let body = format!("{}é tail", "a".repeat(71));
    assert!(!subject_cut_is_ok(&body));
    assert!(subject_cut_is_ok(&"a".repeat(80)));
    assert!(subject_cut_is_ok("short"));
}

#[test]
fn prepared_headers_are_complete() {
    let store = NntpMemoryStore::new("h", 1119);
    let h = store.prepare_post_headers(&group(), &PostHeaders::new(), "Hello World\nmore");
    assert_eq!(h.get("Newsgroups"), Some("mkd.projects.mkd.log"));
    assert_eq!(h.get("Subject"), Some("Hello World"));
    assert_eq!(h.get("From"), Some("mkd-agent <mkd-agent@localhost>"));
    assert_eq!(h.get("X-Mkd-Slot"), Some("hello-world"));
    assert_eq!(
        h.to_wire(),
        "From: mkd-agent <mkd-agent@localhost>\r\nNewsgroups: mkd.projects.mkd.log\r\nSubject: Hello World\r\nX-Mkd-Slot: hello-world\r\n"
    );
}

#[test]
fn prepared_headers_keep_given_values() {
    let store = NntpMemoryStore::new("h", 1119).with_default_from("me <me@x>");
    let given = PostHeaders::new().with("subject", "Mine").with("x-mkd-slot", "s1");
    let h = store.prepare_post_headers(&group(), &given, "body");
    assert_eq!(h.get("Subject"), Some("Mine"));
    assert_eq!(h.get("X-Mkd-Slot"), Some("s1"));
    assert_eq!(h.get("From"), Some("me <me@x>"));
}

#[test]
fn article_text_stuffs_dots() {
    let h = PostHeaders::new().with("Subject", "s");
    let text = post_article_text(&h, ".hidden\nline\r\n.");
    assert_eq!(text, "Subject: s\r\n\r\n..hidden\r\nline\r\n..\r\n.\r\n");
}

#[test]
fn posted_article_reads_back() {
    let h = PostHeaders::new().with("Subject", "s").with("From", "f");
    let body = ".hidden\nline\n.";
    let text = post_article_text(&h, body);
    let lines: Vec<String> = text
        .strip_suffix(".\r\n")
        .unwrap()
        .split("\r\n")
        .map(|l| l.to_string())
        .collect();
    let lines = lines[..lines.len() - 1].to_vec();
    let (headers, read) = parse_article_lines(&lines);
    assert_eq!(read, body);
    assert_eq!(headers.get_ignore_case("subject"), Some("s"));
    assert_eq!(headers.get_ignore_case("from"), Some("f"));
}

#[test]
fn leading_blank_body_lines_are_not_read_back() {
    let lines: Vec<String> = vec!["Subject: s".into(), "".into(), "".into(), "abc".into()];
    let (_, read) = parse_article_lines(&lines);
    assert_eq!(read, "abc");
}

#[test]
fn post_ready_needs_340() {
    assert!(check_post_ready("340 send article").is_ok());
    match check_post_ready("440 posting not allowed") {
        Err(Error::Message(m)) => assert_eq!(m, "POST not accepted: 440 posting not allowed"),
        _ => panic!("expected a message error"),
    }
}

#[test]
fn posted_ref_takes_message_id_from_reply() {
    let h = PostHeaders::new().with("X-Mkd-Slot", "s1").with("Message-ID", "<m@x>");
    let r = posted_ref(&group(), &h, "240 Article posted <a@b>").unwrap();
    assert_eq!(r.message_id, "<a@b>");
    assert_eq!(r.slot.as_deref(), Some("s1"));
    assert_eq!(r.group.as_str(), "mkd.projects.mkd.log");
    assert_eq!(r.version, None);
    let r2 = posted_ref(&group(), &h, "240 article posted ok").unwrap();
    assert_eq!(r2.message_id, "<m@x>");
    let r3 = posted_ref(&group(), &PostHeaders::new(), "240 ok").unwrap();
    assert_eq!(r3.message_id, "<unknown@mkd.projects.mkd.log>");
    assert_eq!(r3.slot, None);
}

#[test]
fn posted_ref_rejects_other_replies() {
    match posted_ref(&group(), &PostHeaders::new(), "441 posting failed") {
        Err(Error::Message(m)) => assert_eq!(m, "POST rejected: 441 posting failed"),
        _ => panic!("expected a message error"),
    }
}

#[test]
fn json_post_headers_fill_missing_values() {
    let h = NntpMemoryStore::post_json_headers("subj", &PostHeaders::new());
    assert_eq!(h.get("Subject"), Some("subj"));
    assert_eq!(h.get("Content-Type"), Some("application/json; charset=utf-8"));
    assert_eq!(h.get("X-Mkd-Format"), Some("json"));
    let kept = NntpMemoryStore::post_json_headers("subj", &PostHeaders::new().with("Subject", "given"));
    assert_eq!(kept.get("Subject"), Some("given"));
}

#[test]
fn crlf_body_reads_back_without_cr() {
    let h = PostHeaders::new().with("Subject", "s");
    let text = post_article_text(&h, "a\r\nb\r\n");
    assert_eq!(text, "Subject: s\r\n\r\na\r\nb\r\n\r\n.\r\n");
    let lines: Vec<String> = vec!["Subject: s".into(), "".into(), "a".into(), "b".into(), "".into()];
    let (_, read) = parse_article_lines(&lines);
    assert_eq!(read, "a\nb\n");
}

#[test]
fn given_subject_skips_the_cut() {
    let store = NntpMemoryStore::new("h", 1119);
    let body = format!("{}é tail", "a".repeat(71));
    assert!(!subject_cut_is_ok(&body));
    let h = store.prepare_post_headers(&group(), &PostHeaders::new().with("subject", "Mine"), &body);
    assert_eq!(h.get("Subject"), Some("Mine"));
    assert_eq!(h.get("X-Mkd-Slot"), Some("mine"));
}

#[test]
fn empty_body_reads_back_empty() {
    let h = PostHeaders::new().with("Subject", "s");
    assert_eq!(post_article_text(&h, ""), "Subject: s\r\n\r\n\r\n.\r\n");
    let lines: Vec<String> = vec!["Subject: s".into(), "".into(), "".into()];
    let (_, read) = parse_article_lines(&lines);
    assert_eq!(read, "");
}

#[test]
fn untrimmed_headers_read_back_trimmed() {
    let h = PostHeaders::new().with(" Subject ", "  hi there  ").with("From", "f ");
    let text = post_article_text(&h, "b");
    let lines: Vec<String> = text
        .strip_suffix(".\r\n")
        .unwrap()
        .split("\r\n")
        .map(|l| l.to_string())
        .collect();
    let lines = lines[..lines.len() - 1].to_vec();
    let (headers, read) = parse_article_lines(&lines);
    assert_eq!(read, "b");
    assert_eq!(headers.get_ignore_case("Subject"), Some("hi there"));
    assert_eq!(headers.get_ignore_case("from"), Some("f"));
    assert_eq!(headers.len(), 2);
}
