use std::path::PathBuf;

use mkd_gcm::fs_nntp::{
    fs_article_key, fs_slot, next_version_from_names, parse_fs_article, version_file_name,
    version_room_left,
};
use mkd_gcm::{Error, FsNntpMemoryStore, GroupPath, PostHeaders, PostRef};

fn store() -> FsNntpMemoryStore {
    FsNntpMemoryStore::new(PathBuf::from("/srv/gcm"), None).with_operator_fqdn("lab.example")
}

fn group() -> GroupPath {
    GroupPath::parse("mkd.projects.mkd.log").unwrap()
}

fn names(v: &[&str]) -> Vec<String> {
    v.iter().map(|s| s.to_string()).collect()
}

#[test]
fn operator_fqdn_defaults_to_localhost() {
    assert_eq!(FsNntpMemoryStore::new(PathBuf::from("/r"), None).operator_fqdn(), "localhost");
    assert_eq!(FsNntpMemoryStore::new(PathBuf::from("/r"), Some("")).operator_fqdn(), "localhost");
    assert_eq!(FsNntpMemoryStore::new(PathBuf::from("/r"), Some("gcm.example")).operator_fqdn(), "gcm.example");
    assert_eq!(store().root(), &PathBuf::from("/srv/gcm"));
}

#[test]
fn group_dir_follows_the_relative_path() {
    assert_eq!(store().group_dir(&group()), PathBuf::from("/srv/gcm/projects/mkd/log"));
}

#[test]
fn slot_defaults_to_note() {
    assert_eq!(fs_slot(&PostHeaders::new()), "note");
    assert_eq!(fs_slot(&PostHeaders::new().with("x-mkd-slot", "t1")), "t1");
}

#[test]
fn next_version_is_one_past_the_largest() {
    assert_eq!(next_version_from_names(&names(&["1.md", "7.md", "x.md", "3.txt", "+5.md"])), 8);
    assert_eq!(next_version_from_names(&names(&[])), 1);
    assert_eq!(next_version_from_names(&names(&["README", ".md"])), 1);
    assert!(version_room_left(&names(&["4294967294.md"])));
    assert!(!version_room_left(&names(&["4294967295.md"])));
}

#[test]
fn version_file_names() {
    assert_eq!(version_file_name(12), "12.md");
    assert_eq!(version_file_name(0), "0.md");
}

#[test]
fn rendered_post_has_fixed_headers_then_body() {
    let h = PostHeaders::new()
        .with("Subject", "hello")
        .with("X-Mkd-Slot", "t1")
        .with("Date", "Mon, 1 Jan 2024 00:00:00 +0000")
        .with("X-Extra", "e");
    let (pref, text) = store().render_post(&group(), &h, "body text", "t1", 1);
    assert_eq!(pref.message_id, "<t1-v1@lab.example>");
    assert_eq!(pref.slot.as_deref(), Some("t1"));
    assert_eq!(pref.version, Some(1));
    assert_eq!(
        text,
        "Newsgroups: mkd.projects.mkd.log\nMessage-ID: <t1-v1@lab.example>\nSubject: hello\nFrom: mkd-agent <mkd-agent@localhost>\nDate: Mon, 1 Jan 2024 00:00:00 +0000\nX-Mkd-Loc: mkd.projects.mkd.log\nX-Mkd-Slot: t1\nX-Mkd-Version: 1\nX-Extra: e\n\nbody text\n"
    );
}

#[test]
fn rendered_post_without_date_has_one() {
    let (pref, text) = store().render_post(&group(), &PostHeaders::new().with("Message-ID", "<given@x>"), "b\n", "note", 3);
    assert_eq!(pref.message_id, "<given@x>");
    assert!(text.contains("\nDate: "));
    assert!(!text.contains("\nDate: \n"));
    assert!(text.ends_with("\n\nb\n"));
}

#[test]
fn stored_post_reads_back() {
    let h = PostHeaders::new().with("Subject", "hello").with("X-Mkd-Slot", "t1");
    let (pref, text) = store().render_post(&group(), &h, "body text", "t1", 1);
    assert!(pref.message_id.contains("@lab.example"));
    let art = parse_fs_article(&pref, &text);
    assert_eq!(art.body, "body text\n");
    assert_eq!(art.headers.get_ignore_case("Subject"), Some("hello"));
    assert_eq!(art.headers.get_ignore_case("X-Mkd-Version"), Some("1"));
    assert_eq!(art.post_ref.message_id, pref.message_id);
}

#[test]
fn file_without_blank_line_has_no_body() {
    let pref = PostRef { message_id: "<m>".into(), group: group(), slot: Some("s".into()), version: Some(1) };
    let art = parse_fs_article(&pref, "A: 1\r\nnot a header\nB:  two  ");
    assert_eq!(art.body, "");
    assert_eq!(art.headers.get_ignore_case("a"), Some("1"));
    assert_eq!(art.headers.get_ignore_case("b"), Some("two"));
    assert_eq!(art.headers.len(), 2);
}

#[test]
fn lookup_needs_slot_and_version() {
    let mut pref = PostRef { message_id: "<m>".into(), group: group(), slot: None, version: Some(1) };
    match fs_article_key(&pref) {
        Err(Error::Message(m)) => assert_eq!(m, "FsNntp get requires slot"),
        _ => panic!("expected a message error"),
    }
    pref.slot = Some("s".into());
    pref.version = None;
    match fs_article_key(&pref) {
        Err(Error::Message(m)) => assert_eq!(m, "FsNntp get requires version"),
        _ => panic!("expected a message error"),
    }
    pref.version = Some(4);
    let (slot, version) = fs_article_key(&pref).unwrap();
    assert_eq!((slot.as_str(), version), ("s", 4));
}

#[test]
fn ensure_and_post_roundtrip() {
    let store = FsNntpMemoryStore::new(PathBuf::from("/srv/gcm"), None).with_operator_fqdn("lab.example");
    let g = GroupPath::parse("mkd.projects.mkd.log").unwrap();
    assert!(store.group_dir(&g).ends_with("projects/mkd/log"));
    let headers = PostHeaders::new().with("Subject", "hello").with("X-Mkd-Slot", "t1");
    let slot = fs_slot(&headers);
    let version = next_version_from_names(&names(&[]));
    let (pref, text) = store.render_post(&g, &headers, "body text", &slot, version);
    assert!(pref.message_id.contains("@lab.example"));
    let art = parse_fs_article(&pref, &text);
    assert!(art.body.contains("body text"));
}

#[test]
fn post_without_date_reads_back_its_body() {
    let h = PostHeaders::new().with("Subject", "multi").with("X-Mkd-Slot", "t2");
    let (pref, text) = store().render_post(&group(), &h, "line one\n\nline three", "t2", 2);
    let art = parse_fs_article(&pref, &text);
    assert_eq!(art.body, "line one\n\nline three\n");
    assert_eq!(art.headers.get_ignore_case("X-Mkd-Version"), Some("2"));
    assert!(art.headers.get_ignore_case("Date").is_some());
}
