use mkd_gcm::{Article, GroupPath, HeaderMap, PostHeaders, PostRef};

#[test]
fn header_get_after_set_ignores_case() {
    let mut h = PostHeaders::new().with("Subject", "a");
    h.set("Subject", "b");
    assert_eq!(h.get("SUBJECT"), Some("b"));
    assert_eq!(h.get("subject"), Some("b"));
    assert_eq!(h.get("From"), None);
}

#[test]
fn header_set_twice_keeps_last_value() {
    let h = PostHeaders::new().with("X", "1").with("X", "2");
    assert_eq!(h.get("x"), Some("2"));
    assert_eq!(h.to_wire(), "X: 2\r\n");
}

#[test]
fn header_set_keeps_other_names() {
    let mut h = PostHeaders::new().with("From", "f").with("Subject", "s");
    h.set("Subject", "t");
    assert_eq!(h.get("From"), Some("f"));
    assert_eq!(h.get("Subject"), Some("t"));
}

#[test]
fn to_wire_orders_names_bytewise() {
    let h = PostHeaders::new().with("b", "2").with("A", "1").with("a", "3");
    assert_eq!(h.to_wire(), "A: 1\r\na: 3\r\nb: 2\r\n");
}

#[test]
fn to_wire_of_empty_headers_is_empty() {
    assert_eq!(PostHeaders::new().to_wire(), "");
}

#[test]
fn header_map_entries_in_order() {
    let mut m = HeaderMap::new();
    m.insert("Zeta".to_string(), "z".to_string());
    m.insert("Alpha".to_string(), "a".to_string());
    m.insert("Zeta".to_string(), "zz".to_string());
    assert_eq!(m.len(), 2);
    assert_eq!(m.name_at(0), "Alpha");
    assert_eq!(m.value_at(0), "a");
    assert_eq!(m.name_at(1), "Zeta");
    assert_eq!(m.value_at(1), "zz");
    assert_eq!(m.get_ignore_case("zeta"), Some("zz"));
}

#[test]
fn get_finds_first_name_in_order_ignoring_case() {
    let h = PostHeaders::new().with("subject", "lower").with("Subject", "upper");
    assert_eq!(h.get("SUBJECT"), Some("upper"));
}

#[test]
fn copies_of_headers_refs_and_articles() {
    let h = PostHeaders::default().with("B", "2").with("A", "1");
    let c = h.clone();
    assert_eq!(c.to_wire(), h.to_wire());
    assert_eq!(PostHeaders::default().to_wire(), "");
    let r = PostRef {
        message_id: "<m@x>".to_string(),
        group: GroupPath::parse("mkd.projects.mkd.log").unwrap(),
        slot: Some("t1".to_string()),
        version: Some(2),
    };
    assert_eq!(r.clone(), r);
    let mut other = r.clone();
    other.version = Some(3);
    assert_ne!(other, r);
    let mut m = HeaderMap::new();
    m.insert("Subject".to_string(), "s".to_string());
    let a = Article { post_ref: r.clone(), headers: m, body: "b".to_string() };
    let b = a.clone();
    assert_eq!(b.post_ref, a.post_ref);
    assert_eq!(b.headers.get_ignore_case("subject"), Some("s"));
    assert_eq!(b.body, "b");
}
