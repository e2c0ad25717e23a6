use mkd_gcm::nntp::{
    ResolveFlow, SourceVerdict, resolve_consider, source_base, article_from_reply, article_message_id, check_article_found,
    check_group_selected, check_list_active, check_overview_rows, check_xover_head,
    judge_source_article, list_active_command, parse_list_active, parse_list_active_line,
    parse_overview, parse_xover_line, resolve_finish, source_candidates, xover_command,
};
use mkd_gcm::{Article, Error, GroupPath, HeaderMap, OverviewRow, PostRef};

fn group() -> GroupPath {
    GroupPath::parse("mkd.projects.mkd.log").unwrap()
}

fn post_ref(mid: &str) -> PostRef {
    PostRef { message_id: mid.to_string(), group: group(), slot: Some("s0".into()), version: Some(2) }
}

fn headers(pairs: &[(&str, &str)]) -> HeaderMap {
    let mut h = HeaderMap::new();
    for (k, v) in pairs {
        h.insert(k.to_string(), v.to_string());
    }
    h
}

fn row(n: u64, subject: &str, mid: &str) -> OverviewRow {
    OverviewRow {
        number: n,
        subject: subject.into(),
        from: "a".into(),
        date: "d".into(),
        message_id: mid.into(),
        bytes: 0,
        lines: 0,
    }
}

#[test]
fn message_id_gets_angle_brackets() {
    assert_eq!(article_message_id(&post_ref("a@b")), "<a@b>");
    assert_eq!(article_message_id(&post_ref("<a@b>")), "<a@b>");
}

#[test]
fn group_and_article_replies_are_checked() {
    assert!(check_group_selected(&group(), "211 3 1 3 mkd.projects.mkd.log").is_ok());
    match check_group_selected(&group(), "411 no such group") {
        Err(Error::NotFound(m)) => assert_eq!(m, "GROUP mkd.projects.mkd.log: 411 no such group"),
        _ => panic!("expected not found"),
    }
    assert!(check_article_found("<a@b>", "220 0 <a@b>").is_ok());
    match check_article_found("<a@b>", "430 no article") {
        Err(Error::NotFound(m)) => assert_eq!(m, "ARTICLE <a@b>: 430 no article"),
        _ => panic!("expected not found"),
    }
}

#[test]
fn article_takes_its_fields_from_headers() {
    let h = headers(&[
        ("Message-ID", "<m@x>"),
        ("Newsgroups", " mkd.agents.grok.log , mkd.other"),
        ("X-Mkd-Slot", "s9"),
        ("X-Mkd-Version", "3"),
    ]);
    let a = article_from_reply(&post_ref("q@x"), "<q@x>", h, "body".into());
    assert_eq!(a.post_ref.message_id, "<m@x>");
    assert_eq!(a.post_ref.group.as_str(), "mkd.agents.grok.log");
    assert_eq!(a.post_ref.slot.as_deref(), Some("s9"));
    assert_eq!(a.post_ref.version, Some(3));
    assert_eq!(a.body, "body");
}

#[test]
fn article_falls_back_to_the_reference() {
    let h = headers(&[("X-Mkd-Version", "many"), ("Newsgroups", "bad group")]);
    let a = article_from_reply(&post_ref("q@x"), "<q@x>", h, String::new());
    assert_eq!(a.post_ref.message_id, "<q@x>");
    assert_eq!(a.post_ref.group.as_str(), "mkd.projects.mkd.log");
    assert_eq!(a.post_ref.slot.as_deref(), Some("s0"));
    assert_eq!(a.post_ref.version, Some(2));
}

#[test]
fn list_active_lines() {
    assert_eq!(list_active_command(None), "LIST ACTIVE");
    assert_eq!(list_active_command(Some("mkd.*")), "LIST ACTIVE mkd.*");
    assert!(check_list_active("215 list follows").is_ok());
    match check_list_active("503 failure") {
        Err(Error::Message(m)) => assert_eq!(m, "LIST ACTIVE: 503 failure"),
        _ => panic!("expected a message error"),
    }
    let g = parse_list_active_line("mkd.a  10\t2 y").unwrap();
    assert_eq!((g.name.as_str(), g.high, g.low, g.status), ("mkd.a", 10, 2, 'y'));
    let z = parse_list_active_line("mkd.b x -1 moderated").unwrap();
    assert_eq!((z.high, z.low, z.status), (0, 0, 'm'));
    assert!(parse_list_active_line("mkd.c 1 2").is_none());
    let all = parse_list_active(&vec!["mkd.a 1 1 y".to_string(), "junk".to_string(), "mkd.b 5 3 n".to_string()]);
    assert_eq!(all.len(), 2);
    assert_eq!(all[1].name, "mkd.b");
}

#[test]
fn xover_commands_and_heads() {
    assert_eq!(xover_command(None), "XOVER");
    assert_eq!(xover_command(Some("   ")), "XOVER");
    assert_eq!(xover_command(Some(" 1-5 ")), "XOVER 1-5");
    assert!(matches!(check_xover_head("420 no article selected"), Ok(false)));
    assert!(matches!(check_xover_head("224 overview follows"), Ok(true)));
    match check_xover_head("500 what") {
        Err(Error::Message(m)) => assert_eq!(m, "XOVER: 500 what"),
        _ => panic!("expected a message error"),
    }
}

#[test]
fn xover_lines_need_five_fields_and_a_number() {
    assert!(parse_xover_line("").is_none());
    assert!(parse_xover_line("1\ta\tb\tc").is_none());
    assert!(parse_xover_line("x\ta\tb\tc\t<m>").is_none());
    let r = parse_xover_line("7\tsubj\tfrom\tdate\t<m@x>\r\n").unwrap();
    assert_eq!((r.number, r.bytes, r.lines), (7, 0, 0));
    assert_eq!(r.message_id, "<m@x>");
    let rows = parse_overview(&vec!["1\ta\tb\tc\t<1>".to_string(), "bad".to_string()]);
    assert_eq!(rows.len(), 1);
}

#[test]
fn resolve_needs_rows_and_picks_candidates() {
    match check_overview_rows(&Vec::new(), &group()) {
        Err(Error::NotFound(m)) => assert_eq!(m, "no overview rows in mkd.projects.mkd.log"),
        _ => panic!("expected not found"),
    }
    let rows = vec![row(1, "other.md", "<1>"), row(2, " docs/a.md ", "<2>"), row(3, "a.md", "<3>")];
    let c = source_candidates(&rows, &group(), "docs/a.md", "a.md");
    let ids: Vec<&str> = c.iter().map(|p| p.message_id.as_str()).collect();
    assert_eq!(ids, vec!["<2>", "<3>"]);
    let none = source_candidates(&rows, &group(), "zzz.md", "zzz.md");
    assert_eq!(none.len(), 3);
    match resolve_finish(None, &group(), "a.md") {
        Err(Error::NotFound(m)) => assert_eq!(m, "no NNTP article for source_file=a.md in mkd.projects.mkd.log"),
        _ => panic!("expected not found"),
    }
}

fn article(pairs: &[(&str, &str)], version: Option<u32>) -> Article {
    Article {
        post_ref: PostRef { message_id: "<m>".into(), group: group(), slot: None, version },
        headers: headers(pairs),
        body: String::new(),
    }
}

#[test]
fn source_articles_are_judged_by_version() {
    let a = article(&[("X-Mkd-Source-File", "docs/a.md"), ("X-Mkd-Version", "4")], None);
    assert_eq!(judge_source_article(&a, "docs/a.md", "a.md", None, None), SourceVerdict::Better(4));
    assert_eq!(judge_source_article(&a, "docs/a.md", "a.md", None, Some(5)), SourceVerdict::Older);
    assert_eq!(judge_source_article(&a, "docs/a.md", "a.md", None, Some(4)), SourceVerdict::Better(4));
    assert_eq!(judge_source_article(&a, "docs/a.md", "a.md", Some(4), None), SourceVerdict::Found);
    assert_eq!(judge_source_article(&a, "docs/a.md", "a.md", Some(3), None), SourceVerdict::Skip);
    let other = article(&[("Subject", "b.md")], Some(9));
    assert_eq!(judge_source_article(&other, "docs/a.md", "a.md", None, None), SourceVerdict::Skip);
    let by_subject = article(&[("Subject", "a.md")], None);
    assert_eq!(judge_source_article(&by_subject, "docs/a.md", "a.md", None, None), SourceVerdict::Better(1));
}

fn resolve(arts: Vec<Article>, want: Option<u32>) -> Option<Article> {
    let mut best = None;
    for a in arts {
        match resolve_consider(best, a, "docs/a.md", "a.md", want) {
            ResolveFlow::Found(a) => return Some(a),
            ResolveFlow::Continue(b) => best = b,
        }
    }
    best
}

fn versioned(v: &str, body: &str) -> Article {
    let mut a = article(&[("X-Mkd-Source-File", "a.md"), ("X-Mkd-Version", v)], None);
    a.body = body.to_string();
    a
}

#[test]
fn resolution_picks_the_highest_version() {
    let arts = vec![versioned("1", "one"), versioned("3", "three"), article(&[("Subject", "b.md")], Some(9)), versioned("2", "two")];
    let best = resolve(arts, None).unwrap();
    assert_eq!(best.body, "three");
    assert_eq!(best.post_ref.version, Some(3));
}

#[test]
fn resolution_returns_the_wanted_version() {
    let arts = vec![versioned("1", "one"), versioned("2", "two"), versioned("3", "three")];
    assert_eq!(resolve(arts, Some(2)).unwrap().body, "two");
    let none = vec![versioned("1", "one")];
    assert!(resolve(none, Some(5)).is_none());
}

#[test]
fn resolution_keeps_the_later_of_equal_versions() {
    let arts = vec![versioned("2", "first"), versioned("2", "second")];
    assert_eq!(resolve(arts, None).unwrap().body, "second");
}

#[test]
fn source_base_is_the_last_segment() {
    assert_eq!(source_base("docs/a.md"), "a.md");
    assert_eq!(source_base("/srv/x//notes.txt"), "notes.txt");
    assert_eq!(source_base("a.md"), "a.md");
    assert_eq!(source_base("docs/.."), "docs/..");
}
