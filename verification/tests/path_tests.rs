use mkd_gcm::{GroupPath, HierarchyBranch, sanitize_token};

#[test]
fn parse_rejects_empty() {
    assert!(GroupPath::parse("").is_err());
    assert!(GroupPath::parse("   ").is_err());
}

#[test]
fn parse_rejects_non_allowed_root() {
    assert!(GroupPath::parse("projects.mkd").is_err());
    assert!(GroupPath::parse("mkd").is_err());
    assert!(GroupPath::parse("Mkd.projects.mkd").is_err());
    assert!(GroupPath::parse("other.top").is_err());
    assert!(GroupPath::parse("MonkeyKing").is_err());
}

#[test]
fn parse_rejects_whitespace() {
    assert!(GroupPath::parse("mkd.projects.mkd log").is_err());
    assert!(GroupPath::parse("mkd.projects.mkd\tlog").is_err());
    assert!(GroupPath::parse("monkeyking log").is_err());
}

#[test]
fn parse_accepts_representative_paths() {
    let cases = [
        "mkd.projects.mkd.log",
        "mkd.agents.grok.conversations",
        "mkd.users.nate.log",
        "mkd.system.rehearsal",
        "mkd.addressbook.contacts.main",
        "mkd.projects.mkd.tasks.1780536515909-fix-nntp-drift",
        "monkeyking",
        "monkeyking.log",
        "monkeyking.projects.specs",
    ];
    for c in cases {
        let g = GroupPath::parse(c).unwrap_or_else(|e| panic!("parse {c}: {}", e.describe()));
        assert_eq!(g.as_str(), c);
        assert_eq!(g.to_string(), c);
    }
}

#[test]
fn fs_relative_strips_mkd_keeps_monkeyking() {
    let g = GroupPath::parse("mkd.projects.mkd.log").unwrap();
    assert_eq!(g.fs_relative(), "projects/mkd/log");
    let m = GroupPath::parse("monkeyking").unwrap();
    assert_eq!(m.fs_relative(), "monkeyking");
    let ml = GroupPath::parse("monkeyking.log").unwrap();
    assert_eq!(ml.fs_relative(), "monkeyking/log");
}

#[test]
fn monkeyking_helpers() {
    assert_eq!(GroupPath::monkeyking().as_str(), "monkeyking");
    assert_eq!(GroupPath::monkeyking_sub("log").as_str(), "monkeyking.log");
    assert_eq!(
        GroupPath::monkeyking_sub("projects.specs").as_str(),
        "monkeyking.projects.specs"
    );
}

#[test]
fn project_tasks_helper() {
    let g = GroupPath::project_tasks(HierarchyBranch::Projects, "mkd");
    assert_eq!(g.as_str(), "mkd.projects.mkd.tasks");
    let a = GroupPath::project_tasks(HierarchyBranch::Agents, "hephaestus");
    assert_eq!(a.as_str(), "mkd.agents.hephaestus.tasks");
    let s = GroupPath::project_tasks(HierarchyBranch::System, "ignored");
    assert_eq!(s.as_str(), "mkd.system.tasks");
}

#[test]
fn task_group_helper_legacy() {
    let g = GroupPath::task_group(
        HierarchyBranch::Projects,
        "mkd",
        "1780536515909",
        "fix-nntp-drift",
    );
    assert_eq!(
        g.as_str(),
        "mkd.projects.mkd.tasks.1780536515909-fix-nntp-drift"
    );
    let g2 = GroupPath::task_group(HierarchyBranch::Projects, "mkd", "42", "");
    assert_eq!(g2.as_str(), "mkd.projects.mkd.tasks.42");
}

#[test]
fn is_legacy_task_child_group_detects_leaves() {
    assert!(!GroupPath::is_legacy_task_child_group(
        "mkd.projects.mkd.tasks"
    ));
    assert!(!GroupPath::is_legacy_task_child_group("mkd.system.tasks"));
    assert!(GroupPath::is_legacy_task_child_group(
        "mkd.projects.mkd.tasks.42-foo"
    ));
    assert!(GroupPath::is_legacy_task_child_group(
        "mkd.projects.mkd.tasks.task-249"
    ));
    assert!(!GroupPath::is_legacy_task_child_group(
        "mkd.projects.mkd.log"
    ));
}

#[test]
fn sanitize_token_basics() {
    assert_eq!(sanitize_token("Monkey King"), "monkey-king");
    assert_eq!(sanitize_token("  "), "unknown");
}
