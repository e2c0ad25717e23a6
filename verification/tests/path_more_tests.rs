use mkd_gcm::{Error, GroupPath, HierarchyBranch, normalize_task_leaf, sanitize_token};

fn parse_message(name: &str) -> String {
    match GroupPath::parse(name) {
        Err(Error::Message(m)) => m,
        _ => panic!("expected a message error for {name:?}"),
    }
}

#[test]
fn parse_error_texts() {
    assert_eq!(parse_message(" \t "), "empty group path");
    assert_eq!(parse_message(" other.top "), "group must start with mkd. or be monkeyking / monkeyking.*: other.top");
    assert_eq!(parse_message("mkd.a b"), "group has whitespace: mkd.a b");
}

#[test]
fn parse_trims_and_is_idempotent() {
    let g = GroupPath::parse("  mkd.projects.mkd.log \n").unwrap();
    assert_eq!(g.as_str(), "mkd.projects.mkd.log");
    let again = GroupPath::parse(g.as_str()).unwrap();
    assert_eq!(again, g);
    let parsed: GroupPath = "monkeyking.log".parse().unwrap();
    assert_eq!(parsed.as_str(), "monkeyking.log");
}

#[test]
fn built_paths_parse() {
    for g in [
        GroupPath::project_tasks(HierarchyBranch::Users, "Nate Smith"),
        GroupPath::project_tasks(HierarchyBranch::Addressbook, "!!"),
        GroupPath::monkeyking_sub(" .Specs.. Q3 Plans. "),
        GroupPath::monkeyking_sub(".."),
        GroupPath::task_group(HierarchyBranch::Agents, "grok", "task-7", "Fix It"),
    ] {
        let p = GroupPath::parse(g.as_str()).unwrap();
        assert_eq!(p, g);
    }
    assert_eq!(GroupPath::project_tasks(HierarchyBranch::Users, "Nate Smith").as_str(), "mkd.users.nate-smith.tasks");
    assert_eq!(GroupPath::project_tasks(HierarchyBranch::Addressbook, "!!").as_str(), "mkd.addressbook.unknown.tasks");
    assert_eq!(GroupPath::monkeyking_sub(" .Specs.. Q3 Plans. ").as_str(), "monkeyking.specs.unknown.q3-plans");
    assert_eq!(GroupPath::monkeyking_sub("..").as_str(), "monkeyking");
    assert_eq!(
        GroupPath::task_group(HierarchyBranch::Agents, "grok", "task-7", "Fix It").as_str(),
        "mkd.agents.grok.tasks.7-fix-it"
    );
}

#[test]
fn allowed_roots() {
    assert!(GroupPath::is_allowed_root("mkd.x"));
    assert!(GroupPath::is_allowed_root("monkeyking"));
    assert!(GroupPath::is_allowed_root("monkeyking.a"));
    assert!(!GroupPath::is_allowed_root("monkeykingdom"));
    assert!(!GroupPath::is_allowed_root("mkd"));
}

#[test]
fn branch_names() {
    assert_eq!(HierarchyBranch::Projects.as_str(), "projects");
    assert_eq!(HierarchyBranch::Addressbook.as_str(), "addressbook");
}

#[test]
fn sanitize_token_collapses_and_trims() {
    assert_eq!(sanitize_token("  --A__b  c..--"), "a-b-c");
    assert_eq!(sanitize_token("x/y\\z"), "x-y-z");
    assert_eq!(sanitize_token(".-."), "unknown");
    assert_eq!(sanitize_token("v1.2"), "v1.2");
}

#[test]
fn normalize_task_leaf_cases() {
    assert_eq!(normalize_task_leaf("task-42", None).as_deref(), Some("42"));
    assert_eq!(normalize_task_leaf("merge-task-42", Some("Fix Bug")).as_deref(), Some("42-fix-bug"));
    assert_eq!(normalize_task_leaf("task-task-task-9", Some("  ")).as_deref(), Some("9"));
    assert_eq!(normalize_task_leaf("general", None), None);
    assert_eq!(normalize_task_leaf("tasks", None), None);
    assert_eq!(normalize_task_leaf("task-", None), None);
    assert_eq!(normalize_task_leaf("notes", None), None);
}

#[test]
fn legacy_task_child_with_spaces() {
    assert!(GroupPath::is_legacy_task_child_group("  mkd.projects.x.tasks.1  "));
    assert!(GroupPath::is_legacy_task_child_group("mkd.projects.x.tasks."));
    assert!(!GroupPath::is_legacy_task_child_group("mkd.tasks.x.tasks"));
}

#[test]
fn as_ref_gives_the_name() {
    let g = GroupPath::parse("mkd.users.nate.log").unwrap();
    let s: &str = g.as_ref();
    assert_eq!(s, "mkd.users.nate.log");
    assert!("bad group".parse::<GroupPath>().is_err());
}

#[test]
fn sanitizing_twice_changes_nothing() {
    for s in ["Monkey King", "  --A__b  c..--", "x/y\\z", "v1.2", "!!"] {
        let once = sanitize_token(s);
        assert_eq!(sanitize_token(&once), once);
        assert!(once.chars().all(|c| c.is_ascii_lowercase() || c.is_ascii_digit() || c == '.' || c == '-'));
    }
}

#[test]
fn sanitize_token_lowercases_before_mapping() {
    assert_eq!(sanitize_token("Ünïcode Ω"), "n-code");
    assert_eq!(sanitize_token("\u{212A}elvin"), "kelvin");
    assert_eq!(sanitize_token("ΩΩ"), "unknown");
}

#[test]
fn sanitize_token_of_non_ascii_settles() {
    for s in ["Ünïcode Ω", "\u{212A}ELVIN", "Straße-Nr.5", "  ÉTÉ  "] {
        let once = sanitize_token(s);
        assert!(!once.chars().any(|c| c.is_ascii_uppercase()));
        assert_eq!(sanitize_token(&once), once);
    }
}

#[test]
fn task_leaves_are_lowercase() {
    assert_eq!(normalize_task_leaf("TASK-ABC", Some("Slug X")).as_deref(), Some("abc-slug-x"));
    assert_eq!(normalize_task_leaf("Task-Ünï", None).as_deref(), Some("n"));
    assert_eq!(normalize_task_leaf("MERGE-TASK-7", Some("\u{212A}ey")).as_deref(), Some("7-key"));
}
