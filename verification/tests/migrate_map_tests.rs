use mkd_gcm::migrate_map::{
    classify_wing, from_legacy_wing_room, from_legacy_wing_room_for_branch, migrate_wing_base,
    to_legacy_wing_room,
};
use mkd_gcm::{GroupPath, HierarchyBranch, sanitize_token};

#[test]
fn golden_projects() {
    let g = from_legacy_wing_room("mkd", "log");
    assert_eq!(g.as_str(), "mkd.projects.mkd.log");
    assert_eq!(g.fs_relative(), "projects/mkd/log");
}

#[test]
fn golden_agents() {
    let g = from_legacy_wing_room("monkey-king", "log");
    assert_eq!(g.as_str(), "mkd.agents.monkeyking.log");
    let g2 = from_legacy_wing_room("grok", "conversations");
    assert_eq!(g2.as_str(), "mkd.agents.grok.conversations");
}

#[test]
fn golden_users() {
    assert_eq!(
        from_legacy_wing_room("nate", "log").as_str(),
        "mkd.users.nate.log"
    );
}

#[test]
fn golden_system() {
    assert_eq!(
        from_legacy_wing_room("system", "rehearsal").as_str(),
        "mkd.system.rehearsal"
    );
}

#[test]
fn golden_addressbook_forward_via_explicit_branch() {
    assert_ne!(
        classify_wing("contacts"),
        HierarchyBranch::Addressbook,
        "frozen classify_wing must not invent addressbook from wing tokens"
    );
    let g = from_legacy_wing_room_for_branch("contacts", "main", HierarchyBranch::Addressbook);
    assert_eq!(g.as_str(), "mkd.addressbook.contacts.main");
    let g2 =
        from_legacy_wing_room_for_branch("contacts", "entries", HierarchyBranch::Addressbook);
    assert_eq!(g2.as_str(), "mkd.addressbook.contacts.entries");
}

#[test]
fn golden_addressbook_reverse() {
    let g = GroupPath::parse("mkd.addressbook.contacts.main").unwrap();
    assert_eq!(
        to_legacy_wing_room(&g),
        Some(("contacts".into(), "main".into()))
    );
}

#[test]
fn classify_wing_never_returns_addressbook() {
    for token in [
        "mkd",
        "contacts",
        "addressbook",
        "nate",
        "system",
        "grok",
        "unknown-thing",
    ] {
        assert_ne!(
            classify_wing(token),
            HierarchyBranch::Addressbook,
            "classify_wing({token}) unexpectedly Addressbook"
        );
    }
}

#[test]
fn golden_task_leaf() {
    let g = from_legacy_wing_room("mkd", "task-1780536515909");
    assert_eq!(g.as_str(), "mkd.projects.mkd.tasks.1780536515909");
    let g2 = from_legacy_wing_room("mkd", "merge-42");
    assert_eq!(g2.as_str(), "mkd.projects.mkd.tasks.42");
    let g3 = from_legacy_wing_room("mkd", "hall-task-99");
    assert_eq!(g3.as_str(), "mkd.projects.mkd.hall-task-99");
    let g4 = GroupPath::task_group(
        HierarchyBranch::Projects,
        "mkd",
        "1780536515909",
        "fix-nntp-drift",
    );
    assert_eq!(
        g4.as_str(),
        "mkd.projects.mkd.tasks.1780536515909-fix-nntp-drift"
    );
}

#[test]
fn reverse_wing_room() {
    let g = GroupPath::parse("mkd.projects.mkd.log").unwrap();
    assert_eq!(to_legacy_wing_room(&g), Some(("mkd".into(), "log".into())));
    let t = GroupPath::parse("mkd.projects.mkd.tasks.1780536515909-fix-nntp-drift").unwrap();
    assert_eq!(
        to_legacy_wing_room(&t),
        Some(("mkd".into(), "1780536515909-fix-nntp-drift".into()))
    );
}

#[test]
fn migrate_wing_base_strips_main() {
    assert_eq!(migrate_wing_base("mkd").as_str(), "mkd.projects.mkd");
    assert_eq!(migrate_wing_base("nate").as_str(), "mkd.users.nate");
}

#[test]
fn general_and_overview_room_become_main() {
    assert_eq!(
        from_legacy_wing_room("mkd", "").as_str(),
        "mkd.projects.mkd.unknown"
    );
    assert_eq!(
        from_legacy_wing_room("mkd", "general").as_str(),
        "mkd.projects.mkd.main"
    );
    assert_eq!(
        from_legacy_wing_room("mkd", "overview").as_str(),
        "mkd.projects.mkd.main"
    );
}

#[test]
fn classify_wing_matches_its_sanitized_token() {
    for (wing, branch) in [
        ("System_Tasks", HierarchyBranch::System),
        ("system_tasks", HierarchyBranch::System),
        ("  Grok-Build ", HierarchyBranch::Agents),
        ("NATE", HierarchyBranch::Users),
        ("Ωmega", HierarchyBranch::Projects),
        ("\u{212A}ing", HierarchyBranch::Projects),
    ] {
        assert_eq!(classify_wing(wing), branch);
        assert_eq!(classify_wing(&sanitize_token(wing)), branch);
    }
}
