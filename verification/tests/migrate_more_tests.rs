use mkd_gcm::HierarchyBranch;
use mkd_gcm::migrate_map::{from_legacy_wing_room_for_branch, to_legacy_wing_room};

fn back(wing: &str, room: &str, b: HierarchyBranch) -> (String, String) {
    to_legacy_wing_room(&from_legacy_wing_room_for_branch(wing, room, b)).unwrap()
}

#[test]
fn reverse_undoes_forward() {
    assert_eq!(back("Contacts", "Main", HierarchyBranch::Addressbook), ("contacts".into(), "main".into()));
    assert_eq!(back("nate", "General", HierarchyBranch::Users), ("nate".into(), "main".into()));
    assert_eq!(back("Monkey King", "log", HierarchyBranch::Agents), ("monkeyking".into(), "log".into()));
    assert_eq!(back("mkd", "merge-7", HierarchyBranch::Projects), ("mkd".into(), "7".into()));
    assert_eq!(back("mkd", "tasks", HierarchyBranch::Projects), ("mkd".into(), "tasks".into()));
}

#[test]
fn reverse_undoes_forward_under_system() {
    assert_eq!(back("anything", "task-42", HierarchyBranch::System), ("system".into(), "tasks.42".into()));
    assert_eq!(back("x", "a.b", HierarchyBranch::System), ("system".into(), "a.b".into()));
    assert_eq!(back("x", "", HierarchyBranch::System), ("system".into(), "unknown".into()));
}

#[test]
fn dotted_rooms_are_not_undone() {
    assert_eq!(back("mkd", "tasks.x", HierarchyBranch::Projects), ("mkd".into(), "x".into()));
}

#[test]
fn wing_base_plus_main_is_the_main_room() {
    use_base("mkd");
    use_base("nate");
    use_base("system");
    use_base("Monkey King");
}

fn use_base(w: &str) {
    let base = mkd_gcm::migrate_map::migrate_wing_base(w);
    let full = mkd_gcm::migrate_map::from_legacy_wing_room(w, "main");
    assert_eq!(format!("{}.main", base.as_str()), full.as_str());
}

#[test]
fn forward_groups_parse_and_sit_under_their_branch() {
    for (w, r, b, prefix) in [
        ("Contacts", "Main", HierarchyBranch::Addressbook, "mkd.addressbook."),
        ("any", "task-3", HierarchyBranch::System, "mkd.system."),
        ("x y", "tasks", HierarchyBranch::Projects, "mkd.projects."),
    ] {
        let g = from_legacy_wing_room_for_branch(w, r, b);
        assert_eq!(mkd_gcm::GroupPath::parse(g.as_str()).unwrap(), g);
        assert!(g.as_str().starts_with(prefix));
    }
    assert!(from_legacy_wing_room_for_branch("x y", "tasks", HierarchyBranch::Projects).as_str().ends_with(".tasks"));
}
