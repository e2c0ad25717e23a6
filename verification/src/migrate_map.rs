//! Migration-only wing/room → group path oracle.
//!
//! Not part of the runtime request path: runtime locators are full
//! [`GroupPath`] strings. The mapping is frozen so existing rows rewrite to
//! the same `mkd.*` strings the wire already uses.
//!
//! [`classify_wing`] lists agents / users / system only; no legacy wing token
//! maps to [`HierarchyBranch::Addressbook`] (unknown → Projects). Addressbook
//! paths are reached through [`from_legacy_wing_room_for_branch`].

use vstd::prelude::*;

use crate::path::{
    GroupPath, HierarchyBranch, ascii_sanitize, branch_name, is_token, lemma_ascii_sanitize_fixes,
    lower_chars, normalize_leaf, normalize_task_leaf, sanitize, sanitize_char, sanitize_token,
};
use crate::text::{
    ascii_lower, chars_eq_str, chars_of, ends_with, extend_chars, extend_str, has_prefix_str,
    has_suffix_str, is_ascii_text, is_ws, join, join_chars, lemma_trim_no_ws, slice_chars, split,
    split_chars, starts_with, string_of, views,
};

verus! {

/// Whether `x` is one of `list`.
pub open spec fn listed(x: Seq<char>, list: Seq<Seq<char>>) -> bool {
    exists|i: int| 0 <= i < list.len() && list[i] == x
}

/// The views of a list of string slices.
pub open spec fn str_views(l: Seq<&str>) -> Seq<Seq<char>> {
    l.map_values(|s: &str| s@)
}

/// Legacy wing tokens of agents.
pub open spec fn agent_wings() -> Seq<Seq<char>> {
    seq![
        "monkey-king"@,
        "monkeyking"@,
        "grok"@,
        "grok-build"@,
        "architecture"@,
        "code"@,
        "devops"@,
        "hephaestus"@,
        "thesmith"@,
        "sherlock"@,
        "daedalus"@,
        "patton"@,
        "minerva"@,
        "janus"@,
        "argus"@,
    ]
}

/// Legacy wing tokens of users.
pub open spec fn user_wings() -> Seq<Seq<char>> {
    seq!["nate"@]
}

/// Legacy wing tokens of the system branch.
pub open spec fn system_wings() -> Seq<Seq<char>> {
    seq!["system"@, "system-tasks"@, "system_tasks"@]
}

/// `classify_wing`: system, then users, then agents, else projects; the raw
/// token and its sanitized form are both looked up.
pub open spec fn classify(wing: Seq<char>) -> HierarchyBranch {
    let w = sanitize(wing);
    if listed(wing, system_wings()) || listed(w, system_wings()) || w == "system"@ {
        HierarchyBranch::System
    } else if listed(wing, user_wings()) || listed(w, user_wings()) {
        HierarchyBranch::Users
    } else if listed(wing, agent_wings()) || listed(w, agent_wings()) {
        HierarchyBranch::Agents
    } else {
        HierarchyBranch::Projects
    }
}

/// The room segment of a legacy room token.
pub open spec fn room_segment(room: Seq<char>) -> Seq<char> {
    let r = sanitize(room);
    if r.len() == 0 || r == "."@ || r == "general"@ || r == "overview"@ {
        "main"@
    } else {
        r
    }
}

/// The group a legacy wing lives under, for a given branch.
pub open spec fn wing_base(wing: Seq<char>, branch: HierarchyBranch) -> Seq<char> {
    let w = sanitize(wing);
    match branch {
        HierarchyBranch::System => "mkd.system"@,
        HierarchyBranch::Agents => "mkd.agents."@ + (if w == "monkey-king"@ {
            "monkeyking"@
        } else {
            w
        }),
        _ => "mkd."@ + branch_name(branch) + "."@ + w,
    }
}

/// `from_legacy_wing_room_for_branch`.
pub open spec fn legacy_group(wing: Seq<char>, room: Seq<char>, branch: HierarchyBranch) -> Seq<
    char,
> {
    let base = wing_base(wing, branch);
    let r = room_segment(room);
    if r == "tasks"@ {
        base + ".tasks"@
    } else if normalize_leaf(room, None) is Some {
        base + ".tasks."@ + normalize_leaf(room, None)->0
    } else if branch == HierarchyBranch::System {
        "mkd.system."@ + r
    } else {
        base + "."@ + r
    }
}

/// `to_legacy_wing_room`: best-effort reverse of the mapping.
pub open spec fn legacy_wing_room(path: Seq<char>) -> Option<(Seq<char>, Seq<char>)> {
    if !starts_with(path, "mkd."@) {
        None
    } else {
        let parts = split(path.skip(4), '.');
        if parts[0] == "system"@ {
            Some(
                (
                    "system"@,
                    if parts.len() == 1 {
                        "main"@
                    } else {
                        join(parts.skip(1), "."@)
                    },
                ),
            )
        } else if (parts[0] == "projects"@ || parts[0] == "agents"@ || parts[0] == "users"@
            || parts[0] == "addressbook"@) && parts.len() >= 2 {
            Some(
                (
                    parts[1],
                    if parts.len() == 2 {
                        "main"@
                    } else if parts.len() >= 4 && parts[2] == "tasks"@ {
                        join(parts.skip(3), "."@)
                    } else {
                        join(parts.skip(2), "."@)
                    },
                ),
            )
        } else {
            None
        }
    }
}

/// `migrate_wing_base`.
pub open spec fn wing_base_group(wing: Seq<char>) -> Seq<char> {
    let full = legacy_group(wing, "main"@, classify(wing));
    if ends_with(full, ".main"@) {
        full.take(full.len() - 5)
    } else {
        full
    }
}

/// A text that is ASCII and its own sanitized form.
pub open spec fn settled(t: Seq<char>) -> bool {
    is_ascii_text(t) && ascii_sanitize(t) == t
}

proof fn lemma_settled(t: Seq<char>)
    requires
        is_token(t),
        lower_chars(t),
        is_ascii_text(t),
    ensures
        settled(t),
{
    lemma_ascii_sanitize_fixes(t);
}

/// The frozen wing tokens are ASCII; each but `system_tasks` is its own
/// sanitized form, and `system_tasks` sanitizes to `system-tasks`.
proof fn lemma_wing_lists()
    ensures
        forall|t: Seq<char>| listed(t, agent_wings()) ==> settled(t),
        forall|t: Seq<char>| listed(t, user_wings()) ==> settled(t),
        forall|t: Seq<char>|
            listed(t, system_wings()) ==> is_ascii_text(t) && listed(
                ascii_sanitize(t),
                system_wings(),
            ),
{
    reveal_strlit("monkey-king");
    reveal_strlit("monkeyking");
    reveal_strlit("grok");
    reveal_strlit("grok-build");
    reveal_strlit("architecture");
    reveal_strlit("code");
    reveal_strlit("devops");
    reveal_strlit("hephaestus");
    reveal_strlit("thesmith");
    reveal_strlit("sherlock");
    reveal_strlit("daedalus");
    reveal_strlit("patton");
    reveal_strlit("minerva");
    reveal_strlit("janus");
    reveal_strlit("argus");
    reveal_strlit("nate");
    reveal_strlit("system");
    reveal_strlit("system-tasks");
    reveal_strlit("system_tasks");
    lemma_settled("monkey-king"@);
    lemma_settled("monkeyking"@);
    lemma_settled("grok"@);
    lemma_settled("grok-build"@);
    lemma_settled("architecture"@);
    lemma_settled("code"@);
    lemma_settled("devops"@);
    lemma_settled("hephaestus"@);
    lemma_settled("thesmith"@);
    lemma_settled("sherlock"@);
    lemma_settled("daedalus"@);
    lemma_settled("patton"@);
    lemma_settled("minerva"@);
    lemma_settled("janus"@);
    lemma_settled("argus"@);
    lemma_settled("nate"@);
    lemma_settled("system"@);
    lemma_settled("system-tasks"@);
    let a = "system_tasks"@;
    let b = "system-tasks"@;
    assert(is_ascii_text(a));
    assert forall|i: int| 0 <= i < a.len() implies !is_ws(#[trigger] a[i]) by {}
    lemma_trim_no_ws(a);
    assert forall|i: int| 0 <= i < b.len() implies !is_ws(#[trigger] b[i]) by {}
    lemma_trim_no_ws(b);
    assert(a.map_values(|c: char| ascii_lower(c)) =~= a);
    assert(b.map_values(|c: char| ascii_lower(c)) =~= b);
    assert(a.map_values(|c| sanitize_char(c)) =~= b.map_values(|c| sanitize_char(c)));
    assert(ascii_sanitize(a) == b);
    assert(listed(b, system_wings())) by {
        assert(system_wings()[1] == b);
    }
    assert forall|t: Seq<char>| listed(t, system_wings()) implies is_ascii_text(t) && listed(
        ascii_sanitize(t),
        system_wings(),
    ) by {
        let i = choose|i: int| 0 <= i < system_wings().len() && system_wings()[i] == t;
        if i == 0 {
            assert(system_wings()[0] == ascii_sanitize(t));
        } else if i == 1 {
            assert(system_wings()[1] == ascii_sanitize(t));
        }
    }
}

/// A wing classifies as its sanitized token does, where sanitizing that
/// token keeps it and an ASCII wing sanitizes by the ASCII mapping.
proof fn lemma_classify_sanitized(wing: Seq<char>)
    requires
        sanitize(sanitize(wing)) == sanitize(wing),
        is_ascii_text(wing) ==> sanitize(wing) == ascii_sanitize(wing),
    ensures
        classify(sanitize(wing)) == classify(wing),
{
    lemma_wing_lists();
    let x = sanitize(wing);
    if listed(wing, system_wings()) {
        assert(listed(x, system_wings()));
    } else if listed(wing, user_wings()) {
        assert(settled(wing));
        assert(x == wing);
    } else if listed(wing, agent_wings()) {
        assert(settled(wing));
        assert(x == wing);
    }
}

/// The frozen wing lists, written out: each agent token (`monkey-king`,
/// `monkeyking`, `grok`, `grok-build`, `architecture`, `code`, `devops`,
/// `hephaestus`, `thesmith`, `sherlock`, `daedalus`, `patton`, `minerva`,
/// `janus`, `argus`) classifies as Agents, so every room of it maps under
/// `mkd.agents.`; `nate` classifies as Users; `system`, `system-tasks` and
/// `system_tasks` as System. This holds of each token whose sanitized form
/// is its ASCII one, as for every ASCII text (a call of `sanitize_token`
/// shows it).
pub proof fn lemma_frozen_wings(t: Seq<char>)
    requires
        sanitize(t) == ascii_sanitize(t),
    ensures
        (t == "monkey-king"@ || t == "monkeyking"@ || t == "grok"@ || t == "grok-build"@ ||
            t == "architecture"@ || t == "code"@ || t == "devops"@ || t == "hephaestus"@ ||
            t == "thesmith"@ || t == "sherlock"@ || t == "daedalus"@ || t == "patton"@ ||
            t == "minerva"@ || t == "janus"@ || t == "argus"@) ==> classify(t) == HierarchyBranch::Agents,
        (t == "monkey-king"@ || t == "monkeyking"@ || t == "grok"@ || t == "grok-build"@ ||
            t == "architecture"@ || t == "code"@ || t == "devops"@ || t == "hephaestus"@ ||
            t == "thesmith"@ || t == "sherlock"@ || t == "daedalus"@ || t == "patton"@ ||
            t == "minerva"@ || t == "janus"@ || t == "argus"@) ==> forall|room: Seq<char>|
            starts_with(#[trigger] legacy_group(t, room, classify(t)), "mkd.agents."@),
        t == "nate"@ ==> classify(t) == HierarchyBranch::Users,
        (t == "system"@ || t == "system-tasks"@ || t == "system_tasks"@) ==> classify(t)
            == HierarchyBranch::System,
{
    reveal_strlit("monkey-king");
    reveal_strlit("monkeyking");
    reveal_strlit("grok");
    reveal_strlit("grok-build");
    reveal_strlit("architecture");
    reveal_strlit("code");
    reveal_strlit("devops");
    reveal_strlit("hephaestus");
    reveal_strlit("thesmith");
    reveal_strlit("sherlock");
    reveal_strlit("daedalus");
    reveal_strlit("patton");
    reveal_strlit("minerva");
    reveal_strlit("janus");
    reveal_strlit("argus");
    reveal_strlit("nate");
    reveal_strlit("system");
    reveal_strlit("system-tasks");
    reveal_strlit("system_tasks");
    reveal_strlit("mkd.agents.");
    lemma_wing_lists();
    let x = sanitize(t);
    if (t == "monkey-king"@ || t == "monkeyking"@ || t == "grok"@ || t == "grok-build"@ ||
            t == "architecture"@ || t == "code"@ || t == "devops"@ || t == "hephaestus"@ ||
            t == "thesmith"@ || t == "sherlock"@ || t == "daedalus"@ || t == "patton"@ ||
            t == "minerva"@ || t == "janus"@ || t == "argus"@) {
        assert(listed(t, agent_wings()));
        assert(settled(t));
        assert(x == t);
        assert(!listed(t, system_wings()));
        assert(!listed(t, user_wings()));
        assert(classify(t) == HierarchyBranch::Agents);
        assert forall|room: Seq<char>| starts_with(#[trigger] legacy_group(t, room, classify(t)), "mkd.agents."@) by {
            let base = wing_base(t, HierarchyBranch::Agents);
            let p = "mkd.agents."@;
            assert(base.subrange(0, p.len() as int) =~= p);
            let g = legacy_group(t, room, classify(t));
            assert(g.subrange(0, p.len() as int) =~= base.subrange(0, p.len() as int));
        }
    }
    if t == "nate"@ {
        assert(listed(t, user_wings())) by {
            assert(user_wings()[0] == t);
        }
        assert(settled(t));
        assert(!listed(t, system_wings()));
    }
    if t == "system"@ || t == "system-tasks"@ || t == "system_tasks"@ {
        assert(listed(t, system_wings())) by {
            if t == "system"@ {
                assert(system_wings()[0] == t);
            } else if t == "system-tasks"@ {
                assert(system_wings()[1] == t);
            } else {
                assert(system_wings()[2] == t);
            }
        }
    }
}

/// Whether `v` is one of `list`.
fn listed_in(v: &Vec<char>, list: &Vec<&str>) -> (b: bool)
    ensures
        b == listed(v@, str_views(list@)),
{
    let mut i: usize = 0;
    while i < list.len()
        invariant
            i <= list.len(),
            forall|j: int| 0 <= j < i ==> str_views(list@)[j] != v@,
        decreases list.len() - i,
    {
        if chars_eq_str(v, list[i]) {
            assert(str_views(list@)[i as int] == v@);
            return true;
        }
        i += 1;
    }
    false
}

/// Classify a legacy wing token into a hierarchy branch (frozen lists).
///
/// Never returns [`HierarchyBranch::Addressbook`]: unknown tokens map to
/// Projects.
pub fn classify_wing(wing: &str) -> (b: HierarchyBranch)
    ensures
        b == classify(wing@),
        b == classify(sanitize(wing@)),
        b != HierarchyBranch::Addressbook,
{
    let agents: Vec<&str> = vec![
        "monkey-king",
        "monkeyking",
        "grok",
        "grok-build",
        "architecture",
        "code",
        "devops",
        "hephaestus",
        "thesmith",
        "sherlock",
        "daedalus",
        "patton",
        "minerva",
        "janus",
        "argus",
    ];
    let users: Vec<&str> = vec!["nate"];
    let system: Vec<&str> = vec!["system", "system-tasks", "system_tasks"];
    proof {
        assert(str_views(agents@) =~= agent_wings());
        assert(str_views(users@) =~= user_wings());
        assert(str_views(system@) =~= system_wings());
    }
    let raw = chars_of(wing);
    let ws = sanitize_token(wing);
    let w = chars_of(ws.as_str());
    proof {
        lemma_classify_sanitized(wing@);
    }
    if listed_in(&raw, &system) || listed_in(&w, &system) || chars_eq_str(&w, "system") {
        return HierarchyBranch::System;
    }
    if listed_in(&raw, &users) || listed_in(&w, &users) {
        return HierarchyBranch::Users;
    }
    if listed_in(&raw, &agents) || listed_in(&w, &agents) {
        return HierarchyBranch::Agents;
    }
    HierarchyBranch::Projects
}

/// Same mapping as [`from_legacy_wing_room`] with an explicit
/// [`HierarchyBranch`] (bypasses [`classify_wing`]).
pub fn from_legacy_wing_room_for_branch(wing: &str, room: &str, branch: HierarchyBranch) -> (res:
    GroupPath)
    ensures
        res@ == legacy_group(wing@, room@, branch),
        crate::text::is_ascii_text(room@) ==> sanitize(room@) == crate::path::ascii_sanitize(room@),
{
    let ws = sanitize_token(wing);
    let w = chars_of(ws.as_str());
    let rs = sanitize_token(room);
    let mut r = chars_of(rs.as_str());
    if r.len() == 0 || chars_eq_str(&r, ".") || chars_eq_str(&r, "general") || chars_eq_str(
        &r,
        "overview",
    ) {
        r = chars_of("main");
    }
    let base = match branch {
        HierarchyBranch::System => chars_of("mkd.system"),
        HierarchyBranch::Agents => {
            let mut b = chars_of("mkd.agents.");
            if chars_eq_str(&w, "monkey-king") {
                extend_str(&mut b, "monkeyking");
            } else {
                extend_chars(&mut b, &w);
            }
            b
        },
        other => {
            let mut b = chars_of("mkd.");
            extend_str(&mut b, other.as_str());
            extend_str(&mut b, ".");
            extend_chars(&mut b, &w);
            b
        },
    };
    proof {
        assert(base@ == wing_base(wing@, branch));
        assert(r@ == room_segment(room@));
    }
    if chars_eq_str(&r, "tasks") {
        let mut out = base;
        extend_str(&mut out, ".tasks");
        return GroupPath::unchecked(string_of(&out));
    }
    match normalize_task_leaf(room, None) {
        Some(leaf) => {
            let mut out = base;
            extend_str(&mut out, ".tasks.");
            extend_str(&mut out, leaf.as_str());
            GroupPath::unchecked(string_of(&out))
        },
        None => {
            let mut out = if branch == HierarchyBranch::System {
                chars_of("mkd.system.")
            } else {
                let mut b = base;
                extend_str(&mut b, ".");
                b
            };
            extend_chars(&mut out, &r);
            GroupPath::unchecked(string_of(&out))
        },
    }
}

/// Map legacy wing + room to a group path (exporter-compatible, frozen oracle).
///
/// Branch is chosen by [`classify_wing`] (never Addressbook).
pub fn from_legacy_wing_room(wing: &str, room: &str) -> (res: GroupPath)
    ensures
        res@ == legacy_group(wing@, room@, classify(wing@)),
        crate::text::is_ascii_text(room@) ==> sanitize(room@) == crate::path::ascii_sanitize(room@),
{
    from_legacy_wing_room_for_branch(wing, room, classify_wing(wing))
}

/// Best-effort reverse map for migration diagnostics (not a product dual-read path).
pub fn to_legacy_wing_room(path: &GroupPath) -> (res: Option<(String, String)>)
    ensures
        match res {
            Some((w, r)) => legacy_wing_room(path@) == Some((w@, r@)),
            None => legacy_wing_room(path@) is None,
        },
{
    let v = chars_of(path.as_str());
    if !has_prefix_str(&v, "mkd.") {
        return None;
    }
    proof {
        reveal_strlit("mkd.");
    }
    let rest = slice_chars(&v, 4, v.len());
    let parts = split_chars(&rest, '.');
    let ghost ps = views(parts@);
    proof {
        assert(rest@ =~= v@.skip(4));
        crate::text::lemma_split_len(rest@, '.');
        assert(ps.len() == parts.len());
    }
    let dot = chars_of(".");
    let p0 = &parts[0];
    proof {
        assert(p0@ == ps[0]);
    }
    if chars_eq_str(p0, "system") {
        let room = if parts.len() == 1 {
            chars_of("main")
        } else {
            let tail = tail_parts(&parts, 1);
            join_chars(&tail, &dot)
        };
        return Some((string_of(&chars_of("system")), string_of(&room)));
    }
    if (chars_eq_str(p0, "projects") || chars_eq_str(p0, "agents") || chars_eq_str(p0, "users")
        || chars_eq_str(p0, "addressbook")) && parts.len() >= 2 {
        let wing = slice_chars(&parts[1], 0, parts[1].len());
        proof {
            assert(wing@ =~= ps[1]);
        }
        let room = if parts.len() == 2 {
            chars_of("main")
        } else if parts.len() >= 4 && chars_eq_str(&parts[2], "tasks") {
            let tail = tail_parts(&parts, 3);
            join_chars(&tail, &dot)
        } else {
            let tail = tail_parts(&parts, 2);
            join_chars(&tail, &dot)
        };
        return Some((string_of(&wing), string_of(&room)));
    }
    None
}

/// Copies of `parts[k..]`.
fn tail_parts(parts: &Vec<Vec<char>>, k: usize) -> (res: Vec<Vec<char>>)
    requires
        k <= parts.len(),
    ensures
        views(res@) == views(parts@).skip(k as int),
{
    let mut out: Vec<Vec<char>> = Vec::new();
    let mut i = k;
    while i < parts.len()
        invariant
            k <= i <= parts.len(),
            views(out@) == views(parts@).subrange(k as int, i as int),
        decreases parts.len() - i,
    {
        let c = slice_chars(&parts[i], 0, parts[i].len());
        let ghost before = out@;
        out.push(c);
        proof {
            assert(c@ =~= parts@[i as int]@);
            assert(views(out@) =~= views(before).push(c@));
            assert(views(parts@).subrange(k as int, i + 1) =~= views(parts@).subrange(
                k as int,
                i as int,
            ).push(views(parts@)[i as int]));
        }
        i += 1;
    }
    out
}

/// The room `main` maps to the wing's base group followed by `.main`, when
/// `main` sanitizes to itself.
proof fn lemma_main_room(wing: Seq<char>, branch: HierarchyBranch)
    requires
        sanitize("main"@) == crate::path::ascii_sanitize("main"@),
    ensures
        legacy_group(wing, "main"@, branch) == wing_base(wing, branch) + ".main"@,
{
    reveal_strlit("main");
    reveal_strlit(".main");
    reveal_strlit("mkd.system");
    reveal_strlit("mkd.system.");
    reveal_strlit(".");
    reveal_strlit("tasks");
    reveal_strlit("general");
    reveal_strlit("overview");
    assert(crate::path::is_token("main"@));
    crate::path::lemma_ascii_sanitize_fixes("main"@);
    assert(sanitize("main"@) == "main"@);
    assert(room_segment("main"@) == "main"@);
    assert(normalize_leaf("main"@, None) is None);
    if branch == HierarchyBranch::System {
        assert("mkd.system."@ + "main"@ =~= "mkd.system"@ + ".main"@);
    } else {
        assert(wing_base(wing, branch) + "."@ + "main"@ =~= wing_base(wing, branch) + ".main"@);
    }
}

/// Sub-hierarchy base path for a legacy wing name (no leaf room).
///
/// Uses `from_legacy_wing_room(wing, "main")` and strips the trailing `.main`
/// segment so association tables store e.g. `mkd.projects.mkd`.
pub fn migrate_wing_base(wing: &str) -> (res: GroupPath)
    ensures
        res@ == wing_base_group(wing@),
        res@ + ".main"@ == legacy_group(wing@, "main"@, classify(wing@)),
{
    let full = from_legacy_wing_room(wing, "main");
    proof {
        reveal_strlit("main");
        reveal_strlit(".main");
        assert(crate::text::is_ascii_text("main"@));
        lemma_main_room(wing@, classify(wing@));
        let b = wing_base(wing@, classify(wing@));
        assert((b + ".main"@).subrange(b.len() as int, b.len() as int + 5) =~= ".main"@);
        assert((b + ".main"@).take(b.len() as int) =~= b);
    }
    let v = chars_of(full.as_str());
    if has_suffix_str(&v, ".main") {
        proof {
            reveal_strlit(".main");
        }
        let base = slice_chars(&v, 0, v.len() - 5);
        GroupPath::unchecked(string_of(&base))
    } else {
        full
    }
}


// ------------------------------------------------------------------------
// Reverse of the forward mapping
// ------------------------------------------------------------------------

/// A text without a dot.
pub open spec fn no_dot(s: Seq<char>) -> bool {
    forall|j: int| 0 <= j < s.len() ==> s[j] != '.'
}

/// The wing segment of the group a legacy wing maps to.
pub open spec fn wing_segment(wing: Seq<char>, branch: HierarchyBranch) -> Seq<char> {
    if branch == HierarchyBranch::Agents && sanitize(wing) == "monkey-king"@ {
        "monkeyking"@
    } else {
        sanitize(wing)
    }
}

/// The room the reverse map gives for a legacy room: the task leaf of a
/// task room, else the room segment.
pub open spec fn reverse_room(room: Seq<char>) -> Seq<char> {
    if room_segment(room) != "tasks"@ && normalize_leaf(room, None) is Some {
        normalize_leaf(room, None)->0
    } else {
        room_segment(room)
    }
}

/// What follows `mkd.system.` in the group of a legacy room of the system branch.
pub open spec fn system_room(room: Seq<char>) -> Seq<char> {
    if room_segment(room) != "tasks"@ && normalize_leaf(room, None) is Some {
        "tasks."@ + normalize_leaf(room, None)->0
    } else {
        room_segment(room)
    }
}

proof fn lemma_split_single(a: Seq<char>)
    requires
        no_dot(a),
    ensures
        split(a, '.') == seq![a],
{
    crate::text::lemma_last_index_is(a, '.', -1);
}

proof fn lemma_split_after_piece(a: Seq<char>, b: Seq<char>)
    requires
        no_dot(a),
    ensures
        split(a + seq!['.'] + b, '.') == seq![a] + split(b, '.'),
    decreases b.len(),
{
    let s = a + seq!['.'] + b;
    crate::text::lemma_last_index(b, '.');
    let k = crate::text::last_index(b, '.');
    assert forall|j: int| a.len() + 1 + k < j < s.len() implies #[trigger] s[j] != '.' by {
        assert(s[j] == b[j - a.len() - 1]);
    }
    assert(s[a.len() + 1 + k] == '.') by {
        if k >= 0 {
            assert(s[a.len() + 1 + k] == b[k]);
        }
    }
    crate::text::lemma_last_index_is(s, '.', a.len() + 1 + k);
    if k < 0 {
        lemma_split_single(a);
        assert(s.take(a.len() as int) =~= a);
        assert(s.skip(a.len() as int + 1) =~= b);
        crate::text::lemma_last_index_is(b, '.', -1);
    } else {
        lemma_split_after_piece(a, b.take(k));
        assert(s.take(a.len() + 1 + k) =~= a + seq!['.'] + b.take(k));
        assert(s.skip(a.len() + 1 + k + 1) =~= b.skip(k + 1));
    }
}

proof fn lemma_reverse_of(path: Seq<char>, rest: Seq<char>)
    requires
        path == "mkd."@ + rest,
    ensures
        legacy_wing_room(path) == {
            let parts = split(rest, '.');
            if parts[0] == "system"@ {
                Some(
                    (
                        "system"@,
                        if parts.len() == 1 {
                            "main"@
                        } else {
                            join(parts.skip(1), "."@)
                        },
                    ),
                )
            } else if (parts[0] == "projects"@ || parts[0] == "agents"@ || parts[0] == "users"@
                || parts[0] == "addressbook"@) && parts.len() >= 2 {
                Some(
                    (
                        parts[1],
                        if parts.len() == 2 {
                            "main"@
                        } else if parts.len() >= 4 && parts[2] == "tasks"@ {
                            join(parts.skip(3), "."@)
                        } else {
                            join(parts.skip(2), "."@)
                        },
                    ),
                )
            } else {
                None
            }
        },
{
    reveal_strlit("mkd.");
    assert(path.subrange(0, 4) =~= "mkd."@);
    assert(path.skip(4) =~= rest);
}

proof fn lemma_system_path(wing: Seq<char>, room: Seq<char>)
    ensures
        legacy_group(wing, room, HierarchyBranch::System) == "mkd."@ + ("system"@ + seq!['.'] + system_room(room)),
{
    reveal_strlit("mkd.");
    reveal_strlit("system");
    reveal_strlit("mkd.system");
    reveal_strlit("mkd.system.");
    reveal_strlit(".tasks");
    reveal_strlit(".tasks.");
    reveal_strlit("tasks");
    reveal_strlit("tasks.");
    let r = room_segment(room);
    let leaf = normalize_leaf(room, None);
    if r == "tasks"@ {
        assert(legacy_group(wing, room, HierarchyBranch::System) =~= "mkd."@ + ("system"@ + seq!['.'] + r));
    } else if leaf is Some {
        assert(legacy_group(wing, room, HierarchyBranch::System) =~= "mkd."@ + ("system"@ + seq!['.'] + (
        "tasks."@ + leaf->0)));
    } else {
        assert(legacy_group(wing, room, HierarchyBranch::System) =~= "mkd."@ + ("system"@ + seq!['.'] + r));
    }
}

/// The task part of a non-system group after its wing segment.
spec fn group_tail(room: Seq<char>) -> Seq<char> {
    let r = room_segment(room);
    if r == "tasks"@ {
        "tasks"@
    } else if normalize_leaf(room, None) is Some {
        "tasks"@ + seq!['.'] + normalize_leaf(room, None)->0
    } else {
        r
    }
}

proof fn lemma_branch_path(wing: Seq<char>, room: Seq<char>, branch: HierarchyBranch)
    requires
        branch != HierarchyBranch::System,
    ensures
        legacy_group(wing, room, branch) == "mkd."@ + (branch_name(branch) + seq!['.'] + (wing_segment(
            wing,
            branch,
        ) + seq!['.'] + group_tail(room))),
{
    reveal_strlit("mkd.");
    reveal_strlit(".");
    reveal_strlit("mkd.agents.");
    reveal_strlit("agents");
    reveal_strlit(".tasks");
    reveal_strlit(".tasks.");
    reveal_strlit("tasks");
    let base = wing_base(wing, branch);
    let seg = wing_segment(wing, branch);
    let bn = branch_name(branch);
    assert(base =~= "mkd."@ + bn + seq!['.'] + seg);
    let r = room_segment(room);
    let leaf = normalize_leaf(room, None);
    let full = "mkd."@ + (bn + seq!['.'] + (seg + seq!['.'] + group_tail(room)));
    if r == "tasks"@ {
        assert(base + ".tasks"@ =~= full);
    } else if leaf is Some {
        assert(base + ".tasks."@ + leaf->0 =~= full);
    } else {
        assert(base + "."@ + r =~= full);
    }
}

/// The reverse map undoes the forward map under the system branch: the
/// group maps back to `system` and everything after `mkd.system.`.
pub proof fn lemma_legacy_roundtrip_system(wing: Seq<char>, room: Seq<char>)
    ensures
        legacy_wing_room(legacy_group(wing, room, HierarchyBranch::System)) == Some(
            ("system"@, system_room(room)),
        ),
{
    reveal_strlit("system");
    reveal_strlit(".");
    let x = system_room(room);
    lemma_system_path(wing, room);
    lemma_reverse_of(legacy_group(wing, room, HierarchyBranch::System), "system"@ + seq!['.'] + x);
    assert(no_dot("system"@));
    lemma_split_after_piece("system"@, x);
    let parts = split("system"@ + seq!['.'] + x, '.');
    crate::text::lemma_split_len(x, '.');
    assert(parts.skip(1) =~= split(x, '.'));
    crate::text::lemma_join_split(x, '.');
    assert(seq!['.'] =~= "."@);
}

/// The reverse map undoes the forward map: a group mapped from a legacy
/// wing and room under another branch maps back to the wing's segment and
/// the room (the task leaf for a task room) when neither holds a dot.
pub proof fn lemma_legacy_roundtrip(wing: Seq<char>, room: Seq<char>, branch: HierarchyBranch)
    requires
        branch != HierarchyBranch::System,
        no_dot(wing_segment(wing, branch)),
        no_dot(reverse_room(room)),
    ensures
        legacy_wing_room(legacy_group(wing, room, branch)) == Some(
            (wing_segment(wing, branch), reverse_room(room)),
        ),
{
    reveal_strlit("system");
    reveal_strlit("tasks");
    reveal_strlit("agents");
    reveal_strlit("projects");
    reveal_strlit("users");
    reveal_strlit("addressbook");
    let bn = branch_name(branch);
    let seg = wing_segment(wing, branch);
    let t = group_tail(room);
    let leaf = normalize_leaf(room, None);
    lemma_branch_path(wing, room, branch);
    lemma_reverse_of(legacy_group(wing, room, branch), bn + seq!['.'] + (seg + seq!['.'] + t));
    assert(no_dot(bn));
    lemma_split_after_piece(bn, seg + seq!['.'] + t);
    lemma_split_after_piece(seg, t);
    let parts = split(bn + seq!['.'] + (seg + seq!['.'] + t), '.');
    assert(bn != "system"@) by {
        match branch {
            HierarchyBranch::Agents => {
                assert("agents"@[0] != "system"@[0]);
            },
            _ => {
                assert(bn.len() != "system"@.len());
            },
        }
    }
    assert(bn == "projects"@ || bn == "agents"@ || bn == "users"@ || bn == "addressbook"@);
    if room_segment(room) != "tasks"@ && leaf is Some {
        assert(no_dot("tasks"@));
        lemma_split_after_piece("tasks"@, leaf->0);
        lemma_split_single(leaf->0);
        assert(parts =~= seq![bn, seg, "tasks"@, leaf->0]);
        assert(parts.skip(3) =~= seq![leaf->0]);
        assert(join(parts.skip(3), "."@) == leaf->0);
        assert(reverse_room(room) == leaf->0);
    } else {
        lemma_split_single(t);
        assert(parts =~= seq![bn, seg, t]);
        assert(parts.skip(2) =~= seq![t]);
        assert(join(parts.skip(2), "."@) == t);
        assert(reverse_room(room) == t);
    }
}


// ------------------------------------------------------------------------
// Shape of the forward mapping
// ------------------------------------------------------------------------

proof fn lemma_tokens_no_ws(t: Seq<char>)
    requires
        crate::path::token_chars(t),
    ensures
        !crate::path::has_ws(t),
{
    assert forall|i: int| 0 <= i < t.len() implies !crate::text::is_ws(#[trigger] t[i]) by {
        assert(crate::path::token_char(t[i]));
    }
}

proof fn lemma_room_tails_no_ws(room: Seq<char>)
    ensures
        !crate::path::has_ws(group_tail(room)),
        !crate::path::has_ws(system_room(room)),
        !crate::path::has_ws(room_segment(room)),
{
    reveal_strlit("main");
    reveal_strlit("tasks");
    reveal_strlit("tasks.");
    crate::path::lemma_sanitize_is_token(room);
    let r = room_segment(room);
    assert(crate::path::token_chars(r)) by {
        assert(crate::path::token_chars("main"@));
    }
    lemma_tokens_no_ws(r);
    let leaf = normalize_leaf(room, None);
    crate::path::lemma_normalize_leaf(room, room);
    assert(crate::path::token_chars("tasks"@));
    lemma_tokens_no_ws("tasks"@);
    if leaf is Some {
        lemma_tokens_no_ws(leaf->0);
        assert(crate::path::token_chars(seq!['.']));
        lemma_tokens_no_ws(seq!['.']);
        crate::path::lemma_has_ws_concat("tasks"@, seq!['.']);
        crate::path::lemma_has_ws_concat("tasks"@ + seq!['.'], leaf->0);
        assert(!crate::path::has_ws("tasks."@));
        crate::path::lemma_has_ws_concat("tasks."@, leaf->0);
    }
}

/// The group a legacy wing and room map to is a valid group path that
/// parses back unchanged and lies under `mkd.<branch>.`; under the system
/// branch it does not depend on the wing; and a room that sanitizes to
/// `tasks` maps to the branch's `tasks` group.
pub proof fn lemma_legacy_group_shape(
    wing: Seq<char>,
    other_wing: Seq<char>,
    room: Seq<char>,
    branch: HierarchyBranch,
)
    ensures
        crate::path::valid_group(legacy_group(wing, room, branch)),
        crate::text::trim(legacy_group(wing, room, branch), crate::text::CharClass::Whitespace)
            == legacy_group(wing, room, branch),
        starts_with(legacy_group(wing, room, branch), "mkd."@ + branch_name(branch) + "."@),
        branch == HierarchyBranch::System ==> legacy_group(wing, room, branch) == legacy_group(
            other_wing,
            room,
            branch,
        ),
        sanitize(room) == "tasks"@ ==> ends_with(legacy_group(wing, room, branch), ".tasks"@),
{
    let g = legacy_group(wing, room, branch);
    let bn = branch_name(branch);
    lemma_room_tails_no_ws(room);
    crate::path::lemma_branch_no_ws(branch);
    assert(!crate::path::has_ws(seq!['.'])) by {
        assert(crate::path::token_chars(seq!['.']));
        lemma_tokens_no_ws(seq!['.']);
    }
    let rest: Seq<char> = if branch == HierarchyBranch::System {
        lemma_system_path(wing, room);
        lemma_system_path(other_wing, room);
        system_room(room)
    } else {
        lemma_branch_path(wing, room, branch);
        let seg = wing_segment(wing, branch);
        crate::path::lemma_sanitize_is_token(wing);
        assert(crate::path::token_chars(seg)) by {
            reveal_strlit("monkeyking");
            assert(crate::path::token_chars("monkeyking"@));
        }
        lemma_tokens_no_ws(seg);
        crate::path::lemma_has_ws_concat(seg, seq!['.']);
        crate::path::lemma_has_ws_concat(seg + seq!['.'], group_tail(room));
        seg + seq!['.'] + group_tail(room)
    };
    reveal_strlit("mkd.");
    reveal_strlit(".");
    assert(branch == HierarchyBranch::System ==> bn == "system"@);
    assert(g =~= "mkd."@ + bn + seq!['.'] + rest);
    assert(!crate::path::has_ws("mkd."@));
    crate::path::lemma_has_ws_concat("mkd."@, bn);
    crate::path::lemma_has_ws_concat("mkd."@ + bn, seq!['.']);
    crate::path::lemma_has_ws_concat("mkd."@ + bn + seq!['.'], rest);
    assert("mkd."@ + bn + "."@ =~= "mkd."@ + bn + seq!['.']);
    crate::path::lemma_prefix_starts("mkd."@ + bn + seq!['.'], rest);
    crate::path::lemma_prefix_starts("mkd."@, bn + seq!['.'] + rest);
    assert("mkd."@ + (bn + seq!['.'] + rest) =~= g);
    crate::path::lemma_has_ws_trim(g);
    if sanitize(room) == "tasks"@ {
        reveal_strlit("tasks");
        reveal_strlit(".tasks");
        reveal_strlit("general");
        reveal_strlit("overview");
        assert(room_segment(room) == "tasks"@);
        assert(g.subrange(g.len() - 6, g.len() as int) =~= ".tasks"@);
    }
}
} // verus!
