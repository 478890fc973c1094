use fsm_rs::model::StateDef;
use fsm_rs::tokens::Ident;
use fsm_rs::tree::{find_mut, Tree};

fn state(name: &str, initial: bool, children: Vec<StateDef>) -> StateDef {
    StateDef { name: Ident::new(name, 0), initial, entry: None, exit: None, children }
}

// Idle, Active { *Charging, Discharging { *Slow, Fast } }, Done
fn fixture() -> Vec<StateDef> {
    vec![
        state("Idle", true, vec![]),
        state(
            "Active",
            false,
            vec![
                state("Charging", true, vec![]),
                state("Discharging", false, vec![state("Slow", true, vec![]), state("Fast", false, vec![])]),
            ],
        ),
        state("Done", false, vec![]),
    ]
}

fn name(tree: &Tree, i: usize) -> String {
    tree.all[i].name.text.clone()
}

fn names(tree: &Tree, path: Vec<usize>) -> Vec<String> {
    path.into_iter().map(|i| name(tree, i)).collect()
}

#[test]
fn leaves_and_depth() {
    let states = fixture();
    let tree = Tree::new(&states);
    let leaves: Vec<String> = tree.leaves.iter().map(|&i| name(&tree, i)).collect();
    assert_eq!(leaves, ["Idle", "Charging", "Slow", "Fast", "Done"]);
    assert_eq!(tree.depth("Idle"), 0);
    assert_eq!(tree.depth("Charging"), 1);
    assert_eq!(tree.depth("Slow"), 2);
}

#[test]
fn resolve_initial_drills_down() {
    let states = fixture();
    let tree = Tree::new(&states);
    assert_eq!(name(&tree, tree.resolve_initial("Active")), "Charging");
    assert_eq!(name(&tree, tree.resolve_initial("Discharging")), "Slow");
    assert_eq!(name(&tree, tree.resolve_initial("Done")), "Done");
    assert_eq!(name(&tree, tree.initial_leaf()), "Idle");
}

#[test]
fn lca_cases() {
    let states = fixture();
    let tree = Tree::new(&states);
    // siblings in one composite
    assert_eq!(tree.lca("Slow", "Fast").as_deref(), Some("Discharging"));
    // cross-boundary
    assert_eq!(tree.lca("Charging", "Done"), None);
    // nested vs. other branch of same composite
    assert_eq!(tree.lca("Charging", "Slow").as_deref(), Some("Active"));
    // self -> parent
    assert_eq!(tree.lca("Slow", "Slow").as_deref(), Some("Discharging"));
    // top-level self -> root
    assert_eq!(tree.lca("Idle", "Idle"), None);
}

#[test]
fn exit_entry_paths() {
    let states = fixture();
    let tree = Tree::new(&states);

    // sibling move inside Discharging: only the two leaves
    assert_eq!(names(&tree, tree.exit_path("Slow", "Fast")), ["Slow"]);
    assert_eq!(names(&tree, tree.entry_path("Slow", "Fast")), ["Fast"]);

    // cross-boundary: Slow -> Done
    assert_eq!(names(&tree, tree.exit_path("Slow", "Done")), ["Slow", "Discharging", "Active"]);
    assert_eq!(names(&tree, tree.entry_path("Slow", "Done")), ["Done"]);

    // entering a composite from outside: Idle -> Slow (target resolved)
    assert_eq!(names(&tree, tree.exit_path("Idle", "Slow")), ["Idle"]);
    assert_eq!(names(&tree, tree.entry_path("Idle", "Slow")), ["Active", "Discharging", "Slow"]);

    // self transition: exit and re-enter the leaf only
    assert_eq!(names(&tree, tree.exit_path("Slow", "Slow")), ["Slow"]);
    assert_eq!(names(&tree, tree.entry_path("Slow", "Slow")), ["Slow"]);
}

#[test]
fn find_mut_recurses() {
    let states = fixture();
    let mut tree = Tree::new(&states);
    assert!(!tree.all[5].initial); // Fast
    let found = find_mut(&mut tree.all, "Fast").expect("found");
    found.initial = true;
    assert!(tree.all[5].initial);
}

#[test]
fn tree_flattens_in_pre_order_with_parents() {
    let states = fixture();
    let tree = Tree::new(&states);
    let all: Vec<String> = (0..tree.all.len()).map(|i| name(&tree, i)).collect();
    assert_eq!(all, ["Idle", "Active", "Charging", "Discharging", "Slow", "Fast", "Done"]);
    let parents: Vec<Option<usize>> = tree.all.iter().map(|n| n.parent).collect();
    assert_eq!(parents, [None, None, Some(1), Some(1), Some(3), Some(3), None]);
    assert_eq!(tree.parent_of("Slow"), Some("Discharging"));
    assert_eq!(tree.parent_of("Idle"), None);
    assert_eq!(tree.parent_of("Nowhere"), None);
}

#[test]
fn ancestors_and_leaves_under() {
    let states = fixture();
    let tree = Tree::new(&states);
    assert!(tree.is_ancestor("Active", "Fast"));
    assert!(!tree.is_ancestor("Fast", "Fast"));
    assert!(!tree.is_ancestor("Discharging", "Charging"));
    assert!(!tree.is_ancestor("Active", "Nowhere"));
    assert_eq!(names(&tree, tree.leaves_under("Active")), ["Charging", "Slow", "Fast"]);
    assert_eq!(names(&tree, tree.leaves_under("Done")), ["Done"]);
    assert!(tree.leaves_under("Nowhere").is_empty());
    assert_eq!(tree.depth("Nowhere"), 0);
    assert_eq!(tree.get("Nowhere"), None);
    assert_eq!(tree.get("Discharging"), Some(3));
}

#[test]
fn paths_meet_at_the_common_ancestor() {
    // Exits stop below the LCA and entries start below it, for every pair.
    let states = fixture();
    let tree = Tree::new(&states);
    let leaves = ["Idle", "Charging", "Slow", "Fast", "Done"];
    for a in leaves {
        for b in leaves {
            let lca = tree.lca(a, b);
            for i in tree.exit_path(a, b).into_iter().chain(tree.entry_path(a, b)) {
                assert_ne!(Some(name(&tree, i)), lca);
            }
        }
    }
}

#[test]
fn repeated_names_are_looked_up_by_their_last_declaration() {
    // P { *X }, Q { *X }: the name `X` stands for the last `X`, inside Q.
    let states = vec![state("P", true, vec![state("X", true, vec![])]), state("Q", false, vec![state("X", true, vec![])])];
    let tree = Tree::new(&states);
    assert!(tree.leaves_under("P").is_empty());
    assert_eq!(tree.leaves_under("Q"), [1, 3]);
    assert!(!tree.is_ancestor("P", "X"));
    assert!(tree.is_ancestor("Q", "X"));
    assert_eq!(tree.depth("X"), 1);
}

#[test]
fn ancestor_lookups_by_name_stop_on_cycles() {
    // A { B { A } }: the parent of `A` is `B` and that of `B` is `A`.
    let states = vec![state("A", true, vec![state("B", true, vec![state("A", true, vec![])])])];
    let tree = Tree::new(&states);
    assert!(tree.is_ancestor("B", "A"));
    assert!(!tree.is_ancestor("Z", "A"));
    assert_eq!(tree.depth("A"), 3);
}

#[test]
fn paths_follow_names_when_names_repeat() {
    // P { *X }, Q { *X }: `X` is looked up as the last `X`, inside Q.
    let states = vec![state("P", true, vec![state("X", true, vec![])]), state("Q", false, vec![state("X", true, vec![])])];
    let tree = Tree::new(&states);
    assert_eq!(tree.lca("X", "X").as_deref(), Some("Q"));
    assert_eq!(tree.lca("X", "P"), None);
    assert_eq!(tree.exit_path("X", "P"), [3, 2]);
    assert_eq!(tree.entry_path("P", "X"), [2, 3]);
}

#[test]
fn the_initial_state_is_looked_up_by_name() {
    // [*A, B { *A }]: the name `A` stands for the last `A`, inside B.
    let states = vec![state("A", true, vec![]), state("B", false, vec![state("A", true, vec![])])];
    let tree = Tree::new(&states);
    assert_eq!(tree.initial_leaf(), 2);
}
