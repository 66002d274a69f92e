use lucky_draw::menu::Anomaly;
use lucky_draw::menu::MenuNode;
use lucky_draw::menu::MenuTree;
use lucky_draw::menu::MenuType;

fn record(id: u32, parent_id: u32, name: &str) -> MenuNode {
    MenuNode::new(id, parent_id, MenuType::Item, name.to_string(), 0)
}

fn record_with_target(id: u32, parent_id: u32, name: &str, target_id: u32) -> MenuNode {
    MenuNode::new(id, parent_id, MenuType::Item, name.to_string(), target_id)
}

#[test]
fn end_to_end_scenario() {
    let mut tree = MenuTree::new();
    let records = vec![
        record(2, 1, "Child"),
        record(1, 0, "Parent"),
        record(3, 1, "Child2"),
    ];
    let report = tree.build(records);
    assert_eq!(report, vec![]);
    assert_eq!(tree.children_of(0), vec![1]);
    assert_eq!(tree.children_of(1), vec![2, 3]);
    assert_eq!(tree.children_of(2), vec![] as Vec<u32>);
    assert_eq!(tree.node(1).unwrap().name, "Parent");
    assert_eq!(tree.node(2).unwrap().name, "Child");
    assert!(tree.is_leaf(2));
    assert!(!tree.is_leaf(1));
}

#[test]
fn determinism_under_permutation() {
    let records = vec![
        record(5, 0, "e"),
        record(3, 5, "c"),
        record(9, 5, "i"),
        record(1, 0, "a"),
        record(7, 1, "g"),
    ];
    let mut forward = MenuTree::new();
    forward.build(records.clone());

    let mut reversed_input = records.clone();
    reversed_input.reverse();
    let mut backward = MenuTree::new();
    backward.build(reversed_input);

    for id in 0..12u32 {
        assert_eq!(forward.children_of(id), backward.children_of(id));
        match (forward.node(id), backward.node(id)) {
            (None, None) => {}
            (Some(a), Some(b)) => assert_eq!(a, b),
            _ => panic!("trees disagree on id {id}"),
        }
    }
    assert_eq!(forward.children_of(0), vec![1, 5]);
    assert_eq!(forward.children_of(5), vec![3, 9]);
    assert_eq!(forward.children_of(1), vec![7]);
}

#[test]
fn sibling_order_is_ascending_by_id() {
    let mut tree = MenuTree::new();
    let report = tree.build(vec![
        record(40, 0, "d"),
        record(10, 0, "a"),
        record(30, 0, "c"),
        record(20, 0, "b"),
    ]);
    assert!(report.is_empty());
    assert_eq!(tree.children_of(0), vec![10, 20, 30, 40]);
}

#[test]
fn orphan_is_reported_and_invisible() {
    let mut tree = MenuTree::new();
    let report = tree.build(vec![
        record(1, 0, "ok"),
        record(2, 99, "lost"),
        record(3, 1, "ok child"),
    ]);
    assert_eq!(report, vec![Anomaly::Orphan(2)]);
    // The orphan is stored but hangs in no child list.
    assert!(tree.node(2).is_some());
    for id in 0..100u32 {
        assert!(!tree.children_of(id).contains(&2));
    }
    // Other records are still attached.
    assert_eq!(tree.children_of(0), vec![1]);
    assert_eq!(tree.children_of(1), vec![3]);
}

#[test]
fn duplicate_id_last_write_wins_on_data() {
    let mut tree = MenuTree::new();
    let report = tree.build(vec![record(5, 0, "A"), record(5, 0, "B")]);
    assert_eq!(report, vec![Anomaly::Duplicate(5)]);
    assert_eq!(tree.node(5).unwrap().name, "B");
    assert_eq!(tree.children_of(0), vec![5]);
}

#[test]
fn duplicate_id_keeps_first_tree_position() {
    let mut tree = MenuTree::new();
    let report = tree.build(vec![
        record(5, 0, "A"),
        record(1, 0, "other"),
        record(5, 1, "B"),
    ]);
    assert_eq!(report, vec![Anomaly::Duplicate(5)]);
    // Data comes from the later record, the position from the first.
    assert_eq!(tree.node(5).unwrap().name, "B");
    assert_eq!(tree.children_of(0), vec![1, 5]);
    assert_eq!(tree.children_of(1), vec![] as Vec<u32>);
}

#[test]
fn record_with_root_id_is_rejected() {
    let mut tree = MenuTree::new();
    let report = tree.build(vec![record(0, 0, "impostor"), record(1, 0, "real")]);
    assert_eq!(report, vec![Anomaly::Duplicate(0)]);
    assert!(tree.node(0).is_none());
    assert_eq!(tree.children_of(0), vec![1]);
}

#[test]
fn cycle_is_reported() {
    let mut tree = MenuTree::new();
    let report = tree.build(vec![record(1, 2, "a"), record(2, 1, "b"), record(3, 0, "ok")]);
    assert!(report.contains(&Anomaly::Cycle(1)));
    assert!(report.contains(&Anomaly::Cycle(2)));
    assert!(!report.contains(&Anomaly::Cycle(3)));
    // The cycle members hang under each other, invisible from the root.
    assert_eq!(tree.children_of(0), vec![3]);
    assert_eq!(tree.children_of(1), vec![2]);
    assert_eq!(tree.children_of(2), vec![1]);
}

#[test]
fn self_parent_is_a_cycle() {
    let mut tree = MenuTree::new();
    let report = tree.build(vec![record(5, 5, "me")]);
    assert_eq!(report, vec![Anomaly::Cycle(5)]);
    assert_eq!(tree.children_of(0), vec![] as Vec<u32>);
    assert_eq!(tree.children_of(5), vec![5]);
}

#[test]
fn empty_build_leaves_only_the_root() {
    let mut tree = MenuTree::new();
    let report = tree.build(vec![]);
    assert!(report.is_empty());
    assert_eq!(tree.children_of(0), vec![] as Vec<u32>);
    assert!(tree.node(0).is_none());
    assert!(tree.is_leaf(0));
}

#[test]
fn rebuild_replaces_prior_contents() {
    let mut tree = MenuTree::new();
    tree.build(vec![record(1, 0, "old"), record(2, 1, "old child")]);
    tree.activate(1);
    let report = tree.build(vec![record(7, 0, "new")]);
    assert!(report.is_empty());
    assert!(tree.node(1).is_none());
    assert!(tree.node(2).is_none());
    assert_eq!(tree.children_of(0), vec![7]);
    // A rebuild also clears the selection.
    assert!(!tree.node(7).unwrap().active);
}

#[test]
fn activate_keeps_a_single_active_node() {
    let mut tree = MenuTree::new();
    tree.build(vec![record(1, 0, "a"), record(2, 0, "b"), record(3, 0, "c")]);
    tree.activate(1);
    tree.activate(3);
    tree.activate(2);
    let mut active = Vec::new();
    for id in [1u32, 2, 3] {
        if tree.node(id).unwrap().active {
            active.push(id);
        }
    }
    assert_eq!(active, vec![2]);
}

#[test]
fn activate_x_then_y_moves_the_flag() {
    let mut tree = MenuTree::new();
    tree.build(vec![record(1, 0, "x"), record(2, 0, "y")]);
    tree.activate(1);
    assert!(tree.node(1).unwrap().active);
    tree.activate(2);
    assert!(!tree.node(1).unwrap().active);
    assert!(tree.node(2).unwrap().active);
}

#[test]
fn activate_twice_is_a_reconfirmation() {
    let mut tree = MenuTree::new();
    tree.build(vec![record_with_target(1, 0, "x", 42)]);
    assert_eq!(tree.activate(1), 42);
    assert_eq!(tree.activate(1), 42);
    assert!(tree.node(1).unwrap().active);
}

#[test]
fn activate_returns_the_target() {
    let mut tree = MenuTree::new();
    let records = vec![
        record_with_target(1, 0, "page", 1001),
        MenuNode::new(2, 0, MenuType::Label, "heading".to_string(), 0),
    ];
    tree.build(records);
    assert_eq!(tree.activate(1), 1001);
    assert_eq!(tree.activate(2), 0);
}

#[test]
fn activate_on_absent_id_is_a_silent_no_op() {
    let mut tree = MenuTree::new();
    tree.build(vec![record(1, 0, "only")]);
    tree.activate(1);
    assert_eq!(tree.activate(77), 0);
    assert!(tree.node(1).unwrap().active);
}

#[test]
fn toggle_twice_restores_expanded() {
    let mut tree = MenuTree::new();
    tree.build(vec![record(1, 0, "a"), record(2, 1, "b")]);
    let before = tree.node(1).unwrap().expanded;
    tree.toggle_expanded(1);
    assert_eq!(tree.node(1).unwrap().expanded, !before);
    tree.toggle_expanded(1);
    assert_eq!(tree.node(1).unwrap().expanded, before);
}

#[test]
fn toggle_does_not_cascade() {
    let mut tree = MenuTree::new();
    tree.build(vec![record(1, 0, "a"), record(2, 1, "b")]);
    tree.toggle_expanded(1);
    assert!(!tree.node(1).unwrap().expanded);
    assert!(tree.node(2).unwrap().expanded);
}

#[test]
fn toggle_on_absent_id_is_a_silent_no_op() {
    let mut tree = MenuTree::new();
    tree.build(vec![record(1, 0, "a")]);
    tree.toggle_expanded(42);
    assert!(tree.node(1).unwrap().expanded);
}

#[test]
fn fresh_records_are_expanded_and_inactive() {
    let n = MenuNode::new(4, 2, MenuType::Fold, "menu".to_string(), 9);
    assert!(n.expanded);
    assert!(!n.active);
    assert_eq!(n.id, 4);
    assert_eq!(n.parent_id, 2);
    assert_eq!(n.kind, MenuType::Fold);
    assert_eq!(n.name, "menu");
    assert_eq!(n.target_id, 9);
    assert!(lucky_draw::menu::expanded());
}

#[test]
fn default_menu_type_is_label() {
    assert_eq!(MenuType::default(), MenuType::Label);
}

#[test]
fn default_tree_is_empty() {
    let tree = MenuTree::default();
    assert_eq!(tree.children_of(0), vec![] as Vec<u32>);
}
