use doctree::{DeleteStrategy, Node, NodeApi, NodeId, Tree, TreeError, Value};

fn ids(nodes: &[Node]) -> Vec<String> {
    nodes.iter().map(|n| n.id().render()).collect()
}

#[test]
fn root_has_no_parent() {
    let tree = Tree::new();
    let root = tree.as_node();
    assert!(root.parent(&tree).is_none());
    assert_eq!(root.depth(&tree), 0);
    assert!(root.children(&tree).is_empty());
}

#[test]
fn create_child_appends_at_end() {
    let mut tree = Tree::new();
    let root = tree.as_node();
    let a = root
        .create_child_with_id(&mut tree, NodeId::from_str_id("A"))
        .unwrap();
    let _b = root
        .create_child_with_id(&mut tree, NodeId::from_str_id("B"))
        .unwrap();
    assert_eq!(ids(&root.children(&tree)), vec!["A", "B"]);
    let pa = a.parent(&tree).unwrap();
    assert!(pa.id().same(&NodeId::Root));
    assert_eq!(a.depth(&tree), 1);
}

#[test]
fn create_child_at_index() {
    let mut tree = Tree::new();
    let root = tree.as_node();
    root.create_child_with_id(&mut tree, NodeId::from_str_id("A"))
        .unwrap();
    root.create_child_with_id(&mut tree, NodeId::from_str_id("B"))
        .unwrap();
    root.create_child_with_id_at(&mut tree, NodeId::from_str_id("M"), 1)
        .unwrap();
    assert_eq!(ids(&root.children(&tree)), vec!["A", "M", "B"]);
}

#[test]
fn create_child_index_out_of_range() {
    let mut tree = Tree::new();
    let root = tree.as_node();
    let r = root.create_child_with_id_at(&mut tree, NodeId::from_str_id("A"), 1);
    assert_eq!(r.unwrap_err(), TreeError::IndexOutOfRange);
}

#[test]
fn reserved_literal_is_rejected() {
    let mut tree = Tree::new();
    let root = tree.as_node();
    let r = root.create_child_with_id(&mut tree, NodeId::from_str_id("<ROOT>"));
    assert_eq!(r.unwrap_err(), TreeError::InvalidId);
    let r2 = root.create_child_with_id(&mut tree, NodeId::Id("<ROOT>".to_string()));
    assert_eq!(r2.unwrap_err(), TreeError::InvalidId);
}

#[test]
fn duplicate_identity_is_rejected() {
    let mut tree = Tree::new();
    let root = tree.as_node();
    let a = root
        .create_child_with_id(&mut tree, NodeId::from_str_id("A"))
        .unwrap();
    let r = a.create_child_with_id(&mut tree, NodeId::from_str_id("A"));
    assert_eq!(r.unwrap_err(), TreeError::DuplicateId);
}

#[test]
fn unknown_parent_is_rejected() {
    let mut tree = Tree::new();
    let ghost = Node::new(NodeId::from_str_id("nowhere"));
    let r = ghost.create_child_with_id(&mut tree, NodeId::from_str_id("A"));
    assert_eq!(r.unwrap_err(), TreeError::NotFound);
}

#[test]
fn generated_ids_are_fresh() {
    let mut tree = Tree::new();
    let root = tree.as_node();
    let a = root.create_child(&mut tree).unwrap();
    let b = root.create_child(&mut tree).unwrap();
    assert!(!a.id().same(b.id()));
    assert!(!a.id().is_root());
    assert_eq!(root.children(&tree).len(), 2);
}

#[test]
fn node_id_round_trip() {
    let a = NodeId::from_str_id("some-node");
    let back = NodeId::from_string_id(a.render());
    assert!(a.same(&back));
    let root = NodeId::from_str_id("<ROOT>");
    assert!(root.is_root());
    assert_eq!(root.render(), "<ROOT>");
}

#[test]
fn depth_is_one_more_than_parent() {
    let mut tree = Tree::new();
    let root = tree.as_node();
    let a = root
        .create_child_with_id(&mut tree, NodeId::from_str_id("A"))
        .unwrap();
    let c = a
        .create_child_with_id(&mut tree, NodeId::from_str_id("C"))
        .unwrap();
    assert_eq!(root.depth(&tree), 0);
    assert_eq!(a.depth(&tree), 1);
    assert_eq!(c.depth(&tree), 2);
    assert_eq!(c.depth(&tree), a.depth(&tree) + 1);
}

#[test]
fn siblings_are_parents_children() {
    let mut tree = Tree::new();
    let root = tree.as_node();
    let a = root
        .create_child_with_id(&mut tree, NodeId::from_str_id("A"))
        .unwrap();
    root.create_child_with_id(&mut tree, NodeId::from_str_id("B"))
        .unwrap();
    assert_eq!(ids(&a.siblings(&tree)), vec!["A", "B"]);
    assert!(root.siblings(&tree).is_empty());
}

#[test]
fn payload_set_and_get() {
    let mut tree = Tree::new();
    let root = tree.as_node();
    let a = root
        .create_child_with_id(&mut tree, NodeId::from_str_id("A"))
        .unwrap();
    a.set(&mut tree, "folder", Value::Text("New Folder".to_string()))
        .unwrap();
    match a.get(&tree, "folder") {
        Some(Value::Text(s)) => assert_eq!(s, "New Folder"),
        other => panic!("unexpected payload: {:?}", other),
    }
    assert!(a.get(&tree, "missing").is_none());
    assert!(matches!(
        tree.get_data_or_null(&NodeId::from_str_id("A"), "missing"),
        Value::Null
    ));
    a.set(&mut tree, "folder", Value::Int(7)).unwrap();
    assert!(matches!(a.get(&tree, "folder"), Some(Value::Int(7))));
}

#[test]
fn payload_on_missing_node_fails() {
    let mut tree = Tree::new();
    let ghost = Node::new(NodeId::from_str_id("gone"));
    let r = ghost.set(&mut tree, "k", Value::Bool(true));
    assert_eq!(r.unwrap_err(), TreeError::NotFound);
}

#[test]
fn delete_strategies_exist() {
    // the two deletion strategies are distinct values
    assert_ne!(DeleteStrategy::Promote, DeleteStrategy::Cascade);
}

fn example_tree() -> (Tree, Node, Node, Node, Node, Node, Node) {
    // Root -> {A, B}, A -> {C, D, E}
    let mut tree = Tree::new();
    let root = tree.as_node();
    let a = root
        .create_child_with_id(&mut tree, NodeId::from_str_id("A"))
        .unwrap();
    let b = root
        .create_child_with_id(&mut tree, NodeId::from_str_id("B"))
        .unwrap();
    let c = a
        .create_child_with_id(&mut tree, NodeId::from_str_id("C"))
        .unwrap();
    let d = a
        .create_child_with_id(&mut tree, NodeId::from_str_id("D"))
        .unwrap();
    let e = a
        .create_child_with_id(&mut tree, NodeId::from_str_id("E"))
        .unwrap();
    (tree, root, a, b, c, d, e)
}

#[test]
fn move_to_at_index() {
    let (mut tree, root, a, b, _c, _d, _e) = example_tree();
    b.move_to(&mut tree, &a, Some(1)).unwrap();
    assert_eq!(ids(&a.children(&tree)), vec!["C", "B", "D", "E"]);
    assert!(b.parent(&tree).unwrap().id().same(a.id()));
    assert_eq!(ids(&root.children(&tree)), vec!["A"]);
}

#[test]
fn move_before_target() {
    let (mut tree, _root, a, b, _c, _d, e) = example_tree();
    b.move_before(&mut tree, &e).unwrap();
    assert_eq!(ids(&a.children(&tree)), vec!["C", "D", "B", "E"]);
    assert!(b.parent(&tree).unwrap().id().same(a.id()));
}

#[test]
fn move_after_target() {
    let (mut tree, _root, a, b, _c, d, _e) = example_tree();
    b.move_after(&mut tree, &d).unwrap();
    assert_eq!(ids(&a.children(&tree)), vec!["C", "D", "B", "E"]);
}

#[test]
fn move_before_then_after_restores_adjacent_order() {
    // with b immediately after e, the before/after pair round-trips
    let (mut tree, _root, a, b, _c, _d, e) = example_tree();
    b.move_after(&mut tree, &e).unwrap();
    let before = ids(&a.children(&tree));
    b.move_before(&mut tree, &e).unwrap();
    assert_eq!(ids(&a.children(&tree)), vec!["C", "D", "B", "E"]);
    b.move_after(&mut tree, &e).unwrap();
    assert_eq!(ids(&a.children(&tree)), before);
}

#[test]
fn move_relative_to_itself_is_a_cycle() {
    let (mut tree, _root, _a, b, _c, _d, _e) = example_tree();
    assert_eq!(b.move_before(&mut tree, &b).unwrap_err(), TreeError::Cycle);
    assert_eq!(b.move_after(&mut tree, &b).unwrap_err(), TreeError::Cycle);
}

#[test]
fn move_under_own_descendant_is_a_cycle() {
    let (mut tree, _root, a, _b, c, _d, _e) = example_tree();
    let r = a.move_to(&mut tree, &c, None);
    assert_eq!(r.unwrap_err(), TreeError::Cycle);
    let r2 = a.move_to(&mut tree, &a, None);
    assert_eq!(r2.unwrap_err(), TreeError::Cycle);
}

#[test]
fn move_relative_to_root_is_invalid_target() {
    let (mut tree, root, _a, b, _c, _d, _e) = example_tree();
    let rn = root.as_node();
    assert_eq!(
        b.move_before(&mut tree, &rn).unwrap_err(),
        TreeError::InvalidTarget
    );
}

#[test]
fn move_to_keeps_subtree() {
    let (mut tree, root, a, b, c, _d, _e) = example_tree();
    a.move_to(&mut tree, &b, None).unwrap();
    assert_eq!(ids(&root.children(&tree)), vec!["B"]);
    assert_eq!(ids(&b.children(&tree)), vec!["A"]);
    assert_eq!(ids(&a.children(&tree)), vec!["C", "D", "E"]);
    assert_eq!(c.depth(&tree), 3);
    assert_eq!(a.depth(&tree), 2);
}

#[test]
fn move_absent_node_creates_leaf() {
    // update_node is the create-or-move primitive: an unknown identity is
    // inserted as a fresh leaf
    let (mut tree, root, a, _b, _c, _d, _e) = example_tree();
    tree.update_node(&NodeId::from_str_id("N"), &NodeId::from_str_id("A"), Some(0))
        .unwrap();
    assert_eq!(ids(&a.children(&tree)), vec!["N", "C", "D", "E"]);
    assert_eq!(ids(&root.children(&tree)), vec!["A", "B"]);
}

#[test]
fn delete_promote_splices_children() {
    // deleting A with Promote on the original tree yields
    // Root -> {B, C, D, E}, with C, D, E appended after B in order
    let (mut tree, root, a, _b, c, _d, _e) = example_tree();
    a.delete_promote(&mut tree).unwrap();
    assert_eq!(ids(&root.children(&tree)), vec!["B", "C", "D", "E"]);
    assert!(a.parent(&tree).is_none());
    assert!(a.children(&tree).is_empty());
    assert!(c.parent(&tree).unwrap().id().same(&NodeId::Root));
    assert_eq!(c.depth(&tree), 1);
}

#[test]
fn delete_promote_of_leaf() {
    let (mut tree, _root, a, _b, _c, d, _e) = example_tree();
    d.delete_promote(&mut tree).unwrap();
    assert_eq!(ids(&a.children(&tree)), vec!["C", "E"]);
}

#[test]
fn delete_promote_errors() {
    let (mut tree, root, _a, _b, _c, _d, _e) = example_tree();
    let rn = root.as_node();
    assert_eq!(
        rn.delete_promote(&mut tree).unwrap_err(),
        TreeError::InvalidId
    );
    let ghost = Node::new(NodeId::from_str_id("gone"));
    assert_eq!(
        ghost.delete_promote(&mut tree).unwrap_err(),
        TreeError::NotFound
    );
}
