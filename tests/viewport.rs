use tui_realm_treeview::{
    row_indent, row_marker, rows_to_skip, visible_nodes, visible_window, Node, RowMarker, Tree, TreeState,
};

fn leaf(id: &str) -> Node<String> {
    Node::new(id.to_string(), id.to_string())
}

fn branch(id: &str, children: &[&str]) -> Node<String> {
    let mut n = leaf(id);
    for c in children {
        n = n.with_child(leaf(c));
    }
    n
}

fn mock_tree() -> Tree<String> {
    Tree::new(
        leaf("/")
            .with_child(
                leaf("a")
                    .with_child(branch("aA", &["aA0", "aA1", "aA2"]))
                    .with_child(branch("aB", &["aB0", "aB1", "aB2"]))
                    .with_child(branch("aC", &["aC0"])),
            )
            .with_child(
                leaf("b")
                    .with_child(
                        leaf("bA")
                            .with_child(branch("bA0", &["bA0!"]))
                            .with_child(leaf("bA1"))
                            .with_child(leaf("bA2")),
                    )
                    .with_child(branch("bB", &["bB0", "bB1", "bB2", "bB3", "bB4", "bB5"])),
            )
            .with_child(leaf("c").with_child(branch("cA", &["cA0", "cA1", "cA2"]))),
    )
}

fn q<'a>(tree: &'a Tree<String>, id: &str) -> &'a Node<String> {
    tree.root().query(&String::from(id)).unwrap()
}

#[test]
fn should_have_no_row_to_skip_when_in_first_height_elements() {
    let tree = mock_tree();
    let mut state = TreeState::default();
    state.select(tree.root(), q(&tree, "aA2"));
    assert_eq!(rows_to_skip(tree.root(), &state, 8), 2);
    assert_eq!(rows_to_skip(tree.root(), &state, 6), 3);
}

#[test]
fn should_have_rows_to_skip_when_out_of_viewport() {
    let tree = mock_tree();
    let mut state = TreeState::default();
    state.force_open(&["/", "a", "aA", "aB", "aC", "b", "bA", "bB"]);
    state.select(tree.root(), q(&tree, "bB2"));
    assert_eq!(rows_to_skip(tree.root(), &state, 8), 17);
}

#[test]
fn no_rows_skipped_when_everything_fits() {
    let tree = mock_tree();
    let mut state = TreeState::default();
    state.select(tree.root(), q(&tree, "cA2"));
    // 8 visible rows: /, a, b, c, cA, cA0, cA1, cA2
    assert_eq!(visible_nodes(tree.root(), &state).len(), 8);
    assert_eq!(rows_to_skip(tree.root(), &state, 8), 0);
    assert_eq!(rows_to_skip(tree.root(), &state, 30), 0);
    assert_eq!(rows_to_skip(tree.root(), &state, 4), 4);
}

#[test]
fn no_rows_skipped_without_selection() {
    let tree = mock_tree();
    let mut state = TreeState::default();
    state.force_open(&["/", "a", "aA", "aB", "aC", "b", "bA", "bB", "c", "cA"]);
    assert_eq!(rows_to_skip(tree.root(), &state, 2), 0);
}

#[test]
fn visible_nodes_follow_drawing_order() {
    let tree = mock_tree();
    let mut state = TreeState::default();
    state.select(tree.root(), q(&tree, "bA0"));
    let rows = visible_nodes(tree.root(), &state);
    let ids: Vec<(&str, usize)> = rows.iter().map(|r| (r.node.id().as_str(), r.depth)).collect();
    assert_eq!(
        ids,
        vec![("/", 1), ("a", 2), ("b", 2), ("bA", 3), ("bA0", 4), ("bA1", 4), ("bA2", 4), ("bB", 3), ("c", 2)]
    );
}

#[test]
fn window_of_drawn_rows() {
    assert_eq!(visible_window(10, 2, 5), (2, 7));
    assert_eq!(visible_window(10, 8, 5), (8, 10));
    assert_eq!(visible_window(10, 12, 5), (10, 10));
    assert_eq!(visible_window(0, 0, 5), (0, 0));
}

#[test]
fn indentation_of_rows() {
    assert_eq!(row_indent(2, 4, None), 8);
    assert_eq!(row_indent(2, 4, Some(">")), 6);
    assert_eq!(row_indent(2, 4, Some("\u{1F984}")), 5);
    assert_eq!(row_indent(2, 4, Some("")), 7);
    assert_eq!(row_indent(1, 2, Some("=>")), 0);
}

#[test]
fn markers_of_rows() {
    let tree = mock_tree();
    let mut state = TreeState::default();
    state.select(tree.root(), q(&tree, "aA"));
    assert_eq!(row_marker(&state, q(&tree, "a")), RowMarker::Open);
    assert_eq!(row_marker(&state, q(&tree, "aA")), RowMarker::Closed);
    assert_eq!(row_marker(&state, q(&tree, "aA0")), RowMarker::Leaf);
}
