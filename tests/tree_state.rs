use tui_realm_treeview::{Node, Tree, TreeState};

fn leaf(id: &str) -> Node<String> {
    Node::new(id.to_string(), id.to_string())
}

fn branch(id: &str, children: &[&str]) -> Node<String> {
    let mut n = leaf(id);
    for c in children {
        n = n.with_child(leaf(c));
    }
    n
}

fn mock_tree() -> Tree<String> {
    Tree::new(
        leaf("/")
            .with_child(
                leaf("a")
                    .with_child(branch("aA", &["aA0", "aA1", "aA2"]))
                    .with_child(branch("aB", &["aB0", "aB1", "aB2"]))
                    .with_child(branch("aC", &["aC0"])),
            )
            .with_child(
                leaf("b")
                    .with_child(
                        leaf("bA")
                            .with_child(branch("bA0", &["bA0!"]))
                            .with_child(leaf("bA1"))
                            .with_child(leaf("bA2")),
                    )
                    .with_child(branch("bB", &["bB0", "bB1", "bB2", "bB3", "bB4", "bB5"])),
            )
            .with_child(leaf("c").with_child(branch("cA", &["cA0", "cA1", "cA2"]))),
    )
}

fn q<'a>(tree: &'a Tree<String>, id: &str) -> &'a Node<String> {
    tree.root().query(&String::from(id)).unwrap()
}

#[test]
fn should_initialize_tree_state() {
    let state = TreeState::default();
    assert!(state.opened().is_empty());
    assert!(state.selected().is_none());
}

#[test]
fn should_select_nodes() {
    let mut state = TreeState::default();
    let tree = mock_tree();
    state.select(tree.root(), q(&tree, "bA"));
    assert_eq!(state.selected().unwrap(), "bA");
    assert_eq!(state.opened().len(), 2);
    assert!(state.is_open(q(&tree, "b")));
    assert!(state.is_open(tree.root()));
}

#[test]
fn should_open_and_close_nodes() {
    let mut state = TreeState::default();
    let tree = mock_tree();
    let ba = q(&tree, "bA");
    state.select(tree.root(), ba);
    state.open(tree.root());
    assert!(state.is_open(ba));
    assert!(state.is_open(q(&tree, "b")));
    assert!(state.is_open(tree.root()));
    assert_eq!(state.opened().len(), 3);
    let ba0 = q(&tree, "bA0");
    state.select(tree.root(), ba0);
    state.open(tree.root());
    assert!(state.is_open(ba0));
    assert_eq!(state.opened().len(), 4);
    let b = q(&tree, "b");
    state.select(tree.root(), b);
    state.close(tree.root());
    assert!(state.is_closed(b));
    assert!(state.is_closed(ba));
    assert!(state.is_closed(ba0));
    assert!(state.is_open(tree.root()));
}

#[test]
fn should_not_open_twice() {
    let mut state = TreeState::default();
    let tree = mock_tree();
    state.select(tree.root(), tree.root());
    state.open(tree.root());
    assert_eq!(state.opened().len(), 1);
    assert!(state.is_open(tree.root()));
    state.open(tree.root());
    assert_eq!(state.opened().len(), 1);
    assert!(state.is_open(tree.root()));
}

#[test]
fn should_find_previous_sibling() {
    let state = TreeState::default();
    let tree = mock_tree();
    let bb4 = q(&tree, "bB4");
    let bb3 = q(&tree, "bB3");
    assert_eq!(state.previous_sibling(tree.root(), bb4).unwrap(), bb3);
    let bb0 = q(&tree, "bB0");
    assert!(state.previous_sibling(tree.root(), bb0).is_none());
}

#[test]
fn should_find_next_sibling() {
    let state = TreeState::default();
    let tree = mock_tree();
    let bb4 = q(&tree, "bB4");
    let bb5 = q(&tree, "bB5");
    assert_eq!(state.next_sibling(tree.root(), bb4).unwrap(), bb5);
    assert!(state.next_sibling(tree.root(), bb5).is_none());
}

#[test]
fn should_find_first_sibling() {
    let mut state = TreeState::default();
    let tree = mock_tree();
    state.select(tree.root(), q(&tree, "bB4"));
    let bb0 = q(&tree, "bB0");
    assert_eq!(state.first_sibling(tree.root()).unwrap(), bb0);
    state.select(tree.root(), tree.root());
    assert!(state.first_sibling(tree.root()).is_none());
}

#[test]
fn should_find_last_sibling() {
    let mut state = TreeState::default();
    let tree = mock_tree();
    state.select(tree.root(), q(&tree, "bB2"));
    let bb5 = q(&tree, "bB5");
    assert_eq!(state.last_sibling(tree.root()).unwrap(), bb5);
    state.select(tree.root(), tree.root());
    assert!(state.last_sibling(tree.root()).is_none());
}

#[test]
fn should_preserve_tree_state() {
    let mut state = TreeState::default();
    let tree = mock_tree();
    let ca = q(&tree, "cA");
    state.select(tree.root(), ca);
    state.open(tree.root());
    state.select(tree.root(), q(&tree, "bB5"));
    state.tree_changed(tree.root(), true);
    assert_eq!(state.opened().len(), 5);
    assert!(state.is_open(ca));
    assert_eq!(state.selected().unwrap(), "bB5");
}

#[test]
fn should_not_preserve_tree_state() {
    let mut state = TreeState::default();
    let mut tree = mock_tree();
    let ca = q(&tree, "cA");
    state.select(tree.root(), ca);
    state.open(tree.root());
    state.select(tree.root(), q(&tree, "bB5"));
    // The tree without 'c' and without 'bB'
    tree.root_mut().children[1].remove_child(&String::from("bB"));
    tree.root_mut().remove_child(&String::from("c"));
    state.tree_changed(tree.root(), true);
    assert_eq!(state.selected().unwrap(), "/");
    assert_eq!(state.opened().len(), 2);
    assert_eq!(*state.opened(), vec![String::from("/"), String::from("b")]);
    assert!(state.is_open(tree.root()));
}

#[test]
fn should_reinitialize_tree_state() {
    let mut state = TreeState::default();
    let tree = mock_tree();
    state.select(tree.root(), q(&tree, "cA"));
    state.open(tree.root());
    state.select(tree.root(), q(&tree, "bB5"));
    state.tree_changed(tree.root(), false);
    assert!(state.opened().is_empty());
    assert_eq!(state.selected().unwrap(), "/");
}

#[test]
fn should_move_cursor_down_on_sibling() {
    let mut state = TreeState::default();
    let tree = mock_tree();
    state.select(tree.root(), q(&tree, "bB3"));
    state.move_down(tree.root());
    assert_eq!(state.selected().unwrap(), "bB4");
    state.move_down(tree.root());
    assert_eq!(state.selected().unwrap(), "bB5");
}

#[test]
fn should_move_cursor_down_to_next_lower_node_if_last_child() {
    let mut state = TreeState::default();
    let tree = mock_tree();
    state.select(tree.root(), q(&tree, "bB5"));
    state.move_down(tree.root());
    assert_eq!(state.selected().unwrap(), "c");
}

#[test]
fn should_move_cursor_down_to_child_if_parent_is_open() {
    let mut state = TreeState::default();
    let tree = mock_tree();
    state.select(tree.root(), q(&tree, "b"));
    state.open(tree.root());
    state.move_down(tree.root());
    assert_eq!(state.selected().unwrap(), "bA");
    state.open(tree.root());
    state.move_down(tree.root());
    assert_eq!(state.selected().unwrap(), "bA0");
}

#[test]
fn should_move_cursor_down_to_next_sibling_if_node_is_closed() {
    let mut state = TreeState::default();
    let tree = mock_tree();
    state.select(tree.root(), q(&tree, "aA"));
    state.move_down(tree.root());
    assert_eq!(state.selected().unwrap(), "aB");
    state.move_down(tree.root());
    assert_eq!(state.selected().unwrap(), "aC");
}

#[test]
fn should_not_move_cursor_down_if_root_is_closed() {
    let mut state = TreeState::default();
    let tree = mock_tree();
    state.select(tree.root(), tree.root());
    state.move_down(tree.root());
    assert_eq!(state.selected().unwrap(), "/");
}

#[test]
fn should_not_move_cursor_down_if_last_element_is_selected() {
    let mut state = TreeState::default();
    let tree = mock_tree();
    state.select(tree.root(), q(&tree, "cA2"));
    state.move_down(tree.root());
    assert_eq!(state.selected().unwrap(), "cA2");
}

#[test]
fn should_move_cursor_up_on_sibling() {
    let mut state = TreeState::default();
    let tree = mock_tree();
    state.select(tree.root(), q(&tree, "bB4"));
    state.move_up(tree.root());
    assert_eq!(state.selected().unwrap(), "bB3");
    state.move_up(tree.root());
    assert_eq!(state.selected().unwrap(), "bB2");
}

#[test]
fn should_move_cursor_up_on_deepest_child_of_previous_sibling() {
    let mut state = TreeState::default();
    let tree = mock_tree();
    state.select(tree.root(), q(&tree, "bB"));
    state.open(tree.root());
    state.select(tree.root(), q(&tree, "c"));
    state.move_up(tree.root());
    assert_eq!(state.selected().unwrap(), "bB5");
}

#[test]
fn should_move_cursor_up_to_parent_if_first_child() {
    let mut state = TreeState::default();
    let tree = mock_tree();
    state.select(tree.root(), q(&tree, "bB0"));
    state.move_up(tree.root());
    assert_eq!(state.selected().unwrap(), "bB");
    state.move_up(tree.root());
    assert_eq!(state.selected().unwrap(), "bA");
    state.move_up(tree.root());
    assert_eq!(state.selected().unwrap(), "b");
}

#[test]
fn should_not_move_cursor_up_if_root_is_selected() {
    let mut state = TreeState::default();
    let tree = mock_tree();
    state.select(tree.root(), tree.root());
    state.move_up(tree.root());
    assert_eq!(state.selected().unwrap(), "/");
}

#[test]
fn should_get_last_open_heir() {
    let mut state = TreeState::default();
    let tree = mock_tree();
    for id in ["aA", "aB", "aC", "bB"] {
        state.select(tree.root(), q(&tree, id));
        state.open(tree.root());
    }
    assert_eq!(state.get_last_open_heir(q(&tree, "bB")).id().as_str(), "bB5");
    assert_eq!(state.get_last_open_heir(q(&tree, "a")).id().as_str(), "aC0");
}

#[test]
fn move_down_then_up_returns_to_the_row() {
    let tree = mock_tree();
    for id in ["/", "a", "aA", "aA2", "aC0", "bA", "bB5", "c", "cA"] {
        let mut state = TreeState::default();
        for open in ["aA", "aC", "bB", "cA"] {
            state.select(tree.root(), q(&tree, open));
            state.open(tree.root());
        }
        state.select(tree.root(), q(&tree, id));
        state.move_down(tree.root());
        assert_ne!(state.selected().unwrap(), id);
        state.move_up(tree.root());
        assert_eq!(state.selected().unwrap(), id);
    }
}

#[test]
fn close_forgets_nested_open_nodes() {
    let mut state = TreeState::default();
    let tree = mock_tree();
    state.force_open(&["/", "b", "bA", "bA0", "c"]);
    state.select(tree.root(), q(&tree, "b"));
    state.close(tree.root());
    assert_eq!(*state.opened(), vec![String::from("/"), String::from("c")]);
    state.open(tree.root());
    assert!(state.is_open(q(&tree, "b")));
    assert!(state.is_closed(q(&tree, "bA")));
    assert!(state.is_closed(q(&tree, "bA0")));
}

#[test]
fn close_of_a_closed_node_changes_nothing() {
    let mut state = TreeState::default();
    let tree = mock_tree();
    state.select(tree.root(), q(&tree, "aA"));
    state.close(tree.root());
    assert_eq!(*state.opened(), vec![String::from("a"), String::from("/")]);
    assert_eq!(state.selected().unwrap(), "aA");
}

#[test]
fn open_of_a_leaf_opens_its_ancestors_only() {
    let mut state = TreeState::default();
    let tree = mock_tree();
    state.force_open(&[]);
    state.select(tree.root(), q(&tree, "cA1"));
    state.force_open(&[]);
    state.open(tree.root());
    assert_eq!(*state.opened(), vec![String::from("cA"), String::from("c"), String::from("/")]);
}

#[test]
fn operations_without_selection_do_nothing() {
    let tree = mock_tree();
    let mut state = TreeState::default();
    state.open(tree.root());
    state.close(tree.root());
    state.move_down(tree.root());
    state.move_up(tree.root());
    assert!(state.selected().is_none());
    assert!(state.opened().is_empty());
    assert!(state.first_sibling(tree.root()).is_none());
    state.tree_changed(tree.root(), true);
    assert!(state.selected().is_none());
}

#[test]
fn stale_selection_is_left_alone() {
    let tree = mock_tree();
    let mut state = TreeState::default();
    let stray = Node::new(String::from("zz"), String::from("zz"));
    state.select(tree.root(), &stray);
    assert!(state.opened().is_empty());
    state.move_down(tree.root());
    state.move_up(tree.root());
    assert_eq!(state.selected().unwrap(), "zz");
    assert!(state.is_selected(&stray));
    state.tree_changed(tree.root(), true);
    assert_eq!(state.selected().unwrap(), "/");
}
