use tui_realm_treeview::{Node, Tree, TreeCommand, TreeCommandResult, TreeView};

fn leaf(id: &str) -> Node<String> {
    Node::new(id.to_string(), id.to_string())
}

fn branch(id: &str, children: &[&str]) -> Node<String> {
    let mut n = leaf(id);
    for c in children {
        n = n.with_child(leaf(c));
    }
    n
}

fn mock_tree() -> Tree<String> {
    Tree::new(
        leaf("/")
            .with_child(
                leaf("a")
                    .with_child(branch("aA", &["aA0", "aA1", "aA2"]))
                    .with_child(branch("aB", &["aB0", "aB1", "aB2"]))
                    .with_child(branch("aC", &["aC0"])),
            )
            .with_child(
                leaf("b")
                    .with_child(
                        leaf("bA")
                            .with_child(branch("bA0", &["bA0!"]))
                            .with_child(leaf("bA1"))
                            .with_child(leaf("bA2")),
                    )
                    .with_child(branch("bB", &["bB0", "bB1", "bB2", "bB3", "bB4", "bB5"])),
            )
            .with_child(leaf("c").with_child(branch("cA", &["cA0", "cA1", "cA2"]))),
    )
}

fn changed(id: &str) -> TreeCommandResult {
    TreeCommandResult::Changed(String::from(id))
}

#[test]
fn should_initialize_component() {
    let mut component = TreeView::default()
        .preserve_state(true)
        .scroll_step(4)
        .with_tree(mock_tree())
        .initial_node(String::from("aB1"));
    assert_eq!(component.tree_state().selected().unwrap(), "aB1");
    assert!(component.tree().root().query(&String::from("aB")).is_some());
    component
        .tree_mut()
        .root_mut()
        .add_child(Node::new(String::from("d"), String::from("d")));
    assert!(component.tree().root().query(&String::from("d")).is_some());
}

#[test]
fn should_return_consistent_state() {
    let component = TreeView::default().with_tree(mock_tree());
    assert_eq!(component.state(), None);
    let component = TreeView::default()
        .with_tree(mock_tree())
        .initial_node(String::from("aA"));
    assert_eq!(component.state(), Some(String::from("aA")));
}

#[test]
fn should_perform_go_to_begin() {
    let mut component = TreeView::default()
        .with_tree(mock_tree())
        .initial_node(String::from("bB3"));
    assert_eq!(component.perform(TreeCommand::GoToBegin), changed("bB0"));
    assert_eq!(component.perform(TreeCommand::GoToBegin), TreeCommandResult::Unchanged);
}

#[test]
fn should_perform_go_to_end() {
    let mut component = TreeView::default()
        .with_tree(mock_tree())
        .initial_node(String::from("bB1"));
    assert_eq!(component.perform(TreeCommand::GoToEnd), changed("bB5"));
    assert_eq!(component.perform(TreeCommand::GoToEnd), TreeCommandResult::Unchanged);
}

#[test]
fn should_perform_move_down() {
    let mut component = TreeView::default()
        .with_tree(mock_tree())
        .initial_node(String::from("cA1"));
    assert_eq!(component.perform(TreeCommand::MoveDown), changed("cA2"));
    assert_eq!(component.perform(TreeCommand::MoveDown), TreeCommandResult::Unchanged);
}

#[test]
fn should_perform_move_up() {
    let mut component = TreeView::default()
        .with_tree(mock_tree())
        .initial_node(String::from("a"));
    assert_eq!(component.perform(TreeCommand::MoveUp), changed("/"));
    assert_eq!(component.perform(TreeCommand::MoveUp), TreeCommandResult::Unchanged);
}

#[test]
fn should_perform_scroll_down() {
    let mut component = TreeView::default()
        .scroll_step(2)
        .with_tree(mock_tree())
        .initial_node(String::from("cA0"));
    assert_eq!(component.perform(TreeCommand::ScrollDown), changed("cA2"));
    assert_eq!(component.perform(TreeCommand::ScrollDown), TreeCommandResult::Unchanged);
}

#[test]
fn should_perform_scroll_up() {
    let mut component = TreeView::default()
        .scroll_step(4)
        .with_tree(mock_tree())
        .initial_node(String::from("aA1"));
    assert_eq!(component.perform(TreeCommand::ScrollUp), changed("/"));
    assert_eq!(component.perform(TreeCommand::ScrollUp), TreeCommandResult::Unchanged);
}

#[test]
fn should_perform_submit() {
    let mut component = TreeView::default()
        .with_tree(mock_tree())
        .initial_node(String::from("aA1"));
    assert_eq!(
        component.perform(TreeCommand::Submit),
        TreeCommandResult::Submit(Some(String::from("aA1")))
    );
}

#[test]
fn should_perform_close() {
    let mut component = TreeView::default()
        .with_tree(mock_tree())
        .initial_node(String::from("aA1"));
    component.perform(TreeCommand::Open);
    assert_eq!(component.perform(TreeCommand::Close), TreeCommandResult::Unchanged);
    assert!(component
        .tree_state()
        .is_closed(component.tree().root().query(&String::from("aA1")).unwrap()));
}

#[test]
fn should_perform_open() {
    let mut component = TreeView::default()
        .with_tree(mock_tree())
        .initial_node(String::from("aA"));
    assert_eq!(component.perform(TreeCommand::Open), TreeCommandResult::Unchanged);
    assert!(component
        .tree_state()
        .is_open(component.tree().root().query(&String::from("aA")).unwrap()));
}

#[test]
fn should_update_tree() {
    let component = TreeView::default()
        .with_tree(mock_tree())
        .preserve_state(true)
        .initial_node(String::from("aA"));
    // open 'bB'
    let mut component = component.initial_node(String::from("bB"));
    component.perform(TreeCommand::Open);
    // re-select 'aA'
    let mut component = component.initial_node(String::from("aA"));
    let mut new_tree = mock_tree();
    new_tree.root_mut().remove_child(&String::from("a"));
    component.set_tree(new_tree);
    assert_eq!(component.tree_state().selected().unwrap(), "/");
}

#[test]
fn set_tree_without_preserving_resets_the_state() {
    let mut component = TreeView::default()
        .with_tree(mock_tree())
        .initial_node(String::from("bB2"));
    component.set_tree(mock_tree());
    assert_eq!(component.state(), Some(String::from("/")));
    assert!(component.tree_state().opened().is_empty());
}

#[test]
fn submit_without_selection_reports_none() {
    let mut component = TreeView::default().with_tree(mock_tree());
    assert_eq!(component.perform(TreeCommand::Submit), TreeCommandResult::Submit(None));
    assert_eq!(component.perform(TreeCommand::MoveDown), TreeCommandResult::Unchanged);
}

#[test]
fn initial_node_ignores_an_absent_id() {
    let component = TreeView::default()
        .with_tree(mock_tree())
        .initial_node(String::from("nope"));
    assert_eq!(component.state(), None);
}
