use tui_realm_treeview::{Node, Tree};

fn leaf(id: &str, label: &str) -> Node<String> {
    Node::new(id.to_string(), label.to_string())
}

fn fs_tree() -> Tree<String> {
    Tree::new(
        leaf("/", "/")
            .with_child(
                leaf("/bin", "bin/")
                    .with_child(leaf("/bin/ls", "ls"))
                    .with_child(leaf("/bin/pwd", "pwd")),
            )
            .with_child(
                leaf("/home", "home/").with_child(
                    leaf("/home/omar", "omar/")
                        .with_child(leaf("/home/omar/readme.md", "readme.md"))
                        .with_child(leaf("/home/omar/changelog.md", "changelog.md")),
                ),
            ),
    )
}

fn q<'a>(tree: &'a Tree<String>, id: &str) -> &'a Node<String> {
    tree.root().query(&String::from(id)).unwrap()
}

#[test]
fn tree_queries() {
    let tree = fs_tree();
    let root = tree.root();
    assert_eq!(root.route_by_node(&String::from("/home/omar/changelog.md")), Some(vec![1, 0, 1]));
    assert_eq!(root.route_by_node(&String::from("/")), Some(vec![]));
    assert_eq!(root.route_by_node(&String::from("/nope")), None);
    assert_eq!(root.node_by_route(&[1, 0]).unwrap().id(), "/home/omar");
    assert!(root.node_by_route(&[2]).is_none());
    assert_eq!(root.parent(&String::from("/bin/ls")).unwrap().id(), "/bin");
    assert!(root.parent(&String::from("/")).is_none());
    assert!(root.parent(&String::from("/nope")).is_none());
    assert_eq!(q(&tree, "/home/omar").value(), "omar/");
    assert!(q(&tree, "/bin/ls").is_leaf());
    assert_eq!(root.children().len(), 2);
}

#[test]
fn add_child_replaces_value_of_same_id() {
    let node = leaf("/", "/")
        .with_child(leaf("x", "one"))
        .with_child(leaf("y", "two"))
        .with_child(leaf("x", "three"));
    assert_eq!(node.children().len(), 2);
    assert_eq!(node.children()[0].value(), "three");
    let mut node = node;
    node.remove_child(&String::from("x"));
    assert_eq!(node.children().len(), 1);
    assert_eq!(node.children()[0].id(), "y");
}

#[test]
fn count_and_depth() {
    let tree = fs_tree();
    assert_eq!(tree.root().count(), 8);
    assert_eq!(tree.root().depth(), 4);
    assert_eq!(q(&tree, "/bin").count(), 3);
    assert_eq!(q(&tree, "/bin").depth(), 2);
    assert_eq!(q(&tree, "/bin/ls").depth(), 1);
}

#[test]
fn siblings_of_a_node() {
    let tree = fs_tree();
    assert_eq!(tree.root().siblings(&String::from("/bin")), Some(vec![String::from("/home")]));
    assert_eq!(
        tree.root().siblings(&String::from("/home/omar")),
        Some(Vec::<String>::new())
    );
    assert_eq!(tree.root().siblings(&String::from("/")), None);
    assert_eq!(tree.root().siblings(&String::from("/nope")), None);
}

#[test]
fn truncate_and_clear() {
    let mut tree = fs_tree();
    tree.root_mut().truncate(2);
    assert_eq!(tree.root().count(), 6);
    assert!(q(&tree, "/home/omar").is_leaf());
    tree.root_mut().truncate(0);
    assert_eq!(tree.root().count(), 1);
    let mut tree = fs_tree();
    tree.root_mut().clear();
    assert!(tree.root().is_leaf());
    assert_eq!(tree.root().id(), "/");
}
