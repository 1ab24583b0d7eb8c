use tui_realm_treeview::flat::{to_records, tree_from_records, FlatError, FlatRecord};
use tui_realm_treeview::{Node, Tree};

fn leaf(id: &str, label: &str) -> Node<String> {
    Node::new(id.to_string(), label.to_string())
}

fn fs_tree() -> Tree<String> {
    Tree::new(
        leaf("/", "/")
            .with_child(
                leaf("/bin", "bin/")
                    .with_child(leaf("/bin/ls", "ls"))
                    .with_child(leaf("/bin/pwd", "pwd")),
            )
            .with_child(
                leaf("/home", "home/").with_child(
                    leaf("/home/omar", "omar/")
                        .with_child(leaf("/home/omar/readme.md", "readme.md"))
                        .with_child(leaf("/home/omar/changelog.md", "changelog.md")),
                ),
            ),
    )
}

fn record(id: &str, label: &str, parent: &str) -> FlatRecord {
    FlatRecord { id: id.to_string(), label: label.to_string(), parent: parent.to_string() }
}

#[test]
fn test_serializer_to_and_from_prop_value() {
    let tree = fs_tree();
    let records = to_records(tree.root(), usize::MAX, &String::new());
    let tree: Tree<String> = tree_from_records(&records).unwrap();
    let root: &Node<String> = tree.root();
    // count
    assert_eq!(root.count(), 8);
    // verify members
    assert_eq!(root.id().as_str(), "/");
    assert_eq!(root.value().as_str(), "/");
    assert_eq!(root.children().len(), 2);
    let bin: &Node<String> = &root.children()[0];
    assert_eq!(bin.id().as_str(), "/bin");
    assert_eq!(bin.value().as_str(), "bin/");
    assert_eq!(bin.children().len(), 2);
    let bin_ids: Vec<&str> = bin.children().iter().map(|x| x.id().as_str()).collect();
    assert_eq!(bin_ids, vec!["/bin/ls", "/bin/pwd"]);
    let home: &Node<String> = &tree.root().children()[1];
    assert_eq!(home.id().as_str(), "/home");
    assert_eq!(home.value().as_str(), "home/");
    assert_eq!(home.children().len(), 1);
    let omar_home: &Node<String> = &home.children()[0];
    let omar_home_ids: Vec<&str> = omar_home.children().iter().map(|x| x.id().as_str()).collect();
    assert_eq!(
        omar_home_ids,
        vec!["/home/omar/readme.md", "/home/omar/changelog.md"]
    );
    // -- Query
    assert_eq!(
        tree.root()
            .query(&String::from("/home/omar/changelog.md"))
            .unwrap()
            .id()
            .as_str(),
        "/home/omar/changelog.md"
    );
}

#[test]
fn records_are_depth_first_with_parents() {
    let tree = fs_tree();
    let records = to_records(tree.root(), usize::MAX, &String::new());
    assert_eq!(
        records,
        vec![
            record("/", "/", ""),
            record("/bin", "bin/", "/"),
            record("/bin/ls", "ls", "/bin"),
            record("/bin/pwd", "pwd", "/bin"),
            record("/home", "home/", "/"),
            record("/home/omar", "omar/", "/home"),
            record("/home/omar/readme.md", "readme.md", "/home/omar"),
            record("/home/omar/changelog.md", "changelog.md", "/home/omar"),
        ]
    );
}

#[test]
fn records_stop_at_the_given_depth() {
    let tree = fs_tree();
    let records = to_records(tree.root(), 1, &String::from("up"));
    assert_eq!(
        records,
        vec![record("/", "/", "up"), record("/bin", "bin/", "/"), record("/home", "home/", "/")]
    );
    assert_eq!(to_records(tree.root(), 0, &String::new()).len(), 1);
}

#[test]
fn no_records_make_no_tree() {
    assert_eq!(tree_from_records(&Vec::new()), Err(FlatError::Empty));
}

#[test]
fn record_with_unknown_parent_is_refused() {
    let records = vec![record("/", "/", ""), record("a", "a", "/"), record("b", "b", "zz")];
    assert_eq!(tree_from_records(&records), Err(FlatError::MissingParent(2)));
    let records = vec![record("/", "/", ""), record("a", "a", "b"), record("b", "b", "/")];
    assert_eq!(tree_from_records(&records), Err(FlatError::MissingParent(1)));
}
