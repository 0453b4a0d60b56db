use simple_tree::DirTree;
use simple_tree::Node;

fn leaf(path: &str) -> DirTree {
    DirTree::new_entry(String::from(path), None, Vec::new())
}

#[test]
fn snapshot_renders_with_sorted_entries() {
    // Children handed in out of order: the constructors sort them by path.
    let a = leaf("/t/foo/bar/a");
    let b = DirTree::new_entry(String::from("/t/foo/bar/b"), Some(String::from("/t")), Vec::new());
    let c = leaf("/t/foo/bar/c");
    let bar = DirTree::new_entry(String::from("/t/foo/bar"), None, vec![c, a, b]);
    let baz = leaf("/t/foo/baz");
    let root = DirTree::new(String::from("/t/foo"), vec![baz, bar]);
    assert_eq!(
        root.render(),
        "/t/foo\n├── bar\n│   ├── a\n│   ├── b -> /t\n│   └── c\n└── baz"
    );
    assert_eq!(root.count_descendents(), 5);
}

#[test]
fn root_shows_full_path_and_entries_show_base_names() {
    let bar = leaf("/tmp/foo/bar");
    let baz = leaf("/tmp/foo/baz");
    let root = DirTree::new(String::from("/tmp/foo"), vec![bar, baz]);
    assert_eq!(root.value(), "/tmp/foo");
    let children = root.children();
    assert_eq!(children.len(), 2);
    assert_eq!(children[0].value(), "bar");
    assert_eq!(children[1].value(), "baz");
}

#[test]
fn symlink_shows_name_and_raw_target() {
    let link = DirTree::new_entry(
        String::from("/x/current"),
        Some(String::from("../releases/3")),
        Vec::new(),
    );
    let root = DirTree::new(String::from("/x"), vec![link]);
    assert_eq!(root.render(), "/x\n└── current -> ../releases/3");
}

#[test]
fn childless_root_renders_as_a_single_line() {
    let root = DirTree::new(String::from("/lonely"), Vec::new());
    assert_eq!(root.render(), "/lonely");
    assert_eq!(root.count_children(), 0);
    assert_eq!(root.count_descendents(), 0);
}

#[test]
fn rendering_a_snapshot_twice_is_identical() {
    let root = DirTree::new(String::from("/r"), vec![leaf("/r/one"), leaf("/r/two")]);
    assert_eq!(root.render(), root.render());
}
