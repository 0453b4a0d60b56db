use simple_tree::implementations::NodeBinaryUnbalanced;
use simple_tree::Node;

#[test]
fn single_node_renders_as_one_line() {
    let root = NodeBinaryUnbalanced::new(7i64);
    assert_eq!(root.render(), "7");
    assert_eq!(root.count_children(), 0);
    assert_eq!(root.count_descendents(), 0);
}

#[test]
fn bst_scenario_renders_exactly() {
    let mut root = NodeBinaryUnbalanced::new(7i64);
    root.insert(3);
    root.insert(5);
    root.insert(13);
    root.insert(2);
    root.insert(11);
    root.insert(15);
    assert_eq!(
        root.render(),
        "7\n├── 3\n│   ├── 2\n│   └── 5\n└── 13\n    ├── 11\n    └── 15"
    );
    assert_eq!(root.count_descendents(), 6);
}

#[test]
fn duplicates_collapse_into_counts() {
    let mut root = NodeBinaryUnbalanced::new(50i64);
    root.insert(25);
    root.insert(100);
    root.insert(75);
    assert_eq!(root.count_descendents(), 3);
    root.insert(25);
    root.insert(50);
    root.insert(100);
    assert_eq!(root.count_descendents(), 3);
}

#[test]
fn children_come_left_then_right() {
    let mut root = NodeBinaryUnbalanced::new(50i64);
    root.insert(25);
    root.insert(100);
    root.insert(75);
    let children = root.children();
    assert_eq!(children.len(), 2);
    assert_eq!(children[0].value(), "25");
    assert_eq!(children[1].value(), "100");
    assert_eq!(children[0].count_children(), 0);
    assert_eq!(children[1].count_children(), 1);
}

#[test]
fn negative_values_render_with_sign() {
    let mut root = NodeBinaryUnbalanced::new(0i64);
    root.insert(-5);
    root.insert(10);
    assert_eq!(root.render(), "0\n├── -5\n└── 10");
}

#[test]
fn extreme_values_render_in_full() {
    let mut root = NodeBinaryUnbalanced::new(0i64);
    root.insert(i64::MIN);
    root.insert(i64::MAX);
    assert_eq!(
        root.render(),
        "0\n├── -9223372036854775808\n└── 9223372036854775807"
    );
}

#[test]
fn rendering_twice_gives_identical_text() {
    let mut root = NodeBinaryUnbalanced::new(4i64);
    root.insert(2);
    root.insert(6);
    let first = root.render();
    let second = root.render();
    assert_eq!(first, second);
}
