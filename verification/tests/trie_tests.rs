use simple_tree::implementations::trie::{DisplayData, SortOption, Trie};
use simple_tree::Node;

#[test]
fn trie_scenario_renders_exactly() {
    let trie = Trie::from(&["foo", "bar", "baz", "foo", "baz", "foo", "b"]);
    assert_eq!(
        trie.render(),
        "\n├── b\t1\n│   └── ba\t0\n│       ├── bar\t1\n│       └── baz\t2\n└── f\t0\n    └── fo\t0\n        └── foo\t3"
    );
}

#[test]
fn trie_scenario_occurrences() {
    let trie = Trie::from(&["foo", "bar", "baz", "foo", "baz", "foo", "b"]);
    assert_eq!(trie.occurrences("foo"), 3);
    assert_eq!(trie.occurrences("bar"), 1);
    assert_eq!(trie.occurrences("baz"), 2);
    assert_eq!(trie.occurrences("b"), 1);
    assert_eq!(trie.occurrences("f"), 0);
    assert_eq!(trie.occurrences("fo"), 0);
    assert_eq!(trie.occurrences("ba"), 0);
}

#[test]
fn add_returns_the_new_count() {
    let mut trie = Trie::new();
    assert_eq!(trie.add(String::from("hello")), Ok(1));
    assert_eq!(trie.add(String::from("hi")), Ok(1));
    assert_eq!(trie.add(String::from("hey")), Ok(1));
    assert_eq!(trie.add(String::from("hi")), Ok(2));
    assert_eq!(
        trie.render(),
        "\n└── h\t0\n    ├── he\t0\n    │   ├── hel\t0\n    │   │   └── hell\t0\n    │   │       └── hello\t1\n    │   └── hey\t1\n    └── hi\t2"
    );
}

#[test]
fn total_occurrences_aggregates_every_insertion() {
    let mut trie = Trie::new();
    assert_eq!(trie.add(String::from("hey")), Ok(1));
    assert_eq!(trie.add(String::from("hello")), Ok(1));
    assert_eq!(trie.add(String::from("he")), Ok(1));
    assert_eq!(trie.add(String::from("hi")), Ok(1));
    assert_eq!(trie.add(String::from("hello")), Ok(2));
    assert_eq!(trie.total_occurrences(), 5);

    let children = trie.children();
    let h_node = children[0];
    assert_eq!(h_node.total_occurrences(), 5);
    let h_children = h_node.children();
    let he_node = h_children[0];
    assert_eq!(he_node.total_occurrences(), 4);
    let he_children = he_node.children();
    let hel_node = he_children[0];
    assert_eq!(hel_node.total_occurrences(), 2);
}

#[test]
fn root_value_is_empty_and_nodes_show_counts() {
    let root = Trie::from(&["foo", "bar", "baz"]);
    assert_eq!(root.value(), "");
    let children = root.children();
    let b_node = children[0];
    assert_eq!(b_node.value(), "b\t0");
    let b_children = b_node.children();
    let ba_node = b_children[0];
    assert_eq!(ba_node.value(), "ba\t0");
    let ba_children = ba_node.children();
    let bar_node = ba_children[0];
    assert_eq!(bar_node.value(), "bar\t1");
}

#[test]
fn every_sort_option_orders_the_rendering() {
    let mut trie = Trie::from_with_sort_and_display(
        &["hey", "hello", "hey", "hi", "ha", "ha"],
        SortOption::Value,
        DisplayData::DirectCount,
    );
    assert_eq!(
        trie.render(),
        "\n└── h\t0\n    ├── ha\t2\n    ├── he\t0\n    │   ├── hel\t0\n    │   │   └── hell\t0\n    │   │       └── hello\t1\n    │   └── hey\t2\n    └── hi\t1"
    );

    trie.set_sort_option(SortOption::ValueReversed);
    assert_eq!(
        trie.render(),
        "\n└── h\t0\n    ├── hi\t1\n    ├── he\t0\n    │   ├── hey\t2\n    │   └── hel\t0\n    │       └── hell\t0\n    │           └── hello\t1\n    └── ha\t2"
    );

    trie.set_sort_option(SortOption::DirectCountAscending);
    assert_eq!(
        trie.render(),
        "\n└── h\t0\n    ├── he\t0\n    │   ├── hel\t0\n    │   │   └── hell\t0\n    │   │       └── hello\t1\n    │   └── hey\t2\n    ├── hi\t1\n    └── ha\t2"
    );

    trie.set_sort_option(SortOption::DirectCountDescending);
    assert_eq!(
        trie.render(),
        "\n└── h\t0\n    ├── ha\t2\n    ├── hi\t1\n    └── he\t0\n        ├── hey\t2\n        └── hel\t0\n            └── hell\t0\n                └── hello\t1"
    );

    trie.set_sort_option(SortOption::TotalCountAscending);
    assert_eq!(
        trie.render(),
        "\n└── h\t0\n    ├── hi\t1\n    ├── ha\t2\n    └── he\t0\n        ├── hel\t0\n        │   └── hell\t0\n        │       └── hello\t1\n        └── hey\t2"
    );

    trie.set_sort_option(SortOption::TotalCountDescending);
    assert_eq!(
        trie.render(),
        "\n└── h\t0\n    ├── he\t0\n    │   ├── hey\t2\n    │   └── hel\t0\n    │       └── hell\t0\n    │           └── hello\t1\n    ├── ha\t2\n    └── hi\t1"
    );
}

#[test]
fn every_display_mode_changes_the_text() {
    let mut trie = Trie::from_with_sort_and_display(
        &["hey", "hello", "hey", "hi", "ha", "ha"],
        SortOption::Value,
        DisplayData::Bare,
    );
    assert_eq!(
        trie.render(),
        "\n└── h\n    ├── ha\n    ├── he\n    │   ├── hel\n    │   │   └── hell\n    │   │       └── hello\n    │   └── hey\n    └── hi"
    );

    trie.set_display_data(DisplayData::DirectCount);
    assert_eq!(
        trie.render(),
        "\n└── h\t0\n    ├── ha\t2\n    ├── he\t0\n    │   ├── hel\t0\n    │   │   └── hell\t0\n    │   │       └── hello\t1\n    │   └── hey\t2\n    └── hi\t1"
    );

    trie.set_display_data(DisplayData::TotalCount);
    assert_eq!(
        trie.render(),
        "\n└── h\t6\n    ├── ha\t2\n    ├── he\t3\n    │   ├── hel\t1\n    │   │   └── hell\t1\n    │   │       └── hello\t1\n    │   └── hey\t2\n    └── hi\t1"
    );
}

#[test]
fn reordering_and_redisplaying_keep_all_counts() {
    let mut trie = Trie::from(&["foo", "bar", "baz", "foo", "baz", "foo", "b"]);
    trie.set_sort_option(SortOption::TotalCountDescending);
    trie.set_display_data(DisplayData::TotalCount);
    assert_eq!(trie.occurrences("foo"), 3);
    assert_eq!(trie.occurrences("bar"), 1);
    assert_eq!(trie.occurrences("baz"), 2);
    assert_eq!(trie.occurrences("b"), 1);
    assert_eq!(trie.occurrences("fo"), 0);
    assert_eq!(trie.total_occurrences(), 7);
}

#[test]
fn total_count_descending_scenario() {
    let trie = Trie::from_with_sort_and_display(
        &["foo", "bar", "baz", "foo", "baz", "foo", "b"],
        SortOption::TotalCountDescending,
        DisplayData::TotalCount,
    );
    assert_eq!(
        trie.render(),
        "\n├── b\t4\n│   └── ba\t3\n│       ├── baz\t2\n│       └── bar\t1\n└── f\t3\n    └── fo\t3\n        └── foo\t3"
    );
}

#[test]
fn descendants_count_nodes_not_insertions() {
    let trie = Trie::from(&["foo", "bar", "baz", "foo", "baz", "foo", "b"]);
    // One node per distinct prefix: b, ba, bar, baz, f, fo, foo.
    assert_eq!(trie.count_descendents(), 7);
    assert_eq!(trie.count_children(), 2);
}

#[test]
fn rendering_is_idempotent() {
    let trie = Trie::from(&["one", "two", "two"]);
    let first = trie.render();
    let second = trie.render();
    assert_eq!(first, second);
}

#[test]
fn default_is_an_empty_trie() {
    let trie = Trie::default();
    assert_eq!(trie.total_occurrences(), 0);
    assert_eq!(trie.occurrences("anything"), 0);
    assert_eq!(trie.render(), "");
}

#[test]
fn building_from_no_words_leaves_an_empty_trie() {
    let trie = Trie::from(&[]);
    assert_eq!(trie.total_occurrences(), 0);
    assert_eq!(trie.render(), "");
}

#[test]
fn empty_word_counts_at_the_root() {
    let mut trie = Trie::new();
    assert_eq!(trie.add(String::new()), Ok(1));
    assert_eq!(trie.add(String::new()), Ok(2));
    assert_eq!(trie.occurrences(""), 2);
    assert_eq!(trie.total_occurrences(), 2);
}
