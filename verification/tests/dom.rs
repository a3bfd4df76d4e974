use std::time::{Duration, Instant};

use taplo_core::errors::{QueryError, TomlError};
use taplo_core::keys::{Key, KeyOrIndex, Keys, TextRange};
use taplo_core::node::{DomNode, Node};

fn tbl(entries: Vec<(&str, Node)>) -> Node {
    Node::table(entries.into_iter().map(|(k, n)| (Key::new(k), n)).collect(), Vec::new(), None)
}

fn arr(items: Vec<Node>) -> Node {
    Node::array(items, Vec::new(), None)
}

fn st(v: &str) -> Node {
    Node::string(v.to_string(), Vec::new(), None)
}

fn integer(v: i64) -> Node {
    Node::integer(v, Vec::new(), None)
}

fn yes(v: bool) -> Node {
    Node::boolean(v, Vec::new(), None)
}

fn key(k: &str) -> KeyOrIndex {
    KeyOrIndex::Key(Key::new(k))
}

fn keys(steps: &[&str]) -> Keys {
    Keys::new(steps.iter().map(|s| key(s)).collect())
}

fn drain(mut next: impl FnMut() -> Option<(Keys, Node)>) -> Vec<(Keys, Node)> {
    let mut out = Vec::new();
    while let Some(item) = next() {
        out.push(item);
    }
    out
}

fn dotted(items: &[(Keys, Node)]) -> Vec<String> {
    items.iter().map(|(k, _)| k.dotted()).collect()
}

/// The tree of the document
/// `[table1] key1 = "value1" key2 = 42 [table1.nested] deep_key = "deep_value"
/// array = [1, 2, 3, 4, 5] [table1.nested.deeper] very_deep = true [table2]
/// another_key = "another_value" [[table2.array_of_tables]] (twice) [table3] simple = "value"`.
fn nested_document() -> Node {
    tbl(vec![
        ("table1", tbl(vec![
            ("key1", st("value1")),
            ("key2", integer(42)),
            ("nested", tbl(vec![
                ("deep_key", st("deep_value")),
                ("array", arr(vec![integer(1), integer(2), integer(3), integer(4), integer(5)])),
                ("deeper", tbl(vec![("very_deep", yes(true))])),
            ])),
        ])),
        ("table2", tbl(vec![
            ("another_key", st("another_value")),
            ("array_of_tables", arr(vec![
                tbl(vec![("item1", st("value1")), ("item2", integer(123))]),
                tbl(vec![("item1", st("value2")), ("item2", integer(456))]),
            ])),
        ])),
        ("table3", tbl(vec![("simple", st("value"))])),
    ])
}

/// The tree of the document
/// `[table1] key1 = "value1" key2 = 42 [table1.nested] deep_key = "deep_value"
/// array = [1, 2, 3] [table2] simple = true`.
fn stats_document() -> Node {
    tbl(vec![
        ("table1", tbl(vec![
            ("key1", st("value1")),
            ("key2", integer(42)),
            ("nested", tbl(vec![
                ("deep_key", st("deep_value")),
                ("array", arr(vec![integer(1), integer(2), integer(3)])),
            ])),
        ])),
        ("table2", tbl(vec![("simple", yes(true))])),
    ])
}

/// The tree of the document `[level1] [level1.level2] ... [level1.level2.level3.level4.level5]`.
fn levels_document() -> Node {
    tbl(vec![("level1", tbl(vec![("level2", tbl(vec![("level3", tbl(vec![("level4", tbl(vec![("level5", tbl(vec![]))]))]))]))]))])
}

#[test]
fn test_optimized_traversal_performance() {
    let parsed = nested_document();

    let start = Instant::now();
    let mut it = parsed.flat_iter();
    let old_results = drain(|| it.next());
    let old_duration = start.elapsed();

    let start = Instant::now();
    let mut it = parsed.flat_iter_optimized();
    let new_results = drain(|| it.next());
    let new_duration = start.elapsed();

    assert_eq!(old_results.len(), new_results.len());
    for (old, new) in old_results.iter().zip(new_results.iter()) {
        assert_eq!(old.0.dotted(), new.0.dotted());
    }

    println!("Old traversal: {:?} for {} nodes", old_duration, old_results.len());
    println!("New traversal: {:?} for {} nodes", new_duration, new_results.len());
    println!("Performance improvement: {:.2}x", old_duration.as_nanos() as f64 / new_duration.as_nanos() as f64);

    let performance_ratio = new_duration.as_nanos() as f64 / old_duration.as_nanos() as f64;
    assert!(performance_ratio <= 2.0, "New approach should not be more than 2x slower for small trees");

    assert_eq!(old_results.len(), new_results.len());
    for (old, new) in old_results.iter().zip(new_results.iter()) {
        assert_eq!(old.0.dotted(), new.0.dotted());
    }
}

#[test]
fn test_traversal_stats() {
    let parsed = stats_document();

    let stats = parsed.get_traversal_stats();

    println!("{}", stats.to_text());

    assert!(stats.total_nodes > 0);
    assert!(stats.max_depth > 0);
    assert!(stats.table_count > 0);
    assert!(stats.string_count > 0);
    assert!(stats.integer_count > 0);
    assert!(stats.bool_count > 0);
}

#[test]
fn test_depth_limit_traversal() {
    let parsed = levels_document();

    let mut it = parsed.flat_iter_with_depth_limit(3);
    let limited_results = drain(|| it.next());

    for (keys, _) in &limited_results {
        assert!(keys.len() <= 3);
    }

    println!("Depth-limited traversal: {} nodes", limited_results.len());
}

#[test]
fn test_memory_pool_traversal() {
    let parsed = tbl(vec![
        ("table1", tbl(vec![("key1", st("value1")), ("key2", st("value2")), ("key3", st("value3"))])),
        ("table2", tbl(vec![("key1", st("value1")), ("key2", st("value2")), ("key3", st("value3"))])),
    ]);

    let mut it = parsed.flat_iter_with_pool();
    let pool_results = drain(|| it.next());

    assert!(pool_results.len() > 0);

    println!("Memory pool traversal: {} nodes", pool_results.len());
}

#[test]
fn test_find_all_matches_optimization() {
    let parsed = tbl(vec![
        ("package", tbl(vec![
            ("name", st("test")),
            ("version", st("1.0.0")),
            ("metadata", tbl(vec![("description", st("Test package"))])),
        ])),
        ("dependencies", tbl(vec![("serde", st("1.0")), ("tokio", st("1.0"))])),
    ]);

    let keys = keys(&["package", "metadata"]);
    let matches = parsed.find_all_matches(keys, false).ok().expect("the query compiles");

    let results: Vec<_> = matches.into_iter().collect();
    assert!(results.len() > 0);

    println!("Find all matches: {} results", results.len());
}

#[test]
fn test_large_tree_performance_benefit() {
    let mut levels = Vec::new();
    for i in 0..20i64 {
        let name = format!("level{}", i);
        let entries = vec![
            (Key::new(&format!("key{}", i)), st(&format!("value{}", i))),
            (Key::new(&format!("number{}", i)), integer(i)),
            (Key::new(&format!("array{}", i)), arr((0..10).map(integer).collect())),
            (Key::new("nested"), tbl(vec![(&format!("nested_key{}", i), yes(true))])),
        ];
        levels.push((Key::new(&name), Node::table(entries, Vec::new(), None)));
    }
    let parsed = Node::table(levels, Vec::new(), None);

    let start = Instant::now();
    let mut it = parsed.flat_iter_optimized();
    let _results = drain(|| it.next());
    let optimized_duration = start.elapsed();

    println!("Large tree traversal ({} nodes): {:?}", parsed.get_traversal_stats().total_nodes, optimized_duration);

    assert!(optimized_duration < Duration::from_millis(100), "Large tree traversal should complete in under 100ms");
}

#[test]
fn flat_iteration_is_preorder_from_the_root() {
    let doc = tbl(vec![("a", tbl(vec![("b", integer(1)), ("c", arr(vec![yes(true), yes(false)]))])), ("d", st("x"))]);
    let mut it = doc.flat_iter();
    let items = drain(|| it.next());
    assert_eq!(dotted(&items), vec!["", "a", "a.b", "a.c", "a.c[0]", "a.c[1]", "d"]);
    assert!(items[0].1.is_table());
    assert!(items[2].1.is_integer());
    assert!(items[4].1.is_bool());
}

#[test]
fn flat_iteration_from_the_back_hands_out_the_back() {
    let doc = tbl(vec![("a", integer(1)), ("b", tbl(vec![("c", integer(2))]))]);
    let mut it = doc.flat_iter();
    let first = it.next().expect("the root");
    assert_eq!(first.0.len(), 0);
    let back = it.next_back().expect("an item");
    assert_eq!(back.0.dotted(), "b.c");
    let front = it.next().expect("an item");
    assert_eq!(front.0.dotted(), "a");
    let back = it.next_back().expect("an item");
    assert_eq!(back.0.dotted(), "b");
    assert!(it.next_back().is_none());
    assert!(it.next().is_none());
    let mut rev = nested_document().flat_iter_optimized();
    let backwards = drain(|| rev.next_back());
    let mut fwd = nested_document().flat_iter_optimized();
    let mut forwards = dotted(&drain(|| fwd.next()));
    forwards.reverse();
    assert_eq!(dotted(&backwards), forwards);
}

#[test]
fn buffered_iteration_counts_down() {
    let doc = tbl(vec![("a", integer(1)), ("b", integer(2))]);
    let mut it = doc.flat_iter_buffered();
    assert_eq!(it.len(), 3);
    assert_eq!(it.next().expect("the root").0.len(), 0);
    assert_eq!(it.len(), 2);
    assert_eq!(it.next_back().expect("an item").0.dotted(), "b");
    assert_eq!(it.len(), 1);
    assert_eq!(it.next().expect("an item").0.dotted(), "a");
    assert_eq!(it.len(), 0);
    assert!(it.next().is_none());
}

#[test]
fn depth_limit_skips_deeper_nodes_and_goes_on() {
    let doc = tbl(vec![("a", tbl(vec![("b", integer(1))])), ("c", integer(2))]);
    let mut it = doc.flat_iter_with_depth_limit(1);
    assert_eq!(dotted(&drain(|| it.next())), vec!["", "a", "c"]);
}

#[test]
fn depth_limit_on_a_chain() {
    let doc = levels_document();
    let mut it = doc.flat_iter_with_depth_limit(3);
    let items = drain(|| it.next());
    assert_eq!(dotted(&items), vec!["", "level1", "level1.level2", "level1.level2.level3"]);
}

#[test]
fn pooled_iteration_matches_plain_iteration() {
    let doc = nested_document();
    let mut plain = doc.flat_iter();
    let mut pooled = doc.flat_iter_with_pool();
    assert_eq!(dotted(&drain(|| plain.next())), dotted(&drain(|| pooled.next())));
}

#[test]
fn traversal_stats_are_exact() {
    let stats = stats_document().get_traversal_stats();
    assert_eq!(stats.total_nodes, 12);
    assert_eq!(stats.max_depth, 5);
    assert_eq!(stats.table_count, 4);
    assert_eq!(stats.array_count, 1);
    assert_eq!(stats.bool_count, 1);
    assert_eq!(stats.string_count, 2);
    assert_eq!(stats.integer_count, 4);
    assert_eq!(stats.float_count, 0);
    assert_eq!(stats.date_count, 0);
    assert_eq!(stats.invalid_count, 0);
    assert_eq!(
        stats.to_text(),
        "Traversal Stats:\n- Total nodes: 12\n- Max depth: 5\n- Tables: 4\n- Arrays: 1\n- Booleans: 1\n- Strings: 2\n- Integers: 4\n- Floats: 0\n- Dates: 0\n- Invalid: 0"
    );
}

#[test]
fn stats_of_a_leaf() {
    let stats = Node::float_bits(1.5f64.to_bits(), Vec::new(), None).get_traversal_stats();
    assert_eq!(stats.total_nodes, 1);
    assert_eq!(stats.max_depth, 1);
    assert_eq!(stats.float_count, 1);
}

#[test]
fn get_and_path_find_children() {
    let doc = nested_document();
    let t1 = doc.get(&key("table1"));
    assert!(t1.is_table());
    let missing = doc.get(&key("nope"));
    assert!(missing.is_invalid());
    assert!(matches!(doc.try_get(&key("nope")), Err(TomlError::Query(QueryError::NotFound))));
    let arr_item = doc
        .path(&Keys::new(vec![key("table1"), key("nested"), key("array"), KeyOrIndex::Index(2)]))
        .expect("the item");
    assert_eq!(arr_item.as_integer().expect("an integer").0.value, 3);
    assert!(doc.path(&keys(&["table1", "nested", "missing"])).is_none());
    assert!(doc.get(&KeyOrIndex::Index(0)).is_invalid());
}

#[test]
fn kinds_are_told_apart() {
    let s = st("x");
    assert!(s.is_str() && !s.is_table() && !s.is_array());
    assert_eq!(s.as_str().expect("a string").0.value, "x");
    assert!(s.as_integer().is_none());
    assert!(s.clone().try_into_str().is_ok());
    assert!(s.try_into_bool().is_err());
    let d = Node::date("1979-05-27".to_string(), Vec::new(), None);
    assert!(d.is_date());
    assert_eq!(d.as_date().expect("a date").0.value, "1979-05-27");
    let i = Node::invalid(Vec::new(), None);
    assert!(i.is_invalid() && i.clone().try_into_invalid().is_ok());
    let f = Node::float_bits(2.5f64.to_bits(), Vec::new(), None);
    assert_eq!(f64::from_bits(f.as_float().expect("a float").0.value), 2.5);
}

#[test]
fn validate_collects_every_error() {
    let bad = TomlError::UnexpectedSyntax { text: "=".to_string() };
    let dup = TomlError::ConflictingKeys { key: "a".to_string(), other: "a".to_string() };
    let doc = Node::table(
        vec![(Key::new("a"), Node::string("v".to_string(), vec![bad], None))],
        vec![dup],
        None,
    );
    match doc.validate() {
        Err(errors) => {
            assert_eq!(errors.len(), 2);
            assert!(matches!(errors[0], TomlError::ConflictingKeys { .. }));
            assert!(matches!(errors[1], TomlError::UnexpectedSyntax { .. }));
        },
        Ok(()) => panic!("errors expected"),
    }
    assert!(nested_document().validate().is_ok());
    let deep = arr(vec![Node::table(
        vec![(Key::new("x"), Node::string("v".to_string(), vec![TomlError::UnexpectedSyntax { text: "!".to_string() }], None))],
        Vec::new(),
        None,
    )]);
    match deep.validate() {
        Err(errors) => assert_eq!(errors.len(), 1),
        Ok(()) => panic!("the nested error is expected"),
    }
}

#[test]
fn missing_keys_give_an_invalid_node_without_a_place() {
    let missing = nested_document().get(&key("nope"));
    assert!(missing.is_invalid());
    assert!(missing.syntax().is_none());
    assert_eq!(missing.errors().len(), 1);
}

#[test]
fn text_ranges_cover_children() {
    let r = |s: u32, e: u32| Some(TextRange { start: s, end: e });
    let doc = Node::table(
        vec![(Key::with_parts("a".to_string(), Vec::new(), r(0, 1)), Node::integer(1, Vec::new(), r(4, 5)))],
        Vec::new(),
        r(0, 5),
    );
    let leaf = Node::integer(1, Vec::new(), r(4, 5));
    assert_eq!(leaf.text_ranges(true), vec![TextRange { start: 4, end: 5 }]);
    let plain = Node::integer(1, Vec::new(), None);
    assert_eq!(plain.text_ranges(false), vec![TextRange { start: 0, end: 0 }]);
    let ranges = doc.text_ranges(true);
    assert_eq!(ranges[0], TextRange { start: 0, end: 5 });
    assert!(ranges.contains(&TextRange { start: 0, end: 1 }));
    assert!(ranges.contains(&TextRange { start: 4, end: 5 }));
}

#[test]
fn get_matches_on_arrays_and_tables() {
    let a = arr(vec![integer(10), integer(11), integer(12)]);
    let found = a.get_matches("[02]").ok().expect("the pattern compiles");
    assert_eq!(found.len(), 2);
    assert!(matches!(found[0].0, KeyOrIndex::Index(0)));
    assert!(matches!(found[1].0, KeyOrIndex::Index(2)));
    let t = tbl(vec![("x", integer(1)), ("y", integer(2))]);
    assert_eq!(t.get_matches("*").ok().expect("the pattern compiles").len(), 2);
    assert!(matches!(t.get_matches("[").err(), Some(TomlError::Query(QueryError::InvalidGlob(_)))));
    assert_eq!(st("s").get_matches("*").ok().expect("the pattern compiles").len(), 0);
}

#[test]
fn find_all_matches_selects_paths() {
    let doc = nested_document();
    let found = doc.find_all_matches(keys(&["table1", "*"]), false).ok().expect("the query compiles");
    assert_eq!(dotted(&found), vec!["table1.key1", "table1.key2", "table1.nested"]);
    let deep = doc.find_all_matches(keys(&["table1", "nested"]), true).ok().expect("the query compiles");
    assert_eq!(deep[0].0.dotted(), "table1.nested");
    assert_eq!(deep.len(), 10);
    let items = doc
        .find_all_matches(Keys::new(vec![key("table2"), key("array_of_tables"), KeyOrIndex::Index(1)]), false)
        .ok()
        .expect("the query compiles");
    assert_eq!(dotted(&items), vec!["table2.array_of_tables[1]"]);
}
