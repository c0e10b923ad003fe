use vertexrs::{BoolNode, StringNode};

// ── BoolNode ─────────────────────────────────────────────────────────────────

#[test]
fn bool_node_from_data_round_trip() {
    let b = BoolNode::from_data("mask", vec![true, false, true]);
    assert_eq!(b.name, "mask");
    assert_eq!(b.len(), 3);
    assert!(!b.is_empty());
    assert_eq!(b.to_vec(), vec![true, false, true]);
}

#[test]
fn bool_node_value_indexing() {
    let b = BoolNode::from_data("flags", vec![false, true, false, true]);
    assert_eq!(b.value(0), false);
    assert_eq!(b.value(1), true);
    assert_eq!(b.value(3), true);
}

#[test]
fn bool_node_is_empty() {
    let b = BoolNode::from_data("empty", vec![]);
    assert!(b.is_empty());
    assert_eq!(b.len(), 0);
}

#[test]
fn bool_node_new_with_deps() {
    let b = BoolNode::new_with_deps("gt", &["price"], vec![true, false]);
    assert_eq!(b.name, "gt");
    assert_eq!(b.deps, &["price"]);
    assert_eq!(b.to_vec(), vec![true, false]);
}

#[test]
fn bool_node_clone_keeps_values() {
    let b = BoolNode::from_data("m", (0..100).map(|i| i % 3 == 0).collect());
    let c = b.clone();
    assert_eq!(c.name, "m");
    assert_eq!(c.to_vec(), b.to_vec());
    assert_eq!(c.value(99), true);
    assert_eq!(c.value(98), false);
}

// ── StringNode ───────────────────────────────────────────────────────────────

#[test]
fn string_node_from_data_round_trip() {
    let s = StringNode::from_data("labels", &["foo", "bar", "baz"]);
    assert_eq!(s.name, "labels");
    assert_eq!(s.len(), 3);
    assert!(!s.is_empty());
    assert_eq!(s.values(), vec!["foo", "bar", "baz"]);
}

#[test]
fn string_node_value_indexing() {
    let s = StringNode::from_data("tags", &["alpha", "beta", "gamma"]);
    assert_eq!(s.value(0), "alpha");
    assert_eq!(s.value(2), "gamma");
}

#[test]
fn string_node_is_empty() {
    let s = StringNode::from_data("empty", &[]);
    assert!(s.is_empty());
    assert_eq!(s.len(), 0);
}

#[test]
fn string_node_new_with_deps() {
    let s = StringNode::new_with_deps("label", &["id"], vec!["x".to_string(), "y".to_string()]);
    assert_eq!(s.name, "label");
    assert_eq!(s.deps, &["id"]);
    assert_eq!(s.values(), vec!["x", "y"]);
}

#[test]
fn string_node_keeps_empty_and_multibyte_strings() {
    let s = StringNode::from_data("t", &["", "héllo", "日本"]);
    assert_eq!(s.values(), vec!["", "héllo", "日本"]);
    let c = s.clone();
    assert_eq!(c.value(2), "日本");
    assert!(c.deps.is_empty());
}
