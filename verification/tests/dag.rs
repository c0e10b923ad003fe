use vertexrs::dag::{Graph, IndexMapping, NodeId};

/// Checks that `order` places every node after all of its inputs.
fn is_valid_topo_order(order: &[NodeId], graph: &Graph) -> bool {
    let pos = |id: NodeId| order.iter().position(|&o| o == id).unwrap();
    order
        .iter()
        .all(|&id| graph.node(id).inputs.iter().all(|&inp| pos(inp) < pos(id)))
}

// ── IndexMapping ─────────────────────────────────────────────────────────────

#[test]
fn mapping_pointwise_identity() {
    assert_eq!(IndexMapping::Pointwise.map_range(100..200), 100..200);
}

#[test]
fn mapping_local_window_expands_range() {
    let m = IndexMapping::LocalWindow { half: 10 };
    assert_eq!(m.map_range(100..200), 90..210);
}

#[test]
fn mapping_local_window_saturates_at_zero() {
    let m = IndexMapping::LocalWindow { half: 50 };
    assert_eq!(m.map_range(10..20), 0..70);
}

#[test]
fn mapping_scatter_is_full_range() {
    assert_eq!(IndexMapping::Scatter.map_range(100..200), 0..usize::MAX);
}

#[test]
fn mapping_reshape_is_full_range() {
    assert_eq!(IndexMapping::Reshape.map_range(100..200), 0..usize::MAX);
}

#[test]
fn mapping_is_blocking_flags() {
    assert!(!IndexMapping::Pointwise.is_blocking());
    assert!(!IndexMapping::LocalWindow { half: 1 }.is_blocking());
    assert!(IndexMapping::Scatter.is_blocking());
    assert!(IndexMapping::Reshape.is_blocking());
}

#[test]
fn mapping_local_window_saturates_at_max() {
    let m = IndexMapping::LocalWindow { half: 10 };
    assert_eq!(m.map_range(5..usize::MAX - 3), 0..usize::MAX);
}

// ── Graph construction ───────────────────────────────────────────────────────

#[test]
fn add_and_retrieve_nodes() {
    let mut g = Graph::new();
    let a = g.add_node("a", &[], IndexMapping::Pointwise);
    let b = g.add_node("b", &[a], IndexMapping::Pointwise);

    assert_eq!(g.node(a).name, "a");
    assert_eq!(g.node(b).name, "b");
    assert_eq!(g.node(b).inputs, vec![a]);
    assert_eq!(g.consumers_of(a), &[b]);
}

#[test]
fn graph_ids_are_dense_indices() {
    let mut g = Graph::new();
    assert!(g.is_empty());
    let a = g.add_node("a", &[], IndexMapping::Pointwise);
    let b = g.add_node("b", &[a], IndexMapping::Scatter);
    assert_eq!(a.index(), 0);
    assert_eq!(b.index(), 1);
    assert_eq!(g.len(), 2);
    assert!(!g.is_empty());
    assert_eq!(g.node(b).id, b);
    assert_eq!(g.node(b).mapping, IndexMapping::Scatter);
    assert!(g.consumers_of(b).is_empty());
}

#[test]
fn consumers_list_each_reading_edge() {
    let mut g = Graph::new();
    let a = g.add_node("a", &[], IndexMapping::Pointwise);
    let b = g.add_node("b", &[a, a], IndexMapping::Pointwise);
    let c = g.add_node("c", &[a], IndexMapping::Pointwise);
    assert_eq!(g.consumers_of(a), &[b, b, c]);
}

// ── topological_order ────────────────────────────────────────────────────────

#[test]
fn topo_order_single_node() {
    let mut g = Graph::new();
    let a = g.add_node("a", &[], IndexMapping::Pointwise);
    let order = g.topological_order();
    assert_eq!(order, vec![a]);
}

#[test]
fn topo_order_linear_chain() {
    let mut g = Graph::new();
    let a = g.add_node("a", &[], IndexMapping::Pointwise);
    let b = g.add_node("b", &[a], IndexMapping::Pointwise);
    let c = g.add_node("c", &[b], IndexMapping::Pointwise);
    let d = g.add_node("d", &[c], IndexMapping::Pointwise);

    let order = g.topological_order();
    assert!(is_valid_topo_order(&order, &g));
    assert_eq!(order.len(), 4);
    assert_eq!(order, vec![a, b, c, d]);
}

#[test]
fn topo_order_diamond() {
    let mut g = Graph::new();
    let a = g.add_node("a", &[], IndexMapping::Pointwise);
    let b = g.add_node("b", &[a], IndexMapping::Pointwise);
    let c = g.add_node("c", &[a], IndexMapping::Pointwise);
    let d = g.add_node("d", &[b, c], IndexMapping::Pointwise);

    let order = g.topological_order();
    assert!(is_valid_topo_order(&order, &g));
    assert_eq!(order.len(), 4);
    assert_eq!(order[0], a);
    assert_eq!(order[3], d);
}

#[test]
fn topo_order_empty_graph() {
    let g = Graph::new();
    assert!(g.topological_order().is_empty());
}

#[test]
fn topo_order_is_a_permutation() {
    let mut g = Graph::new();
    let s1 = g.add_node("s1", &[], IndexMapping::Pointwise);
    let s2 = g.add_node("s2", &[], IndexMapping::Pointwise);
    let m = g.add_node("m", &[s2, s1], IndexMapping::Pointwise);
    let n = g.add_node("n", &[m, s2], IndexMapping::Pointwise);
    let order = g.topological_order();
    assert!(is_valid_topo_order(&order, &g));
    let mut sorted = order.clone();
    sorted.sort();
    assert_eq!(sorted, vec![s1, s2, m, n]);
}

// ── propagate_dirty ──────────────────────────────────────────────────────────

#[test]
fn propagate_dirty_source_only() {
    let mut g = Graph::new();
    let a = g.add_node("a", &[], IndexMapping::Pointwise);

    let dirty = g.propagate_dirty(a, 100..200);
    assert_eq!(dirty.len(), 1);
    assert_eq!(dirty.get(a), Some(100..200));
}

#[test]
fn propagate_dirty_simple_pointwise_chain() {
    let mut g = Graph::new();
    let a = g.add_node("a", &[], IndexMapping::Pointwise);
    let b = g.add_node("b", &[a], IndexMapping::Pointwise);
    let c = g.add_node("c", &[b], IndexMapping::Pointwise);

    let dirty = g.propagate_dirty(a, 50..150);
    assert_eq!(dirty.get(a), Some(50..150));
    assert_eq!(dirty.get(b), Some(50..150));
    assert_eq!(dirty.get(c), Some(50..150));
}

#[test]
fn propagate_dirty_local_window_expands() {
    let mut g = Graph::new();
    let a = g.add_node("a", &[], IndexMapping::Pointwise);
    let b = g.add_node("b", &[a], IndexMapping::LocalWindow { half: 10 });

    let dirty = g.propagate_dirty(a, 100..200);
    assert_eq!(dirty.get(b), Some(90..210));
}

#[test]
fn propagate_dirty_blocking_node_full_output() {
    let mut g = Graph::new();
    let a = g.add_node("a", &[], IndexMapping::Pointwise);
    let b = g.add_node("b", &[a], IndexMapping::Scatter);

    let dirty = g.propagate_dirty(a, 100..200);
    assert_eq!(dirty.get(b), Some(0..usize::MAX));
}

#[test]
fn propagate_dirty_five_node_mixed_graph() {
    let mut g = Graph::new();
    let a = g.add_node("a", &[], IndexMapping::Pointwise);
    let b = g.add_node("b", &[a], IndexMapping::Pointwise);
    let c = g.add_node("c", &[b], IndexMapping::LocalWindow { half: 10 });
    let d = g.add_node("d", &[b], IndexMapping::Scatter);
    let e = g.add_node("e", &[c], IndexMapping::Pointwise);

    let dirty = g.propagate_dirty(a, 100..200);

    assert_eq!(dirty.get(a), Some(100..200));
    assert_eq!(dirty.get(b), Some(100..200));
    assert_eq!(dirty.get(c), Some(90..210));
    assert_eq!(dirty.get(d), Some(0..usize::MAX));
    assert_eq!(dirty.get(e), Some(90..210));
    assert_eq!(dirty.len(), 5);
}

#[test]
fn propagate_dirty_diamond_merges_ranges() {
    let mut g = Graph::new();
    let a = g.add_node("a", &[], IndexMapping::Pointwise);
    let b = g.add_node("b", &[a], IndexMapping::Pointwise);
    let c = g.add_node("c", &[a], IndexMapping::LocalWindow { half: 10 });
    let d = g.add_node("d", &[b, c], IndexMapping::Pointwise);

    let dirty = g.propagate_dirty(a, 100..200);

    assert_eq!(dirty.get(b), Some(100..200));
    assert_eq!(dirty.get(c), Some(90..210));
    assert_eq!(dirty.get(d), Some(90..210));
}

#[test]
fn propagate_dirty_does_not_include_unrelated_nodes() {
    let mut g = Graph::new();
    let a = g.add_node("a", &[], IndexMapping::Pointwise);
    let b = g.add_node("b", &[a], IndexMapping::Pointwise);
    let _c = g.add_node("c", &[b], IndexMapping::Pointwise);
    let d = g.add_node("d", &[], IndexMapping::Pointwise);

    let dirty = g.propagate_dirty(d, 0..10);
    assert_eq!(dirty.len(), 1);
    assert!(dirty.contains_key(d));
}

#[test]
fn propagate_dirty_upstream_nodes_stay_clean() {
    let mut g = Graph::new();
    let a = g.add_node("a", &[], IndexMapping::Pointwise);
    let b = g.add_node("b", &[a], IndexMapping::Pointwise);
    let c = g.add_node("c", &[b], IndexMapping::Pointwise);

    let dirty = g.propagate_dirty(b, 3..7);
    assert_eq!(dirty.get(a), None);
    assert!(!dirty.contains_key(a));
    assert_eq!(dirty.get(b), Some(3..7));
    assert_eq!(dirty.get(c), Some(3..7));
    assert_eq!(dirty.len(), 2);
    assert!(!dirty.is_empty());
    assert_eq!(dirty.range_at(0), None);
    assert_eq!(dirty.range_at(2), Some(3..7));
}

#[test]
fn propagate_dirty_hull_of_disjoint_inputs() {
    // a feeds b directly and through a wide window; the merge is the hull.
    let mut g = Graph::new();
    let a = g.add_node("a", &[], IndexMapping::Pointwise);
    let w = g.add_node("w", &[a], IndexMapping::LocalWindow { half: 100 });
    let b = g.add_node("b", &[a, w], IndexMapping::Pointwise);

    let dirty = g.propagate_dirty(a, 500..510);
    assert_eq!(dirty.get(w), Some(400..610));
    assert_eq!(dirty.get(b), Some(400..610));
}

#[test]
fn successive_additions_count_nodes_and_hand_out_dense_ids() {
    let mut g = Graph::new();
    assert!(g.is_empty());
    assert_eq!(g.len(), 0);
    let mut ids = Vec::new();
    for k in 0..5usize {
        let inputs: Vec<NodeId> = ids.last().copied().into_iter().collect();
        let id = g.add_node("n", &inputs, IndexMapping::Pointwise);
        assert_eq!(id.index(), k);
        ids.push(id);
        assert_eq!(g.len(), k + 1);
        assert!(!g.is_empty());
    }
    for (j, x) in ids.iter().enumerate() {
        for (k, y) in ids.iter().enumerate() {
            assert_eq!(j == k, x == y);
        }
    }
}
