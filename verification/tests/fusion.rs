use vertexrs::fusion::failure_mode_from_keyword;
use vertexrs::fusion::failure_override_from_sigil;
use vertexrs::fusion::{
    chains_from, fanout_of, group_fusable, is_row_fusable, AccessMode, ClosureShape,
    FailureModeKind, FusionGroup, NestedPipelineItem, NodeFailureOverride, NodeItemMeta,
    OrderedItem, SubItem,
};

/// The metadata of `name = recv.row(|x| ..)` (or `.col`), one closure argument that is
/// typed or not.
fn meta(
    name: &str,
    recv: &str,
    mode: AccessMode,
    typed: bool,
    failure_override: NodeFailureOverride,
    pure: bool,
) -> NodeItemMeta {
    NodeItemMeta {
        name: name.to_string(),
        receiver_ident: Some(recv.to_string()),
        call: Some(ClosureShape {
            mode,
            bool_return: false,
            typed_args: vec![typed],
        }),
        failure_override,
        pure,
    }
}

/// `name = recv.row(|x| ..)` without sigil, pure.
fn row(name: &str, recv: &str) -> NodeItemMeta {
    meta(name, recv, AccessMode::Row, false, NodeFailureOverride::Propagate, true)
}

fn node_ordered(m: NodeItemMeta) -> OrderedItem {
    OrderedItem::Node(m)
}

// ── is_row_fusable ───────────────────────────────────────────────────────────

#[test]
fn fusable_pure_row_single_untyped_arg() {
    assert!(is_row_fusable(&row("b", "a")));
}

#[test]
fn not_fusable_impure_node() {
    let m = meta("b", "a", AccessMode::Row, false, NodeFailureOverride::Propagate, false);
    assert!(!is_row_fusable(&m));
}

#[test]
fn not_fusable_soft_failure_override() {
    let m = meta("b", "a", AccessMode::Row, false, NodeFailureOverride::Soft, true);
    assert!(!is_row_fusable(&m));
}

#[test]
fn not_fusable_hard_failure_override() {
    let m = meta("b", "a", AccessMode::Row, false, NodeFailureOverride::Hard, true);
    assert!(!is_row_fusable(&m));
}

#[test]
fn not_fusable_col_mode() {
    let m = meta("b", "a", AccessMode::Col, false, NodeFailureOverride::Propagate, true);
    assert!(!is_row_fusable(&m));
}

#[test]
fn not_fusable_typed_arg() {
    let m = meta("b", "a", AccessMode::Row, true, NodeFailureOverride::Propagate, true);
    assert!(!is_row_fusable(&m));
}

#[test]
fn not_fusable_explicit_bool_return() {
    let mut m = row("b", "a");
    m.call = Some(ClosureShape {
        mode: AccessMode::Row,
        bool_return: true,
        typed_args: vec![false],
    });
    assert!(!is_row_fusable(&m));
}

#[test]
fn not_fusable_two_args_or_no_call() {
    let mut m = row("b", "a");
    m.call = Some(ClosureShape {
        mode: AccessMode::Row,
        bool_return: false,
        typed_args: vec![false, false],
    });
    assert!(!is_row_fusable(&m));
    m.call = None;
    assert!(!is_row_fusable(&m));
}

// ── chains_from ──────────────────────────────────────────────────────────────

#[test]
fn chains_from_linked_pair() {
    let a = row("a", "price");
    let b = row("b", "a");
    assert!(chains_from(&a, &b));
    assert!(!chains_from(&b, &a));
}

#[test]
fn chains_from_different_receiver() {
    let a = row("a", "price");
    let c = row("c", "price");
    assert!(!chains_from(&a, &c));
}

#[test]
fn chains_from_no_receiver() {
    let a = row("a", "price");
    let mut no_recv = row("z", "price");
    no_recv.receiver_ident = None;
    assert!(!chains_from(&a, &no_recv));
}

// ── fanout ───────────────────────────────────────────────────────────────────

#[test]
fn fanout_counts_primary_readers() {
    let items = vec![
        node_ordered(row("a", "price")),
        node_ordered(row("b", "a")),
        node_ordered(row("c", "a")),
        OrderedItem::Sub(SubItem { outputs: vec!["a".to_string()] }),
    ];
    assert_eq!(fanout_of(&items, &"a".to_string()), 2);
    assert_eq!(fanout_of(&items, &"price".to_string()), 1);
    assert_eq!(fanout_of(&items, &"c".to_string()), 0);
}

// ── group_fusable ────────────────────────────────────────────────────────────

#[test]
fn group_fusable_single_fusable_node_stays_single() {
    let items = vec![node_ordered(row("a", "price"))];
    let groups = group_fusable(&items);
    assert_eq!(groups.len(), 1);
    assert!(matches!(groups[0], FusionGroup::Single(_)));
}

#[test]
fn group_fusable_impure_node_emits_single() {
    let items = vec![node_ordered(meta(
        "a",
        "price",
        AccessMode::Row,
        false,
        NodeFailureOverride::Propagate,
        false,
    ))];
    let groups = group_fusable(&items);
    assert_eq!(groups.len(), 1);
    assert!(matches!(groups[0], FusionGroup::Single(_)));
}

#[test]
fn group_fusable_two_node_linear_chain_fuses() {
    let items = vec![node_ordered(row("a", "price")), node_ordered(row("b", "a"))];
    let groups = group_fusable(&items);
    assert_eq!(groups.len(), 1);
    assert!(matches!(&groups[0], FusionGroup::Fused(chain) if chain.len() == 2));
}

#[test]
fn group_fusable_fan_out_prevents_fusion() {
    let items = vec![
        node_ordered(row("a", "price")),
        node_ordered(row("b", "a")),
        node_ordered(row("c", "a")),
    ];
    let groups = group_fusable(&items);
    assert_eq!(groups.len(), 3);
    assert!(groups.iter().all(|g| matches!(g, FusionGroup::Single(_))));
}

#[test]
fn group_fusable_soft_node_splits_chain() {
    let items = vec![
        node_ordered(row("a", "price")),
        node_ordered(row("b", "a")),
        node_ordered(meta("c", "b", AccessMode::Row, false, NodeFailureOverride::Soft, true)),
        node_ordered(row("d", "c")),
        node_ordered(row("e", "d")),
    ];
    let groups = group_fusable(&items);
    assert_eq!(groups.len(), 3);
    assert!(matches!(&groups[0], FusionGroup::Fused(chain) if chain.len() == 2));
    assert!(matches!(&groups[1], FusionGroup::Single(_)));
    assert!(matches!(&groups[2], FusionGroup::Fused(chain) if chain.len() == 2));
    assert_eq!(
        groups,
        vec![
            FusionGroup::Fused(vec![0, 1]),
            FusionGroup::Single(2),
            FusionGroup::Fused(vec![3, 4]),
        ]
    );
}

#[test]
fn group_fusable_five_node_linear_chain() {
    let items = vec![
        node_ordered(row("a", "price")),
        node_ordered(row("b", "a")),
        node_ordered(row("c", "b")),
        node_ordered(row("d", "c")),
        node_ordered(row("e", "d")),
    ];
    let groups = group_fusable(&items);
    assert_eq!(groups.len(), 1);
    assert!(matches!(&groups[0], FusionGroup::Fused(chain) if chain.len() == 5));
}

#[test]
fn group_fusable_empty_input() {
    let groups = group_fusable(&[]);
    assert!(groups.is_empty());
}

#[test]
fn group_fusable_nested_and_sub_break_chains() {
    let items = vec![
        node_ordered(row("a", "price")),
        OrderedItem::Nested(NestedPipelineItem {
            name: "inner".to_string(),
            failure_mode: FailureModeKind::Isolate,
        }),
        node_ordered(row("b", "a")),
        node_ordered(row("c", "b")),
        OrderedItem::Sub(SubItem { outputs: vec![] }),
        node_ordered(row("d", "c")),
    ];
    let groups = group_fusable(&items);
    assert_eq!(
        groups,
        vec![
            FusionGroup::Single(0),
            FusionGroup::Nested(1),
            FusionGroup::Fused(vec![2, 3]),
            FusionGroup::Sub(4),
            FusionGroup::Single(5),
        ]
    );
}

#[test]
fn group_fusable_non_linked_neighbours_stay_apart() {
    // b does not read from a, so both are fused neither with each other nor anything.
    let items = vec![node_ordered(row("a", "price")), node_ordered(row("b", "qty"))];
    assert_eq!(
        group_fusable(&items),
        vec![FusionGroup::Single(0), FusionGroup::Single(1)]
    );
}

#[test]
fn group_fusable_unfusable_head_starts_new_chain_after_it() {
    let items = vec![
        node_ordered(meta("a", "price", AccessMode::Col, false, NodeFailureOverride::Propagate, true)),
        node_ordered(row("b", "a")),
        node_ordered(row("c", "b")),
    ];
    assert_eq!(
        group_fusable(&items),
        vec![FusionGroup::Single(0), FusionGroup::Fused(vec![1, 2])]
    );
}

#[test]
fn failure_mode_keywords() {
    assert_eq!(failure_mode_from_keyword("Soft"), Some(FailureModeKind::Soft));
    assert_eq!(failure_mode_from_keyword("Hard"), Some(FailureModeKind::Hard));
    assert_eq!(failure_mode_from_keyword("Isolate"), Some(FailureModeKind::Isolate));
    assert_eq!(failure_mode_from_keyword("soft"), None);
    assert_eq!(failure_mode_from_keyword(""), None);
}

#[test]
fn failure_override_sigils() {
    assert_eq!(failure_override_from_sigil(true, false), NodeFailureOverride::Soft);
    assert_eq!(failure_override_from_sigil(false, true), NodeFailureOverride::Hard);
    assert_eq!(failure_override_from_sigil(false, false), NodeFailureOverride::Propagate);
}
