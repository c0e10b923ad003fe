//! Kernel fusion planning for pipeline definitions.
//!
//! A pipeline is declared as an ordered list of items: nodes, nested pipelines and
//! sub-pipelines. Consecutive pure, single-argument, untyped row-mode nodes that feed
//! each other in a straight line are grouped so that they can be computed in one pass.

use vstd::prelude::*;

verus! {

/// Whether a node closure sees one row at a time or the whole column.
#[derive(Debug, Clone, Copy, PartialEq, Eq, Structural)]
pub enum AccessMode {
    Row,
    Col,
}

/// Per-node failure override declared with a trailing sigil on a node.
#[derive(Debug, Clone, Copy, PartialEq, Eq, Structural)]
pub enum NodeFailureOverride {
    /// No sigil: a panic propagates.
    Propagate,
    /// `?` sigil: a panic is caught, the node's values become missing and a warning is kept.
    Soft,
    /// `!` sigil: a panic is caught and reported as an error.
    Hard,
}

/// Failure mode of a nested pipeline.
#[derive(Debug, Clone, Copy, PartialEq, Eq, Structural)]
pub enum FailureModeKind {
    Soft,
    Hard,
    Isolate,
}

/// The shape of the `receiver.row(|..| ..)` / `receiver.col(|..| ..)` call that
/// defines a node.
#[derive(Debug, Clone)]
pub struct ClosureShape {
    /// Row or column access.
    pub mode: AccessMode,
    /// The closure declares `-> bool` as its return type.
    pub bool_return: bool,
    /// For each plainly named closure argument, in order: whether it carries a type
    /// annotation.
    pub typed_args: Vec<bool>,
}

/// What the fusion pass knows of one node item.
#[derive(Debug, Clone)]
pub struct NodeItemMeta {
    /// The node's name.
    pub name: String,
    /// The name of the node's primary receiver, when the receiver is a plain name.
    pub receiver_ident: Option<String>,
    /// The defining call, when the expression is a `row`/`col` call with one closure.
    pub call: Option<ClosureShape>,
    /// The node's failure override.
    pub failure_override: NodeFailureOverride,
    /// When `false`, the node must always be recomputed.
    pub pure: bool,
}

/// An inline nested pipeline.
#[derive(Debug, Clone)]
pub struct NestedPipelineItem {
    /// The nested pipeline's name.
    pub name: String,
    /// Its failure mode.
    pub failure_mode: FailureModeKind,
}

/// An external sub-pipeline injection.
#[derive(Debug, Clone)]
pub struct SubItem {
    /// Names of the output columns taken from the sub-pipeline.
    pub outputs: Vec<String>,
}

/// An ordered pipeline item.
#[derive(Debug, Clone)]
pub enum OrderedItem {
    Node(NodeItemMeta),
    Nested(NestedPipelineItem),
    Sub(SubItem),
}

/// A group of items after the fusion pass; each holds positions in the item list.
#[derive(Debug, Clone, PartialEq, Eq)]
pub enum FusionGroup {
    /// One node, emitted on its own.
    Single(usize),
    /// Two or more nodes forming a linear chain, emitted as one loop.
    Fused(Vec<usize>),
    /// A nested pipeline.
    Nested(usize),
    /// A sub-pipeline.
    Sub(usize),
}

/// The node may take part in a fused chain: pure, without failure sigil, defined by a
/// row-mode call whose closure has exactly one untyped argument and no `bool` return.
pub open spec fn row_fusable(m: NodeItemMeta) -> bool {
    &&& m.pure
    &&& m.failure_override == NodeFailureOverride::Propagate
    &&& m.call matches Some(c)
    &&& c.mode == AccessMode::Row
    &&& !c.bool_return
    &&& c.typed_args@.len() == 1
    &&& !c.typed_args@[0]
}

/// `consumer` reads its primary input from `producer`.
pub open spec fn links(producer: NodeItemMeta, consumer: NodeItemMeta) -> bool {
    consumer.receiver_ident matches Some(r) && r@ == producer.name@
}

/// The number of node items whose primary receiver is `name`.
pub open spec fn fanout(items: Seq<OrderedItem>, name: Seq<char>) -> nat
    decreases items.len(),
{
    if items.len() == 0 {
        0
    } else {
        fanout(items.drop_last(), name) + if items.last() matches OrderedItem::Node(m) && (
        m.receiver_ident matches Some(r) && r@ == name) {
            1nat
        } else {
            0nat
        }
    }
}

/// Item `k` continues the chain ending at item `k - 1`: both are fusable nodes, item
/// `k` reads from item `k - 1`, and nothing else reads from item `k - 1`.
pub open spec fn joined(items: Seq<OrderedItem>, k: int) -> bool {
    &&& 1 <= k < items.len()
    &&& items[k - 1] matches OrderedItem::Node(p)
    &&& items[k] matches OrderedItem::Node(c)
    &&& row_fusable(p)
    &&& row_fusable(c)
    &&& links(p, c)
    &&& fanout(items, p.name@) == 1
}

/// The item positions a group covers, in order.
pub open spec fn group_positions(g: FusionGroup) -> Seq<usize> {
    match g {
        FusionGroup::Single(i) => seq![i],
        FusionGroup::Fused(v) => v@,
        FusionGroup::Nested(i) => seq![i],
        FusionGroup::Sub(i) => seq![i],
    }
}

/// The positions of all groups, one after the other.
pub open spec fn flat_positions(gs: Seq<FusionGroup>) -> Seq<usize>
    decreases gs.len(),
{
    if gs.len() == 0 {
        Seq::empty()
    } else {
        flat_positions(gs.drop_last()) + group_positions(gs.last())
    }
}

/// `s` lists the positions `0, 1, ..., n - 1`.
pub open spec fn counts_up(s: Seq<usize>, n: int) -> bool {
    s.len() == n && forall|p: int| 0 <= p < n ==> #[trigger] s[p] == p
}

/// A group is one maximal run of joined items: it starts where the previous item does
/// not continue into it, and each later position continues the run.
pub open spec fn maximal_run(items: Seq<OrderedItem>, g: FusionGroup) -> bool {
    let v = group_positions(g);
    &&& v.len() >= 1
    &&& !joined(items, v[0] as int)
    &&& forall|t: int| 1 <= t < v.len() ==> joined(items, #[trigger] v[t] as int)
}

/// A group's variant matches the items it covers.
pub open spec fn group_kind_fits(items: Seq<OrderedItem>, g: FusionGroup) -> bool {
    match g {
        FusionGroup::Single(i) => i < items.len() && items[i as int] is Node,
        FusionGroup::Fused(v) => v@.len() >= 2,
        FusionGroup::Nested(i) => i < items.len() && items[i as int] is Nested,
        FusionGroup::Sub(i) => i < items.len() && items[i as int] is Sub,
    }
}

/// `groups` is the fusion plan of `items`: the groups cover every position once and in
/// order, each group is one maximal run of joined items, and each group's variant fits.
pub open spec fn fusion_plan(items: Seq<OrderedItem>, groups: Seq<FusionGroup>) -> bool {
    &&& counts_up(flat_positions(groups), items.len() as int)
    &&& forall|g: int|
        0 <= g < groups.len() ==> maximal_run(items, #[trigger] groups[g]) && group_kind_fits(
            items,
            groups[g],
        )
}

/// The failure mode named by a `settings { failure: <Mode> }` keyword: `Soft`, `Hard` or
/// `Isolate`; `None` for any other word.
pub fn failure_mode_from_keyword(kw: &str) -> (r: Option<FailureModeKind>)
    ensures
        r == if kw@ == "Soft"@ {
            Some(FailureModeKind::Soft)
        } else if kw@ == "Hard"@ {
            Some(FailureModeKind::Hard)
        } else if kw@ == "Isolate"@ {
            Some(FailureModeKind::Isolate)
        } else {
            None
        },
{
    let k = kw.to_owned();
    if k == "Soft".to_owned() {
        Some(FailureModeKind::Soft)
    } else if k == "Hard".to_owned() {
        Some(FailureModeKind::Hard)
    } else if k == "Isolate".to_owned() {
        Some(FailureModeKind::Isolate)
    } else {
        None
    }
}

/// The failure override of a node from its trailing sigil: `?` (soft) takes precedence,
/// then `!` (hard); without a sigil a panic propagates.
pub fn failure_override_from_sigil(question_mark: bool, exclamation_mark: bool) -> (r: NodeFailureOverride)
    ensures
        r == if question_mark {
            NodeFailureOverride::Soft
        } else if exclamation_mark {
            NodeFailureOverride::Hard
        } else {
            NodeFailureOverride::Propagate
        },
{
    if question_mark {
        NodeFailureOverride::Soft
    } else if exclamation_mark {
        NodeFailureOverride::Hard
    } else {
        NodeFailureOverride::Propagate
    }
}

/// Returns `true` iff `meta` can take part in a fused chain.
pub fn is_row_fusable(meta: &NodeItemMeta) -> (r: bool)
    ensures
        r == row_fusable(*meta),
{
    if !meta.pure {
        return false;
    }
    match meta.failure_override {
        NodeFailureOverride::Propagate => {},
        _ => {
            return false;
        },
    }
    match &meta.call {
        None => false,
        Some(c) => {
            match c.mode {
                AccessMode::Col => false,
                AccessMode::Row => !c.bool_return && c.typed_args.len() == 1 && !c.typed_args[0],
            }
        },
    }
}

/// Returns `true` iff `consumer` reads its primary input from `producer`.
pub fn chains_from(producer: &NodeItemMeta, consumer: &NodeItemMeta) -> (r: bool)
    ensures
        r == links(*producer, *consumer),
{
    match &consumer.receiver_ident {
        Some(r) => *r == producer.name,
        None => false,
    }
}

/// Counts the node items whose primary receiver is `name`.
pub fn fanout_of(items: &[OrderedItem], name: &String) -> (c: usize)
    ensures
        c == fanout(items@, name@),
{
    let mut c: usize = 0;
    let mut k: usize = 0;
    while k < items.len()
        invariant
            k <= items@.len(),
            c == fanout(items@.take(k as int), name@),
            c <= k,
        decreases items@.len() - k,
    {
        assert(items@.take(k + 1).drop_last() =~= items@.take(k as int));
        match &items[k] {
            OrderedItem::Node(m) => {
                match &m.receiver_ident {
                    Some(r) => {
                        if *r == *name {
                            c = c + 1;
                        }
                    },
                    None => {},
                }
            },
            _ => {},
        }
        k = k + 1;
    }
    assert(items@.take(k as int) =~= items@);
    c
}

/// Moves the running chain into `groups`: nothing for an empty chain, a `Single`
/// group for one node, a `Fused` group for more.
fn flush_chain(groups: &mut Vec<FusionGroup>, chain: &mut Vec<usize>, Ghost(items): Ghost<
    Seq<OrderedItem>,
>)
    requires
        forall|t: int| 0 <= t < old(chain)@.len() ==> (#[trigger] old(chain)@[t]) < items.len(),
        forall|t: int|
            0 <= t < old(chain)@.len() ==> items[(#[trigger] old(chain)@[t]) as int] is Node,
        old(chain)@.len() > 0 ==> !joined(items, old(chain)@[0] as int),
        forall|t: int| 1 <= t < old(chain)@.len() ==> joined(items, #[trigger] old(chain)@[t] as int),
    ensures
        final(chain)@.len() == 0,
        flat_positions(final(groups)@) == flat_positions(old(groups)@) + old(chain)@,
        final(groups)@.len() >= old(groups)@.len(),
        forall|g: int|
            0 <= g < old(groups)@.len() ==> #[trigger] final(groups)@[g] == old(groups)@[g],
        forall|g: int|
            old(groups)@.len() <= g < final(groups)@.len() ==> maximal_run(
                items,
                #[trigger] final(groups)@[g],
            ) && group_kind_fits(items, final(groups)@[g]),
{
    let n = chain.len();
    if n == 0 {
        assert(flat_positions(groups@) + chain@ =~= flat_positions(groups@));
    } else if n == 1 {
        let i = chain[0];
        let ghost before = groups@;
        groups.push(FusionGroup::Single(i));
        assert(groups@.drop_last() =~= before);
        assert(group_positions(FusionGroup::Single(i)) =~= chain@);
        chain.clear();
    } else {
        let mut taken: Vec<usize> = Vec::new();
        std::mem::swap(&mut taken, chain);
        let ghost before = groups@;
        groups.push(FusionGroup::Fused(taken));
        assert(groups@.drop_last() =~= before);
    }
}

/// Groups `ordered` items for code generation.
///
/// Items are taken in order. A node extends the running chain when it is fusable, reads
/// from the chain's last node, and that node has exactly one reader. A chain break
/// emits the running chain (`Single` for one node, `Fused` for more); a nested or sub
/// pipeline always breaks the chain and becomes a group of its own.
pub fn group_fusable(ordered: &[OrderedItem]) -> (groups: Vec<FusionGroup>)
    ensures
        fusion_plan(ordered@, groups@),
{
    let ghost items = ordered@;
    let mut groups: Vec<FusionGroup> = Vec::new();
    let mut chain: Vec<usize> = Vec::new();
    let mut k: usize = 0;
    while k < ordered.len()
        invariant
            items == ordered@,
            k <= items.len(),
            counts_up(flat_positions(groups@) + chain@, k as int),
            forall|g: int|
                0 <= g < groups@.len() ==> maximal_run(items, #[trigger] groups@[g])
                    && group_kind_fits(items, groups@[g]),
            forall|t: int| 0 <= t < chain@.len() ==> (#[trigger] chain@[t]) < items.len(),
            forall|t: int|
                0 <= t < chain@.len() ==> (items[(#[trigger] chain@[t]) as int] matches OrderedItem::Node(m)
                    && row_fusable(m)),
            chain@.len() > 0 ==> !joined(items, chain@[0] as int),
            forall|t: int| 1 <= t < chain@.len() ==> joined(items, #[trigger] chain@[t] as int),
            k > 0 && chain@.len() == 0 ==> !(items[k - 1] matches OrderedItem::Node(p) && row_fusable(
                p,
            )),
        decreases items.len() - k,
    {
        let ghost flat_before = flat_positions(groups@) + chain@;
        match &ordered[k] {
            OrderedItem::Node(meta) => {
                let fusable = is_row_fusable(meta);
                let mut can_extend = false;
                if fusable && chain.len() > 0 {
                    let last = chain[chain.len() - 1];
                    assert(flat_before[k - 1] == k - 1);
                    assert(flat_before[flat_before.len() - 1] == chain@[chain@.len() - 1]);
                    match &ordered[last] {
                        OrderedItem::Node(prev) => {
                            can_extend = chains_from(prev, meta) && fanout_of(ordered, &prev.name)
                                == 1;
                        },
                        _ => {},
                    }
                }
                assert(items[k as int] == OrderedItem::Node(*meta));
                assert(can_extend == joined(items, k as int));
                if can_extend {
                    chain.push(k);
                    assert(flat_positions(groups@) + chain@ =~= flat_before.push(k));
                } else {
                    flush_chain(&mut groups, &mut chain, Ghost(items));
                    if fusable {
                        chain.push(k);
                        assert(flat_positions(groups@) + chain@ =~= flat_before.push(k));
                    } else {
                        let ghost before = groups@;
                        groups.push(FusionGroup::Single(k));
                        assert(groups@.drop_last() =~= before);
                        assert(flat_positions(groups@) + chain@ =~= flat_before.push(k));
                    }
                }
            },
            OrderedItem::Nested(_) => {
                flush_chain(&mut groups, &mut chain, Ghost(items));
                let ghost before = groups@;
                groups.push(FusionGroup::Nested(k));
                assert(groups@.drop_last() =~= before);
                assert(flat_positions(groups@) + chain@ =~= flat_before.push(k));
            },
            OrderedItem::Sub(_) => {
                flush_chain(&mut groups, &mut chain, Ghost(items));
                let ghost before = groups@;
                groups.push(FusionGroup::Sub(k));
                assert(groups@.drop_last() =~= before);
                assert(flat_positions(groups@) + chain@ =~= flat_before.push(k));
            },
        }
        k = k + 1;
    }
    flush_chain(&mut groups, &mut chain, Ghost(items));
    assert(flat_positions(groups@) =~= flat_positions(groups@) + chain@);
    groups
}

/// The positions of the first `m` groups are a prefix of the positions of all groups.
proof fn lemma_flat_prefix(gs: Seq<FusionGroup>, m: int)
    requires
        0 <= m <= gs.len(),
    ensures
        flat_positions(gs.take(m)).len() <= flat_positions(gs).len(),
        flat_positions(gs) == flat_positions(gs.take(m)) + flat_positions(gs).skip(
            flat_positions(gs.take(m)).len() as int,
        ),
    decreases gs.len() - m,
{
    if m == gs.len() {
        assert(gs.take(m) =~= gs);
    } else {
        lemma_flat_prefix(gs, m + 1);
        assert(gs.take(m + 1).drop_last() =~= gs.take(m));
        let a = flat_positions(gs.take(m));
        let b = flat_positions(gs.take(m + 1));
        assert(b == a + group_positions(gs[m]));
        assert(flat_positions(gs) =~= a + flat_positions(gs).skip(a.len() as int));
    }
}

/// Law: in a fusion plan, every fused group covers neighbouring positions, and each of
/// its nodes after the first is a fusable node that reads from the node just before it,
/// which is a fusable node read by no other node.
pub proof fn law_fused_chain_linear(items: Seq<OrderedItem>, gs: Seq<FusionGroup>, g: int, t: int)
    requires
        fusion_plan(items, gs),
        0 <= g < gs.len(),
        gs[g] is Fused,
        1 <= t < group_positions(gs[g]).len(),
    ensures
        group_positions(gs[g])[t] == group_positions(gs[g])[t - 1] + 1,
        items[group_positions(gs[g])[t - 1] as int] matches OrderedItem::Node(p) && items[group_positions(
            gs[g],
        )[t] as int] matches OrderedItem::Node(c) && row_fusable(p) && row_fusable(c) && links(p, c)
            && fanout(items, p.name@) == 1,
{
    let v = group_positions(gs[g]);
    lemma_flat_prefix(gs, g);
    lemma_flat_prefix(gs, g + 1);
    assert(gs.take(g + 1).drop_last() =~= gs.take(g));
    let off = flat_positions(gs.take(g)).len() as int;
    let all = flat_positions(gs);
    assert(flat_positions(gs.take(g + 1)) == flat_positions(gs.take(g)) + v);
    assert(all[off + t] == v[t]);
    assert(all[off + t - 1] == v[t - 1]);
    assert(maximal_run(items, gs[g]));
    assert(joined(items, v[t] as int));
}

/// Item `it` is a node whose primary receiver is `name`.
pub open spec fn reads_from(it: OrderedItem, name: Seq<char>) -> bool {
    it matches OrderedItem::Node(m) && (m.receiver_ident matches Some(r) && r@ == name)
}

/// Law: an empty item list has no reader of any name.
pub proof fn law_fanout_empty(name: Seq<char>)
    ensures
        fanout(Seq::<OrderedItem>::empty(), name) == 0,
{
}

/// Law: appending a node whose primary receiver is `name` adds one reader of `name`,
/// whatever the node's access mode, purity or failure sigil; appending any other item
/// (a node reading something else or nothing, a nested pipeline, a sub-pipeline) leaves
/// the count unchanged.
pub proof fn law_fanout_push(items: Seq<OrderedItem>, m: NodeItemMeta, other: OrderedItem, name: Seq<char>)
    ensures
        (m.receiver_ident matches Some(r) && r@ == name) ==> fanout(items.push(OrderedItem::Node(m)), name)
            == fanout(items, name) + 1,
        !(m.receiver_ident matches Some(r) && r@ == name) ==> fanout(items.push(OrderedItem::Node(m)), name)
            == fanout(items, name),
        !(other is Node) ==> fanout(items.push(other), name) == fanout(items, name),
{
    assert(items.push(OrderedItem::Node(m)).drop_last() =~= items);
    assert(items.push(other).drop_last() =~= items);
}

/// The count over the first `j + 1` items is the count over the first `j` plus one
/// exactly when item `j` reads from `name`.
proof fn lemma_fanout_step(items: Seq<OrderedItem>, name: Seq<char>, j: int)
    requires
        0 <= j < items.len(),
    ensures
        fanout(items.take(j + 1), name) == fanout(items.take(j), name) + if reads_from(items[j], name) {
            1nat
        } else {
            0nat
        },
{
    assert(items.take(j + 1).drop_last() =~= items.take(j));
    assert(items.take(j + 1).last() == items[j]);
}

/// The count over a prefix never exceeds the count over a longer prefix.
proof fn lemma_fanout_prefix_mono(items: Seq<OrderedItem>, name: Seq<char>, a: int, b: int)
    requires
        0 <= a <= b <= items.len(),
    ensures
        fanout(items.take(a), name) <= fanout(items.take(b), name),
    decreases b - a,
{
    if a < b {
        lemma_fanout_prefix_mono(items, name, a, b - 1);
        lemma_fanout_step(items, name, b - 1);
    }
}

/// Law: the reader count of `name` is the number of items that are nodes reading from
/// `name`: it is the length of the list of those items.
pub proof fn law_fanout_counts_readers(items: Seq<OrderedItem>, name: Seq<char>)
    ensures
        fanout(items, name) == items.filter(|it: OrderedItem| reads_from(it, name)).len(),
    decreases items.len(),
{
    if items.len() > 0 {
        law_fanout_counts_readers(items.drop_last(), name);
        reveal_with_fuel(Seq::filter, 1);
    }
}

/// Law: a name read by two different node items, whatever their access modes, has at
/// least two readers.
pub proof fn law_fanout_two_readers(items: Seq<OrderedItem>, name: Seq<char>, j1: int, j2: int)
    requires
        0 <= j1 < items.len(),
        0 <= j2 < items.len(),
        j1 != j2,
        reads_from(items[j1], name),
        reads_from(items[j2], name),
    ensures
        fanout(items, name) >= 2,
{
    let (a, b) = if j1 < j2 { (j1, j2) } else { (j2, j1) };
    lemma_fanout_step(items, name, a);
    lemma_fanout_prefix_mono(items, name, a + 1, b);
    lemma_fanout_step(items, name, b);
    lemma_fanout_prefix_mono(items, name, b + 1, items.len() as int);
    assert(items.take(items.len() as int) =~= items);
}

/// Law: a node that two node items read from (in any access mode) never continues into
/// the item after it: no fused chain runs through a shared producer.
pub proof fn law_shared_producer_not_joined(items: Seq<OrderedItem>, k: int, j1: int, j2: int)
    requires
        1 <= k < items.len(),
        items[k - 1] is Node,
        0 <= j1 < items.len(),
        0 <= j2 < items.len(),
        j1 != j2,
        reads_from(items[j1], items[k - 1]->Node_0.name@),
        reads_from(items[j2], items[k - 1]->Node_0.name@),
    ensures
        !joined(items, k),
{
    law_fanout_two_readers(items, items[k - 1]->Node_0.name@, j1, j2);
}

/// Law: in a fusion plan, a node followed by another node of its fused group is read by
/// exactly one node item (in any access mode): any two of its readers are the same item.
pub proof fn law_fused_producer_has_one_reader(items: Seq<OrderedItem>, gs: Seq<FusionGroup>, g: int, t: int)
    requires
        fusion_plan(items, gs),
        0 <= g < gs.len(),
        gs[g] is Fused,
        1 <= t < group_positions(gs[g]).len(),
    ensures
        items[group_positions(gs[g])[t - 1] as int] is Node,
        forall|j1: int, j2: int|
            0 <= j1 < items.len() && 0 <= j2 < items.len() && #[trigger] reads_from(
                items[j1],
                items[group_positions(gs[g])[t - 1] as int]->Node_0.name@,
            ) && #[trigger] reads_from(items[j2], items[group_positions(gs[g])[t - 1] as int]->Node_0.name@)
                ==> j1 == j2,
{
    law_fused_chain_linear(items, gs, g, t);
    let name = items[group_positions(gs[g])[t - 1] as int]->Node_0.name@;
    assert forall|j1: int, j2: int|
        0 <= j1 < items.len() && 0 <= j2 < items.len() && #[trigger] reads_from(items[j1], name)
            && #[trigger] reads_from(items[j2], name) implies j1 == j2 by {
        if j1 != j2 {
            law_fanout_two_readers(items, name, j1, j2);
        }
    }
}

} // verus!
