//! DAG topology: node identifiers, row-index mappings, and dirty-range propagation.

use std::collections::VecDeque;
use std::ops::Range;
use vstd::prelude::*;

verus! {

/// Opaque identifier for a node in the computation [`Graph`]: a dense index.
#[derive(Debug, Clone, Copy, PartialEq, Eq, Hash, PartialOrd, Ord)]
pub struct NodeId(u32);

impl View for NodeId {
    type V = int;

    /// The identifier's position as a mathematical integer.
    closed spec fn view(&self) -> int {
        self.0 as int
    }
}

impl NodeId {
    /// The index of an identifier fits in 32 bits.
    pub proof fn lemma_view_bounds(self)
        ensures
            0 <= self@ <= u32::MAX,
    {
    }

    /// Two identifiers are equal exactly when their indices are.
    pub proof fn lemma_view_injective(self, other: NodeId)
        ensures
            (self@ == other@) == (self == other),
    {
    }

    /// Returns the `NodeId` as a `usize` for slice indexing.
    pub fn index(self) -> (r: usize)
        ensures
            r as int == self@,
    {
        self.0 as usize
    }
}

/// Describes how a node's output row indices depend on its input row indices.
#[derive(Debug, Clone, PartialEq, Eq)]
pub enum IndexMapping {
    /// Output row `i` depends only on input row `i`.
    Pointwise,
    /// Output row `i` depends on input rows `[i - half, i + half]`.
    LocalWindow { half: usize },
    /// Many-to-many mapping: any dirty input row makes the whole output dirty.
    Scatter,
    /// Layout reinterpretation: any dirty input row makes the whole output dirty.
    Reshape,
}

/// A row range `start..end` read as a pair of integers.
pub open spec fn range_view(r: Range<usize>) -> (int, int) {
    (r.start as int, r.end as int)
}

/// The output row range that a mapping gives for a dirty input range.
pub open spec fn mapped_range(m: IndexMapping, r: (int, int)) -> (int, int) {
    match m {
        IndexMapping::Pointwise => r,
        IndexMapping::LocalWindow { half } => (
            if r.0 - half < 0 { 0 } else { r.0 - half },
            if r.1 + half > usize::MAX { usize::MAX as int } else { r.1 + half },
        ),
        IndexMapping::Scatter => (0, usize::MAX as int),
        IndexMapping::Reshape => (0, usize::MAX as int),
    }
}

impl IndexMapping {
    /// Maps a dirty row range on the input to the corresponding output row range.
    pub fn map_range(&self, input: Range<usize>) -> (r: Range<usize>)
        ensures
            range_view(r) == mapped_range(*self, range_view(input)),
    {
        match self {
            IndexMapping::Pointwise => input,
            IndexMapping::LocalWindow { half } => {
                let start = input.start.saturating_sub(*half);
                let end = input.end.saturating_add(*half);
                start..end
            },
            IndexMapping::Scatter => 0..usize::MAX,
            IndexMapping::Reshape => 0..usize::MAX,
        }
    }

    /// `true` for mappings where any dirty input makes the whole output dirty.
    pub fn is_blocking(&self) -> (r: bool)
        ensures
            r == (*self is Scatter || *self is Reshape),
    {
        match self {
            IndexMapping::Scatter | IndexMapping::Reshape => true,
            _ => false,
        }
    }
}

/// An optional row range read as an optional pair of integers.
pub open spec fn opt_range_view(o: Option<Range<usize>>) -> Option<(int, int)> {
    match o {
        Some(r) => Some(range_view(r)),
        None => None,
    }
}

/// The union hull of two optional row ranges: the smallest start and the largest end.
pub open spec fn merge_ranges(a: Option<(int, int)>, b: Option<(int, int)>) -> Option<(int, int)> {
    match a {
        None => b,
        Some(x) => match b {
            None => a,
            Some(y) => Some(
                (if x.0 <= y.0 { x.0 } else { y.0 }, if x.1 >= y.1 { x.1 } else { y.1 }),
            ),
        },
    }
}

/// The dirty range of node `v` when rows `r` of node `src` change: `r` itself for `src`,
/// and for every other node the union hull of its dirty producers' ranges, each
/// mapped through `v`'s own mapping; `None` for nodes that `src` does not reach.
pub open spec fn dirty_range(nodes: Seq<NodeDescriptor>, src: int, r: (int, int), v: int) -> Option<
    (int, int),
>
    decreases v, nodes[v].inputs@.len() + 1,
{
    if v == src {
        Some(r)
    } else if v < 0 || v < src || v >= nodes.len() {
        None
    } else {
        gather_inputs(nodes, src, r, v, nodes[v].inputs@.len() as int, v)
    }
}

/// The union hull, over the first `k` inputs of node `v` whose index is below `lim`,
/// of their dirty ranges mapped through `v`'s mapping.
pub open spec fn gather_inputs(
    nodes: Seq<NodeDescriptor>,
    src: int,
    r: (int, int),
    v: int,
    k: int,
    lim: int,
) -> Option<(int, int)>
    decreases v, k,
{
    if k <= 0 || v < 0 || v >= nodes.len() || k > nodes[v].inputs@.len() {
        None
    } else {
        let u = nodes[v].inputs@[k - 1]@;
        let prev = gather_inputs(nodes, src, r, v, k - 1, lim);
        if 0 <= u < lim && u < v {
            match dirty_range(nodes, src, r, u) {
                Some(ru) => merge_ranges(prev, Some(mapped_range(nodes[v].mapping, ru))),
                None => prev,
            }
        } else {
            prev
        }
    }
}

/// Number of nodes that carry a range.
pub open spec fn count_some(s: Seq<Option<(int, int)>>) -> nat
    decreases s.len(),
{
    if s.len() == 0 {
        0
    } else {
        count_some(s.drop_last()) + if s.last() is Some { 1nat } else { 0nat }
    }
}

/// The dirty row range of every node reached by a change, indexed by node.
#[derive(Debug)]
pub struct DirtyRanges {
    ranges: Vec<Option<Range<usize>>>,
}

impl View for DirtyRanges {
    type V = Seq<Option<(int, int)>>;

    closed spec fn view(&self) -> Seq<Option<(int, int)>> {
        self.ranges@.map_values(|o: Option<Range<usize>>| opt_range_view(o))
    }
}

impl DirtyRanges {
    /// The row range recorded for `id`, if `id` was reached.
    pub fn get(&self, id: NodeId) -> (r: Option<Range<usize>>)
        ensures
            opt_range_view(r) == if id@ < self@.len() { self@[id@] } else { None },
    {
        let i = id.index();
        if i < self.ranges.len() {
            match &self.ranges[i] {
                Some(x) => Some(x.start..x.end),
                None => None,
            }
        } else {
            None
        }
    }

    /// The row range recorded for the node at index `i`, if it was reached.
    pub fn range_at(&self, i: usize) -> (r: Option<Range<usize>>)
        ensures
            opt_range_view(r) == if i < self@.len() { self@[i as int] } else { None },
    {
        if i < self.ranges.len() {
            match &self.ranges[i] {
                Some(x) => Some(x.start..x.end),
                None => None,
            }
        } else {
            None
        }
    }

    /// `true` if `id` was reached.
    pub fn contains_key(&self, id: NodeId) -> (r: bool)
        ensures
            r == (id@ < self@.len() && self@[id@] is Some),
    {
        let i = id.index();
        i < self.ranges.len() && self.ranges[i].is_some()
    }

    /// Number of nodes reached.
    pub fn len(&self) -> (r: usize)
        ensures
            r == count_some(self@),
    {
        let mut count: usize = 0;
        let mut i: usize = 0;
        while i < self.ranges.len()
            invariant
                0 <= i <= self.ranges@.len(),
                count == count_some(self@.take(i as int)),
                count <= i,
            decreases self.ranges@.len() - i,
        {
            assert(self@.take(i as int + 1).drop_last() =~= self@.take(i as int));
            if self.ranges[i].is_some() {
                count = count + 1;
            }
            i = i + 1;
        }
        assert(self@.take(i as int) =~= self@);
        count
    }

    /// `true` if no node was reached.
    pub fn is_empty(&self) -> (r: bool)
        ensures
            r == (count_some(self@) == 0),
    {
        self.len() == 0
    }
}

/// Merges a mapped range into an optional accumulated range.
fn merge_into(cur: &Option<Range<usize>>, m: &Range<usize>) -> (r: Option<Range<usize>>)
    ensures
        opt_range_view(r) == merge_ranges(opt_range_view(*cur), Some(range_view(*m))),
{
    match cur {
        None => Some(m.start..m.end),
        Some(existing) => {
            let new_start = if existing.start <= m.start { existing.start } else { m.start };
            let new_end = if existing.end >= m.end { existing.end } else { m.end };
            Some(new_start..new_end)
        },
    }
}

/// Static metadata for one node in the [`Graph`].
#[derive(Debug, Clone)]
pub struct NodeDescriptor {
    /// Unique identifier for this node.
    pub id: NodeId,
    /// Human-readable name.
    pub name: &'static str,
    /// Ordered list of producer nodes this node reads from.
    pub inputs: Vec<NodeId>,
    /// How this node's output rows relate to its input rows.
    pub mapping: IndexMapping,
}

/// Number of entries of `s` that identify node `v`.
pub open spec fn count_id(s: Seq<NodeId>, v: int) -> nat
    decreases s.len(),
{
    if s.len() == 0 {
        0
    } else {
        count_id(s.drop_last(), v) + if s.last()@ == v { 1nat } else { 0nat }
    }
}

/// The consumer list of node `i` among the first `upto` nodes: every node `j` that
/// reads `i`, in increasing order of `j`, once per occurrence of `i` among `j`'s inputs.
pub open spec fn consumers_upto(nodes: Seq<NodeDescriptor>, i: int, upto: int) -> Seq<NodeId>
    decreases upto,
{
    if upto <= 0 {
        Seq::empty()
    } else {
        consumers_upto(nodes, i, upto - 1) + Seq::new(
            count_id(nodes[upto - 1].inputs@, i),
            |_k: int| nodes[upto - 1].id,
        )
    }
}

/// A directed acyclic computation graph whose node identifiers are dense indices.
#[derive(Debug)]
pub struct Graph {
    nodes: Vec<NodeDescriptor>,
    /// `consumers[i]` = IDs of nodes that list node `i` as an input.
    consumers: Vec<Vec<NodeId>>,
}

impl Graph {
    /// The nodes of the graph, in identifier order.
    pub closed spec fn spec_nodes(&self) -> Seq<NodeDescriptor> {
        self.nodes@
    }

    /// The inputs of node `i`.
    pub open spec fn inputs_of(&self, i: int) -> Seq<NodeId> {
        self.spec_nodes()[i].inputs@
    }

    /// Well-formedness: dense identifiers, every input precedes its consumer
    /// (so the graph is acyclic), and the consumer lists mirror the input lists.
    pub closed spec fn wf(&self) -> bool {
        &&& self.consumers@.len() == self.nodes@.len()
        &&& self.nodes@.len() <= u32::MAX as int + 1
        &&& forall|i: int| 0 <= i < self.nodes@.len() ==> (#[trigger] self.nodes@[i]).id@ == i
        &&& forall|i: int, k: int|
            0 <= i < self.nodes@.len() && 0 <= k < self.nodes@[i].inputs@.len() ==> 0 <= (
            #[trigger] self.nodes@[i].inputs@[k])@ < i
        &&& forall|i: int|
            0 <= i < self.nodes@.len() ==> (#[trigger] self.consumers@[i])@ == consumers_upto(
                self.nodes@,
                i,
                self.nodes@.len() as int,
            )
    }

    /// The consumer list of node `i`.
    pub open spec fn consumers_spec(&self, i: int) -> Seq<NodeId> {
        consumers_upto(self.spec_nodes(), i, self.spec_nodes().len() as int)
    }

    /// Creates an empty graph.
    pub fn new() -> (g: Self)
        ensures
            g.wf(),
            g.spec_nodes().len() == 0,
    {
        Graph { nodes: Vec::new(), consumers: Vec::new() }
    }

    /// Adds a node and returns its freshly allocated [`NodeId`].
    pub fn add_node(&mut self, name: &'static str, inputs: &[NodeId], mapping: IndexMapping) -> (id: NodeId)
        requires
            old(self).wf(),
            old(self).spec_nodes().len() <= u32::MAX,
            forall|k: int| 0 <= k < inputs@.len() ==> (#[trigger] inputs@[k])@ < old(self).spec_nodes().len(),
        ensures
            final(self).wf(),
            id@ == old(self).spec_nodes().len(),
            final(self).spec_nodes() == old(self).spec_nodes().push(
                NodeDescriptor { id, name, inputs: final(self).spec_nodes().last().inputs, mapping },
            ),
            final(self).spec_nodes().last().inputs@ == inputs@,
    {
        let n = self.nodes.len();
        let id = NodeId(n as u32);
        let ghost old_consumers = self.consumers@;
        let mut k: usize = 0;
        while k < inputs.len()
            invariant
                0 <= k <= inputs@.len(),
                n == self.nodes@.len(),
                self.nodes@ == old(self).nodes@,
                id@ == n,
                self.consumers@.len() == n,
                old_consumers == old(self).consumers@,
                forall|j: int| 0 <= j < inputs@.len() ==> (#[trigger] inputs@[j])@ < n,
                forall|i: int|
                    0 <= i < n ==> (#[trigger] self.consumers@[i])@ == old_consumers[i]@ + Seq::new(
                        count_id(inputs@.take(k as int), i),
                        |_k: int| id,
                    ),
            decreases inputs@.len() - k,
        {
            let inp = inputs[k];
            let idx = inp.index();
            self.consumers[idx].push(id);
            proof {
                assert(inputs@.take(k as int + 1).drop_last() =~= inputs@.take(k as int));
                assert forall|i: int| 0 <= i < n implies (#[trigger] self.consumers@[i])@
                    == old_consumers[i]@ + Seq::new(count_id(inputs@.take(k + 1), i), |_k: int| id) by {
                    assert(self.consumers@[i]@ =~= old_consumers[i]@ + Seq::new(
                        count_id(inputs@.take(k + 1), i),
                        |_k: int| id,
                    ));
                }
            }
            k = k + 1;
        }
        self.consumers.push(Vec::new());
        let desc = NodeDescriptor { id, name, inputs: copy_ids(inputs), mapping };
        self.nodes.push(desc);
        proof {
            assert(inputs@.take(inputs@.len() as int) =~= inputs@);
            let nodes = self.nodes@;
            assert forall|i: int| 0 <= i < nodes.len() implies (#[trigger] self.consumers@[i])@
                == consumers_upto(nodes, i, nodes.len() as int) by {
                lemma_consumers_upto_prefix(old(self).nodes@, nodes, i, n as int);
                assert(nodes[n as int].inputs@ == inputs@);
                assert(consumers_upto(nodes, i, n + 1) == consumers_upto(nodes, i, n as int) + Seq::new(
                    count_id(nodes[n as int].inputs@, i),
                    |_k: int| nodes[n as int].id,
                ));
                if i < n {
                    assert(old(self).consumers@[i]@ == consumers_upto(old(self).nodes@, i, n as int));
                    assert(self.consumers@[i]@ == old_consumers[i]@ + Seq::new(
                        count_id(inputs@, i),
                        |_k: int| id,
                    ));
                    assert(nodes[n as int].id == id);
                    assert(consumers_upto(nodes, i, n as int) == old_consumers[i]@);
                    assert(Seq::new(count_id(nodes[n as int].inputs@, i), |_k: int| nodes[n as int].id)
                        =~= Seq::new(count_id(inputs@, i), |_k: int| id));
                    assert(nodes.len() == n + 1);
                    assert(self.consumers@[i]@ == consumers_upto(nodes, i, n + 1));
                } else {
                    lemma_count_id_bound(inputs@, i);
                    lemma_consumers_upto_none(nodes, i, n as int);
                    assert(self.consumers@[i]@ =~= consumers_upto(nodes, i, nodes.len() as int));
                }
            }
        }
        id
    }

    /// In a well-formed graph the node at position `i` has the identifier with index `i`.
    pub proof fn lemma_ids_dense(&self, i: int)
        requires
            self.wf(),
            0 <= i < self.spec_nodes().len(),
        ensures
            self.spec_nodes()[i].id@ == i,
    {
    }

    /// Every input of node `i` is an earlier node.
    pub proof fn lemma_inputs_in_range(&self, i: int)
        requires
            self.wf(),
            0 <= i < self.spec_nodes().len(),
        ensures
            forall|k: int| 0 <= k < self.inputs_of(i).len() ==> 0 <= (#[trigger] self.inputs_of(i)[k])@ < i,
    {
    }

    /// Returns the number of nodes in the graph.
    pub fn len(&self) -> (r: usize)
        ensures
            r == self.spec_nodes().len(),
    {
        self.nodes.len()
    }

    /// Returns `true` if the graph has no nodes.
    pub fn is_empty(&self) -> (r: bool)
        ensures
            r == (self.spec_nodes().len() == 0),
    {
        self.nodes.len() == 0
    }

    /// Returns the [`NodeDescriptor`] for `id`.
    pub fn node(&self, id: NodeId) -> (d: &NodeDescriptor)
        requires
            id@ < self.spec_nodes().len(),
        ensures
            *d == self.spec_nodes()[id@],
    {
        &self.nodes[id.index()]
    }

    /// Returns the IDs of every node that directly consumes `id`'s output, in
    /// increasing order, once per occurrence of `id` among the consumer's inputs.
    pub fn consumers_of(&self, id: NodeId) -> (c: &[NodeId])
        requires
            self.wf(),
            id@ < self.spec_nodes().len(),
        ensures
            c@ == self.consumers_spec(id@),
    {
        self.consumers[id.index()].as_slice()
    }

    /// Returns all nodes in a valid topological order: every node occurs exactly
    /// once, and every producer occurs before each of its consumers.
    /// Uses Kahn's algorithm (breadth-first on in-degrees).
    pub fn topological_order(&self) -> (order: Vec<NodeId>)
        requires
            self.wf(),
        ensures
            order@.len() == self.spec_nodes().len(),
            order@.no_duplicates(),
            forall|q: int| 0 <= q < order@.len() ==> 0 <= (#[trigger] order@[q])@ < order@.len(),
            forall|i: int| 0 <= i < self.spec_nodes().len() ==> order@.contains(#[trigger] self.spec_nodes()[i].id),
            forall|q: int, k: int|
                0 <= q < order@.len() && 0 <= k < self.inputs_of(order@[q]@).len()
                    ==> #[trigger] order@.take(q).contains(self.inputs_of(order@[q]@)[k]),
    {
        let n = self.nodes.len();
        let ghost nodes = self.nodes@;
        let mut in_degree: Vec<usize> = Vec::new();
        let mut i: usize = 0;
        while i < n
            invariant
                0 <= i <= n,
                n == nodes.len(),
                nodes == self.nodes@,
                in_degree@.len() == i,
                forall|v: int| 0 <= v < i ==> #[trigger] in_degree@[v] == nodes[v].inputs@.len(),
            decreases n - i,
        {
            in_degree.push(self.nodes[i].inputs.len());
            i = i + 1;
        }
        let ghost empty_done = Seq::<NodeId>::empty();
        proof {
            assert forall|v: int| 0 <= v < n implies #[trigger] in_degree@[v] == count_pending(
                nodes[v].inputs@,
                empty_done,
            ) by {
                lemma_pending_nothing_done(nodes[v].inputs@);
            }
        }
        let mut queue: VecDeque<NodeId> = VecDeque::new();
        let mut i: usize = 0;
        while i < n
            invariant
                0 <= i <= n,
                n == nodes.len(),
                nodes == self.nodes@,
                self.wf(),
                in_degree@.len() == n,
                forall|v: int| 0 <= v < n ==> #[trigger] in_degree@[v] == count_pending(
                    nodes[v].inputs@,
                    empty_done,
                ),
                queue@.no_duplicates(),
                forall|q: int| 0 <= q < queue@.len() ==> 0 <= (#[trigger] queue@[q])@ < i,
                forall|q: int| 0 <= q < queue@.len() ==> in_degree@[(#[trigger] queue@[q])@] == 0,
                forall|v: int|
                    0 <= v < i && in_degree@[v] == 0 ==> queue@.contains(#[trigger] nodes[v].id),
            decreases n - i,
        {
            let ghost q_before = queue@;
            if in_degree[i] == 0 {
                queue.push_back(self.nodes[i].id);
                proof {
                    assert forall|a: int, b: int|
                        0 <= a < queue@.len() && 0 <= b < queue@.len() && a != b implies queue@[a]
                        != queue@[b] by {
                        if b == queue@.len() - 1 {
                            assert(queue@[a]@ < i);
                        }
                        if a == queue@.len() - 1 {
                            assert(queue@[b]@ < i);
                        }
                    }
                }
            }
            proof {
                assert forall|v: int|
                    0 <= v < i + 1 && in_degree@[v] == 0 implies queue@.contains(
                    #[trigger] nodes[v].id,
                ) by {
                    if v == i {
                        assert(queue@.last() == nodes[v].id);
                    } else if in_degree@[i as int] == 0 {
                        vstd::seq_lib::lemma_seq_contains_after_push(q_before, nodes[i as int].id, nodes[v].id);
                    }
                }
            }
            i = i + 1;
        }
        let mut order: Vec<NodeId> = Vec::new();
        loop
            invariant
                n == nodes.len(),
                nodes == self.nodes@,
                self.wf(),
                in_degree@.len() == n,
                forall|v: int| 0 <= v < n ==> #[trigger] in_degree@[v] == count_pending(
                    nodes[v].inputs@,
                    order@,
                ),
                order@.no_duplicates(),
                forall|q: int| 0 <= q < order@.len() ==> 0 <= (#[trigger] order@[q])@ < n,
                forall|q: int, k: int|
                    0 <= q < order@.len() && 0 <= k < nodes[order@[q]@].inputs@.len()
                        ==> #[trigger] order@.take(q).contains(nodes[order@[q]@].inputs@[k]),
                queue@.no_duplicates(),
                forall|q: int| 0 <= q < queue@.len() ==> 0 <= (#[trigger] queue@[q])@ < n,
                forall|q: int| 0 <= q < queue@.len() ==> in_degree@[(#[trigger] queue@[q])@] == 0,
                forall|q: int| 0 <= q < queue@.len() ==> !order@.contains(#[trigger] queue@[q]),
                forall|v: int|
                    0 <= v < n && in_degree@[v] == 0 && !order@.contains(nodes[v].id)
                        ==> queue@.contains(#[trigger] nodes[v].id),
            ensures
                queue@.len() == 0,
                in_degree@.len() == n,
                forall|v: int| 0 <= v < n ==> #[trigger] in_degree@[v] == count_pending(
                    nodes[v].inputs@,
                    order@,
                ),
                order@.no_duplicates(),
                forall|q: int| 0 <= q < order@.len() ==> 0 <= (#[trigger] order@[q])@ < n,
                forall|q: int, k: int|
                    0 <= q < order@.len() && 0 <= k < nodes[order@[q]@].inputs@.len()
                        ==> #[trigger] order@.take(q).contains(nodes[order@[q]@].inputs@[k]),
                forall|v: int|
                    0 <= v < n && in_degree@[v] == 0 && !order@.contains(nodes[v].id)
                        ==> queue@.contains(#[trigger] nodes[v].id),
            decreases n - order@.len(),
        {
            let ghost q_before = queue@;
            let front = queue.pop_front();
            let id = match front {
                None => break,
                Some(id) => id,
            };
            let ghost old_order = order@;
            let ghost old_degree = in_degree@;
            proof {
                lemma_pending_zero(nodes[id@].inputs@, old_order);
                lemma_distinct_ids_bound(old_order.push(id), n as int);
            }
            order.push(id);
            proof {
                assert forall|q: int, k: int|
                    0 <= q < order@.len() && 0 <= k < nodes[order@[q]@].inputs@.len()
                        implies #[trigger] order@.take(q).contains(nodes[order@[q]@].inputs@[k]) by {
                    if q < old_order.len() {
                        assert(order@.take(q) =~= old_order.take(q));
                    } else {
                        assert(order@.take(q) =~= old_order);
                    }
                }
            }
            proof {
                assert forall|v: int|
                    0 <= v < n && in_degree@[v] == 0 && !order@.contains(nodes[v].id)
                        implies queue@.contains(#[trigger] nodes[v].id) by {
                    vstd::seq_lib::lemma_seq_contains_after_push(old_order, id, nodes[v].id);
                    assert(q_before.contains(nodes[v].id));
                    let q = choose|q: int| 0 <= q < q_before.len() && q_before[q] == nodes[v].id;
                    assert(q != 0);
                    assert(queue@[q - 1] == nodes[v].id);
                }
                assert forall|q: int| 0 <= q < queue@.len() implies !order@.contains(#[trigger] queue@[q]) by {
                    vstd::seq_lib::lemma_seq_contains_after_push(old_order, id, queue@[q]);
                    assert(queue@[q] == q_before[q + 1]);
                }
            }
            let cons = &self.consumers[id.index()];
            proof {
                lemma_consumer_entries(nodes, id@, n as int);
            }
            let mut j: usize = 0;
            while j < cons.len()
                invariant
                    0 <= j <= cons@.len(),
                    cons@ == consumers_upto(nodes, id@, n as int),
                    n == nodes.len(),
                    nodes == self.nodes@,
                    self.wf(),
                    0 <= id@ < n,
                    order@ == old_order.push(id),
                    !old_order.contains(id),
                    old_degree[id@] == 0,
                    in_degree@.len() == n,
                    forall|v: int| 0 <= v < n ==> #[trigger] old_degree[v] == count_pending(
                        nodes[v].inputs@,
                        old_order,
                    ),
                    forall|v: int| 0 <= v < n ==> #[trigger] in_degree@[v] + count_id(
                        cons@.take(j as int),
                        v,
                    ) == old_degree[v],
                    forall|k: int| 0 <= k < cons@.len() ==> id@ < (#[trigger] cons@[k])@ < n,
                    forall|k: int|
                        0 <= k < cons@.len() ==> count_id(nodes[(#[trigger] cons@[k])@].inputs@, id@)
                            > 0,
                    order@.no_duplicates(),
                    forall|q: int| 0 <= q < order@.len() ==> 0 <= (#[trigger] order@[q])@ < n,
                    forall|q: int, k: int|
                        0 <= q < order@.len() && 0 <= k < nodes[order@[q]@].inputs@.len()
                            ==> #[trigger] order@.take(q).contains(nodes[order@[q]@].inputs@[k]),
                    queue@.no_duplicates(),
                    forall|q: int| 0 <= q < queue@.len() ==> 0 <= (#[trigger] queue@[q])@ < n,
                    forall|q: int| 0 <= q < queue@.len() ==> in_degree@[(#[trigger] queue@[q])@] == 0,
                    forall|q: int| 0 <= q < queue@.len() ==> !order@.contains(#[trigger] queue@[q]),
                    forall|v: int|
                        0 <= v < n && in_degree@[v] == 0 && !order@.contains(nodes[v].id)
                            ==> queue@.contains(#[trigger] nodes[v].id),
                decreases cons@.len() - j,
            {
                let c = cons[j];
                let ci = c.index();
                let ghost q_prev = queue@;
                proof {
                    lemma_count_consumers(nodes, id@, n as int, c@);
                    lemma_count_id_le_pending(nodes[c@].inputs@, old_order, id);
                    lemma_count_id_take_le(cons@, j as int + 1, c@);
                    lemma_count_id_take_step(cons@, j as int);
                }
                in_degree[ci] = in_degree[ci] - 1;
                if in_degree[ci] == 0 {
                    proof {
                        // `c` reads `id`, which was not yet placed, so `c` was not placed either.
                        lemma_count_id_pos(nodes[c@].inputs@, id@);
                        if old_order.contains(c) {
                            let q = choose|q: int| 0 <= q < old_order.len() && old_order[q] == c;
                            let k = choose|k: int|
                                0 <= k < nodes[c@].inputs@.len() && nodes[c@].inputs@[k]@ == id@;
                            assert(nodes[c@].inputs@[k] == id);
                            assert(order@[q] == c);
                            assert(order@.take(q).contains(nodes[order@[q]@].inputs@[k]));
                            assert(old_order.take(q).contains(id));
                            assert(false);
                        }
                        assert(!order@.contains(c));
                        assert(!queue@.contains(c));
                    }
                    queue.push_back(c);
                }
                j = j + 1;
                proof {
                    assert forall|v: int|
                        0 <= v < n && in_degree@[v] == 0 && !order@.contains(nodes[v].id)
                            implies queue@.contains(#[trigger] nodes[v].id) by {
                        if v == c@ {
                            assert(nodes[v].id == c);
                        }
                        if in_degree@[c@] == 0 {
                            vstd::seq_lib::lemma_seq_contains_after_push(q_prev, c, nodes[v].id);
                        }
                    }
                }
            }
            proof {
                assert(cons@.take(cons@.len() as int) =~= cons@);
                assert forall|v: int| 0 <= v < n implies #[trigger] in_degree@[v] == count_pending(
                    nodes[v].inputs@,
                    order@,
                ) by {
                    lemma_count_consumers(nodes, id@, n as int, v);
                    lemma_pending_push(nodes[v].inputs@, old_order, id);
                }
            }
        }
        proof {
            lemma_all_placed(nodes, order@, in_degree@, n as int);
            lemma_distinct_ids_exact(order@, n as int);
            assert forall|q: int, k: int|
                0 <= q < order@.len() && 0 <= k < self.inputs_of(order@[q]@).len()
                    implies #[trigger] order@.take(q).contains(self.inputs_of(order@[q]@)[k]) by {
                assert(order@.take(q).contains(nodes[order@[q]@].inputs@[k]));
            }
        }
        order
    }

    /// Propagates a dirty row range from `source` through the graph.
    ///
    /// Every node reachable from `source` (including `source`) receives the row range
    /// that needs recomputation; a node with several dirty producers receives the union
    /// hull of their mapped ranges.  Blocking mappings yield `0..usize::MAX`.
    pub fn propagate_dirty(&self, source: NodeId, row_range: Range<usize>) -> (dirty: DirtyRanges)
        requires
            self.wf(),
            source@ < self.spec_nodes().len(),
        ensures
            dirty@.len() == self.spec_nodes().len(),
            forall|w: int|
                0 <= w < self.spec_nodes().len() ==> #[trigger] dirty@[w] == dirty_range(
                    self.spec_nodes(),
                    source@,
                    range_view(row_range),
                    w,
                ),
    {
        let n = self.nodes.len();
        let ghost nodes = self.nodes@;
        let src = source.index();
        let ghost r = range_view(row_range);
        let mut d: Vec<Option<Range<usize>>> = Vec::new();
        let mut i: usize = 0;
        while i < n
            invariant
                0 <= i <= n,
                d@.len() == i,
                forall|w: int| 0 <= w < i ==> #[trigger] d@[w] is None,
            decreases n - i,
        {
            d.push(None);
            i = i + 1;
        }
        d.set(src, Some(row_range));
        proof {
            assert forall|w: int| 0 <= w < n && w > src implies gather_inputs(
                nodes,
                src as int,
                r,
                w,
                nodes[w].inputs@.len() as int,
                src as int,
            ) is None by {
                lemma_gather_none_below(nodes, src as int, r, w, nodes[w].inputs@.len() as int, src as int);
            }
        }
        let mut u: usize = src;
        while u < n
            invariant
                src <= u <= n,
                n == nodes.len(),
                nodes == self.nodes@,
                self.wf(),
                src == source@,
                d@.len() == n,
                forall|w: int|
                    0 <= w < n ==> #[trigger] opt_range_view(d@[w]) == if w == src {
                        Some(r)
                    } else if w < src {
                        None
                    } else {
                        gather_inputs(nodes, src as int, r, w, nodes[w].inputs@.len() as int, u as int)
                    },
            decreases n - u,
        {
            proof {
                lemma_gather_settled(nodes, src as int, r, u as int, nodes[u as int].inputs@.len() as int, u as int);
            }
            let cur = match &d[u] {
                Some(x) => Some(x.start..x.end),
                None => None,
            };
            let ghost base = d@;
            proof {
                assert(opt_range_view(d@[u as int]) == dirty_range(nodes, src as int, r, u as int));
                assert(opt_range_view(cur) == opt_range_view(d@[u as int]));
            }
            if let Some(ru) = cur {
                let cons = &self.consumers[u];
                proof {
                    lemma_consumer_entries(nodes, u as int, n as int);
                }
                let mut j: usize = 0;
                while j < cons.len()
                    invariant
                        0 <= j <= cons@.len(),
                        cons@ == consumers_upto(nodes, u as int, n as int),
                        forall|k: int| 0 <= k < cons@.len() ==> u < (#[trigger] cons@[k])@ < n,
                        n == nodes.len(),
                        nodes == self.nodes@,
                        self.wf(),
                        src <= u < n,
                        d@.len() == n,
                        base.len() == n,
                        forall|w: int|
                            0 <= w < n ==> #[trigger] opt_range_view(d@[w]) == if count_id(
                                cons@.take(j as int),
                                w,
                            ) > 0 {
                                merge_ranges(
                                    opt_range_view(base[w]),
                                    Some(mapped_range(nodes[w].mapping, range_view(ru))),
                                )
                            } else {
                                opt_range_view(base[w])
                            },
                    decreases cons@.len() - j,
                {
                    let c = cons[j];
                    let ci = c.index();
                    let m = self.nodes[ci].mapping.map_range(ru.start..ru.end);
                    let merged = merge_into(&d[ci], &m);
                    d.set(ci, merged);
                    proof {
                        lemma_count_id_take_step(cons@, j as int);
                        lemma_merge_idem(
                            opt_range_view(base[c@]),
                            Some(mapped_range(nodes[c@].mapping, range_view(ru))),
                        );
                    }
                    j = j + 1;
                }
                proof {
                    assert(cons@.take(cons@.len() as int) =~= cons@);
                    assert(range_view(ru) == dirty_range(nodes, src as int, r, u as int).unwrap());
                    assert forall|w: int| 0 <= w < n implies #[trigger] opt_range_view(d@[w]) == if w
                        == src {
                        Some(r)
                    } else if w < src {
                        None
                    } else {
                        gather_inputs(nodes, src as int, r, w, nodes[w].inputs@.len() as int, u + 1)
                    } by {
                        lemma_propagate_entry(nodes, src as int, r, u as int, w);
                        lemma_count_consumers(nodes, u as int, n as int, w);
                    }
                }
            } else {
                proof {
                    assert(dirty_range(nodes, src as int, r, u as int) is None);
                    assert forall|w: int| 0 <= w < n implies #[trigger] opt_range_view(d@[w]) == if w
                        == src {
                        Some(r)
                    } else if w < src {
                        None
                    } else {
                        gather_inputs(nodes, src as int, r, w, nodes[w].inputs@.len() as int, u + 1)
                    } by {
                        lemma_propagate_entry(nodes, src as int, r, u as int, w);
                    }
                }
            }
            u = u + 1;
        }
        proof {
            assert forall|w: int| 0 <= w < n implies #[trigger] opt_range_view(d@[w]) == dirty_range(
                nodes,
                src as int,
                r,
                w,
            ) by {
                if w > src {
                    lemma_gather_settled(nodes, src as int, r, w, nodes[w].inputs@.len() as int, n as int);
                } else if w < src {
                    lemma_gather_none_below(nodes, src as int, r, w, nodes[w].inputs@.len() as int, n as int);
                }
            }
        }
        let dirty = DirtyRanges { ranges: d };
        proof {
            assert forall|w: int| 0 <= w < n implies #[trigger] dirty@[w] == dirty_range(
                nodes,
                src as int,
                r,
                w,
            ) by {
                assert(dirty@[w] == opt_range_view(d@[w]));
            }
        }
        dirty
    }
}

/// Number of entries of `s` whose node has not been placed in `done`.
pub open spec fn count_pending(s: Seq<NodeId>, done: Seq<NodeId>) -> nat
    decreases s.len(),
{
    if s.len() == 0 {
        0
    } else {
        count_pending(s.drop_last(), done) + if done.contains(s.last()) { 0nat } else { 1nat }
    }
}

/// Whether `s` holds an entry for node index `v`.
pub open spec fn holds_index(s: Seq<NodeId>, v: int) -> bool {
    exists|q: int| 0 <= q < s.len() && (#[trigger] s[q])@ == v
}

/// Two identifiers are equal exactly when their indices are.
proof fn lemma_id_eq(a: NodeId, b: NodeId)
    ensures
        (a == b) <==> (a@ == b@),
{
}

proof fn lemma_pending_nothing_done(s: Seq<NodeId>)
    ensures
        count_pending(s, Seq::empty()) == s.len(),
    decreases s.len(),
{
    if s.len() > 0 {
        lemma_pending_nothing_done(s.drop_last());
    }
}

proof fn lemma_pending_zero(s: Seq<NodeId>, done: Seq<NodeId>)
    requires
        count_pending(s, done) == 0,
    ensures
        forall|k: int| 0 <= k < s.len() ==> done.contains(#[trigger] s[k]),
    decreases s.len(),
{
    if s.len() > 0 {
        lemma_pending_zero(s.drop_last(), done);
        assert forall|k: int| 0 <= k < s.len() implies done.contains(#[trigger] s[k]) by {
            if k < s.len() - 1 {
                assert(s[k] == s.drop_last()[k]);
            }
        }
    }
}

proof fn lemma_pending_all_done(s: Seq<NodeId>, done: Seq<NodeId>)
    requires
        forall|k: int| 0 <= k < s.len() ==> done.contains(#[trigger] s[k]),
    ensures
        count_pending(s, done) == 0,
    decreases s.len(),
{
    if s.len() > 0 {
        assert forall|k: int| 0 <= k < s.drop_last().len() implies done.contains(
            #[trigger] s.drop_last()[k],
        ) by {
            assert(s.drop_last()[k] == s[k]);
        }
        lemma_pending_all_done(s.drop_last(), done);
    }
}

proof fn lemma_pending_push(s: Seq<NodeId>, done: Seq<NodeId>, x: NodeId)
    requires
        !done.contains(x),
    ensures
        count_pending(s, done) == count_pending(s, done.push(x)) + count_id(s, x@),
    decreases s.len(),
{
    if s.len() > 0 {
        lemma_pending_push(s.drop_last(), done, x);
        let y = s.last();
        lemma_id_eq(x, y);
        if done.push(x).contains(y) {
            if !done.contains(y) {
                let k = choose|k: int| 0 <= k < done.push(x).len() && done.push(x)[k] == y;
                if k < done.len() {
                    assert(done[k] == y);
                }
            }
        } else {
            assert(done.push(x)[done.len() as int] == x);
            if done.contains(y) {
                let k = choose|k: int| 0 <= k < done.len() && done[k] == y;
                assert(done.push(x)[k] == y);
            }
        }
    }
}

proof fn lemma_count_id_le_pending(s: Seq<NodeId>, done: Seq<NodeId>, x: NodeId)
    requires
        !done.contains(x),
    ensures
        count_id(s, x@) <= count_pending(s, done),
    decreases s.len(),
{
    if s.len() > 0 {
        lemma_count_id_le_pending(s.drop_last(), done, x);
        lemma_id_eq(x, s.last());
    }
}

proof fn lemma_count_id_take_step(s: Seq<NodeId>, j: int)
    requires
        0 <= j < s.len(),
    ensures
        forall|v: int| #[trigger] count_id(s.take(j + 1), v) == count_id(s.take(j), v) + if s[j]@ == v {
            1nat
        } else {
            0nat
        },
{
    assert(s.take(j + 1).drop_last() =~= s.take(j));
}

proof fn lemma_count_id_take_le(s: Seq<NodeId>, j: int, v: int)
    requires
        0 <= j <= s.len(),
    ensures
        count_id(s.take(j), v) <= count_id(s, v),
    decreases s.len() - j,
{
    if j < s.len() {
        lemma_count_id_take_le(s, j + 1, v);
        lemma_count_id_take_step(s, j);
    } else {
        assert(s.take(j) =~= s);
    }
}

proof fn lemma_count_id_pos(s: Seq<NodeId>, v: int)
    requires
        count_id(s, v) > 0,
    ensures
        exists|k: int| 0 <= k < s.len() && (#[trigger] s[k])@ == v,
    decreases s.len(),
{
    if s.last()@ != v {
        lemma_count_id_pos(s.drop_last(), v);
        let k = choose|k: int| 0 <= k < s.drop_last().len() && (#[trigger] s.drop_last()[k])@ == v;
        assert(s[k] == s.drop_last()[k]);
    } else {
        assert(s[s.len() - 1]@ == v);
    }
}

proof fn lemma_count_id_concat(a: Seq<NodeId>, b: Seq<NodeId>, v: int)
    ensures
        count_id(a + b, v) == count_id(a, v) + count_id(b, v),
    decreases b.len(),
{
    if b.len() == 0 {
        assert(a + b =~= a);
    } else {
        lemma_count_id_concat(a, b.drop_last(), v);
        assert((a + b).drop_last() =~= a + b.drop_last());
    }
}

proof fn lemma_count_id_repeat(c: nat, x: NodeId, v: int)
    ensures
        count_id(Seq::new(c, |_k: int| x), v) == if x@ == v { c } else { 0 },
    decreases c,
{
    if c > 0 {
        lemma_count_id_repeat((c - 1) as nat, x, v);
        assert(Seq::new(c, |_k: int| x).drop_last() =~= Seq::new((c - 1) as nat, |_k: int| x));
    }
}

/// How often `j` occurs in the consumer list of `i`: once per occurrence of `i` among `j`'s inputs.
proof fn lemma_count_consumers(nodes: Seq<NodeDescriptor>, i: int, upto: int, j: int)
    requires
        0 <= upto <= nodes.len(),
        forall|m: int| 0 <= m < upto ==> (#[trigger] nodes[m]).id@ == m,
    ensures
        count_id(consumers_upto(nodes, i, upto), j) == if 0 <= j < upto {
            count_id(nodes[j].inputs@, i)
        } else {
            0
        },
    decreases upto,
{
    if upto > 0 {
        lemma_count_consumers(nodes, i, upto - 1, j);
        lemma_count_id_concat(
            consumers_upto(nodes, i, upto - 1),
            Seq::new(count_id(nodes[upto - 1].inputs@, i), |_k: int| nodes[upto - 1].id),
            j,
        );
        lemma_count_id_repeat(count_id(nodes[upto - 1].inputs@, i), nodes[upto - 1].id, j);
    } else {
        assert(consumers_upto(nodes, i, upto) =~= Seq::<NodeId>::empty());
    }
}

/// Every entry of a consumer list is a later node that reads `i`.
/// Consumer lists are in increasing order of the consumer's index.
proof fn lemma_consumers_ordered(nodes: Seq<NodeDescriptor>, i: int, upto: int)
    requires
        0 <= upto <= nodes.len(),
        forall|m: int| 0 <= m < upto ==> (#[trigger] nodes[m]).id@ == m,
    ensures
        forall|k: int| 0 <= k < consumers_upto(nodes, i, upto).len() ==> 0 <= (#[trigger] consumers_upto(nodes, i, upto)[k])@ < upto,
        forall|p: int, q: int|
            0 <= p < q < consumers_upto(nodes, i, upto).len() ==> (#[trigger] consumers_upto(nodes, i, upto)[p])@
                <= (#[trigger] consumers_upto(nodes, i, upto)[q])@,
    decreases upto,
{
    if upto > 0 {
        lemma_consumers_ordered(nodes, i, upto - 1);
        let prev = consumers_upto(nodes, i, upto - 1);
        let all = consumers_upto(nodes, i, upto);
        assert forall|k: int| 0 <= k < all.len() implies 0 <= (#[trigger] all[k])@ < upto by {
            if k < prev.len() {
                assert(all[k] == prev[k]);
            } else {
                assert(all[k] == nodes[upto - 1].id);
            }
        }
        assert forall|p: int, q: int| 0 <= p < q < all.len() implies (#[trigger] all[p])@ <= (#[trigger] all[q])@ by {
            if q < prev.len() {
                assert(all[p] == prev[p] && all[q] == prev[q]);
            } else if p < prev.len() {
                assert(all[p] == prev[p]);
                assert(all[q] == nodes[upto - 1].id);
            } else {
                assert(all[p] == nodes[upto - 1].id);
                assert(all[q] == nodes[upto - 1].id);
            }
        }
    }
}

proof fn lemma_consumer_entries(nodes: Seq<NodeDescriptor>, i: int, upto: int)
    requires
        0 <= upto <= nodes.len(),
        forall|m: int| 0 <= m < upto ==> (#[trigger] nodes[m]).id@ == m,
        forall|m: int, k: int|
            0 <= m < upto && 0 <= k < nodes[m].inputs@.len() ==> 0 <= (
            #[trigger] nodes[m].inputs@[k])@ < m,
    ensures
        forall|k: int|
            0 <= k < consumers_upto(nodes, i, upto).len() ==> i < (#[trigger] consumers_upto(
                nodes,
                i,
                upto,
            )[k])@ < upto,
        forall|k: int|
            0 <= k < consumers_upto(nodes, i, upto).len() ==> count_id(
                nodes[(#[trigger] consumers_upto(nodes, i, upto)[k])@].inputs@,
                i,
            ) > 0,
    decreases upto,
{
    if upto > 0 {
        lemma_consumer_entries(nodes, i, upto - 1);
        let prev = consumers_upto(nodes, i, upto - 1);
        let c = count_id(nodes[upto - 1].inputs@, i);
        let all = consumers_upto(nodes, i, upto);
        assert forall|k: int| 0 <= k < all.len() implies i < (#[trigger] all[k])@ < upto && count_id(
            nodes[all[k]@].inputs@,
            i,
        ) > 0 by {
            if k < prev.len() {
                assert(all[k] == prev[k]);
            } else {
                assert(all[k] == nodes[upto - 1].id);
                lemma_count_id_pos(nodes[upto - 1].inputs@, i);
            }
        }
    }
}

/// A duplicate-free list of identifiers below `n` has at most `n` entries.
proof fn lemma_distinct_ids_bound(s: Seq<NodeId>, n: int)
    requires
        0 <= n,
        s.no_duplicates(),
        forall|q: int| 0 <= q < s.len() ==> 0 <= (#[trigger] s[q])@ < n,
    ensures
        s.len() <= n,
{
    let ids = s.map_values(|x: NodeId| x@);
    assert forall|a: int, b: int| 0 <= a < ids.len() && 0 <= b < ids.len() && a != b implies ids[a]
        != ids[b] by {
        lemma_id_eq(s[a], s[b]);
    }
    ids.unique_seq_to_set();
    vstd::set_lib::lemma_int_range(0, n);
    assert(ids.to_set().subset_of(vstd::set_lib::set_int_range(0, n)));
    vstd::set_lib::lemma_len_subset(ids.to_set(), vstd::set_lib::set_int_range(0, n));
}

/// A duplicate-free list of identifiers below `n` that holds every identifier below `n`
/// has exactly `n` entries.
proof fn lemma_distinct_ids_exact(s: Seq<NodeId>, n: int)
    requires
        0 <= n,
        s.no_duplicates(),
        forall|q: int| 0 <= q < s.len() ==> 0 <= (#[trigger] s[q])@ < n,
        forall|v: int| 0 <= v < n ==> #[trigger] holds_index(s, v),
    ensures
        s.len() == n,
{
    let ids = s.map_values(|x: NodeId| x@);
    assert forall|a: int, b: int| 0 <= a < ids.len() && 0 <= b < ids.len() && a != b implies ids[a]
        != ids[b] by {
        lemma_id_eq(s[a], s[b]);
    }
    ids.unique_seq_to_set();
    vstd::set_lib::lemma_int_range(0, n);
    assert forall|v: int| #[trigger] ids.to_set().contains(v) == vstd::set_lib::set_int_range(0, n).contains(v) by {
        if 0 <= v < n {
            assert(holds_index(s, v));
            let q = choose|q: int| 0 <= q < s.len() && (#[trigger] s[q])@ == v;
            assert(ids[q] == v);
        }
    }
    assert(ids.to_set() =~= vstd::set_lib::set_int_range(0, n));
}

/// When no node is waiting with in-degree zero, every node has been placed.
proof fn lemma_all_placed(nodes: Seq<NodeDescriptor>, order: Seq<NodeId>, deg: Seq<usize>, n: int)
    requires
        n == nodes.len(),
        deg.len() == n,
        forall|m: int| 0 <= m < n ==> (#[trigger] nodes[m]).id@ == m,
        forall|m: int, k: int|
            0 <= m < n && 0 <= k < nodes[m].inputs@.len() ==> 0 <= (#[trigger] nodes[m].inputs@[k])@ < m,
        forall|v: int| 0 <= v < n ==> #[trigger] deg[v] == count_pending(nodes[v].inputs@, order),
        forall|v: int| 0 <= v < n ==> deg[v] != 0 || order.contains(#[trigger] nodes[v].id),
    ensures
        forall|v: int| 0 <= v < n ==> #[trigger] holds_index(order, v),
        forall|v: int| 0 <= v < n ==> order.contains(#[trigger] nodes[v].id),
{
    assert forall|v: int| 0 <= v < n implies order.contains(#[trigger] nodes[v].id) by {
        lemma_placed_below(nodes, order, deg, n, v);
    }
    assert forall|v: int| 0 <= v < n implies #[trigger] holds_index(order, v) by {
        assert(order.contains(nodes[v].id));
        let q = choose|q: int| 0 <= q < order.len() && order[q] == nodes[v].id;
        assert(order[q]@ == v);
    }
}

proof fn lemma_placed_below(nodes: Seq<NodeDescriptor>, order: Seq<NodeId>, deg: Seq<usize>, n: int, v: int)
    requires
        0 <= v < n,
        n == nodes.len(),
        deg.len() == n,
        forall|m: int| 0 <= m < n ==> (#[trigger] nodes[m]).id@ == m,
        forall|m: int, k: int|
            0 <= m < n && 0 <= k < nodes[m].inputs@.len() ==> 0 <= (#[trigger] nodes[m].inputs@[k])@ < m,
        forall|w: int| 0 <= w < n ==> #[trigger] deg[w] == count_pending(nodes[w].inputs@, order),
        forall|w: int| 0 <= w < n ==> deg[w] != 0 || order.contains(#[trigger] nodes[w].id),
    ensures
        order.contains(nodes[v].id),
    decreases v,
{
    let ins = nodes[v].inputs@;
    assert forall|k: int| 0 <= k < ins.len() implies order.contains(#[trigger] ins[k]) by {
        let u = ins[k]@;
        lemma_placed_below(nodes, order, deg, n, u);
        lemma_id_eq(ins[k], nodes[u].id);
    }
    lemma_pending_all_done(ins, order);
}

proof fn lemma_merge_idem(a: Option<(int, int)>, m: Option<(int, int)>)
    ensures
        merge_ranges(merge_ranges(a, m), m) == merge_ranges(a, m),
{
}

proof fn lemma_merge_swap(a: Option<(int, int)>, x: Option<(int, int)>, m: Option<(int, int)>)
    ensures
        merge_ranges(merge_ranges(a, x), m) == merge_ranges(merge_ranges(a, m), x),
{
}

/// Raising the index limit to `u + 1` admits exactly the inputs that are node `u`.
proof fn lemma_gather_step(nodes: Seq<NodeDescriptor>, src: int, r: (int, int), w: int, k: int, u: int)
    requires
        0 <= u,
        0 <= w < nodes.len(),
        0 <= k <= nodes[w].inputs@.len(),
    ensures
        gather_inputs(nodes, src, r, w, k, u + 1) == if count_id(nodes[w].inputs@.take(k), u) > 0
            && u < w && dirty_range(nodes, src, r, u) is Some {
            merge_ranges(
                gather_inputs(nodes, src, r, w, k, u),
                Some(mapped_range(nodes[w].mapping, dirty_range(nodes, src, r, u).unwrap())),
            )
        } else {
            gather_inputs(nodes, src, r, w, k, u)
        },
    decreases k,
{
    let ins = nodes[w].inputs@;
    if k > 0 {
        lemma_gather_step(nodes, src, r, w, k - 1, u);
        let x = ins[k - 1]@;
        assert(ins.take(k).drop_last() =~= ins.take(k - 1));
        assert(count_id(ins.take(k), u) == count_id(ins.take(k - 1), u) + if x == u {
            1nat
        } else {
            0nat
        });
        let g_lo = gather_inputs(nodes, src, r, w, k - 1, u);
        let g_hi = gather_inputs(nodes, src, r, w, k - 1, u + 1);
        let cond = u < w && dirty_range(nodes, src, r, u) is Some;
        let mm = if cond {
            Some(mapped_range(nodes[w].mapping, dirty_range(nodes, src, r, u).unwrap()))
        } else {
            None
        };
        let part = if 0 <= x && x < w && dirty_range(nodes, src, r, x) is Some {
            Some(mapped_range(nodes[w].mapping, dirty_range(nodes, src, r, x).unwrap()))
        } else {
            None
        };
        assert(count_id(ins.take(k - 1), u) > 0 && cond ==> g_hi == merge_ranges(g_lo, mm));
        assert(!(count_id(ins.take(k - 1), u) > 0 && cond) ==> g_hi == g_lo);
        if 0 <= x < u && x < w {
            assert(gather_inputs(nodes, src, r, w, k, u) == merge_ranges(g_lo, part));
            assert(gather_inputs(nodes, src, r, w, k, u + 1) == merge_ranges(g_hi, part));
            lemma_merge_swap(g_lo, part, mm);
        } else if x == u {
            assert(gather_inputs(nodes, src, r, w, k, u) == g_lo);
            assert(gather_inputs(nodes, src, r, w, k, u + 1) == merge_ranges(g_hi, part));
            lemma_merge_idem(g_lo, mm);
            assert(count_id(ins.take(k), u) > 0);
        } else {
            assert(gather_inputs(nodes, src, r, w, k, u) == g_lo);
            assert(gather_inputs(nodes, src, r, w, k, u + 1) == g_hi);
        }
    } else {
        assert(ins.take(0) =~= Seq::<NodeId>::empty());
    }
}

/// How one step of the sweep over node `u` changes the gathered range of node `w`.
proof fn lemma_propagate_entry(nodes: Seq<NodeDescriptor>, src: int, r: (int, int), u: int, w: int)
    requires
        0 <= src <= u,
        0 <= w < nodes.len(),
        forall|m: int, k: int|
            0 <= m < nodes.len() && 0 <= k < nodes[m].inputs@.len() ==> 0 <= (
            #[trigger] nodes[m].inputs@[k])@ < m,
    ensures
        w <= src ==> count_id(nodes[w].inputs@, u) == 0,
        w > src ==> gather_inputs(nodes, src, r, w, nodes[w].inputs@.len() as int, u + 1) == if count_id(
            nodes[w].inputs@,
            u,
        ) > 0 && dirty_range(nodes, src, r, u) is Some {
            merge_ranges(
                gather_inputs(nodes, src, r, w, nodes[w].inputs@.len() as int, u),
                Some(mapped_range(nodes[w].mapping, dirty_range(nodes, src, r, u).unwrap())),
            )
        } else {
            gather_inputs(nodes, src, r, w, nodes[w].inputs@.len() as int, u)
        },
{
    let ins = nodes[w].inputs@;
    if w <= src {
        lemma_count_id_bound(ins, u);
    } else {
        lemma_gather_step(nodes, src, r, w, ins.len() as int, u);
        assert(ins.take(ins.len() as int) =~= ins);
        if count_id(ins, u) > 0 {
            lemma_count_id_pos(ins, u);
        }
    }
}

/// Once the limit reaches the node itself, raising it changes nothing.
proof fn lemma_gather_settled(nodes: Seq<NodeDescriptor>, src: int, r: (int, int), w: int, k: int, lim: int)
    requires
        w <= lim,
    ensures
        gather_inputs(nodes, src, r, w, k, lim) == gather_inputs(nodes, src, r, w, k, w),
    decreases k,
{
    if k > 0 && 0 <= w < nodes.len() && k <= nodes[w].inputs@.len() {
        lemma_gather_settled(nodes, src, r, w, k - 1, lim);
    }
}

/// Nodes below the source, and limits at or below the source, gather nothing.
proof fn lemma_gather_none_below(nodes: Seq<NodeDescriptor>, src: int, r: (int, int), w: int, k: int, lim: int)
    requires
        w < src || lim <= src,
    ensures
        gather_inputs(nodes, src, r, w, k, lim) is None,
    decreases k,
{
    if k > 0 && 0 <= w < nodes.len() && k <= nodes[w].inputs@.len() {
        lemma_gather_none_below(nodes, src, r, w, k - 1, lim);
        let x = nodes[w].inputs@[k - 1]@;
        if 0 <= x < lim && x < w {
            assert(dirty_range(nodes, src, r, x) is None);
        }
    }
}

/// Whether the `k`-th input of node `v` is reached by the change.
pub open spec fn input_reached(nodes: Seq<NodeDescriptor>, src: int, r: (int, int), v: int, k: int) -> bool {
    dirty_range(nodes, src, r, nodes[v].inputs@[k]@) is Some
}

/// The dirty range of the `k`-th input of node `v`, mapped through `v`'s mapping.
pub open spec fn input_image(nodes: Seq<NodeDescriptor>, src: int, r: (int, int), v: int, k: int) -> (
    int,
    int,
) {
    mapped_range(nodes[v].mapping, dirty_range(nodes, src, r, nodes[v].inputs@[k]@).unwrap())
}

/// The gathered range over the first `k` inputs is present exactly when one of them is
/// reached, and then it is the union hull of their mapped ranges.
proof fn lemma_gather_hull(nodes: Seq<NodeDescriptor>, src: int, r: (int, int), v: int, k: int)
    requires
        0 <= v < nodes.len(),
        0 <= k <= nodes[v].inputs@.len(),
        forall|j: int| 0 <= j < nodes[v].inputs@.len() ==> 0 <= (#[trigger] nodes[v].inputs@[j])@ < v,
    ensures
        gather_inputs(nodes, src, r, v, k, v) is Some <==> exists|j: int|
            0 <= j < k && #[trigger] input_reached(nodes, src, r, v, j),
        gather_inputs(nodes, src, r, v, k, v) is Some ==> {
            let h = gather_inputs(nodes, src, r, v, k, v).unwrap();
            &&& forall|j: int|
                0 <= j < k && #[trigger] input_reached(nodes, src, r, v, j) ==> h.0 <= input_image(
                    nodes,
                    src,
                    r,
                    v,
                    j,
                ).0 && input_image(nodes, src, r, v, j).1 <= h.1
            &&& exists|j: int|
                0 <= j < k && #[trigger] input_reached(nodes, src, r, v, j) && h.0 == input_image(
                    nodes,
                    src,
                    r,
                    v,
                    j,
                ).0
            &&& exists|j: int|
                0 <= j < k && #[trigger] input_reached(nodes, src, r, v, j) && h.1 == input_image(
                    nodes,
                    src,
                    r,
                    v,
                    j,
                ).1
        },
    decreases k,
{
    if k > 0 {
        lemma_gather_hull(nodes, src, r, v, k - 1);
        let prev = gather_inputs(nodes, src, r, v, k - 1, v);
        if input_reached(nodes, src, r, v, k - 1) {
            let m = input_image(nodes, src, r, v, k - 1);
            assert(gather_inputs(nodes, src, r, v, k, v) == merge_ranges(prev, Some(m)));
            if prev is Some {
                let h = gather_inputs(nodes, src, r, v, k, v).unwrap();
                let p = prev.unwrap();
                if p.0 <= m.0 {
                    let j = choose|j: int|
                        0 <= j < k - 1 && #[trigger] input_reached(nodes, src, r, v, j) && p.0
                            == input_image(nodes, src, r, v, j).0;
                    assert(input_reached(nodes, src, r, v, j) && h.0 == input_image(nodes, src, r, v, j).0);
                } else {
                    assert(input_reached(nodes, src, r, v, k - 1) && h.0 == input_image(nodes, src, r, v, k - 1).0);
                }
                if p.1 >= m.1 {
                    let j = choose|j: int|
                        0 <= j < k - 1 && #[trigger] input_reached(nodes, src, r, v, j) && p.1
                            == input_image(nodes, src, r, v, j).1;
                    assert(input_reached(nodes, src, r, v, j) && h.1 == input_image(nodes, src, r, v, j).1);
                } else {
                    assert(input_reached(nodes, src, r, v, k - 1) && h.1 == input_image(nodes, src, r, v, k - 1).1);
                }
            }
        } else {
            assert(gather_inputs(nodes, src, r, v, k, v) == prev);
        }
    }
}

/// The facts of the graph's shape that the laws below rest on.
proof fn lemma_graph_shape(g: &Graph)
    requires
        g.wf(),
    ensures
        forall|m: int, k: int|
            0 <= m < g.spec_nodes().len() && 0 <= k < g.spec_nodes()[m].inputs@.len() ==> 0 <= (
            #[trigger] g.spec_nodes()[m].inputs@[k])@ < m,
        forall|m: int| 0 <= m < g.spec_nodes().len() ==> (#[trigger] g.spec_nodes()[m]).id@ == m,
{
}

/// Law: a change reaches a node other than its source exactly when it reaches one of
/// that node's inputs; nodes below the source are never reached, and the source gets
/// the changed range itself.
pub proof fn law_dirty_reach(g: &Graph, source: NodeId, r: Range<usize>, w: int)
    requires
        g.wf(),
        source@ < g.spec_nodes().len(),
        0 <= w < g.spec_nodes().len(),
    ensures
        dirty_range(g.spec_nodes(), source@, range_view(r), source@) == Some(range_view(r)),
        w < source@ ==> dirty_range(g.spec_nodes(), source@, range_view(r), w) is None,
        w != source@ ==> (dirty_range(g.spec_nodes(), source@, range_view(r), w) is Some <==> exists|k: int|
            0 <= k < g.inputs_of(w).len() && #[trigger] input_reached(
                g.spec_nodes(),
                source@,
                range_view(r),
                w,
                k,
            )),
{
    let nodes = g.spec_nodes();
    lemma_graph_shape(g);
    let rv = range_view(r);
    if w != source@ {
        if w < source@ {
            assert forall|k: int| 0 <= k < g.inputs_of(w).len() implies !#[trigger] input_reached(
                nodes,
                source@,
                rv,
                w,
                k,
            ) by {
                assert(nodes[w].inputs@[k]@ < w);
            }
        } else {
            lemma_gather_hull(nodes, source@, rv, w, nodes[w].inputs@.len() as int);
        }
    }
}

/// Law: the range of a reached node other than the source is the union hull of its
/// reached inputs' ranges, each mapped through the node's mapping: it covers every
/// mapped range, and its start and its end each come from one of them.
pub proof fn law_dirty_hull(g: &Graph, source: NodeId, r: Range<usize>, w: int)
    requires
        g.wf(),
        source@ < g.spec_nodes().len(),
        0 <= w < g.spec_nodes().len(),
        w != source@,
        dirty_range(g.spec_nodes(), source@, range_view(r), w) is Some,
    ensures
        ({
            let nodes = g.spec_nodes();
            let rv = range_view(r);
            let h = dirty_range(nodes, source@, rv, w).unwrap();
            &&& forall|k: int|
                0 <= k < g.inputs_of(w).len() && #[trigger] input_reached(nodes, source@, rv, w, k)
                    ==> h.0 <= input_image(nodes, source@, rv, w, k).0 && input_image(
                    nodes,
                    source@,
                    rv,
                    w,
                    k,
                ).1 <= h.1
            &&& exists|k: int|
                0 <= k < g.inputs_of(w).len() && #[trigger] input_reached(nodes, source@, rv, w, k)
                    && h.0 == input_image(nodes, source@, rv, w, k).0
            &&& exists|k: int|
                0 <= k < g.inputs_of(w).len() && #[trigger] input_reached(nodes, source@, rv, w, k)
                    && h.1 == input_image(nodes, source@, rv, w, k).1
        }),
{
    let nodes = g.spec_nodes();
    lemma_graph_shape(g);
    lemma_gather_hull(nodes, source@, range_view(r), w, nodes[w].inputs@.len() as int);
}

/// Law: a reached node with a blocking mapping (other than the source) is dirty over
/// the whole row space `0..usize::MAX`.
pub proof fn law_dirty_blocking(g: &Graph, source: NodeId, r: Range<usize>, w: int)
    requires
        g.wf(),
        source@ < g.spec_nodes().len(),
        0 <= w < g.spec_nodes().len(),
        w != source@,
        dirty_range(g.spec_nodes(), source@, range_view(r), w) is Some,
        g.spec_nodes()[w].mapping is Scatter || g.spec_nodes()[w].mapping is Reshape,
    ensures
        dirty_range(g.spec_nodes(), source@, range_view(r), w) == Some((0int, usize::MAX as int)),
{
    law_dirty_hull(g, source, r, w);
}

/// Law: a reached node whose mapping is pointwise and that has a single input carries
/// exactly its input's range.
pub proof fn law_dirty_pointwise_single_input(g: &Graph, source: NodeId, r: Range<usize>, w: int)
    requires
        g.wf(),
        source@ < g.spec_nodes().len(),
        0 <= w < g.spec_nodes().len(),
        w != source@,
        g.spec_nodes()[w].mapping is Pointwise,
        g.inputs_of(w).len() == 1,
    ensures
        dirty_range(g.spec_nodes(), source@, range_view(r), w) == dirty_range(
            g.spec_nodes(),
            source@,
            range_view(r),
            g.inputs_of(w)[0]@,
        ),
{
    let nodes = g.spec_nodes();
    lemma_graph_shape(g);
    law_dirty_reach(g, source, r, w);
    let u = nodes[w].inputs@[0]@;
    if w > source@ {
        assert(gather_inputs(nodes, source@, range_view(r), w, 0, w) is None);
    } else {
        assert(dirty_range(nodes, source@, range_view(r), u) is None);
    }
}

/// Law: node `j` appears in the consumer list of node `i` exactly as often as `i`
/// appears among `j`'s inputs, every consumer of `i` comes after `i`, and the list is
/// in increasing order of the consumers' indices.
pub proof fn law_consumers_mirror_inputs(g: &Graph, i: int, j: int)
    requires
        g.wf(),
        0 <= i < g.spec_nodes().len(),
        0 <= j < g.spec_nodes().len(),
    ensures
        count_id(g.consumers_spec(i), j) == count_id(g.inputs_of(j), i),
        forall|k: int| 0 <= k < g.consumers_spec(i).len() ==> i < (#[trigger] g.consumers_spec(i)[k])@ < g.spec_nodes().len(),
        forall|p: int, q: int|
            0 <= p < q < g.consumers_spec(i).len() ==> (#[trigger] g.consumers_spec(i)[p])@ <= (
            #[trigger] g.consumers_spec(i)[q])@,
{
    lemma_graph_shape(g);
    lemma_consumers_ordered(g.spec_nodes(), i, g.spec_nodes().len() as int);
    lemma_count_consumers(g.spec_nodes(), i, g.spec_nodes().len() as int, j);
    lemma_consumer_entries(g.spec_nodes(), i, g.spec_nodes().len() as int);
}

/// Copies a slice of identifiers into a fresh vector.
fn copy_ids(s: &[NodeId]) -> (v: Vec<NodeId>)
    ensures
        v@ == s@,
{
    let mut v: Vec<NodeId> = Vec::new();
    let mut k: usize = 0;
    while k < s.len()
        invariant
            0 <= k <= s@.len(),
            v@ == s@.take(k as int),
        decreases s@.len() - k,
    {
        v.push(s[k]);
        k = k + 1;
        assert(v@ =~= s@.take(k as int));
    }
    assert(s@.take(s@.len() as int) =~= s@);
    v
}

/// Consumer lists over a prefix only depend on the prefix.
proof fn lemma_consumers_upto_prefix(a: Seq<NodeDescriptor>, b: Seq<NodeDescriptor>, i: int, upto: int)
    requires
        0 <= upto <= a.len(),
        upto <= b.len(),
        forall|j: int| 0 <= j < upto ==> a[j] == b[j],
    ensures
        consumers_upto(a, i, upto) == consumers_upto(b, i, upto),
    decreases upto,
{
    if upto > 0 {
        lemma_consumers_upto_prefix(a, b, i, upto - 1);
    }
}

/// A node that no node below `upto` reads has an empty consumer list there.
proof fn lemma_consumers_upto_none(nodes: Seq<NodeDescriptor>, i: int, upto: int)
    requires
        0 <= upto <= nodes.len(),
        forall|j: int, k: int|
            0 <= j < upto && 0 <= k < nodes[j].inputs@.len() ==> (#[trigger] nodes[j].inputs@[k])@ < i,
    ensures
        consumers_upto(nodes, i, upto) =~= Seq::<NodeId>::empty(),
    decreases upto,
{
    if upto > 0 {
        lemma_consumers_upto_none(nodes, i, upto - 1);
        lemma_count_id_bound(nodes[upto - 1].inputs@, i);
    }
}

/// A node index at or beyond every entry's index occurs nowhere.
proof fn lemma_count_id_bound(s: Seq<NodeId>, v: int)
    requires
        forall|k: int| 0 <= k < s.len() ==> (#[trigger] s[k])@ < v,
    ensures
        count_id(s, v) == 0,
    decreases s.len(),
{
    if s.len() > 0 {
        lemma_count_id_bound(s.drop_last(), v);
    }
}

/// Law: over a run of node additions that starts from an empty graph, the graph holds
/// `k` nodes after `k` additions, and the `k`-th addition (counting from zero) returns the
/// identifier with index `k`; the identifiers handed out are therefore pairwise distinct.
pub proof fn law_add_node_sequence(gs: Seq<Graph>, ids: Seq<NodeId>)
    requires
        gs.len() == ids.len() + 1,
        gs[0].spec_nodes().len() == 0,
        forall|k: int|
            0 <= k < ids.len() ==> (#[trigger] ids[k])@ == gs[k].spec_nodes().len()
                && gs[k + 1].spec_nodes().len() == gs[k].spec_nodes().len() + 1,
    ensures
        forall|k: int| 0 <= k < gs.len() ==> (#[trigger] gs[k]).spec_nodes().len() == k,
        forall|k: int| 0 <= k < ids.len() ==> (#[trigger] ids[k])@ == k,
        forall|j: int, k: int| 0 <= j < ids.len() && 0 <= k < ids.len() && j != k ==> ids[j] != ids[k],
    decreases ids.len(),
{
    if ids.len() > 0 {
        let n = ids.len() - 1;
        let gs0 = gs.drop_last();
        let ids0 = ids.drop_last();
        assert forall|k: int| 0 <= k < ids0.len() implies (#[trigger] ids0[k])@ == gs0[k].spec_nodes().len()
            && gs0[k + 1].spec_nodes().len() == gs0[k].spec_nodes().len() + 1 by {
            assert(ids0[k] == ids[k]);
            assert(gs0[k] == gs[k]);
            assert(gs0[k + 1] == gs[k + 1]);
            assert(ids[k]@ == gs[k].spec_nodes().len());
        }
        law_add_node_sequence(gs0, ids0);
        assert forall|k: int| 0 <= k < gs.len() implies (#[trigger] gs[k]).spec_nodes().len() == k by {
            if k < gs0.len() {
                assert(gs0[k] == gs[k]);
            } else {
                assert(gs0[n] == gs[n]);
                assert(ids[n]@ == gs[n].spec_nodes().len());
            }
        }
        assert forall|k: int| 0 <= k < ids.len() implies (#[trigger] ids[k])@ == k by {
            assert(ids[k]@ == gs[k].spec_nodes().len());
        }
        assert forall|j: int, k: int| 0 <= j < ids.len() && 0 <= k < ids.len() && j != k implies ids[j] != ids[k] by {
            ids[j].lemma_view_injective(ids[k]);
        }
    }
}

} // verus!
