//! Single-threaded executor state for a homogeneous-typed computation DAG.
//!
//! The executor owns a [`Graph`], one [`ChunkedColumn`] per node and one optional
//! [`Kernel`] per node (`None` marks a source node).  A compute cycle visits the nodes in
//! topological order and recomputes every dirty chunk of every derived node; this module
//! holds the decisions of that cycle, each step a verified function on the executor's state.

use crate::column::{marked_dirty, AlignedChunk, ChunkedColumn, CHUNK_SIZE};
use crate::dag::{dirty_range, range_view, Graph, NodeId};
use crate::kernel::{
    all_null, bits_lengths, combine_bits, with_nulls, count_false, null_clone, null_count, propagate_nulls,
    validity_bits, validity_views, Kernel,
};
use arrow_buffer::NullBuffer;
use crate::text::{decimal, decimal_string};
use vstd::prelude::*;
use vstd::string::StringExecFns;

verus! {

// ── WarningCollector ──────────────────────────────────────────────────────────

/// A capped, per-cycle warning buffer: once `cap` warnings have been collected, further
/// pushes are dropped until the buffer is drained.
pub struct WarningCollector {
    warnings: Vec<String>,
    cap: usize,
}

impl View for WarningCollector {
    type V = Seq<Seq<char>>;

    closed spec fn view(&self) -> Seq<Seq<char>> {
        self.warnings@.map_values(|w: String| w@)
    }
}

impl WarningCollector {
    /// A collector never holds more than its cap.
    #[verifier::type_invariant]
    spec fn within_cap(&self) -> bool {
        self.warnings@.len() <= self.cap
    }

    /// The maximum number of warnings held.
    pub closed spec fn spec_cap(&self) -> usize {
        self.cap
    }

    /// Creates a collector with the given maximum capacity.
    pub fn new(cap: usize) -> (w: Self)
        ensures
            w@ == Seq::<Seq<char>>::empty(),
            w.spec_cap() == cap,
    {
        let w = WarningCollector { warnings: Vec::new(), cap };
        assert(w@ =~= Seq::<Seq<char>>::empty());
        w
    }

    /// Appends `msg` if the cap has not been reached.
    pub fn push(&mut self, msg: &str)
        ensures
            final(self).spec_cap() == old(self).spec_cap(),
            final(self)@ == if old(self)@.len() < old(self).spec_cap() {
                old(self)@.push(msg@)
            } else {
                old(self)@
            },
    {
        if self.warnings.len() < self.cap {
            let mut w: Vec<String> = Vec::new();
            std::mem::swap(&mut w, &mut self.warnings);
            w.push(msg.to_owned());
            self.warnings = w;
            assert(self@ =~= old(self)@.push(msg@));
        }
    }

    /// Drains and returns all collected warnings, leaving the buffer empty.
    pub fn drain(&mut self) -> (v: Vec<String>)
        ensures
            v@.map_values(|w: String| w@) == old(self)@,
            final(self)@ == Seq::<Seq<char>>::empty(),
            final(self).spec_cap() == old(self).spec_cap(),
    {
        let mut out: Vec<String> = Vec::new();
        std::mem::swap(&mut out, &mut self.warnings);
        assert(self@ =~= Seq::<Seq<char>>::empty());
        out
    }

    /// Returns `true` when no warnings have been collected.
    pub fn is_empty(&self) -> (r: bool)
        ensures
            r == (self@.len() == 0),
            self@.len() <= self.spec_cap(),
    {
        proof {
            use_type_invariant(self);
        }
        self.warnings.len() == 0
    }

    /// Number of warnings currently buffered; never more than the cap.
    pub fn len(&self) -> (r: usize)
        ensures
            r == self@.len(),
            r <= self.spec_cap(),
    {
        proof {
            use_type_invariant(self);
        }
        self.warnings.len()
    }
}

/// Law: pushing onto a collector never makes it hold more than its cap, given that it
/// did not before.
pub proof fn law_warning_cap(before: Seq<Seq<char>>, cap: usize, msg: Seq<char>)
    requires
        before.len() <= cap,
    ensures
        (if before.len() < cap { before.push(msg) } else { before }).len() <= cap,
{
}

// ── FailureMode / ExecutionError ─────────────────────────────────────────────

/// Controls how a kernel panic is handled during execution.
#[derive(Debug, Clone, Copy, PartialEq, Eq, Structural)]
pub enum FailureMode {
    /// Mark the output chunk as all-null, collect a warning, and continue.
    Soft,
    /// Return an [`ExecutionError`] immediately, halting the cycle.
    Hard,
}

impl Default for FailureMode {
    fn default() -> (m: Self)
        ensures
            m == FailureMode::Soft,
    {
        FailureMode::Soft
    }
}

/// Returned by a compute cycle when [`FailureMode::Hard`] is active and a kernel fails.
#[derive(Debug)]
pub struct ExecutionError {
    /// The node whose kernel failed.
    pub node: NodeId,
    /// Which chunk (0-based) was being computed when the failure occurred.
    pub chunk_idx: usize,
    /// Human-readable description of the failure.
    pub message: String,
}

/// The text of an execution error:
/// `execution error at node NodeId(<node>) chunk <chunk_idx>: <msg>`.
pub open spec fn execution_error_text(node: nat, chunk_idx: usize, msg: Seq<char>) -> Seq<char> {
    "execution error at node NodeId("@ + decimal(node) + ") chunk "@ + decimal(chunk_idx as nat) + ": "@
        + msg
}

impl ExecutionError {
    /// A human-readable description naming the node, the chunk and the failure.
    pub fn to_string(&self) -> (s: String)
        ensures
            s@ == execution_error_text(self.node@ as nat, self.chunk_idx, self.message@),
    {
        proof {
            self.node.lemma_view_bounds();
        }
        let mut s = "execution error at node NodeId(".to_owned();
        s.append(decimal_string(self.node.index()).as_str());
        s.append(") chunk ");
        s.append(decimal_string(self.chunk_idx).as_str());
        s.append(": ");
        s.append(self.message.as_str());
        s
    }
}

/// What the visit of a node in a compute cycle has to do.
pub enum NodeStep {
    /// The node is clean: nothing to do.
    Clean,
    /// The node is a dirty source node: its dirty flags were cleared.
    SourceCleared,
    /// The node is a dirty derived node: these chunks are to be recomputed, in order.
    Compute(Vec<usize>),
}

/// `v` lists, in increasing order, exactly the dirty chunk indices of `col` that are
/// below its chunk count.
pub open spec fn dirty_schedule<T>(col: ChunkedColumn<T>, v: Seq<usize>) -> bool {
    &&& forall|p: int|
        0 <= p < v.len() ==> (#[trigger] v[p]) < col.spec_chunks().len() && v[p] <= u32::MAX
            && col.dirty_set().contains(v[p] as u32)
    &&& forall|p: int, q: int| 0 <= p < q < v.len() ==> v[p] < v[q]
    &&& forall|x: u32|
        col.dirty_set().contains(x) && (x as int) < col.spec_chunks().len() ==> exists|p: int|
            0 <= p < v.len() && #[trigger] v[p] == x as usize
}

/// A null buffer read as its validity bits.
pub open spec fn null_view(o: Option<NullBuffer>) -> Option<Seq<bool>> {
    match o {
        Some(n) => Some(validity_bits(n)),
        None => None,
    }
}

/// The validity bits of each of a list of owned null buffers.
pub open spec fn null_views(s: Seq<Option<NullBuffer>>) -> Seq<Option<Seq<bool>>> {
    s.map_values(|o: Option<NullBuffer>| null_view(o))
}

/// The list `row` with slot `c` set to `x`, first extended with `None` up to slot `c`.
pub open spec fn set_slot(row: Seq<Option<Seq<bool>>>, c: int, x: Option<Seq<bool>>) -> Seq<Option<Seq<bool>>> {
    let extended = if c < row.len() {
        row
    } else {
        row + Seq::new((c + 1 - row.len()) as nat, |_i: int| None::<Seq<bool>>)
    };
    extended.update(c, x)
}

/// The warning collected when the kernel of a node fails under the soft failure mode:
/// `node '<name>' chunk <chunk_idx>: kernel failed: <msg>`.
pub open spec fn failure_warning(name: Seq<char>, chunk_idx: usize, msg: Seq<char>) -> Seq<char> {
    "node '"@ + name + "' chunk "@ + decimal(chunk_idx as nat) + ": kernel failed: "@ + msg
}

/// Builds the soft-failure warning of a node.
fn failure_warning_text(name: &str, chunk_idx: usize, msg: &str) -> (s: String)
    ensures
        s@ == failure_warning(name@, chunk_idx, msg@),
{
    let mut s = "node '".to_owned();
    s.append(name);
    s.append("' chunk ");
    s.append(decimal_string(chunk_idx).as_str());
    s.append(": kernel failed: ");
    s.append(msg);
    s
}

/// The length of a chunk computed from these input chunks: that of the first input, or
/// zero without inputs.
pub fn input_chunk_len<T>(values: &[Vec<T>]) -> (r: usize)
    ensures
        r == if values@.len() > 0 {
            values@[0]@.len()
        } else {
            0
        },
{
    if values.len() > 0 {
        values[0].len()
    } else {
        0
    }
}

/// The warning collected when two runs of a node's kernel on one chunk disagree:
/// `node '<name>' chunk <chunk_idx>: purity check failed (non-deterministic output)`.
pub open spec fn purity_warning(name: Seq<char>, chunk_idx: usize) -> Seq<char> {
    "node '"@ + name + "' chunk "@ + decimal(chunk_idx as nat) + ": purity check failed (non-deterministic output)"@
}

/// Builds the purity-check warning of a node.
fn purity_warning_text(name: &str, chunk_idx: usize) -> (s: String)
    ensures
        s@ == purity_warning(name@, chunk_idx),
{
    let mut s = "node '".to_owned();
    s.append(name);
    s.append("' chunk ");
    s.append(decimal_string(chunk_idx).as_str());
    s.append(": purity check failed (non-deterministic output)");
    s
}

/// `len` copies of the type's default value.
fn default_values<T: Copy + Default>(len: usize) -> (v: Vec<T>)
    ensures
        v@.len() == len,
        forall|i: int| 0 <= i < len ==> call_ensures(T::default, (), #[trigger] v@[i]),
{
    let mut v: Vec<T> = Vec::new();
    let mut i: usize = 0;
    while i < len
        invariant
            0 <= i <= len,
            v@.len() == i,
            forall|k: int| 0 <= k < i ==> call_ensures(T::default, (), #[trigger] v@[k]),
        decreases len - i,
    {
        let d = T::default();
        proof {
            assert(call_ensures(T::default, (), d));
        }
        v.push(d);
        i = i + 1;
    }
    v
}

/// Copies a slice of values into a fresh vector.
fn copy_slice<T: Copy>(s: &[T]) -> (v: Vec<T>)
    ensures
        v@ == s@,
{
    let mut v: Vec<T> = Vec::new();
    let mut k: usize = 0;
    while k < s.len()
        invariant
            0 <= k <= s@.len(),
            v@ == s@.take(k as int),
        decreases s@.len() - k,
    {
        v.push(s[k]);
        k = k + 1;
        assert(v@ =~= s@.take(k as int));
    }
    assert(s@.take(s@.len() as int) =~= s@);
    v
}

// ── Executor ──────────────────────────────────────────────────────────────────

/// Executor state: the graph, one column, kernel and list of per-chunk null buffers per
/// node, and the warnings of the current cycle.
#[verifier::reject_recursive_types(T)]
pub struct Executor<T> {
    graph: Graph,
    columns: Vec<ChunkedColumn<T>>,
    kernels: Vec<Option<Box<dyn Kernel<T>>>>,
    /// `null_chunks[node][chunk]` is `Some(buf)` only when that chunk has a null element.
    null_chunks: Vec<Vec<Option<NullBuffer>>>,
    /// Warnings collected during the current cycle.
    pub warnings: WarningCollector,
    /// How to handle a failing kernel.
    pub failure_mode: FailureMode,
    /// When `true`, each chunk is computed twice and the outputs are compared.
    pub debug_purity_check: bool,
}

impl<T: Copy + Default> Executor<T> {
    /// The graph.
    pub closed spec fn spec_graph(&self) -> Graph {
        self.graph
    }

    /// The column of each node.
    pub closed spec fn spec_columns(&self) -> Seq<ChunkedColumn<T>> {
        self.columns@
    }

    /// The kernel of each node (`None` for a source node).
    pub closed spec fn spec_kernels(&self) -> Seq<Option<Box<dyn Kernel<T>>>> {
        self.kernels@
    }

    /// Whether each node has a kernel (`false` marks a source node).
    pub closed spec fn spec_has_kernel(&self) -> Seq<bool> {
        self.kernels@.map_values(|k: Option<Box<dyn Kernel<T>>>| k is Some)
    }

    /// The per-chunk validity bits recorded for each node (`None` = no null element).
    pub closed spec fn spec_nulls(&self) -> Seq<Seq<Option<Seq<bool>>>> {
        self.null_chunks@.map_values(
            |v: Vec<Option<NullBuffer>>|
                v@.map_values(
                    |o: Option<NullBuffer>|
                        match o {
                            Some(n) => Some(validity_bits(n)),
                            None => None,
                        },
                ),
        )
    }

    /// The warning buffer.
    pub closed spec fn spec_warnings(&self) -> WarningCollector {
        self.warnings
    }

    /// The failure mode.
    pub closed spec fn spec_failure_mode(&self) -> FailureMode {
        self.failure_mode
    }

    /// Whether the purity check is on.
    pub closed spec fn spec_purity_check(&self) -> bool {
        self.debug_purity_check
    }

    /// `vals` and `nulls` are the values and the recorded validity of chunk `chunk_idx` of
    /// node `u`: no values when the column has no such chunk, no validity when none is recorded.
    pub open spec fn gathered(&self, u: int, chunk_idx: usize, vals: Seq<T>, nulls: Option<Seq<bool>>) -> bool {
        &&& vals == if chunk_idx < self.spec_columns()[u].spec_chunks().len() {
            self.spec_columns()[u].spec_chunks()[chunk_idx as int]
        } else {
            Seq::<T>::empty()
        }
        &&& nulls == if chunk_idx < self.spec_nulls()[u].len() {
            self.spec_nulls()[u][chunk_idx as int]
        } else {
            None
        }
    }

    /// Number of nodes.
    pub open spec fn node_count(&self) -> nat {
        self.spec_graph().spec_nodes().len()
    }

    /// Well-formedness: a well-formed graph and one well-formed column, kernel slot and
    /// null-buffer list per node.
    pub closed spec fn wf(&self) -> bool {
        &&& self.graph.wf()
        &&& self.columns@.len() == self.graph.spec_nodes().len()
        &&& self.kernels@.len() == self.graph.spec_nodes().len()
        &&& self.null_chunks@.len() == self.graph.spec_nodes().len()
        &&& forall|i: int| 0 <= i < self.columns@.len() ==> (#[trigger] self.columns@[i]).wf()
    }

    /// A well-formed executor has one column, one kernel slot and one list of null
    /// buffers per node, and every column is well-formed.
    pub proof fn lemma_wf_lengths(&self)
        requires
            self.wf(),
        ensures
            self.spec_graph().wf(),
            self.spec_columns().len() == self.node_count(),
            self.spec_has_kernel().len() == self.node_count(),
            self.spec_kernels().len() == self.node_count(),
            self.spec_nulls().len() == self.node_count(),
            forall|i: int| 0 <= i < self.node_count() ==> (#[trigger] self.spec_columns()[i]).wf(),
    {
    }

    /// Creates an executor; source nodes carry `None` as their kernel.
    pub fn new(
        graph: Graph,
        columns: Vec<ChunkedColumn<T>>,
        kernels: Vec<Option<Box<dyn Kernel<T>>>>,
    ) -> (e: Self)
        requires
            graph.wf(),
            columns@.len() == graph.spec_nodes().len(),
            kernels@.len() == graph.spec_nodes().len(),
            forall|i: int| 0 <= i < columns@.len() ==> (#[trigger] columns@[i]).wf(),
        ensures
            e.wf(),
            e.spec_graph() == graph,
            e.spec_columns() == columns@,
            e.spec_nulls().len() == graph.spec_nodes().len(),
            e.spec_has_kernel() == kernels@.map_values(|k: Option<Box<dyn Kernel<T>>>| k is Some),
            e.spec_kernels() == kernels@,
            e.spec_warnings()@ == Seq::<Seq<char>>::empty(),
            e.spec_warnings().spec_cap() == 1000,
            e.spec_failure_mode() == FailureMode::Soft,
            !e.spec_purity_check(),
            forall|i: int|
                0 <= i < columns@.len() ==> (#[trigger] e.spec_nulls()[i]) == Seq::new(
                    columns@[i].spec_chunks().len(),
                    |_c: int| None::<Seq<bool>>,
                ),
    {
        let n = graph.len();
        let mut null_chunks: Vec<Vec<Option<NullBuffer>>> = Vec::new();
        let mut i: usize = 0;
        while i < n
            invariant
                0 <= i <= n,
                n == columns@.len(),
                null_chunks@.len() == i,
                forall|j: int|
                    0 <= j < i ==> (#[trigger] null_chunks@[j])@.len() == columns@[j].spec_chunks().len()
                        && forall|c: int| 0 <= c < null_chunks@[j]@.len() ==> null_chunks@[j]@[c] is None,
            decreases n - i,
        {
            let count = columns[i].chunk_count();
            let mut v: Vec<Option<NullBuffer>> = Vec::new();
            let mut c: usize = 0;
            while c < count
                invariant
                    0 <= c <= count,
                    v@.len() == c,
                    forall|k: int| 0 <= k < c ==> v@[k] is None,
                decreases count - c,
            {
                v.push(None);
                c = c + 1;
            }
            null_chunks.push(v);
            i = i + 1;
        }
        let e = Executor {
            graph,
            columns,
            kernels,
            null_chunks,
            warnings: WarningCollector::new(1000),
            failure_mode: FailureMode::Soft,
            debug_purity_check: false,
        };
        proof {
            assert forall|i: int| 0 <= i < n implies (#[trigger] e.spec_nulls()[i]) == Seq::new(
                e.columns@[i].spec_chunks().len(),
                |_c: int| None::<Seq<bool>>,
            ) by {
                assert(e.spec_nulls()[i] =~= Seq::new(
                    e.columns@[i].spec_chunks().len(),
                    |_c: int| None::<Seq<bool>>,
                ));
            }
        }
        e
    }

    /// Sets how a failing kernel is handled.
    pub fn set_failure_mode(&mut self, mode: FailureMode)
        ensures
            final(self).spec_failure_mode() == mode,
            final(self).spec_graph() == old(self).spec_graph(),
            final(self).spec_columns() == old(self).spec_columns(),
            final(self).spec_has_kernel() == old(self).spec_has_kernel(),
            final(self).spec_kernels() == old(self).spec_kernels(),
            final(self).spec_nulls() == old(self).spec_nulls(),
            final(self).spec_warnings() == old(self).spec_warnings(),
            final(self).spec_purity_check() == old(self).spec_purity_check(),
            old(self).wf() ==> final(self).wf(),
    {
        self.failure_mode = mode;
    }

    /// Turns the purity check on or off.
    pub fn set_debug_purity_check(&mut self, on: bool)
        ensures
            final(self).spec_purity_check() == on,
            final(self).spec_graph() == old(self).spec_graph(),
            final(self).spec_columns() == old(self).spec_columns(),
            final(self).spec_has_kernel() == old(self).spec_has_kernel(),
            final(self).spec_kernels() == old(self).spec_kernels(),
            final(self).spec_nulls() == old(self).spec_nulls(),
            final(self).spec_warnings() == old(self).spec_warnings(),
            final(self).spec_failure_mode() == old(self).spec_failure_mode(),
            old(self).wf() ==> final(self).wf(),
    {
        self.debug_purity_check = on;
    }

    /// Read-only access to the column for `id`.
    pub fn column(&self, id: NodeId) -> (c: &ChunkedColumn<T>)
        requires
            self.wf(),
            id@ < self.node_count(),
        ensures
            *c == self.spec_columns()[id@],
    {
        &self.columns[id.index()]
    }

    /// Mutable access to the column for `id`.
    pub fn column_mut(&mut self, id: NodeId) -> (c: &mut ChunkedColumn<T>)
        requires
            old(self).wf(),
            id@ < old(self).node_count(),
        ensures
            *c == old(self).spec_columns()[id@],
            final(self).spec_columns() == old(self).spec_columns().update(id@, *final(c)),
            final(self).spec_graph() == old(self).spec_graph(),
            final(self).spec_has_kernel() == old(self).spec_has_kernel(),
            final(self).spec_kernels() == old(self).spec_kernels(),
            final(self).spec_nulls() == old(self).spec_nulls(),
            final(self).spec_warnings() == old(self).spec_warnings(),
            final(self).spec_failure_mode() == old(self).spec_failure_mode(),
            final(self).spec_purity_check() == old(self).spec_purity_check(),
            final(c).wf() ==> final(self).wf(),
    {
        &mut self.columns[id.index()]
    }

    /// The kernel of node `id` (`None` for a source node).
    pub fn kernel(&self, id: NodeId) -> (k: Option<&Box<dyn Kernel<T>>>)
        requires
            self.wf(),
            id@ < self.node_count(),
        ensures
            (k is Some) == self.spec_has_kernel()[id@],
            match k {
                Some(b) => self.spec_kernels()[id@] == Some(*b),
                None => self.spec_kernels()[id@] is None,
            },
    {
        match &self.kernels[id.index()] {
            Some(b) => Some(b),
            None => None,
        }
    }

    /// The graph.
    pub fn graph(&self) -> (g: &Graph)
        ensures
            *g == self.spec_graph(),
    {
        &self.graph
    }

    /// Drains and returns all collected warnings.
    pub fn drain_warnings(&mut self) -> (v: Vec<String>)
        ensures
            v@.map_values(|w: String| w@) == old(self).spec_warnings()@,
            final(self).spec_warnings()@ == Seq::<Seq<char>>::empty(),
            final(self).spec_warnings().spec_cap() == old(self).spec_warnings().spec_cap(),
            final(self).spec_graph() == old(self).spec_graph(),
            final(self).spec_columns() == old(self).spec_columns(),
            final(self).spec_has_kernel() == old(self).spec_has_kernel(),
            final(self).spec_kernels() == old(self).spec_kernels(),
            final(self).spec_nulls() == old(self).spec_nulls(),
            final(self).spec_failure_mode() == old(self).spec_failure_mode(),
            final(self).spec_purity_check() == old(self).spec_purity_check(),
            old(self).wf() ==> final(self).wf(),
    {
        self.warnings.drain()
    }

    /// Whether a chunk's kernel is to be run a second time and the outputs compared: only
    /// with the purity check on, and only after a run that did not fail.
    pub fn purity_check_due(&self, failed: bool) -> (r: bool)
        ensures
            r == (self.spec_purity_check() && !failed),
    {
        self.debug_purity_check && !failed
    }

    /// Records the outcome of a purity check of chunk `chunk_idx` of `node`: when the two
    /// runs disagree, a warning is collected.
    pub fn record_purity_check(&mut self, node: NodeId, chunk_idx: usize, outputs_agree: bool)
        requires
            old(self).wf(),
            node@ < old(self).node_count(),
        ensures
            final(self).wf(),
            final(self).spec_graph() == old(self).spec_graph(),
            final(self).spec_columns() == old(self).spec_columns(),
            final(self).spec_has_kernel() == old(self).spec_has_kernel(),
            final(self).spec_kernels() == old(self).spec_kernels(),
            final(self).spec_nulls() == old(self).spec_nulls(),
            final(self).spec_failure_mode() == old(self).spec_failure_mode(),
            final(self).spec_purity_check() == old(self).spec_purity_check(),
            final(self).spec_warnings().spec_cap() == old(self).spec_warnings().spec_cap(),
            final(self).spec_warnings()@ == if outputs_agree || old(self).spec_warnings()@.len()
                >= old(self).spec_warnings().spec_cap() {
                old(self).spec_warnings()@
            } else {
                old(self).spec_warnings()@.push(
                    purity_warning(old(self).spec_graph().spec_nodes()[node@].name@, chunk_idx),
                )
            },
    {
        if !outputs_agree {
            let name = self.graph.node(node).name;
            let w = purity_warning_text(name, chunk_idx);
            self.warnings.push(w.as_str());
        }
    }

    /// Returns the null buffer for a single (`node_id`, `chunk_idx`) pair, if any.
    pub fn null_chunk(&self, node_id: NodeId, chunk_idx: usize) -> (r: Option<&NullBuffer>)
        ensures
            (r is Some) == (node_id@ < self.spec_nulls().len() && chunk_idx < self.spec_nulls()[node_id@].len()
                && self.spec_nulls()[node_id@][chunk_idx as int] is Some),
            r is Some ==> Some(validity_bits(*r.unwrap())) == self.spec_nulls()[node_id@][chunk_idx as int],
    {
        let i = node_id.index();
        if i < self.null_chunks.len() {
            let v = &self.null_chunks[i];
            if chunk_idx < v.len() {
                match &v[chunk_idx] {
                    Some(n) => Some(n),
                    None => None,
                }
            } else {
                None
            }
        } else {
            None
        }
    }

    /// Starts the visit of `node` in a compute cycle: a clean node needs nothing; a dirty
    /// source node only has its dirty flags cleared; a dirty derived node yields the
    /// indices of its dirty chunks (in increasing order), to be recomputed one by one.
    pub fn begin_node(&mut self, node: NodeId) -> (step: NodeStep)
        requires
            old(self).wf(),
            node@ < old(self).node_count(),
        ensures
            final(self).wf(),
            final(self).spec_graph() == old(self).spec_graph(),
            final(self).spec_has_kernel() == old(self).spec_has_kernel(),
            final(self).spec_kernels() == old(self).spec_kernels(),
            final(self).spec_nulls() == old(self).spec_nulls(),
            final(self).spec_warnings() == old(self).spec_warnings(),
            final(self).spec_failure_mode() == old(self).spec_failure_mode(),
            final(self).spec_purity_check() == old(self).spec_purity_check(),
            old(self).spec_columns()[node@].dirty_set() == Set::<u32>::empty() ==> step is Clean
                && final(self).spec_columns() == old(self).spec_columns(),
            old(self).spec_columns()[node@].dirty_set() != Set::<u32>::empty()
                && !old(self).spec_has_kernel()[node@] ==> step is SourceCleared && final(self).spec_columns() == old(self).spec_columns().update(
                node@,
                final(self).spec_columns()[node@],
            ) && final(self).spec_columns()[node@].spec_chunks()
                == old(self).spec_columns()[node@].spec_chunks() && final(self).spec_columns()[node@].dirty_set() == Set::<u32>::empty(),
            old(self).spec_columns()[node@].dirty_set() != Set::<u32>::empty()
                && old(self).spec_has_kernel()[node@] ==> step is Compute && final(self).spec_columns()
                == old(self).spec_columns(),
            step matches NodeStep::Compute(v) ==> dirty_schedule(old(self).spec_columns()[node@], v@),
    {
        let i = node.index();
        if !self.columns[i].is_dirty() {
            return NodeStep::Clean;
        }
        if self.kernels[i].is_none() {
            self.columns[i].clear_dirty();
            proof {
                assert(self.columns@ =~= old(self).columns@.update(i as int, self.columns@[i as int]));
            }
            return NodeStep::SourceCleared;
        }
        let pairs = self.columns[i].dirty_chunks();
        let mut v: Vec<usize> = Vec::new();
        let mut k: usize = 0;
        while k < pairs.len()
            invariant
                0 <= k <= pairs@.len(),
                v@.len() == k,
                forall|p: int| 0 <= p < k ==> v@[p] == (#[trigger] pairs@[p]).0,
            decreases pairs@.len() - k,
        {
            v.push(pairs[k].0);
            k = k + 1;
        }
        proof {
            let col = old(self).spec_columns()[node@];
            assert(self.columns@[i as int] == col);
            assert forall|p: int| 0 <= p < v@.len() implies (#[trigger] v@[p]) < col.spec_chunks().len()
                && v@[p] <= u32::MAX && col.dirty_set().contains(v@[p] as u32) by {
                assert(v@[p] == pairs@[p].0);
            }
            assert forall|p: int, q: int| 0 <= p < q < v@.len() implies v@[p] < v@[q] by {
                assert(v@[p] == pairs@[p].0);
                assert(v@[q] == pairs@[q].0);
            }
            assert forall|x: u32|
                col.dirty_set().contains(x) && (x as int) < col.spec_chunks().len() implies exists|p: int|
                    0 <= p < v@.len() && #[trigger] v@[p] == x as usize by {
                assert(exists|p: int| 0 <= p < pairs@.len() && #[trigger] pairs@[p].0 == x as usize);
                let p = choose|p: int| 0 <= p < pairs@.len() && #[trigger] pairs@[p].0 == x as usize;
                assert(v@[p] == pairs@[p].0);
            }
            assert(dirty_schedule(col, v@));
        }
        NodeStep::Compute(v)
    }

    /// Gathers the inputs of one chunk of `node`: for each input node (in order), the
    /// values of its chunk `chunk_idx` (empty when it has no such chunk) and its recorded
    /// null buffer for that chunk.
    pub fn gather_inputs(&self, node: NodeId, chunk_idx: usize) -> (r: (Vec<Vec<T>>, Vec<Option<NullBuffer>>))
        requires
            self.wf(),
            node@ < self.node_count(),
        ensures
            r.0@.len() == self.spec_graph().inputs_of(node@).len(),
            r.1@.len() == self.spec_graph().inputs_of(node@).len(),
            forall|k: int|
                0 <= k < r.0@.len() ==> #[trigger] self.gathered(
                    self.spec_graph().inputs_of(node@)[k]@,
                    chunk_idx,
                    r.0@[k]@,
                    null_view(r.1@[k]),
                ),
    {
        let inputs = &self.graph.node(node).inputs;
        proof {
            node.lemma_view_bounds();
            self.graph.lemma_inputs_in_range(node@);
        }
        let mut values: Vec<Vec<T>> = Vec::new();
        let mut nulls: Vec<Option<NullBuffer>> = Vec::new();
        let mut k: usize = 0;
        while k < inputs.len()
            invariant
                0 <= k <= inputs@.len(),
                self.wf(),
                node@ < self.node_count(),
                inputs@ == self.spec_graph().inputs_of(node@),
                forall|j: int| 0 <= j < inputs@.len() ==> (#[trigger] inputs@[j])@ < self.node_count(),
                values@.len() == k,
                nulls@.len() == k,
                forall|j: int|
                    0 <= j < k ==> #[trigger] self.gathered(inputs@[j]@, chunk_idx, values@[j]@, null_view(nulls@[j])),
            decreases inputs@.len() - k,
        {
            let u = inputs[k].index();
            let col = &self.columns[u];
            let chunks = col.chunks();
            let vals = if chunk_idx < chunks.len() {
                copy_slice(chunks[chunk_idx].values())
            } else {
                Vec::new()
            };
            let row = &self.null_chunks[u];
            let nb = if chunk_idx < row.len() {
                match &row[chunk_idx] {
                    Some(b) => Some(null_clone(b)),
                    None => None,
                }
            } else {
                None
            };
            proof {
                assert(u == inputs@[k as int]@);
                assert(col == self.spec_columns()[u as int]);
                assert(chunks@.map_values(|c: AlignedChunk<T>| c@) == col.spec_chunks());
                if chunk_idx < chunks@.len() {
                    assert(col.spec_chunks()[chunk_idx as int] == chunks@[chunk_idx as int]@);
                }
                assert(self.spec_nulls()[u as int] == row@.map_values(
                    |o: Option<NullBuffer>|
                        match o {
                            Some(n) => Some(validity_bits(n)),
                            None => None,
                        },
                ));
                if chunk_idx < row@.len() {
                    assert(self.spec_nulls()[u as int][chunk_idx as int] == null_view(row@[chunk_idx as int]));
                }
            }
            let ghost pv = values@;
            let ghost pn = nulls@;
            values.push(vals);
            nulls.push(nb);
            proof {
                assert(self.gathered(inputs@[k as int]@, chunk_idx, values@[k as int]@, null_view(nulls@[k as int])));
                assert forall|j: int| 0 <= j < k + 1 implies #[trigger] self.gathered(
                    inputs@[j]@,
                    chunk_idx,
                    values@[j]@,
                    null_view(nulls@[j]),
                ) by {
                    if j < k {
                        assert(values@[j] == pv[j]);
                        assert(nulls@[j] == pn[j]);
                    }
                }
            }
            k = k + 1;
        }
        (values, nulls)
    }

    /// Completes one chunk of `node` with the outcome of its kernel: the computed values,
    /// or the message of a kernel failure.
    ///
    /// A failure under [`FailureMode::Hard`] returns the error and changes nothing.  Under
    /// [`FailureMode::Soft`] a warning is collected and the chunk is written as `chunk_len`
    /// default values, all null.  Otherwise the values are written and the chunk's null
    /// buffer is the AND of the inputs' null buffers.  The written chunk replaces chunk
    /// `chunk_idx`, or is appended when the column has no such chunk; the chunk's dirty
    /// flag is cleared.  Returns the number of nulls in the written chunk, if it has a
    /// null buffer.
    pub fn finish_chunk(
        &mut self,
        node: NodeId,
        chunk_idx: usize,
        outcome: Result<Vec<T>, String>,
        input_nulls: &[Option<NullBuffer>],
        chunk_len: usize,
    ) -> (r: Result<Option<usize>, ExecutionError>)
        requires
            old(self).wf(),
            node@ < old(self).node_count(),
            chunk_len <= CHUNK_SIZE,
            outcome matches Ok(v) ==> v@.len() <= CHUNK_SIZE,
            exists|len: int| bits_lengths(null_views(input_nulls@), len),
            old(self).spec_columns()[node@].spec_rows().len() + CHUNK_SIZE <= usize::MAX,
        ensures
            final(self).wf(),
            final(self).spec_graph() == old(self).spec_graph(),
            final(self).spec_has_kernel() == old(self).spec_has_kernel(),
            final(self).spec_kernels() == old(self).spec_kernels(),
            final(self).spec_failure_mode() == old(self).spec_failure_mode(),
            final(self).spec_purity_check() == old(self).spec_purity_check(),
            match outcome {
                Err(msg) => old(self).spec_failure_mode() == FailureMode::Hard ==> {
                    &&& r matches Err(e) && e.node == node && e.chunk_idx == chunk_idx && e.message@ == msg@
                    &&& final(self).spec_columns() == old(self).spec_columns()
                    &&& final(self).spec_nulls() == old(self).spec_nulls()
                    &&& final(self).spec_warnings() == old(self).spec_warnings()
                },
                Ok(_) => true,
            },
            !(outcome is Err && old(self).spec_failure_mode() == FailureMode::Hard) ==> {
                let failed = outcome is Err;
                let old_col = old(self).spec_columns()[node@];
                let new_col = final(self).spec_columns()[node@];
                let pos = if chunk_idx < old_col.spec_chunks().len() {
                    chunk_idx as int
                } else {
                    old_col.spec_chunks().len() as int
                };
                let written = new_col.spec_chunks()[pos];
                let nulls = if failed {
                    Some(Seq::new(chunk_len as nat, |_i: int| false))
                } else {
                    with_nulls(combine_bits(null_views(input_nulls@)))
                };
                &&& final(self).spec_columns() == old(self).spec_columns().update(node@, new_col)
                &&& new_col.spec_chunks() == if chunk_idx < old_col.spec_chunks().len() {
                    old_col.spec_chunks().update(chunk_idx as int, written)
                } else {
                    old_col.spec_chunks().push(written)
                }
                &&& (outcome matches Ok(v) ==> written == v@)
                &&& (failed ==> written.len() == chunk_len && forall|k: int|
                    0 <= k < chunk_len ==> call_ensures(T::default, (), #[trigger] written[k]))
                &&& new_col.dirty_set() == old_col.dirty_set().remove(chunk_idx as u32)
                &&& final(self).spec_nulls() == old(self).spec_nulls().update(
                    node@,
                    set_slot(old(self).spec_nulls()[node@], chunk_idx as int, nulls),
                )
                &&& final(self).spec_warnings()@ == match outcome {
                    Err(msg) => {
                        let w = failure_warning(
                            old(self).spec_graph().spec_nodes()[node@].name@,
                            chunk_idx,
                            msg@,
                        );
                        if old(self).spec_warnings()@.len() < old(self).spec_warnings().spec_cap() {
                            old(self).spec_warnings()@.push(w)
                        } else {
                            old(self).spec_warnings()@
                        }
                    },
                    Ok(_) => old(self).spec_warnings()@,
                }
                &&& final(self).spec_warnings().spec_cap() == old(self).spec_warnings().spec_cap()
                &&& r == Ok::<Option<usize>, ExecutionError>(
                    match nulls {
                        Some(b) => Some(count_false(b) as usize),
                        None => None,
                    },
                )
            },
    {
        let i = node.index();
        let failed: bool;
        let values: Vec<T> = match outcome {
            Ok(v) => {
                failed = false;
                v
            },
            Err(msg) => {
                match self.failure_mode {
                    FailureMode::Hard => {
                        return Err(ExecutionError { node, chunk_idx, message: msg });
                    },
                    FailureMode::Soft => {
                        let name = self.graph.node(node).name;
                        let w = failure_warning_text(name, chunk_idx, msg.as_str());
                        self.warnings.push(w.as_str());
                        failed = true;
                        default_values(chunk_len)
                    },
                }
            },
        };
        let mut refs: Vec<Option<&NullBuffer>> = Vec::new();
        let mut k: usize = 0;
        while k < input_nulls.len()
            invariant
                0 <= k <= input_nulls@.len(),
                refs@.len() == k,
                validity_views(refs@) == null_views(input_nulls@.take(k as int)),
            decreases input_nulls@.len() - k,
        {
            let o = match &input_nulls[k] {
                Some(b) => Some(b),
                None => None,
            };
            let ghost prev = refs@;
            refs.push(o);
            proof {
                assert(crate::kernel::present_validity(o) == null_view(input_nulls@[k as int]));
                assert forall|j: int| 0 <= j < k + 1 implies #[trigger] validity_views(refs@)[j] == null_views(
                    input_nulls@.take(k as int + 1),
                )[j] by {
                    if j < k {
                        assert(refs@[j] == prev[j]);
                        assert(validity_views(prev)[j] == null_views(input_nulls@.take(k as int))[j]);
                    }
                }
                assert(validity_views(refs@) =~= null_views(input_nulls@.take(k as int + 1)));
            }
            k = k + 1;
        }
        proof {
            assert(input_nulls@.take(k as int) =~= input_nulls@);
        }
        let nulls: Option<NullBuffer> = if failed {
            Some(all_null(chunk_len))
        } else {
            propagate_nulls(refs.as_slice())
        };
        let count = match &nulls {
            Some(b) => Some(null_count(b)),
            None => None,
        };
        let chunk = AlignedChunk::new(values.as_slice());
        let ghost before = self.columns@[i as int];
        proof {
            if chunk_idx < before.spec_chunks().len() {
                crate::column::lemma_concat_update_len(before.spec_chunks(), chunk_idx as int, chunk@);
            }
        }
        if chunk_idx < self.columns[i].chunk_count() {
            self.columns[i].replace_chunk(chunk_idx, chunk);
        } else {
            self.columns[i].push_chunk(chunk);
        }
        self.columns[i].clear_dirty_chunk(chunk_idx);
        proof {
            assert(self.columns@ =~= old(self).columns@.update(i as int, self.columns@[i as int]));
        }
        self.set_null_chunk(i, chunk_idx, nulls);
        Ok(count)
    }

    /// Records the null buffer of one chunk, extending the node's list with `None` as needed.
    fn set_null_chunk(&mut self, i: usize, chunk_idx: usize, nulls: Option<NullBuffer>)
        requires
            i < old(self).null_chunks@.len(),
        ensures
            final(self).spec_nulls() == old(self).spec_nulls().update(
                i as int,
                set_slot(old(self).spec_nulls()[i as int], chunk_idx as int, null_view(nulls)),
            ),
            final(self).null_chunks@.len() == old(self).null_chunks@.len(),
            final(self).graph == old(self).graph,
            final(self).columns == old(self).columns,
            final(self).kernels == old(self).kernels,
            final(self).warnings == old(self).warnings,
            final(self).failure_mode == old(self).failure_mode,
            final(self).debug_purity_check == old(self).debug_purity_check,
    {
        let mut row: Vec<Option<NullBuffer>> = Vec::new();
        std::mem::swap(&mut row, &mut self.null_chunks[i]);
        let ghost old_row = row@;
        while row.len() <= chunk_idx
            invariant
                old_row.len() <= row@.len(),
                forall|c: int| 0 <= c < old_row.len() ==> row@[c] == old_row[c],
                forall|c: int| old_row.len() <= c < row@.len() ==> row@[c] is None,
                row@.len() <= if chunk_idx + 1 > old_row.len() { chunk_idx + 1 } else { old_row.len() as int },
            decreases chunk_idx + 1 - row@.len(),
        {
            row.push(None);
        }
        row.set(chunk_idx, nulls);
        self.null_chunks.set(i, row);
        proof {
            let expect = set_slot(old(self).spec_nulls()[i as int], chunk_idx as int, null_view(nulls));
            assert(self.spec_nulls()[i as int] =~= expect);
            assert(self.spec_nulls() =~= old(self).spec_nulls().update(i as int, expect));
        }
    }

    /// Marks `source` and every node it reaches dirty: each reached node's column marks the
    /// chunks of the row range that [`Graph::propagate_dirty`] gives it.
    pub fn mark_source_dirty(&mut self, source: NodeId, row_range: std::ops::Range<usize>)
        requires
            old(self).wf(),
            source@ < old(self).node_count(),
        ensures
            final(self).wf(),
            final(self).spec_graph() == old(self).spec_graph(),
            final(self).spec_has_kernel() == old(self).spec_has_kernel(),
            final(self).spec_kernels() == old(self).spec_kernels(),
            final(self).spec_nulls() == old(self).spec_nulls(),
            final(self).spec_warnings() == old(self).spec_warnings(),
            final(self).spec_failure_mode() == old(self).spec_failure_mode(),
            final(self).spec_purity_check() == old(self).spec_purity_check(),
            final(self).spec_columns().len() == old(self).spec_columns().len(),
            forall|w: int|
                0 <= w < old(self).node_count() ==> {
                    &&& (#[trigger] final(self).spec_columns()[w]).spec_chunks() == old(self).spec_columns()[w].spec_chunks()
                    &&& final(self).spec_columns()[w].dirty_set() == match dirty_range(
                        old(self).spec_graph().spec_nodes(),
                        source@,
                        range_view(row_range),
                        w,
                    ) {
                        Some(rw) => marked_dirty(old(self).spec_columns()[w].dirty_set(), rw),
                        None => old(self).spec_columns()[w].dirty_set(),
                    }
                },
    {
        let dirty = self.graph.propagate_dirty(source, row_range);
        let n = self.columns.len();
        let mut w: usize = 0;
        while w < n
            invariant
                0 <= w <= n,
                n == old(self).columns@.len(),
                self.columns@.len() == n,
                self.graph == old(self).graph,
                self.kernels == old(self).kernels,
                self.null_chunks == old(self).null_chunks,
                self.warnings == old(self).warnings,
                self.failure_mode == old(self).failure_mode,
                self.debug_purity_check == old(self).debug_purity_check,
                old(self).wf(),
                dirty@.len() == n,
                forall|v: int|
                    0 <= v < n ==> #[trigger] dirty@[v] == dirty_range(
                        old(self).graph.spec_nodes(),
                        source@,
                        range_view(row_range),
                        v,
                    ),
                forall|v: int| 0 <= v < n ==> (#[trigger] self.columns@[v]).wf(),
                forall|v: int|
                    0 <= v < n ==> (#[trigger] self.columns@[v]).spec_chunks() == old(self).columns@[v].spec_chunks(),
                forall|v: int|
                    w <= v < n ==> (#[trigger] self.columns@[v]).dirty_set() == old(self).columns@[v].dirty_set(),
                forall|v: int|
                    0 <= v < w ==> (#[trigger] self.columns@[v]).dirty_set() == match dirty@[v] {
                        Some(rv) => marked_dirty(old(self).columns@[v].dirty_set(), rv),
                        None => old(self).columns@[v].dirty_set(),
                    },
            decreases n - w,
        {
            match dirty.range_at(w) {
                Some(r) => {
                    self.columns[w].mark_dirty(r);
                },
                None => {},
            }
            w = w + 1;
        }
    }
}

/// The dirty set `s` after the flags of the chunks `v` are cleared one by one.
pub open spec fn clear_all(s: Set<u32>, v: Seq<usize>) -> Set<u32>
    decreases v.len(),
{
    if v.len() == 0 {
        s
    } else {
        clear_all(s, v.drop_last()).remove(v.last() as u32)
    }
}

/// An integer stays after clearing the chunks `v` exactly when it was there and no entry
/// of `v` names it.
proof fn lemma_clear_all_contains(s: Set<u32>, v: Seq<usize>, x: u32)
    ensures
        clear_all(s, v).contains(x) <==> (s.contains(x) && forall|p: int| 0 <= p < v.len() ==> #[trigger] v[p] as u32 != x),
    decreases v.len(),
{
    if v.len() > 0 {
        lemma_clear_all_contains(s, v.drop_last(), x);
        if s.contains(x) && (forall|p: int| 0 <= p < v.drop_last().len() ==> #[trigger] v.drop_last()[p] as u32 != x)
            && v.last() as u32 != x {
            assert forall|p: int| 0 <= p < v.len() implies #[trigger] v[p] as u32 != x by {
                if p < v.len() - 1 {
                    assert(v.drop_last()[p] == v[p]);
                }
            }
        }
        if forall|p: int| 0 <= p < v.len() ==> #[trigger] v[p] as u32 != x {
            assert(v[v.len() - 1] as u32 != x);
            assert forall|p: int| 0 <= p < v.drop_last().len() implies #[trigger] v.drop_last()[p] as u32 != x by {
                assert(v.drop_last()[p] == v[p]);
            }
        }
    }
}

/// Law: once every chunk that a node's visit scheduled has been written (each write
/// clears its chunk's flag), no chunk of the column is left dirty; only flags past the
/// last chunk, which name no chunk, can remain.
pub proof fn law_schedule_clears_dirty<T>(col: ChunkedColumn<T>, v: Seq<usize>, x: u32)
    requires
        dirty_schedule(col, v),
        clear_all(col.dirty_set(), v).contains(x),
    ensures
        x as int >= col.spec_chunks().len(),
{
    lemma_clear_all_contains(col.dirty_set(), v, x);
    if (x as int) < col.spec_chunks().len() {
        let p = choose|p: int| 0 <= p < v.len() && #[trigger] v[p] == x as usize;
        assert(v[p] as u32 == x);
    }
}

/// Law: over a compute cycle, a node either has its flags cleared outright (a clean or
/// source node) or has each chunk its visit scheduled rewritten in place with the flag
/// cleared; afterwards no column has a dirty chunk left, only flags past its last chunk.
pub proof fn law_cycle_leaves_no_dirty_chunk<T>(
    before: Seq<ChunkedColumn<T>>,
    after: Seq<ChunkedColumn<T>>,
    schedules: Seq<Seq<usize>>,
)
    requires
        after.len() == before.len(),
        schedules.len() == before.len(),
        forall|w: int|
            0 <= w < before.len() ==> (#[trigger] after[w]).dirty_set() == Set::<u32>::empty() || (
            dirty_schedule(before[w], schedules[w]) && after[w].dirty_set() == clear_all(
                before[w].dirty_set(),
                schedules[w],
            ) && after[w].spec_chunks().len() == before[w].spec_chunks().len()),
    ensures
        forall|w: int, x: u32|
            0 <= w < after.len() && #[trigger] after[w].dirty_set().contains(x) ==> x as int
                >= after[w].spec_chunks().len(),
{
    assert forall|w: int, x: u32|
        0 <= w < after.len() && #[trigger] after[w].dirty_set().contains(x) implies x as int
            >= after[w].spec_chunks().len() by {
        if after[w].dirty_set() != Set::<u32>::empty() {
            law_schedule_clears_dirty(before[w], schedules[w], x);
        }
    }
}

/// Law: when every dirty flag before a compute cycle names an existing chunk, the cycle
/// leaves no column dirty at all.
pub proof fn law_cycle_clears_every_flag<T>(
    before: Seq<ChunkedColumn<T>>,
    after: Seq<ChunkedColumn<T>>,
    schedules: Seq<Seq<usize>>,
)
    requires
        after.len() == before.len(),
        schedules.len() == before.len(),
        forall|w: int, x: u32|
            0 <= w < before.len() && #[trigger] before[w].dirty_set().contains(x) ==> (x as int)
                < before[w].spec_chunks().len(),
        forall|w: int|
            0 <= w < before.len() ==> (#[trigger] after[w]).dirty_set() == Set::<u32>::empty() || (
            dirty_schedule(before[w], schedules[w]) && after[w].dirty_set() == clear_all(
                before[w].dirty_set(),
                schedules[w],
            ) && after[w].spec_chunks().len() == before[w].spec_chunks().len()),
    ensures
        forall|w: int| 0 <= w < after.len() ==> (#[trigger] after[w]).dirty_set() == Set::<u32>::empty(),
{
    law_cycle_leaves_no_dirty_chunk(before, after, schedules);
    assert forall|w: int| 0 <= w < after.len() implies (#[trigger] after[w]).dirty_set() == Set::<u32>::empty() by {
        if after[w].dirty_set() != Set::<u32>::empty() {
            assert forall|x: u32| !after[w].dirty_set().contains(x) by {
                if after[w].dirty_set().contains(x) {
                    lemma_clear_all_contains(before[w].dirty_set(), schedules[w], x);
                    assert(before[w].dirty_set().contains(x));
                }
            }
            assert(after[w].dirty_set() =~= Set::<u32>::empty());
        }
    }
}

} // verus!
