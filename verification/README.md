# vertexrs

Incremental columnar computation over a DAG of typed column nodes, written in Verus.

- `src/dag.rs` — the computation graph: node registration, topological order, and
  propagation of dirty row ranges through index mappings.
- `src/column.rs` — chunked column storage (chunks of 256 elements) with a roaring
  bitmap of dirty chunk indices.
- `src/kernel.rs` — per-chunk kernels (binary, unary, conditional, arithmetic
  factories) and null-bitmap propagation over arrow null buffers.
- `src/executor.rs` — the executor's state and the steps of a compute cycle:
  scheduling a node's dirty chunks, gathering a chunk's inputs, writing a result or a
  failure, and marking a source change dirty downstream.
- `src/node.rs`, `src/bool_node.rs`, `src/string_node.rs` — named column nodes and
  the sort / filter operations of a column view.
- `src/frame.rs` — an ordered collection of uniquely named, equally long columns.
- `src/fusion.rs` — the planning of kernel fusion over the items of a pipeline.
- `src/col_ops.rs`, `src/text.rs` — element-wise column arithmetic; decimal text for messages.

`app/` holds what stays outside the verified library: type-erased frames with
floating-point columns, the compute loop that guards kernel calls against panics,
arrow array conversions, and the syntax-tree work of node and pipeline definitions.
