use vertexrs::executor::input_chunk_len;
use vertexrs::text::decimal_string;
use arrow_buffer::{BooleanBuffer, NullBuffer};
use vertexrs::column::ChunkedColumn;
use vertexrs::dag::{Graph, IndexMapping, NodeId};
use vertexrs::executor::{ExecutionError, Executor, FailureMode, NodeStep, WarningCollector};
use vertexrs::kernel::{self, Kernel, UnaryKernel};

// ── WarningCollector ─────────────────────────────────────────────────────────

#[test]
fn warning_collector_push_and_drain() {
    let mut wc = WarningCollector::new(3);
    wc.push("a");
    wc.push("b");
    assert_eq!(wc.len(), 2);
    assert!(!wc.is_empty());

    let v = wc.drain();
    assert_eq!(v, ["a", "b"]);
    assert!(wc.is_empty());
}

#[test]
fn warning_collector_cap_is_respected() {
    let mut wc = WarningCollector::new(2);
    wc.push("a");
    wc.push("b");
    wc.push("c");
    assert_eq!(wc.len(), 2);
    let v = wc.drain();
    assert_eq!(v, ["a", "b"]);
}

#[test]
fn warning_collector_zero_cap_keeps_nothing() {
    let mut wc = WarningCollector::new(0);
    wc.push("a");
    assert!(wc.is_empty());
    assert!(wc.drain().is_empty());
}

#[test]
fn warning_collector_accepts_again_after_drain() {
    let mut wc = WarningCollector::new(1);
    wc.push("a");
    wc.push("b");
    assert_eq!(wc.drain(), ["a"]);
    wc.push("c");
    assert_eq!(wc.drain(), ["c"]);
}

// ── Driving a compute cycle through the executor's steps ─────────────────────

/// One compute cycle in which every kernel call returns normally.
fn run_cycle(exec: &mut Executor<f64>) -> Result<(), ExecutionError> {
    let order = exec.graph().topological_order();
    for id in order {
        match exec.begin_node(id) {
            NodeStep::Clean | NodeStep::SourceCleared => {}
            NodeStep::Compute(chunks) => {
                for c in chunks {
                    let (values, nulls) = exec.gather_inputs(id, c);
                    let slices: Vec<&[f64]> = values.iter().map(|v| v.as_slice()).collect();
                    let len = slices.first().map_or(0, |s| s.len());
                    let out = exec.kernel(id).unwrap().execute_chunk(&slices, c);
                    exec.finish_chunk(id, c, Ok(out), &nulls, len)?;
                }
            }
        }
    }
    Ok(())
}

fn three_node_exec() -> (Executor<f64>, NodeId, NodeId, NodeId) {
    let mut graph = Graph::new();
    let a_id = graph.add_node("A", &[], IndexMapping::Pointwise);
    let b_id = graph.add_node("B", &[a_id], IndexMapping::Pointwise);
    let c_id = graph.add_node("C", &[a_id, b_id], IndexMapping::Pointwise);

    let n = 512usize;
    let a_data: Vec<f64> = (1..=n).map(|i| i as f64).collect();
    let zeros = vec![0.0_f64; n];

    let columns: Vec<ChunkedColumn<f64>> = vec![
        ChunkedColumn::from_slice(&a_data),
        ChunkedColumn::from_slice(&zeros),
        ChunkedColumn::from_slice(&zeros),
    ];
    let kernels: Vec<Option<Box<dyn Kernel<f64>>>> = vec![
        None,
        Some(Box::new(UnaryKernel::new(|x: f64| x * 2.0))),
        Some(Box::new(kernel::add::<f64>())),
    ];

    let exec = Executor::new(graph, columns, kernels);
    (exec, a_id, b_id, c_id)
}

#[test]
fn integration_three_node_dag() {
    let (mut exec, a_id, b_id, c_id) = three_node_exec();
    let n = 512usize;

    exec.mark_source_dirty(a_id, 0..n);
    run_cycle(&mut exec).expect("run should succeed");

    let b = exec.column(b_id);
    for i in 0..n {
        assert_eq!(b.get(i), Some((i + 1) as f64 * 2.0), "B[{i}] mismatch");
    }
    let c = exec.column(c_id);
    for i in 0..n {
        assert_eq!(c.get(i), Some((i + 1) as f64 * 3.0), "C[{i}] mismatch");
    }
    assert!(!exec.column(a_id).is_dirty());
    assert!(!exec.column(b_id).is_dirty());
    assert!(!exec.column(c_id).is_dirty());
}

#[test]
fn run_is_idempotent_when_nothing_is_dirty() {
    let (mut exec, _a, b_id, c_id) = three_node_exec();
    exec.mark_source_dirty(b_id, 0..512);
    run_cycle(&mut exec).expect("first run ok");
    run_cycle(&mut exec).expect("second run ok");
    assert!(!exec.column(c_id).is_dirty());
}

#[test]
fn begin_node_reports_clean_source_and_dirty_chunks() {
    let (mut exec, a_id, b_id, c_id) = three_node_exec();
    assert!(matches!(exec.begin_node(b_id), NodeStep::Clean));
    exec.mark_source_dirty(a_id, 300..301);
    assert!(matches!(exec.begin_node(a_id), NodeStep::SourceCleared));
    assert!(!exec.column(a_id).is_dirty());
    match exec.begin_node(c_id) {
        NodeStep::Compute(v) => assert_eq!(v, vec![1]),
        _ => panic!("expected chunks to compute"),
    }
}

#[test]
fn partial_recompute_touches_only_dirty_chunk() {
    let (mut exec, a_id, b_id, _c) = three_node_exec();
    exec.mark_source_dirty(a_id, 0..512);
    run_cycle(&mut exec).unwrap();
    exec.column_mut(a_id)
        .replace_chunk(1, vertexrs::column::AlignedChunk::new(&[100.0_f64; 256]));
    exec.mark_source_dirty(a_id, 256..257);
    assert_eq!(exec.column(b_id).dirty_chunks().iter().map(|(i, _)| *i).collect::<Vec<_>>(), [1]);
    run_cycle(&mut exec).unwrap();
    assert_eq!(exec.column(b_id).get(0), Some(2.0));
    assert_eq!(exec.column(b_id).get(256), Some(200.0));
}

#[test]
fn gather_inputs_reads_each_input_chunk() {
    let (exec, _a, _b, c_id) = three_node_exec();
    let (values, nulls) = exec.gather_inputs(c_id, 1);
    assert_eq!(values.len(), 2);
    assert_eq!(values[0][0], 257.0);
    assert_eq!(values[1][0], 0.0);
    assert!(nulls.iter().all(|n| n.is_none()));
    let (values, _) = exec.gather_inputs(c_id, 5);
    assert!(values.iter().all(|v| v.is_empty()));
}

// ── Failure modes ────────────────────────────────────────────────────────────

fn two_node_exec() -> (Executor<f64>, NodeId, NodeId) {
    let mut graph = Graph::new();
    let a_id = graph.add_node("A", &[], IndexMapping::Pointwise);
    let b_id = graph.add_node("B", &[a_id], IndexMapping::Pointwise);
    let a_col = ChunkedColumn::from_slice(&[1.0_f64, 2.0, 3.0]);
    let b_col = ChunkedColumn::from_slice(&[0.0_f64, 0.0, 0.0]);
    let kernels: Vec<Option<Box<dyn Kernel<f64>>>> =
        vec![None, Some(Box::new(UnaryKernel::new(|x: f64| x + 1.0)))];
    let exec = Executor::new(graph, vec![a_col, b_col], kernels);
    (exec, a_id, b_id)
}

#[test]
fn soft_failure_marks_output_null_and_warns() {
    let (mut exec, a_id, b_id) = two_node_exec();
    exec.failure_mode = FailureMode::Soft;
    exec.mark_source_dirty(a_id, 0..3);
    let (_, nulls) = exec.gather_inputs(b_id, 0);
    let r = exec.finish_chunk(b_id, 0, Err("intentional panic".to_string()), &nulls, 3);
    assert_eq!(r.unwrap(), Some(3));

    let null_buf = exec.null_chunk(b_id, 0).expect("null buffer should be set");
    assert_eq!(null_buf.null_count(), 3);
    assert!(!exec.warnings.is_empty());
    let w = exec.drain_warnings();
    assert_eq!(w, ["node 'B' chunk 0: kernel failed: intentional panic"]);
    assert_eq!(exec.column(b_id).get(0), Some(0.0));
    assert!(!exec.column(b_id).is_dirty());
}

#[test]
fn hard_failure_returns_error() {
    let (mut exec, a_id, b_id) = two_node_exec();
    exec.failure_mode = FailureMode::Hard;
    exec.mark_source_dirty(a_id, 0..3);
    let (_, nulls) = exec.gather_inputs(b_id, 0);
    let result = exec.finish_chunk(b_id, 0, Err("intentional panic".to_string()), &nulls, 3);

    assert!(result.is_err());
    let err = result.unwrap_err();
    assert_eq!(err.node, b_id);
    assert_eq!(err.chunk_idx, 0);
    assert!(err.message.contains("intentional panic"));
    assert!(exec.column(b_id).is_dirty());
    assert!(exec.warnings.is_empty());
    assert!(exec.null_chunk(b_id, 0).is_none());
}

#[test]
fn default_failure_mode_is_soft() {
    assert_eq!(FailureMode::default(), FailureMode::Soft);
    let (exec, _a, _b) = two_node_exec();
    assert_eq!(exec.failure_mode, FailureMode::Soft);
    assert!(!exec.debug_purity_check);
}

#[test]
fn finish_chunk_propagates_input_nulls() {
    let (mut exec, a_id, b_id) = two_node_exec();
    exec.mark_source_dirty(a_id, 0..3);
    let nulls = vec![Some(NullBuffer::new(BooleanBuffer::from(vec![true, false, true])))];
    let r = exec.finish_chunk(b_id, 0, Ok(vec![2.0, 3.0, 4.0]), &nulls, 3);
    assert_eq!(r.unwrap(), Some(1));
    let buf = exec.null_chunk(b_id, 0).unwrap();
    assert!(buf.is_valid(0));
    assert!(buf.is_null(1));
    assert_eq!(exec.column(b_id).get(2), Some(4.0));
}

#[test]
fn finish_chunk_appends_missing_chunk() {
    let (mut exec, _a, b_id) = two_node_exec();
    let r = exec.finish_chunk(b_id, 1, Ok(vec![7.0]), &[None], 1);
    assert_eq!(r.unwrap(), None);
    assert_eq!(exec.column(b_id).chunk_count(), 2);
    assert_eq!(exec.column(b_id).get(3), Some(7.0));
    assert!(exec.null_chunk(b_id, 1).is_none());
}

#[test]
fn run_produces_no_null_buffers_for_valid_data() {
    let (mut exec, a_id, b_id, c_id) = three_node_exec();
    exec.mark_source_dirty(a_id, 0..512);
    run_cycle(&mut exec).expect("run ok");

    assert!(exec.null_chunk(b_id, 0).is_none());
    assert!(exec.null_chunk(b_id, 1).is_none());
    assert!(exec.null_chunk(c_id, 0).is_none());
    assert!(exec.null_chunk(c_id, 1).is_none());
}

#[test]
fn execution_error_text_names_node_chunk_and_message() {
    let (mut exec, a_id, b_id) = two_node_exec();
    exec.failure_mode = FailureMode::Hard;
    exec.mark_source_dirty(a_id, 0..3);
    let err = exec
        .finish_chunk(b_id, 0, Err("boom".to_string()), &[None], 3)
        .unwrap_err();
    assert_eq!(err.to_string(), "execution error at node NodeId(1) chunk 0: boom");
}

#[test]
fn cycle_clears_every_scheduled_chunk() {
    let mut graph = Graph::new();
    let a = graph.add_node("A", &[], IndexMapping::Pointwise);
    let s = graph.add_node("S", &[a], IndexMapping::Scatter);
    let data: Vec<f64> = (0..300).map(|i| i as f64).collect();
    let kernels: Vec<Option<Box<dyn Kernel<f64>>>> =
        vec![None, Some(Box::new(UnaryKernel::new(|x: f64| -x)))];
    let mut exec = Executor::new(
        graph,
        vec![ChunkedColumn::from_slice(&data), ChunkedColumn::from_slice(&data)],
        kernels,
    );
    exec.mark_source_dirty(a, 5..6);
    assert_eq!(
        exec.column(s).dirty_chunks().iter().map(|(i, _)| *i).collect::<Vec<_>>(),
        [0, 1]
    );
    run_cycle(&mut exec).unwrap();
    assert!(exec.column(s).dirty_chunks().is_empty());
    // The blocking mapping marked flags past the last chunk; they name no chunk and stay.
    assert!(exec.column(s).is_dirty());
    assert_eq!(exec.column(s).get(299), Some(-299.0));
}

#[test]
fn setters_change_mode_and_purity_check() {
    let (mut exec, _a, _b) = two_node_exec();
    exec.set_failure_mode(FailureMode::Hard);
    exec.set_debug_purity_check(true);
    assert_eq!(exec.failure_mode, FailureMode::Hard);
    assert!(exec.debug_purity_check);
}

#[test]
fn new_executor_has_no_null_buffers() {
    let (exec, a, b, c) = three_node_exec();
    for id in [a, b, c] {
        for k in 0..3 {
            assert!(exec.null_chunk(id, k).is_none());
        }
    }
}

#[test]
fn soft_failure_writes_default_values() {
    let (mut exec, a_id, b_id) = two_node_exec();
    exec.mark_source_dirty(a_id, 0..3);
    exec.column_mut(b_id).replace_chunk(0, vertexrs::column::AlignedChunk::new(&[5.0, 5.0, 5.0]));
    exec.finish_chunk(b_id, 0, Err("x".to_string()), &[None], 3).unwrap();
    for i in 0..3 {
        assert_eq!(exec.column(b_id).get(i), Some(0.0));
    }
}

#[test]
fn failure_warning_names_multi_digit_chunk() {
    let (mut exec, _a, b_id) = two_node_exec();
    exec.finish_chunk(b_id, 1207, Err("oops".to_string()), &[None], 0).unwrap();
    assert_eq!(exec.drain_warnings(), ["node 'B' chunk 1207: kernel failed: oops"]);
}

#[test]
fn input_chunk_len_is_first_input_length() {
    assert_eq!(input_chunk_len::<f64>(&[]), 0);
    assert_eq!(input_chunk_len(&[vec![1_u8, 2, 3], vec![4]]), 3);
}

#[test]
fn decimal_text_of_integers() {
    assert_eq!(decimal_string(0), "0");
    assert_eq!(decimal_string(7), "7");
    assert_eq!(decimal_string(10), "10");
    assert_eq!(decimal_string(4096), "4096");
    assert_eq!(decimal_string(usize::MAX), usize::MAX.to_string());
}

// ── Purity check and kernel lookup ───────────────────────────────────────────

#[test]
fn purity_check_due_only_when_on_and_not_failed() {
    let (mut exec, _a, _b) = two_node_exec();
    assert!(!exec.purity_check_due(false));
    exec.set_debug_purity_check(true);
    assert!(exec.purity_check_due(false));
    assert!(!exec.purity_check_due(true));
}

#[test]
fn record_purity_check_warns_only_on_disagreement() {
    let (mut exec, _a, b_id) = two_node_exec();
    exec.record_purity_check(b_id, 3, true);
    assert!(exec.warnings.is_empty());
    exec.record_purity_check(b_id, 3, false);
    assert_eq!(
        exec.drain_warnings(),
        ["node 'B' chunk 3: purity check failed (non-deterministic output)"]
    );
}

#[test]
fn kernel_lookup_returns_each_nodes_own_kernel() {
    let (exec, a_id, b_id, c_id) = three_node_exec();
    assert!(exec.kernel(a_id).is_none());
    let x = [5.0_f64];
    let y = [7.0_f64];
    let b_out = exec.kernel(b_id).unwrap().execute_chunk(&[&x[..]], 0);
    assert_eq!(b_out, vec![10.0]);
    let c_out = exec.kernel(c_id).unwrap().execute_chunk(&[&x[..], &y[..]], 0);
    assert_eq!(c_out, vec![12.0]);
}

#[test]
fn cycle_after_in_range_marks_leaves_every_column_clean() {
    let (mut exec, a_id, b_id, c_id) = three_node_exec();
    exec.mark_source_dirty(a_id, 10..300);
    run_cycle(&mut exec).unwrap();
    for id in [a_id, b_id, c_id] {
        assert!(!exec.column(id).is_dirty());
    }
}
