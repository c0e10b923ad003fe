use arrow_buffer::{BooleanBuffer, NullBuffer};
use vertexrs::kernel::{
    add, all_null, cond, div, mul, propagate_nulls, rem, sub, BinaryKernel, ChunkContract,
    CondKernel, Kernel, UnaryKernel,
};

// ── ChunkContract ────────────────────────────────────────────────────────────

#[test]
fn chunk_contract_variants_eq() {
    assert_eq!(ChunkContract::ElementIndependent, ChunkContract::ElementIndependent);
    assert_eq!(ChunkContract::FixedSize(4), ChunkContract::FixedSize(4));
    assert_ne!(ChunkContract::FixedSize(4), ChunkContract::FixedSize(8));
    assert_eq!(ChunkContract::BoundaryDependent, ChunkContract::BoundaryDependent);
}

// ── BinaryKernel ─────────────────────────────────────────────────────────────

#[test]
fn binary_kernel_add_f64() {
    let k = BinaryKernel::new(|a: f64, b: f64| a + b);
    let a = [1.0_f64, 2.0, 3.0];
    let b = [10.0_f64, 20.0, 30.0];
    assert_eq!(k.execute_chunk(&[&a, &b], 0), [11.0, 22.0, 33.0]);
    assert_eq!(k.contract(), ChunkContract::ElementIndependent);
}

#[test]
fn binary_kernel_mul_i64() {
    let k = BinaryKernel::new(|a: i64, b: i64| a * b);
    let a = [2_i64, 3, 4];
    let b = [5_i64, 6, 7];
    assert_eq!(k.execute_chunk(&[&a, &b], 0), [10, 18, 28]);
}

#[test]
fn binary_kernel_empty_chunk() {
    let k = BinaryKernel::new(|a: i32, b: i32| a - b);
    let e: [i32; 0] = [];
    assert!(k.execute_chunk(&[&e, &e], 3).is_empty());
}

// ── UnaryKernel ──────────────────────────────────────────────────────────────

#[test]
fn unary_kernel_double() {
    let k = UnaryKernel::new(|x: f64| x * 2.0);
    let a = [1.0_f64, 2.0, 3.0];
    assert_eq!(k.execute_chunk(&[&a], 0), [2.0, 4.0, 6.0]);
    assert_eq!(k.contract(), ChunkContract::ElementIndependent);
}

#[test]
fn unary_kernel_negate_i32() {
    let k = UnaryKernel::new(|x: i32| -x);
    let a = [1_i32, -2, 3];
    assert_eq!(k.execute_chunk(&[&a], 0), [-1, 2, -3]);
}

// ── CondKernel ───────────────────────────────────────────────────────────────

#[test]
fn cond_kernel_selects_correctly() {
    let k = CondKernel::<f64>::new();
    let mask = [1.0_f64, 0.0, 1.0, 0.0];
    let then = [10.0_f64, 20.0, 30.0, 40.0];
    let else_ = [100.0_f64, 200.0, 300.0, 400.0];
    assert_eq!(
        k.execute_chunk(&[&mask, &then, &else_], 0),
        [10.0, 200.0, 30.0, 400.0],
    );
}

#[test]
fn cond_kernel_all_true() {
    let k = CondKernel::<i32>::new();
    let mask = [1_i32, 2, 3];
    let then = [10_i32, 20, 30];
    let else_ = [0_i32, 0, 0];
    assert_eq!(k.execute_chunk(&[&mask, &then, &else_], 0), [10, 20, 30]);
}

#[test]
fn cond_kernel_all_false_and_contract() {
    let k = CondKernel::<i64>::new();
    let mask = [0_i64, 0];
    let then = [1_i64, 2];
    let else_ = [7_i64, 8];
    assert_eq!(k.execute_chunk(&[&mask, &then, &else_], 0), [7, 8]);
    assert_eq!(k.contract(), ChunkContract::ElementIndependent);
}

// ── Factory kernels ──────────────────────────────────────────────────────────

#[test]
fn factory_add_kernel() {
    let k = add::<f64>();
    let a = [3.0_f64, 4.0];
    let b = [1.0_f64, 2.0];
    assert_eq!(k.execute_chunk(&[&a, &b], 0), [4.0, 6.0]);
}

#[test]
fn factory_sub_kernel() {
    let k = sub::<f64>();
    assert_eq!(k.execute_chunk(&[&[10.0_f64], &[3.0_f64]], 0), [7.0]);
}

#[test]
fn factory_mul_kernel() {
    let k = mul::<i64>();
    assert_eq!(k.execute_chunk(&[&[6_i64], &[7_i64]], 0), [42]);
}

#[test]
fn factory_div_kernel() {
    let k = div::<f64>();
    assert_eq!(k.execute_chunk(&[&[10.0_f64], &[4.0_f64]], 0), [2.5]);
}

#[test]
fn factory_rem_kernel() {
    let k = rem::<i32>();
    assert_eq!(k.execute_chunk(&[&[10_i32], &[3_i32]], 0), [1]);
}

#[test]
fn factory_cond_kernel() {
    let k = cond::<f64>();
    let mask = [0.0_f64, 1.0];
    let then = [99.0_f64, 99.0];
    let else_ = [0.0_f64, 0.0];
    assert_eq!(k.execute_chunk(&[&mask, &then, &else_], 0), [0.0, 99.0]);
}

#[test]
fn factory_integer_kernels_exact() {
    assert_eq!(add::<u32>().execute_chunk(&[&[1_u32, 2], &[3_u32, 4]], 0), [4, 6]);
    assert_eq!(sub::<i32>().execute_chunk(&[&[1_i32], &[3_i32]], 0), [-2]);
    assert_eq!(div::<i64>().execute_chunk(&[&[-7_i64], &[2_i64]], 0), [-3]);
    assert_eq!(rem::<i64>().execute_chunk(&[&[-7_i64], &[2_i64]], 0), [-1]);
}

// ── propagate_nulls ──────────────────────────────────────────────────────────

#[test]
fn propagate_nulls_all_valid_returns_none() {
    assert!(propagate_nulls(&[None, None, None]).is_none());
}

#[test]
fn propagate_nulls_empty_returns_none() {
    assert!(propagate_nulls(&[]).is_none());
}

#[test]
fn propagate_nulls_single_buffer() {
    let b = NullBuffer::new(BooleanBuffer::from(vec![false, true, true]));
    let out = propagate_nulls(&[None, Some(&b)]).unwrap();
    assert!(out.is_null(0));
    assert!(out.is_valid(1));
    assert!(out.is_valid(2));
    assert_eq!(out.null_count(), 1);
}

#[test]
fn propagate_nulls_ands_two_bitmaps() {
    let a = NullBuffer::new(BooleanBuffer::from(vec![true, false, true, true]));
    let b = NullBuffer::new(BooleanBuffer::from(vec![true, true, false, true]));
    let out = propagate_nulls(&[Some(&a), Some(&b)]).unwrap();
    assert!(out.is_valid(0));
    assert!(out.is_null(1));
    assert!(out.is_null(2));
    assert!(out.is_valid(3));
    assert_eq!(out.null_count(), 2);
}

#[test]
fn propagate_nulls_three_inputs_mixed() {
    let a = NullBuffer::new(BooleanBuffer::from(vec![true, false, true]));
    let c = NullBuffer::new(BooleanBuffer::from(vec![true, true, false]));
    let out = propagate_nulls(&[Some(&a), None, Some(&c)]).unwrap();
    assert!(out.is_valid(0));
    assert!(out.is_null(1));
    assert!(out.is_null(2));
}

#[test]
fn propagate_nulls_is_order_independent() {
    let a = NullBuffer::new(BooleanBuffer::from(vec![false, true, true, false]));
    let b = NullBuffer::new(BooleanBuffer::from(vec![true, true, false, false]));
    let ab = propagate_nulls(&[Some(&a), Some(&b)]).unwrap();
    let ba = propagate_nulls(&[Some(&b), None, Some(&a)]).unwrap();
    for i in 0..4 {
        assert_eq!(ab.is_valid(i), ba.is_valid(i));
    }
    assert_eq!(ab.null_count(), 3);
}

#[test]
fn all_null_marks_every_element() {
    let n = all_null(5);
    assert_eq!(n.len(), 5);
    assert_eq!(n.null_count(), 5);
    assert!(all_null(0).is_empty());
}

// ── is_null_mask ─────────────────────────────────────────────────────────────

#[test]
fn is_null_mask_marks_nulls() {
    let validity = NullBuffer::new(BooleanBuffer::from(vec![true, false, true, false]));
    let result = vertexrs::kernel::is_null_mask(&validity, 1.0, 0.0);
    assert_eq!(result, [0.0, 1.0, 0.0, 1.0]);
}

#[test]
fn is_null_mask_integer_markers_and_empty() {
    let validity = NullBuffer::new(BooleanBuffer::from(vec![false, false, true]));
    assert_eq!(vertexrs::kernel::is_null_mask(&validity, 9_u8, 0_u8), [9, 9, 0]);
    let none = NullBuffer::new(BooleanBuffer::from(Vec::<bool>::new()));
    assert!(vertexrs::kernel::is_null_mask(&none, 1_i32, 0_i32).is_empty());
}

#[test]
fn propagate_nulls_fully_valid_buffers_return_none() {
    let a = NullBuffer::new(BooleanBuffer::from(vec![true, true]));
    let b = NullBuffer::new(BooleanBuffer::from(vec![true, true]));
    assert!(propagate_nulls(&[Some(&a)]).is_none());
    assert!(propagate_nulls(&[None, Some(&a), Some(&b)]).is_none());
}
