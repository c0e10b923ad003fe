use vertexrs::column::{AlignedChunk, ChunkedColumn, CHUNK_SIZE};

fn dirty_indices<T: Copy>(col: &ChunkedColumn<T>) -> Vec<usize> {
    col.dirty_chunks().iter().map(|(i, _)| *i).collect()
}

// ── AlignedChunk ─────────────────────────────────────────────────────────────

#[test]
fn chunk_stores_values() {
    let chunk = AlignedChunk::new(&[1.0_f64, 2.0, 3.0]);
    assert_eq!(chunk.values(), [1.0, 2.0, 3.0]);
    assert_eq!(chunk.len(), 3);
    assert!(!chunk.is_full());
    assert!(!chunk.is_empty());
}

#[test]
fn chunk_full_at_chunk_size() {
    let data: Vec<f64> = (0..CHUNK_SIZE).map(|i| i as f64).collect();
    let chunk = AlignedChunk::new(&data);
    assert!(chunk.is_full());
    assert_eq!(chunk.len(), CHUNK_SIZE);
}

#[test]
fn chunk_empty() {
    let chunk = AlignedChunk::<u8>::new(&[]);
    assert!(chunk.is_empty());
    assert!(!chunk.is_full());
    assert_eq!(chunk.len(), 0);
}

// ── ChunkedColumn ────────────────────────────────────────────────────────────

#[test]
fn column_from_slice_splits_at_chunk_size() {
    let data: Vec<f64> = (0..600).map(|i| i as f64).collect();
    let col = ChunkedColumn::from_slice(&data);

    assert_eq!(col.chunk_count(), 3);
    assert_eq!(col.len(), 600);
    assert!(col.iter_chunks().take(2).all(AlignedChunk::is_full));
    assert!(!col.iter_chunks().last().unwrap().is_full());
    assert_eq!(col.chunks()[2].len(), 88);
}

#[test]
fn column_from_slice_exact_multiple() {
    let data: Vec<u32> = (0..512).collect();
    let col = ChunkedColumn::from_slice(&data);
    assert_eq!(col.chunk_count(), 2);
    assert!(col.iter_chunks().all(AlignedChunk::is_full));
    let empty = ChunkedColumn::<u32>::from_slice(&[]);
    assert_eq!(empty.chunk_count(), 0);
    assert!(empty.is_empty());
}

#[test]
fn column_get_returns_correct_element() {
    let data: Vec<i64> = (0..600).map(|i| i as i64).collect();
    let col = ChunkedColumn::from_slice(&data);

    assert_eq!(col.get(0), Some(0_i64));
    assert_eq!(col.get(255), Some(255_i64));
    assert_eq!(col.get(256), Some(256_i64));
    assert_eq!(col.get(599), Some(599_i64));
    assert_eq!(col.get(600), None);
}

#[test]
fn column_push_chunk() {
    let mut col = ChunkedColumn::new();
    col.push_chunk(AlignedChunk::new(&[1.0_f64, 2.0, 3.0]));
    col.push_chunk(AlignedChunk::new(&[4.0_f64, 5.0]));

    assert_eq!(col.chunk_count(), 2);
    assert_eq!(col.len(), 5);
    assert_eq!(col.get(3), Some(4.0_f64));
}

#[test]
fn column_default_is_empty() {
    let col = ChunkedColumn::<f32>::default();
    assert!(col.is_empty());
    assert_eq!(col.len(), 0);
    assert_eq!(col.chunk_count(), 0);
}

#[test]
fn column_replace_chunk_changes_only_that_chunk() {
    let data: Vec<i32> = (0..300).collect();
    let mut col = ChunkedColumn::from_slice(&data);
    col.replace_chunk(1, AlignedChunk::new(&[-1, -2]));
    assert_eq!(col.len(), 258);
    assert_eq!(col.get(255), Some(255));
    assert_eq!(col.get(256), Some(-1));
    assert_eq!(col.get(257), Some(-2));
    assert_eq!(col.get(258), None);
}

#[test]
fn column_clone_is_independent() {
    let mut col = ChunkedColumn::from_slice(&[1_u8, 2, 3]);
    let copy = col.clone();
    col.mark_all_dirty();
    assert!(!copy.is_dirty());
    assert_eq!(copy.get(2), Some(3));
}

// ── Dirty tracking ───────────────────────────────────────────────────────────

#[test]
fn new_column_is_clean() {
    let col = ChunkedColumn::<f64>::new();
    assert!(!col.is_dirty());
    assert_eq!(col.dirty_chunks().len(), 0);
}

#[test]
fn from_slice_column_is_clean() {
    let col = ChunkedColumn::from_slice(&[1.0_f64, 2.0, 3.0]);
    assert!(!col.is_dirty());
}

#[test]
fn mark_dirty_single_row_marks_correct_chunk() {
    let data: Vec<f64> = (0..600).map(|i| i as f64).collect();
    let mut col = ChunkedColumn::from_slice(&data);

    col.mark_dirty(100..150);
    assert!(col.is_dirty());
    assert_eq!(dirty_indices(&col), [0]);
}

#[test]
fn mark_dirty_range_spanning_two_chunks() {
    let data: Vec<f64> = (0..600).map(|i| i as f64).collect();
    let mut col = ChunkedColumn::from_slice(&data);

    col.mark_dirty(250..300);
    assert_eq!(dirty_indices(&col), [0, 1]);
}

#[test]
fn mark_dirty_empty_range_is_noop() {
    let data: Vec<f64> = (0..600).map(|i| i as f64).collect();
    let mut col = ChunkedColumn::from_slice(&data);

    col.mark_dirty(100..100);
    assert!(!col.is_dirty());
}

#[test]
fn mark_dirty_chunk_boundary_is_exclusive() {
    let data: Vec<f64> = (0..600).map(|i| i as f64).collect();
    let mut col = ChunkedColumn::from_slice(&data);
    col.mark_dirty(0..256);
    assert_eq!(dirty_indices(&col), [0]);
    col.mark_dirty(256..257);
    assert_eq!(dirty_indices(&col), [0, 1]);
}

#[test]
fn mark_dirty_beyond_data_is_not_reported() {
    let mut col = ChunkedColumn::from_slice(&[1_i32, 2, 3]);
    col.mark_dirty(1000..2000);
    assert!(col.is_dirty());
    assert!(dirty_indices(&col).is_empty());
    col.clear_dirty();
    assert!(!col.is_dirty());
}

#[test]
fn dirty_chunks_yields_correct_pairs() {
    let data: Vec<f64> = (0..600).map(|i| i as f64).collect();
    let mut col = ChunkedColumn::from_slice(&data);

    col.mark_dirty(0..1);
    col.mark_dirty(512..513);
    assert_eq!(dirty_indices(&col), [0, 2]);

    let (_, chunk0) = col.dirty_chunks()[0];
    assert_eq!(chunk0.len(), CHUNK_SIZE);
    let (_, chunk2) = col.dirty_chunks()[1];
    assert_eq!(chunk2.values()[0], 512.0);
}

#[test]
fn clear_dirty_removes_all_flags() {
    let data: Vec<f64> = (0..600).map(|i| i as f64).collect();
    let mut col = ChunkedColumn::from_slice(&data);

    col.mark_all_dirty();
    assert!(col.is_dirty());

    col.clear_dirty();
    assert!(!col.is_dirty());
    assert_eq!(col.dirty_chunks().len(), 0);
}

#[test]
fn clear_dirty_chunk_removes_one_flag() {
    let data: Vec<f64> = (0..600).map(|i| i as f64).collect();
    let mut col = ChunkedColumn::from_slice(&data);
    col.mark_all_dirty();
    col.clear_dirty_chunk(1);
    assert_eq!(dirty_indices(&col), [0, 2]);
}

#[test]
fn mark_all_dirty_marks_every_chunk() {
    let data: Vec<f64> = (0..600).map(|i| i as f64).collect();
    let mut col = ChunkedColumn::from_slice(&data);

    col.mark_all_dirty();
    assert_eq!(dirty_indices(&col), [0, 1, 2]);
    assert_eq!(col.dirty_chunks().len(), col.chunk_count());
}

#[test]
fn mark_all_dirty_on_empty_column_stays_clean() {
    let mut col = ChunkedColumn::<i8>::new();
    col.mark_all_dirty();
    assert!(!col.is_dirty());
}

#[test]
fn append_delta_marks_correct_chunks() {
    let data: Vec<f64> = (0..768).map(|i| i as f64).collect();
    let mut col = ChunkedColumn::from_slice(&data);

    col.mark_dirty(512..768);
    assert_eq!(dirty_indices(&col), [2]);
}

#[test]
fn mutation_delta_marks_correct_chunks() {
    let data: Vec<f64> = (0..600).map(|i| i as f64).collect();
    let mut col = ChunkedColumn::from_slice(&data);

    col.mark_dirty(100..300);
    let dirty = dirty_indices(&col);
    assert_eq!(dirty, [0, 1]);
    assert!(!dirty.contains(&2));
}

#[test]
fn column_with_only_empty_chunks_is_empty() {
    let mut col = ChunkedColumn::<f64>::new();
    col.push_chunk(AlignedChunk::new(&[]));
    assert_eq!(col.len(), 0);
    assert!(col.is_empty());
    assert_eq!(col.chunk_count(), 1);
    col.push_chunk(AlignedChunk::new(&[1.0]));
    assert!(!col.is_empty());
}
