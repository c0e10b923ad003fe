//! Chunked column storage with chunk-level dirty tracking.
//!
//! Data is split into chunks of at most [`CHUNK_SIZE`] elements.  A
//! [`ChunkedColumn`] owns the ordered list of chunks that makes up one column and a
//! [`RoaringBitmap`] of the chunk indices that hold stale data.

use roaring::RoaringBitmap;
use std::ops::Range;
use vstd::prelude::*;

verus! {

/// Maximum number of elements in a single [`AlignedChunk`].
pub const CHUNK_SIZE: usize = 256;

// ── The dirty-chunk bitmap ───────────────────────────────────────────────────

#[verifier::external_type_specification]
#[verifier::external_body]
pub struct ExRoaringBitmap(RoaringBitmap);

/// The set of integers that a [`RoaringBitmap`] holds.
pub uninterp spec fn bitmap_set(b: RoaringBitmap) -> Set<u32>;

/// The integers from `first` through `last`.
pub open spec fn span_set(first: u32, last: u32) -> Set<u32> {
    Set::new(|x: u32| first <= x <= last)
}

/// `RoaringBitmap::new`: an empty bitmap.
#[verifier::external_body]
fn bitmap_new() -> (b: RoaringBitmap)
    ensures
        bitmap_set(b) == Set::<u32>::empty(),
{
    RoaringBitmap::new()
}

/// `RoaringBitmap::insert_range` on `first..=last`: adds every integer of the span; an
/// inverted span (`first > last`) adds nothing.
#[verifier::external_body]
fn bitmap_insert_span(b: &mut RoaringBitmap, first: u32, last: u32)
    ensures
        bitmap_set(*final(b)) == mark_span(bitmap_set(*old(b)), first, last),
{
    b.insert_range(first..=last);
}

/// `RoaringBitmap::is_empty`: whether the bitmap holds no integer.
#[verifier::external_body]
fn bitmap_is_empty(b: &RoaringBitmap) -> (r: bool)
    ensures
        r == (bitmap_set(*b) == Set::<u32>::empty()),
{
    b.is_empty()
}

/// `RoaringBitmap::clear`: removes every integer.
#[verifier::external_body]
fn bitmap_clear(b: &mut RoaringBitmap)
    ensures
        bitmap_set(*final(b)) == Set::<u32>::empty(),
{
    b.clear()
}

/// `RoaringBitmap::remove`: removes one integer, returning whether it was present.
#[verifier::external_body]
fn bitmap_remove(b: &mut RoaringBitmap, v: u32) -> (r: bool)
    ensures
        bitmap_set(*final(b)) == bitmap_set(*old(b)).remove(v),
        r == bitmap_set(*old(b)).contains(v),
{
    b.remove(v)
}

/// `RoaringBitmap::range(..=last)`, collected: the integers of the bitmap up to `last`,
/// in increasing order.
#[verifier::external_body]
fn bitmap_values_upto(b: &RoaringBitmap, last: u32) -> (v: Vec<u32>)
    ensures
        forall|i: int, j: int| 0 <= i < j < v@.len() ==> v@[i] < v@[j],
        forall|x: u32| #[trigger] v@.contains(x) <==> (bitmap_set(*b).contains(x) && x <= last),
{
    b.range(..=last).collect()
}

// ── AlignedChunk ──────────────────────────────────────────────────────────────

/// A chunk of at most [`CHUNK_SIZE`] elements.
#[derive(Debug)]
pub struct AlignedChunk<T> {
    data: Vec<T>,
}

impl<T> View for AlignedChunk<T> {
    type V = Seq<T>;

    closed spec fn view(&self) -> Seq<T> {
        self.data@
    }
}

impl<T> AlignedChunk<T> {
    #[verifier::type_invariant]
    spec fn inv(self) -> bool {
        self.data@.len() <= CHUNK_SIZE
    }
}

impl<T: Copy> Clone for AlignedChunk<T> {
    fn clone(&self) -> (c: Self)
        ensures
            c@ == self@,
    {
        proof {
            use_type_invariant(self);
        }
        AlignedChunk::new(self.data.as_slice())
    }
}

impl<T: Copy> AlignedChunk<T> {
    /// Creates a chunk holding a copy of `src`.
    pub fn new(src: &[T]) -> (c: Self)
        requires
            src@.len() <= CHUNK_SIZE,
        ensures
            c@ == src@,
    {
        let mut data: Vec<T> = Vec::new();
        let mut k: usize = 0;
        while k < src.len()
            invariant
                0 <= k <= src@.len(),
                data@ == src@.take(k as int),
            decreases src@.len() - k,
        {
            data.push(src[k]);
            k = k + 1;
            assert(data@ =~= src@.take(k as int));
        }
        assert(src@.take(src@.len() as int) =~= src@);
        AlignedChunk { data }
    }

    /// Returns a slice of the elements in this chunk.
    pub fn values(&self) -> (v: &[T])
        ensures
            v@ == self@,
    {
        self.data.as_slice()
    }

    /// Number of elements.
    pub fn len(&self) -> (r: usize)
        ensures
            r == self@.len(),
            r <= CHUNK_SIZE,
    {
        proof {
            use_type_invariant(self);
        }
        self.data.len()
    }

    /// `true` when the chunk holds no elements.
    pub fn is_empty(&self) -> (r: bool)
        ensures
            r == (self@.len() == 0),
    {
        self.data.len() == 0
    }

    /// `true` when the chunk holds exactly [`CHUNK_SIZE`] elements.
    pub fn is_full(&self) -> (r: bool)
        ensures
            r == (self@.len() == CHUNK_SIZE),
    {
        self.data.len() == CHUNK_SIZE
    }
}

// ── ChunkedColumn ─────────────────────────────────────────────────────────────

/// `RoaringBitmap::clone`: a bitmap holding the same integers.
#[verifier::external_body]
fn bitmap_clone(b: &RoaringBitmap) -> (c: RoaringBitmap)
    ensures
        bitmap_set(c) == bitmap_set(*b),
{
    b.clone()
}

/// The elements of a list of chunks, in order.
pub open spec fn concat_chunks<T>(s: Seq<Seq<T>>) -> Seq<T>
    decreases s.len(),
{
    if s.len() == 0 {
        Seq::empty()
    } else {
        concat_chunks(s.drop_last()) + s.last()
    }
}

/// Number of chunks of at most [`CHUNK_SIZE`] elements needed for `len` elements.
pub open spec fn chunk_count_for(len: int) -> int {
    (len + CHUNK_SIZE - 1) / (CHUNK_SIZE as int)
}

/// `data` split into consecutive chunks of [`CHUNK_SIZE`] elements; the last may be shorter.
pub open spec fn split_into_chunks<T>(data: Seq<T>) -> Seq<Seq<T>> {
    Seq::new(
        chunk_count_for(data.len() as int) as nat,
        |k: int|
            data.subrange(
                k * CHUNK_SIZE,
                if (k + 1) * CHUNK_SIZE <= data.len() { (k + 1) * CHUNK_SIZE } else { data.len() as int },
            ),
    )
}

/// The chunk indices that a row range touches, as the bitmap records them: the chunk of
/// the first row through the chunk of the last row, each index cut to 32 bits.
pub open spec fn touched_chunks(r: (int, int)) -> (u32, u32) {
    (((r.0 / (CHUNK_SIZE as int)) as u32), (((r.1 - 1) / (CHUNK_SIZE as int)) as u32))
}

/// The dirty set after marking the row range `r`: unchanged for an empty range.
pub open spec fn marked_dirty(s: Set<u32>, r: (int, int)) -> Set<u32> {
    if r.0 < r.1 {
        mark_span(s, touched_chunks(r).0, touched_chunks(r).1)
    } else {
        s
    }
}

/// The set `s` with the chunk indices `first..=last` added; an inverted span adds nothing.
pub open spec fn mark_span(s: Set<u32>, first: u32, last: u32) -> Set<u32> {
    if first <= last {
        s.union(span_set(first, last))
    } else {
        s
    }
}

/// An ordered column of chunks with chunk-level dirty tracking.
#[derive(Debug)]
pub struct ChunkedColumn<T> {
    chunks: Vec<AlignedChunk<T>>,
    /// Chunk indices that need recomputation.
    dirty: RoaringBitmap,
}

impl<T> ChunkedColumn<T> {
    /// The column's chunks, each as the sequence of its elements.
    pub closed spec fn spec_chunks(&self) -> Seq<Seq<T>> {
        self.chunks@.map_values(|c: AlignedChunk<T>| c@)
    }

    /// All elements of the column, in row order.
    pub open spec fn spec_rows(&self) -> Seq<T> {
        concat_chunks(self.spec_chunks())
    }

    /// The chunk indices marked dirty.
    pub closed spec fn dirty_set(&self) -> Set<u32> {
        bitmap_set(self.dirty)
    }

    /// Well-formedness: every chunk holds at most [`CHUNK_SIZE`] elements and the row
    /// count fits in a `usize`.
    pub closed spec fn wf(&self) -> bool {
        &&& forall|k: int| 0 <= k < self.chunks@.len() ==> (#[trigger] self.chunks@[k])@.len() <= CHUNK_SIZE
        &&& self.spec_rows().len() <= usize::MAX
    }
}

impl<T: Copy> Clone for ChunkedColumn<T> {
    fn clone(&self) -> (c: Self)
        ensures
            c.spec_chunks() == self.spec_chunks(),
            c.dirty_set() == self.dirty_set(),
            self.wf() ==> c.wf(),
    {
        let mut chunks: Vec<AlignedChunk<T>> = Vec::new();
        let mut k: usize = 0;
        while k < self.chunks.len()
            invariant
                0 <= k <= self.chunks@.len(),
                chunks@.len() == k,
                forall|j: int| 0 <= j < k ==> (#[trigger] chunks@[j])@ == self.chunks@[j]@,
            decreases self.chunks@.len() - k,
        {
            chunks.push(self.chunks[k].clone());
            k = k + 1;
        }
        let c = ChunkedColumn { chunks, dirty: bitmap_clone(&self.dirty) };
        assert(c.spec_chunks() =~= self.spec_chunks());
        assert(self.wf() ==> forall|k: int| 0 <= k < c.chunks@.len() ==> (#[trigger] c.chunks@[k])@.len() <= CHUNK_SIZE);
        c
    }
}

impl<T: Copy> ChunkedColumn<T> {
    /// Creates an empty column.
    pub fn new() -> (c: Self)
        ensures
            c.wf(),
            c.spec_chunks() == Seq::<Seq<T>>::empty(),
            c.dirty_set() == Set::<u32>::empty(),
    {
        let c = ChunkedColumn { chunks: Vec::new(), dirty: bitmap_new() };
        assert(c.spec_chunks() =~= Seq::<Seq<T>>::empty());
        c
    }

    /// Builds a column from a flat slice, splitting it into [`CHUNK_SIZE`]-element chunks.
    pub fn from_slice(data: &[T]) -> (c: Self)
        ensures
            c.wf(),
            c.spec_chunks() == split_into_chunks(data@),
            c.dirty_set() == Set::<u32>::empty(),
    {
        let n = data.len();
        let mut chunks: Vec<AlignedChunk<T>> = Vec::new();
        let mut start: usize = 0;
        let ghost target = split_into_chunks(data@);
        while start < n
            invariant
                0 <= start <= n,
                n == data@.len(),
                start % CHUNK_SIZE == 0 || start == n,
                chunks@.len() == chunk_count_for(start as int),
                forall|j: int| 0 <= j < chunks@.len() ==> (#[trigger] chunks@[j])@ == target[j],
                target == split_into_chunks(data@),
            decreases n - start,
        {
            let end = if n - start > CHUNK_SIZE { start + CHUNK_SIZE } else { n };
            let piece = AlignedChunk::new(&data[start..end]);
            proof {
                let k = chunks@.len() as int;
                assert(k * CHUNK_SIZE == start);
                assert(piece@ == target[k]);
            }
            chunks.push(piece);
            start = end;
        }
        let c = ChunkedColumn { chunks, dirty: bitmap_new() };
        proof {
            assert(c.spec_chunks() =~= target);
            lemma_split_concat(data@);
            assert(forall|k: int| 0 <= k < c.chunks@.len() ==> (#[trigger] c.chunks@[k])@.len() <= CHUNK_SIZE);
        }
        c
    }

    /// Total number of elements across all chunks.
    pub fn len(&self) -> (r: usize)
        requires
            self.wf(),
        ensures
            r == self.spec_rows().len(),
    {
        let mut total: usize = 0;
        let mut k: usize = 0;
        while k < self.chunks.len()
            invariant
                0 <= k <= self.chunks@.len(),
                total == concat_chunks(self.spec_chunks().take(k as int)).len(),
                concat_chunks(self.spec_chunks()).len() <= usize::MAX,
            decreases self.chunks@.len() - k,
        {
            proof {
                lemma_concat_take_step(self.spec_chunks(), k as int);
                lemma_concat_prefix_len(self.spec_chunks(), k as int + 1);
            }
            total = total + self.chunks[k].len();
            k = k + 1;
        }
        assert(self.spec_chunks().take(k as int) =~= self.spec_chunks());
        total
    }

    /// `true` when the column has no elements.
    pub fn is_empty(&self) -> (r: bool)
        requires
            self.wf(),
        ensures
            r == (self.spec_rows().len() == 0),
    {
        self.len() == 0
    }

    /// Number of chunks.
    pub fn chunk_count(&self) -> (r: usize)
        ensures
            r == self.spec_chunks().len(),
    {
        self.chunks.len()
    }

    /// The chunks, in order.
    pub fn chunks(&self) -> (s: &[AlignedChunk<T>])
        ensures
            s@.map_values(|c: AlignedChunk<T>| c@) == self.spec_chunks(),
    {
        self.chunks.as_slice()
    }

    /// Appends a pre-built chunk.
    pub fn push_chunk(&mut self, chunk: AlignedChunk<T>)
        requires
            old(self).wf(),
            old(self).spec_rows().len() + chunk@.len() <= usize::MAX,
        ensures
            final(self).wf(),
            final(self).spec_chunks() == old(self).spec_chunks().push(chunk@),
            final(self).dirty_set() == old(self).dirty_set(),
    {
        proof {
            use_type_invariant(&chunk);
        }
        self.chunks.push(chunk);
        proof {
            assert(self.spec_chunks() =~= old(self).spec_chunks().push(chunk@));
            assert(self.spec_chunks().drop_last() =~= old(self).spec_chunks());
            assert(forall|k: int| 0 <= k < self.chunks@.len() ==> (#[trigger] self.chunks@[k])@.len() <= CHUNK_SIZE);
        }
    }

    /// Iterates over the chunks in order.
    pub fn iter_chunks(&self) -> (it: std::slice::Iter<'_, AlignedChunk<T>>)
        ensures
            vstd::std_specs::slice::into_iter_elts(it).map_values(|c: AlignedChunk<T>| c@)
                == self.spec_chunks(),
    {
        let s = self.chunks.as_slice();
        let it = s.iter();
        proof {
            broadcast use vstd::std_specs::slice::axiom_spec_slice_iter;
            assert(vstd::std_specs::slice::into_iter_elts(it) =~= s@);
        }
        it
    }

    /// Returns the element at `row_idx`, or `None` if out of bounds.
    pub fn get(&self, row_idx: usize) -> (r: Option<T>)
        ensures
            r == if row_idx < self.spec_rows().len() {
                Some(self.spec_rows()[row_idx as int])
            } else {
                None::<T>
            },
    {
        let ghost s = self.spec_chunks();
        let mut row = row_idx;
        let mut k: usize = 0;
        while k < self.chunks.len()
            invariant
                0 <= k <= self.chunks@.len(),
                s == self.spec_chunks(),
                row + concat_chunks(s.take(k as int)).len() == row_idx,
            decreases self.chunks@.len() - k,
        {
            let c = &self.chunks[k];
            proof {
                lemma_concat_take_step(s, k as int);
                lemma_concat_prefix_len(s, k as int + 1);
                assert(s[k as int] == c@);
            }
            if row < c.len() {
                let v = c.values()[row];
                proof {
                    let pre = concat_chunks(s.take(k as int));
                    let pre1 = concat_chunks(s.take(k as int + 1));
                    assert(pre1[pre.len() + row] == c@[row as int]);
                    assert(concat_chunks(s).take(pre1.len() as int)[row_idx as int] == concat_chunks(s)[row_idx as int]);
                }
                return Some(v);
            }
            row = row - c.len();
            k = k + 1;
        }
        assert(s.take(k as int) =~= s);
        None
    }

    /// Marks every chunk that overlaps `row_range` as dirty; an empty range changes nothing.
    ///
    /// The chunk indices are recorded as 32-bit integers: the first and last touched
    /// chunk indices are each cut to 32 bits (see [`touched_chunks`]).
    pub fn mark_dirty(&mut self, row_range: Range<usize>)
        requires
            old(self).wf(),
        ensures
            final(self).wf(),
            final(self).spec_chunks() == old(self).spec_chunks(),
            final(self).dirty_set() == marked_dirty(
                old(self).dirty_set(),
                (row_range.start as int, row_range.end as int),
            ),
    {
        if row_range.start >= row_range.end {
            return;
        }
        let first = (row_range.start / CHUNK_SIZE) as u32;
        let last = ((row_range.end - 1) / CHUNK_SIZE) as u32;
        bitmap_insert_span(&mut self.dirty, first, last);
    }

    /// Marks every existing chunk as dirty.
    pub fn mark_all_dirty(&mut self)
        requires
            old(self).wf(),
        ensures
            final(self).wf(),
            final(self).spec_chunks() == old(self).spec_chunks(),
            final(self).dirty_set() == if old(self).spec_chunks().len() > 0 {
                mark_span(old(self).dirty_set(), 0, ((old(self).spec_chunks().len() - 1) as usize) as u32)
            } else {
                old(self).dirty_set()
            },
    {
        if self.chunks.len() == 0 {
            return;
        }
        let last = (self.chunks.len() - 1) as u32;
        bitmap_insert_span(&mut self.dirty, 0, last);
    }

    /// Returns `true` if any chunk index is marked dirty.
    pub fn is_dirty(&self) -> (r: bool)
        ensures
            r == (self.dirty_set() != Set::<u32>::empty()),
    {
        !bitmap_is_empty(&self.dirty)
    }

    /// Every dirty chunk as `(chunk_idx, chunk)`, in increasing index order.
    ///
    /// Dirty indices at or beyond the chunk count are skipped.
    pub fn dirty_chunks(&self) -> (out: Vec<(usize, &AlignedChunk<T>)>)
        ensures
            forall|p: int|
                0 <= p < out@.len() ==> {
                    &&& (#[trigger] out@[p]).0 < self.spec_chunks().len()
                    &&& out@[p].0 <= u32::MAX
                    &&& self.dirty_set().contains(out@[p].0 as u32)
                    &&& out@[p].1@ == self.spec_chunks()[out@[p].0 as int]
                },
            forall|p: int, q: int| 0 <= p < q < out@.len() ==> out@[p].0 < out@[q].0,
            forall|v: u32|
                self.dirty_set().contains(v) && (v as int) < self.spec_chunks().len() ==> exists|p: int|
                    0 <= p < out@.len() && #[trigger] out@[p].0 == v as usize,
    {
        let n = self.chunks.len();
        let mut out: Vec<(usize, &AlignedChunk<T>)> = Vec::new();
        if n == 0 {
            return out;
        }
        let last: u32 = if n - 1 <= u32::MAX as usize {
            (n - 1) as u32
        } else {
            u32::MAX
        };
        let vals = bitmap_values_upto(&self.dirty, last);
        let mut k: usize = 0;
        while k < vals.len()
            invariant
                0 <= k <= vals@.len(),
                n == self.spec_chunks().len(),
                (last as int) < n,
                forall|i: int, j: int| 0 <= i < j < vals@.len() ==> vals@[i] < vals@[j],
                forall|x: u32| #[trigger] vals@.contains(x) <==> (self.dirty_set().contains(x) && x <= last),
                out@.len() == k,
                forall|p: int|
                    0 <= p < k ==> {
                        &&& (#[trigger] out@[p]).0 == vals@[p] as usize
                        &&& out@[p].1@ == self.spec_chunks()[vals@[p] as int]
                    },
            decreases vals@.len() - k,
        {
            let v = vals[k];
            proof {
                assert(vals@.contains(v));
            }
            let i = v as usize;
            out.push((i, &self.chunks[i]));
            k = k + 1;
        }
        proof {
            assert forall|p: int| 0 <= p < out@.len() implies vals@.contains(vals@[p]) by {}
            assert forall|x: u32|
                self.dirty_set().contains(x) && (x as int) < self.spec_chunks().len() implies exists|p: int|
                    0 <= p < out@.len() && #[trigger] out@[p].0 == x as usize by {
                assert(vals@.contains(x));
                let p = choose|p: int| 0 <= p < vals@.len() && vals@[p] == x;
                assert(out@[p].0 == x as usize);
            }
        }
        out
    }

    /// Clears all dirty flags.
    pub fn clear_dirty(&mut self)
        requires
            old(self).wf(),
        ensures
            final(self).wf(),
            final(self).spec_chunks() == old(self).spec_chunks(),
            final(self).dirty_set() == Set::<u32>::empty(),
    {
        bitmap_clear(&mut self.dirty);
    }

    /// Replaces the chunk at `chunk_idx` with `chunk`.
    pub fn replace_chunk(&mut self, chunk_idx: usize, chunk: AlignedChunk<T>)
        requires
            old(self).wf(),
            chunk_idx < old(self).spec_chunks().len(),
            concat_chunks(old(self).spec_chunks().update(chunk_idx as int, chunk@)).len() <= usize::MAX,
        ensures
            final(self).wf(),
            final(self).spec_chunks() == old(self).spec_chunks().update(chunk_idx as int, chunk@),
            final(self).dirty_set() == old(self).dirty_set(),
    {
        proof {
            use_type_invariant(&chunk);
        }
        self.chunks.set(chunk_idx, chunk);
        proof {
            assert(self.spec_chunks() =~= old(self).spec_chunks().update(chunk_idx as int, chunk@));
            assert(forall|k: int| 0 <= k < self.chunks@.len() ==> (#[trigger] self.chunks@[k])@.len() <= CHUNK_SIZE);
        }
    }

    /// Removes the dirty flag of one chunk index (cut to 32 bits); no effect if it was clean.
    pub fn clear_dirty_chunk(&mut self, chunk_idx: usize)
        requires
            old(self).wf(),
        ensures
            final(self).wf(),
            final(self).spec_chunks() == old(self).spec_chunks(),
            final(self).dirty_set() == old(self).dirty_set().remove(chunk_idx as u32),
    {
        bitmap_remove(&mut self.dirty, chunk_idx as u32);
    }
}

impl<T: Copy> Default for ChunkedColumn<T> {
    fn default() -> (c: Self)
        ensures
            c.wf(),
            c.spec_chunks() == Seq::<Seq<T>>::empty(),
            c.dirty_set() == Set::<u32>::empty(),
    {
        Self::new()
    }
}

/// Law: when the last touched chunk index fits in 32 bits, marking a non-empty row range
/// dirty marks exactly the chunks whose rows `[i * CHUNK_SIZE, (i + 1) * CHUNK_SIZE)`
/// overlap the range.
pub proof fn law_mark_dirty_overlap(r: (int, int), i: u32)
    requires
        0 <= r.0 < r.1,
        (r.1 - 1) / (CHUNK_SIZE as int) <= u32::MAX,
    ensures
        touched_chunks(r).0 <= touched_chunks(r).1,
        span_set(touched_chunks(r).0, touched_chunks(r).1).contains(i) <==> (i * CHUNK_SIZE < r.1
            && r.0 < (i + 1) * CHUNK_SIZE),
{
    let s = r.0;
    let e = r.1;
    let f = s / 256;
    let l = (e - 1) / 256;
    assert(0 <= f <= l) by (nonlinear_arith)
        requires
            0 <= s < e,
            f == s / 256,
            l == (e - 1) / 256,
    ;
    assert(touched_chunks(r).0 == f);
    assert(touched_chunks(r).1 == l);
    let ii = i as int;
    assert((f <= ii && ii <= l) <==> (ii * 256 < e && s < (ii + 1) * 256)) by (nonlinear_arith)
        requires
            0 <= s < e,
            f == s / 256,
            l == (e - 1) / 256,
            0 <= ii,
    ;
}

/// Replacing one chunk changes the row count by the difference of the two chunk lengths.
pub proof fn lemma_concat_update_len<T>(s: Seq<Seq<T>>, k: int, c: Seq<T>)
    requires
        0 <= k < s.len(),
    ensures
        concat_chunks(s.update(k, c)).len() == concat_chunks(s).len() - s[k].len() + c.len(),
    decreases s.len(),
{
    if k == s.len() - 1 {
        assert(s.update(k, c).drop_last() =~= s.drop_last());
    } else {
        lemma_concat_update_len(s.drop_last(), k, c);
        assert(s.update(k, c).drop_last() =~= s.drop_last().update(k, c));
    }
}

/// The elements of the first `k + 1` chunks are those of the first `k` followed by chunk `k`.
proof fn lemma_concat_take_step<T>(s: Seq<Seq<T>>, k: int)
    requires
        0 <= k < s.len(),
    ensures
        concat_chunks(s.take(k + 1)) == concat_chunks(s.take(k)) + s[k],
{
    assert(s.take(k + 1).drop_last() =~= s.take(k));
}

/// The elements of a prefix of the chunks are a prefix of the elements.
proof fn lemma_concat_prefix_len<T>(s: Seq<Seq<T>>, k: int)
    requires
        0 <= k <= s.len(),
    ensures
        concat_chunks(s.take(k)).len() <= concat_chunks(s).len(),
        concat_chunks(s.take(k)) == concat_chunks(s).take(concat_chunks(s.take(k)).len() as int),
    decreases s.len() - k,
{
    if k == s.len() {
        assert(s.take(k) =~= s);
        assert(concat_chunks(s).take(concat_chunks(s).len() as int) =~= concat_chunks(s));
    } else {
        lemma_concat_prefix_len(s, k + 1);
        lemma_concat_take_step(s, k);
        let a = concat_chunks(s.take(k));
        let b = concat_chunks(s.take(k + 1));
        assert(b.take(a.len() as int) =~= a);
        assert(concat_chunks(s).take(a.len() as int) =~= concat_chunks(s).take(b.len() as int).take(
            a.len() as int,
        ));
    }
}

/// Law: splitting a sequence into chunks and concatenating them gives the sequence back;
/// every chunk holds at most [`CHUNK_SIZE`] elements and every chunk but the last is full.
pub proof fn lemma_split_concat<T>(data: Seq<T>)
    ensures
        concat_chunks(split_into_chunks(data)) == data,
        forall|k: int|
            0 <= k < split_into_chunks(data).len() - 1 ==> (#[trigger] split_into_chunks(data)[k]).len()
                == CHUNK_SIZE,
        forall|k: int|
            0 <= k < split_into_chunks(data).len() ==> (#[trigger] split_into_chunks(data)[k]).len()
                <= CHUNK_SIZE,
{
    let s = split_into_chunks(data);
    let n = data.len() as int;
    assert forall|k: int| 0 <= k <= s.len() implies #[trigger] concat_chunks(s.take(k)) == data.subrange(
        0,
        if k * CHUNK_SIZE <= n { k * CHUNK_SIZE } else { n },
    ) by {
        lemma_split_prefix(data, k);
    }
    assert(s.take(s.len() as int) =~= s);
    assert(concat_chunks(s.take(s.len() as int)) == data.subrange(
        0,
        if s.len() * CHUNK_SIZE <= n { s.len() * CHUNK_SIZE } else { n },
    ));
    assert(data.subrange(0, n) =~= data);
}

proof fn lemma_split_prefix<T>(data: Seq<T>, k: int)
    requires
        0 <= k <= split_into_chunks(data).len(),
    ensures
        concat_chunks(split_into_chunks(data).take(k)) == data.subrange(
            0,
            if k * CHUNK_SIZE <= data.len() { k * CHUNK_SIZE } else { data.len() as int },
        ),
    decreases k,
{
    let s = split_into_chunks(data);
    if k == 0 {
        assert(s.take(0) =~= Seq::<Seq<T>>::empty());
        assert(data.subrange(0, 0) =~= Seq::<T>::empty());
    } else {
        lemma_split_prefix(data, k - 1);
        lemma_concat_take_step(s, k - 1);
        let lo = (k - 1) * CHUNK_SIZE;
        assert(lo <= data.len());
        assert(data.subrange(0, lo) + s[k - 1] =~= data.subrange(
            0,
            if k * CHUNK_SIZE <= data.len() { k * CHUNK_SIZE } else { data.len() as int },
        ));
    }
}

} // verus!
