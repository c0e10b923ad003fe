//! Computation kernels: the unit of work executed per dirty chunk, and null propagation.
//!
//! Kernels see only value slices; the validity bitmaps of the inputs are combined
//! separately by [`propagate_nulls`] (an output element is valid only when it is valid in
//! every input) and laid over the output chunk.

use arrow_buffer::{BooleanBuffer, NullBuffer};
use std::marker::PhantomData;
use std::ops::{Add, Div, Mul, Rem, Sub};
use vstd::prelude::*;
use vstd::std_specs::cmp::PartialEqSpec;
use vstd::std_specs::ops::{AddSpec, DivSpec, MulSpec, RemSpec, SubSpec};

verus! {

/// Declares what a kernel requires from the executor.
#[derive(Debug, Clone, Copy, PartialEq, Eq, Structural)]
pub enum ChunkContract {
    /// Each output element depends only on the same-index input element.
    ElementIndependent,
    /// The kernel requires exactly `n` input elements to produce any output.
    FixedSize(usize),
    /// The kernel's output near chunk boundaries depends on elements of adjacent chunks.
    BoundaryDependent,
}

/// The input chunks of a kernel call, each as a sequence of values.
pub open spec fn slices_view<T>(inputs: Seq<&[T]>) -> Seq<Seq<T>> {
    inputs.map_values(|s: &[T]| s@)
}

/// The length of the first input chunk (zero when there is none).
pub open spec fn chunk_len<T>(inputs: Seq<Seq<T>>) -> int {
    if inputs.len() > 0 {
        inputs[0].len() as int
    } else {
        0
    }
}

/// The computation primitive executed per dirty chunk.
///
/// `inputs[i]` holds the values of the `i`-th input chunk; the result has the length of
/// the input chunks.
pub trait Kernel<T>: Send + Sync {
    /// Whether the kernel can run on these input chunks.
    spec fn accepts(&self, inputs: Seq<Seq<T>>) -> bool;

    /// Whether `out` is a result the kernel may give for these input chunks.
    spec fn produces(&self, inputs: Seq<Seq<T>>, out: Seq<T>) -> bool;

    /// Executes the kernel over one chunk's worth of data.
    fn execute_chunk(&self, inputs: &[&[T]], chunk_idx: usize) -> (out: Vec<T>)
        requires
            self.accepts(slices_view(inputs@)),
        ensures
            self.produces(slices_view(inputs@), out@),
            out@.len() == chunk_len(slices_view(inputs@)),
    ;

    /// Declares what this kernel requires from the executor.
    fn contract(&self) -> (c: ChunkContract);
}

// ── BinaryKernel ──────────────────────────────────────────────────────────────

/// Applies a binary operation element-wise over two same-typed input chunks.
pub struct BinaryKernel<T, F> {
    op: F,
    _phantom: PhantomData<T>,
}

impl<T, F> BinaryKernel<T, F> {
    /// The operation the kernel applies.
    pub closed spec fn spec_op(&self) -> F {
        self.op
    }
}

impl<T: Copy, F: Fn(T, T) -> T + Send + Sync> BinaryKernel<T, F> {
    /// Creates a kernel from a binary closure.
    pub fn new(op: F) -> (k: Self)
        ensures
            k.spec_op() == op,
    {
        BinaryKernel { op, _phantom: PhantomData }
    }
}

impl<T: Copy + Send + Sync, F: Fn(T, T) -> T + Send + Sync> Kernel<T> for BinaryKernel<T, F> {
    /// Exactly two input chunks of equal length, on every pair of which the operation may run.
    open spec fn accepts(&self, inputs: Seq<Seq<T>>) -> bool {
        &&& inputs.len() == 2
        &&& inputs[1].len() == inputs[0].len()
        &&& forall|i: int|
            0 <= i < inputs[0].len() ==> call_requires(self.spec_op(), (inputs[0][i], inputs[1][i]))
    }

    /// Element `i` of the result is the operation applied to element `i` of each input.
    open spec fn produces(&self, inputs: Seq<Seq<T>>, out: Seq<T>) -> bool {
        &&& out.len() == inputs[0].len()
        &&& forall|i: int|
            0 <= i < out.len() ==> call_ensures(self.spec_op(), (inputs[0][i], inputs[1][i]), #[trigger] out[i])
    }

    fn execute_chunk(&self, inputs: &[&[T]], _chunk_idx: usize) -> (out: Vec<T>) {
        let ghost ins = slices_view(inputs@);
        let a = inputs[0];
        let b = inputs[1];
        let len = a.len();
        let mut out: Vec<T> = Vec::new();
        let mut i: usize = 0;
        while i < len
            invariant
                0 <= i <= len,
                ins == slices_view(inputs@),
                a@ == ins[0],
                b@ == ins[1],
                len == a@.len(),
                self.accepts(ins),
                out@.len() == i,
                forall|j: int| 0 <= j < i ==> call_ensures(self.spec_op(), (ins[0][j], ins[1][j]), #[trigger] out@[j]),
            decreases len - i,
        {
            let v = (self.op)(a[i], b[i]);
            out.push(v);
            i = i + 1;
        }
        out
    }

    fn contract(&self) -> (c: ChunkContract)
        ensures
            c == ChunkContract::ElementIndependent,
    {
        ChunkContract::ElementIndependent
    }
}

// ── UnaryKernel ───────────────────────────────────────────────────────────────

/// Applies a unary operation element-wise over a single input chunk.
pub struct UnaryKernel<T, F> {
    op: F,
    _phantom: PhantomData<T>,
}

impl<T, F> UnaryKernel<T, F> {
    /// The operation the kernel applies.
    pub closed spec fn spec_op(&self) -> F {
        self.op
    }
}

impl<T: Copy, F: Fn(T) -> T + Send + Sync> UnaryKernel<T, F> {
    /// Creates a kernel from a unary closure.
    pub fn new(op: F) -> (k: Self)
        ensures
            k.spec_op() == op,
    {
        UnaryKernel { op, _phantom: PhantomData }
    }
}

impl<T: Copy + Send + Sync, F: Fn(T) -> T + Send + Sync> Kernel<T> for UnaryKernel<T, F> {
    /// Exactly one input chunk, on every element of which the operation may run.
    open spec fn accepts(&self, inputs: Seq<Seq<T>>) -> bool {
        &&& inputs.len() == 1
        &&& forall|i: int| 0 <= i < inputs[0].len() ==> call_requires(self.spec_op(), (inputs[0][i],))
    }

    /// Element `i` of the result is the operation applied to element `i` of the input.
    open spec fn produces(&self, inputs: Seq<Seq<T>>, out: Seq<T>) -> bool {
        &&& out.len() == inputs[0].len()
        &&& forall|i: int| 0 <= i < out.len() ==> call_ensures(self.spec_op(), (inputs[0][i],), #[trigger] out[i])
    }

    fn execute_chunk(&self, inputs: &[&[T]], _chunk_idx: usize) -> (out: Vec<T>) {
        let ghost ins = slices_view(inputs@);
        let a = inputs[0];
        let len = a.len();
        let mut out: Vec<T> = Vec::new();
        let mut i: usize = 0;
        while i < len
            invariant
                0 <= i <= len,
                ins == slices_view(inputs@),
                a@ == ins[0],
                len == a@.len(),
                self.accepts(ins),
                out@.len() == i,
                forall|j: int| 0 <= j < i ==> call_ensures(self.spec_op(), (ins[0][j],), #[trigger] out@[j]),
            decreases len - i,
        {
            let v = (self.op)(a[i]);
            out.push(v);
            i = i + 1;
        }
        out
    }

    fn contract(&self) -> (c: ChunkContract)
        ensures
            c == ChunkContract::ElementIndependent,
    {
        ChunkContract::ElementIndependent
    }
}

// ── CondKernel ────────────────────────────────────────────────────────────────

/// Whether `out` takes, at each index, the `else` element where the mask element equals
/// `z` and the `then` element elsewhere.
pub open spec fn selects_by<T: PartialEq>(inputs: Seq<Seq<T>>, out: Seq<T>, z: T) -> bool {
    forall|i: int|
        0 <= i < out.len() ==> #[trigger] out[i] == if inputs[0][i].eq_spec(&z) {
            inputs[2][i]
        } else {
            inputs[1][i]
        }
}

/// Element-wise conditional over three input chunks `[mask, then, else]`: selects
/// `then[i]` where `mask[i]` differs from `T::default()`, and `else[i]` otherwise.
#[derive(Debug, Default)]
pub struct CondKernel<T>(PhantomData<T>);

impl<T> Clone for CondKernel<T> {
    fn clone(&self) -> (k: Self) {
        CondKernel(PhantomData)
    }
}

impl<T: Copy + PartialEq + Default> CondKernel<T> {
    /// Creates a conditional kernel.
    pub fn new() -> (k: Self) {
        CondKernel(PhantomData)
    }
}

impl<T: Copy + PartialEq + Default + Send + Sync> Kernel<T> for CondKernel<T> {
    /// Exactly three input chunks, the branches at least as long as the mask.
    open spec fn accepts(&self, inputs: Seq<Seq<T>>) -> bool {
        &&& inputs.len() == 3
        &&& inputs[1].len() >= inputs[0].len()
        &&& inputs[2].len() >= inputs[0].len()
    }

    /// Every element comes from the `then` or the `else` branch at its index; for types
    /// whose `==` follows its specification, the choice is made by comparing the mask
    /// element with one fixed value (the type's default): equal selects `else`.
    open spec fn produces(&self, inputs: Seq<Seq<T>>, out: Seq<T>) -> bool {
        &&& out.len() == inputs[0].len()
        &&& forall|i: int| 0 <= i < out.len() ==> #[trigger] out[i] == inputs[1][i] || out[i] == inputs[2][i]
        &&& T::obeys_eq_spec() ==> exists|z: T|
            call_ensures(T::default, (), z) && #[trigger] selects_by(inputs, out, z)
    }

    fn execute_chunk(&self, inputs: &[&[T]], _chunk_idx: usize) -> (out: Vec<T>) {
        let ghost ins = slices_view(inputs@);
        let mask = inputs[0];
        let then_branch = inputs[1];
        let else_branch = inputs[2];
        let len = mask.len();
        let zero = T::default();
        let mut out: Vec<T> = Vec::new();
        let mut i: usize = 0;
        while i < len
            invariant
                0 <= i <= len,
                ins == slices_view(inputs@),
                mask@ == ins[0],
                then_branch@ == ins[1],
                else_branch@ == ins[2],
                len == mask@.len(),
                self.accepts(ins),
                out@.len() == i,
                forall|j: int| 0 <= j < i ==> #[trigger] out@[j] == ins[1][j] || out@[j] == ins[2][j],
                T::obeys_eq_spec() ==> forall|j: int|
                    0 <= j < i ==> #[trigger] out@[j] == if ins[0][j].eq_spec(&zero) {
                        ins[2][j]
                    } else {
                        ins[1][j]
                    },
            decreases len - i,
        {
            if mask[i] != zero {
                out.push(then_branch[i]);
            } else {
                out.push(else_branch[i]);
            }
            i = i + 1;
        }
        proof {
            if T::obeys_eq_spec() {
                assert(call_ensures(T::default, (), zero));
                assert(selects_by(ins, out@, zero));
            }
        }
        out
    }

    fn contract(&self) -> (c: ChunkContract)
        ensures
            c == ChunkContract::ElementIndependent,
    {
        ChunkContract::ElementIndependent
    }
}

// ── Arithmetic factory functions ──────────────────────────────────────────────

/// Adds two values.
fn add_values<T: Copy + Add<Output = T>>(a: T, b: T) -> (r: T)
    requires
        a.add_req(b),
    ensures
        T::obeys_add_spec() ==> r == a.add_spec(b),
{
    a + b
}

/// Element-wise addition kernel.
pub fn add<T: Copy + Send + Sync + Add<Output = T>>() -> (k: BinaryKernel<T, impl Fn(T, T) -> T>)
    ensures
        forall|a: T, b: T| #[trigger] a.add_req(b) ==> call_requires(k.spec_op(), (a, b)),
        forall|a: T, b: T, r: T|
            #[trigger] call_ensures(k.spec_op(), (a, b), r) ==> (T::obeys_add_spec() ==> r == a.add_spec(b)),
{
    BinaryKernel::new(add_values::<T>)
}

/// Subtracts the second value from the first.
fn sub_values<T: Copy + Sub<Output = T>>(a: T, b: T) -> (r: T)
    requires
        a.sub_req(b),
    ensures
        T::obeys_sub_spec() ==> r == a.sub_spec(b),
{
    a - b
}

/// Element-wise subtraction kernel.
pub fn sub<T: Copy + Send + Sync + Sub<Output = T>>() -> (k: BinaryKernel<T, impl Fn(T, T) -> T>)
    ensures
        forall|a: T, b: T| #[trigger] a.sub_req(b) ==> call_requires(k.spec_op(), (a, b)),
        forall|a: T, b: T, r: T|
            #[trigger] call_ensures(k.spec_op(), (a, b), r) ==> (T::obeys_sub_spec() ==> r == a.sub_spec(b)),
{
    BinaryKernel::new(sub_values::<T>)
}

/// Multiplies two values.
fn mul_values<T: Copy + Mul<Output = T>>(a: T, b: T) -> (r: T)
    requires
        a.mul_req(b),
    ensures
        T::obeys_mul_spec() ==> r == a.mul_spec(b),
{
    a * b
}

/// Element-wise multiplication kernel.
pub fn mul<T: Copy + Send + Sync + Mul<Output = T>>() -> (k: BinaryKernel<T, impl Fn(T, T) -> T>)
    ensures
        forall|a: T, b: T| #[trigger] a.mul_req(b) ==> call_requires(k.spec_op(), (a, b)),
        forall|a: T, b: T, r: T|
            #[trigger] call_ensures(k.spec_op(), (a, b), r) ==> (T::obeys_mul_spec() ==> r == a.mul_spec(b)),
{
    BinaryKernel::new(mul_values::<T>)
}

/// Divides the first value by the second.
fn div_values<T: Copy + Div<Output = T>>(a: T, b: T) -> (r: T)
    requires
        a.div_req(b),
    ensures
        T::obeys_div_spec() ==> r == a.div_spec(b),
{
    a / b
}

/// Element-wise division kernel.
pub fn div<T: Copy + Send + Sync + Div<Output = T>>() -> (k: BinaryKernel<T, impl Fn(T, T) -> T>)
    ensures
        forall|a: T, b: T| #[trigger] a.div_req(b) ==> call_requires(k.spec_op(), (a, b)),
        forall|a: T, b: T, r: T|
            #[trigger] call_ensures(k.spec_op(), (a, b), r) ==> (T::obeys_div_spec() ==> r == a.div_spec(b)),
{
    BinaryKernel::new(div_values::<T>)
}

/// The remainder of dividing the first value by the second.
fn rem_values<T: Copy + Rem<Output = T>>(a: T, b: T) -> (r: T)
    requires
        a.rem_req(b),
    ensures
        T::obeys_rem_spec() ==> r == a.rem_spec(b),
{
    a % b
}

/// Element-wise remainder kernel.
pub fn rem<T: Copy + Send + Sync + Rem<Output = T>>() -> (k: BinaryKernel<T, impl Fn(T, T) -> T>)
    ensures
        forall|a: T, b: T| #[trigger] a.rem_req(b) ==> call_requires(k.spec_op(), (a, b)),
        forall|a: T, b: T, r: T|
            #[trigger] call_ensures(k.spec_op(), (a, b), r) ==> (T::obeys_rem_spec() ==> r == a.rem_spec(b)),
{
    BinaryKernel::new(rem_values::<T>)
}

/// Element-wise conditional kernel (mask, then, else).
pub fn cond<T: Copy + PartialEq + Default + Send + Sync>() -> (k: CondKernel<T>) {
    CondKernel::new()
}

// ── Null propagation ──────────────────────────────────────────────────────────

#[verifier::external_type_specification]
#[verifier::external_body]
pub struct ExBooleanBuffer(BooleanBuffer);

#[verifier::external_type_specification]
#[verifier::external_body]
pub struct ExNullBuffer(NullBuffer);

/// The bits of a [`BooleanBuffer`], in order.
pub uninterp spec fn boolean_bits(b: BooleanBuffer) -> Seq<bool>;

/// The validity bits of a [`NullBuffer`], in order: `true` marks a valid element.
pub uninterp spec fn validity_bits(n: NullBuffer) -> Seq<bool>;

/// `NullBuffer::inner`: the validity bitmap itself.
#[verifier::external_body]
fn null_inner(n: &NullBuffer) -> (b: &BooleanBuffer)
    ensures
        boolean_bits(*b) == validity_bits(*n),
{
    n.inner()
}

/// `BooleanBuffer::clone`: a buffer with the same bits.
#[verifier::external_body]
fn boolean_clone(b: &BooleanBuffer) -> (c: BooleanBuffer)
    ensures
        boolean_bits(c) == boolean_bits(*b),
{
    b.clone()
}

/// The bitwise AND of two bit sequences of equal length.
pub open spec fn and_bits(a: Seq<bool>, b: Seq<bool>) -> Seq<bool> {
    Seq::new(a.len(), |i: int| a[i] && b[i])
}

/// `&BooleanBuffer & &BooleanBuffer`: the bitwise AND of two buffers of equal length
/// (arrow panics on a length mismatch).
#[verifier::external_body]
fn boolean_and(a: &BooleanBuffer, b: &BooleanBuffer) -> (c: BooleanBuffer)
    requires
        boolean_bits(*a).len() == boolean_bits(*b).len(),
    ensures
        boolean_bits(c) == and_bits(boolean_bits(*a), boolean_bits(*b)),
{
    a & b
}

/// `NullBuffer::new`: a null buffer whose validity bits are the buffer's bits.
#[verifier::external_body]
fn null_from_bits(b: BooleanBuffer) -> (n: NullBuffer)
    ensures
        validity_bits(n) == boolean_bits(b),
{
    NullBuffer::new(b)
}

/// Number of `false` entries.
pub open spec fn count_false(s: Seq<bool>) -> nat
    decreases s.len(),
{
    if s.len() == 0 {
        0
    } else {
        count_false(s.drop_last()) + if s.last() { 0nat } else { 1nat }
    }
}

/// `NullBuffer::null_count`: the number of null (invalid) elements.
#[verifier::external_body]
pub(crate) fn null_count(n: &NullBuffer) -> (c: usize)
    ensures
        c == count_false(validity_bits(*n)),
{
    n.null_count()
}

/// `NullBuffer::clone`: a buffer with the same validity bits.
#[verifier::external_body]
pub(crate) fn null_clone(n: &NullBuffer) -> (c: NullBuffer)
    ensures
        validity_bits(c) == validity_bits(*n),
{
    n.clone()
}

/// `NullBuffer::len`: the number of elements.
#[verifier::external_body]
fn null_len(n: &NullBuffer) -> (l: usize)
    ensures
        l == validity_bits(*n).len(),
{
    n.len()
}

/// `NullBuffer::is_null`: whether element `i` is null (arrow panics past the end).
#[verifier::external_body]
fn null_is_null(n: &NullBuffer, i: usize) -> (b: bool)
    requires
        i < validity_bits(*n).len(),
    ensures
        b == !validity_bits(*n)[i as int],
{
    n.is_null(i)
}

/// Produces `one` where the corresponding entry of `validity` is null and `zero` where
/// it is valid.
///
/// A meta-kernel: it reads the null bitmap, not the values, to build an `is_null` column.
pub fn is_null_mask<T: Copy>(validity: &NullBuffer, one: T, zero: T) -> (v: Vec<T>)
    ensures
        v@.len() == validity_bits(*validity).len(),
        forall|i: int|
            0 <= i < v@.len() ==> #[trigger] v@[i] == if validity_bits(*validity)[i] {
                zero
            } else {
                one
            },
{
    let n = null_len(validity);
    let mut v: Vec<T> = Vec::new();
    let mut i: usize = 0;
    while i < n
        invariant
            0 <= i <= n,
            n == validity_bits(*validity).len(),
            v@.len() == i,
            forall|k: int|
                0 <= k < i ==> #[trigger] v@[k] == if validity_bits(*validity)[k] {
                    zero
                } else {
                    one
                },
        decreases n - i,
    {
        if null_is_null(validity, i) {
            v.push(one);
        } else {
            v.push(zero);
        }
        i = i + 1;
    }
    v
}

/// `BooleanBuffer::from(Vec<bool>)`: a buffer holding the given bits.
#[verifier::external_body]
fn boolean_from_vec(v: Vec<bool>) -> (b: BooleanBuffer)
    ensures
        boolean_bits(b) == v@,
{
    BooleanBuffer::from(v)
}

/// A null buffer of `len` elements, all null.
pub fn all_null(len: usize) -> (n: NullBuffer)
    ensures
        validity_bits(n) == Seq::new(len as nat, |_i: int| false),
        count_false(validity_bits(n)) == len,
{
    let mut v: Vec<bool> = Vec::new();
    let mut i: usize = 0;
    while i < len
        invariant
            0 <= i <= len,
            v@ == Seq::new(i as nat, |_i: int| false),
            count_false(v@) == i,
        decreases len - i,
    {
        v.push(false);
        i = i + 1;
        assert(v@.drop_last() =~= Seq::new((i - 1) as nat, |_i: int| false));
        assert(v@ =~= Seq::new(i as nat, |_i: int| false));
    }
    null_from_bits(boolean_from_vec(v))
}

/// The validity bits of a possibly absent null buffer (absent = every element valid).
pub open spec fn present_validity(o: Option<&NullBuffer>) -> Option<Seq<bool>> {
    match o {
        Some(n) => Some(validity_bits(*n)),
        None => None,
    }
}

/// The AND of all present bitmaps, or `None` when none is present.
pub open spec fn combine_bits(s: Seq<Option<Seq<bool>>>) -> Option<Seq<bool>>
    decreases s.len(),
{
    if s.len() == 0 {
        None
    } else {
        let prev = combine_bits(s.drop_last());
        match s.last() {
            None => prev,
            Some(b) => match prev {
                None => Some(b),
                Some(a) => Some(and_bits(a, b)),
            },
        }
    }
}

/// The validity bits of each of a list of possibly absent null buffers.
pub open spec fn validity_views(inputs: Seq<Option<&NullBuffer>>) -> Seq<Option<Seq<bool>>> {
    inputs.map_values(|o: Option<&NullBuffer>| present_validity(o))
}

/// All present bitmaps have length `len`.
pub open spec fn bits_lengths(s: Seq<Option<Seq<bool>>>, len: int) -> bool {
    forall|i: int| 0 <= i < s.len() && (#[trigger] s[i]) is Some ==> s[i].unwrap().len() == len
}

/// A combined bitmap kept only when it marks at least one null element.
pub open spec fn with_nulls(o: Option<Seq<bool>>) -> Option<Seq<bool>> {
    match o {
        Some(b) => if count_false(b) > 0 {
            Some(b)
        } else {
            None
        },
        None => None,
    }
}

/// Computes the combined validity bitmap for a set of inputs.
///
/// Returns `None` if every input is fully valid (absent, or present without a null
/// element); otherwise the AND of all present validity bitmaps, so that an element is
/// valid only when it is valid in every input.
pub fn propagate_nulls(inputs: &[Option<&NullBuffer>]) -> (r: Option<NullBuffer>)
    requires
        exists|len: int| bits_lengths(validity_views(inputs@), len),
    ensures
        (r is None) == (with_nulls(combine_bits(validity_views(inputs@))) is None),
        r is Some ==> validity_bits(r.unwrap()) == with_nulls(combine_bits(validity_views(inputs@))).unwrap(),
{
    let ghost len = choose|len: int| bits_lengths(validity_views(inputs@), len);
    let ghost views = validity_views(inputs@);
    let mut acc: Option<BooleanBuffer> = None;
    let mut k: usize = 0;
    while k < inputs.len()
        invariant
            0 <= k <= inputs@.len(),
            views == validity_views(inputs@),
            bits_lengths(views, len),
            (acc is None) == (combine_bits(views.take(k as int)) is None),
            acc is Some ==> boolean_bits(acc.unwrap()) == combine_bits(views.take(k as int)).unwrap(),
            acc is Some ==> boolean_bits(acc.unwrap()).len() == len,
        decreases inputs@.len() - k,
    {
        proof {
            assert(views.take(k as int + 1).drop_last() =~= views.take(k as int));
            assert(views[k as int] == present_validity(inputs@[k as int]));
        }
        match inputs[k] {
            None => {},
            Some(n) => {
                let b = null_inner(n);
                acc = match acc {
                    None => Some(boolean_clone(b)),
                    Some(a) => Some(boolean_and(&a, b)),
                };
            },
        }
        k = k + 1;
    }
    proof {
        assert(views.take(k as int) =~= views);
    }
    match acc {
        None => None,
        Some(a) => {
            let n = null_from_bits(a);
            if null_count(&n) == 0 {
                None
            } else {
                Some(n)
            }
        },
    }
}

/// A bit sequence has no `false` entry exactly when it counts none.
pub proof fn lemma_count_false_zero(s: Seq<bool>)
    ensures
        (count_false(s) == 0) == (forall|e: int| 0 <= e < s.len() ==> #[trigger] s[e]),
    decreases s.len(),
{
    if s.len() > 0 {
        lemma_count_false_zero(s.drop_last());
        assert forall|e: int| 0 <= e < s.len() - 1 implies #[trigger] s.drop_last()[e] == s[e] by {}
        if forall|e: int| 0 <= e < s.len() ==> #[trigger] s[e] {
            assert(s[s.len() - 1]);
            assert forall|e: int| 0 <= e < s.drop_last().len() implies #[trigger] s.drop_last()[e] by {
                assert(s[e]);
            }
        }
        if count_false(s) == 0 {
            assert forall|e: int| 0 <= e < s.len() implies #[trigger] s[e] by {
                if e < s.len() - 1 {
                    assert(s.drop_last()[e]);
                }
            }
        }
    }
}

/// Law: the propagated bitmap is absent exactly when no present input marks a null
/// element, that is, when every input is fully valid.
pub proof fn law_nulls_absent_when_all_valid(inputs: Seq<Option<Seq<bool>>>, len: int)
    requires
        bits_lengths(inputs, len),
    ensures
        (with_nulls(combine_bits(inputs)) is None) == (forall|i: int, e: int|
            0 <= i < inputs.len() && (#[trigger] inputs[i]) is Some && 0 <= e < len ==> #[trigger] inputs[i].unwrap()[e]),
{
    law_null_propagation(inputs, len);
    let c = combine_bits(inputs);
    if c is Some {
        lemma_count_false_zero(c.unwrap());
        if count_false(c.unwrap()) == 0 {
            assert forall|i: int, e: int|
                0 <= i < inputs.len() && (#[trigger] inputs[i]) is Some && 0 <= e < len implies #[trigger] inputs[i].unwrap()[e] by {
                assert(c.unwrap()[e]);
            }
        } else {
            let e = choose|e: int| 0 <= e < c.unwrap().len() && !c.unwrap()[e];
            assert(!c.unwrap()[e]);
        }
    } else {
        assert forall|i: int, e: int|
            0 <= i < inputs.len() && (#[trigger] inputs[i]) is Some && 0 <= e < len implies #[trigger] inputs[i].unwrap()[e] by {
            assert(inputs[i] is None);
        }
    }
}

/// Law: the combined bitmap is absent exactly when every input is absent; otherwise it
/// has the common length, and an element is valid exactly when it is valid in every
/// present input.
pub proof fn law_null_propagation(inputs: Seq<Option<Seq<bool>>>, len: int)
    requires
        bits_lengths(inputs, len),
    ensures
        (combine_bits(inputs) is None) == (forall|i: int| 0 <= i < inputs.len() ==> #[trigger] inputs[i] is None),
        combine_bits(inputs) is Some ==> combine_bits(inputs).unwrap().len() == len,
        combine_bits(inputs) is Some ==> forall|e: int|
            0 <= e < len ==> #[trigger] combine_bits(inputs).unwrap()[e] == (forall|i: int|
                0 <= i < inputs.len() && #[trigger] inputs[i] is Some ==> inputs[i].unwrap()[e]),
    decreases inputs.len(),
{
    if inputs.len() > 0 {
        let pre = inputs.drop_last();
        assert(bits_lengths(pre, len)) by {
            assert forall|i: int| 0 <= i < pre.len() && (#[trigger] pre[i]) is Some implies pre[i].unwrap().len() == len by {
                assert(pre[i] == inputs[i]);
            }
        }
        law_null_propagation(pre, len);
        let last = inputs.len() - 1;
        if combine_bits(inputs) is None {
            assert forall|i: int| 0 <= i < inputs.len() implies #[trigger] inputs[i] is None by {
                if i < last {
                    assert(pre[i] == inputs[i]);
                }
            }
        } else {
            if forall|i: int| 0 <= i < inputs.len() ==> #[trigger] inputs[i] is None {
                assert(inputs[last] is None);
                assert forall|i: int| 0 <= i < pre.len() implies #[trigger] pre[i] is None by {
                    assert(pre[i] == inputs[i]);
                }
            }
            let c = combine_bits(inputs).unwrap();
            assert forall|e: int| 0 <= e < len implies #[trigger] c[e] == (forall|i: int|
                0 <= i < inputs.len() && #[trigger] inputs[i] is Some ==> inputs[i].unwrap()[e]) by {
                let all_pre = forall|i: int| 0 <= i < pre.len() && #[trigger] pre[i] is Some ==> pre[i].unwrap()[e];
                let all_in = forall|i: int|
                    0 <= i < inputs.len() && #[trigger] inputs[i] is Some ==> inputs[i].unwrap()[e];
                if combine_bits(pre) is None {
                    assert forall|i: int| 0 <= i < last implies #[trigger] inputs[i] is None by {
                        assert(pre[i] == inputs[i]);
                    }
                }
                if all_in {
                    assert forall|i: int| 0 <= i < pre.len() && #[trigger] pre[i] is Some implies pre[i].unwrap()[e] by {
                        assert(pre[i] == inputs[i]);
                    }
                } else {
                    let i = choose|i: int| !(0 <= i < inputs.len() && #[trigger] inputs[i] is Some ==> inputs[i].unwrap()[e]);
                    if i < last {
                        assert(pre[i] == inputs[i]);
                    }
                }
                if all_pre && (inputs[last] is Some ==> inputs[last].unwrap()[e]) {
                    assert forall|i: int| 0 <= i < inputs.len() && #[trigger] inputs[i] is Some implies inputs[i].unwrap()[e] by {
                        if i < last {
                            assert(pre[i] == inputs[i]);
                        }
                    }
                }
            }
        }
    }
}
} // verus!
