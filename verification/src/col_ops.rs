//! Element-wise arithmetic between column views, and between a column view and a scalar.
//!
//! Two views combine position by position up to the shorter of the two; a scalar is
//! broadcast across the whole view.

use crate::node::ColRef;
use std::ops::{Add, Div, Mul, Rem, Sub};
use vstd::prelude::*;
use vstd::std_specs::ops::{
    AddSpec, AddSpecImpl, DivSpec, DivSpecImpl, MulSpec, MulSpecImpl, RemSpec, RemSpecImpl, SubSpec,
    SubSpecImpl,
};

verus! {

/// The length of the shorter of two views.
pub open spec fn zip_len(a: int, b: int) -> int {
    if a <= b {
        a
    } else {
        b
    }
}

// ── Add ──

impl<'a, T: Copy + Add<Output = T>> Add for ColRef<'a, T> {
    type Output = Vec<T>;

    /// Element `i` of the result is `self[i] + rhs[i]`, up to the shorter view.
    fn add(self, rhs: ColRef<'a, T>) -> (out: Vec<T>)
        ensures
            out@.len() == zip_len(self.data@.len() as int, rhs.data@.len() as int),
            T::obeys_add_spec() ==> forall|i: int|
                0 <= i < out@.len() ==> #[trigger] out@[i] == self.data@[i].add_spec(rhs.data@[i]),
    {
        let n = if self.data.len() <= rhs.data.len() {
            self.data.len()
        } else {
            rhs.data.len()
        };
        let mut out: Vec<T> = Vec::new();
        let mut i: usize = 0;
        while i < n
            invariant
                0 <= i <= n,
                n == zip_len(self.data@.len() as int, rhs.data@.len() as int),
                forall|k: int| 0 <= k < n ==> #[trigger] self.data@[k].add_req(rhs.data@[k]),
                out@.len() == i,
                T::obeys_add_spec() ==> forall|k: int|
                    0 <= k < i ==> #[trigger] out@[k] == self.data@[k].add_spec(rhs.data@[k]),
            decreases n - i,
        {
            let v = self.data[i] + rhs.data[i];
            out.push(v);
            i = i + 1;
        }
        out
    }
}

impl<'a, T: Copy + Add<Output = T>> AddSpecImpl for ColRef<'a, T> {
    /// The result is a fresh vector, which no spec value describes.
    open spec fn obeys_add_spec() -> bool {
        false
    }

    /// The operation may run on every pair of elements at the same position.
    open spec fn add_req(self, rhs: ColRef<'a, T>) -> bool {
        forall|i: int|
            0 <= i < zip_len(self.data@.len() as int, rhs.data@.len() as int) ==> #[trigger] self.data@[i].add_req(
                rhs.data@[i],
            )
    }

    open spec fn add_spec(self, rhs: ColRef<'a, T>) -> Vec<T> {
        arbitrary()
    }
}

impl<'a, T: Copy + Add<Output = T>> Add<T> for ColRef<'a, T> {
    type Output = Vec<T>;

    /// Element `i` of the result is `self[i] + rhs`.
    fn add(self, rhs: T) -> (out: Vec<T>)
        ensures
            out@.len() == self.data@.len(),
            T::obeys_add_spec() ==> forall|i: int|
                0 <= i < out@.len() ==> #[trigger] out@[i] == self.data@[i].add_spec(rhs),
    {
        let n = self.data.len();
        let mut out: Vec<T> = Vec::new();
        let mut i: usize = 0;
        while i < n
            invariant
                0 <= i <= n,
                n == self.data@.len(),
                forall|k: int| 0 <= k < n ==> #[trigger] self.data@[k].add_req(rhs),
                out@.len() == i,
                T::obeys_add_spec() ==> forall|k: int|
                    0 <= k < i ==> #[trigger] out@[k] == self.data@[k].add_spec(rhs),
            decreases n - i,
        {
            let v = self.data[i] + rhs;
            out.push(v);
            i = i + 1;
        }
        out
    }
}

impl<'a, T: Copy + Add<Output = T>> AddSpecImpl<T> for ColRef<'a, T> {
    /// The result is a fresh vector, which no spec value describes.
    open spec fn obeys_add_spec() -> bool {
        false
    }

    /// The operation may run on every element with the scalar.
    open spec fn add_req(self, rhs: T) -> bool {
        forall|i: int| 0 <= i < self.data@.len() ==> #[trigger] self.data@[i].add_req(rhs)
    }

    open spec fn add_spec(self, rhs: T) -> Vec<T> {
        arbitrary()
    }
}

// ── Sub ──

impl<'a, T: Copy + Sub<Output = T>> Sub for ColRef<'a, T> {
    type Output = Vec<T>;

    /// Element `i` of the result is `self[i] - rhs[i]`, up to the shorter view.
    fn sub(self, rhs: ColRef<'a, T>) -> (out: Vec<T>)
        ensures
            out@.len() == zip_len(self.data@.len() as int, rhs.data@.len() as int),
            T::obeys_sub_spec() ==> forall|i: int|
                0 <= i < out@.len() ==> #[trigger] out@[i] == self.data@[i].sub_spec(rhs.data@[i]),
    {
        let n = if self.data.len() <= rhs.data.len() {
            self.data.len()
        } else {
            rhs.data.len()
        };
        let mut out: Vec<T> = Vec::new();
        let mut i: usize = 0;
        while i < n
            invariant
                0 <= i <= n,
                n == zip_len(self.data@.len() as int, rhs.data@.len() as int),
                forall|k: int| 0 <= k < n ==> #[trigger] self.data@[k].sub_req(rhs.data@[k]),
                out@.len() == i,
                T::obeys_sub_spec() ==> forall|k: int|
                    0 <= k < i ==> #[trigger] out@[k] == self.data@[k].sub_spec(rhs.data@[k]),
            decreases n - i,
        {
            let v = self.data[i] - rhs.data[i];
            out.push(v);
            i = i + 1;
        }
        out
    }
}

impl<'a, T: Copy + Sub<Output = T>> SubSpecImpl for ColRef<'a, T> {
    /// The result is a fresh vector, which no spec value describes.
    open spec fn obeys_sub_spec() -> bool {
        false
    }

    /// The operation may run on every pair of elements at the same position.
    open spec fn sub_req(self, rhs: ColRef<'a, T>) -> bool {
        forall|i: int|
            0 <= i < zip_len(self.data@.len() as int, rhs.data@.len() as int) ==> #[trigger] self.data@[i].sub_req(
                rhs.data@[i],
            )
    }

    open spec fn sub_spec(self, rhs: ColRef<'a, T>) -> Vec<T> {
        arbitrary()
    }
}

impl<'a, T: Copy + Sub<Output = T>> Sub<T> for ColRef<'a, T> {
    type Output = Vec<T>;

    /// Element `i` of the result is `self[i] - rhs`.
    fn sub(self, rhs: T) -> (out: Vec<T>)
        ensures
            out@.len() == self.data@.len(),
            T::obeys_sub_spec() ==> forall|i: int|
                0 <= i < out@.len() ==> #[trigger] out@[i] == self.data@[i].sub_spec(rhs),
    {
        let n = self.data.len();
        let mut out: Vec<T> = Vec::new();
        let mut i: usize = 0;
        while i < n
            invariant
                0 <= i <= n,
                n == self.data@.len(),
                forall|k: int| 0 <= k < n ==> #[trigger] self.data@[k].sub_req(rhs),
                out@.len() == i,
                T::obeys_sub_spec() ==> forall|k: int|
                    0 <= k < i ==> #[trigger] out@[k] == self.data@[k].sub_spec(rhs),
            decreases n - i,
        {
            let v = self.data[i] - rhs;
            out.push(v);
            i = i + 1;
        }
        out
    }
}

impl<'a, T: Copy + Sub<Output = T>> SubSpecImpl<T> for ColRef<'a, T> {
    /// The result is a fresh vector, which no spec value describes.
    open spec fn obeys_sub_spec() -> bool {
        false
    }

    /// The operation may run on every element with the scalar.
    open spec fn sub_req(self, rhs: T) -> bool {
        forall|i: int| 0 <= i < self.data@.len() ==> #[trigger] self.data@[i].sub_req(rhs)
    }

    open spec fn sub_spec(self, rhs: T) -> Vec<T> {
        arbitrary()
    }
}

// ── Mul ──

impl<'a, T: Copy + Mul<Output = T>> Mul for ColRef<'a, T> {
    type Output = Vec<T>;

    /// Element `i` of the result is `self[i] * rhs[i]`, up to the shorter view.
    fn mul(self, rhs: ColRef<'a, T>) -> (out: Vec<T>)
        ensures
            out@.len() == zip_len(self.data@.len() as int, rhs.data@.len() as int),
            T::obeys_mul_spec() ==> forall|i: int|
                0 <= i < out@.len() ==> #[trigger] out@[i] == self.data@[i].mul_spec(rhs.data@[i]),
    {
        let n = if self.data.len() <= rhs.data.len() {
            self.data.len()
        } else {
            rhs.data.len()
        };
        let mut out: Vec<T> = Vec::new();
        let mut i: usize = 0;
        while i < n
            invariant
                0 <= i <= n,
                n == zip_len(self.data@.len() as int, rhs.data@.len() as int),
                forall|k: int| 0 <= k < n ==> #[trigger] self.data@[k].mul_req(rhs.data@[k]),
                out@.len() == i,
                T::obeys_mul_spec() ==> forall|k: int|
                    0 <= k < i ==> #[trigger] out@[k] == self.data@[k].mul_spec(rhs.data@[k]),
            decreases n - i,
        {
            let v = self.data[i] * rhs.data[i];
            out.push(v);
            i = i + 1;
        }
        out
    }
}

impl<'a, T: Copy + Mul<Output = T>> MulSpecImpl for ColRef<'a, T> {
    /// The result is a fresh vector, which no spec value describes.
    open spec fn obeys_mul_spec() -> bool {
        false
    }

    /// The operation may run on every pair of elements at the same position.
    open spec fn mul_req(self, rhs: ColRef<'a, T>) -> bool {
        forall|i: int|
            0 <= i < zip_len(self.data@.len() as int, rhs.data@.len() as int) ==> #[trigger] self.data@[i].mul_req(
                rhs.data@[i],
            )
    }

    open spec fn mul_spec(self, rhs: ColRef<'a, T>) -> Vec<T> {
        arbitrary()
    }
}

impl<'a, T: Copy + Mul<Output = T>> Mul<T> for ColRef<'a, T> {
    type Output = Vec<T>;

    /// Element `i` of the result is `self[i] * rhs`.
    fn mul(self, rhs: T) -> (out: Vec<T>)
        ensures
            out@.len() == self.data@.len(),
            T::obeys_mul_spec() ==> forall|i: int|
                0 <= i < out@.len() ==> #[trigger] out@[i] == self.data@[i].mul_spec(rhs),
    {
        let n = self.data.len();
        let mut out: Vec<T> = Vec::new();
        let mut i: usize = 0;
        while i < n
            invariant
                0 <= i <= n,
                n == self.data@.len(),
                forall|k: int| 0 <= k < n ==> #[trigger] self.data@[k].mul_req(rhs),
                out@.len() == i,
                T::obeys_mul_spec() ==> forall|k: int|
                    0 <= k < i ==> #[trigger] out@[k] == self.data@[k].mul_spec(rhs),
            decreases n - i,
        {
            let v = self.data[i] * rhs;
            out.push(v);
            i = i + 1;
        }
        out
    }
}

impl<'a, T: Copy + Mul<Output = T>> MulSpecImpl<T> for ColRef<'a, T> {
    /// The result is a fresh vector, which no spec value describes.
    open spec fn obeys_mul_spec() -> bool {
        false
    }

    /// The operation may run on every element with the scalar.
    open spec fn mul_req(self, rhs: T) -> bool {
        forall|i: int| 0 <= i < self.data@.len() ==> #[trigger] self.data@[i].mul_req(rhs)
    }

    open spec fn mul_spec(self, rhs: T) -> Vec<T> {
        arbitrary()
    }
}

// ── Div ──

impl<'a, T: Copy + Div<Output = T>> Div for ColRef<'a, T> {
    type Output = Vec<T>;

    /// Element `i` of the result is `self[i] / rhs[i]`, up to the shorter view.
    fn div(self, rhs: ColRef<'a, T>) -> (out: Vec<T>)
        ensures
            out@.len() == zip_len(self.data@.len() as int, rhs.data@.len() as int),
            T::obeys_div_spec() ==> forall|i: int|
                0 <= i < out@.len() ==> #[trigger] out@[i] == self.data@[i].div_spec(rhs.data@[i]),
    {
        let n = if self.data.len() <= rhs.data.len() {
            self.data.len()
        } else {
            rhs.data.len()
        };
        let mut out: Vec<T> = Vec::new();
        let mut i: usize = 0;
        while i < n
            invariant
                0 <= i <= n,
                n == zip_len(self.data@.len() as int, rhs.data@.len() as int),
                forall|k: int| 0 <= k < n ==> #[trigger] self.data@[k].div_req(rhs.data@[k]),
                out@.len() == i,
                T::obeys_div_spec() ==> forall|k: int|
                    0 <= k < i ==> #[trigger] out@[k] == self.data@[k].div_spec(rhs.data@[k]),
            decreases n - i,
        {
            let v = self.data[i] / rhs.data[i];
            out.push(v);
            i = i + 1;
        }
        out
    }
}

impl<'a, T: Copy + Div<Output = T>> DivSpecImpl for ColRef<'a, T> {
    /// The result is a fresh vector, which no spec value describes.
    open spec fn obeys_div_spec() -> bool {
        false
    }

    /// The operation may run on every pair of elements at the same position.
    open spec fn div_req(self, rhs: ColRef<'a, T>) -> bool {
        forall|i: int|
            0 <= i < zip_len(self.data@.len() as int, rhs.data@.len() as int) ==> #[trigger] self.data@[i].div_req(
                rhs.data@[i],
            )
    }

    open spec fn div_spec(self, rhs: ColRef<'a, T>) -> Vec<T> {
        arbitrary()
    }
}

impl<'a, T: Copy + Div<Output = T>> Div<T> for ColRef<'a, T> {
    type Output = Vec<T>;

    /// Element `i` of the result is `self[i] / rhs`.
    fn div(self, rhs: T) -> (out: Vec<T>)
        ensures
            out@.len() == self.data@.len(),
            T::obeys_div_spec() ==> forall|i: int|
                0 <= i < out@.len() ==> #[trigger] out@[i] == self.data@[i].div_spec(rhs),
    {
        let n = self.data.len();
        let mut out: Vec<T> = Vec::new();
        let mut i: usize = 0;
        while i < n
            invariant
                0 <= i <= n,
                n == self.data@.len(),
                forall|k: int| 0 <= k < n ==> #[trigger] self.data@[k].div_req(rhs),
                out@.len() == i,
                T::obeys_div_spec() ==> forall|k: int|
                    0 <= k < i ==> #[trigger] out@[k] == self.data@[k].div_spec(rhs),
            decreases n - i,
        {
            let v = self.data[i] / rhs;
            out.push(v);
            i = i + 1;
        }
        out
    }
}

impl<'a, T: Copy + Div<Output = T>> DivSpecImpl<T> for ColRef<'a, T> {
    /// The result is a fresh vector, which no spec value describes.
    open spec fn obeys_div_spec() -> bool {
        false
    }

    /// The operation may run on every element with the scalar.
    open spec fn div_req(self, rhs: T) -> bool {
        forall|i: int| 0 <= i < self.data@.len() ==> #[trigger] self.data@[i].div_req(rhs)
    }

    open spec fn div_spec(self, rhs: T) -> Vec<T> {
        arbitrary()
    }
}

// ── Rem ──

impl<'a, T: Copy + Rem<Output = T>> Rem for ColRef<'a, T> {
    type Output = Vec<T>;

    /// Element `i` of the result is `self[i] % rhs[i]`, up to the shorter view.
    fn rem(self, rhs: ColRef<'a, T>) -> (out: Vec<T>)
        ensures
            out@.len() == zip_len(self.data@.len() as int, rhs.data@.len() as int),
            T::obeys_rem_spec() ==> forall|i: int|
                0 <= i < out@.len() ==> #[trigger] out@[i] == self.data@[i].rem_spec(rhs.data@[i]),
    {
        let n = if self.data.len() <= rhs.data.len() {
            self.data.len()
        } else {
            rhs.data.len()
        };
        let mut out: Vec<T> = Vec::new();
        let mut i: usize = 0;
        while i < n
            invariant
                0 <= i <= n,
                n == zip_len(self.data@.len() as int, rhs.data@.len() as int),
                forall|k: int| 0 <= k < n ==> #[trigger] self.data@[k].rem_req(rhs.data@[k]),
                out@.len() == i,
                T::obeys_rem_spec() ==> forall|k: int|
                    0 <= k < i ==> #[trigger] out@[k] == self.data@[k].rem_spec(rhs.data@[k]),
            decreases n - i,
        {
            let v = self.data[i] % rhs.data[i];
            out.push(v);
            i = i + 1;
        }
        out
    }
}

impl<'a, T: Copy + Rem<Output = T>> RemSpecImpl for ColRef<'a, T> {
    /// The result is a fresh vector, which no spec value describes.
    open spec fn obeys_rem_spec() -> bool {
        false
    }

    /// The operation may run on every pair of elements at the same position.
    open spec fn rem_req(self, rhs: ColRef<'a, T>) -> bool {
        forall|i: int|
            0 <= i < zip_len(self.data@.len() as int, rhs.data@.len() as int) ==> #[trigger] self.data@[i].rem_req(
                rhs.data@[i],
            )
    }

    open spec fn rem_spec(self, rhs: ColRef<'a, T>) -> Vec<T> {
        arbitrary()
    }
}

impl<'a, T: Copy + Rem<Output = T>> Rem<T> for ColRef<'a, T> {
    type Output = Vec<T>;

    /// Element `i` of the result is `self[i] % rhs`.
    fn rem(self, rhs: T) -> (out: Vec<T>)
        ensures
            out@.len() == self.data@.len(),
            T::obeys_rem_spec() ==> forall|i: int|
                0 <= i < out@.len() ==> #[trigger] out@[i] == self.data@[i].rem_spec(rhs),
    {
        let n = self.data.len();
        let mut out: Vec<T> = Vec::new();
        let mut i: usize = 0;
        while i < n
            invariant
                0 <= i <= n,
                n == self.data@.len(),
                forall|k: int| 0 <= k < n ==> #[trigger] self.data@[k].rem_req(rhs),
                out@.len() == i,
                T::obeys_rem_spec() ==> forall|k: int|
                    0 <= k < i ==> #[trigger] out@[k] == self.data@[k].rem_spec(rhs),
            decreases n - i,
        {
            let v = self.data[i] % rhs;
            out.push(v);
            i = i + 1;
        }
        out
    }
}

impl<'a, T: Copy + Rem<Output = T>> RemSpecImpl<T> for ColRef<'a, T> {
    /// The result is a fresh vector, which no spec value describes.
    open spec fn obeys_rem_spec() -> bool {
        false
    }

    /// The operation may run on every element with the scalar.
    open spec fn rem_req(self, rhs: T) -> bool {
        forall|i: int| 0 <= i < self.data@.len() ==> #[trigger] self.data@[i].rem_req(rhs)
    }

    open spec fn rem_spec(self, rhs: T) -> Vec<T> {
        arbitrary()
    }
}

} // verus!
