//! Named column nodes and borrowed column views.

use core::cmp::Ordering;
use vstd::prelude::*;
use vstd::std_specs::cmp::PartialOrdSpec;

verus! {

/// A named, typed column node in the computation DAG.
#[derive(Debug, Clone)]
pub struct Node<T> {
    /// The node's identifier.
    pub name: &'static str,
    /// Names of upstream nodes detected in the defining expression.
    pub deps: &'static [&'static str],
    /// The column's values.
    pub data: Vec<T>,
}

impl<T: Copy> Node<T> {
    /// Creates a derived node with an explicit dependency list and computed data.
    pub fn new_with_deps(name: &'static str, deps: &'static [&'static str], data: Vec<T>) -> (n: Self)
        ensures
            n.name == name,
            n.deps == deps,
            n.data@ == data@,
    {
        Node { name, deps, data }
    }

    /// Creates a source node from existing data with no upstream dependencies.
    pub fn from_data(name: &'static str, data: Vec<T>) -> (n: Self)
        ensures
            n.name == name,
            n.deps@.len() == 0,
            n.data@ == data@,
    {
        Node { name, deps: &[], data }
    }

    /// Returns a slice over this column's values.
    pub fn values(&self) -> (v: &[T])
        ensures
            v@ == self.data@,
    {
        self.data.as_slice()
    }

    /// Number of rows in this column.
    pub fn len(&self) -> (r: usize)
        ensures
            r == self.data@.len(),
    {
        self.data.len()
    }

    /// Returns `true` if the column has no rows.
    pub fn is_empty(&self) -> (r: bool)
        ensures
            r == (self.data@.len() == 0),
    {
        self.data.len() == 0
    }

    /// Row-wise map: applies `f` to each element and collects the results in row order.
    pub fn row<U, F: Fn(T) -> U>(&self, f: F) -> (out: Vec<U>)
        requires
            forall|i: int| 0 <= i < self.data@.len() ==> call_requires(f, (#[trigger] self.data@[i],)),
        ensures
            out@.len() == self.data@.len(),
            forall|i: int| 0 <= i < out@.len() ==> call_ensures(f, (self.data@[i],), #[trigger] out@[i]),
    {
        let mut out: Vec<U> = Vec::new();
        let mut i: usize = 0;
        while i < self.data.len()
            invariant
                0 <= i <= self.data@.len(),
                out@.len() == i,
                forall|j: int| 0 <= j < self.data@.len() ==> call_requires(f, (#[trigger] self.data@[j],)),
                forall|j: int| 0 <= j < i ==> call_ensures(f, (self.data@[j],), #[trigger] out@[j]),
            decreases self.data@.len() - i,
        {
            let v = f(self.data[i]);
            out.push(v);
            i = i + 1;
        }
        out
    }

    /// Column-wise operation: passes a [`ColRef`] over the whole column to `f` and
    /// returns its result.
    pub fn col<U, F: FnOnce(ColRef<'_, T>) -> U>(&self, f: F) -> (out: U)
        requires
            forall|c: ColRef<'_, T>|
                #![trigger call_requires(f, (c,))]
                c.data@ == self.data@ ==> call_requires(f, (c,)),
        ensures
            exists|c: ColRef<'_, T>|
                #![trigger call_ensures(f, (c,), out)]
                c.data@ == self.data@ && call_ensures(f, (c,), out),
    {
        let c = ColRef { data: self.data.as_slice() };
        f(c)
    }

    /// Borrows this node's data as a [`ColRef`].
    pub fn col_ref(&self) -> (c: ColRef<'_, T>)
        ensures
            c.data@ == self.data@,
    {
        ColRef { data: self.data.as_slice() }
    }
}

/// A borrowed view over a node's column data.
#[derive(Debug, Clone, Copy)]
pub struct ColRef<'a, T> {
    pub data: &'a [T],
}

/// `a` orders at or below `b`.
pub open spec fn le_spec<T: PartialOrd>(a: T, b: T) -> bool {
    a.partial_cmp_spec(&b) matches Some(Ordering::Less | Ordering::Equal)
}

/// The comparison of `T` totally orders the values of `s`: any two are comparable,
/// `a >= b` gives `b <= a`, and `<=` is transitive.
pub open spec fn totally_ordered<T: PartialOrd>(s: Seq<T>) -> bool {
    &&& T::obeys_partial_cmp_spec()
    &&& forall|a: T, b: T|
        s.contains(a) && s.contains(b) ==> (#[trigger] a.partial_cmp_spec(&b)) is Some
    &&& forall|a: T, b: T|
        s.contains(a) && s.contains(b) && (#[trigger] a.partial_cmp_spec(&b) matches Some(
            Ordering::Greater
            | Ordering::Equal,
        )) ==> le_spec(b, a)
    &&& forall|a: T, b: T, c: T|
        s.contains(a) && s.contains(b) && s.contains(c) && #[trigger] le_spec(a, b) && #[trigger] le_spec(
            b,
            c,
        ) ==> le_spec(a, c)
}

/// `x` is comparable with itself (unlike NaN).
pub open spec fn self_comparable<T: PartialOrd>(x: T) -> bool {
    x.partial_cmp_spec(&x) is Some
}

/// The comparison of `T` totally orders the values of `s` that are comparable with
/// themselves: any two of them are comparable, `a >= b` gives `b <= a`, and `<=` is
/// transitive.
pub open spec fn orders_comparable<T: PartialOrd>(s: Seq<T>) -> bool {
    &&& T::obeys_partial_cmp_spec()
    &&& forall|a: T, b: T|
        s.contains(a) && s.contains(b) && self_comparable(a) && self_comparable(b) ==> (
        #[trigger] a.partial_cmp_spec(&b)) is Some
    &&& forall|a: T, b: T|
        s.contains(a) && s.contains(b) && self_comparable(a) && self_comparable(b) && (
        #[trigger] a.partial_cmp_spec(&b) matches Some(Ordering::Greater | Ordering::Equal))
            ==> le_spec(b, a)
    &&& forall|a: T, b: T, c: T|
        s.contains(a) && s.contains(b) && s.contains(c) && self_comparable(a) && self_comparable(b)
            && self_comparable(c) && #[trigger] le_spec(a, b) && #[trigger] le_spec(b, c) ==> le_spec(a, c)
}

impl<'a, T: Copy + PartialOrd> ColRef<'a, T> {
    /// Returns a new column holding the same values: first the values that are not
    /// comparable with themselves (such as NaN), in their input order, then the
    /// others sorted ascending.
    pub fn sort(&self) -> (out: Vec<T>)
        ensures
            out@.to_multiset() == self.data@.to_multiset(),
            T::obeys_partial_cmp_spec() ==> forall|p: int, q: int|
                0 <= p < q < out@.len() && self_comparable(#[trigger] out@[p]) ==> self_comparable(
                    #[trigger] out@[q],
                ),
            orders_comparable(self.data@) ==> forall|p: int, q: int|
                0 <= p < q < out@.len() && self_comparable(out@[p]) ==> le_spec(
                    #[trigger] out@[p],
                    #[trigger] out@[q],
                ),
    {
        broadcast use vstd::seq_lib::to_multiset_build, vstd::seq_lib::lemma_multiset_commutative,
            vstd::seq_lib::to_multiset_contains, vstd::multiset::group_multiset_axioms;

        let ghost data = self.data@;
        let mut front: Vec<T> = Vec::new();
        let mut rest: Vec<T> = Vec::new();
        let mut i: usize = 0;
        let ghost mut k: int = 0;
        proof {
            assert(data.take(0) =~= Seq::<T>::empty());
            assert(Seq::<T>::empty().to_multiset() =~= vstd::multiset::Multiset::<T>::empty());
            assert(front@ =~= Seq::<T>::empty());
            assert(rest@ =~= Seq::<T>::empty());
        }
        while i < self.data.len()
            invariant
                0 <= i <= data.len(),
                k == i,
                data == self.data@,
                data.take(k).to_multiset() == front@.to_multiset().add(rest@.to_multiset()),
                T::obeys_partial_cmp_spec() ==> forall|p: int|
                    0 <= p < front@.len() ==> !self_comparable(#[trigger] front@[p]),
                T::obeys_partial_cmp_spec() ==> forall|p: int|
                    0 <= p < rest@.len() ==> self_comparable(#[trigger] rest@[p]),
                forall|p: int| 0 <= p < rest@.len() ==> data.contains(#[trigger] rest@[p]),
            decreases data.len() - i,
        {
            let x = self.data[i];
            proof {
                assert(data.take(k + 1) =~= data.take(k).push(x));
                assert(data[k] == x);
            }
            let ghost old_rest = rest@;
            let ghost old_front = front@;
            if x.partial_cmp(&x).is_none() {
                front.push(x);
                proof {
                    lemma_split_step(data.take(k), old_front, old_rest, x, true);
                    assert(front@ == old_front.push(x));
                }
            } else {
                rest.push(x);
                proof {
                    lemma_split_step(data.take(k), old_front, old_rest, x, false);
                    assert(rest@ == old_rest.push(x));
                    assert(data.take(k + 1).to_multiset() == front@.to_multiset().add(rest@.to_multiset()));
                    assert forall|p: int| 0 <= p < rest@.len() implies data.contains(#[trigger] rest@[p]) by {
                        if p < old_rest.len() {
                            assert(rest@[p] == old_rest[p]);
                        }
                    }
                }
            }
            i = i + 1;
            proof {
                k = k + 1;
            }
        }
        proof {
            assert(data.take(k) =~= data);
            if orders_comparable(data) {
                assert(totally_ordered(rest@)) by {
                    assert forall|a: T| #[trigger] rest@.contains(a) implies data.contains(a) && self_comparable(a) by {
                        let p = choose|p: int| 0 <= p < rest@.len() && rest@[p] == a;
                        assert(data.contains(rest@[p]));
                    }
                }
            }
        }
        let sorted = insertion_sort(rest.as_slice());
        let ghost front_view = front@;
        let mut out = front;
        let mut j: usize = 0;
        let ghost mut m: int = 0;
        while j < sorted.len()
            invariant
                0 <= j <= sorted@.len(),
                m == j,
                out@ == front_view + sorted@.take(m),
            decreases sorted@.len() - j,
        {
            out.push(sorted[j]);
            j = j + 1;
            proof {
                m = m + 1;
                assert(out@ =~= front_view + sorted@.take(m));
            }
        }
        proof {
            assert(sorted@.take(m) =~= sorted@);
            assert(out@.to_multiset() =~= front_view.to_multiset().add(sorted@.to_multiset()));
            lemma_same_multiset_contains(sorted@, rest@);
            let f: int = front_view.len() - 0;
            assert forall|q: int| f <= q < out@.len() implies out@[q] == sorted@[q - f] by {}
            if T::obeys_partial_cmp_spec() {
                assert forall|q: int| 0 <= q < sorted@.len() implies self_comparable(#[trigger] sorted@[q]) by {
                    assert(rest@.contains(sorted@[q]));
                    let r = choose|r: int| 0 <= r < rest@.len() && rest@[r] == sorted@[q];
                    assert(self_comparable(rest@[r]));
                }
                assert forall|p: int, q: int|
                    0 <= p < q < out@.len() && self_comparable(#[trigger] out@[p]) implies self_comparable(
                        #[trigger] out@[q],
                    ) by {
                    if p < f {
                        assert(out@[p] == front_view[p]);
                    }
                    assert(out@[q] == sorted@[q - f]);
                }
            }
            if orders_comparable(data) {
                assert forall|p: int, q: int|
                    0 <= p < q < out@.len() && self_comparable(out@[p]) implies le_spec(
                        #[trigger] out@[p],
                        #[trigger] out@[q],
                    ) by {
                    if p < f {
                        assert(out@[p] == front_view[p]);
                    }
                    assert(out@[p] == sorted@[p - f]);
                    assert(out@[q] == sorted@[q - f]);
                }
            }
        }
        out
    }
}

/// Insertion sort: the same values, ascending whenever the comparison totally orders them.
fn insertion_sort<T: Copy + PartialOrd>(src: &[T]) -> (out: Vec<T>)
    ensures
        out@.to_multiset() == src@.to_multiset(),
        totally_ordered(src@) ==> forall|p: int, q: int|
            0 <= p < q < out@.len() ==> le_spec(#[trigger] out@[p], #[trigger] out@[q]),
    {
        broadcast use vstd::seq_lib::to_multiset_build, vstd::seq_lib::to_multiset_insert, vstd::seq_lib::to_multiset_contains;

        let ghost data = src@;
        let mut out: Vec<T> = Vec::new();
        let mut i: usize = 0;
        let ghost mut k: int = 0;
        while i < src.len()
            invariant
                0 <= i <= data.len(),
                k == i,
                data == src@,
                out@.to_multiset() == data.take(k).to_multiset(),
                totally_ordered(data) ==> forall|p: int, q: int|
                    0 <= p < q < out@.len() ==> le_spec(#[trigger] out@[p], #[trigger] out@[q]),
            decreases data.len() - i,
        {
            let x = src[i];
            let mut j = out.len();
            while j > 0 && !(x >= out[j - 1])
                invariant
                    0 <= j <= out@.len(),
                    forall|q: int| #![trigger out@[q]] j <= q < out@.len() ==> !(x.partial_cmp_spec(&out@[q]) matches Some(
                        Ordering::Greater
                        | Ordering::Equal,
                    )) || !T::obeys_partial_cmp_spec(),
                decreases j,
            {
                j = j - 1;
            }
            let ghost before = out@;
            proof {
                assert(data.take(k + 1) =~= data.take(k).push(x));
                if totally_ordered(data) {
                    lemma_same_multiset_contains(before, data.take(k));
                    assert forall|q: int| 0 <= q < before.len() implies data.contains(before[q]) by {
                        assert(data.take(k).contains(before[q]));
                        let m = choose|m: int| 0 <= m < i && data.take(k)[m] == before[q];
                        assert(data[m] == before[q]);
                    }
                    assert(data.contains(x)) by {
                        assert(data[k] == x);
                    }
                }
            }
            out.insert(j, x);
            proof {
                lemma_insert_multiset(before, out@, j, x, data.take(k));
                if totally_ordered(data) {
                    assert forall|p: int, q: int| 0 <= p < q < out@.len() implies le_spec(
                        #[trigger] out@[p],
                        #[trigger] out@[q],
                    ) by {
                        if q < j {
                            assert(out@[p] == before[p] && out@[q] == before[q]);
                        } else if q == j {
                            assert(out@[p] == before[p]);
                            assert(x.partial_cmp_spec(&before[j - 1]) matches Some(Ordering::Greater | Ordering::Equal));
                            assert(le_spec(before[j - 1], x));
                            if p < j - 1 {
                                assert(le_spec(before[p], before[j - 1]));
                            }
                        } else if p == j {
                            assert(out@[q] == before[q - 1]);
                            assert(x.partial_cmp_spec(&before[q - 1]) is Some);
                        } else if p < j {
                            assert(out@[p] == before[p]);
                            assert(out@[q] == before[q - 1]);
                        } else {
                            assert(out@[p] == before[p - 1]);
                            assert(out@[q] == before[q - 1]);
                        }
                    }
                }
            }
            i = i + 1;
            proof {
                k = k + 1;
            }
        }
        proof {
            assert(data.take(k) =~= data);
        }
        out
    }
/// Moving one more element into one of two parts keeps the parts' elements those of
/// the prefix taken so far.
proof fn lemma_split_step<T>(taken: Seq<T>, f: Seq<T>, r: Seq<T>, x: T, to_front: bool)
    requires
        taken.to_multiset() == f.to_multiset().add(r.to_multiset()),
    ensures
        to_front ==> taken.push(x).to_multiset() == f.push(x).to_multiset().add(r.to_multiset()),
        !to_front ==> taken.push(x).to_multiset() == f.to_multiset().add(r.push(x).to_multiset()),
{
    broadcast use vstd::seq_lib::to_multiset_build, vstd::multiset::group_multiset_axioms;

    assert(taken.push(x).to_multiset() =~= taken.to_multiset().insert(x));
    if to_front {
        assert(f.push(x).to_multiset() =~= f.to_multiset().insert(x));
        assert(taken.push(x).to_multiset() =~= f.push(x).to_multiset().add(r.to_multiset()));
    } else {
        assert(r.push(x).to_multiset() =~= r.to_multiset().insert(x));
        assert(taken.push(x).to_multiset() =~= f.to_multiset().add(r.push(x).to_multiset()));
    }
}

/// Inserting `x` anywhere into a sequence with the same elements as `done` gives the
/// elements of `done` followed by `x`.
proof fn lemma_insert_multiset<T>(before: Seq<T>, after: Seq<T>, j: usize, x: T, done: Seq<T>)
    requires
        j <= before.len(),
        after == before.insert(j as int, x),
        before.to_multiset() == done.to_multiset(),
    ensures
        after.to_multiset() == done.push(x).to_multiset(),
{
    broadcast use vstd::seq_lib::to_multiset_build, vstd::seq_lib::to_multiset_insert;

}

/// Every element of a sequence occurs in any sequence with the same elements.
proof fn lemma_same_multiset_contains<T>(a: Seq<T>, b: Seq<T>)
    requires
        a.to_multiset() == b.to_multiset(),
    ensures
        forall|q: int| 0 <= q < a.len() ==> b.contains(#[trigger] a[q]),
{
    broadcast use vstd::seq_lib::to_multiset_contains;

    assert forall|q: int| 0 <= q < a.len() implies b.contains(#[trigger] a[q]) by {
        assert(a.contains(a[q]));
        assert(a.to_multiset().count(a[q]) > 0);
        assert(b.to_multiset().count(a[q]) > 0);
    }
}

/// The values of `s` whose entry in `keep` is `true`, in order.
pub open spec fn select<T>(s: Seq<T>, keep: Seq<bool>) -> Seq<T>
    decreases s.len(),
{
    if s.len() == 0 {
        Seq::empty()
    } else {
        select(s.drop_last(), keep) + if keep[s.len() - 1] {
            seq![s.last()]
        } else {
            Seq::empty()
        }
    }
}

impl<'a, T: Copy> ColRef<'a, T> {
    /// Returns a new column containing only the elements that satisfy the predicate.
    pub fn filter<F: Fn(&T) -> bool>(&self, f: F) -> (out: Vec<T>)
        requires
            forall|i: int| 0 <= i < self.data@.len() ==> call_requires(f, (&#[trigger] self.data@[i],)),
        ensures
            exists|keep: Seq<bool>|
                keep.len() == self.data@.len() && (forall|i: int|
                    0 <= i < self.data@.len() ==> call_ensures(f, (&self.data@[i],), #[trigger] keep[i]))
                    && out@ == select(self.data@, keep),
    {
        let ghost data = self.data@;
        let mut out: Vec<T> = Vec::new();
        let ghost mut keep: Seq<bool> = Seq::empty();
        let mut i: usize = 0;
        while i < self.data.len()
            invariant
                0 <= i <= data.len(),
                data == self.data@,
                keep.len() == i,
                forall|j: int| 0 <= j < data.len() ==> call_requires(f, (&#[trigger] data[j],)),
                forall|j: int| 0 <= j < i ==> call_ensures(f, (&data[j],), #[trigger] keep[j]),
                out@ == select(data.take(i as int), keep),
            decreases data.len() - i,
        {
            let x = &self.data[i];
            let b = f(x);
            proof {
                let pk = keep;
                keep = keep.push(b);
                assert(data.take(i as int + 1).drop_last() =~= data.take(i as int));
                lemma_select_prefix(data.take(i as int), pk, keep);
            }
            if b {
                out.push(*x);
            }
            i = i + 1;
            proof {
                assert(out@ =~= select(data.take(i as int), keep));
            }
        }
        proof {
            assert(data.take(data.len() as int) =~= data);
        }
        out
    }
}

/// Selecting from a sequence only reads the flags of its own positions.
proof fn lemma_select_prefix<T>(s: Seq<T>, k1: Seq<bool>, k2: Seq<bool>)
    requires
        s.len() <= k1.len(),
        s.len() <= k2.len(),
        forall|j: int| 0 <= j < s.len() ==> k1[j] == k2[j],
    ensures
        select(s, k1) == select(s, k2),
    decreases s.len(),
{
    if s.len() > 0 {
        lemma_select_prefix(s.drop_last(), k1, k2);
    }
}

} // verus!
