//! Named boolean columns.

use arrow_array::BooleanArray;
use vstd::prelude::*;

verus! {

#[verifier::external_type_specification]
#[verifier::external_body]
pub struct ExBooleanArray(BooleanArray);

/// The values of a [`BooleanArray`], in order.
pub uninterp spec fn boolean_array_values(a: BooleanArray) -> Seq<bool>;

/// `BooleanArray::from(Vec<bool>)`: an array without nulls holding the given values.
#[verifier::external_body]
fn boolean_array_from(v: Vec<bool>) -> (a: BooleanArray)
    ensures
        boolean_array_values(a) == v@,
{
    BooleanArray::from(v)
}

/// `BooleanArray::value`: the value at index `i` (arrow panics past the end).
#[verifier::external_body]
fn boolean_array_value(a: &BooleanArray, i: usize) -> (b: bool)
    requires
        i < boolean_array_values(*a).len(),
    ensures
        b == boolean_array_values(*a)[i as int],
{
    a.value(i)
}

/// `BooleanArray::len`: the number of values.
#[verifier::external_body]
fn boolean_array_len(a: &BooleanArray) -> (n: usize)
    ensures
        n == boolean_array_values(*a).len(),
{
    a.len()
}

/// `BooleanArray::clone`: an array with the same values.
#[verifier::external_body]
fn boolean_array_clone(a: &BooleanArray) -> (c: BooleanArray)
    ensures
        boolean_array_values(c) == boolean_array_values(*a),
{
    a.clone()
}

/// A named boolean column node, usable as a mask in filter and conditional operations.
#[derive(Debug)]
pub struct BoolNode {
    /// The node's identifier.
    pub name: &'static str,
    /// Names of upstream nodes detected in the defining expression.
    pub deps: &'static [&'static str],
    /// Bit-packed boolean array.
    pub data: BooleanArray,
}

impl Clone for BoolNode {
    fn clone(&self) -> (c: Self)
        ensures
            c.name == self.name,
            c.deps == self.deps,
            c.values_spec() == self.values_spec(),
    {
        BoolNode { name: self.name, deps: self.deps, data: boolean_array_clone(&self.data) }
    }
}

impl BoolNode {
    /// The column's values, in row order.
    pub open spec fn values_spec(&self) -> Seq<bool> {
        boolean_array_values(self.data)
    }

    /// Creates a source boolean node with no upstream dependencies.
    pub fn from_data(name: &'static str, data: Vec<bool>) -> (n: Self)
        ensures
            n.name == name,
            n.deps@.len() == 0,
            n.values_spec() == data@,
    {
        BoolNode { name, deps: &[], data: boolean_array_from(data) }
    }

    /// Creates a derived boolean node with an explicit dependency list.
    pub fn new_with_deps(name: &'static str, deps: &'static [&'static str], data: Vec<bool>) -> (n: Self)
        ensures
            n.name == name,
            n.deps == deps,
            n.values_spec() == data@,
    {
        BoolNode { name, deps, data: boolean_array_from(data) }
    }

    /// The value at row `idx`.
    pub fn value(&self, idx: usize) -> (b: bool)
        requires
            idx < self.values_spec().len(),
        ensures
            b == self.values_spec()[idx as int],
    {
        boolean_array_value(&self.data, idx)
    }

    /// Number of rows in this column.
    pub fn len(&self) -> (r: usize)
        ensures
            r == self.values_spec().len(),
    {
        boolean_array_len(&self.data)
    }

    /// Returns `true` if the column has no rows.
    pub fn is_empty(&self) -> (r: bool)
        ensures
            r == (self.values_spec().len() == 0),
    {
        self.len() == 0
    }

    /// The column's values as a vector.
    pub fn to_vec(&self) -> (v: Vec<bool>)
        ensures
            v@ == self.values_spec(),
    {
        let n = self.len();
        let mut v: Vec<bool> = Vec::new();
        let mut i: usize = 0;
        while i < n
            invariant
                0 <= i <= n,
                n == self.values_spec().len(),
                v@ == self.values_spec().take(i as int),
            decreases n - i,
        {
            v.push(self.value(i));
            i = i + 1;
            assert(v@ =~= self.values_spec().take(i as int));
        }
        assert(self.values_spec().take(n as int) =~= self.values_spec());
        v
    }
}

} // verus!
