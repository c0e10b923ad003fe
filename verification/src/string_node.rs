//! Named UTF-8 string columns.

use arrow_array::{Array, StringArray};
use vstd::prelude::*;
use vstd::utf8::encode_utf8;

verus! {

/// An arrow [`StringArray`]: contiguous UTF-8 bytes with an offset buffer.
#[verifier::external_body]
#[derive(Debug)]
pub struct StringValues {
    array: StringArray,
}

/// The strings held, in order.
pub uninterp spec fn string_array_values(a: StringValues) -> Seq<Seq<char>>;

/// The number of UTF-8 bytes that the strings take together.
pub open spec fn utf8_total(s: Seq<Seq<char>>) -> nat
    decreases s.len(),
{
    if s.len() == 0 {
        0
    } else {
        utf8_total(s.drop_last()) + encode_utf8(s.last()).len()
    }
}

/// The strings of a list of string slices.
pub open spec fn str_views(s: Seq<&str>) -> Seq<Seq<char>> {
    s.map_values(|x: &str| x@)
}

/// The strings of a list of owned strings.
pub open spec fn string_views(s: Seq<String>) -> Seq<Seq<char>> {
    s.map_values(|x: String| x@)
}

/// `StringArray::from(Vec<&str>)`: an array without nulls holding the given strings
/// (arrow panics when their bytes exceed the `i32` offset range).
#[verifier::external_body]
fn string_array_from_strs(v: Vec<&str>) -> (a: StringValues)
    requires
        utf8_total(str_views(v@)) <= i32::MAX,
    ensures
        string_array_values(a) == str_views(v@),
{
    StringValues { array: StringArray::from(v) }
}

/// `StringArray::from(Vec<String>)`: an array without nulls holding the given strings
/// (arrow panics when their bytes exceed the `i32` offset range).
#[verifier::external_body]
fn string_array_from_strings(v: Vec<String>) -> (a: StringValues)
    requires
        utf8_total(string_views(v@)) <= i32::MAX,
    ensures
        string_array_values(a) == string_views(v@),
{
    StringValues { array: StringArray::from(v) }
}

/// `StringArray::value`: the string at index `i` (arrow panics past the end).
#[verifier::external_body]
fn string_array_value(a: &StringValues, i: usize) -> (s: &str)
    requires
        i < string_array_values(*a).len(),
    ensures
        s@ == string_array_values(*a)[i as int],
{
    a.array.value(i)
}

/// `Array::len` of the [`StringArray`]: the number of strings.
#[verifier::external_body]
fn string_array_len(a: &StringValues) -> (n: usize)
    ensures
        n == string_array_values(*a).len(),
{
    a.array.len()
}

/// `StringArray::clone`: an array with the same strings.
#[verifier::external_body]
fn string_array_clone(a: &StringValues) -> (c: StringValues)
    ensures
        string_array_values(c) == string_array_values(*a),
{
    StringValues { array: a.array.clone() }
}

/// A named UTF-8 string column node (read-only input source).
#[derive(Debug)]
pub struct StringNode {
    /// The node's identifier.
    pub name: &'static str,
    /// Names of upstream nodes detected in the defining expression.
    pub deps: &'static [&'static str],
    /// The column's strings.
    pub data: StringValues,
}

impl Clone for StringNode {
    fn clone(&self) -> (c: Self)
        ensures
            c.name == self.name,
            c.deps == self.deps,
            c.values_spec() == self.values_spec(),
    {
        StringNode { name: self.name, deps: self.deps, data: string_array_clone(&self.data) }
    }
}

impl StringNode {
    /// The column's strings, in row order.
    pub open spec fn values_spec(&self) -> Seq<Seq<char>> {
        string_array_values(self.data)
    }

    /// Creates a source string node with no upstream dependencies.
    pub fn from_data(name: &'static str, data: &[&str]) -> (n: Self)
        requires
            utf8_total(str_views(data@)) <= i32::MAX,
        ensures
            n.name == name,
            n.deps@.len() == 0,
            n.values_spec() == str_views(data@),
    {
        let mut v: Vec<&str> = Vec::new();
        let mut i: usize = 0;
        while i < data.len()
            invariant
                0 <= i <= data@.len(),
                v@ == data@.take(i as int),
            decreases data@.len() - i,
        {
            v.push(data[i]);
            i = i + 1;
            assert(v@ =~= data@.take(i as int));
        }
        assert(data@.take(data@.len() as int) =~= data@);
        StringNode { name, deps: &[], data: string_array_from_strs(v) }
    }

    /// Creates a derived string node with an explicit dependency list.
    pub fn new_with_deps(name: &'static str, deps: &'static [&'static str], data: Vec<String>) -> (n: Self)
        requires
            utf8_total(string_views(data@)) <= i32::MAX,
        ensures
            n.name == name,
            n.deps == deps,
            n.values_spec() == string_views(data@),
    {
        StringNode { name, deps, data: string_array_from_strings(data) }
    }

    /// The string at row `idx`.
    pub fn value(&self, idx: usize) -> (s: &str)
        requires
            idx < self.values_spec().len(),
        ensures
            s@ == self.values_spec()[idx as int],
    {
        string_array_value(&self.data, idx)
    }

    /// Number of rows in this column.
    pub fn len(&self) -> (r: usize)
        ensures
            r == self.values_spec().len(),
    {
        string_array_len(&self.data)
    }

    /// Returns `true` if the column has no rows.
    pub fn is_empty(&self) -> (r: bool)
        ensures
            r == (self.values_spec().len() == 0),
    {
        self.len() == 0
    }

    /// All strings, in row order, borrowed from the column.
    pub fn values(&self) -> (v: Vec<&str>)
        ensures
            str_views(v@) == self.values_spec(),
    {
        let n = self.len();
        let mut v: Vec<&str> = Vec::new();
        let mut i: usize = 0;
        while i < n
            invariant
                0 <= i <= n,
                n == self.values_spec().len(),
                v@.len() == i,
                forall|k: int| 0 <= k < i ==> (#[trigger] v@[k])@ == self.values_spec()[k],
            decreases n - i,
        {
            let s = self.value(i);
            v.push(s);
            i = i + 1;
        }
        assert(str_views(v@) =~= self.values_spec());
        v
    }
}

} // verus!
