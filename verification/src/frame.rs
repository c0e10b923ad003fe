//! An ordered, named collection of equally long columns.
//!
//! The column values themselves are of any type `C`; the frame keeps, for each column,
//! its name and its number of rows, and enforces that names are unique and that every
//! column has the same number of rows.

use vstd::prelude::*;

verus! {

/// Why a column was refused by a frame.
#[derive(Debug, Clone, PartialEq, Eq)]
pub enum FrameError {
    /// A column with the same name is already present.
    DuplicateColumn,
    /// The column's row count differs from that of the columns already present.
    LengthMismatch { expected: usize, found: usize },
}

/// One column of a frame: its name, its number of rows and its values.
#[derive(Debug, Clone)]
pub struct FrameColumn<C> {
    pub name: String,
    pub len: usize,
    pub data: C,
}

/// An ordered, named collection of columns that all have the same number of rows.
#[derive(Debug, Clone)]
pub struct Frame<C> {
    columns: Vec<FrameColumn<C>>,
}

/// A column read as its name, row count and values.
pub open spec fn column_view<C>(c: FrameColumn<C>) -> (Seq<char>, usize, C) {
    (c.name@, c.len, c.data)
}

/// `name` is the name of one of the columns.
pub open spec fn has_name<C>(cols: Seq<(Seq<char>, usize, C)>, name: Seq<char>) -> bool {
    exists|i: int| 0 <= i < cols.len() && (#[trigger] cols[i]).0 == name
}

/// Column names are unique and every column has the row count of the first.
pub open spec fn frame_valid<C>(cols: Seq<(Seq<char>, usize, C)>) -> bool {
    &&& forall|i: int, j: int| 0 <= i < j < cols.len() ==> (#[trigger] cols[i]).0 != (#[trigger] cols[j]).0
    &&& forall|i: int| 0 <= i < cols.len() ==> (#[trigger] cols[i]).1 == cols[0].1
}

/// The outcome of adding a column named `name` with `len` rows.
pub open spec fn append_outcome<C>(cols: Seq<(Seq<char>, usize, C)>, name: Seq<char>, len: usize) -> Result<(), FrameError> {
    if has_name(cols, name) {
        Err(FrameError::DuplicateColumn)
    } else if cols.len() > 0 && cols[0].1 != len {
        Err(FrameError::LengthMismatch { expected: cols[0].1, found: len })
    } else {
        Ok(())
    }
}

impl<C> View for Frame<C> {
    type V = Seq<(Seq<char>, usize, C)>;

    closed spec fn view(&self) -> Seq<(Seq<char>, usize, C)> {
        self.columns@.map_values(|c: FrameColumn<C>| column_view(c))
    }
}

impl<C> Frame<C> {
    /// Creates an empty frame.
    pub fn new() -> (f: Self)
        ensures
            f@.len() == 0,
    {
        let f = Frame { columns: Vec::new() };
        assert(f@ =~= Seq::<(Seq<char>, usize, C)>::empty());
        f
    }

    /// Adds a column at the end, unless a column with that name exists (refused as a
    /// duplicate) or its row count differs from that of the present columns (refused
    /// as a length mismatch).
    pub fn push_column(&mut self, name: String, len: usize, data: C) -> (r: Result<(), FrameError>)
        requires
            frame_valid(old(self)@),
        ensures
            r == append_outcome(old(self)@, name@, len),
            r is Ok ==> final(self)@ == old(self)@.push((name@, len, data)),
            r is Err ==> final(self)@ == old(self)@,
            frame_valid(final(self)@),
    {
        let ghost cols = self@;
        let mut i: usize = 0;
        while i < self.columns.len()
            invariant
                0 <= i <= self.columns@.len(),
                cols == self@,
                frame_valid(cols),
                forall|k: int| 0 <= k < i ==> (#[trigger] cols[k]).0 != name@,
            decreases self.columns@.len() - i,
        {
            assert(cols[i as int] == column_view(self.columns@[i as int]));
            if self.columns[i].name == name {
                return Err(FrameError::DuplicateColumn);
            }
            i = i + 1;
        }
        assert(!has_name(cols, name@));
        if self.columns.len() > 0 {
            assert(cols[0] == column_view(self.columns@[0]));
            let expected = self.columns[0].len;
            if expected != len {
                return Err(FrameError::LengthMismatch { expected, found: len });
            }
        }
        let ghost before = self.columns@;
        self.columns.push(FrameColumn { name, len, data });
        assert(self@ =~= cols.push((name@, len, data))) by {
            assert(self.columns@ == before.push(FrameColumn { name, len, data }));
        }
        Ok(())
    }

    /// The position of the column named `name`, if there is one.
    pub fn position(&self, name: &str) -> (r: Option<usize>)
        requires
            frame_valid(self@),
        ensures
            r matches Some(i) ==> i < self@.len() && self@[i as int].0 == name@,
            r is None <==> !has_name(self@, name@),
    {
        let key = name.to_owned();
        let mut i: usize = 0;
        while i < self.columns.len()
            invariant
                0 <= i <= self.columns@.len(),
                key@ == name@,
                forall|k: int| 0 <= k < i ==> (#[trigger] self@[k]).0 != name@,
            decreases self.columns@.len() - i,
        {
            assert(self@[i as int] == column_view(self.columns@[i as int]));
            if self.columns[i].name == key {
                return Some(i);
            }
            i = i + 1;
        }
        None
    }

    /// The values of the column named `name`, if there is one.
    pub fn get(&self, name: &str) -> (r: Option<&C>)
        requires
            frame_valid(self@),
        ensures
            r matches Some(c) ==> exists|i: int| 0 <= i < self@.len() && self@[i].0 == name@ && self@[i].2 == *c,
            r is None <==> !has_name(self@, name@),
    {
        match self.position(name) {
            Some(i) => {
                assert(self@[i as int] == column_view(self.columns@[i as int]));
                Some(&self.columns[i].data)
            },
            None => None,
        }
    }

    /// The column at position `i`: its name, row count and values.
    pub fn column_at(&self, i: usize) -> (r: (&str, usize, &C))
        requires
            i < self@.len(),
        ensures
            r.0@ == self@[i as int].0,
            r.1 == self@[i as int].1,
            *r.2 == self@[i as int].2,
    {
        let c = &self.columns[i];
        (c.name.as_str(), c.len, &c.data)
    }

    /// Number of rows in each column; `0` for a frame without columns.
    pub fn len(&self) -> (r: usize)
        ensures
            r == if self@.len() == 0 { 0 } else { self@[0].1 },
    {
        if self.columns.len() == 0 {
            0
        } else {
            self.columns[0].len
        }
    }

    /// Returns `true` if the frame has no columns.
    pub fn is_empty(&self) -> (r: bool)
        ensures
            r == (self@.len() == 0),
    {
        self.columns.len() == 0
    }

    /// Number of columns.
    pub fn column_count(&self) -> (r: usize)
        ensures
            r == self@.len(),
    {
        self.columns.len()
    }

    /// The column names, in insertion order.
    pub fn column_names(&self) -> (v: Vec<&str>)
        ensures
            v@.len() == self@.len(),
            forall|i: int| 0 <= i < v@.len() ==> (#[trigger] v@[i])@ == self@[i].0,
    {
        let mut v: Vec<&str> = Vec::new();
        let mut i: usize = 0;
        while i < self.columns.len()
            invariant
                0 <= i <= self.columns@.len(),
                v@.len() == i,
                forall|k: int| 0 <= k < i ==> (#[trigger] v@[k])@ == self@[k].0,
            decreases self.columns@.len() - i,
        {
            assert(self@[i as int] == column_view(self.columns@[i as int]));
            v.push(self.columns[i].name.as_str());
            i = i + 1;
        }
        v
    }
}

/// Law: a column that a frame accepted is found again by its name, with the values that
/// were added; the columns present before are unchanged.
pub proof fn law_frame_read_after_append<C>(
    before: Seq<(Seq<char>, usize, C)>,
    name: Seq<char>,
    len: usize,
    data: C,
)
    requires
        frame_valid(before),
        append_outcome(before, name, len) is Ok,
    ensures
        frame_valid(before.push((name, len, data))),
        has_name(before.push((name, len, data)), name),
        forall|i: int|
            0 <= i < before.push((name, len, data)).len() && (#[trigger] before.push((name, len, data))[i]).0
                == name ==> i == before.len() && before.push((name, len, data))[i].2 == data,
        forall|i: int| 0 <= i < before.len() ==> before.push((name, len, data))[i] == #[trigger] before[i],
{
    let after = before.push((name, len, data));
    assert(after[before.len() as int].0 == name);
    assert forall|i: int|
        0 <= i < after.len() && (#[trigger] after[i]).0 == name implies i == before.len() && after[i].2 == data by {
        if i < before.len() {
            assert(before[i].0 == name);
            assert(has_name(before, name));
        }
    }
}

} // verus!
