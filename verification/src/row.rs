//! Row identities and row payloads.

use vstd::prelude::*;

verus! {

/// The stable identity of a logical row: the table it belongs to and its
/// number within that table.
#[derive(Clone, Copy, Debug, PartialEq, Eq, Hash, Structural)]
pub struct RowID {
    pub table_id: u64,
    pub row_id: u64,
}

/// A row payload: the identity it belongs to and its column values in order.
#[derive(Debug, PartialEq, Eq)]
pub struct Row {
    pub id: RowID,
    pub columns: Vec<i64>,
}

/// The mathematical value of a [`Row`].
pub struct RowView {
    pub id: RowID,
    pub columns: Seq<i64>,
}

impl View for Row {
    type V = RowView;

    open spec fn view(&self) -> RowView {
        RowView { id: self.id, columns: self.columns@ }
    }
}

/// The value of an optional row.
pub open spec fn view_opt(row: Option<Row>) -> Option<RowView> {
    match row {
        Some(r) => Some(r@),
        None => None,
    }
}

/// Copies a list of column values.
pub fn copy_columns(src: &Vec<i64>) -> (dst: Vec<i64>)
    ensures
        dst@ == src@,
{
    let mut dst: Vec<i64> = Vec::new();
    let mut i: usize = 0;
    while i < src.len()
        invariant
            i <= src.len(),
            dst@ == src@.take(i as int),
        decreases src.len() - i,
    {
        dst.push(src[i]);
        i += 1;
        assert(src@.take(i as int) == src@.take(i - 1).push(src@[i - 1]));
    }
    assert(src@.take(src.len() as int) == src@);
    dst
}

impl Row {
    /// A row for `id` holding `columns`.
    pub fn new(id: RowID, columns: Vec<i64>) -> (row: Row)
        ensures
            row@ == (RowView { id, columns: columns@ }),
    {
        Row { id, columns }
    }

    /// An independent copy of this row.
    pub fn duplicate(&self) -> (row: Row)
        ensures
            row@ == self@,
    {
        Row { id: self.id, columns: copy_columns(&self.columns) }
    }

    /// The same column values filed under the identity `id`.
    pub fn with_id(self, id: RowID) -> (row: Row)
        ensures
            row@ == (RowView { id, columns: self@.columns }),
    {
        Row { id, columns: self.columns }
    }
}

} // verus!
