//! The dense table of feedback codes, one row for each guess and one column
//! for each answer.

use ndarray::Array2;
use vstd::prelude::*;

verus! {

/// A table of codes, held as a two-dimensional array.
#[verifier::external_body]
pub struct CodeTable {
    cells: Array2<u32>,
}

/// The rows of a table, each the sequence of its cells.
pub uninterp spec fn table_rows(table: CodeTable) -> Seq<Seq<u32>>;

/// A square table of this side can be held: its cells, of four bytes each,
/// take no more bytes than one allocation may have.
pub open spec fn fits(side: nat) -> bool {
    side * side * 4 <= isize::MAX
}

/// `side` rows of `side` cells each.
pub open spec fn is_square(rows: Seq<Seq<u32>>, side: nat) -> bool {
    &&& rows.len() == side
    &&& forall|i: int| 0 <= i < side ==> (#[trigger] rows[i]).len() == side
}

/// `Array2::zeros`: a square table with 0 in every cell.
#[verifier::external_body]
pub(crate) fn table_zeros(side: usize) -> (table: CodeTable)
    requires
        fits(side as nat),
    ensures
        table_rows(table) == Seq::new(side as nat, |i: int| Seq::new(side as nat, |j: int| 0u32)),
{
    CodeTable { cells: Array2::zeros((side, side)) }
}

/// Indexing an `Array2` by row and column: the cell there.
#[verifier::external_body]
pub(crate) fn table_get(table: &CodeTable, row: usize, column: usize) -> (cell: u32)
    requires
        row < table_rows(*table).len(),
        column < table_rows(*table)[row as int].len(),
    ensures
        cell == table_rows(*table)[row as int][column as int],
{
    table.cells[[row, column]]
}

/// Assigning to an `Array2` indexed by row and column: that cell gets the
/// value and every other cell stays.
#[verifier::external_body]
pub(crate) fn table_set(table: &mut CodeTable, row: usize, column: usize, value: u32)
    requires
        row < table_rows(*old(table)).len(),
        column < table_rows(*old(table))[row as int].len(),
    ensures
        table_rows(*final(table)) == table_rows(*old(table)).update(
            row as int,
            table_rows(*old(table))[row as int].update(column as int, value),
        ),
{
    table.cells[[row, column]] = value;
}

} // verus!
