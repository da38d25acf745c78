use vstd::prelude::*;

verus! {

/// A cell of the grid, by its column and its row.
pub type Cell = (usize, usize);

/// The number under which a cell is filed in a table: its column in the
/// upper 64 bits, its row in the lower.
pub open spec fn key(cell: Cell) -> u128 {
    (cell.0 * 0x1_0000_0000_0000_0000 + cell.1) as u128
}

/// The key of `cell`.
pub fn cell_key(cell: &Cell) -> (k: u128)
    ensures
        k == key(*cell),
{
    (cell.0 as u128) * 0x1_0000_0000_0000_0000 + (cell.1 as u128)
}

/// Whether `a` and `b` are the same cell.
pub fn same_cell(a: &Cell, b: &Cell) -> (same: bool)
    ensures
        same == (*a == *b),
{
    a.0 == b.0 && a.1 == b.1
}

/// Two cells with the same key are the same cell.
pub proof fn lemma_key_injective(a: Cell, b: Cell)
    ensures
        key(a) == key(b) ==> a == b,
{
}

} // verus!
