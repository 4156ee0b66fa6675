//! Lattice cells, the mixing function that sends a cell to a bucket, and the
//! block of nine cells around a cell.

use vstd::prelude::*;

verus! {

/// Two to the power of 64: cell coordinates are mixed in 64-bit unsigned
/// arithmetic that wraps.
pub open spec fn word_modulus() -> int {
    0x1_0000_0000_0000_0000
}

/// The bucket of the cell `(x, y)` in a table of `buckets` buckets: both
/// coordinates are read as unsigned 64-bit words, the row is multiplied by
/// 87119 and added to the column, wrapping, and the sum is reduced modulo the
/// size of the table.
pub open spec fn spec_cell_hash(x: int, y: int, buckets: int) -> int {
    ((x + y * 87119) % word_modulus()) % buckets
}

/// The bucket of a cell given by its two coordinates.
pub open spec fn bucket_of(cell: [i32; 2], buckets: int) -> int {
    spec_cell_hash(cell[0] as int, cell[1] as int, buckets)
}

/// Column of the `k`-th cell of the block around a cell in column `x`. The
/// block is scanned row by row, each row from left to right.
pub open spec fn block_column(x: int, k: int) -> int {
    x + k % 3 - 1
}

/// Row of the `k`-th cell of the block around a cell in row `y`.
pub open spec fn block_row(y: int, k: int) -> int {
    y + k / 3 - 1
}

/// Whether `cell` is one of the nine cells of the block around `center`.
pub open spec fn in_block(cell: [i32; 2], center: [i32; 2]) -> bool {
    &&& center[0] - 1 <= cell[0] <= center[0] + 1
    &&& center[1] - 1 <= cell[1] <= center[1] + 1
}

/// Whether every cell of the block around `center` has coordinates that fit
/// the machine integers a cell is made of.
pub open spec fn block_fits(center: [i32; 2]) -> bool {
    &&& i32::MIN < center[0] < i32::MAX
    &&& i32::MIN < center[1] < i32::MAX
}

/// Whether `cell` is one of the nine cells of the block around `center`.
pub(crate) fn cell_in_block(cell: [i32; 2], center: [i32; 2]) -> (inside: bool)
    requires
        block_fits(center),
    ensures
        inside == in_block(cell, center),
{
    center[0] - 1 <= cell[0] && cell[0] <= center[0] + 1 && center[1] - 1 <= cell[1] && cell[1]
        <= center[1] + 1
}

/// The cell at `offset` from `center`.
///
/// Trusted: the body is `vecmath::vec2_add`, which returns the two sums
/// `center[0] + offset[0]` and `center[1] + offset[1]` in machine arithmetic.
/// The sums must fit, since the machine addition does not return otherwise
/// when overflow is checked.
#[verifier::external_body]
pub(crate) fn cell_at(center: [i32; 2], offset: [i32; 2]) -> (cell: [i32; 2])
    requires
        i32::MIN <= center[0] + offset[0] <= i32::MAX,
        i32::MIN <= center[1] + offset[1] <= i32::MAX,
    ensures
        cell[0] == center[0] + offset[0],
        cell[1] == center[1] + offset[1],
{
    vecmath::vec2_add(center, offset)
}

} // verus!
