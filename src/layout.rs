//! The grid of swatch blocks.
use vstd::prelude::*;

verus! {

/// Width of one swatch block, in pixels.
pub const BLOCK_SIZE_X: u32 = 400;
/// Height of one swatch block, in pixels.
pub const BLOCK_SIZE_Y: u32 = 300;
/// Blocks per row of the grid.
pub const COLUMNS: usize = 8;

/// Rows needed for `n` blocks.
pub open spec fn rows_for(n: nat) -> nat {
    (n + COLUMNS - 1) as nat / COLUMNS as nat
}

/// Pixel size of the image that holds `n` blocks: full rows of `COLUMNS`
/// blocks, the last row possibly part empty.
pub fn grid_size(n: usize) -> (r: (u32, u32))
    requires
        rows_for(n as nat) * BLOCK_SIZE_Y <= u32::MAX,
    ensures
        r.0 == COLUMNS * BLOCK_SIZE_X,
        r.1 == rows_for(n as nat) * BLOCK_SIZE_Y,
{
    let rows = n / COLUMNS + if n % COLUMNS == 0 {
        0
    } else {
        1
    };
    assert(rows == rows_for(n as nat));
    ((COLUMNS as u32) * BLOCK_SIZE_X, (rows as u32) * BLOCK_SIZE_Y)
}

/// Top-left pixel of block `i`, filled row by row.
pub fn block_origin(i: usize) -> (r: (u32, u32))
    requires
        (i / COLUMNS) * BLOCK_SIZE_Y <= u32::MAX,
    ensures
        r.0 == (i % COLUMNS) * BLOCK_SIZE_X,
        r.1 == (i / COLUMNS) * BLOCK_SIZE_Y,
{
    let col = (i % COLUMNS) as u32;
    let row = i / COLUMNS;
    (col * BLOCK_SIZE_X, (row as u32) * BLOCK_SIZE_Y)
}

} // verus!
