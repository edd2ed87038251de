//! The hexagon inscribed in the square grid, row by row.

use vstd::prelude::*;

verus! {

/// The inclusive range of playable columns of one logical row.
#[derive(Clone, Copy, Debug, PartialEq, Eq, Structural)]
pub struct RowDesc {
    pub x_min: i32,
    pub x_max: i32,
}

/// Number of logical rows (and columns) of the board.
pub const ROWS: usize = 11;

/// First playable column of logical row `r`.
pub open spec fn row_x_min(r: int) -> int {
    if 5 - r > 0 {
        5 - r
    } else {
        0
    }
}

/// Last playable column of logical row `r`.
pub open spec fn row_x_max(r: int) -> int {
    if 15 - r < 10 {
        15 - r
    } else {
        10
    }
}

/// The column ranges of the eleven logical rows, top row first.
pub fn board_rows() -> (rows: Vec<RowDesc>)
    ensures
        rows@.len() == ROWS,
        forall|r: int|
            0 <= r < ROWS ==> (#[trigger] rows@[r]).x_min == row_x_min(r) && rows@[r].x_max
                == row_x_max(r),
{
    let mut rows: Vec<RowDesc> = Vec::with_capacity(11);
    let mut r: i32 = 0;
    while r < 11
        invariant
            0 <= r <= 11,
            rows@.len() == r,
            forall|k: int|
                0 <= k < r ==> (#[trigger] rows@[k]).x_min == row_x_min(k) && rows@[k].x_max
                    == row_x_max(k),
        decreases 11 - r,
    {
        let x_min: i32 = if 5 - r > 0 {
            5 - r
        } else {
            0
        };
        let x_max: i32 = if 15 - r < 10 {
            15 - r
        } else {
            10
        };
        rows.push(RowDesc { x_min, x_max });
        r += 1;
    }
    rows
}

} // verus!
