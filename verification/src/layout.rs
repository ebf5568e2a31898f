//! Facts about row-major layouts shared by the grids, images and codes.

use vstd::prelude::*;

verus! {

/// Cell `(y, x)` of a grid of `h` rows of `w` cells sits at `y * w + x`,
/// inside the grid, and row `y + 1` starts where row `y` ends.
pub(crate) proof fn lemma_cell_index(w: int, h: int, y: int, x: int)
    requires
        0 <= y < h,
        0 <= x < w,
    ensures
        0 <= y * w,
        y * w + x < h * w,
        (y * w + x) / w == y,
        (y * w + x) % w == x,
        y * w + w == (y + 1) * w,
{
    assert(0 <= y * w && y * w + x < h * w) by (nonlinear_arith)
        requires
            0 <= y < h,
            0 <= x < w,
    ;
    assert(y * w + w == (y + 1) * w) by (nonlinear_arith);
    vstd::arithmetic::div_mod::lemma_fundamental_div_mod_converse(y * w + x, w, y, x);
}

/// Distinct cells of a row-major layout sit at distinct places.
pub(crate) proof fn lemma_unique_cell(w: int, y1: int, x1: int, y2: int, x2: int)
    requires
        0 <= x1 < w,
        0 <= x2 < w,
        0 <= y1,
        0 <= y2,
        y1 * w + x1 == y2 * w + x2,
    ensures
        y1 == y2,
        x1 == x2,
{
    vstd::arithmetic::div_mod::lemma_fundamental_div_mod_converse(y1 * w + x1, w, y1, x1);
    vstd::arithmetic::div_mod::lemma_fundamental_div_mod_converse(y2 * w + x2, w, y2, x2);
}

} // verus!
