//! Square and rectangular tables stored row after row in one sequence: where
//! an entry stands.

use vstd::prelude::*;
use vstd::arithmetic::div_mod::{lemma_fundamental_div_mod, lemma_mod_pos_bound};

verus! {

/// In a table of `h` rows of `w` entries, the entry in column `x` of row `y`
/// stands at `y * w + x`, before the end of the table.
pub proof fn lemma_flat_index_bound(w: int, h: int, x: int, y: int)
    requires
        0 <= x < w,
        0 <= y < h,
    ensures
        0 <= y * w + x < w * h,
        y * w + x < h * w,
        0 <= y * w,
{
    assert(0 <= y * w) by (nonlinear_arith)
        requires
            0 <= y,
            0 <= w,
    ;
    assert((y + 1) * w <= h * w) by (nonlinear_arith)
        requires
            y + 1 <= h,
            0 <= w,
    ;
    assert((y + 1) * w == y * w + w) by (nonlinear_arith);
    assert(h * w == w * h) by (nonlinear_arith);
}

/// No two entries of a table stand at the same place.
pub proof fn lemma_flat_index_unique(w: int, x: int, y: int, other_x: int, other_y: int)
    requires
        0 <= x < w,
        0 <= other_x < w,
        y * w + x == other_y * w + other_x,
    ensures
        x == other_x,
        y == other_y,
{
    assert(y == other_y) by (nonlinear_arith)
        requires
            0 <= x < w,
            0 <= other_x < w,
            y * w + x == other_y * w + other_x,
    ;
}

/// Every place in a table of `h` rows of `w` entries is the place of the
/// entry in column `p % w` of row `p / w`.
pub proof fn lemma_flat_index_decode(w: int, h: int, p: int)
    requires
        0 <= p < w * h,
        0 <= w,
    ensures
        0 < w,
        0 <= p % w < w,
        0 <= p / w < h,
        (p / w) * w + p % w == p,
{
    assert(w > 0) by (nonlinear_arith)
        requires
            0 <= p < w * h,
            0 <= w,
    ;
    lemma_fundamental_div_mod(p, w);
    lemma_mod_pos_bound(p, w);
    assert(0 <= p / w < h) by (nonlinear_arith)
        requires
            0 <= p < w * h,
            p == w * (p / w) + p % w,
            0 <= p % w < w,
            w > 0,
    ;
    assert(w * (p / w) == (p / w) * w) by (nonlinear_arith);
}

} // verus!
