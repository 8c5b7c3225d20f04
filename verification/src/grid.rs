//! Row-major addressing of a sample plane.

use vstd::arithmetic::div_mod::lemma_fundamental_div_mod;
use vstd::arithmetic::div_mod::lemma_fundamental_div_mod_converse;
use vstd::arithmetic::mul::lemma_mul_is_commutative;
use vstd::arithmetic::mul::lemma_mul_is_distributive_add_other_way;
use vstd::prelude::*;

verus! {

/// The sample in column `c` of row `r` has index `r * w + c`, and no other
/// cell of the plane has.
pub proof fn lemma_cell_index(w: int, r: int, c: int)
    requires
        0 <= c < w,
    ensures
        (r * w + c) / w == r,
        (r * w + c) % w == c,
{
    lemma_fundamental_div_mod_converse(r * w + c, w, r, c);
}

/// Every index splits into its row and its column.
pub proof fn lemma_index_cell(w: int, i: int)
    requires
        0 < w,
    ensures
        i == (i / w) * w + i % w,
        0 <= i % w < w,
{
    lemma_fundamental_div_mod(i, w);
    lemma_mul_is_commutative(w, i / w);
}

/// Going one row down adds the width to the index.
pub proof fn lemma_next_row(w: int, r: int)
    ensures
        (r + 1) * w == r * w + w,
{
    lemma_mul_is_distributive_add_other_way(w, r, 1);
}

/// A cell of a plane of `h` rows lies inside the plane.
pub proof fn lemma_cell_in_plane(w: int, h: int, r: int, c: int)
    requires
        0 <= r < h,
        0 <= c < w,
    ensures
        0 <= r * w + c < h * w,
{
    assert(0 <= r * w && (r + 1) * w <= h * w) by (nonlinear_arith)
        requires
            0 <= r < h,
            0 < w,
    ;
    lemma_next_row(w, r);
}

/// An index inside a plane of `h` rows lies in one of those rows.
pub proof fn lemma_index_in_plane(w: int, h: int, i: int)
    requires
        0 < w,
        0 <= h,
        0 <= i < h * w,
    ensures
        0 <= i / w < h,
{
    lemma_index_cell(w, i);
    let r = i / w;
    if r >= h {
        assert(r * w >= h * w) by (nonlinear_arith)
            requires
                r >= h,
                0 < w,
        ;
    }
    if r < 0 {
        assert(r * w <= -w) by (nonlinear_arith)
            requires
                r <= -1,
                0 < w,
        ;
    }
}

} // verus!
