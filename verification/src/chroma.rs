//! Chroma for every luma sample of a 4:2:0 picture.
//!
//! A chroma sample sits at the corner shared by the four luma samples of its
//! 2x2 quad. Seen from a luma sample, the four chroma samples around it lie
//! one quarter and three quarters of the chroma spacing away in each
//! direction, which gives the weights 3 and 1. Both directions are weighted
//! before anything is rounded: the weighted sum of the four samples, its
//! weights adding up to 16, is rounded once.

use crate::grid::lemma_cell_in_plane;
use vstd::prelude::*;

verus! {

/// `3 * a + b` if `a` is the nearer of the two, else `a + 3 * b`.
pub open spec fn mix(near_first: bool, a: int, b: int) -> int {
    if near_first {
        3 * a + b
    } else {
        a + 3 * b
    }
}

/// The sample between four chroma samples, top left, top right, bottom left
/// and bottom right, that is nearest to the left ones if `left_near` and to
/// the top ones if `top_near`.
pub open spec fn bilinear(
    tl: u8,
    tr: u8,
    bl: u8,
    br: u8,
    left_near: bool,
    top_near: bool,
) -> u8 {
    ((mix(
        top_near,
        mix(left_near, tl as int, tr as int),
        mix(left_near, bl as int, br as int),
    ) + 8) / 16) as u8
}

/// The chroma coordinate just before luma coordinate `t`: -1 for the first
/// luma sample, which has no chroma sample before it.
pub open spec fn chroma_before(t: int) -> int {
    (t - 1) / 2
}

/// Whether the chroma sample before luma coordinate `t` is the nearer one.
pub open spec fn before_is_near(t: int) -> bool {
    t % 2 == 1
}

/// `i` moved into `0 .. n`.
pub open spec fn clamp_index(i: int, n: int) -> int {
    if i < 0 {
        0
    } else if i >= n {
        n - 1
    } else {
        i
    }
}

/// The chroma of the luma sample in column `x` of row `y`, from a plane of
/// `ch` rows of `cw` chroma samples, with coordinates that fall off the
/// plane moved to its border.
pub open spec fn upsampled(plane: Seq<u8>, cw: int, ch: int, x: int, y: int) -> u8 {
    let x0 = clamp_index(chroma_before(x), cw);
    let x1 = clamp_index(chroma_before(x) + 1, cw);
    let y0 = clamp_index(chroma_before(y), ch);
    let y1 = clamp_index(chroma_before(y) + 1, ch);
    bilinear(
        plane[y0 * cw + x0],
        plane[y0 * cw + x1],
        plane[y1 * cw + x0],
        plane[y1 * cw + x1],
        before_is_near(x),
        before_is_near(y),
    )
}

/// The chroma of a luma sample that has chroma samples on all four sides,
/// taken from them without any clamping.
pub open spec fn interior_chroma(plane: Seq<u8>, cw: int, x: int, y: int) -> u8 {
    let x0 = chroma_before(x);
    let y0 = chroma_before(y);
    bilinear(
        plane[y0 * cw + x0],
        plane[y0 * cw + x0 + 1],
        plane[(y0 + 1) * cw + x0],
        plane[(y0 + 1) * cw + x0 + 1],
        before_is_near(x),
        before_is_near(y),
    )
}

/// Luma samples with chroma samples on all four sides: all but the first row
/// and column, and but the last row or column where the luma extent is even.
pub open spec fn is_interior(cw: int, ch: int, x: int, y: int) -> bool {
    1 <= x <= 2 * cw - 2 && 1 <= y <= 2 * ch - 2
}

/// Where the four chroma samples around a luma sample are equal, the luma
/// sample gets exactly that chroma.
pub proof fn lemma_bilinear_uniform(v: u8, left_near: bool, top_near: bool)
    ensures
        bilinear(v, v, v, v, left_near, top_near) == v,
{
}

/// The clamped sampling used along the border and the unclamped sampling
/// used inside agree on every luma sample where both apply.
pub proof fn lemma_interior_matches_border(plane: Seq<u8>, cw: int, ch: int, x: int, y: int)
    requires
        is_interior(cw, ch, x, y),
    ensures
        interior_chroma(plane, cw, x, y) == upsampled(plane, cw, ch, x, y),
{
}

/// The weighted sum of the four samples, rounded once.
pub fn blend(tl: u8, tr: u8, bl: u8, br: u8, left_near: bool, top_near: bool) -> (c: u8)
    ensures
        c == bilinear(tl, tr, bl, br, left_near, top_near),
{
    let top: u16 = if left_near {
        3 * (tl as u16) + tr as u16
    } else {
        tl as u16 + 3 * (tr as u16)
    };
    let bottom: u16 = if left_near {
        3 * (bl as u16) + br as u16
    } else {
        bl as u16 + 3 * (br as u16)
    };
    let sum: u16 = if top_near {
        3 * top + bottom
    } else {
        top + 3 * bottom
    };
    ((sum + 8) / 16) as u8
}

/// `i` moved into `0 .. n`, for an `i` that is not negative.
fn clamp_to(i: usize, n: usize) -> (j: usize)
    requires
        0 < n,
    ensures
        j == clamp_index(i as int, n as int),
{
    if i < n {
        i
    } else {
        n - 1
    }
}

/// The two chroma coordinates around luma coordinate `t`, moved into
/// `0 .. n`.
fn chroma_around(t: usize, n: usize) -> (around: (usize, usize))
    requires
        0 < n,
    ensures
        around.0 == clamp_index(chroma_before(t as int), n as int),
        around.1 == clamp_index(chroma_before(t as int) + 1, n as int),
{
    if t == 0 {
        (0, 0)
    } else {
        let before: usize = (t - 1) / 2;
        (clamp_to(before, n), clamp_to(before + 1, n))
    }
}

/// The chroma of the luma sample in column `luma_x` of row `luma_y`, taken
/// from the four chroma samples around it. Around the border of the picture,
/// where some of the four are missing, the nearest ones stand in for them.
pub fn sample_chroma_for_luma(
    chroma: &[u8],
    chroma_width: usize,
    chroma_height: usize,
    luma_x: usize,
    luma_y: usize,
) -> (c: u8)
    requires
        chroma_width > 0,
        chroma_height > 0,
        chroma_width * chroma_height == chroma.len(),
    ensures
        c == upsampled(
            chroma@,
            chroma_width as int,
            chroma_height as int,
            luma_x as int,
            luma_y as int,
        ),
{
    let (x0, x1) = chroma_around(luma_x, chroma_width);
    let (y0, y1) = chroma_around(luma_y, chroma_height);
    proof {
        let cw = chroma_width as int;
        let ch = chroma_height as int;
        assert(ch * cw == chroma.len()) by (nonlinear_arith)
            requires
                cw * ch == chroma.len(),
        ;
        lemma_cell_in_plane(cw, ch, y0 as int, x0 as int);
        lemma_cell_in_plane(cw, ch, y0 as int, x1 as int);
        lemma_cell_in_plane(cw, ch, y1 as int, x0 as int);
        lemma_cell_in_plane(cw, ch, y1 as int, x1 as int);
    }
    blend(
        chroma[y0 * chroma_width + x0],
        chroma[y0 * chroma_width + x1],
        chroma[y1 * chroma_width + x0],
        chroma[y1 * chroma_width + x1],
        luma_x % 2 == 1,
        luma_y % 2 == 1,
    )
}

} // verus!
