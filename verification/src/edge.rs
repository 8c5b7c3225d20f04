//! The four-sample filter applied across one block boundary.
//!
//! Samples `A` and `B` lie on one side of the boundary and `C`, `D` on the
//! other, with `B` and `C` adjacent to it.

use vstd::prelude::*;

verus! {

/// Integer division that rounds toward zero, for a positive divisor.
pub open spec fn trunc_div(x: int, d: int) -> int
    recommends
        d > 0,
{
    if x >= 0 {
        x / d
    } else {
        -((-x) / d)
    }
}

/// Absolute value.
pub open spec fn magnitude(x: int) -> int {
    if x < 0 {
        -x
    } else {
        x
    }
}

/// The larger of zero and `x`.
pub open spec fn at_least_zero(x: int) -> int {
    if x < 0 {
        0
    } else {
        x
    }
}

/// The ramp `sign(x) * max(0, |x| - max(0, 2 * (|x| - strength)))`: the
/// identity up to `strength`, falling back to zero at twice `strength`.
pub open spec fn up_down_ramp_spec(x: int, strength: int) -> int {
    let m = at_least_zero(magnitude(x) - at_least_zero(2 * (magnitude(x) - strength)));
    if x < 0 {
        -m
    } else {
        m
    }
}

/// `x` limited to the range `-|lim| ..= |lim|`.
pub open spec fn clipd1_spec(x: int, lim: int) -> int {
    if x < -magnitude(lim) {
        -magnitude(lim)
    } else if x > magnitude(lim) {
        magnitude(lim)
    } else {
        x
    }
}

/// `x` limited to the range of a sample, `0 ..= 255`.
pub open spec fn clamp_sample(x: int) -> int {
    if x < 0 {
        0
    } else if x > 255 {
        255
    } else {
        x
    }
}

/// The correction applied to the two samples next to the boundary.
pub open spec fn inner_delta(a: int, b: int, c: int, d: int, strength: int) -> int {
    up_down_ramp_spec(trunc_div(a - 4 * b + 4 * c - d, 8), strength)
}

/// The correction applied to the two outer samples.
pub open spec fn outer_delta(a: int, b: int, c: int, d: int, strength: int) -> int {
    clipd1_spec(trunc_div(a - d, 4), trunc_div(inner_delta(a, b, c, d, strength), 2))
}

/// The filtered samples `(A', B', C', D')`.
pub open spec fn edge_filter(a: int, b: int, c: int, d: int, strength: int) -> (int, int, int, int) {
    let d1 = inner_delta(a, b, c, d, strength);
    let d2 = outer_delta(a, b, c, d, strength);
    (a - d2, clamp_sample(b + d1), clamp_sample(c - d1), d + d2)
}

/// Component `k` (0 for `A'` up to 3 for `D'`) of the filtered samples.
#[verifier::opaque]
pub open spec fn edge_filter_at(a: u8, b: u8, c: u8, d: u8, strength: u8, k: int) -> u8 {
    let f = edge_filter(a as int, b as int, c as int, d as int, strength as int);
    if k == 0 {
        f.0 as u8
    } else if k == 1 {
        f.1 as u8
    } else if k == 2 {
        f.2 as u8
    } else {
        f.3 as u8
    }
}

/// The outer samples need no clamp: `A'` and `D'` always lie between the
/// unfiltered `A` and `D`, so all four filtered samples are valid samples.
pub proof fn lemma_filtered_samples_in_range(a: u8, b: u8, c: u8, d: u8, strength: u8)
    ensures
        ({
            let f = edge_filter(a as int, b as int, c as int, d as int, strength as int);
            &&& 0 <= f.0 <= 255
            &&& 0 <= f.1 <= 255
            &&& 0 <= f.2 <= 255
            &&& 0 <= f.3 <= 255
            &&& (a <= d ==> a <= f.0 <= d && a <= f.3 <= d)
            &&& (d <= a ==> d <= f.0 <= a && d <= f.3 <= a)
        }),
{
}

/// A flat region is left alone: four equal samples come back unchanged,
/// whatever the strength.
pub proof fn lemma_flat_region_unchanged(v: u8, strength: u8)
    ensures
        edge_filter(v as int, v as int, v as int, v as int, strength as int) == (
            v as int,
            v as int,
            v as int,
            v as int,
        ),
        forall|k: int| edge_filter_at(v, v, v, v, strength, k) == v,
{
    reveal(edge_filter_at);
}

/// Strength zero turns the filter off.
pub proof fn lemma_zero_strength_unchanged(a: u8, b: u8, c: u8, d: u8)
    ensures
        edge_filter(a as int, b as int, c as int, d as int, 0) == (
            a as int,
            b as int,
            c as int,
            d as int,
        ),
        edge_filter_at(a, b, c, d, 0, 0) == a,
        edge_filter_at(a, b, c, d, 0, 1) == b,
        edge_filter_at(a, b, c, d, 0, 2) == c,
        edge_filter_at(a, b, c, d, 0, 3) == d,
{
    reveal(edge_filter_at);
}

/// The ramp of `x` for the given strength.
pub fn up_down_ramp(x: i16, strength: i16) -> (r: i16)
    requires
        i16::MIN < x,
        i16::MIN <= 2 * (magnitude(x as int) - strength) <= i16::MAX,
    ensures
        r == up_down_ramp_spec(x as int, strength as int),
{
    let ax: i16 = if x < 0 {
        -x
    } else {
        x
    };
    let over: i16 = 2 * (ax - strength);
    let over: i16 = if over < 0 {
        0
    } else {
        over
    };
    let m: i16 = if ax - over < 0 {
        0
    } else {
        ax - over
    };
    if x < 0 {
        -m
    } else {
        m
    }
}

/// Clips `x` to the range `-|lim| ..= |lim|`.
pub fn clipd1(x: i16, lim: i16) -> (r: i16)
    requires
        i16::MIN < lim,
    ensures
        r == clipd1_spec(x as int, lim as int),
{
    let bound: i16 = if lim < 0 {
        -lim
    } else {
        lim
    };
    if x < -bound {
        -bound
    } else if x > bound {
        bound
    } else {
        x
    }
}

/// Filters the four samples across a boundary in place.
#[allow(non_snake_case)]
pub fn process(A: &mut u8, B: &mut u8, C: &mut u8, D: &mut u8, strength: u8)
    ensures
        *final(A) == edge_filter_at(*old(A), *old(B), *old(C), *old(D), strength, 0),
        *final(B) == edge_filter_at(*old(A), *old(B), *old(C), *old(D), strength, 1),
        *final(C) == edge_filter_at(*old(A), *old(B), *old(C), *old(D), strength, 2),
        *final(D) == edge_filter_at(*old(A), *old(B), *old(C), *old(D), strength, 3),
{
    let a16: i16 = *A as i16;
    let b16: i16 = *B as i16;
    let c16: i16 = *C as i16;
    let d16: i16 = *D as i16;

    let d: i16 = (a16 - 4 * b16 + 4 * c16 - d16) / 8;
    let d1: i16 = up_down_ramp(d, strength as i16);
    let d2: i16 = clipd1((a16 - d16) / 4, d1 / 2);

    proof {
        reveal(edge_filter_at);
        lemma_filtered_samples_in_range(*A, *B, *C, *D, strength);
    }
    let nb: i16 = b16 + d1;
    let nc: i16 = c16 - d1;
    *A = (a16 - d2) as u8;
    *B = (if nb < 0 {
        0
    } else if nb > 255 {
        255
    } else {
        nb
    }) as u8;
    *C = (if nc < 0 {
        0
    } else if nc > 255 {
        255
    } else {
        nc
    }) as u8;
    *D = (d16 + d2) as u8;
}

} // verus!
