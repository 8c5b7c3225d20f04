//! The edge filter on eight neighbouring columns at once.

use crate::edge::clipd1_spec;
use crate::edge::edge_filter_at;
use crate::edge::lemma_filtered_samples_in_range;
use crate::edge::magnitude;
use crate::edge::trunc_div;
use crate::edge::up_down_ramp_spec;
use crate::lanes;
use crate::lanes::lanes;
use vstd::prelude::*;
use wide::i16x8;

verus! {

/// The sign of `x`: -1, 0 or 1.
pub open spec fn sign(x: int) -> int {
    if x < 0 {
        -1
    } else if x > 0 {
        1
    } else {
        0
    }
}

/// `x` raised to at least `lo`, then lowered to at most `hi`.
pub open spec fn clamp_spec(x: int, lo: int, hi: int) -> int {
    let t = if x < lo {
        lo
    } else {
        x
    };
    if t < hi {
        t
    } else {
        hi
    }
}

/// Lane-wise sign.
pub(crate) fn signum_simd(x: i16x8) -> (r: i16x8)
    ensures
        lanes(r).len() == 8,
        forall|i: int| 0 <= i < 8 ==> #[trigger] lanes(r)[i] == sign(lanes(x)[i] as int),
{
    // A comparison that holds yields -1, hence "less" minus "greater".
    let zero = lanes::splat(0);
    lanes::sub(lanes::mask_lt(x, zero), lanes::mask_gt(x, zero))
}

proof fn lemma_sign_times(x: int, m: int)
    ensures
        sign(x) * m == if x < 0 {
            -m
        } else if x > 0 {
            m
        } else {
            0
        },
{
    if x < 0 {
        assert((-1) * m == -m);
    } else if x > 0 {
        assert(1 * m == m);
    } else {
        assert(0 * m == 0);
    }
}

proof fn lemma_shr_is_div(x: i16)
    requires
        0 <= x,
    ensures
        x >> 1u32 == x / 2,
        x >> 2u32 == x / 4,
        x >> 3u32 == x / 8,
{
    assert(0 <= x ==> x >> 1u32 == x / 2) by (bit_vector);
    assert(0 <= x ==> x >> 2u32 == x / 4) by (bit_vector);
    assert(0 <= x ==> x >> 3u32 == x / 8) by (bit_vector);
}

/// The divisor that a right shift by `k` bits stands for.
pub open spec fn shift_divisor(k: u32) -> int {
    if k == 1 {
        2
    } else if k == 2 {
        4
    } else {
        8
    }
}

/// Lane-wise division by 2, 4 or 8 (`k` = 1, 2, 3) that rounds toward zero,
/// unlike a plain arithmetic shift, which rounds down.
fn trunc_div_simd(x: i16x8, k: u32) -> (r: i16x8)
    requires
        1 <= k <= 3,
        forall|i: int| 0 <= i < 8 ==> i16::MIN < #[trigger] lanes(x)[i],
    ensures
        lanes(r).len() == 8,
        forall|i: int|
            0 <= i < 8 ==> #[trigger] lanes(r)[i] == trunc_div(
                lanes(x)[i] as int,
                shift_divisor(k),
            ),
{
    let ax = lanes::abs(x);
    let q = lanes::shr(ax, k);
    let r = lanes::mul(signum_simd(x), q);
    proof {
        assert forall|i: int| 0 <= i < 8 implies #[trigger] lanes(r)[i] == trunc_div(
            lanes(x)[i] as int,
            shift_divisor(k),
        ) by {
            let xi = lanes(x)[i];
            assert(lanes(ax)[i] == magnitude(xi as int));
            lemma_shr_is_div(lanes(ax)[i]);
            assert(lanes(q)[i] == magnitude(xi as int) / shift_divisor(k));
            assert(0 <= lanes(q)[i] <= magnitude(xi as int));
            lemma_sign_times(xi as int, lanes(q)[i] as int);
            assert(lanes(r)[i] == lanes::wrap_i16(sign(xi as int) * lanes(q)[i]));
        }
    }
    r
}

/// Lane-wise ramp, see [`up_down_ramp_spec`].
pub(crate) fn up_down_ramp_simd(x: i16x8, strength: i16) -> (r: i16x8)
    requires
        forall|i: int|
            0 <= i < 8 ==> {
                &&& i16::MIN < #[trigger] lanes(x)[i]
                &&& i16::MIN <= 2 * (magnitude(lanes(x)[i] as int) - strength) <= i16::MAX
            },
    ensures
        lanes(r).len() == 8,
        forall|i: int|
            0 <= i < 8 ==> #[trigger] lanes(r)[i] == up_down_ramp_spec(
                lanes(x)[i] as int,
                strength as int,
            ),
{
    let zero = lanes::splat(0);
    let ax = lanes::abs(x);
    let over = lanes::max(lanes::mul(lanes::splat(2), lanes::sub(ax, lanes::splat(strength))), zero);
    let m = lanes::max(lanes::sub(ax, over), zero);
    let r = lanes::mul(signum_simd(x), m);
    proof {
        assert forall|i: int| 0 <= i < 8 implies #[trigger] lanes(r)[i] == up_down_ramp_spec(
            lanes(x)[i] as int,
            strength as int,
        ) by {
            let xi = lanes(x)[i] as int;
            assert(lanes(ax)[i] == magnitude(xi));
            assert(lanes(over)[i] >= 0);
            assert(0 <= lanes(m)[i] <= magnitude(xi));
            lemma_sign_times(xi, lanes(m)[i] as int);
            assert(lanes(r)[i] == lanes::wrap_i16(sign(xi) * lanes(m)[i]));
        }
    }
    r
}

/// Lane-wise clamp of `x` between `min` and `max`.
pub(crate) fn clamp_simd(x: i16x8, min: i16x8, max: i16x8) -> (r: i16x8)
    ensures
        lanes(r).len() == 8,
        forall|i: int|
            0 <= i < 8 ==> #[trigger] lanes(r)[i] == clamp_spec(
                lanes(x)[i] as int,
                lanes(min)[i] as int,
                lanes(max)[i] as int,
            ),
{
    lanes::min(lanes::max(x, min), max)
}

/// Lane-wise clip of `x` to the range `-|lim| ..= |lim|`.
pub(crate) fn clipd1_simd(x: i16x8, lim: i16x8) -> (r: i16x8)
    requires
        forall|i: int| 0 <= i < 8 ==> i16::MIN < #[trigger] lanes(lim)[i],
    ensures
        lanes(r).len() == 8,
        forall|i: int|
            0 <= i < 8 ==> #[trigger] lanes(r)[i] == clipd1_spec(
                lanes(x)[i] as int,
                lanes(lim)[i] as int,
            ),
{
    let la = lanes::abs(lim);
    let neg = lanes::sub(lanes::splat(0), la);
    let r = clamp_simd(x, neg, la);
    proof {
        assert forall|i: int| 0 <= i < 8 implies #[trigger] lanes(r)[i] == clipd1_spec(
            lanes(x)[i] as int,
            lanes(lim)[i] as int,
        ) by {
            assert(lanes(la)[i] == magnitude(lanes(lim)[i] as int));
            assert(lanes(neg)[i] == -magnitude(lanes(lim)[i] as int));
        }
    }
    r
}

/// The first eight samples of a row, widened to 16-bit lanes.
fn load_lanes(row: &[u8]) -> (v: i16x8)
    requires
        row.len() >= 8,
    ensures
        lanes(v).len() == 8,
        forall|i: int| 0 <= i < 8 ==> #[trigger] lanes(v)[i] == row[i],
{
    lanes::from_array(
        [
            row[0] as i16,
            row[1] as i16,
            row[2] as i16,
            row[3] as i16,
            row[4] as i16,
            row[5] as i16,
            row[6] as i16,
            row[7] as i16,
        ],
    )
}

/// Filters eight neighbouring columns across a boundary in place: lane `i`
/// of the four rows gets exactly what [`crate::edge::process`] gives for the
/// four samples of column `i`. Samples past the eighth are left alone.
#[allow(non_snake_case)]
#[verifier::rlimit(30)]
pub fn process_simd(A: &mut [u8], B: &mut [u8], C: &mut [u8], D: &mut [u8], strength: u8)
    requires
        old(A).len() >= 8,
        old(B).len() >= 8,
        old(C).len() >= 8,
        old(D).len() >= 8,
    ensures
        final(A).len() == old(A).len(),
        final(B).len() == old(B).len(),
        final(C).len() == old(C).len(),
        final(D).len() == old(D).len(),
        forall|i: int|
            0 <= i < 8 ==> #[trigger] final(A)[i] == edge_filter_at(
                old(A)[i],
                old(B)[i],
                old(C)[i],
                old(D)[i],
                strength,
                0,
            ),
        forall|i: int|
            0 <= i < 8 ==> #[trigger] final(B)[i] == edge_filter_at(
                old(A)[i],
                old(B)[i],
                old(C)[i],
                old(D)[i],
                strength,
                1,
            ),
        forall|i: int|
            0 <= i < 8 ==> #[trigger] final(C)[i] == edge_filter_at(
                old(A)[i],
                old(B)[i],
                old(C)[i],
                old(D)[i],
                strength,
                2,
            ),
        forall|i: int|
            0 <= i < 8 ==> #[trigger] final(D)[i] == edge_filter_at(
                old(A)[i],
                old(B)[i],
                old(C)[i],
                old(D)[i],
                strength,
                3,
            ),
        forall|i: int| 8 <= i < old(A).len() ==> #[trigger] final(A)[i] == old(A)[i],
        forall|i: int| 8 <= i < old(B).len() ==> #[trigger] final(B)[i] == old(B)[i],
        forall|i: int| 8 <= i < old(C).len() ==> #[trigger] final(C)[i] == old(C)[i],
        forall|i: int| 8 <= i < old(D).len() ==> #[trigger] final(D)[i] == old(D)[i],
{
    let ghost a0 = A@;
    let ghost b0 = B@;
    let ghost c0 = C@;
    let ghost d0 = D@;
    let a16 = load_lanes(A);
    let b16 = load_lanes(B);
    let c16 = load_lanes(C);
    let d16 = load_lanes(D);

    let four = lanes::splat(4);
    let b4 = lanes::mul(four, b16);
    let c4 = lanes::mul(four, c16);
    let sum = lanes::sub(lanes::add(lanes::sub(a16, b4), c4), d16);
    assert forall|i: int| 0 <= i < 8 implies #[trigger] lanes(sum)[i] == a0[i] - 4 * b0[i] + 4
        * c0[i] - d0[i] by {
        assert(lanes(b4)[i] == 4 * b0[i]);
        assert(lanes(c4)[i] == 4 * c0[i]);
    }
    let d = trunc_div_simd(sum, 3);
    let d1 = up_down_ramp_simd(d, strength as i16);
    let lim = trunc_div_simd(d1, 1);
    let d2 = clipd1_simd(trunc_div_simd(lanes::sub(a16, d16), 2), lim);

    let zero = lanes::splat(0);
    let top = lanes::splat(255);
    let res_a = lanes::to_array(lanes::sub(a16, d2));
    let res_b = lanes::to_array(clamp_simd(lanes::add(b16, d1), zero, top));
    let res_c = lanes::to_array(clamp_simd(lanes::sub(c16, d1), zero, top));
    let res_d = lanes::to_array(lanes::add(d16, d2));

    assert forall|i: int| 0 <= i < 8 implies {
        &&& #[trigger] res_a@[i] == edge_filter_at(a0[i], b0[i], c0[i], d0[i], strength, 0)
        &&& res_b@[i] == edge_filter_at(a0[i], b0[i], c0[i], d0[i], strength, 1)
        &&& res_c@[i] == edge_filter_at(a0[i], b0[i], c0[i], d0[i], strength, 2)
        &&& res_d@[i] == edge_filter_at(a0[i], b0[i], c0[i], d0[i], strength, 3)
    } by {
        reveal(edge_filter_at);
        lemma_filtered_samples_in_range(a0[i], b0[i], c0[i], d0[i], strength);
    }

    for i in 0..8usize
        invariant
            A.len() == a0.len(),
            B.len() == b0.len(),
            C.len() == c0.len(),
            D.len() == d0.len(),
            a0.len() >= 8,
            b0.len() >= 8,
            c0.len() >= 8,
            d0.len() >= 8,
            forall|j: int|
                0 <= j < 8 ==> {
                    &&& #[trigger] res_a@[j] == edge_filter_at(
                        a0[j],
                        b0[j],
                        c0[j],
                        d0[j],
                        strength,
                        0,
                    )
                    &&& res_b@[j] == edge_filter_at(a0[j], b0[j], c0[j], d0[j], strength, 1)
                    &&& res_c@[j] == edge_filter_at(a0[j], b0[j], c0[j], d0[j], strength, 2)
                    &&& res_d@[j] == edge_filter_at(a0[j], b0[j], c0[j], d0[j], strength, 3)
                },
            forall|j: int|
                0 <= j < i ==> #[trigger] A[j] == edge_filter_at(
                    a0[j],
                    b0[j],
                    c0[j],
                    d0[j],
                    strength,
                    0,
                ),
            forall|j: int|
                0 <= j < i ==> #[trigger] B[j] == edge_filter_at(
                    a0[j],
                    b0[j],
                    c0[j],
                    d0[j],
                    strength,
                    1,
                ),
            forall|j: int|
                0 <= j < i ==> #[trigger] C[j] == edge_filter_at(
                    a0[j],
                    b0[j],
                    c0[j],
                    d0[j],
                    strength,
                    2,
                ),
            forall|j: int|
                0 <= j < i ==> #[trigger] D[j] == edge_filter_at(
                    a0[j],
                    b0[j],
                    c0[j],
                    d0[j],
                    strength,
                    3,
                ),
            forall|j: int| i <= j < a0.len() ==> #[trigger] A[j] == a0[j],
            forall|j: int| i <= j < b0.len() ==> #[trigger] B[j] == b0[j],
            forall|j: int| i <= j < c0.len() ==> #[trigger] C[j] == c0[j],
            forall|j: int| i <= j < d0.len() ==> #[trigger] D[j] == d0[j],
    {
        assert(res_a@[i as int] == edge_filter_at(
            a0[i as int],
            b0[i as int],
            c0[i as int],
            d0[i as int],
            strength,
            0,
        ));
        A[i] = res_a[i] as u8;
        B[i] = res_b[i] as u8;
        C[i] = res_c[i] as u8;
        D[i] = res_d[i] as u8;
    }
}

} // verus!
