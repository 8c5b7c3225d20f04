//! Limited-range BT.601 YUV to RGB conversion through lookup tables.
//!
//! Each table entry is a 12.4 fixed-point number: 16 times the real value,
//! rounded to the nearest integer. No entry lies halfway between two
//! integers, so the rounding is never ambiguous.
//!
//! Chroma is stretched from `16 ..= 240` to `0 ..= 255` and then centred by
//! subtracting 128, which puts the neutral sample 128 half a step below
//! zero. Greys therefore lean slightly to green: `(125, 128, 128)` comes out
//! as `(126, 128, 126)`.

use crate::edge::clamp_sample;
use vstd::prelude::*;

verus! {

/// Weight of Cr in red, in millionths.
pub const CR_TO_R_MICRO: i64 = 1_370_705;

/// Weight of Cr in green, in millionths.
pub const CR_TO_G_MICRO: i64 = -698_001;

/// Weight of Cb in green, in millionths.
pub const CB_TO_G_MICRO: i64 = -337_633;

/// Weight of Cb in blue, in millionths.
pub const CB_TO_B_MICRO: i64 = 1_732_446;

/// The integer nearest to `n / d`, halves away from zero, for positive `d`.
pub open spec fn round_div(n: int, d: int) -> int
    recommends
        d > 0,
{
    if n >= 0 {
        (2 * n + d) / (2 * d)
    } else {
        -((2 * (-n) + d) / (2 * d))
    }
}

/// Luma entry: `(v - 16) * 255/219`, times 16, rounded.
pub open spec fn y_to_gray_spec(v: int) -> int {
    round_div((v - 16) * 255 * 16, 219)
}

/// Chroma entry for a weight of `micro` millionths:
/// `((v - 16) * 255/224 - 128) * weight`, times 16, rounded.
pub open spec fn chroma_spec(v: int, micro: int) -> int {
    round_div(((v - 16) * 255 - 128 * 224) * micro * 16, 224 * 1_000_000int)
}

/// A 12.4 fixed-point sum brought back to a sample: rounded to the nearest
/// integer by adding one half before dropping the four fraction bits, then
/// clamped to `0 ..= 255`.
pub open spec fn descale(x: int) -> int {
    clamp_sample((x + 8) / 16)
}

/// The RGB colour of a YCbCr triple.
pub open spec fn yuv_to_rgb_spec(y: u8, cb: u8, cr: u8) -> (u8, u8, u8) {
    let gray = y_to_gray_spec(y as int);
    (
        descale(gray + chroma_spec(cr as int, CR_TO_R_MICRO as int)) as u8,
        descale(
            gray + chroma_spec(cr as int, CR_TO_G_MICRO as int) + chroma_spec(
                cb as int,
                CB_TO_G_MICRO as int,
            ),
        ) as u8,
        descale(gray + chroma_spec(cb as int, CB_TO_B_MICRO as int)) as u8,
    )
}

/// With neutral chroma, luma below the black level of 16 gives black and
/// luma above the white level of 235 gives white.
pub proof fn lemma_luma_beyond_range_is_clamped(y: u8)
    ensures
        y < 16 ==> yuv_to_rgb_spec(y, 128, 128) == (0u8, 0u8, 0u8),
        y > 235 ==> yuv_to_rgb_spec(y, 128, 128) == (255u8, 255u8, 255u8),
{
    assert(chroma_spec(128, CR_TO_R_MICRO as int) == -11);
    assert(chroma_spec(128, CR_TO_G_MICRO as int) == 6);
    assert(chroma_spec(128, CB_TO_G_MICRO as int) == 3);
    assert(chroma_spec(128, CB_TO_B_MICRO as int) == -14);
}

/// The five lookup tables, each indexed by a raw sample.
pub struct ColorLut {
    /// What Y gives to all three channels.
    pub y_to_gray: [i16; 256],
    /// What Cr adds to red.
    pub cr_to_r: [i16; 256],
    /// What Cr adds to green.
    pub cr_to_g: [i16; 256],
    /// What Cb adds to green.
    pub cb_to_g: [i16; 256],
    /// What Cb adds to blue.
    pub cb_to_b: [i16; 256],
}

/// `n / d` rounded to the nearest integer, halves away from zero.
fn round_div_i64(n: i64, d: i64) -> (q: i64)
    requires
        0 < d <= 0x1000_0000,
        -0x1000_0000_0000_0000 < n < 0x1000_0000_0000_0000,
    ensures
        q == round_div(n as int, d as int),
{
    if n >= 0 {
        (2 * n + d) / (2 * d)
    } else {
        -((2 * (-n) + d) / (2 * d))
    }
}

/// The luma table entry for sample `v`.
fn remap_luma(v: u8) -> (entry: i16)
    ensures
        entry == y_to_gray_spec(v as int),
{
    let q: i64 = round_div_i64((v as i64 - 16) * 255 * 16, 219);
    assert(-300 <= q <= 4500);
    q as i16
}

/// The chroma table entry for sample `v` and a weight of `micro` millionths.
fn remap_chroma(v: u8, micro: i64) -> (entry: i16)
    requires
        -4_000_000 <= micro <= 4_000_000,
    ensures
        entry == chroma_spec(v as int, micro as int),
{
    let centred: i64 = (v as i64 - 16) * 255 - 128 * 224;
    assert(-131_008_000_000 <= centred * micro <= 131_008_000_000) by (nonlinear_arith)
        requires
            -32752 <= centred <= 32752,
            -4_000_000 <= micro <= 4_000_000,
    ;
    let q: i64 = round_div_i64(centred * micro * 16, 224 * 1_000_000);
    assert(-9400 <= q <= 9400);
    q as i16
}

impl ColorLut {
    /// Every entry of every table is the value that BT.601 asks for.
    pub open spec fn wf(&self) -> bool {
        &&& forall|v: int| 0 <= v < 256 ==> #[trigger] self.y_to_gray[v] == y_to_gray_spec(v)
        &&& forall|v: int|
            0 <= v < 256 ==> #[trigger] self.cr_to_r[v] == chroma_spec(v, CR_TO_R_MICRO as int)
        &&& forall|v: int|
            0 <= v < 256 ==> #[trigger] self.cr_to_g[v] == chroma_spec(v, CR_TO_G_MICRO as int)
        &&& forall|v: int|
            0 <= v < 256 ==> #[trigger] self.cb_to_g[v] == chroma_spec(v, CB_TO_G_MICRO as int)
        &&& forall|v: int|
            0 <= v < 256 ==> #[trigger] self.cb_to_b[v] == chroma_spec(v, CB_TO_B_MICRO as int)
    }

    /// Builds the tables.
    pub fn new() -> (luts: ColorLut)
        ensures
            luts.wf(),
    {
        let mut luts = ColorLut {
            y_to_gray: [0; 256],
            cr_to_r: [0; 256],
            cr_to_g: [0; 256],
            cb_to_g: [0; 256],
            cb_to_b: [0; 256],
        };
        let mut i: usize = 0;
        while i < 256
            invariant
                0 <= i <= 256,
                forall|v: int| 0 <= v < i ==> #[trigger] luts.y_to_gray[v] == y_to_gray_spec(v),
                forall|v: int|
                    0 <= v < i ==> #[trigger] luts.cr_to_r[v] == chroma_spec(
                        v,
                        CR_TO_R_MICRO as int,
                    ),
                forall|v: int|
                    0 <= v < i ==> #[trigger] luts.cr_to_g[v] == chroma_spec(
                        v,
                        CR_TO_G_MICRO as int,
                    ),
                forall|v: int|
                    0 <= v < i ==> #[trigger] luts.cb_to_g[v] == chroma_spec(
                        v,
                        CB_TO_G_MICRO as int,
                    ),
                forall|v: int|
                    0 <= v < i ==> #[trigger] luts.cb_to_b[v] == chroma_spec(
                        v,
                        CB_TO_B_MICRO as int,
                    ),
            decreases 256 - i,
        {
            let v: u8 = i as u8;
            luts.y_to_gray[i] = remap_luma(v);
            luts.cr_to_r[i] = remap_chroma(v, CR_TO_R_MICRO);
            luts.cr_to_g[i] = remap_chroma(v, CR_TO_G_MICRO);
            luts.cb_to_g[i] = remap_chroma(v, CB_TO_G_MICRO);
            luts.cb_to_b[i] = remap_chroma(v, CB_TO_B_MICRO);
            i += 1;
        }
        luts
    }
}

proof fn lemma_shift_is_floor_div(x: i32)
    ensures
        x >> 4u32 == x / 16,
{
    assert(x >> 4u32 == x / 16) by (bit_vector);
}

/// A 12.4 fixed-point sum brought back to a sample.
fn descale_i32(x: i32) -> (sample: u8)
    requires
        -0x10_0000 <= x <= 0x10_0000,
    ensures
        sample == descale(x as int),
{
    proof {
        lemma_shift_is_floor_div((x + 8) as i32);
    }
    let t: i32 = (x + 8) >> 4;
    if t < 0 {
        0
    } else if t > 255 {
        255
    } else {
        t as u8
    }
}

/// Converts one YCbCr triple, given as `(y, cb, cr)`, to `(r, g, b)`.
pub fn yuv_to_rgb(yuv: (u8, u8, u8), luts: &ColorLut) -> (rgb: (u8, u8, u8))
    requires
        luts.wf(),
    ensures
        rgb == yuv_to_rgb_spec(yuv.0, yuv.1, yuv.2),
{
    let (y, cb, cr) = yuv;
    let gray: i32 = luts.y_to_gray[y as usize] as i32;
    let r: i32 = gray + luts.cr_to_r[cr as usize] as i32;
    let g: i32 = gray + luts.cr_to_g[cr as usize] as i32 + luts.cb_to_g[cb as usize] as i32;
    let b: i32 = gray + luts.cb_to_b[cb as usize] as i32;
    (descale_i32(r), descale_i32(g), descale_i32(b))
}

} // verus!
