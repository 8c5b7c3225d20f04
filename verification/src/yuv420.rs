//! Planar YUV 4:2:0 to interleaved RGBA.

use crate::bt601::yuv_to_rgb;
use crate::bt601::yuv_to_rgb_spec;
use crate::bt601::ColorLut;
use crate::chroma::bilinear;
use crate::chroma::is_interior;
use crate::chroma::lemma_bilinear_uniform;
use crate::chroma::sample_chroma_for_luma;
use crate::chroma::upsampled;
use crate::grid::lemma_cell_in_plane;
use crate::grid::lemma_cell_index;
use crate::grid::lemma_index_cell;
use crate::grid::lemma_index_in_plane;
use crate::grid::lemma_next_row;
use vstd::prelude::*;

verus! {

/// Number of chroma rows of a picture of `y_len` luma samples in rows of
/// `w`: half the number of luma rows, rounded up.
pub open spec fn chroma_rows(y_len: int, w: int) -> int {
    (y_len / w + 1) / 2
}

/// The planes of a picture fit together: whole luma rows, chroma planes of
/// half the luma width and height, rounded up, and of the same size. An
/// empty luma plane makes an empty picture, whatever comes with it.
pub open spec fn frame_ok(y: Seq<u8>, cb: Seq<u8>, cr: Seq<u8>, w: int, cw: int) -> bool {
    y.len() == 0 || {
        &&& w > 0
        &&& y.len() % (w as nat) == 0
        &&& cw == (w + 1) / 2
        &&& cb.len() == cw * chroma_rows(y.len() as int, w)
        &&& cr.len() == cb.len()
    }
}

/// The colour of pixel `p`: its own luma with the chroma interpolated for
/// its place in the picture.
pub open spec fn pixel_rgb(y: Seq<u8>, cb: Seq<u8>, cr: Seq<u8>, w: int, cw: int, p: int) -> (
    u8,
    u8,
    u8,
) {
    let ch = chroma_rows(y.len() as int, w);
    yuv_to_rgb_spec(
        y[p],
        upsampled(cb, cw, ch, p % w, p / w),
        upsampled(cr, cw, ch, p % w, p / w),
    )
}

/// Byte `i` of the RGBA picture: red, green, blue, then an alpha of 255.
pub open spec fn rgba_byte(y: Seq<u8>, cb: Seq<u8>, cr: Seq<u8>, w: int, cw: int, i: int) -> u8 {
    let rgb = pixel_rgb(y, cb, cr, w, cw, i / 4);
    let k = i % 4;
    if k == 0 {
        rgb.0
    } else if k == 1 {
        rgb.1
    } else if k == 2 {
        rgb.2
    } else {
        255
    }
}

/// The RGBA picture: four bytes for every luma sample, row by row.
pub open spec fn rgba_frame(y: Seq<u8>, cb: Seq<u8>, cr: Seq<u8>, w: int, cw: int) -> Seq<u8> {
    Seq::new(4 * y.len(), |i: int| rgba_byte(y, cb, cr, w, cw, i))
}

/// Pixel `p` of `rgba` holds its final colour.
#[verifier::opaque]
spec fn pixel_done(
    rgba: Seq<u8>,
    y: Seq<u8>,
    cb: Seq<u8>,
    cr: Seq<u8>,
    w: int,
    cw: int,
    p: int,
) -> bool {
    let rgb = pixel_rgb(y, cb, cr, w, cw, p);
    &&& rgba[4 * p] == rgb.0
    &&& rgba[4 * p + 1] == rgb.1
    &&& rgba[4 * p + 2] == rgb.2
    &&& rgba[4 * p + 3] == 255
}

/// Converts one YCbCr triple and writes it, with an alpha of 255, to the
/// four bytes of `rgba` from `base` on.
pub fn convert_and_write_pixel(yuv: (u8, u8, u8), rgba: &mut Vec<u8>, base: usize, luts: &ColorLut)
    requires
        luts.wf(),
        base + 4 <= old(rgba).len(),
    ensures
        final(rgba).len() == old(rgba).len(),
        final(rgba)[base as int] == yuv_to_rgb_spec(yuv.0, yuv.1, yuv.2).0,
        final(rgba)[base + 1] == yuv_to_rgb_spec(yuv.0, yuv.1, yuv.2).1,
        final(rgba)[base + 2] == yuv_to_rgb_spec(yuv.0, yuv.1, yuv.2).2,
        final(rgba)[base + 3] == 255,
        forall|i: int|
            0 <= i < old(rgba).len() && !(base <= i < base + 4) ==> #[trigger] final(rgba)[i]
                == old(rgba)[i],
{
    let (r, g, b) = yuv_to_rgb(yuv, luts);
    rgba[base] = r;
    rgba[base + 1] = g;
    rgba[base + 2] = b;
    rgba[base + 3] = 255;
}

/// The sizes of a picture that is not empty: `h` luma rows of `w` samples
/// and `ch` chroma rows of `cw` samples.
spec fn dims_ok(
    y: Seq<u8>,
    cb: Seq<u8>,
    cr: Seq<u8>,
    w: int,
    h: int,
    cw: int,
    ch: int,
) -> bool {
    &&& w > 0
    &&& h > 0
    &&& h * w == y.len()
    &&& cw == (w + 1) / 2
    &&& ch == (h + 1) / 2
    &&& ch == chroma_rows(y.len() as int, w)
    &&& ch * cw == cb.len()
    &&& cr.len() == cb.len()
}

/// Converts pixel `p` with the chroma interpolated for it, leaving every
/// other pixel as it is.
fn convert_pixel(
    luts: &ColorLut,
    y: &[u8],
    chroma_b: &[u8],
    chroma_r: &[u8],
    y_width: usize,
    br_width: usize,
    p: usize,
    cb_val: u8,
    cr_val: u8,
    rgba: &mut Vec<u8>,
)
    requires
        luts.wf(),
        p < y.len(),
        old(rgba).len() == 4 * y.len(),
        cb_val == upsampled(
            chroma_b@,
            br_width as int,
            chroma_rows(y.len() as int, y_width as int),
            (p as int) % (y_width as int),
            (p as int) / (y_width as int),
        ),
        cr_val == upsampled(
            chroma_r@,
            br_width as int,
            chroma_rows(y.len() as int, y_width as int),
            (p as int) % (y_width as int),
            (p as int) / (y_width as int),
        ),
    ensures
        final(rgba).len() == old(rgba).len(),
        pixel_done(final(rgba)@, y@, chroma_b@, chroma_r@, y_width as int, br_width as int, p as int),
        forall|q: int|
            0 <= q < y.len() && pixel_done(
                old(rgba)@,
                y@,
                chroma_b@,
                chroma_r@,
                y_width as int,
                br_width as int,
                q,
            ) ==> #[trigger] pixel_done(
                final(rgba)@,
                y@,
                chroma_b@,
                chroma_r@,
                y_width as int,
                br_width as int,
                q,
            ),
{
    reveal(pixel_done);
    convert_and_write_pixel((y[p], cb_val, cr_val), rgba, 4 * p, luts);
}

/// The chroma of the four luma samples between four chroma samples: first
/// across, giving a left and a right sum for the top and for the bottom
/// pair, then down. Returned for the top left, top right, bottom left and
/// bottom right luma sample.
pub fn blend_quad(tl: u8, tr: u8, bl: u8, br: u8) -> (c: (u8, u8, u8, u8))
    ensures
        c.0 == bilinear(tl, tr, bl, br, true, true),
        c.1 == bilinear(tl, tr, bl, br, false, true),
        c.2 == bilinear(tl, tr, bl, br, true, false),
        c.3 == bilinear(tl, tr, bl, br, false, false),
{
    let top_left: u16 = 3 * (tl as u16) + tr as u16;
    let top_right: u16 = tl as u16 + 3 * (tr as u16);
    let bottom_left: u16 = 3 * (bl as u16) + br as u16;
    let bottom_right: u16 = bl as u16 + 3 * (br as u16);
    (
        ((3 * top_left + bottom_left + 8) / 16) as u8,
        ((3 * top_right + bottom_right + 8) / 16) as u8,
        ((top_left + 3 * bottom_left + 8) / 16) as u8,
        ((top_right + 3 * bottom_right + 8) / 16) as u8,
    )
}

/// Converts the luma sample in column `x` of row `row` with the chroma
/// interpolated for it, leaving every other pixel as it is.
#[verifier::rlimit(30)]
fn convert_at(
    luts: &ColorLut,
    y: &[u8],
    chroma_b: &[u8],
    chroma_r: &[u8],
    y_width: usize,
    y_height: usize,
    br_width: usize,
    br_height: usize,
    x: usize,
    row: usize,
    cb_val: u8,
    cr_val: u8,
    rgba: &mut Vec<u8>,
)
    requires
        luts.wf(),
        dims_ok(
            y@,
            chroma_b@,
            chroma_r@,
            y_width as int,
            y_height as int,
            br_width as int,
            br_height as int,
        ),
        old(rgba).len() == 4 * y.len(),
        x < y_width,
        row < y_height,
        cb_val == upsampled(chroma_b@, br_width as int, br_height as int, x as int, row as int),
        cr_val == upsampled(chroma_r@, br_width as int, br_height as int, x as int, row as int),
    ensures
        final(rgba).len() == old(rgba).len(),
        forall|q: int|
            0 <= q < y.len() && (pixel_done(
                old(rgba)@,
                y@,
                chroma_b@,
                chroma_r@,
                y_width as int,
                br_width as int,
                q,
            ) || (q % (y_width as int) == x && q / (y_width as int) == row))
                ==> #[trigger] pixel_done(
                final(rgba)@,
                y@,
                chroma_b@,
                chroma_r@,
                y_width as int,
                br_width as int,
                q,
            ),
{
    let ghost w = y_width as int;
    let ghost start = rgba@;
    proof {
        lemma_cell_in_plane(w, y_height as int, row as int, x as int);
        lemma_cell_index(w, row as int, x as int);
    }
    let p: usize = row * y_width + x;
    convert_pixel(luts, y, chroma_b, chroma_r, y_width, br_width, p, cb_val, cr_val, rgba);
    proof {
        assert forall|q: int|
            0 <= q < y.len() && (pixel_done(
                start,
                y@,
                chroma_b@,
                chroma_r@,
                w,
                br_width as int,
                q,
            ) || (q % w == x && q / w == row)) implies #[trigger] pixel_done(
            rgba@,
            y@,
            chroma_b@,
            chroma_r@,
            w,
            br_width as int,
            q,
        ) by {
            lemma_index_cell(w, q);
        }
    }
}

/// Converts the luma sample in column `x` of row `row` with chroma sampled
/// by the clamped fallback.
fn convert_border_pixel(
    luts: &ColorLut,
    y: &[u8],
    chroma_b: &[u8],
    chroma_r: &[u8],
    y_width: usize,
    y_height: usize,
    br_width: usize,
    br_height: usize,
    x: usize,
    row: usize,
    rgba: &mut Vec<u8>,
)
    requires
        luts.wf(),
        dims_ok(
            y@,
            chroma_b@,
            chroma_r@,
            y_width as int,
            y_height as int,
            br_width as int,
            br_height as int,
        ),
        old(rgba).len() == 4 * y.len(),
        x < y_width,
        row < y_height,
    ensures
        final(rgba).len() == old(rgba).len(),
        forall|q: int|
            0 <= q < y.len() && (pixel_done(
                old(rgba)@,
                y@,
                chroma_b@,
                chroma_r@,
                y_width as int,
                br_width as int,
                q,
            ) || (q % (y_width as int) == x && q / (y_width as int) == row))
                ==> #[trigger] pixel_done(
                final(rgba)@,
                y@,
                chroma_b@,
                chroma_r@,
                y_width as int,
                br_width as int,
                q,
            ),
{
    proof {
        assert(br_width * br_height == chroma_b.len()) by (nonlinear_arith)
            requires
                br_height * br_width == chroma_b.len(),
        ;
    }
    let cb_val = sample_chroma_for_luma(chroma_b, br_width, br_height, x, row);
    let cr_val = sample_chroma_for_luma(chroma_r, br_width, br_height, x, row);
    convert_at(
        luts,
        y,
        chroma_b,
        chroma_r,
        y_width,
        y_height,
        br_width,
        br_height,
        x,
        row,
        cb_val,
        cr_val,
        rgba,
    );
}

/// The chroma of the four luma samples between the chroma samples in
/// columns `cx`, `cx + 1` of rows `cy`, `cy + 1` comes from those four
/// samples alone.
proof fn lemma_quad_chroma(plane: Seq<u8>, cw: int, ch: int, cx: int, cy: int)
    requires
        0 <= cx,
        cx + 1 < cw,
        0 <= cy,
        cy + 1 < ch,
    ensures
        ({
            let tl = plane[cy * cw + cx];
            let tr = plane[cy * cw + cx + 1];
            let bl = plane[cy * cw + cx + cw];
            let br = plane[cy * cw + cx + cw + 1];
            &&& upsampled(plane, cw, ch, 2 * cx + 1, 2 * cy + 1) == bilinear(tl, tr, bl, br, true, true)
            &&& upsampled(plane, cw, ch, 2 * cx + 2, 2 * cy + 1) == bilinear(
                tl,
                tr,
                bl,
                br,
                false,
                true,
            )
            &&& upsampled(plane, cw, ch, 2 * cx + 1, 2 * cy + 2) == bilinear(
                tl,
                tr,
                bl,
                br,
                true,
                false,
            )
            &&& upsampled(plane, cw, ch, 2 * cx + 2, 2 * cy + 2) == bilinear(
                tl,
                tr,
                bl,
                br,
                false,
                false,
            )
        }),
{
    lemma_next_row(cw, cy);
}

/// Where the four chroma samples of a neighbourhood are equal, the four
/// luma samples between them get exactly that chroma.
pub proof fn lemma_uniform_neighbourhood(
    plane: Seq<u8>,
    cw: int,
    ch: int,
    cx: int,
    cy: int,
    v: u8,
)
    requires
        0 <= cx,
        cx + 1 < cw,
        0 <= cy,
        cy + 1 < ch,
        plane[cy * cw + cx] == v,
        plane[cy * cw + cx + 1] == v,
        plane[(cy + 1) * cw + cx] == v,
        plane[(cy + 1) * cw + cx + 1] == v,
    ensures
        upsampled(plane, cw, ch, 2 * cx + 1, 2 * cy + 1) == v,
        upsampled(plane, cw, ch, 2 * cx + 2, 2 * cy + 1) == v,
        upsampled(plane, cw, ch, 2 * cx + 1, 2 * cy + 2) == v,
        upsampled(plane, cw, ch, 2 * cx + 2, 2 * cy + 2) == v,
{
    lemma_next_row(cw, cy);
    lemma_quad_chroma(plane, cw, ch, cx, cy);
    lemma_bilinear_uniform(v, true, true);
    lemma_bilinear_uniform(v, false, true);
    lemma_bilinear_uniform(v, true, false);
    lemma_bilinear_uniform(v, false, false);
}

/// Chroma homogeneity: where the four chroma samples around a quad of luma
/// samples are equal, in each chroma plane, and the four luma samples are
/// equal too, all four pixels get one colour, that of the one
/// `(Y, Cb, Cr)` triple converted without any interpolation.
#[verifier::rlimit(30)]
pub proof fn lemma_homogeneous_quad(
    y: Seq<u8>,
    cb: Seq<u8>,
    cr: Seq<u8>,
    w: int,
    cw: int,
    cx: int,
    cy: int,
    luma: u8,
    blue: u8,
    red: u8,
)
    requires
        0 <= cx,
        cx + 1 < cw,
        0 <= cy,
        cy + 1 < chroma_rows(y.len() as int, w),
        2 * cx + 2 < w,
        cb[cy * cw + cx] == blue,
        cb[cy * cw + cx + 1] == blue,
        cb[(cy + 1) * cw + cx] == blue,
        cb[(cy + 1) * cw + cx + 1] == blue,
        cr[cy * cw + cx] == red,
        cr[cy * cw + cx + 1] == red,
        cr[(cy + 1) * cw + cx] == red,
        cr[(cy + 1) * cw + cx + 1] == red,
        y[(2 * cy + 1) * w + 2 * cx + 1] == luma,
        y[(2 * cy + 1) * w + 2 * cx + 2] == luma,
        y[(2 * cy + 2) * w + 2 * cx + 1] == luma,
        y[(2 * cy + 2) * w + 2 * cx + 2] == luma,
    ensures
        pixel_rgb(y, cb, cr, w, cw, (2 * cy + 1) * w + 2 * cx + 1) == yuv_to_rgb_spec(
            luma,
            blue,
            red,
        ),
        pixel_rgb(y, cb, cr, w, cw, (2 * cy + 1) * w + 2 * cx + 2) == yuv_to_rgb_spec(
            luma,
            blue,
            red,
        ),
        pixel_rgb(y, cb, cr, w, cw, (2 * cy + 2) * w + 2 * cx + 1) == yuv_to_rgb_spec(
            luma,
            blue,
            red,
        ),
        pixel_rgb(y, cb, cr, w, cw, (2 * cy + 2) * w + 2 * cx + 2) == yuv_to_rgb_spec(
            luma,
            blue,
            red,
        ),
{
    let ch = chroma_rows(y.len() as int, w);
    lemma_uniform_neighbourhood(cb, cw, ch, cx, cy, blue);
    lemma_uniform_neighbourhood(cr, cw, ch, cx, cy, red);
    lemma_cell_index(w, 2 * cy + 1, 2 * cx + 1);
    lemma_cell_index(w, 2 * cy + 1, 2 * cx + 2);
    lemma_cell_index(w, 2 * cy + 2, 2 * cx + 1);
    lemma_cell_index(w, 2 * cy + 2, 2 * cx + 2);
}

/// Converts the four luma samples that lie between the chroma samples in
/// columns `cx`, `cx + 1` of rows `cy`, `cy + 1`.
#[verifier::rlimit(30)]
fn convert_quad(
    luts: &ColorLut,
    y: &[u8],
    chroma_b: &[u8],
    chroma_r: &[u8],
    y_width: usize,
    y_height: usize,
    br_width: usize,
    br_height: usize,
    cx: usize,
    cy: usize,
    rgba: &mut Vec<u8>,
)
    requires
        luts.wf(),
        dims_ok(
            y@,
            chroma_b@,
            chroma_r@,
            y_width as int,
            y_height as int,
            br_width as int,
            br_height as int,
        ),
        old(rgba).len() == 4 * y.len(),
        cx + 1 < br_width,
        cy + 1 < br_height,
    ensures
        final(rgba).len() == old(rgba).len(),
        forall|q: int|
            0 <= q < y.len() && (pixel_done(
                old(rgba)@,
                y@,
                chroma_b@,
                chroma_r@,
                y_width as int,
                br_width as int,
                q,
            ) || ({
                &&& 2 * cx + 1 <= q % (y_width as int) <= 2 * cx + 2
                &&& 2 * cy + 1 <= q / (y_width as int) <= 2 * cy + 2
            })) ==> #[trigger] pixel_done(
                final(rgba)@,
                y@,
                chroma_b@,
                chroma_r@,
                y_width as int,
                br_width as int,
                q,
            ),
{
    proof {
        assert(chroma_b@.len() == chroma_b.len() && chroma_r@.len() == chroma_r.len());
        lemma_cell_in_plane(br_width as int, br_height as int, cy as int, cx as int);
        lemma_cell_in_plane(br_width as int, br_height as int, cy as int + 1, cx as int + 1);
        lemma_next_row(br_width as int, cy as int);
        lemma_quad_chroma(chroma_b@, br_width as int, br_height as int, cx as int, cy as int);
        lemma_quad_chroma(chroma_r@, br_width as int, br_height as int, cx as int, cy as int);
    }
    let top: usize = cy * br_width + cx;
    let bottom: usize = top + br_width;
    let cbs = blend_quad(chroma_b[top], chroma_b[top + 1], chroma_b[bottom], chroma_b[bottom + 1]);
    let crs = blend_quad(chroma_r[top], chroma_r[top + 1], chroma_r[bottom], chroma_r[bottom + 1]);
    let x: usize = 2 * cx + 1;
    let row: usize = 2 * cy + 1;
    convert_at(
        luts, y, chroma_b, chroma_r, y_width, y_height, br_width, br_height, x, row, cbs.0, crs.0,
        rgba,
    );
    convert_at(
        luts, y, chroma_b, chroma_r, y_width, y_height, br_width, br_height, x + 1, row, cbs.1,
        crs.1, rgba,
    );
    convert_at(
        luts, y, chroma_b, chroma_r, y_width, y_height, br_width, br_height, x, row + 1, cbs.2,
        crs.2, rgba,
    );
    convert_at(
        luts, y, chroma_b, chroma_r, y_width, y_height, br_width, br_height, x + 1, row + 1,
        cbs.3, crs.3, rgba,
    );
}

/// Converts every luma sample of row `row` by the clamped fallback.
fn convert_border_row(
    luts: &ColorLut,
    y: &[u8],
    chroma_b: &[u8],
    chroma_r: &[u8],
    y_width: usize,
    y_height: usize,
    br_width: usize,
    br_height: usize,
    row: usize,
    rgba: &mut Vec<u8>,
)
    requires
        luts.wf(),
        dims_ok(
            y@,
            chroma_b@,
            chroma_r@,
            y_width as int,
            y_height as int,
            br_width as int,
            br_height as int,
        ),
        old(rgba).len() == 4 * y.len(),
        row < y_height,
    ensures
        final(rgba).len() == old(rgba).len(),
        forall|q: int|
            0 <= q < y.len() && (pixel_done(
                    old(rgba)@,
                    y@,
                    chroma_b@,
                    chroma_r@,
                    y_width as int,
                    br_width as int,
                    q,
                ) || q / (y_width as int) == row) ==> #[trigger] pixel_done(
                    final(rgba)@,
                    y@,
                    chroma_b@,
                    chroma_r@,
                    y_width as int,
                    br_width as int,
                    q,
                ),
{
    let ghost start = rgba@;
    let mut x: usize = 0;
    while x < y_width
        invariant
            luts.wf(),
            dims_ok(
                y@,
                chroma_b@,
                chroma_r@,
                y_width as int,
                y_height as int,
                br_width as int,
                br_height as int,
            ),
            rgba.len() == 4 * y.len(),
            row < y_height,
            0 <= x <= y_width,
            forall|q: int|
                0 <= q < y.len() && (pixel_done(
                        start,
                        y@,
                        chroma_b@,
                        chroma_r@,
                        y_width as int,
                        br_width as int,
                        q,
                    ) || (q / (y_width as int) == row && q % (y_width as int) < x))
                    ==> #[trigger] pixel_done(
                        rgba@,
                        y@,
                        chroma_b@,
                        chroma_r@,
                        y_width as int,
                        br_width as int,
                        q,
                    ),
        decreases y_width - x,
    {
        convert_border_pixel(luts, y, chroma_b, chroma_r, y_width, y_height, br_width, br_height, x, row, rgba);
        x += 1;
    }
    proof {
        assert forall|q: int|
            0 <= q < y.len() && (pixel_done(
                    start,
                    y@,
                    chroma_b@,
                    chroma_r@,
                    y_width as int,
                    br_width as int,
                    q,
                ) || q / (y_width as int) == row) implies #[trigger] pixel_done(
                    rgba@,
                    y@,
                    chroma_b@,
                    chroma_r@,
                    y_width as int,
                    br_width as int,
                    q,
                ) by {
            lemma_index_cell(y_width as int, q);
        }
    }
}

/// Converts every luma sample of column `x` by the clamped fallback.
fn convert_border_column(
    luts: &ColorLut,
    y: &[u8],
    chroma_b: &[u8],
    chroma_r: &[u8],
    y_width: usize,
    y_height: usize,
    br_width: usize,
    br_height: usize,
    x: usize,
    rgba: &mut Vec<u8>,
)
    requires
        luts.wf(),
        dims_ok(
            y@,
            chroma_b@,
            chroma_r@,
            y_width as int,
            y_height as int,
            br_width as int,
            br_height as int,
        ),
        old(rgba).len() == 4 * y.len(),
        x < y_width,
    ensures
        final(rgba).len() == old(rgba).len(),
        forall|q: int|
            0 <= q < y.len() && (pixel_done(
                    old(rgba)@,
                    y@,
                    chroma_b@,
                    chroma_r@,
                    y_width as int,
                    br_width as int,
                    q,
                ) || q % (y_width as int) == x) ==> #[trigger] pixel_done(
                    final(rgba)@,
                    y@,
                    chroma_b@,
                    chroma_r@,
                    y_width as int,
                    br_width as int,
                    q,
                ),
{
    let ghost start = rgba@;
    let mut row: usize = 0;
    while row < y_height
        invariant
            luts.wf(),
            dims_ok(
                y@,
                chroma_b@,
                chroma_r@,
                y_width as int,
                y_height as int,
                br_width as int,
                br_height as int,
            ),
            rgba.len() == 4 * y.len(),
            x < y_width,
            0 <= row <= y_height,
            forall|q: int|
                0 <= q < y.len() && (pixel_done(
                        start,
                        y@,
                        chroma_b@,
                        chroma_r@,
                        y_width as int,
                        br_width as int,
                        q,
                    ) || (q % (y_width as int) == x && q / (y_width as int) < row))
                    ==> #[trigger] pixel_done(
                        rgba@,
                        y@,
                        chroma_b@,
                        chroma_r@,
                        y_width as int,
                        br_width as int,
                        q,
                    ),
        decreases y_height - row,
    {
        convert_border_pixel(luts, y, chroma_b, chroma_r, y_width, y_height, br_width, br_height, x, row, rgba);
        row += 1;
    }
    proof {
        assert forall|q: int|
            0 <= q < y.len() && (pixel_done(
                    start,
                    y@,
                    chroma_b@,
                    chroma_r@,
                    y_width as int,
                    br_width as int,
                    q,
                ) || q % (y_width as int) == x) implies #[trigger] pixel_done(
                    rgba@,
                    y@,
                    chroma_b@,
                    chroma_r@,
                    y_width as int,
                    br_width as int,
                    q,
                ) by {
            lemma_index_in_plane(y_width as int, y_height as int, q);
        }
    }
}

/// Luma samples converted once the quads of chroma rows `0 .. cy` are done,
/// and the first `cx` quads of chroma row `cy`.
spec fn quads_cover(w: int, cw: int, cy: int, cx: int, q: int) -> bool {
    let x = q % w;
    let row = q / w;
    1 <= x <= 2 * cw - 2 && (1 <= row <= 2 * cy || (2 * cy + 1 <= row <= 2 * cy + 2 && x <= 2 * cx))
}

/// The main loop: converts every luma sample that has chroma samples on all
/// four sides, one 2x2 neighbourhood of chroma samples after another.
fn convert_interior(
    luts: &ColorLut,
    y: &[u8],
    chroma_b: &[u8],
    chroma_r: &[u8],
    y_width: usize,
    y_height: usize,
    br_width: usize,
    br_height: usize,
    rgba: &mut Vec<u8>,
)
    requires
        luts.wf(),
        dims_ok(
            y@,
            chroma_b@,
            chroma_r@,
            y_width as int,
            y_height as int,
            br_width as int,
            br_height as int,
        ),
        old(rgba).len() == 4 * y.len(),
    ensures
        final(rgba).len() == old(rgba).len(),
        forall|q: int|
            0 <= q < y.len() && is_interior(
                br_width as int,
                br_height as int,
                q % (y_width as int),
                q / (y_width as int),
            ) ==> #[trigger] pixel_done(
                    final(rgba)@,
                    y@,
                    chroma_b@,
                    chroma_r@,
                    y_width as int,
                    br_width as int,
                    q,
                ),
{
    let mut cy: usize = 0;
    while cy + 1 < br_height
        invariant
            luts.wf(),
            dims_ok(
                y@,
                chroma_b@,
                chroma_r@,
                y_width as int,
                y_height as int,
                br_width as int,
                br_height as int,
            ),
            rgba.len() == 4 * y.len(),
            0 <= cy < br_height,
            forall|q: int|
                0 <= q < y.len() && quads_cover(
                    y_width as int,
                    br_width as int,
                    cy as int,
                    0,
                    q,
                ) ==> #[trigger] pixel_done(
                        rgba@,
                        y@,
                        chroma_b@,
                        chroma_r@,
                        y_width as int,
                        br_width as int,
                        q,
                    ),
        decreases br_height - cy,
    {
        let mut cx: usize = 0;
        while cx + 1 < br_width
            invariant
                luts.wf(),
                dims_ok(
                    y@,
                    chroma_b@,
                    chroma_r@,
                    y_width as int,
                    y_height as int,
                    br_width as int,
                    br_height as int,
                ),
                rgba.len() == 4 * y.len(),
            cy + 1 < br_height,
                0 <= cx < br_width,
                forall|q: int|
                    0 <= q < y.len() && quads_cover(
                        y_width as int,
                        br_width as int,
                        cy as int,
                        cx as int,
                        q,
                    ) ==> #[trigger] pixel_done(
                            rgba@,
                            y@,
                            chroma_b@,
                            chroma_r@,
                            y_width as int,
                            br_width as int,
                            q,
                        ),
            decreases br_width - cx,
        {
            convert_quad(luts, y, chroma_b, chroma_r, y_width, y_height, br_width, br_height, cx, cy, rgba);
            cx += 1;
        }
        cy += 1;
    }
}

/// Converts planar YUV 4:2:0 data into interleaved RGBA 8888 data, with the
/// lookup tables handed in.
///
/// The picture has as many pixels as `y` has samples, in rows of `y_width`;
/// `chroma_b` and `chroma_r` hold rows of `br_width` samples. Every pixel
/// takes its luma sample as it is and chroma interpolated between the four
/// chroma samples around it; alpha is 255 throughout. An empty `y` gives an
/// empty picture.
#[verifier::rlimit(30)]
pub fn yuv420_to_rgba_with(
    luts: &ColorLut,
    y: &[u8],
    chroma_b: &[u8],
    chroma_r: &[u8],
    y_width: usize,
    br_width: usize,
) -> (rgba: Vec<u8>)
    requires
        luts.wf(),
        frame_ok(y@, chroma_b@, chroma_r@, y_width as int, br_width as int),
        4 * y.len() <= usize::MAX,
    ensures
        rgba@ == rgba_frame(y@, chroma_b@, chroma_r@, y_width as int, br_width as int),
        rgba.len() == 4 * y.len(),
{
    // Nothing to convert, and no width to divide by.
    if y.len() == 0 {
        let rgba: Vec<u8> = Vec::new();
        assert(rgba@ =~= rgba_frame(y@, chroma_b@, chroma_r@, y_width as int, br_width as int));
        return rgba;
    }
    let y_height: usize = y.len() / y_width;
    let br_height: usize = chroma_b.len() / br_width;
    proof {
        let w = y_width as int;
        let h = y_height as int;
        let cw = br_width as int;
        let ch = chroma_rows(y.len() as int, w);
        assert(chroma_b@.len() == chroma_b.len() && y@.len() == y.len());
        lemma_index_cell(w, y.len() as int);
        assert(h * w == y.len());
        assert(h > 0) by (nonlinear_arith)
            requires
                h * w == y.len(),
                y.len() > 0,
                h >= 0,
        ;
        assert(ch == (h + 1) / 2);
        assert(cw > 0);
        assert(chroma_b.len() == cw * ch);
        vstd::arithmetic::div_mod::lemma_div_multiples_vanish(ch, cw);
        assert(br_height == ch);
        vstd::arithmetic::mul::lemma_mul_is_commutative(ch, cw);
        assert(dims_ok(y@, chroma_b@, chroma_r@, w, h, cw, ch));
    }
    let mut rgba: Vec<u8> = vec![0u8; y.len() * 4];

    convert_interior(luts, y, chroma_b, chroma_r, y_width, y_height, br_width, br_height, &mut rgba);
    // What the main loop leaves out: the top row and the left column, and
    // the right column and the bottom row where no chroma lies beyond them.
    convert_border_row(luts, y, chroma_b, chroma_r, y_width, y_height, br_width, br_height, 0, &mut rgba);
    convert_border_column(luts, y, chroma_b, chroma_r, y_width, y_height, br_width, br_height, 0, &mut rgba);
    if y_width % 2 == 0 {
        convert_border_column(luts, y, chroma_b, chroma_r, y_width, y_height, br_width, br_height, y_width - 1, &mut rgba);
    }
    if y_height % 2 == 0 {
        convert_border_row(luts, y, chroma_b, chroma_r, y_width, y_height, br_width, br_height, y_height - 1, &mut rgba);
    }
    proof {
        let w = y_width as int;
        let cw = br_width as int;
        assert forall|q: int| 0 <= q < y.len() implies pixel_done(
            rgba@,
            y@,
            chroma_b@,
            chroma_r@,
            y_width as int,
            br_width as int,
            q,
        ) by {
            lemma_index_in_plane(w, y_height as int, q);
            lemma_index_cell(w, q);
        }
        assert forall|i: int| 0 <= i < 4 * y.len() implies rgba[i] == rgba_byte(
            y@,
            chroma_b@,
            chroma_r@,
            w,
            cw,
            i,
        ) by {
            reveal(pixel_done);
            assert(pixel_done(
                rgba@,
                y@,
                chroma_b@,
                chroma_r@,
                y_width as int,
                br_width as int,
                i / 4,
            ));
        }
        assert(rgba@ =~= rgba_frame(y@, chroma_b@, chroma_r@, w, cw));
    }
    rgba
}

/// Converts planar YUV 4:2:0 data into interleaved RGBA 8888 data.
///
/// Builds the lookup tables for this one picture; to convert many, build
/// them once with [`ColorLut::new`] and call [`yuv420_to_rgba_with`].
pub fn yuv420_to_rgba(
    y: &[u8],
    chroma_b: &[u8],
    chroma_r: &[u8],
    y_width: usize,
    br_width: usize,
) -> (rgba: Vec<u8>)
    requires
        frame_ok(y@, chroma_b@, chroma_r@, y_width as int, br_width as int),
        4 * y.len() <= usize::MAX,
    ensures
        rgba@ == rgba_frame(y@, chroma_b@, chroma_r@, y_width as int, br_width as int),
        rgba.len() == 4 * y.len(),
{
    let luts = ColorLut::new();
    yuv420_to_rgba_with(&luts, y, chroma_b, chroma_r, y_width, br_width)
}

} // verus!
