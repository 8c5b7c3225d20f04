//! Deblocking of a whole plane along its 8x8 block grid.
//!
//! Block edges sit at every multiple of 8. The filter at an edge reads and
//! rewrites the two samples on either side of it, so a sample belongs to at
//! most one edge and each pass is a function of the plane it starts from.

use crate::edge::edge_filter_at;
use crate::edge::process;
use crate::edge_simd::process_simd;
use crate::grid::lemma_cell_in_plane;
use crate::grid::lemma_cell_index;
use crate::grid::lemma_index_cell;
use crate::grid::lemma_index_in_plane;
use crate::grid::lemma_next_row;
use vstd::prelude::*;

verus! {

/// The block edge whose filter covers coordinate `t` of an axis of length
/// `extent`, named by the coordinate of its `C` sample.
///
/// Edges lie at 8, 16, 24, ... up to `extent - 2`; the edge at `e` covers
/// `e - 2 ..= e + 1`.
#[verifier::opaque]
pub open spec fn edge_covering(t: int, extent: int) -> Option<int> {
    let k = t % 8;
    let e = if k >= 6 {
        t - k + 8
    } else {
        t - k
    };
    if (k >= 6 || k <= 1) && 8 <= e && e + 2 <= extent {
        Some(e)
    } else {
        None
    }
}

/// Number of block edges along an axis of length `extent`.
pub open spec fn edge_count(extent: int) -> int {
    if extent < 10 {
        0
    } else {
        (extent - 2) / 8
    }
}

/// Tap `k` of the filter across the horizontal edge at row `e`, in column `c`.
pub open spec fn horiz_tap(s: Seq<u8>, w: int, e: int, c: int, strength: u8, k: int) -> u8 {
    edge_filter_at(
        s[(e - 2) * w + c],
        s[(e - 1) * w + c],
        s[e * w + c],
        s[(e + 1) * w + c],
        strength,
        k,
    )
}

/// Sample `i` of the plane after the horizontal pass.
pub open spec fn horiz_sample(s: Seq<u8>, w: int, h: int, strength: u8, i: int) -> u8 {
    let r = i / w;
    let c = i % w;
    match edge_covering(r, h) {
        Some(e) => horiz_tap(s, w, e, c, strength, r - (e - 2)),
        None => s[i],
    }
}

/// The plane after the horizontal pass: every column filtered across every
/// horizontal block edge.
pub open spec fn horiz_pass(s: Seq<u8>, w: int, h: int, strength: u8) -> Seq<u8> {
    Seq::new(s.len(), |i: int| horiz_sample(s, w, h, strength, i))
}

/// Tap `k` of the filter across the vertical edge at column `e`, in row `r`.
pub open spec fn vert_tap(s: Seq<u8>, w: int, r: int, e: int, strength: u8, k: int) -> u8 {
    edge_filter_at(
        s[r * w + e - 2],
        s[r * w + e - 1],
        s[r * w + e],
        s[r * w + e + 1],
        strength,
        k,
    )
}

/// Sample `i` of the plane after the vertical pass.
pub open spec fn vert_sample(s: Seq<u8>, w: int, strength: u8, i: int) -> u8 {
    let r = i / w;
    let c = i % w;
    match edge_covering(c, w) {
        Some(e) => vert_tap(s, w, r, e, strength, c - (e - 2)),
        None => s[i],
    }
}

/// The plane after the vertical pass: every row filtered across every
/// vertical block edge.
pub open spec fn vert_pass(s: Seq<u8>, w: int, strength: u8) -> Seq<u8> {
    Seq::new(s.len(), |i: int| vert_sample(s, w, strength, i))
}

/// The deblocked plane: the horizontal pass, then the vertical pass on its
/// result.
pub open spec fn deblocked(s: Seq<u8>, w: int, strength: u8) -> Seq<u8> {
    vert_pass(horiz_pass(s, w, (s.len() as int) / w, strength), w, strength)
}

/// The plane after the passes that are switched on: the horizontal pass
/// first, the vertical pass on what it leaves.
pub open spec fn deblocked_with(
    s: Seq<u8>,
    w: int,
    strength: u8,
    horizontal: bool,
    vertical: bool,
) -> Seq<u8> {
    let after_horizontal = if horizontal {
        horiz_pass(s, w, (s.len() as int) / w, strength)
    } else {
        s
    };
    if vertical {
        vert_pass(after_horizontal, w, strength)
    } else {
        after_horizontal
    }
}

/// A plane of fewer than 10 rows has no horizontal block edge with two rows
/// on either side: the horizontal pass leaves it unchanged, and deblocking
/// it is the vertical pass alone.
pub proof fn lemma_short_plane_skips_horizontal(s: Seq<u8>, w: int, h: int, strength: u8)
    requires
        h < 10,
    ensures
        horiz_pass(s, w, h, strength) == s,
        h == (s.len() as int) / w ==> deblocked(s, w, strength) == vert_pass(s, w, strength),
{
    reveal(edge_covering);
    assert(horiz_pass(s, w, h, strength) =~= s);
}

/// A plane narrower than 10 samples has no vertical block edge with two
/// columns on either side: the vertical pass leaves it unchanged, and
/// deblocking it is the horizontal pass alone.
pub proof fn lemma_narrow_plane_skips_vertical(s: Seq<u8>, w: int, strength: u8)
    requires
        w < 10,
    ensures
        vert_pass(s, w, strength) == s,
        deblocked(s, w, strength) == horiz_pass(s, w, (s.len() as int) / w, strength),
{
    reveal(edge_covering);
    assert(vert_pass(s, w, strength) =~= s);
    let t = horiz_pass(s, w, (s.len() as int) / w, strength);
    assert(vert_pass(t, w, strength) =~= t);
}

/// Tap `k` of the filter down column `c` of four rows, one width apart,
/// the first of which starts at index `top`.
spec fn strip_tap(s: Seq<u8>, w: int, top: int, c: int, strength: u8, k: int) -> u8 {
    edge_filter_at(
        s[top + c],
        s[top + w + c],
        s[top + 2 * w + c],
        s[top + 3 * w + c],
        strength,
        k,
    )
}

/// Sample `i` once columns `x .. x + n` of the four rows from `top` on have
/// been filtered as `A`, `B`, `C` and `D` of one edge, and nothing else.
spec fn strip_patch(s: Seq<u8>, w: int, top: int, x: int, n: int, strength: u8, i: int) -> u8 {
    let o = i - top;
    if x <= o < x + n {
        strip_tap(s, w, top, o, strength, 0)
    } else if x <= o - w < x + n {
        strip_tap(s, w, top, o - w, strength, 1)
    } else if x <= o - 2 * w < x + n {
        strip_tap(s, w, top, o - 2 * w, strength, 2)
    } else if x <= o - 3 * w < x + n {
        strip_tap(s, w, top, o - 3 * w, strength, 3)
    } else {
        s[i]
    }
}

/// Filters column `x` of the four rows from `top` on as one edge.
#[verifier::rlimit(30)]
fn filter_edge_column(result: &mut [u8], width: usize, top: usize, x: usize, strength: u8)
    requires
        x < width,
        top + 4 * width <= old(result).len(),
    ensures
        final(result).len() == old(result).len(),
        forall|i: int|
            0 <= i < old(result).len() ==> #[trigger] final(result)[i] == strip_patch(
                old(result)@,
                width as int,
                top as int,
                x as int,
                1,
                strength,
                i,
            ),
{
    let ia: usize = top + x;
    let ib: usize = ia + width;
    let ic: usize = ib + width;
    let id: usize = ic + width;
    let mut a: u8 = result[ia];
    let mut b: u8 = result[ib];
    let mut c: u8 = result[ic];
    let mut d: u8 = result[id];
    process(&mut a, &mut b, &mut c, &mut d, strength);
    result[ia] = a;
    result[ib] = b;
    result[ic] = c;
    result[id] = d;
}

/// Eight samples of the plane, starting at `start`.
fn load8(plane: &[u8], start: usize) -> (out: [u8; 8])
    requires
        start + 8 <= plane.len(),
    ensures
        forall|j: int| 0 <= j < 8 ==> #[trigger] out[j] == plane[start + j],
{
    [
        plane[start],
        plane[start + 1],
        plane[start + 2],
        plane[start + 3],
        plane[start + 4],
        plane[start + 5],
        plane[start + 6],
        plane[start + 7],
    ]
}

/// Writes eight samples to the plane, starting at `start`.
fn store8(plane: &mut [u8], start: usize, values: &[u8; 8])
    requires
        start + 8 <= old(plane).len(),
    ensures
        final(plane).len() == old(plane).len(),
        forall|i: int|
            0 <= i < old(plane).len() ==> #[trigger] final(plane)[i] == if start <= i < start + 8 {
                values[i - start]
            } else {
                old(plane)[i]
            },
{
    let ghost before = plane@;
    for j in 0..8usize
        invariant
            plane.len() == before.len(),
            start + 8 <= before.len(),
            forall|i: int|
                0 <= i < before.len() ==> #[trigger] plane[i] == if start <= i < start + j {
                    values[i - start]
                } else {
                    before[i]
                },
    {
        plane[start + j] = values[j];
    }
}

/// Filters eight neighbouring columns, `x .. x + 8`, of the four rows from
/// `top` on as one edge, all lanes at once.
#[verifier::rlimit(30)]
fn filter_edge_columns8(result: &mut [u8], width: usize, top: usize, x: usize, strength: u8)
    requires
        x + 8 <= width,
        top + 4 * width <= old(result).len(),
    ensures
        final(result).len() == old(result).len(),
        forall|i: int|
            0 <= i < old(result).len() ==> #[trigger] final(result)[i] == strip_patch(
                old(result)@,
                width as int,
                top as int,
                x as int,
                8,
                strength,
                i,
            ),
{
    let ghost s0 = result@;
    let ia: usize = top + x;
    let ib: usize = ia + width;
    let ic: usize = ib + width;
    let id: usize = ic + width;
    let mut a = load8(result, ia);
    let mut b = load8(result, ib);
    let mut c = load8(result, ic);
    let mut d = load8(result, id);
    process_simd(&mut a, &mut b, &mut c, &mut d, strength);
    proof {
        assert forall|t: int| 0 <= t < 8 implies {
            &&& #[trigger] a[t] == strip_tap(s0, width as int, top as int, x + t, strength, 0)
            &&& b[t] == strip_tap(s0, width as int, top as int, x + t, strength, 1)
            &&& c[t] == strip_tap(s0, width as int, top as int, x + t, strength, 2)
            &&& d[t] == strip_tap(s0, width as int, top as int, x + t, strength, 3)
        } by {
            assert(s0[ia + t] == s0[top + (x + t)]);
            assert(s0[ib + t] == s0[top + width + (x + t)]);
            assert(s0[ic + t] == s0[top + 2 * width + (x + t)]);
            assert(s0[id + t] == s0[top + 3 * width + (x + t)]);
        }
    }
    store8(result, ia, &a);
    store8(result, ib, &b);
    store8(result, ic, &c);
    store8(result, id, &d);
    proof {
        assert forall|i: int| 0 <= i < s0.len() implies #[trigger] result[i] == strip_patch(
            s0,
            width as int,
            top as int,
            x as int,
            8,
            strength,
            i,
        ) by {
            if ia <= i < ia + 8 {
                assert(result[i] == a[i - ia]);
            } else if ib <= i < ib + 8 {
                assert(result[i] == b[i - ib]);
            } else if ic <= i < ic + 8 {
                assert(result[i] == c[i - ic]);
            } else if id <= i < id + 8 {
                assert(result[i] == d[i - id]);
            }
        }
    }
}

/// Sample `i` while the horizontal pass is under way: every edge above row
/// `e_cur` is done, and columns `0 .. x` of the edge at `e_cur`.
spec fn horiz_progress(
    s: Seq<u8>,
    w: int,
    h: int,
    strength: u8,
    e_cur: int,
    x: int,
    i: int,
) -> u8 {
    let r = i / w;
    let c = i % w;
    match edge_covering(r, h) {
        Some(e) => if e < e_cur || (e == e_cur && c < x) {
            horiz_tap(s, w, e, c, strength, r - (e - 2))
        } else {
            s[i]
        },
        None => s[i],
    }
}

/// Which coordinates the edge at `e` covers.
proof fn lemma_edge_covers(e: int, t: int, extent: int)
    requires
        8 <= e,
        e % 8 == 0,
        e + 2 <= extent,
    ensures
        edge_covering(t, extent) == Some(e) <==> e - 2 <= t <= e + 1,
{
    reveal(edge_covering);
}

/// An edge that covers `t` is a multiple of 8 from 8 up to `extent - 2`,
/// one of the first `edge_count(extent)` multiples, and has `t` among its
/// four samples.
proof fn lemma_covering_edge(t: int, extent: int)
    ensures
        match edge_covering(t, extent) {
            Some(e) => {
                &&& 8 <= e
                &&& e % 8 == 0
                &&& e + 2 <= extent
                &&& e <= 8 * edge_count(extent)
                &&& e - 2 <= t <= e + 1
            },
            None => true,
        },
{
    reveal(edge_covering);
}

/// Two distinct multiples of 8 lie at least 8 apart.
proof fn lemma_edges_apart(a: int, b: int)
    requires
        a % 8 == 0,
        b % 8 == 0,
        a != b,
    ensures
        a < b <==> a < b + 8,
{
}

/// The four rows around the edge at row `e` lie inside the plane, one width
/// apart.
proof fn lemma_edge_rows(w: int, h: int, e: int)
    requires
        0 < w,
        2 <= e,
        e + 2 <= h,
    ensures
        0 <= (e - 2) * w,
        (e - 1) * w == (e - 2) * w + w,
        e * w == (e - 2) * w + 2 * w,
        (e + 1) * w == (e - 2) * w + 3 * w,
        (e - 2) * w + 4 * w <= h * w,
{
    lemma_next_row(w, e - 2);
    lemma_next_row(w, e - 1);
    lemma_next_row(w, e);
    lemma_next_row(w, e + 1);
    lemma_cell_in_plane(w, h, e - 2, 0);
    lemma_cell_in_plane(w, h, e + 1, w - 1);
}

/// While columns `x ..` of the edge at `e` are still to do, the sample in
/// row `r` of such a column, under the edge, holds what the plane started
/// with.
proof fn lemma_tap_untouched(
    s0: Seq<u8>,
    before: Seq<u8>,
    w: int,
    h: int,
    strength: u8,
    e: int,
    x: int,
    r: int,
    c: int,
)
    requires
        0 < w,
        h * w == s0.len(),
        before.len() == s0.len(),
        8 <= e,
        e % 8 == 0,
        e + 2 <= h,
        e - 2 <= r <= e + 1,
        0 <= x <= c < w,
        forall|i: int|
            0 <= i < s0.len() ==> #[trigger] before[i] == horiz_progress(s0, w, h, strength, e, x, i),
    ensures
        before[r * w + c] == s0[r * w + c],
{
    let i = r * w + c;
    lemma_cell_in_plane(w, h, r, c);
    lemma_cell_index(w, r, c);
    lemma_edge_covers(e, r, h);
    assert(before[i] == horiz_progress(s0, w, h, strength, e, x, i));
}

/// The step of [`lemma_horiz_step`] at one index, for the column `c` that
/// the index lies in.
#[verifier::rlimit(30)]
proof fn lemma_horiz_step_at(
    s0: Seq<u8>,
    before: Seq<u8>,
    w: int,
    h: int,
    strength: u8,
    e: int,
    x: int,
    n: int,
    i: int,
)
    requires
        0 < w,
        h * w == s0.len(),
        before.len() == s0.len(),
        8 <= e,
        e % 8 == 0,
        e + 2 <= h,
        0 <= x,
        0 <= n,
        x + n <= w,
        0 <= i < s0.len(),
        before[i] == horiz_progress(s0, w, h, strength, e, x, i),
        x <= i % w ==> {
            &&& before[(e - 2) * w + i % w] == s0[(e - 2) * w + i % w]
            &&& before[(e - 1) * w + i % w] == s0[(e - 1) * w + i % w]
            &&& before[e * w + i % w] == s0[e * w + i % w]
            &&& before[(e + 1) * w + i % w] == s0[(e + 1) * w + i % w]
        },
    ensures
        strip_patch(before, w, (e - 2) * w, x, n, strength, i) == horiz_progress(
            s0,
            w,
            h,
            strength,
            e,
            x + n,
            i,
        ),
{
    let top = (e - 2) * w;
    let r = i / w;
    let c = i % w;
    let o = i - top;
    lemma_index_cell(w, i);
    lemma_edge_rows(w, h, e);
    lemma_covering_edge(r, h);
    lemma_edge_covers(e, r, h);
    if e - 2 <= r <= e + 1 && x <= c < x + n {
        assert(edge_covering(r, h) == Some(e));
        if r == e - 2 {
            assert(o == c);
        } else if r == e - 1 {
            assert(o == w + c);
        } else if r == e {
            assert(o == 2 * w + c);
        } else {
            assert(o == 3 * w + c);
        }
        assert(strip_patch(before, w, top, x, n, strength, i) == strip_tap(
            before,
            w,
            top,
            c,
            strength,
            r - (e - 2),
        ));
        assert(strip_tap(before, w, top, c, strength, r - (e - 2)) == horiz_tap(
            s0,
            w,
            e,
            c,
            strength,
            r - (e - 2),
        ));
    } else {
        if x <= o < x + n {
            lemma_cell_index(w, e - 2, o);
            assert(false);
        } else if x <= o - w < x + n {
            lemma_cell_index(w, e - 1, o - w);
            assert(false);
        } else if x <= o - 2 * w < x + n {
            lemma_cell_index(w, e, o - 2 * w);
            assert(false);
        } else if x <= o - 3 * w < x + n {
            lemma_cell_index(w, e + 1, o - 3 * w);
            assert(false);
        }
        assert(strip_patch(before, w, top, x, n, strength, i) == before[i]);
        match edge_covering(r, h) {
            Some(e2) => {
                if e2 == e {
                    assert(!(x <= c < x + n));
                }
            },
            None => {},
        }
    }
}

/// One more strip of columns of the current edge: from the state with
/// columns `0 .. x` done to the state with columns `0 .. x + n` done.
proof fn lemma_horiz_step(
    s0: Seq<u8>,
    before: Seq<u8>,
    after: Seq<u8>,
    w: int,
    h: int,
    strength: u8,
    e: int,
    x: int,
    n: int,
)
    requires
        0 < w,
        h * w == s0.len(),
        before.len() == s0.len(),
        after.len() == s0.len(),
        8 <= e,
        e % 8 == 0,
        e + 2 <= h,
        0 <= x,
        0 <= n,
        x + n <= w,
        forall|i: int|
            0 <= i < s0.len() ==> #[trigger] before[i] == horiz_progress(s0, w, h, strength, e, x, i),
        forall|i: int|
            0 <= i < s0.len() ==> #[trigger] after[i] == strip_patch(
                before,
                w,
                (e - 2) * w,
                x,
                n,
                strength,
                i,
            ),
    ensures
        forall|i: int|
            0 <= i < s0.len() ==> #[trigger] after[i] == horiz_progress(
                s0,
                w,
                h,
                strength,
                e,
                x + n,
                i,
            ),
{
    assert forall|i: int| 0 <= i < s0.len() implies #[trigger] after[i] == horiz_progress(
        s0,
        w,
        h,
        strength,
        e,
        x + n,
        i,
    ) by {
        let c = i % w;
        lemma_index_cell(w, i);
        if x <= c {
            lemma_tap_untouched(s0, before, w, h, strength, e, x, e - 2, c);
            lemma_tap_untouched(s0, before, w, h, strength, e, x, e - 1, c);
            lemma_tap_untouched(s0, before, w, h, strength, e, x, e, c);
            lemma_tap_untouched(s0, before, w, h, strength, e, x, e + 1, c);
        }
        lemma_horiz_step_at(s0, before, w, h, strength, e, x, n, i);
    }
}

/// The horizontal pass: filters every column across every horizontal block
/// edge of a plane of `height` rows of `width` samples, in place. A plane of
/// fewer than 10 rows has no such edge and is left unchanged.
#[verifier::rlimit(30)]
pub fn deblock_horiz(result: &mut [u8], width: usize, height: usize, strength: u8)
    requires
        width * height == old(result).len(),
    ensures
        final(result)@ == horiz_pass(old(result)@, width as int, height as int, strength),
{
    let ghost s0 = result@;
    let ghost w = width as int;
    let ghost h = height as int;
    if width == 0 {
        assert(result@ =~= horiz_pass(s0, w, h, strength));
        return ;
    }
    let edges: usize = if height < 10 {
        0
    } else {
        (height - 2) / 8
    };
    proof {
        vstd::arithmetic::mul::lemma_mul_is_commutative(w, h);
        assert forall|i: int| 0 <= i < s0.len() implies s0[i] == horiz_progress(
            s0,
            w,
            h,
            strength,
            8,
            0,
            i,
        ) by {
            lemma_index_cell(w, i);
            lemma_covering_edge(i / w, h);
        }
    }
    let mut k: usize = 1;
    while k <= edges
        invariant
            0 < w,
            w == width,
            h == height,
            h * w == s0.len(),
            result.len() == s0.len(),
            edges == edge_count(h),
            1 <= k <= edges + 1,
            forall|i: int|
                0 <= i < s0.len() ==> #[trigger] result[i] == horiz_progress(
                    s0,
                    w,
                    h,
                    strength,
                    8 * k,
                    0,
                    i,
                ),
        decreases edges + 1 - k,
    {
        let edge_y: usize = 8 * k;
        let ghost e = edge_y as int;
        proof {
            lemma_edge_rows(w, h, e);
        }
        // where the first of the four rows around the edge starts
        let top: usize = (edge_y - 2) * width;
        let mut x: usize = 0;
        while width - x >= 8
            invariant
                0 < w,
                w == width,
                h == height,
                h * w == s0.len(),
                result.len() == s0.len(),
                e == edge_y,
                8 <= e,
                e % 8 == 0,
                e + 2 <= h,
                top == (e - 2) * w,
                top + 4 * w <= s0.len(),
                0 <= x <= width,
                forall|i: int|
                    0 <= i < s0.len() ==> #[trigger] result[i] == horiz_progress(
                        s0,
                        w,
                        h,
                        strength,
                        e,
                        x as int,
                        i,
                    ),
            decreases width - x,
        {
            let ghost before = result@;
            filter_edge_columns8(result, width, top, x, strength);
            proof {
                lemma_horiz_step(s0, before, result@, w, h, strength, e, x as int, 8);
            }
            x += 8;
        }
        while x < width
            invariant
                0 < w,
                w == width,
                h == height,
                h * w == s0.len(),
                result.len() == s0.len(),
                e == edge_y,
                8 <= e,
                e % 8 == 0,
                e + 2 <= h,
                top == (e - 2) * w,
                top + 4 * w <= s0.len(),
                0 <= x <= width,
                forall|i: int|
                    0 <= i < s0.len() ==> #[trigger] result[i] == horiz_progress(
                        s0,
                        w,
                        h,
                        strength,
                        e,
                        x as int,
                        i,
                    ),
            decreases width - x,
        {
            let ghost before = result@;
            filter_edge_column(result, width, top, x, strength);
            proof {
                lemma_horiz_step(s0, before, result@, w, h, strength, e, x as int, 1);
            }
            x += 1;
        }
        proof {
            assert forall|i: int| 0 <= i < s0.len() implies #[trigger] result[i] == horiz_progress(
                s0,
                w,
                h,
                strength,
                e + 8,
                0,
                i,
            ) by {
                lemma_index_cell(w, i);
                lemma_covering_edge(i / w, h);
                assert(result[i] == horiz_progress(s0, w, h, strength, e, w, i));
            }
        }
        k += 1;
    }
    proof {
        assert forall|i: int| 0 <= i < s0.len() implies result[i] == horiz_sample(
            s0,
            w,
            h,
            strength,
            i,
        ) by {
            lemma_covering_edge(i / w, h);
            assert(result[i] == horiz_progress(s0, w, h, strength, 8 * k, 0, i));
        }
        assert(result@ =~= horiz_pass(s0, w, h, strength));
    }
}

/// Sample `i` once the four samples starting at `base` have been filtered
/// as one edge, and nothing else.
spec fn span_patch(s: Seq<u8>, base: int, strength: u8, i: int) -> u8 {
    if base <= i < base + 4 {
        edge_filter_at(s[base], s[base + 1], s[base + 2], s[base + 3], strength, i - base)
    } else {
        s[i]
    }
}

/// Filters the four neighbouring samples starting at `base` as `A`, `B`, `C`
/// and `D` of one edge.
fn filter_span(result: &mut [u8], base: usize, strength: u8)
    requires
        base + 4 <= old(result).len(),
    ensures
        final(result).len() == old(result).len(),
        forall|i: int|
            0 <= i < old(result).len() ==> #[trigger] final(result)[i] == span_patch(
                old(result)@,
                base as int,
                strength,
                i,
            ),
{
    let mut a: u8 = result[base];
    let mut b: u8 = result[base + 1];
    let mut c: u8 = result[base + 2];
    let mut d: u8 = result[base + 3];

    process(&mut a, &mut b, &mut c, &mut d, strength);

    result[base] = a;
    result[base + 1] = b;
    result[base + 2] = c;
    result[base + 3] = d;
}

/// Sample `i` while the vertical pass is under way: every row above `r_cur`
/// is done, and in row `r_cur` every edge left of column `e_cur`.
spec fn vert_progress(
    s: Seq<u8>,
    w: int,
    strength: u8,
    r_cur: int,
    e_cur: int,
    i: int,
) -> u8 {
    let r = i / w;
    let c = i % w;
    match edge_covering(c, w) {
        Some(e) => if r < r_cur || (r == r_cur && e < e_cur) {
            vert_tap(s, w, r, e, strength, c - (e - 2))
        } else {
            s[i]
        },
        None => s[i],
    }
}

/// While the edge at column `e` of row `r` is still to do, the sample in
/// column `c` under it holds what the plane started with.
proof fn lemma_span_sample_untouched(
    s0: Seq<u8>,
    before: Seq<u8>,
    w: int,
    h: int,
    strength: u8,
    r: int,
    e: int,
    c: int,
)
    requires
        0 < w,
        h * w == s0.len(),
        before.len() == s0.len(),
        0 <= r < h,
        8 <= e,
        e % 8 == 0,
        e + 2 <= w,
        e - 2 <= c <= e + 1,
        forall|i: int|
            0 <= i < s0.len() ==> #[trigger] before[i] == vert_progress(s0, w, strength, r, e, i),
    ensures
        before[r * w + c] == s0[r * w + c],
{
    let i = r * w + c;
    lemma_cell_in_plane(w, h, r, c);
    lemma_cell_index(w, r, c);
    lemma_edge_covers(e, c, w);
    assert(before[i] == vert_progress(s0, w, strength, r, e, i));
}

/// While the edge at column `e` of row `r` is still to do, its four samples
/// hold what the plane started with.
proof fn lemma_span_untouched(
    s0: Seq<u8>,
    before: Seq<u8>,
    w: int,
    h: int,
    strength: u8,
    r: int,
    e: int,
)
    requires
        0 < w,
        h * w == s0.len(),
        before.len() == s0.len(),
        0 <= r < h,
        8 <= e,
        e % 8 == 0,
        e + 2 <= w,
        forall|i: int|
            0 <= i < s0.len() ==> #[trigger] before[i] == vert_progress(s0, w, strength, r, e, i),
    ensures
        0 <= r * w + e - 2,
        r * w + e + 2 <= s0.len(),
        before[r * w + e - 2] == s0[r * w + e - 2],
        before[r * w + e - 1] == s0[r * w + e - 1],
        before[r * w + e] == s0[r * w + e],
        before[r * w + e + 1] == s0[r * w + e + 1],
{
    lemma_cell_in_plane(w, h, r, e - 2);
    lemma_cell_in_plane(w, h, r, e + 1);
    lemma_span_sample_untouched(s0, before, w, h, strength, r, e, e - 2);
    lemma_span_sample_untouched(s0, before, w, h, strength, r, e, e - 1);
    lemma_span_sample_untouched(s0, before, w, h, strength, r, e, e);
    lemma_span_sample_untouched(s0, before, w, h, strength, r, e, e + 1);
}

/// The step of [`lemma_vert_step`] at one index.
#[verifier::rlimit(30)]
proof fn lemma_vert_step_at(
    s0: Seq<u8>,
    before: Seq<u8>,
    w: int,
    h: int,
    strength: u8,
    r: int,
    e: int,
    i: int,
)
    requires
        0 < w,
        h * w == s0.len(),
        before.len() == s0.len(),
        0 <= r < h,
        8 <= e,
        e % 8 == 0,
        e + 2 <= w,
        0 <= i < s0.len(),
        before[i] == vert_progress(s0, w, strength, r, e, i),
        before[r * w + e - 2] == s0[r * w + e - 2],
        before[r * w + e - 1] == s0[r * w + e - 1],
        before[r * w + e] == s0[r * w + e],
        before[r * w + e + 1] == s0[r * w + e + 1],
    ensures
        span_patch(before, r * w + e - 2, strength, i) == vert_progress(
            s0,
            w,
            strength,
            r,
            e + 8,
            i,
        ),
{
    let base = r * w + e - 2;
    let row = i / w;
    let c = i % w;
    lemma_index_cell(w, i);
    lemma_covering_edge(c, w);
    lemma_edge_covers(e, c, w);
    if row == r && e - 2 <= c <= e + 1 {
        assert(i == r * w + c);
        assert(edge_covering(c, w) == Some(e));
        assert(span_patch(before, base, strength, i) == vert_tap(
            s0,
            w,
            r,
            e,
            strength,
            c - (e - 2),
        ));
    } else {
        if base <= i < base + 4 {
            lemma_cell_index(w, r, i - r * w);
            assert(false);
        }
        assert(span_patch(before, base, strength, i) == before[i]);
        match edge_covering(c, w) {
            Some(e2) => {
                if row == r {
                    lemma_edges_apart(e2, e);
                }
            },
            None => {},
        }
    }
}

/// One more edge of the current row: from the state with the edges left of
/// `e` done to the state with the edge at `e` done too.
proof fn lemma_vert_step(
    s0: Seq<u8>,
    before: Seq<u8>,
    after: Seq<u8>,
    w: int,
    h: int,
    strength: u8,
    r: int,
    e: int,
)
    requires
        0 < w,
        h * w == s0.len(),
        before.len() == s0.len(),
        after.len() == s0.len(),
        0 <= r < h,
        8 <= e,
        e % 8 == 0,
        e + 2 <= w,
        forall|i: int|
            0 <= i < s0.len() ==> #[trigger] before[i] == vert_progress(s0, w, strength, r, e, i),
        forall|i: int|
            0 <= i < s0.len() ==> #[trigger] after[i] == span_patch(
                before,
                r * w + e - 2,
                strength,
                i,
            ),
    ensures
        forall|i: int|
            0 <= i < s0.len() ==> #[trigger] after[i] == vert_progress(
                s0,
                w,
                strength,
                r,
                e + 8,
                i,
            ),
{
    lemma_span_untouched(s0, before, w, h, strength, r, e);
    assert forall|i: int| 0 <= i < s0.len() implies #[trigger] after[i] == vert_progress(
        s0,
        w,
        strength,
        r,
        e + 8,
        i,
    ) by {
        lemma_vert_step_at(s0, before, w, h, strength, r, e, i);
    }
}

/// The vertical pass: filters every row across every vertical block edge of
/// a plane of rows of `width` samples, in place. A plane narrower than 10
/// samples has no such edge and is left unchanged.
#[verifier::rlimit(30)]
pub fn deblock_vert(result: &mut [u8], width: usize, strength: u8)
    requires
        width < 10 || old(result).len() % width == 0,
    ensures
        final(result)@ == vert_pass(old(result)@, width as int, strength),
{
    let ghost s0 = result@;
    let ghost w = width as int;
    // Narrower planes have no pair of samples on either side of an edge.
    if width >= 10 {
        let height: usize = result.len() / width;
        let ghost h = height as int;
        proof {
            lemma_index_cell(w, s0.len() as int);
        }
        let edges: usize = (width - 2) / 8;
        proof {
            assert forall|i: int| 0 <= i < s0.len() implies s0[i] == vert_progress(
                s0,
                w,
                strength,
                0,
                8,
                i,
            ) by {
                lemma_index_in_plane(w, h, i);
                lemma_covering_edge(i % w, w);
            }
        }
        let mut r: usize = 0;
        while r < height
            invariant
                10 <= w,
                w == width,
                h == height,
                h * w == s0.len(),
                result.len() == s0.len(),
                edges == edge_count(w),
                0 <= r <= height,
                forall|i: int|
                    0 <= i < s0.len() ==> #[trigger] result[i] == vert_progress(
                        s0,
                        w,
                        strength,
                        r as int,
                        8,
                        i,
                    ),
            decreases height - r,
        {
            proof {
                lemma_cell_in_plane(w, h, r as int, 0);
                lemma_cell_in_plane(w, h, r as int, w - 1);
            }
            let row: usize = r * width;
            let mut k: usize = 1;
            while k <= edges
                invariant
                    10 <= w,
                    w == width,
                    h == height,
                    h * w == s0.len(),
                    result.len() == s0.len(),
                    edges == edge_count(w),
                    0 <= r < height,
                    row == r * w,
                    row + w <= s0.len(),
                    1 <= k <= edges + 1,
                    forall|i: int|
                        0 <= i < s0.len() ==> #[trigger] result[i] == vert_progress(
                            s0,
                            w,
                            strength,
                            r as int,
                            8 * k,
                            i,
                        ),
                decreases edges + 1 - k,
            {
                let ghost before = result@;
                filter_span(result, row + 8 * k - 2, strength);
                proof {
                    lemma_vert_step(s0, before, result@, w, h, strength, r as int, 8 * k);
                }
                k += 1;
            }
            proof {
                assert forall|i: int| 0 <= i < s0.len() implies #[trigger] result[i]
                    == vert_progress(s0, w, strength, r as int + 1, 8, i) by {
                    lemma_covering_edge(i % w, w);
                    assert(result[i] == vert_progress(s0, w, strength, r as int, 8 * k, i));
                }
            }
            r += 1;
        }
        proof {
            assert forall|i: int| 0 <= i < s0.len() implies result[i] == vert_sample(
                s0,
                w,
                strength,
                i,
            ) by {
                lemma_index_cell(w, i);
                lemma_index_in_plane(w, h, i);
                lemma_covering_edge(i % w, w);
                assert(result[i] == vert_progress(s0, w, strength, r as int, 8, i));
            }
        }
    }
    proof {
        if width < 10 {
            lemma_narrow_plane_skips_vertical(s0, w, strength);
        }
    }
    assert(result@ =~= vert_pass(s0, w, strength));
}

/// Applies the deblocking filter of the given strength to a plane of rows of
/// `width` samples, assuming 8x8 blocks, and returns the filtered plane.
/// Each pass can be switched off; with both on, the horizontal pass runs
/// first and the vertical pass sees its result.
pub fn deblock_with_passes(
    data: &[u8],
    width: usize,
    strength: u8,
    horizontal: bool,
    vertical: bool,
) -> (result: Vec<u8>)
    requires
        width > 0,
        data.len() % width == 0,
    ensures
        result@ == deblocked_with(data@, width as int, strength, horizontal, vertical),
{
    let height: usize = data.len() / width;
    proof {
        lemma_index_cell(width as int, data.len() as int);
    }
    let mut result = vstd::slice::slice_to_vec(data);
    if horizontal {
        assert(width * height == result.len()) by (nonlinear_arith)
            requires
                result.len() == height * width,
        ;
        deblock_horiz(result.as_mut_slice(), width, height, strength);
    }
    assert(result.len() == data.len());
    if vertical {
        deblock_vert(result.as_mut_slice(), width, strength);
    }
    result
}

/// Applies the deblocking filter of the given strength to the horizontal and
/// then the vertical block edges of a plane of rows of `width` samples,
/// assuming 8x8 blocks, and returns the filtered plane.
pub fn deblock(data: &[u8], width: usize, strength: u8) -> (result: Vec<u8>)
    requires
        width > 0,
        data.len() % width == 0,
    ensures
        result@ == deblocked(data@, width as int, strength),
{
    deblock_with_passes(data, width, strength, true, true)
}

} // verus!
