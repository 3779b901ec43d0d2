//! What the coded levels have to do with the source.
//!
//! A level stands for the difference between the source and what a decoder
//! foretells. It is said here without the encoder: a transform by the
//! inequalities that its values meet, a level by the multiple of the step that
//! it stands for.
use vstd::prelude::*;

use crate::blocks::{lemma_residual_bound, residual};
use crate::common::{ChromaMode, IntraMode, LumaMode, Plane, Segment, ZIGZAG};
use crate::decoder::lemma_scene_wf;
use crate::decoding::{coeffs_of, lemma_decoded_subblocks, lemma_sub_block};
use crate::frame::Image;
use crate::frame_decoding::lemma_decision;
use crate::model::{
    chroma_block, chroma_coeffs, luma_block, luma_coeffs, predicted_chroma, predicted_luma,
    restored_subblocks, segment_for, sub_predicted, sub_residual, whole_mode, Canvas, Decision,
    Scene,
};
use crate::passes::{coeffs_at, replay, row_modes};
use crate::playback::{
    lemma_chroma_foretold, lemma_luma_foretold, lemma_small, lemma_subblocks,
};
use crate::quantize::{block_at, coeffs0, lemma_trunc_div};
use crate::residual::{dc_levels, luma_plane_of, plane_levels};
use crate::residual_reading::{coded_levels, Levels};
use crate::skipping::lemma_decision_plain;
use crate::tokens::levels;
use crate::transform::{
    dct, dct_column, dct_row, dct_rows, lemma_dct_bound, lemma_dct_len, lemma_wht_len, trunc_div,
    wht, wht_column, wht_row, wht_rows, within,
};
use crate::viewing::{
    diagonal_position, edge_line, foretold, foretold_small, shown_subblocks, tile,
};

verus! {

/// The four values of row `y` after the first pass of the cosine transform.
pub open spec fn row_passed(b: Seq<i32>, r: Seq<i32>, y: int) -> bool {
    let (p, q, s, t) = (b[4 * y], b[4 * y + 1], b[4 * y + 2], b[4 * y + 3]);
    &&& r[4 * y] == 8 * (p + q + s + t)
    &&& 0 <= 42816 * (p - t) + 17736 * (q - s) + 14500 - 4096 * r[4 * y + 1] < 4096
    &&& r[4 * y + 2] == 8 * (p - q - s + t)
    &&& 0 <= 17736 * (p - t) - 42816 * (q - s) + 7500 - 4096 * r[4 * y + 3] < 4096
}

/// The four values of column `x` after the second pass of the cosine transform.
pub open spec fn column_passed(r: Seq<i32>, c: Seq<i32>, x: int) -> bool {
    let (p, q, s, t) = (r[x], r[x + 4], r[x + 8], r[x + 12]);
    &&& 0 <= p + q + s + t + 7 - 16 * c[x] < 16
    &&& 0 <= 5352 * (p - t) + 2217 * (q - s) + 12000 - 65536 * (c[x + 4] - if p == t {
        0int
    } else {
        1
    }) < 65536
    &&& 0 <= p - q - s + t + 7 - 16 * c[x + 8] < 16
    &&& 0 <= 2217 * (p - t) - 5352 * (q - s) + 51000 - 65536 * c[x + 12] < 65536
}

/// `r` is `b` after the first pass of the cosine transform, and `c` is `r` after
/// the second.
pub open spec fn passed(b: Seq<i32>, r: Seq<i32>, c: Seq<i32>) -> bool {
    &&& r.len() == 16
    &&& forall|y: int| 0 <= y < 4 ==> #[trigger] row_passed(b, r, y)
    &&& forall|x: int| 0 <= x < 4 ==> #[trigger] column_passed(r, c, x)
}

/// `c` holds the sixteen values of the cosine transform of `b`.
pub open spec fn is_spectrum(b: Seq<i32>, c: Seq<i32>) -> bool {
    c.len() == 16 && exists|r: Seq<i32>| #[trigger] passed(b, r, c)
}

/// Sum of four values, added or subtracted as in row `k` of a Hadamard matrix.
pub open spec fn signed_sum(p: int, q: int, s: int, t: int, k: int) -> int {
    if k == 0 {
        p + q + s + t
    } else if k == 1 {
        p + q - s - t
    } else if k == 2 {
        p - q - s + t
    } else {
        p - q + s - t
    }
}

/// `c` holds the sixteen values of the Walsh-Hadamard transform of `b`: each is
/// half of a signed sum over all of `b`, rounded up.
pub open spec fn is_signed_sums(b: Seq<i32>, c: Seq<i32>) -> bool {
    &&& c.len() == 16
    &&& forall|n: int|
        0 <= n < 16 ==> {
            let row = |y: int|
                signed_sum(
                    b[4 * y] as int,
                    b[4 * y + 1] as int,
                    b[4 * y + 2] as int,
                    b[4 * y + 3] as int,
                    n % 4,
                );
            let sum = signed_sum(row(0), row(1), row(2), row(3), n / 4);
            0 <= 2 * (#[trigger] c[n]) - sum <= 1
        }
}

/// The first of every sixteen coefficients.
pub open spec fn every_sixteenth(c: Seq<i32>) -> Seq<i32> {
    Seq::new(16, |k: int| c[16 * k])
}

/// `level` steps come closest to `c` without going beyond it.
pub open spec fn is_level(c: int, step: int, level: int) -> bool {
    &&& c >= 0 ==> 0 <= c - level * step < step
    &&& c <= 0 ==> 0 <= level * step - c < step
}

/// `z` holds the levels of the coefficients `c` in coding order, from
/// coefficient `first` on.
pub open spec fn are_levels(c: Seq<i32>, z: Seq<i32>, dc: i16, ac: i16, first: int) -> bool {
    &&& z.len() == 16
    &&& forall|n: int|
        0 <= n < 16 ==> if n < first {
            #[trigger] z[diagonal_position(n)] == 0
        } else {
            is_level(
                c[n] as int,
                if n == 0 {
                    dc as int
                } else {
                    ac as int
                },
                z[diagonal_position(n)] as int,
            )
        }
}

/// By how much the prediction of the block at `px`, `py` as a whole misses the
/// source in the 4x4 block at `bx`, `by`.
pub open spec fn missed_whole(
    source: Seq<u8>,
    plane: Seq<u8>,
    w: int,
    px: int,
    py: int,
    size: int,
    mode: ChromaMode,
    bx: int,
    by: int,
) -> Seq<i32> {
    Seq::new(
        16,
        |n: int|
            {
                let (x, y) = (bx + n % 4, by + n / 4);
                (source[y * w + x] - foretold(plane, w, px, py, size, mode, x, y)) as i32
            },
    )
}

/// By how much the prediction of the sub-block at `bx`, `by` from its edge
/// misses the source.
pub open spec fn missed_small(
    source: Seq<u8>,
    w: int,
    bx: int,
    by: int,
    edge: Seq<u8>,
    mode: IntraMode,
) -> Seq<i32> {
    Seq::new(
        16,
        |n: int|
            (source[(by + n / 4) * w + (bx + n % 4)] - foretold_small(edge, mode, n % 4, n / 4))
                as i32,
    )
}

/// The coefficients of a macroblock that is predicted as a whole, in blocks of
/// which `per` stand side by side.
pub open spec fn whole_follows(
    source: Seq<u8>,
    plane: Seq<u8>,
    w: int,
    px: int,
    py: int,
    per: int,
    mode: ChromaMode,
    c: Seq<i32>,
) -> bool {
    forall|k: int|
        0 <= k < per * per ==> is_spectrum(
            missed_whole(
                source,
                plane,
                w,
                px,
                py,
                4 * per,
                mode,
                px + 4 * (k % per),
                py + 4 * (k / per),
            ),
            #[trigger] block_at(c, k),
        )
}

/// The coefficients of a luma macroblock that is predicted by sub-blocks.
pub open spec fn subblocks_follow(
    source: Seq<u8>,
    plane: Seq<u8>,
    w: int,
    px: int,
    py: int,
    d: Decision,
    z: Levels,
    segment: Segment,
    c: Seq<i32>,
) -> bool {
    let modes = d.luma_bpred.unwrap();
    forall|k: int|
        0 <= k < 16 ==> {
            let t = shown_subblocks(tile(plane, w, px, py), modes, z.y, segment, k);
            is_spectrum(
                missed_small(
                    source,
                    w,
                    px + 4 * (k % 4),
                    py + 4 * (k / 4),
                    edge_line(t, k),
                    modes[k],
                ),
                #[trigger] block_at(c, k),
            )
        }
}

/// The levels `z` of a macroblock say how the source differs from what a decoder
/// foretells; `y`, `u` and `v` are the coefficients that they stand for.
pub open spec fn levels_follow(
    scene: Scene,
    canvas: Canvas,
    d: Decision,
    mbx: int,
    mby: int,
    segment: Segment,
    z: Levels,
    y: Seq<i32>,
    u: Seq<i32>,
    v: Seq<i32>,
) -> bool {
    let (w, px, py) = (16 * scene.mbw, 16 * mbx, 16 * mby);
    let (cw, cx, cy) = (8 * scene.mbw, 8 * mbx, 8 * mby);
    let whole = match d.luma_mode {
        LumaMode::V => ChromaMode::V,
        LumaMode::H => ChromaMode::H,
        LumaMode::TM => ChromaMode::TM,
        _ => ChromaMode::DC,
    };
    &&& if d.luma_mode == LumaMode::B {
        &&& subblocks_follow(scene.ybuf, canvas.y, w, px, py, d, z, segment, y)
        &&& forall|k: int|
            0 <= k < 16 ==> are_levels(
                #[trigger] block_at(y, k),
                z.y[k],
                segment.ydc,
                segment.yac,
                0,
            )
    } else {
        &&& whole_follows(scene.ybuf, canvas.y, w, px, py, 4, whole, y)
        &&& forall|k: int|
            0 <= k < 16 ==> are_levels(
                #[trigger] block_at(y, k),
                z.y[k],
                segment.ydc,
                segment.yac,
                1,
            )
        &&& exists|h: Seq<i32>| #[trigger]
            is_signed_sums(every_sixteenth(y), h) && are_levels(
                h,
                z.y2,
                segment.y2dc,
                segment.y2ac,
                0,
            )
    }
    &&& whole_follows(scene.ubuf, canvas.u, cw, cx, cy, 2, d.chroma_mode, u)
    &&& whole_follows(scene.vbuf, canvas.v, cw, cx, cy, 2, d.chroma_mode, v)
    &&& forall|k: int|
        0 <= k < 4 ==> are_levels(#[trigger] block_at(u, k), z.u[k], segment.uvdc, segment.uvac, 0)
    &&& forall|k: int|
        0 <= k < 4 ==> are_levels(#[trigger] block_at(v, k), z.v[k], segment.uvdc, segment.uvac, 0)
}

/// The cosine transform meets its inequalities.
pub proof fn lemma_spectrum(b: Seq<i32>)
    requires
        b.len() == 16,
        within(b, 255),
    ensures
        is_spectrum(b, dct(b)),
{
    reveal(dct);
    let r = dct_rows(b);
    let c = dct(b);
    lemma_dct_len(b);
    assert forall|n: int| 0 <= n < 16 implies -8160 <= #[trigger] r[n] <= 8160 by {
        let i = n / 4;
        reveal(dct_row);
        assert(r[n] == dct_row(b[4 * i], b[4 * i + 1], b[4 * i + 2], b[4 * i + 3], n % 4));
    }
    assert forall|y: int| 0 <= y < 4 implies #[trigger] row_passed(b, r, y) by {
        reveal(dct_row);
        let (p, q, s, t) = (b[4 * y], b[4 * y + 1], b[4 * y + 2], b[4 * y + 3]);
        assert(r[4 * y] == dct_row(p, q, s, t, 0));
        assert(r[4 * y + 1] == dct_row(p, q, s, t, 1));
        assert(r[4 * y + 2] == dct_row(p, q, s, t, 2));
        assert(r[4 * y + 3] == dct_row(p, q, s, t, 3));
    }
    assert forall|x: int| 0 <= x < 4 implies #[trigger] column_passed(r, c, x) by {
        reveal(dct_column);
        let (p, q, s, t) = (r[x], r[x + 4], r[x + 8], r[x + 12]);
        assert(c[x] == dct_column(p, q, s, t, 0));
        assert(c[x + 4] == dct_column(p, q, s, t, 1));
        assert(c[x + 8] == dct_column(p, q, s, t, 2));
        assert(c[x + 12] == dct_column(p, q, s, t, 3));
    }
    assert(passed(b, r, c));
}

/// The Walsh-Hadamard transform meets its inequalities.
proof fn lemma_signed_sums(b: Seq<i32>)
    requires
        b.len() == 16,
        within(b, 2040),
    ensures
        is_signed_sums(b, wht(b)),
{
    reveal(wht);
    let r = wht_rows(b);
    let c = wht(b);
    lemma_wht_len(b);
    assert forall|n: int| 0 <= n < 16 implies {
        let row = |y: int|
            signed_sum(
                b[4 * y] as int,
                b[4 * y + 1] as int,
                b[4 * y + 2] as int,
                b[4 * y + 3] as int,
                n % 4,
            );
        let sum = signed_sum(row(0), row(1), row(2), row(3), n / 4);
        0 <= 2 * (#[trigger] c[n]) - sum <= 1
    } by {
        let j = n % 4;
        assert forall|y: int| 0 <= y < 4 implies #[trigger] r[4 * y + j] == signed_sum(
            b[4 * y] as int,
            b[4 * y + 1] as int,
            b[4 * y + 2] as int,
            b[4 * y + 3] as int,
            j,
        ) by {
            reveal(wht_row);
            assert(r[4 * y + j] == wht_row(
                b[4 * y],
                b[4 * y + 1],
                b[4 * y + 2],
                b[4 * y + 3],
                j,
            ));
        }
        assert(r[4 * 0 + j] == r[j] && r[4 * 1 + j] == r[j + 4] && r[4 * 2 + j] == r[j + 8] && r[4
            * 3 + j] == r[j + 12]);
        reveal(wht_column);
        assert(c[n] == wht_column(r[j], r[j + 4], r[j + 8], r[j + 12], n / 4));
    }
}

/// A quotient that is rounded towards zero.
pub proof fn lemma_level(c: int, step: int)
    requires
        step > 0,
    ensures
        is_level(c, step, trunc_div(c, step)),
{
    let m = if c >= 0 {
        c
    } else {
        -c
    };
    let q = m / step;
    vstd::arithmetic::div_mod::lemma_fundamental_div_mod(m, step);
    assert(step * q == q * step && (-q) * step == -(q * step)) by (nonlinear_arith);
}

/// The levels of a block.
proof fn lemma_levels_of(block: Seq<i32>, plane: Plane, dc: i16, ac: i16, first: int)
    requires
        block.len() == 16,
        dc > 0,
        ac > 0,
        first == if plane == Plane::YCoeff1 {
            1int
        } else {
            0
        },
    ensures
        are_levels(block, levels(block, plane, dc, ac), dc, ac, first),
{
    let z = levels(block, plane, dc, ac);
    assert forall|n: int| 0 <= n < 16 implies if n < first {
        #[trigger] z[diagonal_position(n)] == 0
    } else {
        is_level(
            block[n] as int,
            if n == 0 {
                dc as int
            } else {
                ac as int
            },
            z[diagonal_position(n)] as int,
        )
    } by {
        let i = diagonal_position(n);
        assert(0 <= i < 16 && ZIGZAG[i] as int == n && (i == 0 <==> n == 0));
        let step = if n == 0 {
            dc as int
        } else {
            ac as int
        };
        lemma_level(block[n] as int, step);
        lemma_trunc_div(block[n] as int, step);
    }
}

/// A luma macroblock that is predicted as a whole.
proof fn lemma_whole_luma_follows(scene: Scene, canvas: Canvas, d: Decision, mbx: int, mby: int)
    requires
        0 <= mbx < scene.mbw,
        0 <= mby,
        d.luma_mode != LumaMode::B,
    ensures
        whole_follows(
            scene.ybuf,
            canvas.y,
            16 * scene.mbw,
            16 * mbx,
            16 * mby,
            4,
            whole_mode(d.luma_mode),
            luma_coeffs(scene, canvas, d, mbx, mby),
        ),
        forall|k: int|
            0 <= k < 16 ==> -2040 <= #[trigger] luma_coeffs(scene, canvas, d, mbx, mby)[16 * k]
                <= 2040,
{
    reveal(luma_coeffs);
    let (w, px, py) = (16 * scene.mbw, 16 * mbx, 16 * mby);
    let mode = whole_mode(d.luma_mode);
    let ws = predicted_luma(scene, canvas, d.luma_mode, mbx, mby);
    let c = luma_coeffs(scene, canvas, d, mbx, mby);
    assert forall|k: int| 0 <= k < 16 implies is_spectrum(
        missed_whole(
            scene.ybuf,
            canvas.y,
            w,
            px,
            py,
            16,
            mode,
            px + 4 * (k % 4),
            py + 4 * (k / 4),
        ),
        #[trigger] block_at(c, k),
    ) by {
        let (dx, dy) = (4 * (k % 4), 4 * (k / 4));
        let (bx, by) = (px + dx, py + dy);
        let m = missed_whole(scene.ybuf, canvas.y, w, px, py, 16, mode, bx, by);
        let b = residual(ws, 21, 1 + dx, 1 + dy, scene.ybuf, w, bx, by);
        lemma_residual_bound(ws, 21, 1 + dx, 1 + dy, scene.ybuf, w, bx, by);
        assert forall|n: int| 0 <= n < 16 implies #[trigger] b[n] == m[n] by {
            lemma_luma_foretold(scene.mbw, canvas.y, mode, mbx, mby, dx + n % 4, dy + n / 4);
            assert((1 + dy + n / 4) * 21 + (1 + dx + n % 4) == (dy + n / 4 + 1) * 21 + (dx + n % 4
                + 1));
            assert((by + n / 4) * w + (bx + n % 4) == (py + (dy + n / 4)) * w + (px + (dx + n
                % 4)));
        }
        assert(b =~= m);
        lemma_spectrum(b);
        lemma_dct_len(b);
        assert(dct(b) == luma_block(scene, ws, mbx, mby, k));
        assert forall|i: int| 0 <= i < 16 implies #[trigger] block_at(c, k)[i] == dct(b)[i] by {
            assert((k * 16 + i) / 16 == k && (k * 16 + i) % 16 == i);
        }
        assert(block_at(c, k) =~= dct(b));
    }
    assert forall|k: int| 0 <= k < 16 implies -2040 <= #[trigger] c[16 * k] <= 2040 by {
        let (dx, dy) = (4 * (k % 4), 4 * (k / 4));
        let b = residual(ws, 21, 1 + dx, 1 + dy, scene.ybuf, w, px + dx, py + dy);
        lemma_residual_bound(ws, 21, 1 + dx, 1 + dy, scene.ybuf, w, px + dx, py + dy);
        lemma_dct_bound(b);
        assert(dct(b) == luma_block(scene, ws, mbx, mby, k));
        assert((16 * k) / 16 == k && (16 * k) % 16 == 0);
        assert(c[16 * k] == dct(b)[0]);
    }
}

/// A chroma macroblock.
proof fn lemma_chroma_follows(
    scene: Scene,
    source: Seq<u8>,
    plane: Seq<u8>,
    d: Decision,
    mbx: int,
    mby: int,
)
    requires
        0 <= mbx < scene.mbw,
        0 <= mby,
    ensures
        whole_follows(
            source,
            plane,
            8 * scene.mbw,
            8 * mbx,
            8 * mby,
            2,
            d.chroma_mode,
            chroma_coeffs(scene, source, plane, d, mbx, mby),
        ),
{
    reveal(chroma_coeffs);
    let (w, px, py) = (8 * scene.mbw, 8 * mbx, 8 * mby);
    let mode = d.chroma_mode;
    let ws = predicted_chroma(scene, plane, mode, mbx, mby);
    let c = chroma_coeffs(scene, source, plane, d, mbx, mby);
    assert forall|k: int| 0 <= k < 2 * 2 implies is_spectrum(
        missed_whole(
            source,
            plane,
            w,
            px,
            py,
            8,
            mode,
            px + 4 * (k % 2),
            py + 4 * (k / 2),
        ),
        #[trigger] block_at(c, k),
    ) by {
        let (dx, dy) = (4 * (k % 2), 4 * (k / 2));
        let (bx, by) = (px + dx, py + dy);
        let m = missed_whole(source, plane, w, px, py, 8, mode, bx, by);
        let b = residual(ws, 9, 1 + dx, 1 + dy, source, w, bx, by);
        lemma_residual_bound(ws, 9, 1 + dx, 1 + dy, source, w, bx, by);
        assert forall|n: int| 0 <= n < 16 implies #[trigger] b[n] == m[n] by {
            lemma_chroma_foretold(scene.mbw, plane, mode, mbx, mby, dx + n % 4, dy + n / 4);
            assert((1 + dy + n / 4) * 9 + (1 + dx + n % 4) == (dy + n / 4 + 1) * 9 + (dx + n % 4
                + 1));
            assert((by + n / 4) * w + (bx + n % 4) == (py + (dy + n / 4)) * w + (px + (dx + n
                % 4)));
        }
        assert(b =~= m);
        lemma_spectrum(b);
        lemma_dct_len(b);
        assert(dct(b) == chroma_block(scene.mbw, source, ws, mbx, mby, k));
        assert forall|i: int| 0 <= i < 16 implies #[trigger] block_at(c, k)[i] == dct(b)[i] by {
            assert((k * 16 + i) / 16 == k && (k * 16 + i) % 16 == i);
        }
        assert(block_at(c, k) =~= dct(b));
    }
}

/// A luma macroblock that is predicted by sub-blocks.
proof fn lemma_subblocks_follow(
    scene: Scene,
    canvas: Canvas,
    d: Decision,
    segment: Segment,
    z: Levels,
    mbx: int,
    mby: int,
)
    requires
        0 <= mbx < scene.mbw,
        0 <= mby,
        d.luma_mode == LumaMode::B,
        segment == segment_for(scene.segments, d.segment_id),
        z == coded_levels(d.luma_mode, segment, coeffs_of(scene, canvas, d, mbx, mby)),
    ensures
        subblocks_follow(
            scene.ybuf,
            canvas.y,
            16 * scene.mbw,
            16 * mbx,
            16 * mby,
            d,
            z,
            segment,
            luma_coeffs(scene, canvas, d, mbx, mby),
        ),
{
    reveal(luma_coeffs);
    let (w, px, py) = (16 * scene.mbw, 16 * mbx, 16 * mby);
    let modes = d.luma_bpred.unwrap();
    let c = luma_coeffs(scene, canvas, d, mbx, mby);
    assert forall|k: int| 0 <= k < 16 implies {
        let t = shown_subblocks(tile(canvas.y, w, px, py), modes, z.y, segment, k);
        is_spectrum(
            missed_small(
                scene.ybuf,
                w,
                px + 4 * (k % 4),
                py + 4 * (k / 4),
                edge_line(t, k),
                modes[k],
            ),
            #[trigger] block_at(c, k),
        )
    } by {
        let t = shown_subblocks(tile(canvas.y, w, px, py), modes, z.y, segment, k);
        let ws = restored_subblocks(scene, canvas, modes, segment, mbx, mby, k);
        lemma_decoded_subblocks(scene, canvas, modes, segment, mbx, mby, z.y, k);
        lemma_subblocks(scene.mbw, canvas, modes, z.y, segment, mbx, mby, k);
        assert(t == ws);
        lemma_sub_block(scene, canvas, modes, segment, mbx, mby, k);
        let predicted = sub_predicted(ws, modes[k], k);
        let b = sub_residual(scene, predicted, mbx, mby, k);
        let m = missed_small(
            scene.ybuf,
            w,
            px + 4 * (k % 4),
            py + 4 * (k / 4),
            edge_line(t, k),
            modes[k],
        );
        assert forall|n: int| 0 <= n < 16 implies #[trigger] b[n] == m[n] by {
            lemma_small(t, modes[k], k, n % 4, n / 4);
            assert(4 * (n / 4) + n % 4 == n);
            assert((mby * 16 + (k / 4) * 4 + n / 4) * (scene.mbw * 16) + (mbx * 16 + (k % 4) * 4 + n
                % 4) == (py + 4 * (k / 4) + n / 4) * w + (px + 4 * (k % 4) + n % 4));
        }
        assert(b =~= m);
        assert(within(b, 255));
        lemma_spectrum(b);
    }
}

/// The levels that the encoder codes with a decision say how the source differs
/// from what a decoder foretells with it.
pub proof fn law_levels_follow_the_decision(
    scene: Scene,
    canvas: Canvas,
    d: Decision,
    mbx: int,
    mby: int,
)
    requires
        scene.wf(),
        d.wf(),
        d.segment_id is Some,
        0 <= mbx < scene.mbw,
        0 <= mby,
    ensures
        ({
            let segment = scene.segments[d.segment_id.unwrap() as int];
            let c = coeffs_of(scene, canvas, d, mbx, mby);
            levels_follow(
                scene,
                canvas,
                d,
                mbx,
                mby,
                segment,
                coded_levels(d.luma_mode, segment, c),
                c.y,
                c.u,
                c.v,
            )
        }),
{
    let segment = scene.segments[d.segment_id.unwrap() as int];
    assert(segment.wf());
    let c = coeffs_of(scene, canvas, d, mbx, mby);
    let z = coded_levels(d.luma_mode, segment, c);
    lemma_chroma_follows(scene, scene.ubuf, canvas.u, d, mbx, mby);
    lemma_chroma_follows(scene, scene.vbuf, canvas.v, d, mbx, mby);
    assert forall|k: int| 0 <= k < 4 implies are_levels(
        #[trigger] block_at(c.u, k),
        z.u[k],
        segment.uvdc,
        segment.uvac,
        0,
    ) by {
        lemma_levels_of(block_at(c.u, k), Plane::Chroma, segment.uvdc, segment.uvac, 0);
        assert(z.u[k] == plane_levels(c.u, Plane::Chroma, segment.uvdc, segment.uvac, k));
    }
    assert forall|k: int| 0 <= k < 4 implies are_levels(
        #[trigger] block_at(c.v, k),
        z.v[k],
        segment.uvdc,
        segment.uvac,
        0,
    ) by {
        lemma_levels_of(block_at(c.v, k), Plane::Chroma, segment.uvdc, segment.uvac, 0);
        assert(z.v[k] == plane_levels(c.v, Plane::Chroma, segment.uvdc, segment.uvac, k));
    }
    let first = if d.luma_mode == LumaMode::B {
        0int
    } else {
        1
    };
    assert forall|k: int| 0 <= k < 16 implies are_levels(
        #[trigger] block_at(c.y, k),
        z.y[k],
        segment.ydc,
        segment.yac,
        first,
    ) by {
        let plane = luma_plane_of(d.luma_mode);
        lemma_levels_of(block_at(c.y, k), plane, segment.ydc, segment.yac, first);
        assert(z.y[k] == plane_levels(c.y, plane, segment.ydc, segment.yac, k));
    }
    if d.luma_mode == LumaMode::B {
        lemma_subblocks_follow(scene, canvas, d, segment, z, mbx, mby);
    } else {
        lemma_whole_luma_follows(scene, canvas, d, mbx, mby);
        let dcs = every_sixteenth(c.y);
        assert(dcs =~= coeffs0(c.y));
        assert(within(dcs, 2040));
        lemma_signed_sums(dcs);
        lemma_wht_len(dcs);
        lemma_levels_of(wht(dcs), Plane::Y2, segment.y2dc, segment.y2ac, 0);
        assert(z.y2 == dc_levels(c.y, segment));
        assert(is_signed_sums(dcs, wht(dcs)));
    }
}

/// The levels that are coded for macroblock `i` of an image say how the source
/// differs from what a decoder foretells there.
pub proof fn law_levels_follow_the_source(image: Image, i: int)
    requires
        image.wf(),
        0 <= i < image.count(),
    ensures
        ({
            let scene = image.scene();
            let ds = image.decisions();
            let (mbx, mby) = (i % scene.mbw, i / scene.mbw);
            let canvas = replay(scene, image.start(), ds, i).canvas;
            let segment = scene.segments[scene.ids[i] as int];
            let c = coeffs_at(scene, image.start(), ds, i);
            levels_follow(
                scene,
                canvas,
                ds[i],
                mbx,
                mby,
                segment,
                coded_levels(ds[i].luma_mode, segment, c),
                c.y,
                c.u,
                c.v,
            )
        }),
{
    let scene = image.scene();
    let ds = image.decisions();
    let (mbx, mby) = (i % scene.mbw, i / scene.mbw);
    let w = replay(scene, image.start(), ds, i);
    lemma_scene_wf(image);
    lemma_decision(image, i);
    lemma_decision_plain(scene, w.canvas, row_modes(w.modes, mbx), mbx, mby);
    assert(mby * scene.mbw + mbx == i) by {
        vstd::arithmetic::div_mod::lemma_fundamental_div_mod(i, scene.mbw);
        assert(scene.mbw * mby == mby * scene.mbw) by (nonlinear_arith);
    }
    law_levels_follow_the_decision(scene, w.canvas, ds[i], mbx, mby);
}

} // verus!
