//! Why the encoder chooses the modes that it chooses.
//!
//! What a mode costs is said of what a decoder would show with it: how far that
//! is from the source, and how large the numbers are that it takes.
use vstd::prelude::*;

use crate::binary64::Dyadic;
use crate::blocks::{fits, placed, sse};
use crate::common::{ChromaMode, LumaMode, Plane, Segment};
use crate::cost::{lagrangian, lambda_of, rate_of};
use crate::decoding::{
    coding_position, coeffs_of, lemma_decoded_macroblock, lemma_raster, lemma_raster_chroma,
    lemma_raster_luma, raster, raster_all,
};
use crate::model::{
    chroma_coeffs, chroma_restored, chroma_trial, luma_coeffs, luma_restored, luma_trial, painted,
    segment_for, trial_cost, Canvas, Decision, Scene,
};
use crate::playback::{lemma_differences, lemma_restored_whole, lemma_shown_macroblock};
use crate::prediction::{lemma_inside, lemma_position};
use crate::quantize::{coeffs0, luma_residue, y2_levels, y2_restored, y_levels};
use crate::residual_reading::{coded_levels, Levels};
use crate::segments::lemma_macroblock_fits;
use crate::transform::{iwht, lemma_wht_len, wht};
use crate::viewing::{
    dc_parts, diagonal_position, differences, restored_block, restored_whole, shown_macroblock,
};

verus! {

/// Squared differences of two planes, over the first `n` pixels of the block at
/// `px`, `py` that is `size` wide.
pub open spec fn block_error(
    a: Seq<u8>,
    b: Seq<u8>,
    w: int,
    px: int,
    py: int,
    size: int,
    n: int,
) -> int
    decreases n,
{
    if n <= 0 {
        0
    } else {
        let p = (py + (n - 1) / size) * w + px + (n - 1) % size;
        block_error(a, b, w, px, py, size, n - 1) + (a[p] - b[p]) * (a[p] - b[p])
    }
}

/// One for each number that is not zero, and its magnitude, over the first `n`.
pub open spec fn total_size(s: Seq<i32>, n: int) -> int
    decreases n,
{
    if n <= 0 {
        0
    } else {
        let c = s[n - 1] as int;
        total_size(s, n - 1) + if c > 0 {
            c + 1
        } else if c < 0 {
            1 - c
        } else {
            0
        }
    }
}

/// Distortion and rate in one number: the rate is weighed with 0.02 times the
/// square of the quantiser step.
pub open spec fn weighed(distortion: int, rate: Dyadic, step: i16) -> Dyadic {
    let factor = Dyadic::of_bits(0x3F94_7AE1_47AE_147B).times(Dyadic::of(step as nat)).times(
        Dyadic::of(step as nat),
    );
    Dyadic::of(distortion as nat).plus(factor.times(rate))
}

/// A decision to use `luma` for a macroblock as a whole, and `chroma`.
pub open spec fn whole_decision(luma: LumaMode, chroma: ChromaMode, id: u8) -> Decision {
    Decision {
        luma_mode: luma,
        luma_bpred: None,
        chroma_mode: chroma,
        segment_id: Some(id as usize),
        coeffs_skipped: false,
        non_zero_dct: false,
    }
}

/// The levels that the encoder codes with a decision.
pub open spec fn tried_levels(
    scene: Scene,
    canvas: Canvas,
    d: Decision,
    segment: Segment,
    mbx: int,
    mby: int,
) -> Levels {
    coded_levels(d.luma_mode, segment, coeffs_of(scene, canvas, d, mbx, mby))
}

/// What a decoder shows with a decision.
pub open spec fn tried(
    scene: Scene,
    canvas: Canvas,
    d: Decision,
    segment: Segment,
    mbx: int,
    mby: int,
) -> Canvas {
    shown_macroblock(
        scene.mbw,
        canvas,
        d,
        tried_levels(scene, canvas, d, segment, mbx, mby),
        segment,
        mbx,
        mby,
    )
}

/// The DC coefficients that levels stand for.
pub open spec fn all_dcs(z: Levels, segment: Segment) -> Seq<i32> {
    Seq::new(16, |k: int| dc_parts(restored_block(z.y2, segment.y2dc, segment.y2ac), k))
}

/// The luma differences that levels stand for, block by block.
pub open spec fn all_differences(z: Levels, segment: Segment) -> Seq<i32> {
    Seq::new(256, |n: int| differences(restored_whole(z, segment, n / 16), n % 16))
}

/// The levels of the blocks of a plane, each block in rows.
pub open spec fn all_levels(zs: Seq<Seq<i32>>) -> Seq<i32> {
    Seq::new(64, |n: int| zs[n / 16][diagonal_position(n % 16)])
}

/// Cost of predicting the luma of a macroblock as a whole.
pub open spec fn whole_cost(
    scene: Scene,
    canvas: Canvas,
    mode: LumaMode,
    id: u8,
    mbx: int,
    mby: int,
) -> Dyadic {
    let segment = scene.segments[id as int];
    let d = whole_decision(mode, ChromaMode::DC, id);
    let z = tried_levels(scene, canvas, d, segment, mbx, mby);
    weighed(
        block_error(
            tried(scene, canvas, d, segment, mbx, mby).y,
            scene.ybuf,
            16 * scene.mbw,
            16 * mbx,
            16 * mby,
            16,
            256,
        ),
        Dyadic::of(
            (total_size(all_dcs(z, segment), 16) + total_size(
                all_differences(z, segment),
                256,
            )) as nat,
        ),
        segment.yac,
    )
}

/// Cost of predicting the chroma of a macroblock.
pub open spec fn chroma_cost(
    scene: Scene,
    canvas: Canvas,
    mode: ChromaMode,
    id: u8,
    mbx: int,
    mby: int,
) -> Dyadic {
    let segment = scene.segments[id as int];
    let d = whole_decision(LumaMode::DC, mode, id);
    let z = tried_levels(scene, canvas, d, segment, mbx, mby);
    let shown = tried(scene, canvas, d, segment, mbx, mby);
    let (w, px, py) = (8 * scene.mbw, 8 * mbx, 8 * mby);
    weighed(
        block_error(shown.u, scene.ubuf, w, px, py, 8, 64) + block_error(
            shown.v,
            scene.vbuf,
            w,
            px,
            py,
            8,
            64,
        ),
        Dyadic::of(
            (total_size(all_levels(z.u), 64) + total_size(all_levels(z.v), 64)) as nat,
        ),
        segment.yac,
    )
}

/// The error of a macroblock in its plane.
proof fn lemma_block_error(
    plane: Seq<u8>,
    src: Seq<u8>,
    ws: Seq<u8>,
    w: int,
    px: int,
    py: int,
    size: int,
    stride: int,
    n: int,
)
    requires
        size == 16 && stride == 21 || size == 8 && stride == 9,
        fits(plane.len() as int, w, px, py, size),
        0 <= n <= size * size,
    ensures
        sse(ws, size, stride, src, w, px, py, n) == block_error(
            placed(plane, w, px, py, ws, size, stride),
            src,
            w,
            px,
            py,
            size,
            n,
        ),
    decreases n,
{
    if n > 0 {
        lemma_block_error(plane, src, ws, w, px, py, size, stride, n - 1);
        let (row, col) = ((n - 1) / size, (n - 1) % size);
        assert(0 <= row < size && 0 <= col < size) by {
            if size == 16 {
                assert(0 <= (n - 1) / 16 < 16 && 0 <= (n - 1) % 16 < 16);
            } else {
                assert(0 <= (n - 1) / 8 < 8 && 0 <= (n - 1) % 8 < 8);
            }
        }
        lemma_position(px + col, py + row, w);
        lemma_inside(px + col, py + row, w, py + size, plane.len() as int);
        let p = (py + row) * w + px + col;
        assert(p == (py + row) * w + (px + col));
        assert(placed(plane, w, px, py, ws, size, stride)[p] == ws[(row + 1) * stride + (col + 1)]);
    }
}

/// Rates are sizes.
pub proof fn lemma_rate(s: Seq<i32>, n: int)
    requires
        0 <= n <= s.len(),
    ensures
        rate_of(s.take(n)) == total_size(s, n),
    decreases n,
{
    if n > 0 {
        lemma_rate(s, n - 1);
        assert(s.take(n).drop_last() =~= s.take(n - 1));
        assert(s.take(n).last() == s[n - 1]);
    }
}

/// What a decoder shows is what the encoder would paint.
proof fn lemma_tried(scene: Scene, canvas: Canvas, d: Decision, mbx: int, mby: int)
    requires
        d.wf(),
        0 <= mbx < scene.mbw,
        0 <= mby,
    ensures
        tried(scene, canvas, d, segment_for(scene.segments, d.segment_id), mbx, mby) == painted(
            scene,
            canvas,
            d,
            mbx,
            mby,
        ),
{
    let segment = segment_for(scene.segments, d.segment_id);
    let z = tried_levels(scene, canvas, d, segment, mbx, mby);
    lemma_shown_macroblock(scene.mbw, canvas, d, z, segment, mbx, mby);
    lemma_decoded_macroblock(scene, canvas, d, mbx, mby);
}

/// Sixteen DC coefficients are restored.
proof fn lemma_iwht_len(y2: Seq<i32>, segment: Segment)
    ensures
        y2_restored(y2, segment).len() == 16,
{
    reveal(iwht);
}

/// The cost of a whole luma mode.
pub proof fn lemma_whole_cost(
    scene: Scene,
    canvas: Canvas,
    mode: LumaMode,
    id: u8,
    mbx: int,
    mby: int,
)
    requires
        scene.wf(),
        canvas.wf(scene.mbw, scene.mbh),
        mode != LumaMode::B,
        id < 4,
        0 <= mbx < scene.mbw,
        0 <= mby < scene.mbh,
    ensures
        trial_cost(
            luma_trial(scene, canvas, mode, scene.segments[id as int], mbx, mby),
            lambda_of(scene.segments[id as int].yac),
        ) == whole_cost(scene, canvas, mode, id, mbx, mby),
{
    reveal(luma_trial);
    reveal(lagrangian);
    reveal(lambda_of);
    reveal(painted);
    reveal(luma_coeffs);
    let segment = scene.segments[id as int];
    let d = whole_decision(mode, ChromaMode::DC, id);
    let z = tried_levels(scene, canvas, d, segment, mbx, mby);
    assert(segment_for(scene.segments, d.segment_id) == segment);
    lemma_tried(scene, canvas, d, mbx, mby);
    let c = luma_coeffs(scene, canvas, d, mbx, mby);
    lemma_macroblock_fits(mbx, mby, scene.mbw, scene.mbh, 16);
    lemma_block_error(
        canvas.y,
        scene.ybuf,
        luma_restored(scene, canvas, d, mbx, mby),
        scene.mbw * 16,
        mbx * 16,
        mby * 16,
        16,
        21,
        256,
    );
    lemma_wht_len(coeffs0(c));
    lemma_raster(wht(coeffs0(c)), Plane::Y2, segment.y2dc, segment.y2ac);
    lemma_raster_luma(c, segment, z.y);
    let (y2, y) = (y2_levels(c, segment), y_levels(c, segment));
    assert(raster(z.y2) == y2 && raster_all(z.y) == y);
    let dc = y2_restored(y2, segment);
    let residue = luma_residue(y2, y, segment);
    lemma_iwht_len(y2, segment);
    assert forall|k: int| 0 <= k < 16 implies #[trigger] dc[k] == all_dcs(z, segment)[k] by {
        lemma_restored_whole(z, segment, k);
    }
    assert(dc =~= all_dcs(z, segment));
    assert forall|n: int| 0 <= n < 256 implies #[trigger] residue[n] == all_differences(
        z,
        segment,
    )[n] by {
        lemma_restored_whole(z, segment, n / 16);
        lemma_differences(restored_whole(z, segment, n / 16), n % 16);
    }
    assert(residue =~= all_differences(z, segment));
    lemma_rate(dc, 16);
    lemma_rate(residue, 256);
    assert(dc.take(16) =~= dc && residue.take(256) =~= residue);
}

/// The cost of a chroma mode.
pub proof fn lemma_chroma_cost(
    scene: Scene,
    canvas: Canvas,
    mode: ChromaMode,
    id: u8,
    mbx: int,
    mby: int,
)
    requires
        scene.wf(),
        canvas.wf(scene.mbw, scene.mbh),
        id < 4,
        0 <= mbx < scene.mbw,
        0 <= mby < scene.mbh,
    ensures
        trial_cost(
            chroma_trial(scene, canvas, mode, scene.segments[id as int], mbx, mby),
            lambda_of(scene.segments[id as int].yac),
        ) == chroma_cost(scene, canvas, mode, id, mbx, mby),
{
    reveal(chroma_trial);
    reveal(lagrangian);
    reveal(lambda_of);
    reveal(painted);
    reveal(chroma_coeffs);
    let segment = scene.segments[id as int];
    let d = whole_decision(LumaMode::DC, mode, id);
    let z = tried_levels(scene, canvas, d, segment, mbx, mby);
    assert(segment_for(scene.segments, d.segment_id) == segment);
    lemma_tried(scene, canvas, d, mbx, mby);
    lemma_macroblock_fits(mbx, mby, scene.mbw, scene.mbh, 8);
    let (w, px, py) = (scene.mbw * 8, mbx * 8, mby * 8);
    let ru = chroma_restored(scene, scene.ubuf, canvas.u, d, mbx, mby);
    let rv = chroma_restored(scene, scene.vbuf, canvas.v, d, mbx, mby);
    lemma_block_error(canvas.u, scene.ubuf, ru, w, px, py, 8, 9, 64);
    lemma_block_error(canvas.v, scene.vbuf, rv, w, px, py, 8, 9, 64);
    let u = chroma_coeffs(scene, scene.ubuf, canvas.u, d, mbx, mby);
    let v = chroma_coeffs(scene, scene.vbuf, canvas.v, d, mbx, mby);
    lemma_raster_chroma(u, segment.uvdc, segment.uvac, z.u);
    lemma_raster_chroma(v, segment.uvdc, segment.uvac, z.v);
    lemma_all_levels(z.u);
    lemma_all_levels(z.v);
    let (lu, lv) = (all_levels(z.u), all_levels(z.v));
    lemma_rate(lu, 64);
    lemma_rate(lv, 64);
    assert(lu.take(64) =~= lu && lv.take(64) =~= lv);
}

proof fn lemma_all_levels(zs: Seq<Seq<i32>>)
    requires
        zs.len() == 4,
    ensures
        raster_all(zs) == all_levels(zs),
{
    assert forall|n: int| 0 <= n < 64 implies #[trigger] raster_all(zs)[n] == all_levels(
        zs,
    )[n] by {
        assert(coding_position(n % 16) == diagonal_position(n % 16));
    }
    assert(raster_all(zs) =~= all_levels(zs));
}

} // verus!
