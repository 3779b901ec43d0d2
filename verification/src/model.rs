//! What encoding a macroblock means.
//!
//! The functions here describe, on mathematical values, how a macroblock is
//! predicted, how its modes are chosen, what its coefficients are and what a
//! decoder reconstructs from them.
use vstd::prelude::*;

use crate::binary64::Dyadic;
use crate::blocks::{added, placed, residual, sse, with_residue, with_subblock};
use crate::common::{ChromaMode, IntraMode, LumaMode, Segment};
use crate::cost::{bpred_mode_cost, lagrangian, lambda_of, rate_of};
use crate::prediction::{
    chroma_border, luma_border, subblock_prediction, whole_prediction,
};
use crate::quantize::{
    any_nonzero, block_at, chroma_residue, luma_nonzero, luma_residue, quantized, scaled,
    y2_levels, y2_restored, y_levels,
};
use crate::transform::{dct, idct};

verus! {

/// What stays the same while a frame is encoded: its size in macroblocks, the
/// source planes, the segments and the segment of each macroblock.
pub struct Scene {
    pub mbw: int,
    pub mbh: int,
    pub ybuf: Seq<u8>,
    pub ubuf: Seq<u8>,
    pub vbuf: Seq<u8>,
    pub segments: Seq<Segment>,
    pub ids: Seq<u8>,
}

impl Scene {
    pub open spec fn wf(self) -> bool {
        &&& 0 <= self.mbw <= 4095
        &&& 0 <= self.mbh <= 4096
        &&& self.ybuf.len() == (self.mbw * 16) * (self.mbh * 16)
        &&& self.ubuf.len() == (self.mbw * 8) * (self.mbh * 8)
        &&& self.vbuf.len() == (self.mbw * 8) * (self.mbh * 8)
        &&& self.segments.len() == 4
        &&& forall|i: int| 0 <= i < 4 ==> (#[trigger] self.segments[i]).wf()
        &&& self.ids.len() == self.mbw * self.mbh
        &&& forall|i: int| 0 <= i < self.ids.len() ==> #[trigger] self.ids[i] < 4
    }
}

/// The pixels reconstructed so far.
#[verifier::ext_equal]
pub struct Canvas {
    pub y: Seq<u8>,
    pub u: Seq<u8>,
    pub v: Seq<u8>,
}

impl Canvas {
    /// Planes for a frame of `mbw` by `mbh` macroblocks.
    pub open spec fn wf(self, mbw: int, mbh: int) -> bool {
        &&& self.y.len() == (mbw * 16) * (mbh * 16)
        &&& self.u.len() == (mbw * 8) * (mbh * 8)
        &&& self.v.len() == (mbw * 8) * (mbh * 8)
    }

    /// Planes of zeros.
    pub open spec fn blank(mbw: int, mbh: int) -> Canvas {
        Canvas {
            y: Seq::new(((mbw * 16) * (mbh * 16)) as nat, |n: int| 0u8),
            u: Seq::new(((mbw * 8) * (mbh * 8)) as nat, |n: int| 0u8),
            v: Seq::new(((mbw * 8) * (mbh * 8)) as nat, |n: int| 0u8),
        }
    }
}

/// Sub-block modes next to the current macroblock: four above each macroblock
/// column, and four to the left.
#[verifier::ext_equal]
pub struct Modes {
    pub top: Seq<IntraMode>,
    pub left: Seq<IntraMode>,
}

/// Modes and flags of a macroblock.
#[verifier::ext_equal]
pub struct Decision {
    pub luma_mode: LumaMode,
    pub luma_bpred: Option<Seq<IntraMode>>,
    pub chroma_mode: ChromaMode,
    pub segment_id: Option<usize>,
    pub coeffs_skipped: bool,
    pub non_zero_dct: bool,
}

impl Decision {
    /// A macroblock predicted by sub-blocks has a mode for each of them, and a
    /// segment exists.
    pub open spec fn wf(self) -> bool {
        &&& self.luma_mode == LumaMode::B ==> self.luma_bpred is Some
        &&& self.luma_bpred is Some ==> self.luma_bpred.unwrap().len() == 16
        &&& self.segment_id is Some ==> self.segment_id.unwrap() < 4
    }
}

/// Segment with a given id; the first if there is none.
pub open spec fn segment_for(segments: Seq<Segment>, id: Option<usize>) -> Segment {
    match id {
        Some(i) => segments[i as int],
        None => segments[0],
    }
}

/// Prediction mode of a whole block for a luma mode other than `B`.
pub open spec fn whole_mode(mode: LumaMode) -> ChromaMode {
    match mode {
        LumaMode::V => ChromaMode::V,
        LumaMode::H => ChromaMode::H,
        LumaMode::TM => ChromaMode::TM,
        _ => ChromaMode::DC,
    }
}

/// A luma macroblock predicted as a whole, with its border.
pub open spec fn predicted_luma(
    scene: Scene,
    canvas: Canvas,
    mode: LumaMode,
    mbx: int,
    mby: int,
) -> Seq<u8> {
    whole_prediction(
        luma_border(mbx, mby, scene.mbw, canvas.y),
        16,
        21,
        whole_mode(mode),
        mby != 0,
        mbx != 0,
    )
}

/// A chroma macroblock predicted as a whole, with its border.
pub open spec fn predicted_chroma(
    scene: Scene,
    plane: Seq<u8>,
    mode: ChromaMode,
    mbx: int,
    mby: int,
) -> Seq<u8> {
    whole_prediction(
        chroma_border(mbx, mby, scene.mbw, plane),
        8,
        9,
        mode,
        mby != 0,
        mbx != 0,
    )
}

/// Transformed difference of luma block `k` from its prediction.
pub open spec fn luma_block(scene: Scene, ws: Seq<u8>, mbx: int, mby: int, k: int) -> Seq<i32> {
    dct(
        residual(
            ws,
            21,
            1 + (k % 4) * 4,
            1 + (k / 4) * 4,
            scene.ybuf,
            scene.mbw * 16,
            mbx * 16 + (k % 4) * 4,
            mby * 16 + (k / 4) * 4,
        ),
    )
}

/// Coefficients of a luma macroblock that is predicted as a whole.
pub open spec fn luma_blocks(scene: Scene, ws: Seq<u8>, mbx: int, mby: int) -> Seq<i32> {
    Seq::new(256, |n: int| luma_block(scene, ws, mbx, mby, n / 16)[n % 16])
}

/// Transformed difference of chroma block `k` from its prediction.
pub open spec fn chroma_block(
    mbw: int,
    src: Seq<u8>,
    ws: Seq<u8>,
    mbx: int,
    mby: int,
    k: int,
) -> Seq<i32> {
    dct(
        residual(
            ws,
            9,
            1 + (k % 2) * 4,
            1 + (k / 2) * 4,
            src,
            mbw * 8,
            mbx * 8 + (k % 2) * 4,
            mby * 8 + (k / 2) * 4,
        ),
    )
}

/// Coefficients of a chroma macroblock.
pub open spec fn chroma_blocks(
    mbw: int,
    src: Seq<u8>,
    ws: Seq<u8>,
    mbx: int,
    mby: int,
) -> Seq<i32> {
    Seq::new(64, |n: int| chroma_block(mbw, src, ws, mbx, mby, n / 16)[n % 16])
}

/// A luma macroblock predicted as a whole, as a decoder reconstructs it.
pub open spec fn restored_luma(
    scene: Scene,
    ws: Seq<u8>,
    segment: Segment,
    mbx: int,
    mby: int,
) -> Seq<u8> {
    let blocks = luma_blocks(scene, ws, mbx, mby);
    with_residue(
        ws,
        luma_residue(y2_levels(blocks, segment), y_levels(blocks, segment), segment),
        16,
        21,
    )
}

/// A chroma macroblock as a decoder reconstructs it.
pub open spec fn restored_chroma(
    mbw: int,
    src: Seq<u8>,
    ws: Seq<u8>,
    segment: Segment,
    mbx: int,
    mby: int,
) -> Seq<u8> {
    let blocks = chroma_blocks(mbw, src, ws, mbx, mby);
    with_residue(
        ws,
        chroma_residue(quantized(blocks, segment.uvdc, segment.uvac), segment),
        8,
        9,
    )
}

/// Difference of the source from the prediction of luma sub-block `k`.
pub open spec fn sub_residual(
    scene: Scene,
    predicted: Seq<u8>,
    mbx: int,
    mby: int,
    k: int,
) -> Seq<i32> {
    Seq::new(
        16,
        |i: int| (sub_source(scene, mbx, mby, k, i) - predicted[i]) as i32,
    )
}

/// Source pixel `i` of luma sub-block `k`.
pub open spec fn sub_source(scene: Scene, mbx: int, mby: int, k: int, i: int) -> u8 {
    scene.ybuf[(mby * 16 + (k / 4) * 4 + i / 4) * (scene.mbw * 16) + (mbx * 16 + (k % 4) * 4 + i
        % 4)]
}

/// Prediction of luma sub-block `k`.
pub open spec fn sub_predicted(ws: Seq<u8>, mode: IntraMode, k: int) -> Seq<u8> {
    subblock_prediction(ws, mode, 1 + (k % 4) * 4, 1 + (k / 4) * 4)
}

/// Coefficients of luma sub-block `k`.
pub open spec fn sub_coeffs(
    scene: Scene,
    ws: Seq<u8>,
    mode: IntraMode,
    mbx: int,
    mby: int,
    k: int,
) -> Seq<i32> {
    dct(sub_residual(scene, sub_predicted(ws, mode, k), mbx, mby, k))
}

/// Levels of luma sub-block `k`.
#[verifier::opaque]
pub open spec fn sub_levels(
    scene: Scene,
    ws: Seq<u8>,
    mode: IntraMode,
    segment: Segment,
    mbx: int,
    mby: int,
    k: int,
) -> Seq<i32> {
    quantized(sub_coeffs(scene, ws, mode, mbx, mby, k), segment.ydc, segment.yac)
}

/// Luma sub-block `k` as a decoder reconstructs it.
#[verifier::opaque]
pub open spec fn sub_restored(
    scene: Scene,
    ws: Seq<u8>,
    mode: IntraMode,
    segment: Segment,
    mbx: int,
    mby: int,
    k: int,
) -> Seq<u8> {
    let levels = sub_levels(scene, ws, mode, segment, mbx, mby, k);
    added(sub_predicted(ws, mode, k), idct(scaled(levels, segment.ydc, segment.yac)))
}

/// A bordered luma macroblock with sub-block `k` reconstructed.
pub open spec fn with_sub_restored(
    scene: Scene,
    ws: Seq<u8>,
    mode: IntraMode,
    segment: Segment,
    mbx: int,
    mby: int,
    k: int,
) -> Seq<u8> {
    with_subblock(
        ws,
        sub_restored(scene, ws, mode, segment, mbx, mby, k),
        1 + (k % 4) * 4,
        1 + (k / 4) * 4,
    )
}

/// A bordered luma macroblock with the first `k` sub-blocks reconstructed.
pub open spec fn restored_subblocks(
    scene: Scene,
    canvas: Canvas,
    modes: Seq<IntraMode>,
    segment: Segment,
    mbx: int,
    mby: int,
    k: int,
) -> Seq<u8>
    decreases k,
{
    if k <= 0 {
        luma_border(mbx, mby, scene.mbw, canvas.y)
    } else {
        with_sub_restored(
            scene,
            restored_subblocks(scene, canvas, modes, segment, mbx, mby, k - 1),
            modes[k - 1],
            segment,
            mbx,
            mby,
            k - 1,
        )
    }
}

/// Coefficients of a luma macroblock that is predicted by sub-blocks.
pub open spec fn subblock_coeffs(
    scene: Scene,
    canvas: Canvas,
    modes: Seq<IntraMode>,
    segment: Segment,
    mbx: int,
    mby: int,
) -> Seq<i32> {
    Seq::new(
        256,
        |n: int|
            sub_coeffs(
                scene,
                restored_subblocks(scene, canvas, modes, segment, mbx, mby, n / 16),
                modes[n / 16],
                mbx,
                mby,
                n / 16,
            )[n % 16],
    )
}

/// Index of the smallest of the first `k` costs, the first if there are several.
pub open spec fn cheapest(costs: Seq<Dyadic>, k: int) -> int
    decreases k,
{
    if k <= 1 {
        0
    } else {
        let best = cheapest(costs, k - 1);
        if costs[k - 1].less(costs[best]) {
            k - 1
        } else {
            best
        }
    }
}

/// The whole-macroblock luma modes, in the order in which they are tried.
pub open spec fn luma_candidate(m: int) -> LumaMode {
    if m == 0 {
        LumaMode::DC
    } else if m == 1 {
        LumaMode::V
    } else if m == 2 {
        LumaMode::H
    } else {
        LumaMode::TM
    }
}

/// The chroma modes, in the order in which they are tried.
pub open spec fn chroma_candidate(m: int) -> ChromaMode {
    if m == 0 {
        ChromaMode::DC
    } else if m == 1 {
        ChromaMode::V
    } else if m == 2 {
        ChromaMode::H
    } else {
        ChromaMode::TM
    }
}

/// The sub-block modes, in the order in which they are tried.
pub open spec fn sub_candidate(m: int) -> IntraMode {
    if m == 0 {
        IntraMode::DC
    } else if m == 1 {
        IntraMode::TM
    } else if m == 2 {
        IntraMode::VE
    } else if m == 3 {
        IntraMode::HE
    } else if m == 4 {
        IntraMode::LD
    } else if m == 5 {
        IntraMode::RD
    } else if m == 6 {
        IntraMode::VR
    } else if m == 7 {
        IntraMode::VL
    } else if m == 8 {
        IntraMode::HD
    } else {
        IntraMode::HU
    }
}

/// What trying a mode of a whole macroblock gives: the squared error of the
/// reconstruction, the rate of its coefficients, and whether all are zero.
pub struct Trial {
    pub distortion: int,
    pub rate: int,
    pub all_zero: bool,
}

/// Trial of a luma mode. The rate is measured on the coefficients in the form
/// in which reconstruction leaves them.
#[verifier::opaque]
pub open spec fn luma_trial(
    scene: Scene,
    canvas: Canvas,
    mode: LumaMode,
    segment: Segment,
    mbx: int,
    mby: int,
) -> Trial {
    let ws = predicted_luma(scene, canvas, mode, mbx, mby);
    let blocks = luma_blocks(scene, ws, mbx, mby);
    let y2 = y2_levels(blocks, segment);
    let residue = luma_residue(y2, y_levels(blocks, segment), segment);
    let dc = y2_restored(y2, segment);
    Trial {
        distortion: sse(
            restored_luma(scene, ws, segment, mbx, mby),
            16,
            21,
            scene.ybuf,
            scene.mbw * 16,
            mbx * 16,
            mby * 16,
            256,
        ),
        rate: rate_of(dc) + rate_of(residue),
        all_zero: !any_nonzero(dc) && !any_nonzero(residue),
    }
}

/// Trial of a chroma mode, on both planes.
#[verifier::opaque]
pub open spec fn chroma_trial(
    scene: Scene,
    canvas: Canvas,
    mode: ChromaMode,
    segment: Segment,
    mbx: int,
    mby: int,
) -> Trial {
    let wu = predicted_chroma(scene, canvas.u, mode, mbx, mby);
    let wv = predicted_chroma(scene, canvas.v, mode, mbx, mby);
    let u = quantized(
        chroma_blocks(scene.mbw, scene.ubuf, wu, mbx, mby),
        segment.uvdc,
        segment.uvac,
    );
    let v = quantized(
        chroma_blocks(scene.mbw, scene.vbuf, wv, mbx, mby),
        segment.uvdc,
        segment.uvac,
    );
    Trial {
        distortion: sse(
            restored_chroma(scene.mbw, scene.ubuf, wu, segment, mbx, mby),
            8,
            9,
            scene.ubuf,
            scene.mbw * 8,
            mbx * 8,
            mby * 8,
            64,
        ) + sse(
            restored_chroma(scene.mbw, scene.vbuf, wv, segment, mbx, mby),
            8,
            9,
            scene.vbuf,
            scene.mbw * 8,
            mbx * 8,
            mby * 8,
            64,
        ),
        rate: rate_of(u) + rate_of(v),
        all_zero: !any_nonzero(u) && !any_nonzero(v),
    }
}

/// Cost of a trial.
pub open spec fn trial_cost(trial: Trial, lambda: Dyadic) -> Dyadic {
    lagrangian(trial.distortion, lambda, Dyadic::of(trial.rate as nat))
}

/// Squared error of the first `i` pixels of sub-block `k`.
pub open spec fn sub_error(
    scene: Scene,
    restored: Seq<u8>,
    mbx: int,
    mby: int,
    k: int,
    i: int,
) -> int
    decreases i,
{
    if i <= 0 {
        0
    } else {
        let d = restored[i - 1] - sub_source(scene, mbx, mby, k, i - 1);
        sub_error(scene, restored, mbx, mby, k, i - 1) + d * d
    }
}

/// Rate of a sub-block: its levels and its mode.
#[verifier::opaque]
pub open spec fn sub_rate(
    levels: Seq<i32>,
    top: IntraMode,
    left: IntraMode,
    mode: IntraMode,
) -> Dyadic {
    Dyadic::of(rate_of(levels) as nat).plus(bpred_mode_cost(top, left, mode))
}

/// Cost of a mode for sub-block `k`, next to the modes above and to the left.
#[verifier::opaque]
pub open spec fn sub_cost(
    scene: Scene,
    ws: Seq<u8>,
    mode: IntraMode,
    segment: Segment,
    lambda: Dyadic,
    top: IntraMode,
    left: IntraMode,
    mbx: int,
    mby: int,
    k: int,
) -> Dyadic {
    lagrangian(
        sub_error(
            scene,
            sub_restored(scene, ws, mode, segment, mbx, mby, k),
            mbx,
            mby,
            k,
            16,
        ),
        lambda,
        sub_rate(sub_levels(scene, ws, mode, segment, mbx, mby, k), top, left, mode),
    )
}

/// The cheapest mode for sub-block `k`.
#[verifier::opaque]
pub open spec fn best_sub_mode(
    scene: Scene,
    ws: Seq<u8>,
    segment: Segment,
    lambda: Dyadic,
    top: IntraMode,
    left: IntraMode,
    mbx: int,
    mby: int,
    k: int,
) -> IntraMode {
    sub_candidate(
        cheapest(
            Seq::new(
                10,
                |m: int|
                    sub_cost(scene, ws, sub_candidate(m), segment, lambda, top, left, mbx, mby, k),
            ),
            10,
        ),
    )
}

/// State of the search for sub-block modes: the macroblock with the
/// reconstructions so far, the modes and levels so far, and their total error
/// and rate.
#[verifier::ext_equal]
pub struct SubSearch {
    pub ws: Seq<u8>,
    pub modes: Seq<IntraMode>,
    pub levels: Seq<i32>,
    pub distortion: int,
    pub rate: Dyadic,
}

/// Mode above sub-block `k`.
pub open spec fn mode_above(modes: Modes, chosen: Seq<IntraMode>, mbx: int, k: int) -> IntraMode {
    if k < 4 {
        modes.top[mbx * 4 + k]
    } else {
        chosen[k - 4]
    }
}

/// Mode to the left of sub-block `k`.
pub open spec fn mode_left(modes: Modes, chosen: Seq<IntraMode>, k: int) -> IntraMode {
    if k % 4 == 0 {
        modes.left[k / 4]
    } else {
        chosen[k - 1]
    }
}

/// The search after `k` sub-blocks. Each sub-block takes the mode that is
/// cheapest next to the reconstructions of those before it.
pub open spec fn sub_search(
    scene: Scene,
    canvas: Canvas,
    modes: Modes,
    segment: Segment,
    lambda: Dyadic,
    mbx: int,
    mby: int,
    k: int,
) -> SubSearch
    decreases k,
{
    if k <= 0 {
        SubSearch {
            ws: luma_border(mbx, mby, scene.mbw, canvas.y),
            modes: Seq::empty(),
            levels: Seq::empty(),
            distortion: 0,
            rate: Dyadic::zero(),
        }
    } else {
        sub_search_step(
            scene,
            sub_search(scene, canvas, modes, segment, lambda, mbx, mby, k - 1),
            modes,
            segment,
            lambda,
            mbx,
            mby,
            k - 1,
        )
    }
}

/// One step of the search: sub-block `k`.
pub open spec fn sub_search_step(
    scene: Scene,
    s: SubSearch,
    modes: Modes,
    segment: Segment,
    lambda: Dyadic,
    mbx: int,
    mby: int,
    k: int,
) -> SubSearch {
    let top = mode_above(modes, s.modes, mbx, k);
    let left = mode_left(modes, s.modes, k);
    let mode = best_sub_mode(scene, s.ws, segment, lambda, top, left, mbx, mby, k);
    let levels = sub_levels(scene, s.ws, mode, segment, mbx, mby, k);
    let restored = sub_restored(scene, s.ws, mode, segment, mbx, mby, k);
    SubSearch {
        ws: with_sub_restored(scene, s.ws, mode, segment, mbx, mby, k),
        modes: s.modes.push(mode),
        levels: s.levels + levels,
        distortion: s.distortion + sub_error(scene, restored, mbx, mby, k, 16),
        rate: s.rate.plus(sub_rate(levels, top, left, mode)),
    }
}

/// Index of the cheapest whole-macroblock luma mode.
pub open spec fn best_luma(
    scene: Scene,
    canvas: Canvas,
    segment: Segment,
    mbx: int,
    mby: int,
) -> int {
    cheapest(luma_costs(scene, canvas, segment, mbx, mby), 4)
}

/// Costs of the whole-macroblock luma modes.
pub open spec fn luma_costs(
    scene: Scene,
    canvas: Canvas,
    segment: Segment,
    mbx: int,
    mby: int,
) -> Seq<Dyadic> {
    Seq::new(
        4,
        |m: int|
            trial_cost(
                luma_trial(scene, canvas, luma_candidate(m), segment, mbx, mby),
                lambda_of(segment.yac),
            ),
    )
}

/// Costs of the chroma modes.
pub open spec fn chroma_costs(
    scene: Scene,
    canvas: Canvas,
    segment: Segment,
    mbx: int,
    mby: int,
) -> Seq<Dyadic> {
    Seq::new(
        4,
        |m: int|
            trial_cost(
                chroma_trial(scene, canvas, chroma_candidate(m), segment, mbx, mby),
                lambda_of(segment.yac),
            ),
    )
}

/// The modes of a macroblock: the cheapest luma mode, by sub-blocks only if
/// that is cheaper than as a whole, and the cheapest chroma mode. It is
/// skipped if all coefficients are zero.
#[verifier::opaque]
pub open spec fn decide(scene: Scene, canvas: Canvas, modes: Modes, mbx: int, mby: int) -> Decision {
    let id = scene.ids[mby * scene.mbw + mbx];
    let segment = scene.segments[id as int];
    let lambda = lambda_of(segment.yac);
    let whole = best_luma(scene, canvas, segment, mbx, mby);
    let search = sub_search(scene, canvas, modes, segment, lambda, mbx, mby, 16);
    let by_subblocks = lagrangian(search.distortion, lambda, search.rate).less(
        luma_costs(scene, canvas, segment, mbx, mby)[whole],
    );
    let luma_zero = if by_subblocks {
        !any_nonzero(search.levels)
    } else {
        luma_trial(scene, canvas, luma_candidate(whole), segment, mbx, mby).all_zero
    };
    let chroma = cheapest(chroma_costs(scene, canvas, segment, mbx, mby), 4);
    let chroma_zero = chroma_trial(
        scene,
        canvas,
        chroma_candidate(chroma),
        segment,
        mbx,
        mby,
    ).all_zero;
    Decision {
        luma_mode: if by_subblocks {
            LumaMode::B
        } else {
            luma_candidate(whole)
        },
        luma_bpred: if by_subblocks {
            Some(search.modes)
        } else {
            None
        },
        chroma_mode: chroma_candidate(chroma),
        segment_id: Some(id as usize),
        coeffs_skipped: luma_zero && chroma_zero,
        non_zero_dct: false,
    }
}

/// Context that a macroblock leaves for the sub-block modes that follow.
pub open spec fn advanced(modes: Modes, d: Decision, mbx: int) -> Modes {
    match d.luma_mode.intra() {
        Some(mode) => Modes {
            top: Seq::new(
                modes.top.len(),
                |i: int|
                    if i / 4 == mbx {
                        mode
                    } else {
                        modes.top[i]
                    },
            ),
            left: Seq::new(4, |y: int| mode),
        },
        None => Modes {
            top: Seq::new(
                modes.top.len(),
                |i: int|
                    if i / 4 == mbx {
                        d.luma_bpred.unwrap()[12 + i % 4]
                    } else {
                        modes.top[i]
                    },
            ),
            left: Seq::new(4, |y: int| d.luma_bpred.unwrap()[y * 4 + 3]),
        },
    }
}

/// Luma coefficients of a macroblock.
#[verifier::opaque]
pub open spec fn luma_coeffs(
    scene: Scene,
    canvas: Canvas,
    d: Decision,
    mbx: int,
    mby: int,
) -> Seq<i32> {
    if d.luma_mode == LumaMode::B {
        subblock_coeffs(
            scene,
            canvas,
            d.luma_bpred.unwrap(),
            segment_for(scene.segments, d.segment_id),
            mbx,
            mby,
        )
    } else {
        luma_blocks(scene, predicted_luma(scene, canvas, d.luma_mode, mbx, mby), mbx, mby)
    }
}

/// Luma macroblock, with its border, as a decoder reconstructs it.
pub open spec fn luma_restored(
    scene: Scene,
    canvas: Canvas,
    d: Decision,
    mbx: int,
    mby: int,
) -> Seq<u8> {
    let segment = segment_for(scene.segments, d.segment_id);
    if d.luma_mode == LumaMode::B {
        restored_subblocks(scene, canvas, d.luma_bpred.unwrap(), segment, mbx, mby, 16)
    } else {
        restored_luma(
            scene,
            predicted_luma(scene, canvas, d.luma_mode, mbx, mby),
            segment,
            mbx,
            mby,
        )
    }
}

/// Whether a luma macroblock that is predicted as a whole has a coefficient
/// that is not zero once quantised.
pub open spec fn whole_has_nonzero(blocks: Seq<i32>, segment: Segment) -> bool {
    exists|k: int|
        0 <= k < 16 && #[trigger] luma_nonzero(
            y2_levels(blocks, segment),
            y_levels(blocks, segment),
            segment,
            k,
        )
}

/// Whether sub-block `k` has a coefficient that is not zero once quantised.
pub open spec fn sub_nonzero(blocks: Seq<i32>, segment: Segment, k: int) -> bool {
    any_nonzero(
        scaled(
            quantized(block_at(blocks, k), segment.ydc, segment.yac),
            segment.ydc,
            segment.yac,
        ),
    )
}

/// Whether a luma macroblock that is predicted by sub-blocks has a coefficient
/// that is not zero once quantised.
pub open spec fn subs_have_nonzero(blocks: Seq<i32>, segment: Segment) -> bool {
    exists|k: int| 0 <= k < 16 && #[trigger] sub_nonzero(blocks, segment, k)
}

/// Whether a luma block has a coefficient that is not zero once quantised.
#[verifier::opaque]
pub open spec fn luma_has_nonzero(
    scene: Scene,
    canvas: Canvas,
    d: Decision,
    mbx: int,
    mby: int,
) -> bool {
    let segment = segment_for(scene.segments, d.segment_id);
    let blocks = luma_coeffs(scene, canvas, d, mbx, mby);
    if d.luma_mode == LumaMode::B {
        subs_have_nonzero(blocks, segment)
    } else {
        whole_has_nonzero(blocks, segment)
    }
}

/// Chroma coefficients of a macroblock.
#[verifier::opaque]
pub open spec fn chroma_coeffs(
    scene: Scene,
    src: Seq<u8>,
    plane: Seq<u8>,
    d: Decision,
    mbx: int,
    mby: int,
) -> Seq<i32> {
    chroma_blocks(
        scene.mbw,
        src,
        predicted_chroma(scene, plane, d.chroma_mode, mbx, mby),
        mbx,
        mby,
    )
}

/// Chroma macroblock, with its border, as a decoder reconstructs it.
pub open spec fn chroma_restored(
    scene: Scene,
    src: Seq<u8>,
    plane: Seq<u8>,
    d: Decision,
    mbx: int,
    mby: int,
) -> Seq<u8> {
    restored_chroma(
        scene.mbw,
        src,
        predicted_chroma(scene, plane, d.chroma_mode, mbx, mby),
        segment_for(scene.segments, d.segment_id),
        mbx,
        mby,
    )
}

/// Whether a chroma block has a coefficient that is not zero once quantised.
pub open spec fn chroma_has_nonzero(coeffs: Seq<i32>, segment: Segment) -> bool {
    exists|k: int|
        0 <= k < 4 && any_nonzero(
            #[trigger] block_at(
                scaled(
                    quantized(coeffs, segment.uvdc, segment.uvac),
                    segment.uvdc,
                    segment.uvac,
                ),
                k,
            ),
        )
}

/// The canvas with a macroblock reconstructed.
#[verifier::opaque]
pub open spec fn painted(
    scene: Scene,
    canvas: Canvas,
    d: Decision,
    mbx: int,
    mby: int,
) -> Canvas {
    Canvas {
        y: placed(
            canvas.y,
            scene.mbw * 16,
            mbx * 16,
            mby * 16,
            luma_restored(scene, canvas, d, mbx, mby),
            16,
            21,
        ),
        u: placed(
            canvas.u,
            scene.mbw * 8,
            mbx * 8,
            mby * 8,
            chroma_restored(scene, scene.ubuf, canvas.u, d, mbx, mby),
            8,
            9,
        ),
        v: placed(
            canvas.v,
            scene.mbw * 8,
            mbx * 8,
            mby * 8,
            chroma_restored(scene, scene.vbuf, canvas.v, d, mbx, mby),
            8,
            9,
        ),
    }
}

/// Whether a macroblock has a coefficient that is not zero once quantised.
#[verifier::opaque]
pub open spec fn has_nonzero_dct(
    scene: Scene,
    canvas: Canvas,
    d: Decision,
    mbx: int,
    mby: int,
) -> bool {
    let segment = segment_for(scene.segments, d.segment_id);
    ||| luma_has_nonzero(scene, canvas, d, mbx, mby)
    ||| chroma_has_nonzero(chroma_coeffs(scene, scene.ubuf, canvas.u, d, mbx, mby), segment)
    ||| chroma_has_nonzero(chroma_coeffs(scene, scene.vbuf, canvas.v, d, mbx, mby), segment)
}

} // verus!
