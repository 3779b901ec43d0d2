//! What encoding the macroblocks of a frame means.
//!
//! A frame is encoded in several passes over its macroblocks, row by row. The
//! first pass decides the modes; the later ones replay its decisions.
use vstd::prelude::*;

use crate::arithmetic_encoder::Coder;
use crate::common::{IntraMode, LumaMode, Segment};
use crate::encoder::Contexts;
use crate::header::{macroblock_header_bits, HeaderParams};
use crate::model::{
    advanced, chroma_coeffs, decide, has_nonzero_dct, luma_coeffs, painted, segment_for, Canvas,
    Decision, Modes, Scene,
};
use crate::residual::{
    jobs_bits, jobs_branches, left_after, residual_jobs, top_after, Coeffs, Job,
};

verus! {

/// State of a pass over the macroblocks: the pixels reconstructed so far and
/// the sub-block modes next to the current macroblock.
#[verifier::ext_equal]
pub struct Walk {
    pub canvas: Canvas,
    pub modes: Modes,
}

/// Sub-block modes at the left edge of the frame.
pub open spec fn edge_modes() -> Seq<IntraMode> {
    Seq::new(4, |y: int| IntraMode::DC)
}

impl Walk {
    /// Before the first macroblock of a frame.
    pub open spec fn fresh(mbw: int, mbh: int) -> Walk {
        Walk {
            canvas: Canvas::blank(mbw, mbh),
            modes: Modes {
                top: Seq::new((4 * mbw) as nat, |i: int| IntraMode::DC),
                left: edge_modes(),
            },
        }
    }

    pub open spec fn wf(self, mbw: int, mbh: int) -> bool {
        &&& self.canvas.wf(mbw, mbh)
        &&& self.modes.top.len() == 4 * mbw
        &&& self.modes.left.len() == 4
    }
}

/// Sub-block modes that a macroblock in column `mbx` sees: each row starts
/// afresh.
pub open spec fn row_modes(modes: Modes, mbx: int) -> Modes {
    if mbx == 0 {
        Modes { left: edge_modes(), ..modes }
    } else {
        modes
    }
}

/// One macroblock of a pass.
pub open spec fn walk_step(scene: Scene, w: Walk, d: Decision, j: int) -> Walk {
    let mbx = j % scene.mbw;
    let mby = j / scene.mbw;
    Walk {
        canvas: painted(scene, w.canvas, d, mbx, mby),
        modes: advanced(row_modes(w.modes, mbx), d, mbx),
    }
}

/// State after the first `i` macroblocks with given decisions.
pub open spec fn replay(scene: Scene, start: Walk, ds: Seq<Decision>, i: int) -> Walk
    decreases i,
{
    if i <= 0 {
        start
    } else {
        walk_step(scene, replay(scene, start, ds, i - 1), ds[i - 1], i - 1)
    }
}

/// Decision for macroblock `j` in a given state.
pub open spec fn decision_at(scene: Scene, w: Walk, j: int) -> Decision {
    let mbx = j % scene.mbw;
    decide(scene, w.canvas, row_modes(w.modes, mbx), mbx, j / scene.mbw)
}

/// Decisions for the first `i` macroblocks: each is made in the state that the
/// ones before it lead to.
pub open spec fn decisions(scene: Scene, start: Walk, i: int) -> Seq<Decision>
    decreases i,
{
    if i <= 0 {
        Seq::empty()
    } else {
        let ds = decisions(scene, start, i - 1);
        ds.push(decision_at(scene, replay(scene, start, ds, i - 1), i - 1))
    }
}

/// A pass depends only on the decisions it has replayed.
pub proof fn lemma_replay_prefix(
    scene: Scene,
    start: Walk,
    a: Seq<Decision>,
    b: Seq<Decision>,
    i: int,
)
    requires
        i <= a.len(),
        i <= b.len(),
        forall|j: int| 0 <= j < i ==> a[j] == b[j],
    ensures
        replay(scene, start, a, i) == replay(scene, start, b, i),
    decreases i,
{
    if i > 0 {
        lemma_replay_prefix(scene, start, a, b, i - 1);
    }
}

/// Later decisions do not change earlier ones.
pub proof fn lemma_decisions_prefix(scene: Scene, start: Walk, i: int, n: int)
    requires
        0 <= i <= n,
    ensures
        decisions(scene, start, n).len() == n,
        decisions(scene, start, i).len() == i,
        decisions(scene, start, n).take(i) == decisions(scene, start, i),
    decreases n,
{
    if n > 0 {
        if i < n {
            lemma_decisions_prefix(scene, start, i, n - 1);
            assert(decisions(scene, start, n).take(i) =~= decisions(scene, start, n - 1).take(i));
        } else {
            lemma_decisions_prefix(scene, start, n - 1, n - 1);
            assert(decisions(scene, start, n).take(i) =~= decisions(scene, start, n));
        }
    } else {
        assert(decisions(scene, start, 0).take(0) =~= Seq::<Decision>::empty());
    }
}

/// Number of macroblocks that are skipped.
pub open spec fn skipped_count(ds: Seq<Decision>) -> int
    decreases ds.len(),
{
    if ds.len() == 0 {
        0
    } else {
        skipped_count(ds.drop_last()) + if ds.last().coeffs_skipped {
            1int
        } else {
            0
        }
    }
}

/// Coefficients of macroblock `j`.
pub open spec fn coeffs_at(scene: Scene, start: Walk, ds: Seq<Decision>, j: int) -> Coeffs {
    let canvas = replay(scene, start, ds, j).canvas;
    let mbx = j % scene.mbw;
    let mby = j / scene.mbw;
    Coeffs {
        y: luma_coeffs(scene, canvas, ds[j], mbx, mby),
        u: chroma_coeffs(scene, scene.ubuf, canvas.u, ds[j], mbx, mby),
        v: chroma_coeffs(scene, scene.vbuf, canvas.v, ds[j], mbx, mby),
    }
}

/// Coefficient contexts next to the current macroblock.
#[verifier::ext_equal]
pub struct Surroundings {
    pub left: Contexts,
    pub top: Seq<Contexts>,
}

impl Surroundings {
    /// Before the first macroblock of a frame: there are no coefficients.
    pub open spec fn fresh(mbw: int) -> Surroundings {
        Surroundings {
            left: Contexts::zero(),
            top: Seq::new(mbw as nat, |i: int| Contexts::zero()),
        }
    }
}

/// Contexts that a macroblock in column `mbx` sees: each row starts afresh.
pub open spec fn row_contexts(s: Surroundings, mbx: int) -> Surroundings {
    if mbx == 0 {
        Surroundings { left: Contexts::zero(), ..s }
    } else {
        s
    }
}

/// Contexts after a macroblock.
pub open spec fn contexts_step(
    s: Surroundings,
    segments: Seq<Segment>,
    d: Decision,
    c: Coeffs,
    mbx: int,
) -> Surroundings {
    let segment = segment_for(segments, d.segment_id);
    if d.coeffs_skipped {
        Surroundings {
            left: s.left.cleared(d.luma_mode != LumaMode::B),
            top: s.top.update(mbx, s.top[mbx].cleared(d.luma_mode != LumaMode::B)),
        }
    } else {
        Surroundings {
            left: left_after(d.luma_mode, segment, c, s.left),
            top: s.top.update(mbx, top_after(d.luma_mode, segment, c, s.top[mbx])),
        }
    }
}

/// Contexts after the first `i` macroblocks.
pub open spec fn surroundings(
    scene: Scene,
    start: Walk,
    first: Surroundings,
    ds: Seq<Decision>,
    i: int,
) -> Surroundings
    decreases i,
{
    if i <= 0 {
        first
    } else {
        let mbx = (i - 1) % scene.mbw;
        contexts_step(
            row_contexts(surroundings(scene, start, first, ds, i - 1), mbx),
            scene.segments,
            ds[i - 1],
            coeffs_at(scene, start, ds, i - 1),
            mbx,
        )
    }
}

/// Blocks that are coded for macroblock `j`: none if it is skipped.
pub open spec fn jobs_at(
    scene: Scene,
    start: Walk,
    first: Surroundings,
    ds: Seq<Decision>,
    j: int,
) -> Seq<Job> {
    let mbx = j % scene.mbw;
    let s = row_contexts(surroundings(scene, start, first, ds, j), mbx);
    if ds[j].coeffs_skipped {
        Seq::empty()
    } else {
        residual_jobs(
            ds[j].luma_mode,
            segment_for(scene.segments, ds[j].segment_id),
            coeffs_at(scene, start, ds, j),
            s.left,
            s.top[mbx],
        )
    }
}

/// Token branches of the first `i` macroblocks.
pub open spec fn frame_branches(
    scene: Scene,
    start: Walk,
    first: Surroundings,
    ds: Seq<Decision>,
    i: int,
) -> Seq<(int, bool)>
    decreases i,
{
    if i <= 0 {
        Seq::empty()
    } else {
        frame_branches(scene, start, first, ds, i - 1) + jobs_branches(
            jobs_at(scene, start, first, ds, i - 1),
        )
    }
}

/// Headers of the first `i` macroblocks.
pub open spec fn frame_mode_bits(
    params: HeaderParams,
    scene: Scene,
    start: Walk,
    ds: Seq<Decision>,
    i: int,
) -> Seq<(bool, u8)>
    decreases i,
{
    if i <= 0 {
        Seq::empty()
    } else {
        let mbx = (i - 1) % scene.mbw;
        frame_mode_bits(params, scene, start, ds, i - 1) + macroblock_header_bits(
            params,
            row_modes(replay(scene, start, ds, i - 1).modes, mbx),
            ds[i - 1],
            mbx,
        )
    }
}

/// Partitions after the coefficients of the first `i` macroblocks. The rows
/// take turns with the partitions.
pub open spec fn frame_partitions(
    scene: Scene,
    start: Walk,
    first: Surroundings,
    ds: Seq<Decision>,
    probs: Seq<u8>,
    coders: Seq<Coder>,
    i: int,
) -> Seq<Coder>
    decreases i,
{
    if i <= 0 {
        coders
    } else {
        let before = frame_partitions(scene, start, first, ds, probs, coders, i - 1);
        let p = ((i - 1) / scene.mbw) % coders.len() as int;
        before.update(
            p,
            before[p].write_all(jobs_bits(jobs_at(scene, start, first, ds, i - 1), probs)),
        )
    }
}

/// Coding keeps the number of partitions.
pub proof fn lemma_partitions_len(
    scene: Scene,
    start: Walk,
    first: Surroundings,
    ds: Seq<Decision>,
    probs: Seq<u8>,
    coders: Seq<Coder>,
    i: int,
)
    requires
        coders.len() >= 1,
    ensures
        frame_partitions(scene, start, first, ds, probs, coders, i).len() == coders.len(),
    decreases i,
{
    if i > 0 {
        let row = (i - 1) / scene.mbw;
        let count = coders.len() as int;
        assert(0 <= row % count < count) by (nonlinear_arith)
            requires
                count >= 1,
        ;
        lemma_partitions_len(scene, start, first, ds, probs, coders, i - 1);
    }
}

/// Decision for macroblock `j`, with what reconstruction has found out.
pub open spec fn completed(scene: Scene, start: Walk, ds: Seq<Decision>, j: int) -> Decision {
    Decision {
        non_zero_dct: has_nonzero_dct(
            scene,
            replay(scene, start, ds, j).canvas,
            ds[j],
            j % scene.mbw,
            j / scene.mbw,
        ),
        ..ds[j]
    }
}

} // verus!
