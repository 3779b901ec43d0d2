//! Decoding of whole frames.
use vstd::prelude::*;

use crate::common::{IntraMode, LumaMode, Segment};
use crate::decoding::{
    chroma_nonzero, coding_position, coeffs_of, decoded_macroblock, lemma_decoded_macroblock,
    lemma_levels_nonzero, levels_nonzero, raster, raster_all, subblock_nonzero,
};
use crate::encoder::Contexts;
use crate::frame::Image;
use crate::header::{macroblock_header_bits, FrameHeader, HeaderParams};
use crate::mode_reading::{lemma_read_macroblock_header, plain, read_macroblock_header};
use crate::model::{advanced, decide, has_nonzero_dct, segment_for, Decision, Modes, Scene};
use crate::passes::{
    coeffs_at, decision_at, decisions, edge_modes, frame_mode_bits, jobs_at, lemma_decisions_prefix,
    lemma_replay_prefix, replay, row_contexts, row_modes, surroundings, walk_step,
    Surroundings, Walk,
};
use crate::pipeline::lemma_coeffs_codable;
use crate::playback::lemma_shown_macroblock;
use crate::quantize::{
    any_nonzero, block_at, luma_nonzero, scaled, step_of, y2_restored, y_restored,
};
use crate::reading::{after, follows, lemma_follows_concat, lemma_follows_nothing};
use crate::residual::{jobs_bits, left_after, top_after, Coeffs};
use crate::residual_reading::{
    coded_levels, left_of, lemma_contexts_of, lemma_read_residual, read_residual, some_level,
    top_of, zero_levels, Levels,
};
use crate::roundtrip::Reader;
use crate::segments::lemma_macroblock_position;
use crate::skipping::{
    law_skipped_exactly_without_levels, law_skipped_macroblocks_need_no_levels,
    lemma_decision_plain,
};
use crate::transform::lemma_zero_transforms;
use crate::viewing::shown_macroblock;

verus! {

/// State of a decoder between two macroblocks: the two parts of the frame that
/// it reads, the pixels and modes so far, the contexts, and the decisions that
/// it has read.
#[verifier::ext_equal]
pub struct Decoding {
    pub headers: Reader,
    pub tokens: Reader,
    pub walk: Walk,
    pub around: Surroundings,
    pub ds: Seq<Decision>,
}

/// Parameters of the macroblock headers.
pub open spec fn params_of(h: FrameHeader) -> HeaderParams {
    HeaderParams {
        segments_enabled: h.segments_enabled,
        segment_tree_probs: h.segment_tree_probs,
        no_skip: h.no_skip,
    }
}

/// The sub-block mode in column `x` and row `y` of a macroblock, for those that
/// come after it.
pub open spec fn mode_shown(d: Decision, x: int, y: int) -> IntraMode {
    match d.luma_mode {
        LumaMode::DC => IntraMode::DC,
        LumaMode::V => IntraMode::VE,
        LumaMode::H => IntraMode::HE,
        LumaMode::TM => IntraMode::TM,
        LumaMode::B => d.luma_bpred.unwrap()[4 * y + x],
    }
}

/// The sub-block modes next to the macroblock that follows one in column `mbx`.
pub open spec fn modes_behind(modes: Modes, d: Decision, mbx: int) -> Modes {
    Modes {
        top: Seq::new(
            modes.top.len(),
            |i: int|
                if 4 * mbx <= i < 4 * mbx + 4 {
                    mode_shown(d, i - 4 * mbx, 3)
                } else {
                    modes.top[i]
                },
        ),
        left: Seq::new(4, |y: int| mode_shown(d, 3, y)),
    }
}

/// Contexts after a macroblock without coefficients: there are none, but one
/// that is predicted by sub-blocks has nothing to say of the DC block.
pub open spec fn contexts_behind_nothing(before: Contexts, mode: LumaMode) -> Contexts {
    Contexts {
        y2: if mode == LumaMode::B {
            before.y2
        } else {
            0
        },
        y: seq![0u8, 0, 0, 0],
        u: seq![0u8, 0],
        v: seq![0u8, 0],
    }
}

/// Whether a macroblock has a level that is not zero.
#[verifier::opaque]
pub open spec fn any_level(mode: LumaMode, z: Levels) -> bool {
    ||| mode != LumaMode::B && some_level(z.y2) == 1
    ||| exists|k: int| 0 <= k < 16 && some_level(#[trigger] z.y[k]) == 1
    ||| exists|k: int| 0 <= k < 4 && some_level(#[trigger] z.u[k]) == 1
    ||| exists|k: int| 0 <= k < 4 && some_level(#[trigger] z.v[k]) == 1
}

/// Decodes macroblock `i`. At the start of a row there is nothing to the left.
#[verifier::opaque]
pub open spec fn decode_step(h: FrameHeader, mbw: int, s: Decoding, i: int) -> Decoding {
    let mbx = i % mbw;
    let mby = i / mbw;
    let modes = if mbx == 0 {
        Modes {
            top: s.walk.modes.top,
            left: seq![IntraMode::DC, IntraMode::DC, IntraMode::DC, IntraMode::DC],
        }
    } else {
        s.walk.modes
    };
    let left = if mbx == 0 {
        Contexts { y2: 0, y: seq![0u8, 0, 0, 0], u: seq![0u8, 0], v: seq![0u8, 0] }
    } else {
        s.around.left
    };
    let top = s.around.top[mbx];
    let (d, headers) = read_macroblock_header(s.headers, params_of(h), modes, mbx);
    let segment = h.segments[match d.segment_id {
        Some(id) => id as int,
        None => 0,
    }];
    let (z, tokens) = if d.coeffs_skipped {
        (zero_levels(d.luma_mode), s.tokens)
    } else {
        read_residual(s.tokens, h.token_probs, d.luma_mode, left, top)
    };
    Decoding {
        headers,
        tokens,
        walk: Walk {
            canvas: shown_macroblock(mbw, s.walk.canvas, d, z, segment, mbx, mby),
            modes: modes_behind(modes, d, mbx),
        },
        around: if d.coeffs_skipped {
            Surroundings {
                left: contexts_behind_nothing(left, d.luma_mode),
                top: s.around.top.update(mbx, contexts_behind_nothing(top, d.luma_mode)),
            }
        } else {
            Surroundings {
                left: left_of(d.luma_mode, z, left),
                top: s.around.top.update(mbx, top_of(d.luma_mode, z, top)),
            }
        },
        ds: s.ds.push(
            Decision {
                non_zero_dct: !d.coeffs_skipped && any_level(d.luma_mode, z),
                ..d
            },
        ),
    }
}

/// Decodes macroblock `i` in the terms of the encoder.
#[verifier::opaque]
spec fn traced_step(h: FrameHeader, mbw: int, s: Decoding, i: int) -> Decoding {
    let mbx = i % mbw;
    let mby = i / mbw;
    let modes = row_modes(s.walk.modes, mbx);
    let seen = row_contexts(s.around, mbx);
    let (d, headers) = read_macroblock_header(s.headers, params_of(h), modes, mbx);
    let segment = segment_for(h.segments, d.segment_id);
    let (z, tokens) = if d.coeffs_skipped {
        (zero_levels(d.luma_mode), s.tokens)
    } else {
        read_residual(s.tokens, h.token_probs, d.luma_mode, seen.left, seen.top[mbx])
    };
    let whole = d.luma_mode != LumaMode::B;
    Decoding {
        headers,
        tokens,
        walk: Walk {
            canvas: decoded_macroblock(mbw, s.walk.canvas, d, z, segment, mbx, mby),
            modes: advanced(modes, d, mbx),
        },
        around: if d.coeffs_skipped {
            Surroundings {
                left: seen.left.cleared(whole),
                top: seen.top.update(mbx, seen.top[mbx].cleared(whole)),
            }
        } else {
            Surroundings {
                left: left_of(d.luma_mode, z, seen.left),
                top: seen.top.update(mbx, top_of(d.luma_mode, z, seen.top[mbx])),
            }
        },
        ds: s.ds.push(
            Decision {
                non_zero_dct: !d.coeffs_skipped && levels_nonzero(d.luma_mode, z, segment),
                ..d
            },
        ),
    }
}

/// Decodes the first `i` macroblocks.
pub open spec fn decode_macroblocks(h: FrameHeader, mbw: int, s: Decoding, i: int) -> Decoding
    decreases i,
{
    if i <= 0 {
        s
    } else {
        decode_step(h, mbw, decode_macroblocks(h, mbw, s, i - 1), i - 1)
    }
}

/// Each decision of a frame is the one that is made in the state to which the
/// decisions before it lead: a pass that made it again would not change it.
pub proof fn law_decisions_are_those_of_every_pass(scene: Scene, start: Walk, n: int, i: int)
    requires
        0 <= i < n,
    ensures
        decisions(scene, start, n)[i] == decision_at(
            scene,
            replay(scene, start, decisions(scene, start, n), i),
            i,
        ),
{
    let ds = decisions(scene, start, n);
    let before = decisions(scene, start, i);
    lemma_decisions_prefix(scene, start, i, n);
    lemma_decisions_prefix(scene, start, i + 1, n);
    assert(ds[i] == ds.take(i + 1)[i]);
    assert forall|j: int| 0 <= j < i implies ds[j] == before[j] by {
        assert(ds.take(i)[j] == ds[j]);
    }
    lemma_replay_prefix(scene, start, ds, before, i);
}

/// A pass that decides the modes of every macroblock anew, without looking at
/// the decisions of an earlier pass, comes to the same decisions and goes
/// through the same states.
pub proof fn law_blind_pass_decides_the_same(scene: Scene, states: Seq<Walk>, n: int, i: int)
    requires
        0 <= i < n,
        i < states.len(),
        forall|j: int|
            0 <= j < states.len() - 1 ==> states[j + 1] == walk_step(
                scene,
                states[j],
                #[trigger] decision_at(scene, states[j], j),
                j,
            ),
    ensures
        decision_at(scene, states[i], i) == decisions(scene, states[0], n)[i],
        states[i] == replay(scene, states[0], decisions(scene, states[0], n), i),
    decreases i,
{
    if i > 0 {
        law_blind_pass_decides_the_same(scene, states, n, i - 1);
        let d = decision_at(scene, states[i - 1], i - 1);
        assert(states[(i - 1) + 1] == walk_step(scene, states[i - 1], d, i - 1));
    }
    law_decisions_are_those_of_every_pass(scene, states[0], n, i);
}

/// The contexts stay valid.
pub proof fn lemma_surroundings_wf(
    scene: Scene,
    start: Walk,
    first: Surroundings,
    ds: Seq<Decision>,
    i: int,
)
    requires
        scene.mbw > 0,
        first.left.wf(),
        first.top.len() == scene.mbw,
        forall|x: int| 0 <= x < first.top.len() ==> (#[trigger] first.top[x]).wf(),
    ensures
        ({
            let s = surroundings(scene, start, first, ds, i);
            &&& s.left.wf()
            &&& s.top.len() == scene.mbw
            &&& forall|x: int| 0 <= x < s.top.len() ==> (#[trigger] s.top[x]).wf()
        }),
    decreases i,
{
    if i > 0 {
        reveal(left_after);
        reveal(top_after);
        lemma_surroundings_wf(scene, start, first, ds, i - 1);
        let before = surroundings(scene, start, first, ds, i - 1);
        let mbx = (i - 1) % scene.mbw;
        assert(0 <= mbx < scene.mbw) by (nonlinear_arith)
            requires
                scene.mbw > 0,
                mbx == (i - 1) % scene.mbw,
        ;
        assert(before.top[mbx].wf());
        let s = surroundings(scene, start, first, ds, i);
        assert forall|x: int| 0 <= x < s.top.len() implies (#[trigger] s.top[x]).wf() by {
            if x != mbx {
                assert(s.top[x] == before.top[x]);
            }
        }
    }
}

/// Bits of the coefficients of the first `i` macroblocks.
pub open spec fn frame_token_bits(image: Image, i: int) -> Seq<(bool, u8)>
    decreases i,
{
    if i <= 0 {
        Seq::empty()
    } else {
        frame_token_bits(image, i - 1) + jobs_bits(
            jobs_at(image.scene(), image.start(), image.first(), image.decisions(), i - 1),
            image.token_probs(),
        )
    }
}

/// Bits of the headers of the first `i` macroblocks.
pub open spec fn mode_bits(image: Image, i: int) -> Seq<(bool, u8)> {
    frame_mode_bits(
        image.header_params(),
        image.scene(),
        image.start(),
        image.decisions(),
        i,
    )
}

/// What a decoder finds out about macroblock `j`.
pub open spec fn seen_decision(image: Image, j: int) -> Decision {
    let d = image.decisions()[j];
    let canvas = replay(image.scene(), image.start(), image.decisions(), j).canvas;
    Decision {
        non_zero_dct: !d.coeffs_skipped && has_nonzero_dct(
            image.scene(),
            canvas,
            d,
            j % image.scene().mbw,
            j / image.scene().mbw,
        ),
        ..d
    }
}

/// State of a decoder after `i` macroblocks of the frame of an image.
pub open spec fn decoding_at(image: Image, headers: Reader, tokens: Reader, i: int) -> Decoding {
    Decoding {
        headers: after(headers, mode_bits(image, i)),
        tokens: after(tokens, frame_token_bits(image, i)),
        walk: replay(image.scene(), image.start(), image.decisions(), i),
        around: surroundings(image.scene(), image.start(), image.first(), image.decisions(), i),
        ds: Seq::new(i as nat, |j: int| seen_decision(image, j)),
    }
}

/// The decision for macroblock `i` of an image.
pub proof fn lemma_decision(image: Image, i: int)
    requires
        image.scene().wf(),
        0 <= i < image.count(),
    ensures
        ({
            let scene = image.scene();
            let w = replay(scene, image.start(), image.decisions(), i);
            let mbx = i % scene.mbw;
            let mby = i / scene.mbw;
            let d = image.decisions()[i];
            &&& 0 <= mbx < scene.mbw
            &&& 0 <= mby < scene.mbh
            &&& scene.ids[mby * scene.mbw + mbx] < 4
            &&& d == decide(scene, w.canvas, row_modes(w.modes, mbx), mbx, mby)
            &&& plain(d)
        }),
{
    let scene = image.scene();
    lemma_macroblock_position(i, scene.mbw, scene.mbh);
    assert(scene.ids[i] < 4);
    law_decisions_are_those_of_every_pass(scene, image.start(), image.count(), i);
    let w = replay(scene, image.start(), image.decisions(), i);
    let mbx = i % scene.mbw;
    lemma_decision_plain(scene, w.canvas, row_modes(w.modes, mbx), mbx, i / scene.mbw);
}

/// Levels and contexts that a decoder reads for macroblock `i`.
proof fn lemma_read_tokens(image: Image, r: Reader, i: int)
    requires
        image.scene().wf(),
        0 <= i < image.count(),
        !image.decisions()[i].coeffs_skipped,
        follows(
            r,
            jobs_bits(
                jobs_at(image.scene(), image.start(), image.first(), image.decisions(), i),
                image.token_probs(),
            ),
        ),
    ensures
        ({
            let scene = image.scene();
            let ds = image.decisions();
            let d = ds[i];
            let mbx = i % scene.mbw;
            let segment = segment_for(scene.segments, d.segment_id);
            let seen = row_contexts(
                surroundings(scene, image.start(), image.first(), ds, i),
                mbx,
            );
            let c = coeffs_at(scene, image.start(), ds, i);
            read_residual(r, image.token_probs(), d.luma_mode, seen.left, seen.top[mbx]) == (
                coded_levels(d.luma_mode, segment, c),
                after(
                    r,
                    jobs_bits(
                        jobs_at(scene, image.start(), image.first(), ds, i),
                        image.token_probs(),
                    ),
                ),
            )
        }),
{
    let scene = image.scene();
    let ds = image.decisions();
    let d = ds[i];
    lemma_decision(image, i);
    let mbx = i % scene.mbw;
    let mby = i / scene.mbw;
    let segment = segment_for(scene.segments, d.segment_id);
    let first = image.first();
    assert forall|x: int| 0 <= x < first.top.len() implies (#[trigger] first.top[x]).wf() by {
        assert(first.top[x] == Contexts::zero());
    }
    lemma_surroundings_wf(scene, image.start(), first, ds, i);
    let around = surroundings(scene, image.start(), first, ds, i);
    let seen = row_contexts(around, mbx);
    assert(seen.top[mbx].wf());
    let canvas = replay(scene, image.start(), ds, i).canvas;
    let c = coeffs_at(scene, image.start(), ds, i);
    lemma_coeffs_codable(scene, canvas, d, mbx, mby);
    lemma_read_residual(
        r,
        image.token_probs(),
        d.luma_mode,
        segment,
        c,
        seen.left,
        seen.top[mbx],
    );
}

/// A level that is restored to something is not zero.
proof fn lemma_some_raster(z: Seq<i32>, n: int)
    requires
        z.len() == 16,
        0 <= n < 16,
        raster(z)[n] != 0,
    ensures
        some_level(z) == 1,
{
    reveal(some_level);
    let p = coding_position(n);
    assert(0 <= p < 16);
    assert(z[p] != 0);
}

/// Where something is restored, there is a level.
proof fn lemma_any_level(mode: LumaMode, segment: Segment, c: Coeffs)
    requires
        levels_nonzero(mode, coded_levels(mode, segment, c), segment),
    ensures
        any_level(mode, coded_levels(mode, segment, c)),
{
    reveal(levels_nonzero);
    reveal(any_level);
    let z = coded_levels(mode, segment, c);
    if chroma_nonzero(z.u, segment) {
        lemma_any_chroma(z.u, segment);
    } else if chroma_nonzero(z.v, segment) {
        lemma_any_chroma(z.v, segment);
    } else if mode == LumaMode::B {
        let k = choose|k: int| 0 <= k < 16 && #[trigger] subblock_nonzero(z.y, segment, k);
        let b = scaled(raster(z.y[k]), segment.ydc, segment.yac);
        let n = choose|n: int| 0 <= n < b.len() && #[trigger] b[n] != 0;
        assert(0 * step_of(n, segment.ydc, segment.yac) == 0) by (nonlinear_arith);
        lemma_some_raster(z.y[k], n);
    } else {
        let (y2, y) = (raster(z.y2), raster_all(z.y));
        let k = choose|k: int| 0 <= k < 16 && #[trigger] luma_nonzero(y2, y, segment, k);
        let dc = y2_restored(y2, segment);
        let b = y_restored(dc, y, segment, k);
        let n = choose|n: int| 0 <= n < b.len() && #[trigger] b[n] != 0;
        if n > 0 {
            assert((k * 16 + n) / 16 == k && (k * 16 + n) % 16 == n);
            assert(0 * segment.yac == 0);
            lemma_some_raster(z.y[k], n);
        } else {
            let s = scaled(y2, segment.y2dc, segment.y2ac);
            if forall|m: int| 0 <= m < 16 ==> #[trigger] y2[m] == 0 {
                assert forall|m: int| 0 <= m < 16 implies #[trigger] s[m] == 0 by {
                    assert(0 * step_of(m, segment.y2dc, segment.y2ac) == 0) by (nonlinear_arith);
                    assert(y2[m] == 0);
                }
                assert(s =~= Seq::new(16, |m: int| 0i32));
                lemma_zero_transforms(s);
            }
            let m = choose|m: int| 0 <= m < 16 && #[trigger] y2[m] != 0;
            lemma_some_raster(z.y2, m);
        }
    }
}

proof fn lemma_any_chroma(zs: Seq<Seq<i32>>, segment: Segment)
    requires
        zs.len() == 4,
        forall|k: int| 0 <= k < 4 ==> (#[trigger] zs[k]).len() == 16,
        chroma_nonzero(zs, segment),
    ensures
        exists|k: int| 0 <= k < 4 && some_level(#[trigger] zs[k]) == 1,
{
    let b = scaled(raster_all(zs), segment.uvdc, segment.uvac);
    let k = choose|k: int| 0 <= k < 4 && any_nonzero(#[trigger] block_at(b, k));
    let n = choose|n: int| 0 <= n < block_at(b, k).len() && #[trigger] block_at(b, k)[n] != 0;
    let m = k * 16 + n;
    assert(m / 16 == k && m % 16 == n);
    assert(0 * step_of(m, segment.uvdc, segment.uvac) == 0) by (nonlinear_arith);
    assert(zs[k].len() == 16);
    lemma_some_raster(zs[k], n);
}

/// What a decoder makes of the levels of macroblock `i`.
proof fn lemma_decode_levels(image: Image, i: int)
    requires
        image.scene().wf(),
        0 <= i < image.count(),
    ensures
        ({
            let scene = image.scene();
            let ds = image.decisions();
            let d = ds[i];
            let mbx = i % scene.mbw;
            let mby = i / scene.mbw;
            let segment = segment_for(scene.segments, d.segment_id);
            let canvas = replay(scene, image.start(), ds, i).canvas;
            let z = if d.coeffs_skipped {
                zero_levels(d.luma_mode)
            } else {
                coded_levels(d.luma_mode, segment, coeffs_at(scene, image.start(), ds, i))
            };
            &&& decoded_macroblock(scene.mbw, canvas, d, z, segment, mbx, mby) == replay(
                scene,
                image.start(),
                ds,
                i + 1,
            ).canvas
            &&& !d.coeffs_skipped ==> levels_nonzero(d.luma_mode, z, segment) == has_nonzero_dct(
                scene,
                canvas,
                d,
                mbx,
                mby,
            )
            &&& !d.coeffs_skipped ==> any_level(d.luma_mode, z) == levels_nonzero(
                d.luma_mode,
                z,
                segment,
            )
        }),
{
    let scene = image.scene();
    let ds = image.decisions();
    let d = ds[i];
    lemma_decision(image, i);
    let mbx = i % scene.mbw;
    let mby = i / scene.mbw;
    let w = replay(scene, image.start(), ds, i);
    if d.coeffs_skipped {
        law_skipped_macroblocks_need_no_levels(scene, w.canvas, row_modes(w.modes, mbx), mbx, mby);
    } else {
        lemma_decoded_macroblock(scene, w.canvas, d, mbx, mby);
        lemma_levels_nonzero(scene, w.canvas, d, mbx, mby);
        assert(coeffs_at(scene, image.start(), ds, i) == coeffs_of(scene, w.canvas, d, mbx, mby));
        law_skipped_exactly_without_levels(scene, w.canvas, row_modes(w.modes, mbx), mbx, mby);
        let segment = segment_for(scene.segments, d.segment_id);
        lemma_any_level(d.luma_mode, segment, coeffs_at(scene, image.start(), ds, i));
    }
}

/// Decoding one macroblock of the frame of an image, in the terms of the encoder.
proof fn lemma_traced_step(image: Image, h: FrameHeader, headers: Reader, tokens: Reader, i: int)
    requires
        image.scene().wf(),
        0 <= i < image.count(),
        h.segments == image.scene().segments,
        h.token_probs == image.token_probs(),
        params_of(h) == image.header_params(),
        follows(headers, mode_bits(image, i + 1)),
        follows(tokens, frame_token_bits(image, i + 1)),
    ensures
        traced_step(h, image.scene().mbw, decoding_at(image, headers, tokens, i), i)
            == decoding_at(image, headers, tokens, i + 1),
        follows(headers, mode_bits(image, i)),
        follows(tokens, frame_token_bits(image, i)),
        well_cut(h, image.scene().mbw, decoding_at(image, headers, tokens, i), i),
{
    let scene = image.scene();
    let ds = image.decisions();
    let d = ds[i];
    let s = decoding_at(image, headers, tokens, i);
    let t = decoding_at(image, headers, tokens, i + 1);
    lemma_decision(image, i);
    let mbx = i % scene.mbw;
    let mby = i / scene.mbw;
    let modes = row_modes(s.walk.modes, mbx);
    let seen = row_contexts(s.around, mbx);
    let segment = segment_for(scene.segments, d.segment_id);
    let header_bits = macroblock_header_bits(image.header_params(), modes, d, mbx);
    lemma_follows_concat(headers, mode_bits(image, i), header_bits);
    lemma_read_macroblock_header(s.headers, image.header_params(), modes, d, mbx);
    let jobs = jobs_at(scene, image.start(), image.first(), ds, i);
    lemma_follows_concat(
        tokens,
        frame_token_bits(image, i),
        jobs_bits(jobs, image.token_probs()),
    );
    lemma_decode_levels(image, i);
    let c = coeffs_at(scene, image.start(), ds, i);
    if d.coeffs_skipped {
        assert(jobs_bits(jobs, image.token_probs()) =~= Seq::<(bool, u8)>::empty());
        lemma_follows_nothing(s.tokens);
    } else {
        lemma_read_tokens(image, s.tokens, i);
        lemma_contexts_of(d.luma_mode, segment, c, seen.left, seen.top[mbx]);
    }
    reveal(traced_step);
    reveal(well_cut);
    let u = traced_step(h, scene.mbw, s, i);
    assert(u.headers == t.headers);
    assert(u.tokens == t.tokens);
    assert(u.walk =~= t.walk);
    assert(u.around =~= t.around);
    assert(u.ds =~= t.ds);
}

/// Whether the levels of macroblock `i` come in the right number of blocks, and
/// are restored to nothing only if there are none.
#[verifier::opaque]
spec fn well_cut(h: FrameHeader, mbw: int, s: Decoding, i: int) -> bool {
    let mbx = i % mbw;
    let modes = row_modes(s.walk.modes, mbx);
    let seen = row_contexts(s.around, mbx);
    let (d, headers) = read_macroblock_header(s.headers, params_of(h), modes, mbx);
    let (z, _) = if d.coeffs_skipped {
        (zero_levels(d.luma_mode), s.tokens)
    } else {
        read_residual(s.tokens, h.token_probs, d.luma_mode, seen.left, seen.top[mbx])
    };
    &&& z.y.len() == 16
    &&& z.u.len() == 4
    &&& z.v.len() == 4
    &&& !d.coeffs_skipped ==> any_level(d.luma_mode, z) == levels_nonzero(
        d.luma_mode,
        z,
        segment_for(h.segments, d.segment_id),
    )
}

/// The modes that a macroblock leaves behind.
proof fn lemma_modes_behind(modes: Modes, d: Decision, mbx: int)
    ensures
        modes_behind(modes, d, mbx) == advanced(modes, d, mbx),
{
    assert forall|k: int| 0 <= k < modes.top.len() implies #[trigger] modes_behind(
        modes,
        d,
        mbx,
    ).top[k] == advanced(modes, d, mbx).top[k] by {
        assert((k / 4 == mbx) == (4 * mbx <= k < 4 * mbx + 4));
        if k / 4 == mbx {
            assert(k % 4 == k - 4 * mbx);
        }
    }
    assert(modes_behind(modes, d, mbx) =~= advanced(modes, d, mbx));
}

/// The decoder goes the way of the encoder.
proof fn lemma_steps_alike(h: FrameHeader, mbw: int, s: Decoding, i: int)
    requires
        0 <= i,
        mbw >= 1,
        well_cut(h, mbw, s, i),
    ensures
        decode_step(h, mbw, s, i) == traced_step(h, mbw, s, i),
{
    reveal(decode_step);
    reveal(traced_step);
    reveal(well_cut);
    let mbx = i % mbw;
    let mby = i / mbw;
    assert(0 <= mbx < mbw && 0 <= mby) by (nonlinear_arith)
        requires
            mbw >= 1,
            i >= 0,
            mbx == i % mbw,
            mby == i / mbw,
    ;
    let modes = row_modes(s.walk.modes, mbx);
    let seen = row_contexts(s.around, mbx);
    assert(seq![IntraMode::DC, IntraMode::DC, IntraMode::DC, IntraMode::DC] =~= edge_modes());
    let (d, headers) = read_macroblock_header(s.headers, params_of(h), modes, mbx);
    let segment = segment_for(h.segments, d.segment_id);
    let (z, tokens) = if d.coeffs_skipped {
        (zero_levels(d.luma_mode), s.tokens)
    } else {
        read_residual(s.tokens, h.token_probs, d.luma_mode, seen.left, seen.top[mbx])
    };
    lemma_shown_macroblock(mbw, s.walk.canvas, d, z, segment, mbx, mby);
    lemma_modes_behind(modes, d, mbx);
    let whole = d.luma_mode != LumaMode::B;
    assert(contexts_behind_nothing(seen.left, d.luma_mode) =~= seen.left.cleared(whole));
    assert(contexts_behind_nothing(seen.top[mbx], d.luma_mode) =~= seen.top[mbx].cleared(whole));
}

/// Decoding one macroblock of the frame of an image.
proof fn lemma_decode_step(image: Image, h: FrameHeader, headers: Reader, tokens: Reader, i: int)
    requires
        image.scene().wf(),
        0 <= i < image.count(),
        h.segments == image.scene().segments,
        h.token_probs == image.token_probs(),
        params_of(h) == image.header_params(),
        follows(headers, mode_bits(image, i + 1)),
        follows(tokens, frame_token_bits(image, i + 1)),
    ensures
        decode_step(h, image.scene().mbw, decoding_at(image, headers, tokens, i), i)
            == decoding_at(image, headers, tokens, i + 1),
        follows(headers, mode_bits(image, i)),
        follows(tokens, frame_token_bits(image, i)),
{
    lemma_macroblock_position(i, image.scene().mbw, image.scene().mbh);
    lemma_traced_step(image, h, headers, tokens, i);
    lemma_steps_alike(h, image.scene().mbw, decoding_at(image, headers, tokens, i), i);
}

/// Decoding the macroblocks of the frame of an image.
pub proof fn lemma_decode_macroblocks(
    image: Image,
    h: FrameHeader,
    headers: Reader,
    tokens: Reader,
    i: int,
)
    requires
        image.scene().wf(),
        0 <= i <= image.count(),
        h.segments == image.scene().segments,
        h.token_probs == image.token_probs(),
        params_of(h) == image.header_params(),
        follows(headers, mode_bits(image, i)),
        follows(tokens, frame_token_bits(image, i)),
    ensures
        decode_macroblocks(
            h,
            image.scene().mbw,
            (Decoding {
                headers,
                tokens,
                walk: image.start(),
                around: image.first(),
                ds: Seq::empty(),
            }),
            i,
        ) == decoding_at(image, headers, tokens, i),
    decreases i,
{
    if i > 0 {
        lemma_decode_step(image, h, headers, tokens, i - 1);
        lemma_decode_macroblocks(image, h, headers, tokens, i - 1);
    } else {
        lemma_follows_nothing(headers);
        lemma_follows_nothing(tokens);
        assert(decoding_at(image, headers, tokens, 0).ds =~= Seq::<Decision>::empty());
    }
}

} // verus!
