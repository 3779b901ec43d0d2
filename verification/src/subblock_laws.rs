//! Why the encoder chooses the sub-block modes that it chooses, and when it
//! uses them.
use vstd::prelude::*;

use crate::arithmetic_encoder::{tree_bits, tree_path};
use crate::binary64::Dyadic;
use crate::common::{
    ChromaMode, IntraMode, LumaMode, Segment, KEYFRAME_BPRED_MODE_TREE,
};
use crate::cost::{bpred_mode_cost, lagrangian, lambda_of, path_cost};
use crate::decoder::lemma_scene_wf;
use crate::decoding::lemma_decoded_subblocks;
use crate::frame::Image;
use crate::frame_decoding::lemma_decision;
use crate::laws::law_cheapest_candidate_is_chosen;
use crate::mode_laws::{
    chroma_cost, lemma_chroma_cost, lemma_rate, lemma_whole_cost, total_size, tried_levels,
    weighed, whole_cost,
};
use crate::model::{
    best_luma, best_sub_mode, cheapest, chroma_candidate, chroma_costs, decide, luma_candidate,
    luma_coeffs, luma_costs, mode_above, mode_left, painted, segment_for, sub_candidate, sub_cost,
    sub_error, sub_levels, sub_predicted, sub_rate, sub_residual, sub_restored, sub_search, Canvas,
    Decision, Modes, Scene,
};
use crate::passes::{replay, row_modes};
use crate::playback::{lemma_differences, lemma_small, lemma_subblocks};
use crate::quantize::{lemma_trunc_div, scaled};
use crate::search::{law_search_reconstructs_what_is_coded, lemma_search_prefix};
use crate::source_laws::{is_level, is_spectrum, lemma_level, lemma_spectrum, missed_small};
use crate::tables::branch_costs::branch_cost_bits;
use crate::tables::mode_probs::bpred_probs;
use crate::transform::{dct, lemma_dct_len, within};
use crate::viewing::{
    differences, edge_line, foretold_small, nearest_pixel, shown_subblocks, tile,
};

verus! {

/// Cost of bits with their probabilities, added up from the last to the first.
pub open spec fn bits_cost(bits: Seq<(bool, u8)>) -> Dyadic
    decreases bits.len(),
{
    if bits.len() == 0 {
        Dyadic::zero()
    } else {
        let (bit, prob) = bits[0];
        bits_cost(bits.drop_first()).plus(
            Dyadic::of_bits(
                branch_cost_bits(
                    if bit {
                        256 - prob
                    } else {
                        prob as int
                    },
                ),
            ),
        )
    }
}

/// Pixel `n` of sub-block `k` as a decoder shows it in the surroundings `t`, with
/// levels that are given in rows.
pub open spec fn small_pixel(
    t: Seq<u8>,
    mode: IntraMode,
    levels: Seq<i32>,
    segment: Segment,
    k: int,
    n: int,
) -> int {
    let c = Seq::new(
        16,
        |i: int|
            (levels[i] * if i == 0 {
                segment.ydc
            } else {
                segment.yac
            }) as i32,
    );
    nearest_pixel(foretold_small(edge_line(t, k), mode, n % 4, n / 4) + differences(c, n))
}

/// Squared differences from the source, over the first `n` pixels of a sub-block.
pub open spec fn small_error(
    scene: Scene,
    t: Seq<u8>,
    mode: IntraMode,
    levels: Seq<i32>,
    segment: Segment,
    mbx: int,
    mby: int,
    k: int,
    n: int,
) -> int
    decreases n,
{
    if n <= 0 {
        0
    } else {
        let x = 16 * mbx + 4 * (k % 4) + (n - 1) % 4;
        let y = 16 * mby + 4 * (k / 4) + (n - 1) / 4;
        let d = small_pixel(t, mode, levels, segment, k, n - 1) - scene.ybuf[y * (16 * scene.mbw)
            + x];
        small_error(scene, t, mode, levels, segment, mbx, mby, k, n - 1) + d * d
    }
}

/// Rate of a sub-block: the sizes of its levels, and the bits of its mode.
pub open spec fn small_rate(
    levels: Seq<i32>,
    top: IntraMode,
    left: IntraMode,
    mode: IntraMode,
) -> Dyadic {
    Dyadic::of(total_size(levels, 16) as nat).plus(
        bits_cost(tree_bits(KEYFRAME_BPRED_MODE_TREE@, bpred_probs(top, left), mode.code(), 0)),
    )
}

/// Cost of a mode for sub-block `k` in the surroundings `t`.
#[verifier::opaque]
pub open spec fn small_cost(
    scene: Scene,
    t: Seq<u8>,
    mode: IntraMode,
    segment: Segment,
    top: IntraMode,
    left: IntraMode,
    mbx: int,
    mby: int,
    k: int,
) -> Dyadic {
    let levels = sub_levels(scene, t, mode, segment, mbx, mby, k);
    weighed(
        small_error(scene, t, mode, levels, segment, mbx, mby, k, 16),
        small_rate(levels, top, left, mode),
        segment.yac,
    )
}

/// A decision to predict by sub-blocks.
pub open spec fn small_decision(chosen: Seq<IntraMode>, id: u8) -> Decision {
    Decision {
        luma_mode: LumaMode::B,
        luma_bpred: Some(chosen),
        chroma_mode: ChromaMode::DC,
        segment_id: Some(id as usize),
        coeffs_skipped: false,
        non_zero_dct: false,
    }
}

/// What a decoder has before sub-block `k` if the modes are `chosen`.
#[verifier::opaque]
pub open spec fn so_far(
    scene: Scene,
    canvas: Canvas,
    chosen: Seq<IntraMode>,
    id: u8,
    mbx: int,
    mby: int,
    k: int,
) -> Seq<u8> {
    let segment = scene.segments[id as int];
    let z = tried_levels(scene, canvas, small_decision(chosen, id), segment, mbx, mby);
    shown_subblocks(
        tile(canvas.y, 16 * scene.mbw, 16 * mbx, 16 * mby),
        chosen,
        z.y,
        segment,
        k,
    )
}

/// The mode above sub-block `k`.
pub open spec fn above_small(modes: Modes, chosen: Seq<IntraMode>, mbx: int, k: int) -> IntraMode {
    if k >= 4 {
        chosen[k - 4]
    } else {
        modes.top[4 * mbx + k]
    }
}

/// The mode to the left of sub-block `k`.
pub open spec fn beside_small(modes: Modes, chosen: Seq<IntraMode>, k: int) -> IntraMode {
    if k % 4 > 0 {
        chosen[k - 1]
    } else {
        modes.left[k / 4]
    }
}

/// Cost of `mode` for sub-block `k` after the modes `chosen`.
pub open spec fn next_cost(
    scene: Scene,
    canvas: Canvas,
    modes: Modes,
    chosen: Seq<IntraMode>,
    id: u8,
    mbx: int,
    mby: int,
    k: int,
    mode: IntraMode,
) -> Dyadic {
    small_cost(
        scene,
        so_far(scene, canvas, chosen, id, mbx, mby, k),
        mode,
        scene.segments[id as int],
        above_small(modes, chosen, mbx, k),
        beside_small(modes, chosen, k),
        mbx,
        mby,
        k,
    )
}

/// Error and rate of the first `k` sub-blocks.
pub open spec fn running(
    scene: Scene,
    canvas: Canvas,
    modes: Modes,
    chosen: Seq<IntraMode>,
    id: u8,
    mbx: int,
    mby: int,
    k: int,
) -> (int, Dyadic)
    decreases k,
{
    if k <= 0 {
        (0, Dyadic::zero())
    } else {
        let j = k - 1;
        let (error, rate) = running(scene, canvas, modes, chosen, id, mbx, mby, j);
        let segment = scene.segments[id as int];
        let t = so_far(scene, canvas, chosen, id, mbx, mby, j);
        let levels = sub_levels(scene, t, chosen[j], segment, mbx, mby, j);
        (
            error + small_error(scene, t, chosen[j], levels, segment, mbx, mby, j, 16),
            rate.plus(
                small_rate(
                    levels,
                    above_small(modes, chosen, mbx, j),
                    beside_small(modes, chosen, j),
                    chosen[j],
                ),
            ),
        )
    }
}

/// The order in which the modes of a sub-block are tried.
pub open spec fn small_order(mode: IntraMode) -> int {
    match mode {
        IntraMode::DC => 0,
        IntraMode::TM => 1,
        IntraMode::VE => 2,
        IntraMode::HE => 3,
        IntraMode::LD => 4,
        IntraMode::RD => 5,
        IntraMode::VR => 6,
        IntraMode::VL => 7,
        IntraMode::HD => 8,
        IntraMode::HU => 9,
    }
}

/// The order in which the modes of a whole luma macroblock are tried.
pub open spec fn whole_order(mode: LumaMode) -> int {
    match mode {
        LumaMode::DC => 0,
        LumaMode::V => 1,
        LumaMode::H => 2,
        LumaMode::TM => 3,
        LumaMode::B => 4,
    }
}

/// The order in which the modes of a chroma macroblock are tried.
pub open spec fn chroma_order(mode: ChromaMode) -> int {
    match mode {
        ChromaMode::DC => 0,
        ChromaMode::V => 1,
        ChromaMode::H => 2,
        ChromaMode::TM => 3,
    }
}

/// `a` is preferred to `b`, which is tried later or earlier: it costs no more,
/// and less if it is tried later.
pub open spec fn preferred(a: Dyadic, b: Dyadic, later: bool) -> bool {
    !b.less(a) && (later ==> a.less(b))
}

/// The luma modes of a macroblock: of the modes for the whole, `best` is the
/// cheapest. `chosen` are, one after the other, the cheapest modes for the
/// sub-blocks. They are used if all of them together cost less than `best`.
pub open spec fn luma_is_cheapest(
    scene: Scene,
    canvas: Canvas,
    modes: Modes,
    d: Decision,
    id: u8,
    mbx: int,
    mby: int,
    best: LumaMode,
    chosen: Seq<IntraMode>,
) -> bool {
    let by_whole = whole_cost(scene, canvas, best, id, mbx, mby);
    let (error, rate) = running(scene, canvas, modes, chosen, id, mbx, mby, 16);
    let by_subblocks = weighed(error, rate, scene.segments[id as int].yac).less(by_whole);
    &&& best != LumaMode::B
    &&& forall|m: LumaMode|
        m != LumaMode::B ==> preferred(
            by_whole,
            #[trigger] whole_cost(scene, canvas, m, id, mbx, mby),
            whole_order(m) < whole_order(best),
        )
    &&& chosen.len() == 16
    &&& forall|k: int, m: IntraMode|
        0 <= k < 16 ==> preferred(
            next_cost(scene, canvas, modes, chosen, id, mbx, mby, k, chosen[k]),
            #[trigger] next_cost(scene, canvas, modes, chosen, id, mbx, mby, k, m),
            small_order(m) < small_order(chosen[k]),
        )
    &&& by_subblocks ==> d.luma_mode == LumaMode::B && d.luma_bpred == Some(chosen)
    &&& !by_subblocks ==> d.luma_mode == best && d.luma_bpred is None
}

/// The cost of coding a path.
proof fn lemma_bits_cost(path: Seq<(bool, int)>, probs: Seq<u8>)
    ensures
        path_cost(path, probs) == bits_cost(
            path.map_values(|b: (bool, int)| (b.0, probs[b.1])),
        ),
    decreases path.len(),
{
    let bits = path.map_values(|b: (bool, int)| (b.0, probs[b.1]));
    if path.len() > 0 {
        lemma_bits_cost(path.drop_first(), probs);
        assert(bits.drop_first() =~= path.drop_first().map_values(
            |b: (bool, int)| (b.0, probs[b.1]),
        ));
    }
}

/// The levels of a sub-block.
proof fn lemma_small_levels(
    scene: Scene,
    t: Seq<u8>,
    mode: IntraMode,
    segment: Segment,
    mbx: int,
    mby: int,
    k: int,
)
    ensures
        sub_levels(scene, t, mode, segment, mbx, mby, k).len() == 16,
{
    reveal(sub_levels);
    lemma_dct_len(sub_residual(scene, sub_predicted(t, mode, k), mbx, mby, k));
}

/// The levels with which a mode is tried say how the source differs from what a
/// decoder foretells with that mode.
pub proof fn law_tried_levels_follow_the_source(
    scene: Scene,
    t: Seq<u8>,
    mode: IntraMode,
    segment: Segment,
    mbx: int,
    mby: int,
    k: int,
)
    requires
        segment.wf(),
        0 <= k < 16,
    ensures
        exists|c: Seq<i32>| #[trigger]
            is_spectrum(
                missed_small(
                    scene.ybuf,
                    16 * scene.mbw,
                    16 * mbx + 4 * (k % 4),
                    16 * mby + 4 * (k / 4),
                    edge_line(t, k),
                    mode,
                ),
                c,
            ) && forall|n: int|
                0 <= n < 16 ==> is_level(
                    c[n] as int,
                    if n == 0 {
                        segment.ydc as int
                    } else {
                        segment.yac as int
                    },
                    #[trigger] sub_levels(scene, t, mode, segment, mbx, mby, k)[n] as int,
                ),
{
    reveal(sub_levels);
    let predicted = sub_predicted(t, mode, k);
    let b = sub_residual(scene, predicted, mbx, mby, k);
    let (w, bx, by) = (16 * scene.mbw, 16 * mbx + 4 * (k % 4), 16 * mby + 4 * (k / 4));
    let m = missed_small(scene.ybuf, w, bx, by, edge_line(t, k), mode);
    assert forall|n: int| 0 <= n < 16 implies #[trigger] b[n] == m[n] by {
        lemma_small(t, mode, k, n % 4, n / 4);
        assert(4 * (n / 4) + n % 4 == n);
        assert((mby * 16 + (k / 4) * 4 + n / 4) * (scene.mbw * 16) + (mbx * 16 + (k % 4) * 4 + n
            % 4) == (by + n / 4) * w + (bx + n % 4));
    }
    assert(b =~= m);
    assert(within(b, 255));
    lemma_spectrum(b);
    let c = dct(b);
    lemma_dct_len(b);
    let levels = sub_levels(scene, t, mode, segment, mbx, mby, k);
    assert forall|n: int| 0 <= n < 16 implies is_level(
        c[n] as int,
        if n == 0 {
            segment.ydc as int
        } else {
            segment.yac as int
        },
        #[trigger] levels[n] as int,
    ) by {
        let step = if n == 0 {
            segment.ydc as int
        } else {
            segment.yac as int
        };
        assert(n > 0 ==> n % 16 == n);
        lemma_level(c[n] as int, step);
        lemma_trunc_div(c[n] as int, step);
    }
    assert(is_spectrum(m, c));
}

/// Pixels of a sub-block.
proof fn lemma_small_pixel(
    scene: Scene,
    t: Seq<u8>,
    mode: IntraMode,
    segment: Segment,
    mbx: int,
    mby: int,
    k: int,
    n: int,
)
    requires
        0 <= k < 16,
        0 <= n < 16,
    ensures
        sub_restored(scene, t, mode, segment, mbx, mby, k)[n] == small_pixel(
            t,
            mode,
            sub_levels(scene, t, mode, segment, mbx, mby, k),
            segment,
            k,
            n,
        ),
{
    reveal(sub_restored);
    let levels = sub_levels(scene, t, mode, segment, mbx, mby, k);
    lemma_small_levels(scene, t, mode, segment, mbx, mby, k);
    let c = Seq::new(
        16,
        |i: int|
            (levels[i] * if i == 0 {
                segment.ydc
            } else {
                segment.yac
            }) as i32,
    );
    let s = scaled(levels, segment.ydc, segment.yac);
    assert forall|i: int| 0 <= i < 16 implies #[trigger] s[i] == c[i] by {
        if i > 0 {
            assert(i % 16 == i);
        }
    }
    assert(s =~= c);
    lemma_small(t, mode, k, n % 4, n / 4);
    assert(4 * (n / 4) + n % 4 == n);
    lemma_differences(c, n);
}

/// Error of a sub-block.
proof fn lemma_small_error(
    scene: Scene,
    t: Seq<u8>,
    mode: IntraMode,
    segment: Segment,
    mbx: int,
    mby: int,
    k: int,
    n: int,
)
    requires
        0 <= k < 16,
        0 <= n <= 16,
    ensures
        sub_error(scene, sub_restored(scene, t, mode, segment, mbx, mby, k), mbx, mby, k, n)
            == small_error(
            scene,
            t,
            mode,
            sub_levels(scene, t, mode, segment, mbx, mby, k),
            segment,
            mbx,
            mby,
            k,
            n,
        ),
    decreases n,
{
    if n > 0 {
        lemma_small_error(scene, t, mode, segment, mbx, mby, k, n - 1);
        lemma_small_pixel(scene, t, mode, segment, mbx, mby, k, n - 1);
        let i = n - 1;
        assert((mby * 16 + (k / 4) * 4 + i / 4) * (scene.mbw * 16) + (mbx * 16 + (k % 4) * 4 + i
            % 4) == (16 * mby + 4 * (k / 4) + i / 4) * (16 * scene.mbw) + (16 * mbx + 4 * (k % 4)
            + i % 4));
    }
}

/// Rate of a sub-block.
proof fn lemma_small_rate(
    scene: Scene,
    t: Seq<u8>,
    mode: IntraMode,
    segment: Segment,
    mbx: int,
    mby: int,
    k: int,
    top: IntraMode,
    left: IntraMode,
)
    ensures
        ({
            let levels = sub_levels(scene, t, mode, segment, mbx, mby, k);
            sub_rate(levels, top, left, mode) == small_rate(levels, top, left, mode)
        }),
{
    reveal(sub_rate);
    reveal(bpred_mode_cost);
    let levels = sub_levels(scene, t, mode, segment, mbx, mby, k);
    lemma_small_levels(scene, t, mode, segment, mbx, mby, k);
    lemma_rate(levels, 16);
    assert(levels.take(16) =~= levels);
    lemma_bits_cost(
        tree_path(KEYFRAME_BPRED_MODE_TREE@, mode.code(), 0),
        bpred_probs(top, left),
    );
}

/// Cost of a sub-block.
proof fn lemma_small_cost(
    scene: Scene,
    t: Seq<u8>,
    mode: IntraMode,
    segment: Segment,
    mbx: int,
    mby: int,
    k: int,
    top: IntraMode,
    left: IntraMode,
)
    requires
        0 <= k < 16,
    ensures
        sub_cost(scene, t, mode, segment, lambda_of(segment.yac), top, left, mbx, mby, k)
            == small_cost(scene, t, mode, segment, top, left, mbx, mby, k),
{
    reveal(sub_cost);
    reveal(small_cost);
    reveal(lagrangian);
    reveal(lambda_of);
    lemma_small_error(scene, t, mode, segment, mbx, mby, k, 16);
    lemma_small_rate(scene, t, mode, segment, mbx, mby, k, top, left);
}

/// What the search has before sub-block `k`.
proof fn lemma_so_far(
    scene: Scene,
    canvas: Canvas,
    modes: Modes,
    id: u8,
    mbx: int,
    mby: int,
    k: int,
)
    requires
        id < 4,
        0 <= mbx < scene.mbw,
        0 <= mby,
        0 <= k <= 16,
    ensures
        ({
            let segment = scene.segments[id as int];
            let lambda = lambda_of(segment.yac);
            let chosen = sub_search(scene, canvas, modes, segment, lambda, mbx, mby, 16).modes;
            let s = sub_search(scene, canvas, modes, segment, lambda, mbx, mby, k);
            &&& chosen.len() == 16
            &&& s.modes == chosen.take(k)
            &&& s.ws == so_far(scene, canvas, chosen, id, mbx, mby, k)
        }),
{
    reveal(so_far);
    reveal(luma_coeffs);
    let segment = scene.segments[id as int];
    let lambda = lambda_of(segment.yac);
    let chosen = sub_search(scene, canvas, modes, segment, lambda, mbx, mby, 16).modes;
    lemma_search_prefix(scene, canvas, modes, segment, lambda, mbx, mby, k, 16);
    law_search_reconstructs_what_is_coded(
        scene,
        canvas,
        modes,
        segment,
        lambda,
        mbx,
        mby,
        chosen,
        k,
    );
    let d = small_decision(chosen, id);
    assert(segment_for(scene.segments, d.segment_id) == segment);
    let z = tried_levels(scene, canvas, d, segment, mbx, mby);
    lemma_decoded_subblocks(scene, canvas, chosen, segment, mbx, mby, z.y, k);
    lemma_subblocks(scene.mbw, canvas, chosen, z.y, segment, mbx, mby, k);
}

/// The search takes the cheapest mode for each sub-block.
proof fn lemma_next_cost(
    scene: Scene,
    canvas: Canvas,
    modes: Modes,
    id: u8,
    mbx: int,
    mby: int,
    k: int,
    m: IntraMode,
)
    requires
        id < 4,
        0 <= mbx < scene.mbw,
        0 <= mby,
        0 <= k < 16,
    ensures
        ({
            let segment = scene.segments[id as int];
            let lambda = lambda_of(segment.yac);
            let chosen = sub_search(scene, canvas, modes, segment, lambda, mbx, mby, 16).modes;
            preferred(
                next_cost(scene, canvas, modes, chosen, id, mbx, mby, k, chosen[k]),
                next_cost(scene, canvas, modes, chosen, id, mbx, mby, k, m),
                small_order(m) < small_order(chosen[k]),
            )
        }),
{
    let segment = scene.segments[id as int];
    let lambda = lambda_of(segment.yac);
    let chosen = sub_search(scene, canvas, modes, segment, lambda, mbx, mby, 16).modes;
    let s = sub_search(scene, canvas, modes, segment, lambda, mbx, mby, k);
    lemma_so_far(scene, canvas, modes, id, mbx, mby, k);
    lemma_so_far(scene, canvas, modes, id, mbx, mby, k + 1);
    let top = above_small(modes, chosen, mbx, k);
    let left = beside_small(modes, chosen, k);
    assert(mode_above(modes, s.modes, mbx, k) == top) by {
        if k >= 4 {
            assert(s.modes[k - 4] == chosen[k - 4]);
        }
    }
    assert(mode_left(modes, s.modes, k) == left) by {
        if k % 4 > 0 {
            assert(s.modes[k - 1] == chosen[k - 1]);
        }
    }
    assert(chosen[k] == chosen.take(k + 1)[k]);
    assert(chosen[k] == best_sub_mode(scene, s.ws, segment, lambda, top, left, mbx, mby, k));
    reveal(best_sub_mode);
    let costs = Seq::new(
        10,
        |j: int| sub_cost(scene, s.ws, sub_candidate(j), segment, lambda, top, left, mbx, mby, k),
    );
    let j = small_order(m);
    let c = cheapest(costs, 10);
    law_cheapest_candidate_is_chosen(costs, 10, j);
    assert(sub_candidate(j) == m);
    assert(small_order(sub_candidate(c)) == c);
    lemma_small_cost(scene, s.ws, m, segment, mbx, mby, k, top, left);
    lemma_small_cost(scene, s.ws, chosen[k], segment, mbx, mby, k, top, left);
    assert(costs[j] == next_cost(scene, canvas, modes, chosen, id, mbx, mby, k, m));
    assert(costs[c] == next_cost(scene, canvas, modes, chosen, id, mbx, mby, k, chosen[k]));
}

/// The error and the rate that the search adds up.
proof fn lemma_running(
    scene: Scene,
    canvas: Canvas,
    modes: Modes,
    id: u8,
    mbx: int,
    mby: int,
    k: int,
)
    requires
        id < 4,
        0 <= mbx < scene.mbw,
        0 <= mby,
        0 <= k <= 16,
    ensures
        ({
            let segment = scene.segments[id as int];
            let lambda = lambda_of(segment.yac);
            let chosen = sub_search(scene, canvas, modes, segment, lambda, mbx, mby, 16).modes;
            let s = sub_search(scene, canvas, modes, segment, lambda, mbx, mby, k);
            running(scene, canvas, modes, chosen, id, mbx, mby, k) == (s.distortion, s.rate)
        }),
    decreases k,
{
    if k > 0 {
        let j = k - 1;
        lemma_running(scene, canvas, modes, id, mbx, mby, j);
        let segment = scene.segments[id as int];
        let lambda = lambda_of(segment.yac);
        let chosen = sub_search(scene, canvas, modes, segment, lambda, mbx, mby, 16).modes;
        let s = sub_search(scene, canvas, modes, segment, lambda, mbx, mby, j);
        lemma_so_far(scene, canvas, modes, id, mbx, mby, j);
        lemma_so_far(scene, canvas, modes, id, mbx, mby, k);
        let top = above_small(modes, chosen, mbx, j);
        let left = beside_small(modes, chosen, j);
        assert(mode_above(modes, s.modes, mbx, j) == top) by {
            if j >= 4 {
                assert(s.modes[j - 4] == chosen[j - 4]);
            }
        }
        assert(mode_left(modes, s.modes, j) == left) by {
            if j % 4 > 0 {
                assert(s.modes[j - 1] == chosen[j - 1]);
            }
        }
        assert(chosen[j] == chosen.take(k)[j]);
        lemma_small_error(scene, s.ws, chosen[j], segment, mbx, mby, j, 16);
        lemma_small_rate(scene, s.ws, chosen[j], segment, mbx, mby, j, top, left);
    }
}

/// Painting keeps the size of the canvas.
pub proof fn lemma_canvas_wf(image: Image, i: int)
    requires
        image.scene().wf(),
        0 <= i,
    ensures
        replay(image.scene(), image.start(), image.decisions(), i).canvas.wf(
            image.scene().mbw,
            image.scene().mbh,
        ),
    decreases i,
{
    let (w, h) = (image.scene().mbw, image.scene().mbh);
    assert((w * 16) * (h * 16) >= 0 && (w * 8) * (h * 8) >= 0) by (nonlinear_arith)
        requires
            0 <= w,
            0 <= h,
    ;
    if i > 0 {
        lemma_canvas_wf(image, i - 1);
        reveal(painted);
    }
}

/// The luma modes of every macroblock of an image are the cheapest.
pub proof fn law_luma_modes_are_the_cheapest(image: Image, i: int)
    requires
        image.wf(),
        0 <= i < image.count(),
    ensures
        ({
            let scene = image.scene();
            let w = replay(scene, image.start(), image.decisions(), i);
            let mbx = i % scene.mbw;
            exists|best: LumaMode, chosen: Seq<IntraMode>| #[trigger]
                luma_is_cheapest(
                    scene,
                    w.canvas,
                    row_modes(w.modes, mbx),
                    image.decisions()[i],
                    scene.ids[i],
                    mbx,
                    i / scene.mbw,
                    best,
                    chosen,
                )
        }),
{
    let scene = image.scene();
    let w = replay(scene, image.start(), image.decisions(), i);
    let (mbx, mby) = (i % scene.mbw, i / scene.mbw);
    let (canvas, modes) = (w.canvas, row_modes(w.modes, mbx));
    let d = image.decisions()[i];
    lemma_scene_wf(image);
    lemma_decision(image, i);
    lemma_canvas_wf(image, i);
    assert(mby * scene.mbw + mbx == i) by {
        vstd::arithmetic::div_mod::lemma_fundamental_div_mod(i, scene.mbw);
        assert(scene.mbw * mby == mby * scene.mbw) by (nonlinear_arith);
    }
    reveal(decide);
    let id = scene.ids[i];
    let segment = scene.segments[id as int];
    let lambda = lambda_of(segment.yac);
    let s = sub_search(scene, canvas, modes, segment, lambda, mbx, mby, 16);
    let costs = luma_costs(scene, canvas, segment, mbx, mby);
    let c = best_luma(scene, canvas, segment, mbx, mby);
    law_cheapest_candidate_is_chosen(costs, 4, 0);
    let best = luma_candidate(c);
    lemma_whole_cost(scene, canvas, best, id, mbx, mby);
    assert(whole_order(best) == c);
    assert forall|m: LumaMode| m != LumaMode::B implies preferred(
        whole_cost(scene, canvas, best, id, mbx, mby),
        #[trigger] whole_cost(scene, canvas, m, id, mbx, mby),
        whole_order(m) < whole_order(best),
    ) by {
        let j = whole_order(m);
        law_cheapest_candidate_is_chosen(costs, 4, j);
        assert(luma_candidate(j) == m);
        lemma_whole_cost(scene, canvas, m, id, mbx, mby);
    }
    lemma_so_far(scene, canvas, modes, id, mbx, mby, 16);
    assert forall|k: int, m: IntraMode| 0 <= k < 16 implies preferred(
        next_cost(scene, canvas, modes, s.modes, id, mbx, mby, k, s.modes[k]),
        #[trigger] next_cost(scene, canvas, modes, s.modes, id, mbx, mby, k, m),
        small_order(m) < small_order(s.modes[k]),
    ) by {
        lemma_next_cost(scene, canvas, modes, id, mbx, mby, k, m);
    }
    lemma_running(scene, canvas, modes, id, mbx, mby, 16);
    assert(lagrangian(s.distortion, lambda, s.rate) == weighed(
        s.distortion,
        s.rate,
        segment.yac,
    )) by {
        reveal(lagrangian);
        reveal(lambda_of);
    }
    assert(luma_is_cheapest(scene, canvas, modes, d, id, mbx, mby, best, s.modes));
}

/// The chroma mode of every macroblock of an image is the cheapest.
pub proof fn law_chroma_mode_is_the_cheapest(image: Image, i: int, m: ChromaMode)
    requires
        image.wf(),
        0 <= i < image.count(),
    ensures
        ({
            let scene = image.scene();
            let canvas = replay(scene, image.start(), image.decisions(), i).canvas;
            let (mbx, mby) = (i % scene.mbw, i / scene.mbw);
            let mode = image.decisions()[i].chroma_mode;
            preferred(
                chroma_cost(scene, canvas, mode, scene.ids[i], mbx, mby),
                chroma_cost(scene, canvas, m, scene.ids[i], mbx, mby),
                chroma_order(m) < chroma_order(mode),
            )
        }),
{
    let scene = image.scene();
    let w = replay(scene, image.start(), image.decisions(), i);
    let (mbx, mby) = (i % scene.mbw, i / scene.mbw);
    let canvas = w.canvas;
    let mode = image.decisions()[i].chroma_mode;
    lemma_scene_wf(image);
    lemma_decision(image, i);
    lemma_canvas_wf(image, i);
    assert(mby * scene.mbw + mbx == i) by {
        vstd::arithmetic::div_mod::lemma_fundamental_div_mod(i, scene.mbw);
        assert(scene.mbw * mby == mby * scene.mbw) by (nonlinear_arith);
    }
    reveal(decide);
    let id = scene.ids[i];
    let segment = scene.segments[id as int];
    let costs = chroma_costs(scene, canvas, segment, mbx, mby);
    let c = cheapest(costs, 4);
    let j = chroma_order(m);
    law_cheapest_candidate_is_chosen(costs, 4, j);
    assert(chroma_candidate(j) == m);
    assert(chroma_order(chroma_candidate(c)) == c);
    lemma_chroma_cost(scene, canvas, m, id, mbx, mby);
    lemma_chroma_cost(scene, canvas, mode, id, mbx, mby);
}

} // verus!
