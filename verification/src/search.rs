//! The search for sub-block modes, and what is coded with the modes it finds.
use vstd::prelude::*;

use crate::binary64::Dyadic;
use crate::blocks::{fits, placed};
use crate::common::{IntraMode, Segment};
use crate::model::{
    best_sub_mode, mode_above, mode_left, restored_subblocks, sub_coeffs, sub_error, sub_levels,
    sub_nonzero, sub_predicted, sub_residual, sub_restored, sub_search, sub_source,
    subblock_coeffs, subs_have_nonzero, Canvas, Modes, Scene,
};
use crate::prediction::{lemma_inside, lemma_position};
use crate::quantize::{any_nonzero, block_at, lemma_quantized_bound, quantized, scaled};
use crate::reconstruct::lemma_sub_coeffs_bound;
use crate::segments::lemma_macroblock_fits;
use crate::transform::lemma_dct_len;

verus! {

/// The search has a mode and sixteen levels for each sub-block.
pub proof fn lemma_search_len(
    scene: Scene,
    canvas: Canvas,
    modes: Modes,
    segment: Segment,
    lambda: Dyadic,
    mbx: int,
    mby: int,
    k: int,
)
    requires
        0 <= k,
    ensures
        sub_search(scene, canvas, modes, segment, lambda, mbx, mby, k).modes.len() == k,
        sub_search(scene, canvas, modes, segment, lambda, mbx, mby, k).levels.len() == 16 * k,
    decreases k,
{
    if k > 0 {
        lemma_search_len(scene, canvas, modes, segment, lambda, mbx, mby, k - 1);
        let s = sub_search(scene, canvas, modes, segment, lambda, mbx, mby, k - 1);
        let top = mode_above(modes, s.modes, mbx, k - 1);
        let left = mode_left(modes, s.modes, k - 1);
        let mode = best_sub_mode(scene, s.ws, segment, lambda, top, left, mbx, mby, k - 1);
        reveal(sub_levels);
        lemma_dct_len(sub_residual(scene, sub_predicted(s.ws, mode, k - 1), mbx, mby, k - 1));
    }
}

/// The search reconstructs as the encoder does, and its levels are those that
/// the encoder codes.
pub proof fn law_search_reconstructs_what_is_coded(
    scene: Scene,
    canvas: Canvas,
    modes: Modes,
    segment: Segment,
    lambda: Dyadic,
    mbx: int,
    mby: int,
    chosen: Seq<IntraMode>,
    k: int,
)
    requires
        0 <= k <= chosen.len(),
        chosen.take(k) == sub_search(scene, canvas, modes, segment, lambda, mbx, mby, k).modes,
    ensures
        restored_subblocks(scene, canvas, chosen, segment, mbx, mby, k) == sub_search(
            scene,
            canvas,
            modes,
            segment,
            lambda,
            mbx,
            mby,
            k,
        ).ws,
        forall|n: int|
            0 <= n < 16 * k ==> #[trigger] sub_search(
                scene,
                canvas,
                modes,
                segment,
                lambda,
                mbx,
                mby,
                k,
            ).levels[n] == sub_levels(
                scene,
                restored_subblocks(scene, canvas, chosen, segment, mbx, mby, n / 16),
                chosen[n / 16],
                segment,
                mbx,
                mby,
                n / 16,
            )[n % 16],
    decreases k,
{
    if k > 0 {
        let s = sub_search(scene, canvas, modes, segment, lambda, mbx, mby, k - 1);
        let t = sub_search(scene, canvas, modes, segment, lambda, mbx, mby, k);
        lemma_search_len(scene, canvas, modes, segment, lambda, mbx, mby, k - 1);
        lemma_search_len(scene, canvas, modes, segment, lambda, mbx, mby, k);
        assert(chosen.take(k - 1) =~= chosen.take(k).drop_last());
        assert(t.modes.drop_last() =~= s.modes);
        law_search_reconstructs_what_is_coded(
            scene,
            canvas,
            modes,
            segment,
            lambda,
            mbx,
            mby,
            chosen,
            k - 1,
        );
        let mode = t.modes.last();
        assert(chosen[k - 1] == chosen.take(k).last());
        assert(chosen[k - 1] == mode);
        let levels = sub_levels(scene, s.ws, mode, segment, mbx, mby, k - 1);
        assert(t.levels == s.levels + levels);
        assert forall|n: int| 0 <= n < 16 * k implies #[trigger] t.levels[n] == sub_levels(
            scene,
            restored_subblocks(scene, canvas, chosen, segment, mbx, mby, n / 16),
            chosen[n / 16],
            segment,
            mbx,
            mby,
            n / 16,
        )[n % 16] by {
            if n < 16 * (k - 1) {
                assert(t.levels[n] == s.levels[n]);
            } else {
                assert(n / 16 == k - 1 && n % 16 == n - 16 * (k - 1));
            }
        }
    }
}

/// Squared difference of two planes in pixel `i` of the macroblock at `px`,
/// `py`.
pub open spec fn pixel_error(a: Seq<u8>, b: Seq<u8>, w: int, px: int, py: int, i: int) -> int {
    let n = (py + i / 16) * w + (px + i % 16);
    (a[n] - b[n]) * (a[n] - b[n])
}

/// Sum of the squared differences of two planes in the first `i` pixels of the
/// luma macroblock at `px`, `py`.
pub open spec fn plane_error(a: Seq<u8>, b: Seq<u8>, w: int, px: int, py: int, i: int) -> int
    decreases i,
{
    if i <= 0 {
        0
    } else {
        plane_error(a, b, w, px, py, i - 1) + pixel_error(a, b, w, px, py, i - 1)
    }
}

/// Pixel `i` of sub-block `k`, counted through the rows of the macroblock.
spec fn pixel_of(k: int, i: int) -> int {
    ((k / 4) * 4 + i / 4) * 16 + ((k % 4) * 4 + i % 4)
}

/// Sum of the first `n` values.
spec fn sum(e: spec_fn(int) -> int, n: int) -> int
    decreases n,
{
    if n <= 0 {
        0
    } else {
        sum(e, n - 1) + e(n - 1)
    }
}

/// Sum of the values of the first `i` pixels of sub-block `k`.
spec fn block_sum(e: spec_fn(int) -> int, k: int, i: int) -> int
    decreases i,
{
    if i <= 0 {
        0
    } else {
        block_sum(e, k, i - 1) + e(pixel_of(k, i - 1))
    }
}

/// Sum of the values of four neighbours.
spec fn four(e: spec_fn(int) -> int, n: int) -> int {
    e(n) + e(n + 1) + e(n + 2) + e(n + 3)
}

proof fn lemma_sum_four(e: spec_fn(int) -> int, n: int)
    requires
        n >= 0,
    ensures
        sum(e, n + 4) == sum(e, n) + four(e, n),
{
    reveal_with_fuel(sum, 5);
}

proof fn lemma_sum_row(e: spec_fn(int) -> int, n: int)
    requires
        n >= 0,
    ensures
        sum(e, n + 16) == sum(e, n) + four(e, n) + four(e, n + 4) + four(e, n + 8) + four(
            e,
            n + 12,
        ),
{
    lemma_sum_four(e, n);
    lemma_sum_four(e, n + 4);
    lemma_sum_four(e, n + 8);
    lemma_sum_four(e, n + 12);
}

proof fn lemma_block_sum(e: spec_fn(int) -> int, k: int)
    requires
        0 <= k < 16,
    ensures
        ({
            let n = (k / 4) * 64 + (k % 4) * 4;
            block_sum(e, k, 16) == four(e, n) + four(e, n + 16) + four(e, n + 32) + four(e, n + 48)
        }),
{
    let n = (k / 4) * 64 + (k % 4) * 4;
    assert forall|i: int| 0 <= i < 16 implies #[trigger] pixel_of(k, i) == n + (i / 4) * 16 + i
        % 4 by {}
    assert(pixel_of(k, 0) == n && pixel_of(k, 1) == n + 1 && pixel_of(k, 2) == n + 2 && pixel_of(
        k,
        3,
    ) == n + 3);
    assert(pixel_of(k, 4) == n + 16 && pixel_of(k, 5) == n + 17 && pixel_of(k, 6) == n + 18
        && pixel_of(k, 7) == n + 19);
    assert(pixel_of(k, 8) == n + 32 && pixel_of(k, 9) == n + 33 && pixel_of(k, 10) == n + 34
        && pixel_of(k, 11) == n + 35);
    assert(pixel_of(k, 12) == n + 48 && pixel_of(k, 13) == n + 49 && pixel_of(k, 14) == n + 50
        && pixel_of(k, 15) == n + 51);
    reveal_with_fuel(block_sum, 17);
}

/// Sum of the values of the first `k` sub-blocks.
spec fn blocks_sum(e: spec_fn(int) -> int, k: int) -> int
    decreases k,
{
    if k <= 0 {
        0
    } else {
        blocks_sum(e, k - 1) + block_sum(e, k - 1, 16)
    }
}

/// Four rows of pixels are a row of sub-blocks.
proof fn lemma_rows(e: spec_fn(int) -> int, r: int)
    requires
        0 <= r < 4,
    ensures
        sum(e, 64 * r + 64) - sum(e, 64 * r) == blocks_sum(e, 4 * r + 4) - blocks_sum(e, 4 * r),
{
    lemma_sum_row(e, 64 * r);
    lemma_sum_row(e, 64 * r + 16);
    lemma_sum_row(e, 64 * r + 32);
    lemma_sum_row(e, 64 * r + 48);
    lemma_block_sum(e, 4 * r);
    lemma_block_sum(e, 4 * r + 1);
    lemma_block_sum(e, 4 * r + 2);
    lemma_block_sum(e, 4 * r + 3);
    reveal_with_fuel(blocks_sum, 5);
}

/// Adding up row by row or sub-block by sub-block gives the same.
proof fn lemma_macroblock_sum(e: spec_fn(int) -> int)
    ensures
        sum(e, 256) == blocks_sum(e, 16),
{
    lemma_rows(e, 0);
    lemma_rows(e, 1);
    lemma_rows(e, 2);
    lemma_rows(e, 3);
}

/// Position of pixel `p` of a luma macroblock in its bordered form.
spec fn bordered_position(p: int) -> int {
    (p / 16 + 1) * 21 + (p % 16 + 1)
}

/// Later sub-blocks leave the pixels of earlier ones alone.
proof fn lemma_settled(
    scene: Scene,
    canvas: Canvas,
    modes: Seq<IntraMode>,
    segment: Segment,
    mbx: int,
    mby: int,
    k: int,
    i: int,
    m: int,
)
    requires
        0 <= k < m <= 16,
        0 <= i < 16,
    ensures
        restored_subblocks(scene, canvas, modes, segment, mbx, mby, m)[bordered_position(
            pixel_of(k, i),
        )] == sub_restored(
            scene,
            restored_subblocks(scene, canvas, modes, segment, mbx, mby, k),
            modes[k],
            segment,
            mbx,
            mby,
            k,
        )[i],
    decreases m,
{
    let p = pixel_of(k, i);
    let n = bordered_position(p);
    assert(p / 16 == (k / 4) * 4 + i / 4 && p % 16 == (k % 4) * 4 + i % 4);
    assert(n / 21 == (k / 4) * 4 + i / 4 + 1 && n % 21 == (k % 4) * 4 + i % 4 + 1);
    assert(0 <= n < 357);
    if m == k + 1 {
        assert((i / 4) * 4 + i % 4 == i);
    } else {
        lemma_settled(scene, canvas, modes, segment, mbx, mby, k, i, m - 1);
        let j = m - 1;
        let row = n / 21 - (1 + (j / 4) * 4);
        let col = n % 21 - (1 + (j % 4) * 4);
        assert(!(0 <= row < 4 && 0 <= col < 4)) by {
            if j / 4 == k / 4 {
                assert(j % 4 > k % 4);
            } else {
                assert(j / 4 > k / 4);
            }
        }
    }
}

/// The error of a sub-block is that of its pixels in the macroblock.
proof fn lemma_sub_error(
    scene: Scene,
    restored: Seq<u8>,
    e: spec_fn(int) -> int,
    mbx: int,
    mby: int,
    k: int,
    i: int,
)
    requires
        0 <= k < 16,
        0 <= i <= 16,
        forall|j: int|
            0 <= j < 16 ==> #[trigger] e(pixel_of(k, j)) == (restored[j] - sub_source(
                scene,
                mbx,
                mby,
                k,
                j,
            )) * (restored[j] - sub_source(scene, mbx, mby, k, j)),
    ensures
        sub_error(scene, restored, mbx, mby, k, i) == block_sum(e, k, i),
    decreases i,
{
    if i > 0 {
        lemma_sub_error(scene, restored, e, mbx, mby, k, i - 1);
        assert(e(pixel_of(k, i - 1)) == (restored[i - 1] - sub_source(scene, mbx, mby, k, i - 1))
            * (restored[i - 1] - sub_source(scene, mbx, mby, k, i - 1)));
    }
}

/// The error that the search has added up is that of the reconstruction.
proof fn lemma_search_error(
    scene: Scene,
    canvas: Canvas,
    modes: Modes,
    segment: Segment,
    lambda: Dyadic,
    mbx: int,
    mby: int,
    e: spec_fn(int) -> int,
    k: int,
)
    requires
        0 <= k <= 16,
        ({
            let chosen = sub_search(scene, canvas, modes, segment, lambda, mbx, mby, 16).modes;
            forall|j: int, i: int|
                0 <= j < 16 && 0 <= i < 16 ==> #[trigger] e(pixel_of(j, i)) == ({
                    let ws = restored_subblocks(scene, canvas, chosen, segment, mbx, mby, j);
                    let d = sub_restored(scene, ws, chosen[j], segment, mbx, mby, j)[i]
                        - sub_source(scene, mbx, mby, j, i);
                    d * d
                })
        }),
    ensures
        sub_search(scene, canvas, modes, segment, lambda, mbx, mby, k).distortion == blocks_sum(
            e,
            k,
        ),
    decreases k,
{
    if k > 0 {
        lemma_search_error(scene, canvas, modes, segment, lambda, mbx, mby, e, k - 1);
        let chosen = sub_search(scene, canvas, modes, segment, lambda, mbx, mby, 16).modes;
        let s = sub_search(scene, canvas, modes, segment, lambda, mbx, mby, k - 1);
        let t = sub_search(scene, canvas, modes, segment, lambda, mbx, mby, k);
        lemma_search_len(scene, canvas, modes, segment, lambda, mbx, mby, k);
        lemma_search_len(scene, canvas, modes, segment, lambda, mbx, mby, k - 1);
        lemma_search_prefix(scene, canvas, modes, segment, lambda, mbx, mby, k, 16);
        lemma_search_prefix(scene, canvas, modes, segment, lambda, mbx, mby, k - 1, 16);
        law_search_reconstructs_what_is_coded(
            scene,
            canvas,
            modes,
            segment,
            lambda,
            mbx,
            mby,
            chosen,
            k - 1,
        );
        assert(chosen[k - 1] == chosen.take(k)[k - 1]);
        let restored = sub_restored(scene, s.ws, chosen[k - 1], segment, mbx, mby, k - 1);
        assert(t.distortion == s.distortion + sub_error(scene, restored, mbx, mby, k - 1, 16));
        lemma_sub_error(scene, restored, e, mbx, mby, k - 1, 16);
    }
}

/// The search does not change the modes that it has found.
pub proof fn lemma_search_prefix(
    scene: Scene,
    canvas: Canvas,
    modes: Modes,
    segment: Segment,
    lambda: Dyadic,
    mbx: int,
    mby: int,
    k: int,
    m: int,
)
    requires
        0 <= k <= m,
    ensures
        sub_search(scene, canvas, modes, segment, lambda, mbx, mby, m).modes.len() == m,
        sub_search(scene, canvas, modes, segment, lambda, mbx, mby, m).modes.take(k) == sub_search(
            scene,
            canvas,
            modes,
            segment,
            lambda,
            mbx,
            mby,
            k,
        ).modes,
    decreases m,
{
    lemma_search_len(scene, canvas, modes, segment, lambda, mbx, mby, m);
    let t = sub_search(scene, canvas, modes, segment, lambda, mbx, mby, m).modes;
    if k == m {
        assert(t.take(k) =~= t);
    } else {
        lemma_search_prefix(scene, canvas, modes, segment, lambda, mbx, mby, k, m - 1);
        let s = sub_search(scene, canvas, modes, segment, lambda, mbx, mby, m - 1).modes;
        assert(t.drop_last() =~= s);
        assert(t.take(k) =~= s.take(k));
    }
}

/// A macroblock in its plane has the pixels of its bordered form.
proof fn lemma_placed_error(
    plane: Seq<u8>,
    src: Seq<u8>,
    ws: Seq<u8>,
    w: int,
    px: int,
    py: int,
    i: int,
)
    requires
        fits(plane.len() as int, w, px, py, 16),
        0 <= i <= 256,
    ensures
        plane_error(placed(plane, w, px, py, ws, 16, 21), src, w, px, py, i) == sum(
            placed_error(src, ws, w, px, py),
            i,
        ),
    decreases i,
{
    if i > 0 {
        lemma_placed_error(plane, src, ws, w, px, py, i - 1);
        let (row, col) = ((i - 1) / 16, (i - 1) % 16);
        lemma_position(px + col, py + row, w);
        lemma_inside(px + col, py + row, w, py + 16, plane.len() as int);
    }
}

/// Squared differences of a bordered macroblock from the source.
spec fn placed_error(src: Seq<u8>, ws: Seq<u8>, w: int, px: int, py: int) -> spec_fn(int) -> int {
    |i: int|
        {
            let d = ws[bordered_position(i)] - src[(py + i / 16) * w + (px + i % 16)];
            d * d
        }
}

/// The levels of the search are those of the coefficients that are coded.
pub proof fn lemma_search_levels(
    scene: Scene,
    canvas: Canvas,
    modes: Modes,
    segment: Segment,
    lambda: Dyadic,
    mbx: int,
    mby: int,
)
    requires
        segment.wf(),
    ensures
        ({
            let s = sub_search(scene, canvas, modes, segment, lambda, mbx, mby, 16);
            let coeffs = subblock_coeffs(scene, canvas, s.modes, segment, mbx, mby);
            &&& s.levels == quantized(coeffs, segment.ydc, segment.yac)
            &&& subs_have_nonzero(coeffs, segment) == any_nonzero(s.levels)
        }),
{
    let s = sub_search(scene, canvas, modes, segment, lambda, mbx, mby, 16);
    let coeffs = subblock_coeffs(scene, canvas, s.modes, segment, mbx, mby);
    let q = quantized(coeffs, segment.ydc, segment.yac);
    lemma_search_len(scene, canvas, modes, segment, lambda, mbx, mby, 16);
    assert(s.modes.take(16) =~= s.modes);
    law_search_reconstructs_what_is_coded(
        scene,
        canvas,
        modes,
        segment,
        lambda,
        mbx,
        mby,
        s.modes,
        16,
    );
    assert forall|n: int| 0 <= n < 256 implies #[trigger] s.levels[n] == q[n] by {
        let ws = restored_subblocks(scene, canvas, s.modes, segment, mbx, mby, n / 16);
        reveal(sub_levels);
        lemma_sub_coeffs_bound(scene, ws, s.modes[n / 16], mbx, mby, n / 16);
        assert((n % 16) % 16 == n % 16);
    }
    assert(s.levels =~= q);
    assert forall|k: int| 0 <= k < 16 implies #[trigger] sub_nonzero(coeffs, segment, k) == exists|
        i: int,
    |
        0 <= i < 16 && #[trigger] q[k * 16 + i] != 0 by {
        let b = block_at(coeffs, k);
        let levels = quantized(b, segment.ydc, segment.yac);
        let restored = scaled(levels, segment.ydc, segment.yac);
        let ws = restored_subblocks(scene, canvas, s.modes, segment, mbx, mby, k);
        let block = sub_coeffs(scene, ws, s.modes[k], mbx, mby, k);
        lemma_sub_coeffs_bound(scene, ws, s.modes[k], mbx, mby, k);
        assert forall|i: int| 0 <= i < 16 implies #[trigger] b[i] == block[i] by {
            assert((k * 16 + i) / 16 == k && (k * 16 + i) % 16 == i);
        }
        assert(b =~= block);
        lemma_quantized_bound(b, segment.ydc, segment.yac, 2040);
        assert forall|i: int| 0 <= i < 16 implies #[trigger] levels[i] == q[k * 16 + i] by {
            assert((k * 16 + i) % 16 == i % 16);
        }
        if any_nonzero(restored) {
            let i = choose|i: int| 0 <= i < restored.len() && #[trigger] restored[i] != 0;
            assert(levels[i] != 0);
            assert(q[k * 16 + i] != 0);
        }
        if exists|i: int| 0 <= i < 16 && #[trigger] q[k * 16 + i] != 0 {
            let i = choose|i: int| 0 <= i < 16 && #[trigger] q[k * 16 + i] != 0;
            assert(levels[i] != 0);
            assert(restored[i] != 0);
        }
    }
    if any_nonzero(s.levels) {
        let n = choose|n: int| 0 <= n < s.levels.len() && #[trigger] s.levels[n] != 0;
        let (k, i) = (n / 16, n % 16);
        assert(q[k * 16 + i] != 0);
        assert(sub_nonzero(coeffs, segment, k));
    }
    if subs_have_nonzero(coeffs, segment) {
        let k = choose|k: int| 0 <= k < 16 && #[trigger] sub_nonzero(coeffs, segment, k);
        let i = choose|i: int| 0 <= i < 16 && #[trigger] q[k * 16 + i] != 0;
        assert(s.levels[k * 16 + i] != 0);
    }
}

/// What the trial of the sub-block modes has measured is what the encoder
/// produces with them: the coefficients have the levels of the trial, whether
/// one is not zero is told by those levels, and the reconstructed macroblock
/// differs from the source by the error of the trial.
pub proof fn law_trial_is_what_is_produced(
    scene: Scene,
    canvas: Canvas,
    modes: Modes,
    segment: Segment,
    lambda: Dyadic,
    mbx: int,
    mby: int,
)
    requires
        scene.wf(),
        canvas.wf(scene.mbw, scene.mbh),
        segment.wf(),
        0 <= mbx < scene.mbw,
        0 <= mby < scene.mbh,
    ensures
        ({
            let trial = sub_search(scene, canvas, modes, segment, lambda, mbx, mby, 16);
            let coeffs = subblock_coeffs(scene, canvas, trial.modes, segment, mbx, mby);
            let (w, px, py) = (scene.mbw * 16, mbx * 16, mby * 16);
            let restored = restored_subblocks(
                scene,
                canvas,
                trial.modes,
                segment,
                mbx,
                mby,
                16,
            );
            let plane = placed(canvas.y, w, px, py, restored, 16, 21);
            &&& quantized(coeffs, segment.ydc, segment.yac) == trial.levels
            &&& subs_have_nonzero(coeffs, segment) == any_nonzero(trial.levels)
            &&& plane_error(plane, scene.ybuf, w, px, py, 256) == trial.distortion
        }),
{
    let trial = sub_search(scene, canvas, modes, segment, lambda, mbx, mby, 16);
    let chosen = trial.modes;
    let (w, px, py) = (scene.mbw * 16, mbx * 16, mby * 16);
    let ws = restored_subblocks(scene, canvas, chosen, segment, mbx, mby, 16);
    let e = placed_error(scene.ybuf, ws, w, px, py);
    lemma_search_levels(scene, canvas, modes, segment, lambda, mbx, mby);
    lemma_macroblock_fits(mbx, mby, scene.mbw, scene.mbh, 16);
    lemma_placed_error(canvas.y, scene.ybuf, ws, w, px, py, 256);
    lemma_macroblock_sum(e);
    assert forall|j: int, i: int| 0 <= j < 16 && 0 <= i < 16 implies #[trigger] e(pixel_of(j, i))
        == ({
        let before = restored_subblocks(scene, canvas, chosen, segment, mbx, mby, j);
        let d = sub_restored(scene, before, chosen[j], segment, mbx, mby, j)[i] - sub_source(
            scene,
            mbx,
            mby,
            j,
            i,
        );
        d * d
    }) by {
        lemma_settled(scene, canvas, chosen, segment, mbx, mby, j, i, 16);
        let p = pixel_of(j, i);
        assert(p / 16 == (j / 4) * 4 + i / 4 && p % 16 == (j % 4) * 4 + i % 4);
        assert(py + p / 16 == mby * 16 + (j / 4) * 4 + i / 4);
        assert(px + p % 16 == mbx * 16 + (j % 4) * 4 + i % 4);
    }
    lemma_search_error(scene, canvas, modes, segment, lambda, mbx, mby, e, 16);
}

} // verus!
