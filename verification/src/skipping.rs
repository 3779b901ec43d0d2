//! Skipped macroblocks.
use vstd::prelude::*;

use crate::common::{IntraMode, LumaMode, Segment};
use crate::cost::lambda_of;
use crate::decoding::{
    coding_position, decoded_chroma, decoded_luma, decoded_macroblock, decoded_subblocks, raster,
    raster_all,
};
use crate::mode_reading::plain;
use crate::model::{
    chroma_blocks, chroma_coeffs, chroma_has_nonzero, chroma_restored, chroma_trial, decide,
    has_nonzero_dct, luma_blocks, luma_coeffs, luma_has_nonzero, luma_restored, luma_trial, painted,
    predicted_chroma, predicted_luma, restored_subblocks, segment_for, sub_levels, sub_restored,
    sub_search, whole_has_nonzero, Canvas, Decision, Modes, Scene,
};
use crate::quantize::{
    any_nonzero, block_at, coeffs0, lemma_levels, lemma_luma_residue_bound, lemma_quantized_bound,
    luma_nonzero, luma_residue, quantized, scaled, step_of, y2_levels, y2_restored, y_levels,
    y_restored,
};
use crate::reconstruct::{
    lemma_chroma_blocks_bound, lemma_luma_blocks_bound, lemma_sub_coeffs_bound,
};
use crate::residual_reading::{zero_block, zero_levels};
use crate::search::{
    law_search_reconstructs_what_is_coded, lemma_search_len, lemma_search_levels,
};
use crate::transform::{
    idct, lemma_idct_zero, lemma_iwht_zero, lemma_wht_bound, lemma_zero_transforms, wht, within,
};

verus! {

/// Without levels there is no residue.
proof fn lemma_zero_residue(segment: Segment, y2: Seq<i32>, y: Seq<i32>)
    requires
        y2 == zero_block(),
        y == Seq::new(256, |n: int| 0i32),
    ensures
        luma_residue(y2, y, segment) == y,
{
    let z = zero_block();
    lemma_zero_transforms(z);
    assert(scaled(y2, segment.y2dc, segment.y2ac) =~= z) by {
        assert forall|i: int| 0 <= i < 16 implies scaled(y2, segment.y2dc, segment.y2ac)[i] == 0 by {
            assert(0 * step_of(i, segment.y2dc, segment.y2ac) == 0)
                by (nonlinear_arith);
        }
    }
    let dc = y2_restored(y2, segment);
    assert(dc == z);
    assert forall|n: int| 0 <= n < 256 implies luma_residue(y2, y, segment)[n] == 0 by {
        let k = n / 16;
        assert(0 * segment.yac == 0) by (nonlinear_arith);
        assert(y_restored(dc, y, segment, k) =~= z);
    }
    assert(luma_residue(y2, y, segment) =~= y);
}

/// Blocks without levels in coding order have none row by row.
proof fn lemma_zero_raster(count: nat)
    ensures
        raster(zero_block()) == zero_block(),
        raster_all(Seq::new(count, |k: int| zero_block())) == Seq::new(
            (16 * count) as nat,
            |n: int| 0i32,
        ),
{
    assert(raster(zero_block()) =~= zero_block()) by {
        assert forall|n: int| 0 <= n < 16 implies raster(zero_block())[n] == 0 by {
            let i = coding_position(n);
            assert(0 <= i < 16);
        }
    }
    let all = raster_all(Seq::new(count, |k: int| zero_block()));
    assert forall|n: int| 0 <= n < 16 * count implies all[n] == 0 by {
        assert(0 <= n / 16 < count);
    }
    assert(all =~= Seq::new((16 * count) as nat, |n: int| 0i32));
}

proof fn lemma_no_nonzero(b: Seq<i32>)
    requires
        !any_nonzero(b),
    ensures
        b == Seq::new(b.len(), |n: int| 0i32),
{
    assert forall|i: int| 0 <= i < b.len() implies b[i] == 0 by {}
    assert(b =~= Seq::new(b.len(), |n: int| 0i32));
}

/// Decoding without levels what was reconstructed from levels that are all
/// zero.
proof fn lemma_zero_subblocks(
    scene: Scene,
    canvas: Canvas,
    chosen: Seq<IntraMode>,
    segment: Segment,
    mbx: int,
    mby: int,
    k: int,
)
    requires
        0 <= k <= 16,
        forall|j: int|
            0 <= j < 16 ==> #[trigger] sub_levels(
                scene,
                restored_subblocks(scene, canvas, chosen, segment, mbx, mby, j),
                chosen[j],
                segment,
                mbx,
                mby,
                j,
            ) == zero_block(),
    ensures
        decoded_subblocks(
            scene.mbw,
            canvas,
            chosen,
            zero_levels(LumaMode::B).y,
            segment,
            mbx,
            mby,
            k,
        ) == restored_subblocks(scene, canvas, chosen, segment, mbx, mby, k),
    decreases k,
{
    if k > 0 {
        lemma_zero_subblocks(scene, canvas, chosen, segment, mbx, mby, k - 1);
        lemma_zero_raster(16);
        reveal(sub_restored);
        let ws = restored_subblocks(scene, canvas, chosen, segment, mbx, mby, k - 1);
        assert(sub_levels(scene, ws, chosen[k - 1], segment, mbx, mby, k - 1) == zero_block());
    }
}

/// A chroma plane whose levels are all zero.
proof fn lemma_zero_chroma(
    scene: Scene,
    src: Seq<u8>,
    plane: Seq<u8>,
    d: Decision,
    mbx: int,
    mby: int,
)
    requires
        ({
            let segment = segment_for(scene.segments, d.segment_id);
            let ws = predicted_chroma(scene, plane, d.chroma_mode, mbx, mby);
            !any_nonzero(
                quantized(
                    chroma_blocks(scene.mbw, src, ws, mbx, mby),
                    segment.uvdc,
                    segment.uvac,
                ),
            )
        }),
    ensures
        ({
            let segment = segment_for(scene.segments, d.segment_id);
            decoded_chroma(
                scene.mbw,
                plane,
                d,
                Seq::new(4, |k: int| zero_block()),
                segment,
                mbx,
                mby,
            ) == chroma_restored(scene, src, plane, d, mbx, mby)
        }),
{
    let segment = segment_for(scene.segments, d.segment_id);
    let ws = predicted_chroma(scene, plane, d.chroma_mode, mbx, mby);
    let q = quantized(chroma_blocks(scene.mbw, src, ws, mbx, mby), segment.uvdc, segment.uvac);
    lemma_no_nonzero(q);
    lemma_zero_raster(4);
    assert(q.len() == 64);
    assert(raster_all(Seq::new(4, |k: int| zero_block())) == q);
}

/// What is decided of a macroblock in the frame.
pub proof fn lemma_decision_plain(
    scene: Scene,
    canvas: Canvas,
    modes: Modes,
    mbx: int,
    mby: int,
)
    requires
        scene.ids[mby * scene.mbw + mbx] < 4,
    ensures
        plain(decide(scene, canvas, modes, mbx, mby)),
        decide(scene, canvas, modes, mbx, mby).segment_id == Some(
            scene.ids[mby * scene.mbw + mbx] as usize,
        ),
{
    reveal(decide);
    let id = scene.ids[mby * scene.mbw + mbx];
    let segment = scene.segments[id as int];
    lemma_search_len(scene, canvas, modes, segment, lambda_of(segment.yac), mbx, mby, 16);
}

/// The luma of a macroblock that is skipped.
proof fn lemma_skipped_luma(scene: Scene, canvas: Canvas, modes: Modes, mbx: int, mby: int)
    requires
        scene.ids[mby * scene.mbw + mbx] < 4,
        decide(scene, canvas, modes, mbx, mby).coeffs_skipped,
    ensures
        ({
            let d = decide(scene, canvas, modes, mbx, mby);
            let segment = segment_for(scene.segments, d.segment_id);
            decoded_luma(scene.mbw, canvas, d, zero_levels(d.luma_mode), segment, mbx, mby)
                == luma_restored(scene, canvas, d, mbx, mby)
        }),
{
    reveal(decide);
    let d = decide(scene, canvas, modes, mbx, mby);
    let id = scene.ids[mby * scene.mbw + mbx];
    let segment = scene.segments[id as int];
    assert(segment_for(scene.segments, d.segment_id) == segment);
    if d.luma_mode == LumaMode::B {
        let lambda = lambda_of(segment.yac);
        let search = sub_search(scene, canvas, modes, segment, lambda, mbx, mby, 16);
        lemma_search_len(scene, canvas, modes, segment, lambda, mbx, mby, 16);
        assert(d.luma_bpred == Some(search.modes));
        assert(search.modes.take(16) =~= search.modes);
        law_search_reconstructs_what_is_coded(
            scene,
            canvas,
            modes,
            segment,
            lambda,
            mbx,
            mby,
            search.modes,
            16,
        );
        assert forall|j: int| 0 <= j < 16 implies #[trigger] sub_levels(
            scene,
            restored_subblocks(scene, canvas, search.modes, segment, mbx, mby, j),
            search.modes[j],
            segment,
            mbx,
            mby,
            j,
        ) == zero_block() by {
            let ws = restored_subblocks(scene, canvas, search.modes, segment, mbx, mby, j);
            let levels = sub_levels(scene, ws, search.modes[j], segment, mbx, mby, j);
            reveal(sub_levels);
            lemma_sub_coeffs_bound(scene, ws, search.modes[j], mbx, mby, j);
            assert forall|i: int| 0 <= i < 16 implies #[trigger] levels[i] == 0 by {
                let n = 16 * j + i;
                assert(n / 16 == j && n % 16 == i);
                assert(search.levels[n] == 0);
            }
            assert(levels =~= zero_block());
        }
        lemma_zero_subblocks(scene, canvas, search.modes, segment, mbx, mby, 16);
    } else {
        reveal(luma_trial);
        let ws = predicted_luma(scene, canvas, d.luma_mode, mbx, mby);
        let blocks = luma_blocks(scene, ws, mbx, mby);
        let residue = luma_residue(
            y2_levels(blocks, segment),
            y_levels(blocks, segment),
            segment,
        );
        let zeros = Seq::new(256, |n: int| 0i32);
        assert(!any_nonzero(residue));
        lemma_no_nonzero(residue);
        lemma_zero_raster(16);
        assert(residue == zeros);
        lemma_zero_residue(segment, zero_block(), zeros);
    }
}

/// Decoding a skipped macroblock without levels gives what the encoder
/// reconstructed.
pub proof fn law_skipped_macroblocks_need_no_levels(
    scene: Scene,
    canvas: Canvas,
    modes: Modes,
    mbx: int,
    mby: int,
)
    requires
        scene.ids[mby * scene.mbw + mbx] < 4,
        decide(scene, canvas, modes, mbx, mby).coeffs_skipped,
    ensures
        ({
            let d = decide(scene, canvas, modes, mbx, mby);
            let segment = segment_for(scene.segments, d.segment_id);
            decoded_macroblock(scene.mbw, canvas, d, zero_levels(d.luma_mode), segment, mbx, mby)
                == painted(scene, canvas, d, mbx, mby)
        }),
{
    lemma_skipped_luma(scene, canvas, modes, mbx, mby);
    let d = decide(scene, canvas, modes, mbx, mby);
    let id = scene.ids[mby * scene.mbw + mbx];
    let segment = scene.segments[id as int];
    assert(segment_for(scene.segments, d.segment_id) == segment && chroma_trial(
        scene,
        canvas,
        d.chroma_mode,
        segment,
        mbx,
        mby,
    ).all_zero) by {
        reveal(decide);
    }
    assert(!any_nonzero(
        quantized(
            chroma_blocks(
                scene.mbw,
                scene.ubuf,
                predicted_chroma(scene, canvas.u, d.chroma_mode, mbx, mby),
                mbx,
                mby,
            ),
            segment.uvdc,
            segment.uvac,
        ),
    ) && !any_nonzero(
        quantized(
            chroma_blocks(
                scene.mbw,
                scene.vbuf,
                predicted_chroma(scene, canvas.v, d.chroma_mode, mbx, mby),
                mbx,
                mby,
            ),
            segment.uvdc,
            segment.uvac,
        ),
    )) by {
        reveal(chroma_trial);
    }
    lemma_zero_chroma(scene, scene.ubuf, canvas.u, d, mbx, mby);
    lemma_zero_chroma(scene, scene.vbuf, canvas.v, d, mbx, mby);
    reveal(painted);
    reveal(decoded_macroblock);
}

/// No coefficient of the macroblock has a level that is not zero.
pub open spec fn without_levels(
    scene: Scene,
    canvas: Canvas,
    d: Decision,
    mbx: int,
    mby: int,
) -> bool {
    let segment = segment_for(scene.segments, d.segment_id);
    let y = luma_coeffs(scene, canvas, d, mbx, mby);
    let u = chroma_coeffs(scene, scene.ubuf, canvas.u, d, mbx, mby);
    let v = chroma_coeffs(scene, scene.vbuf, canvas.v, d, mbx, mby);
    &&& if d.luma_mode == LumaMode::B {
        !any_nonzero(quantized(y, segment.ydc, segment.yac))
    } else {
        !any_nonzero(y2_levels(y, segment)) && !any_nonzero(y_levels(y, segment))
    }
    &&& !any_nonzero(quantized(u, segment.uvdc, segment.uvac))
    &&& !any_nonzero(quantized(v, segment.uvdc, segment.uvac))
}

/// DC coefficients that are all restored to zero had no levels.
proof fn lemma_restored_dc(blocks: Seq<i32>, segment: Segment)
    requires
        segment.wf(),
        blocks.len() == 256,
        forall|i: int| 0 <= i < 256 ==> -2040 <= #[trigger] blocks[i] <= 2040,
    ensures
        any_nonzero(y2_restored(y2_levels(blocks, segment), segment)) == any_nonzero(
            y2_levels(blocks, segment),
        ),
        y2_restored(y2_levels(blocks, segment), segment).len() == 16,
{
    let t = wht(coeffs0(blocks));
    lemma_wht_bound(coeffs0(blocks));
    let y2 = y2_levels(blocks, segment);
    let b = scaled(y2, segment.y2dc, segment.y2ac);
    let dc = y2_restored(y2, segment);
    lemma_quantized_bound(t, segment.y2dc, segment.y2ac, 16320);
    lemma_levels(blocks, segment);
    lemma_luma_residue_bound(y2, y_levels(blocks, segment), segment);
    assert forall|n: int| 0 <= n < 16 && -5 < #[trigger] b[n] < 5 implies b[n] == 0 by {
        let step = step_of(n, segment.y2dc, segment.y2ac);
        assert(-16320 <= y2[n] * step <= 16320);
        assert(y2[n] != 0 ==> y2[n] * step >= 8 || y2[n] * step <= -8) by (nonlinear_arith)
            requires
                step >= 8,
        ;
    }
    if !any_nonzero(dc) {
        assert forall|n: int| 0 <= n < 16 implies #[trigger] dc[n] == 0 by {}
        lemma_iwht_zero(b);
        assert forall|n: int| 0 <= n < y2.len() implies #[trigger] y2[n] == 0 by {
            assert(b[n] == 0);
        }
    }
    if !any_nonzero(y2) {
        assert forall|n: int| 0 <= n < 16 implies #[trigger] b[n] == 0 by {
            assert(y2[n] == 0);
        }
        assert(b =~= zero_block());
        lemma_zero_transforms(b);
    }
}

/// Luma that is restored to nothing had no levels.
proof fn lemma_restored_luma(blocks: Seq<i32>, segment: Segment)
    requires
        segment.wf(),
        blocks.len() == 256,
        forall|i: int| 0 <= i < 256 ==> -2040 <= #[trigger] blocks[i] <= 2040,
    ensures
        ({
            let y2 = y2_levels(blocks, segment);
            let y = y_levels(blocks, segment);
            let none = !any_nonzero(y2) && !any_nonzero(y);
            &&& none == (!any_nonzero(y2_restored(y2, segment)) && !any_nonzero(
                luma_residue(y2, y, segment),
            ))
            &&& none == !whole_has_nonzero(blocks, segment)
        }),
{
    let y2 = y2_levels(blocks, segment);
    let y = y_levels(blocks, segment);
    let dc = y2_restored(y2, segment);
    let residue = luma_residue(y2, y, segment);
    let zeros = Seq::new(256, |n: int| 0i32);
    lemma_restored_dc(blocks, segment);
    lemma_levels(blocks, segment);
    lemma_luma_residue_bound(y2, y, segment);
    assert forall|n: int| 0 <= n < 256 && -4 < #[trigger] y[n] * segment.yac < 4 implies y[n]
        == 0 by {
        let step = segment.yac as int;
        let level = y[n] as int;
        assert(level != 0 ==> level * step >= 4 || level * step <= -4) by (nonlinear_arith)
            requires
                step >= 4,
        ;
    }
    if !any_nonzero(y2) && !any_nonzero(y) {
        lemma_no_nonzero(y2);
        lemma_no_nonzero(y);
        lemma_zero_residue(segment, y2, y);
        assert(residue == zeros);
        assert forall|k: int| 0 <= k < 16 implies !#[trigger] luma_nonzero(y2, y, segment, k) by {
            let b = y_restored(dc, y, segment, k);
            assert forall|i: int| 0 <= i < b.len() implies #[trigger] b[i] == 0 by {
                assert(dc[k] == 0);
                assert(y[k * 16 + i] == 0);
                assert(0 * segment.yac == 0);
            }
        }
    }
    if any_nonzero(y2) {
        let k = choose|k: int| 0 <= k < dc.len() && #[trigger] dc[k] != 0;
        let b = y_restored(dc, y, segment, k);
        assert(b[0] == dc[k]);
        assert(luma_nonzero(y2, y, segment, k));
    } else if any_nonzero(y) {
        let n = choose|n: int| 0 <= n < y.len() && #[trigger] y[n] != 0;
        let (k, i) = (n / 16, n % 16);
        let b = y_restored(dc, y, segment, k);
        assert(i != 0);
        assert(b.len() == 16);
        assert(b[i] != 0) by {
            assert(k * 16 + i == n);
            assert(-2040 <= y[n] * segment.yac <= 2040);
        }
        assert(luma_nonzero(y2, y, segment, k));
        assert(within(b, 50000));
        if !any_nonzero(residue) {
            assert(b[0] == 0) by {
                assert(dc[k] == 0);
            }
            assert forall|m: int| 0 <= m < 16 && -4 < #[trigger] b[m] < 4 implies b[m] == 0 by {
                if m > 0 {
                    assert(-2040 <= y[k * 16 + m] * segment.yac <= 2040);
                    assert(0 * segment.yac == 0);
                }
            }
            assert forall|m: int| 0 <= m < 16 implies #[trigger] idct(b)[m] == 0 by {
                let p = k * 16 + m;
                assert(p / 16 == k && p % 16 == m);
                assert(residue[p] == 0);
            }
            lemma_idct_zero(b);
        }
    }
}

/// A chroma plane has a coefficient that is not zero exactly if it has such a
/// level.
proof fn lemma_restored_chroma(coeffs: Seq<i32>, segment: Segment)
    requires
        segment.wf(),
        coeffs.len() == 64,
        within(coeffs, 2040),
    ensures
        chroma_has_nonzero(coeffs, segment) == any_nonzero(
            quantized(coeffs, segment.uvdc, segment.uvac),
        ),
{
    let q = quantized(coeffs, segment.uvdc, segment.uvac);
    let b = scaled(q, segment.uvdc, segment.uvac);
    lemma_quantized_bound(coeffs, segment.uvdc, segment.uvac, 2040);
    if any_nonzero(q) {
        let n = choose|n: int| 0 <= n < q.len() && #[trigger] q[n] != 0;
        let (k, i) = (n / 16, n % 16);
        assert(k * 16 + i == n);
        assert(block_at(b, k)[i] != 0);
    }
    if chroma_has_nonzero(coeffs, segment) {
        let k = choose|k: int| 0 <= k < 4 && any_nonzero(#[trigger] block_at(b, k));
        let i = choose|i: int|
            0 <= i < block_at(b, k).len() && #[trigger] block_at(b, k)[i] != 0;
        assert(q[k * 16 + i] != 0);
    }
}

/// A macroblock is skipped exactly if none of its levels is different from
/// zero, and exactly then reconstruction finds no coefficient in it.
pub proof fn law_skipped_exactly_without_levels(
    scene: Scene,
    canvas: Canvas,
    modes: Modes,
    mbx: int,
    mby: int,
)
    requires
        scene.ids[mby * scene.mbw + mbx] < 4,
        scene.segments[scene.ids[mby * scene.mbw + mbx] as int].wf(),
    ensures
        ({
            let d = decide(scene, canvas, modes, mbx, mby);
            &&& d.coeffs_skipped == without_levels(scene, canvas, d, mbx, mby)
            &&& d.coeffs_skipped == !has_nonzero_dct(scene, canvas, d, mbx, mby)
        }),
{
    let d = decide(scene, canvas, modes, mbx, mby);
    let id = scene.ids[mby * scene.mbw + mbx];
    let segment = scene.segments[id as int];
    let lambda = lambda_of(segment.yac);
    let search = sub_search(scene, canvas, modes, segment, lambda, mbx, mby, 16);
    let luma_zero = if d.luma_mode == LumaMode::B {
        !any_nonzero(search.levels)
    } else {
        luma_trial(scene, canvas, d.luma_mode, segment, mbx, mby).all_zero
    };
    let chroma = chroma_trial(scene, canvas, d.chroma_mode, segment, mbx, mby);
    assert({
        &&& d.segment_id == Some(id as usize)
        &&& d.coeffs_skipped == (luma_zero && chroma.all_zero)
        &&& d.luma_mode == LumaMode::B ==> d.luma_bpred == Some(search.modes)
    }) by {
        reveal(decide);
    }
    let y = luma_coeffs(scene, canvas, d, mbx, mby);
    assert(luma_zero == if d.luma_mode == LumaMode::B {
        !any_nonzero(quantized(y, segment.ydc, segment.yac))
    } else {
        !any_nonzero(y2_levels(y, segment)) && !any_nonzero(y_levels(y, segment))
    } && luma_zero == !luma_has_nonzero(scene, canvas, d, mbx, mby)) by {
        reveal(luma_coeffs);
        reveal(luma_has_nonzero);
        if d.luma_mode == LumaMode::B {
            lemma_search_levels(scene, canvas, modes, segment, lambda, mbx, mby);
        } else {
            reveal(luma_trial);
            let ws = predicted_luma(scene, canvas, d.luma_mode, mbx, mby);
            lemma_luma_blocks_bound(scene, ws, mbx, mby);
            lemma_restored_luma(luma_blocks(scene, ws, mbx, mby), segment);
        }
    }
    let u = chroma_coeffs(scene, scene.ubuf, canvas.u, d, mbx, mby);
    let v = chroma_coeffs(scene, scene.vbuf, canvas.v, d, mbx, mby);
    assert({
        &&& chroma.all_zero == (!any_nonzero(quantized(u, segment.uvdc, segment.uvac))
            && !any_nonzero(quantized(v, segment.uvdc, segment.uvac)))
        &&& chroma_has_nonzero(u, segment) == any_nonzero(
            quantized(u, segment.uvdc, segment.uvac),
        )
        &&& chroma_has_nonzero(v, segment) == any_nonzero(
            quantized(v, segment.uvdc, segment.uvac),
        )
    }) by {
        reveal(chroma_coeffs);
        reveal(chroma_trial);
        let wu = predicted_chroma(scene, canvas.u, d.chroma_mode, mbx, mby);
        let wv = predicted_chroma(scene, canvas.v, d.chroma_mode, mbx, mby);
        lemma_chroma_blocks_bound(scene.mbw, scene.ubuf, wu, mbx, mby);
        lemma_chroma_blocks_bound(scene.mbw, scene.vbuf, wv, mbx, mby);
        lemma_restored_chroma(u, segment);
        lemma_restored_chroma(v, segment);
    }
    reveal(has_nonzero_dct);
}

} // verus!
