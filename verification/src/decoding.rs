//! What a decoder reconstructs from the levels of a macroblock.
use vstd::prelude::*;

use crate::blocks::{added, placed, with_residue, with_subblock};
use crate::common::{IntraMode, LumaMode, Plane, Segment, ZIGZAG};
use crate::model::{
    chroma_coeffs, has_nonzero_dct, luma_coeffs, luma_has_nonzero, luma_restored, painted,
    restored_subblocks, segment_for, sub_coeffs, sub_levels, sub_nonzero, sub_predicted,
    sub_residual, sub_restored, subblock_coeffs, subs_have_nonzero, whole_mode, Canvas, Decision,
    Scene,
};
use crate::prediction::{chroma_border, luma_border, whole_prediction};
use crate::quantize::{
    any_nonzero, block_at, chroma_residue, coeffs0, luma_nonzero, luma_residue, quantized, scaled,
    y2_levels, y_levels,
};
use crate::residual::{plane_levels, Coeffs};
use crate::residual_reading::{coded_levels, Levels};
use crate::tokens::{first_coeff, levels};
use crate::transform::{idct, lemma_dct_len, lemma_wht_len, wht};

verus! {

/// Position in coding order of the coefficient at position `n`.
pub open spec fn coding_position(n: int) -> int {
    let positions = seq![0int, 1, 5, 6, 2, 4, 7, 12, 3, 8, 11, 13, 9, 10, 14, 15];
    positions[n]
}

/// Levels of a block, row by row.
pub open spec fn raster(z: Seq<i32>) -> Seq<i32> {
    Seq::new(16, |n: int| z[coding_position(n)])
}

/// Levels of several blocks, row by row and one block after the other.
pub open spec fn raster_all(zs: Seq<Seq<i32>>) -> Seq<i32> {
    Seq::new((16 * zs.len()) as nat, |n: int| raster(zs[n / 16])[n % 16])
}

/// A luma macroblock, with its border, with the first `k` sub-blocks decoded.
pub open spec fn decoded_subblocks(
    mbw: int,
    canvas: Canvas,
    modes: Seq<IntraMode>,
    zs: Seq<Seq<i32>>,
    segment: Segment,
    mbx: int,
    mby: int,
    k: int,
) -> Seq<u8>
    decreases k,
{
    if k <= 0 {
        luma_border(mbx, mby, mbw, canvas.y)
    } else {
        let ws = decoded_subblocks(mbw, canvas, modes, zs, segment, mbx, mby, k - 1);
        with_subblock(
            ws,
            added(
                sub_predicted(ws, modes[k - 1], k - 1),
                idct(scaled(raster(zs[k - 1]), segment.ydc, segment.yac)),
            ),
            1 + ((k - 1) % 4) * 4,
            1 + ((k - 1) / 4) * 4,
        )
    }
}

/// A luma macroblock, with its border, from its modes and levels.
pub open spec fn decoded_luma(
    mbw: int,
    canvas: Canvas,
    d: Decision,
    z: Levels,
    segment: Segment,
    mbx: int,
    mby: int,
) -> Seq<u8> {
    if d.luma_mode == LumaMode::B {
        decoded_subblocks(mbw, canvas, d.luma_bpred.unwrap(), z.y, segment, mbx, mby, 16)
    } else {
        with_residue(
            whole_prediction(
                luma_border(mbx, mby, mbw, canvas.y),
                16,
                21,
                whole_mode(d.luma_mode),
                mby != 0,
                mbx != 0,
            ),
            luma_residue(raster(z.y2), raster_all(z.y), segment),
            16,
            21,
        )
    }
}

/// A chroma macroblock, with its border, from its mode and levels.
pub open spec fn decoded_chroma(
    mbw: int,
    plane: Seq<u8>,
    d: Decision,
    zs: Seq<Seq<i32>>,
    segment: Segment,
    mbx: int,
    mby: int,
) -> Seq<u8> {
    with_residue(
        whole_prediction(
            chroma_border(mbx, mby, mbw, plane),
            8,
            9,
            d.chroma_mode,
            mby != 0,
            mbx != 0,
        ),
        chroma_residue(raster_all(zs), segment),
        8,
        9,
    )
}

/// The canvas with a macroblock decoded.
#[verifier::opaque]
pub open spec fn decoded_macroblock(
    mbw: int,
    canvas: Canvas,
    d: Decision,
    z: Levels,
    segment: Segment,
    mbx: int,
    mby: int,
) -> Canvas {
    Canvas {
        y: placed(
            canvas.y,
            mbw * 16,
            mbx * 16,
            mby * 16,
            decoded_luma(mbw, canvas, d, z, segment, mbx, mby),
            16,
            21,
        ),
        u: placed(
            canvas.u,
            mbw * 8,
            mbx * 8,
            mby * 8,
            decoded_chroma(mbw, canvas.u, d, z.u, segment, mbx, mby),
            8,
            9,
        ),
        v: placed(
            canvas.v,
            mbw * 8,
            mbx * 8,
            mby * 8,
            decoded_chroma(mbw, canvas.v, d, z.v, segment, mbx, mby),
            8,
            9,
        ),
    }
}

/// Whether luma block `k` of a macroblock that is predicted by sub-blocks has
/// a coefficient that is not zero.
pub open spec fn subblock_nonzero(zs: Seq<Seq<i32>>, segment: Segment, k: int) -> bool {
    any_nonzero(scaled(raster(zs[k]), segment.ydc, segment.yac))
}

/// Whether a chroma block has a coefficient that is not zero.
pub open spec fn chroma_nonzero(zs: Seq<Seq<i32>>, segment: Segment) -> bool {
    exists|k: int|
        0 <= k < 4 && any_nonzero(
            #[trigger] block_at(scaled(raster_all(zs), segment.uvdc, segment.uvac), k),
        )
}

/// Whether a macroblock has a coefficient that is not zero.
#[verifier::opaque]
pub open spec fn levels_nonzero(mode: LumaMode, z: Levels, segment: Segment) -> bool {
    ||| if mode == LumaMode::B {
        exists|k: int| 0 <= k < 16 && #[trigger] subblock_nonzero(z.y, segment, k)
    } else {
        exists|k: int|
            0 <= k < 16 && #[trigger] luma_nonzero(raster(z.y2), raster_all(z.y), segment, k)
    }
    ||| chroma_nonzero(z.u, segment)
    ||| chroma_nonzero(z.v, segment)
}

/// Putting the levels of a block back in order undoes the coding order.
pub proof fn lemma_raster(block: Seq<i32>, plane: Plane, dc: i16, ac: i16)
    requires
        block.len() == 16,
    ensures
        forall|n: int|
            0 <= n < 16 ==> #[trigger] raster(levels(block, plane, dc, ac))[n] == if n == 0
                && first_coeff(plane) == 1 {
                0
            } else {
                quantized(block, dc, ac)[n]
            },
        first_coeff(plane) == 0 ==> raster(levels(block, plane, dc, ac)) == quantized(
            block,
            dc,
            ac,
        ),
{
    let z = levels(block, plane, dc, ac);
    assert forall|n: int| 0 <= n < 16 implies #[trigger] raster(z)[n] == if n == 0 && first_coeff(
        plane,
    ) == 1 {
        0
    } else {
        quantized(block, dc, ac)[n]
    } by {
        let i = coding_position(n);
        assert(0 <= i < 16 && ZIGZAG[i] as int == n && (i == 0 <==> n == 0));
    }
    if first_coeff(plane) == 0 {
        assert(raster(z) =~= quantized(block, dc, ac));
    }
}

/// The levels that a decoder reads for a whole plane of blocks.
pub proof fn lemma_raster_chroma(data: Seq<i32>, dc: i16, ac: i16, zs: Seq<Seq<i32>>)
    requires
        data.len() == 64,
        zs == Seq::new(4, |k: int| plane_levels(data, Plane::Chroma, dc, ac, k)),
    ensures
        raster_all(zs) == quantized(data, dc, ac),
{
    assert forall|n: int| 0 <= n < 64 implies raster_all(zs)[n] == quantized(data, dc, ac)[n] by {
        let k = n / 16;
        assert(0 <= k < 4);
        lemma_raster(block_at(data, k), Plane::Chroma, dc, ac);
        assert(block_at(data, k)[n % 16] == data[n]);
        assert(raster(zs[k])[n % 16] == quantized(block_at(data, k), dc, ac)[n % 16]);
    }
    assert(raster_all(zs) =~= quantized(data, dc, ac));
}

pub proof fn lemma_raster_luma(data: Seq<i32>, segment: Segment, zs: Seq<Seq<i32>>)
    requires
        data.len() == 256,
        zs == Seq::new(
            16,
            |k: int| plane_levels(data, Plane::YCoeff1, segment.ydc, segment.yac, k),
        ),
    ensures
        raster_all(zs) == y_levels(data, segment),
{
    let y = y_levels(data, segment);
    assert forall|n: int| 0 <= n < 256 implies raster_all(zs)[n] == y[n] by {
        let k = n / 16;
        assert(0 <= k < 16);
        lemma_raster(block_at(data, k), Plane::YCoeff1, segment.ydc, segment.yac);
        assert(block_at(data, k)[n % 16] == data[n]);
        assert(raster(zs[k])[n % 16] == if n % 16 == 0 {
            0
        } else {
            quantized(block_at(data, k), segment.ydc, segment.yac)[n % 16]
        });
    }
    assert(raster_all(zs) =~= y);
}

/// Coefficients of a macroblock.
pub open spec fn coeffs_of(scene: Scene, canvas: Canvas, d: Decision, mbx: int, mby: int) -> Coeffs {
    Coeffs {
        y: luma_coeffs(scene, canvas, d, mbx, mby),
        u: chroma_coeffs(scene, scene.ubuf, canvas.u, d, mbx, mby),
        v: chroma_coeffs(scene, scene.vbuf, canvas.v, d, mbx, mby),
    }
}

/// Coefficients of sub-block `k`.
pub proof fn lemma_sub_block(
    scene: Scene,
    canvas: Canvas,
    modes: Seq<IntraMode>,
    segment: Segment,
    mbx: int,
    mby: int,
    k: int,
)
    requires
        0 <= k < 16,
    ensures
        ({
            let ws = restored_subblocks(scene, canvas, modes, segment, mbx, mby, k);
            let data = subblock_coeffs(scene, canvas, modes, segment, mbx, mby);
            &&& block_at(data, k) == sub_coeffs(scene, ws, modes[k], mbx, mby, k)
            &&& quantized(block_at(data, k), segment.ydc, segment.yac) == sub_levels(
                scene,
                ws,
                modes[k],
                segment,
                mbx,
                mby,
                k,
            )
            &&& raster(plane_levels(data, Plane::YCoeff0, segment.ydc, segment.yac, k))
                == sub_levels(scene, ws, modes[k], segment, mbx, mby, k)
        }),
{
    reveal(sub_levels);
    let ws = restored_subblocks(scene, canvas, modes, segment, mbx, mby, k);
    let data = subblock_coeffs(scene, canvas, modes, segment, mbx, mby);
    let block = sub_coeffs(scene, ws, modes[k], mbx, mby, k);
    lemma_dct_len(
        sub_residual(scene, sub_predicted(ws, modes[k], k), mbx, mby, k),
    );
    assert forall|i: int| 0 <= i < 16 implies block_at(data, k)[i] == block[i] by {
        assert((k * 16 + i) / 16 == k && (k * 16 + i) % 16 == i);
    }
    assert(block_at(data, k) =~= block);
    lemma_raster(block, Plane::YCoeff0, segment.ydc, segment.yac);
}

/// Decoding the sub-blocks gives what the encoder reconstructed.
pub proof fn lemma_decoded_subblocks(
    scene: Scene,
    canvas: Canvas,
    modes: Seq<IntraMode>,
    segment: Segment,
    mbx: int,
    mby: int,
    zs: Seq<Seq<i32>>,
    k: int,
)
    requires
        0 <= k <= 16,
        zs == Seq::new(
            16,
            |i: int|
                plane_levels(
                    subblock_coeffs(scene, canvas, modes, segment, mbx, mby),
                    Plane::YCoeff0,
                    segment.ydc,
                    segment.yac,
                    i,
                ),
        ),
    ensures
        decoded_subblocks(scene.mbw, canvas, modes, zs, segment, mbx, mby, k)
            == restored_subblocks(scene, canvas, modes, segment, mbx, mby, k),
    decreases k,
{
    if k > 0 {
        reveal(sub_restored);
        lemma_decoded_subblocks(scene, canvas, modes, segment, mbx, mby, zs, k - 1);
        lemma_sub_block(scene, canvas, modes, segment, mbx, mby, k - 1);
    }
}

/// Decoding a luma macroblock gives what the encoder reconstructed.
proof fn lemma_decoded_luma(scene: Scene, canvas: Canvas, d: Decision, mbx: int, mby: int)
    requires
        d.wf(),
    ensures
        ({
            let segment = segment_for(scene.segments, d.segment_id);
            let z = coded_levels(d.luma_mode, segment, coeffs_of(scene, canvas, d, mbx, mby));
            decoded_luma(scene.mbw, canvas, d, z, segment, mbx, mby) == luma_restored(
                scene,
                canvas,
                d,
                mbx,
                mby,
            )
        }),
{
    reveal(luma_coeffs);
    let segment = segment_for(scene.segments, d.segment_id);
    let c = coeffs_of(scene, canvas, d, mbx, mby);
    let z = coded_levels(d.luma_mode, segment, c);
    if d.luma_mode == LumaMode::B {
        lemma_decoded_subblocks(
            scene,
            canvas,
            d.luma_bpred.unwrap(),
            segment,
            mbx,
            mby,
            z.y,
            16,
        );
    } else {
        lemma_wht_len(coeffs0(c.y));
        lemma_raster(wht(coeffs0(c.y)), Plane::Y2, segment.y2dc, segment.y2ac);
        assert(raster(z.y2) == y2_levels(c.y, segment));
        lemma_raster_luma(c.y, segment, z.y);
    }
}

/// Decoding a macroblock gives what the encoder reconstructed.
pub proof fn lemma_decoded_macroblock(
    scene: Scene,
    canvas: Canvas,
    d: Decision,
    mbx: int,
    mby: int,
)
    requires
        d.wf(),
    ensures
        ({
            let segment = segment_for(scene.segments, d.segment_id);
            let z = coded_levels(d.luma_mode, segment, coeffs_of(scene, canvas, d, mbx, mby));
            decoded_macroblock(scene.mbw, canvas, d, z, segment, mbx, mby) == painted(
                scene,
                canvas,
                d,
                mbx,
                mby,
            )
        }),
{
    reveal(painted);
    reveal(decoded_macroblock);
    reveal(chroma_coeffs);
    let segment = segment_for(scene.segments, d.segment_id);
    let c = coeffs_of(scene, canvas, d, mbx, mby);
    let z = coded_levels(d.luma_mode, segment, c);
    lemma_decoded_luma(scene, canvas, d, mbx, mby);
    lemma_raster_chroma(c.u, segment.uvdc, segment.uvac, z.u);
    lemma_raster_chroma(c.v, segment.uvdc, segment.uvac, z.v);
}

/// A decoder finds the same macroblocks to have coefficients.
pub proof fn lemma_levels_nonzero(scene: Scene, canvas: Canvas, d: Decision, mbx: int, mby: int)
    requires
        d.wf(),
    ensures
        ({
            let segment = segment_for(scene.segments, d.segment_id);
            let z = coded_levels(d.luma_mode, segment, coeffs_of(scene, canvas, d, mbx, mby));
            levels_nonzero(d.luma_mode, z, segment) == has_nonzero_dct(scene, canvas, d, mbx, mby)
        }),
{
    reveal(levels_nonzero);
    reveal(has_nonzero_dct);
    reveal(luma_has_nonzero);
    reveal(luma_coeffs);
    reveal(chroma_coeffs);
    let segment = segment_for(scene.segments, d.segment_id);
    let c = coeffs_of(scene, canvas, d, mbx, mby);
    let z = coded_levels(d.luma_mode, segment, c);
    lemma_raster_chroma(c.u, segment.uvdc, segment.uvac, z.u);
    lemma_raster_chroma(c.v, segment.uvdc, segment.uvac, z.v);
    if d.luma_mode == LumaMode::B {
        let modes = d.luma_bpred.unwrap();
        assert forall|k: int| 0 <= k < 16 implies #[trigger] subblock_nonzero(z.y, segment, k)
            == sub_nonzero(c.y, segment, k) by {
            lemma_sub_block(scene, canvas, modes, segment, mbx, mby, k);
        }
        if subs_have_nonzero(c.y, segment) {
            let k = choose|k: int| 0 <= k < 16 && #[trigger] sub_nonzero(c.y, segment, k);
            assert(subblock_nonzero(z.y, segment, k));
        }
        if exists|k: int| 0 <= k < 16 && #[trigger] subblock_nonzero(z.y, segment, k) {
            let k = choose|k: int| 0 <= k < 16 && #[trigger] subblock_nonzero(z.y, segment, k);
            assert(sub_nonzero(c.y, segment, k));
        }
    } else {
        lemma_wht_len(coeffs0(c.y));
        lemma_raster(wht(coeffs0(c.y)), Plane::Y2, segment.y2dc, segment.y2ac);
        assert(raster(z.y2) == y2_levels(c.y, segment));
        lemma_raster_luma(c.y, segment, z.y);
    }
}

} // verus!
