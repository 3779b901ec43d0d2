//! Prediction, transform and reconstruction of macroblocks.
use vstd::prelude::*;

use crate::blocks::{
    add_block, add_residue, fits, lemma_residual_bound, place_macroblock, placed, put_subblock,
    residual, residual_block,
};
use crate::common::{
    ChromaMode, IntraMode, LumaMode, Segment, CHROMA_BLOCK_SIZE, CHROMA_STRIDE, LUMA_BLOCK_SIZE,
    LUMA_STRIDE,
};
use crate::encoder::{MacroblockInfo, Vp8Encoder};
use crate::model::{
    chroma_block, chroma_blocks, chroma_coeffs, chroma_has_nonzero, luma_block, luma_blocks,
    luma_coeffs, luma_has_nonzero, painted, predicted_chroma, predicted_luma, restored_chroma,
    restored_luma, restored_subblocks, segment_for, sub_coeffs, sub_levels, sub_predicted,
    sub_residual, sub_restored, sub_source, sub_nonzero, subblock_coeffs, subs_have_nonzero,
    whole_has_nonzero, whole_mode, Scene,
};
use crate::prediction::{
    create_border_chroma_from_plane, create_border_luma_from_plane, lemma_inside, pixel_at,
    predict_subblock, predict_whole,
};
use crate::quantize::{
    any_nonzero, block_at, dequantize, get_chroma_block_coeffs,
    get_dequantized_blocks_from_coeffs_chroma, get_dequantized_blocks_from_coeffs_luma_16x16,
    get_luma_block_coeffs_16x16, has_nonzero, lemma_chroma_levels, lemma_chroma_residue_bound,
    lemma_levels, lemma_luma_residue_bound, lemma_quantized_bound, lemma_trunc_div, luma_nonzero,
    quantize, quantized, scaled, step_of, store_block,
};
use crate::segments::lemma_macroblock_fits;
use crate::transform::{dct, dct4x4, idct4x4, lemma_dct_bound, lemma_idct_bound, within};

verus! {

/// A 4x4 block inside a macroblock of the plane.
pub proof fn lemma_block_fits(len: int, w: int, px: int, py: int, size: int, dx: int, dy: int)
    requires
        fits(len, w, px, py, size),
        0 <= dx,
        0 <= dy,
        dx + 4 <= size <= 16,
        dy + 4 <= size,
        py + 16 <= 0x10_0000,
    ensures
        fits(len, w, px + dx, py + dy, 4),
{
    assert(w * (py + dy + 4) <= w * (py + size)) by (nonlinear_arith)
        requires
            dy + 4 <= size,
            w >= 0,
    ;
}

/// Coefficients of a macroblock of pixel differences are small.
pub proof fn lemma_luma_blocks_bound(scene: Scene, ws: Seq<u8>, mbx: int, mby: int)
    ensures
        luma_blocks(scene, ws, mbx, mby).len() == 256,
        within(luma_blocks(scene, ws, mbx, mby), 2040),
{
    let b = luma_blocks(scene, ws, mbx, mby);
    assert forall|n: int| 0 <= n < 256 implies -2040 <= #[trigger] b[n] <= 2040 by {
        let k = n / 16;
        let r = residual(
            ws,
            21,
            1 + (k % 4) * 4,
            1 + (k / 4) * 4,
            scene.ybuf,
            scene.mbw * 16,
            mbx * 16 + (k % 4) * 4,
            mby * 16 + (k / 4) * 4,
        );
        lemma_residual_bound(
            ws,
            21,
            1 + (k % 4) * 4,
            1 + (k / 4) * 4,
            scene.ybuf,
            scene.mbw * 16,
            mbx * 16 + (k % 4) * 4,
            mby * 16 + (k / 4) * 4,
        );
        lemma_dct_bound(r);
        assert(-2040 <= dct(r)[n % 16] <= 2040);
    }
}

/// Coefficients of a chroma macroblock of pixel differences are small.
pub proof fn lemma_chroma_blocks_bound(mbw: int, src: Seq<u8>, ws: Seq<u8>, mbx: int, mby: int)
    ensures
        chroma_blocks(mbw, src, ws, mbx, mby).len() == 64,
        within(chroma_blocks(mbw, src, ws, mbx, mby), 2040),
{
    let b = chroma_blocks(mbw, src, ws, mbx, mby);
    assert forall|n: int| 0 <= n < 64 implies -2040 <= #[trigger] b[n] <= 2040 by {
        let k = n / 16;
        let r = residual(
            ws,
            9,
            1 + (k % 2) * 4,
            1 + (k / 2) * 4,
            src,
            mbw * 8,
            mbx * 8 + (k % 2) * 4,
            mby * 8 + (k / 2) * 4,
        );
        lemma_residual_bound(
            ws,
            9,
            1 + (k % 2) * 4,
            1 + (k / 2) * 4,
            src,
            mbw * 8,
            mbx * 8 + (k % 2) * 4,
            mby * 8 + (k / 2) * 4,
        );
        lemma_dct_bound(r);
        assert(-2040 <= dct(r)[n % 16] <= 2040);
    }
}

/// Coefficients of a sub-block of pixel differences are small.
pub proof fn lemma_sub_coeffs_bound(
    scene: Scene,
    ws: Seq<u8>,
    mode: IntraMode,
    mbx: int,
    mby: int,
    k: int,
)
    ensures
        sub_coeffs(scene, ws, mode, mbx, mby, k).len() == 16,
        within(sub_coeffs(scene, ws, mode, mbx, mby, k), 2040),
{
    lemma_dct_bound(sub_residual(scene, sub_predicted(ws, mode, k), mbx, mby, k));
}

fn whole_mode_of(mode: LumaMode) -> (r: ChromaMode)
    ensures
        r == whole_mode(mode),
{
    match mode {
        LumaMode::V => ChromaMode::V,
        LumaMode::H => ChromaMode::H,
        LumaMode::TM => ChromaMode::TM,
        _ => ChromaMode::DC,
    }
}

/// Whether some entry is set.
pub open spec fn some_set(flags: Seq<bool>) -> bool {
    exists|k: int| 0 <= k < flags.len() && #[trigger] flags[k]
}

/// Whether some entry is set.
pub fn any_set(flags: &[bool]) -> (r: bool)
    ensures
        r == some_set(flags@),
{
    let mut k: usize = 0;
    while k < flags.len()
        invariant
            k <= flags@.len(),
            forall|j: int| 0 <= j < k ==> !#[trigger] flags@[j],
        decreases flags@.len() - k,
    {
        if flags[k] {
            assert(flags@[k as int]);
            return true;
        }
        k = k + 1;
    }
    false
}

impl Vp8Encoder {
    /// Segment of a macroblock.
    pub fn segment_of(&self, segment_id: Option<usize>) -> (segment: Segment)
        requires
            segment_id is Some ==> segment_id.unwrap() < 4,
        ensures
            segment == segment_for(self.segments@, segment_id),
    {
        match segment_id {
            Some(i) => self.segments[i],
            None => self.segments[0],
        }
    }

    /// A luma macroblock predicted as a whole, with its border.
    pub fn get_predicted_luma_block_16x16(
        &self,
        luma_mode: LumaMode,
        mbx: usize,
        mby: usize,
    ) -> (ws: [u8; LUMA_BLOCK_SIZE])
        requires
            self.has_luma_canvas(),
            self.has_macroblock(mbx as int, mby as int),
            luma_mode != LumaMode::B,
        ensures
            ws@ == predicted_luma(
                self.scene(),
                self.canvas(),
                luma_mode,
                mbx as int,
                mby as int,
            ),
    {
        proof {
            lemma_macroblock_fits(
                mbx as int,
                mby as int,
                self.macroblock_width as int,
                self.macroblock_height as int,
                16,
            );
        }
        let mbw: usize = self.macroblock_width as usize;
        let mut ws = create_border_luma_from_plane(mbx, mby, mbw, &self.recon_y);
        predict_whole(&mut ws, 16, LUMA_STRIDE, whole_mode_of(luma_mode), mby != 0, mbx != 0);
        ws
    }

    /// Coefficients of a luma macroblock that is predicted as a whole.
    pub fn get_luma_blocks_from_predicted_16x16(
        &self,
        predicted_y_block: &[u8; LUMA_BLOCK_SIZE],
        mbx: usize,
        mby: usize,
    ) -> (blocks: [i32; 256])
        requires
            self.has_luma_source(),
            self.has_macroblock(mbx as int, mby as int),
        ensures
            blocks@ == luma_blocks(self.scene(), predicted_y_block@, mbx as int, mby as int),
            within(blocks@, 2040),
    {
        let w: usize = self.macroblock_width as usize * 16;
        let ghost scene = self.scene();
        let ghost ws = predicted_y_block@;
        proof {
            lemma_macroblock_fits(
                mbx as int,
                mby as int,
                self.macroblock_width as int,
                self.macroblock_height as int,
                16,
            );
        }
        let mut blocks = [0i32; 256];
        let mut k: usize = 0;
        while k < 16
            invariant
                k <= 16,
                self.has_macroblock(mbx as int, mby as int),
                scene == self.scene(),
                ws == predicted_y_block@,
                w == scene.mbw * 16,
                mbx < 0xffff,
                mby < 0xffff,
                fits(scene.ybuf.len() as int, w as int, mbx * 16, mby * 16, 16),
                forall|n: int|
                    0 <= n < 256 && n / 16 < k ==> #[trigger] blocks@[n] == luma_blocks(
                        scene,
                        ws,
                        mbx as int,
                        mby as int,
                    )[n],
            decreases 16 - k,
        {
            let dx: usize = (k % 4) * 4;
            let dy: usize = (k / 4) * 4;
            proof {
                lemma_block_fits(
                    scene.ybuf.len() as int,
                    w as int,
                    mbx * 16,
                    mby * 16,
                    16,
                    dx as int,
                    dy as int,
                );
            }
            let mut block = residual_block(
                predicted_y_block,
                LUMA_STRIDE,
                1 + dx,
                1 + dy,
                &self.frame.ybuf,
                w,
                mbx * 16 + dx,
                mby * 16 + dy,
                16,
            );
            dct4x4(&mut block);
            assert(block@ == luma_block(scene, ws, mbx as int, mby as int, k as int));
            store_block(&mut blocks, k, &block);
            k = k + 1;
        }
        proof {
            lemma_luma_blocks_bound(scene, ws, mbx as int, mby as int);
        }
        assert(blocks@ =~= luma_blocks(scene, ws, mbx as int, mby as int));
        blocks
    }

    /// Copies a reconstructed luma macroblock to its place in the frame.
    pub fn write_luma_recon(&mut self, mbx: usize, mby: usize, ws: &[u8; LUMA_BLOCK_SIZE])
        requires
            old(self).has_luma_canvas(),
            old(self).has_macroblock(mbx as int, mby as int),
        ensures
            *final(self) == (Vp8Encoder { recon_y: final(self).recon_y, ..*old(self) }),
            final(self).recon_y@ == placed(
                old(self).recon_y@,
                old(self).macroblock_width * 16,
                mbx * 16,
                mby * 16,
                ws@,
                16,
                21,
            ),
    {
        proof {
            lemma_macroblock_fits(
                mbx as int,
                mby as int,
                self.macroblock_width as int,
                self.macroblock_height as int,
                16,
            );
        }
        let w: usize = self.macroblock_width as usize * 16;
        place_macroblock(&mut self.recon_y, w, mbx * 16, mby * 16, ws, 16, LUMA_STRIDE);
    }

    /// Coefficients, reconstruction and non-zero flag of a luma macroblock
    /// that is predicted as a whole.
    fn reconstruct_luma_16x16(&self, ws: &mut [u8; LUMA_BLOCK_SIZE], mbx: usize, mby: usize, segment: &Segment)
        -> (r: ([i32; 256], bool))
        requires
            self.has_luma_source(),
            self.has_macroblock(mbx as int, mby as int),
            segment.wf(),
        ensures
            final(ws)@ == restored_luma(
                self.scene(),
                old(ws)@,
                *segment,
                mbx as int,
                mby as int,
            ),
            r.0@ == luma_blocks(self.scene(), old(ws)@, mbx as int, mby as int),
            r.1 == whole_has_nonzero(r.0@, *segment),
    {
        let luma_blocks = self.get_luma_blocks_from_predicted_16x16(ws, mbx, mby);
        let mut coeffs = get_luma_block_coeffs_16x16(&luma_blocks, segment);
        let ghost y2 = coeffs.y2_coeffs@;
        let ghost y = coeffs.y_coeffs@;
        proof {
            lemma_levels(luma_blocks@, *segment);
            lemma_luma_residue_bound(y2, y, *segment);
        }
        let (dequantized_blocks, non_zero_dct_per_block) =
            get_dequantized_blocks_from_coeffs_luma_16x16(&mut coeffs, segment);
        let non_zero_dct = any_set(&non_zero_dct_per_block);
        proof {
            let flags = non_zero_dct_per_block@;
            assert(flags.len() == 16);
            assert(forall|k: int| 0 <= k < 16 ==> #[trigger] flags[k] == luma_nonzero(y2, y, *segment, k));
            if non_zero_dct {
                let k = choose|k: int| 0 <= k < flags.len() && #[trigger] flags[k];
                assert(luma_nonzero(y2, y, *segment, k));
            } else {
                assert forall|k: int| 0 <= k < 16 implies !#[trigger] luma_nonzero(
                    y2,
                    y,
                    *segment,
                    k,
                ) by {
                    assert(!flags[k]);
                }
            }
        }
        add_residue(ws, &dequantized_blocks, 16, LUMA_STRIDE);
        (luma_blocks, non_zero_dct)
    }

    /// Reconstructs a luma macroblock in the frame. Returns its coefficients
    /// and whether any of them is not zero once quantised.
    pub fn transform_luma_block(
        &mut self,
        mbx: usize,
        mby: usize,
        macroblock_info: &MacroblockInfo,
    ) -> (r: ([i32; 256], bool))
        requires
            old(self).has_luma_source(),
            old(self).has_luma_canvas(),
            old(self).has_macroblock(mbx as int, mby as int),
            macroblock_info.wf(),
            segment_for(old(self).segments@, macroblock_info.segment_id).wf(),
        ensures
            *final(self) == (Vp8Encoder { recon_y: final(self).recon_y, ..*old(self) }),
            final(self).recon_y@ == painted(
                old(self).scene(),
                old(self).canvas(),
                macroblock_info@,
                mbx as int,
                mby as int,
            ).y,
            r.0@ == luma_coeffs(
                old(self).scene(),
                old(self).canvas(),
                macroblock_info@,
                mbx as int,
                mby as int,
            ),
            r.1 == luma_has_nonzero(
                old(self).scene(),
                old(self).canvas(),
                macroblock_info@,
                mbx as int,
                mby as int,
            ),
    {
        proof {
            reveal(painted);
            reveal(luma_coeffs);
            reveal(luma_has_nonzero);
        }
        let segment = self.segment_of(macroblock_info.segment_id);
        if macroblock_info.luma_mode == LumaMode::B {
            if let Some(bpred_modes) = macroblock_info.luma_bpred {
                return self.transform_luma_blocks_4x4(&bpred_modes, mbx, mby, &segment);
            }
        }
        let mut ws = self.get_predicted_luma_block_16x16(macroblock_info.luma_mode, mbx, mby);
        let (luma_blocks, non_zero_dct) = self.reconstruct_luma_16x16(&mut ws, mbx, mby, &segment);
        self.write_luma_recon(mbx, mby, &ws);
        (luma_blocks, non_zero_dct)
    }

    /// Difference of the source from the prediction of sub-block `k`.
    pub fn subblock_residual(
        &self,
        predicted: &[u8; 16],
        mbx: usize,
        mby: usize,
        k: usize,
    ) -> (block: [i32; 16])
        requires
            self.has_luma_source(),
            self.has_macroblock(mbx as int, mby as int),
            k < 16,
        ensures
            block@ == sub_residual(self.scene(), predicted@, mbx as int, mby as int, k as int),
    {
        let ghost scene = self.scene();
        let mut block = [0i32; 16];
        let mut i: usize = 0;
        while i < 16
            invariant
                i <= 16,
                k < 16,
                self.has_luma_source(),
                self.has_macroblock(mbx as int, mby as int),
                scene == self.scene(),
                forall|j: int|
                    0 <= j < i ==> #[trigger] block@[j] == sub_residual(
                        scene,
                        predicted@,
                        mbx as int,
                        mby as int,
                        k as int,
                    )[j],
            decreases 16 - i,
        {
            let actual: u8 = self.subblock_source(mbx, mby, k, i);
            block[i] = actual as i32 - predicted[i] as i32;
            i = i + 1;
        }
        assert(block@ =~= sub_residual(scene, predicted@, mbx as int, mby as int, k as int));
        block
    }

    /// Source pixel `i` of sub-block `k`.
    pub fn subblock_source(&self, mbx: usize, mby: usize, k: usize, i: usize) -> (r: u8)
        requires
            self.has_luma_source(),
            self.has_macroblock(mbx as int, mby as int),
            k < 16,
            i < 16,
        ensures
            r == sub_source(self.scene(), mbx as int, mby as int, k as int, i as int),
    {
        let w: usize = self.macroblock_width as usize * 16;
        let x: usize = mbx * 16 + (k % 4) * 4 + i % 4;
        let y: usize = mby * 16 + (k / 4) * 4 + i / 4;
        proof {
            lemma_inside(
                x as int,
                y as int,
                w as int,
                self.macroblock_height * 16,
                self.frame.ybuf@.len() as int,
            );
        }
        pixel_at(&self.frame.ybuf, w, x, y)
    }

    /// Reconstructs a luma macroblock that is predicted by sub-blocks. Returns
    /// its coefficients and whether any of them is not zero once quantised.
    pub fn transform_luma_blocks_4x4(
        &mut self,
        bpred_modes: &[IntraMode; 16],
        mbx: usize,
        mby: usize,
        segment: &Segment,
    ) -> (r: ([i32; 256], bool))
        requires
            old(self).has_luma_source(),
            old(self).has_luma_canvas(),
            old(self).has_macroblock(mbx as int, mby as int),
            segment.wf(),
        ensures
            *final(self) == (Vp8Encoder { recon_y: final(self).recon_y, ..*old(self) }),
            final(self).recon_y@ == placed(
                old(self).recon_y@,
                old(self).macroblock_width * 16,
                mbx * 16,
                mby * 16,
                restored_subblocks(
                    old(self).scene(),
                    old(self).canvas(),
                    bpred_modes@,
                    *segment,
                    mbx as int,
                    mby as int,
                    16,
                ),
                16,
                21,
            ),
            r.0@ == subblock_coeffs(
                old(self).scene(),
                old(self).canvas(),
                bpred_modes@,
                *segment,
                mbx as int,
                mby as int,
            ),
            r.1 == subs_have_nonzero(r.0@, *segment),
    {
        let ghost scene = self.scene();
        let ghost canvas = self.canvas();
        let ghost modes = bpred_modes@;
        let ghost x = mbx as int;
        let ghost y = mby as int;
        proof {
            lemma_macroblock_fits(x, y, scene.mbw, scene.mbh, 16);
        }
        let mbw: usize = self.macroblock_width as usize;
        let mut ws = create_border_luma_from_plane(mbx, mby, mbw, &self.recon_y);
        let mut luma_blocks = [0i32; 256];
        let mut flags = [false; 16];
        let mut k: usize = 0;
        while k < 16
            invariant
                k <= 16,
                segment.wf(),
                self.has_luma_source(),
                self.has_luma_canvas(),
                self.has_macroblock(x, y),
                x == mbx,
                y == mby,
                scene == self.scene(),
                modes == bpred_modes@,
                ws@ == restored_subblocks(scene, canvas, modes, *segment, x, y, k as int),
                forall|n: int|
                    0 <= n < 256 && n / 16 < k ==> #[trigger] luma_blocks@[n] == subblock_coeffs(
                        scene,
                        canvas,
                        modes,
                        *segment,
                        x,
                        y,
                    )[n],
                forall|j: int|
                    0 <= j < k ==> #[trigger] flags@[j] == sub_nonzero(
                        subblock_coeffs(scene, canvas, modes, *segment, x, y),
                        *segment,
                        j,
                    ),
            decreases 16 - k,
        {
            let x0: usize = 1 + (k % 4) * 4;
            let y0: usize = 1 + (k / 4) * 4;
            let ghost before = ws@;
            let mode: IntraMode = bpred_modes[k];
            let predicted = predict_subblock(&ws, mode, x0, y0);
            let mut block = self.subblock_residual(&predicted, mbx, mby, k);
            dct4x4(&mut block);
            let ghost coeffs = block@;
            proof {
                reveal(sub_levels);
                reveal(sub_restored);
                lemma_sub_coeffs_bound(scene, before, mode, x, y, k as int);
                lemma_quantized_bound(coeffs, segment.ydc, segment.yac, 2040);
                let all = subblock_coeffs(scene, canvas, modes, *segment, x, y);
                assert(block_at(all, k as int) =~= coeffs);
                let q = quantized(coeffs, segment.ydc, segment.yac);
                assert forall|i: int| 0 <= i < 16 implies i32::MIN <= #[trigger] q[i] * step_of(
                    i,
                    segment.ydc,
                    segment.yac,
                ) <= i32::MAX by {
                    lemma_trunc_div(coeffs[i] as int, step_of(i, segment.ydc, segment.yac));
                }
                lemma_idct_bound(scaled(q, segment.ydc, segment.yac));
            }
            store_block(&mut luma_blocks, k, &block);
            quantize(&mut block, segment.ydc, segment.yac);
            dequantize(&mut block, segment.ydc, segment.yac);
            flags[k] = has_nonzero(&block);
            idct4x4(&mut block);
            let restored = add_block(&predicted, &block);
            put_subblock(&mut ws, &restored, x0, y0);
            k = k + 1;
        }
        let ghost all = subblock_coeffs(scene, canvas, modes, *segment, x, y);
        assert(luma_blocks@ =~= all);
        let non_zero_dct = any_set(&flags);
        proof {
            assert(flags@.len() == 16);
            if non_zero_dct {
                let j = choose|k: int| 0 <= k < flags@.len() && #[trigger] flags@[k];
                assert(sub_nonzero(all, *segment, j));
            } else {
                assert forall|j: int| 0 <= j < 16 implies !#[trigger] sub_nonzero(
                    all,
                    *segment,
                    j,
                ) by {
                    assert(!flags@[j]);
                }
            }
        }
        self.write_luma_recon(mbx, mby, &ws);
        (luma_blocks, non_zero_dct)
    }

    /// A predicted chroma macroblock, with its border.
    pub fn get_predicted_chroma_block(
        &self,
        chroma_mode: ChromaMode,
        mbx: usize,
        mby: usize,
        recon_plane: &[u8],
    ) -> (ws: [u8; CHROMA_BLOCK_SIZE])
        requires
            self.has_macroblock(mbx as int, mby as int),
            recon_plane@.len() == (self.macroblock_width * 8) * (self.macroblock_height * 8),
        ensures
            ws@ == predicted_chroma(
                self.scene(),
                recon_plane@,
                chroma_mode,
                mbx as int,
                mby as int,
            ),
    {
        proof {
            lemma_macroblock_fits(
                mbx as int,
                mby as int,
                self.macroblock_width as int,
                self.macroblock_height as int,
                8,
            );
        }
        let mbw: usize = self.macroblock_width as usize;
        let mut ws = create_border_chroma_from_plane(mbx, mby, mbw, recon_plane);
        predict_whole(&mut ws, 8, CHROMA_STRIDE, chroma_mode, mby != 0, mbx != 0);
        ws
    }

    /// Coefficients of a chroma macroblock.
    pub fn get_chroma_blocks_from_predicted(
        &self,
        predicted_chroma: &[u8; CHROMA_BLOCK_SIZE],
        chroma_data: &[u8],
        mbx: usize,
        mby: usize,
    ) -> (blocks: [i32; 64])
        requires
            self.has_macroblock(mbx as int, mby as int),
            chroma_data@.len() == (self.macroblock_width * 8) * (self.macroblock_height * 8),
        ensures
            blocks@ == chroma_blocks(
                self.macroblock_width as int,
                chroma_data@,
                predicted_chroma@,
                mbx as int,
                mby as int,
            ),
            within(blocks@, 2040),
    {
        let w: usize = self.macroblock_width as usize * 8;
        let ghost mbw = self.macroblock_width as int;
        let ghost src = chroma_data@;
        let ghost ws = predicted_chroma@;
        proof {
            lemma_macroblock_fits(
                mbx as int,
                mby as int,
                mbw,
                self.macroblock_height as int,
                8,
            );
        }
        let mut blocks = [0i32; 64];
        let mut k: usize = 0;
        while k < 4
            invariant
                k <= 4,
                src == chroma_data@,
                ws == predicted_chroma@,
                w == mbw * 8,
                mbx < 0xffff,
                mby < 0xffff,
                fits(src.len() as int, w as int, mbx * 8, mby * 8, 8),
                forall|n: int|
                    0 <= n < 64 && n / 16 < k ==> #[trigger] blocks@[n] == chroma_blocks(
                        mbw,
                        src,
                        ws,
                        mbx as int,
                        mby as int,
                    )[n],
            decreases 4 - k,
        {
            let dx: usize = (k % 2) * 4;
            let dy: usize = (k / 2) * 4;
            proof {
                lemma_block_fits(
                    src.len() as int,
                    w as int,
                    mbx * 8,
                    mby * 8,
                    8,
                    dx as int,
                    dy as int,
                );
            }
            let mut block = residual_block(
                predicted_chroma,
                CHROMA_STRIDE,
                1 + dx,
                1 + dy,
                chroma_data,
                w,
                mbx * 8 + dx,
                mby * 8 + dy,
                8,
            );
            dct4x4(&mut block);
            assert(block@ == chroma_block(mbw, src, ws, mbx as int, mby as int, k as int));
            store_block(&mut blocks, k, &block);
            k = k + 1;
        }
        proof {
            lemma_chroma_blocks_bound(mbw, src, ws, mbx as int, mby as int);
        }
        assert(blocks@ =~= chroma_blocks(mbw, src, ws, mbx as int, mby as int));
        blocks
    }

    /// Coefficients, reconstruction and non-zero flag of a chroma macroblock.
    fn reconstruct_chroma(
        &self,
        ws: &mut [u8; CHROMA_BLOCK_SIZE],
        chroma_data: &[u8],
        mbx: usize,
        mby: usize,
        segment: &Segment,
    ) -> (r: ([i32; 64], bool))
        requires
            self.has_macroblock(mbx as int, mby as int),
            chroma_data@.len() == (self.macroblock_width * 8) * (self.macroblock_height * 8),
            segment.wf(),
        ensures
            final(ws)@ == restored_chroma(
                self.macroblock_width as int,
                chroma_data@,
                old(ws)@,
                *segment,
                mbx as int,
                mby as int,
            ),
            r.0@ == chroma_blocks(
                self.macroblock_width as int,
                chroma_data@,
                old(ws)@,
                mbx as int,
                mby as int,
            ),
            r.1 == chroma_has_nonzero(r.0@, *segment),
    {
        let blocks = self.get_chroma_blocks_from_predicted(ws, chroma_data, mbx, mby);
        let coeffs = get_chroma_block_coeffs(&blocks, segment);
        proof {
            lemma_chroma_levels(blocks@, *segment);
            lemma_chroma_residue_bound(coeffs@, *segment);
        }
        let (residue, flags) = get_dequantized_blocks_from_coeffs_chroma(&coeffs, segment);
        let non_zero = any_set(&flags);
        proof {
            let b = scaled(coeffs@, segment.uvdc, segment.uvac);
            assert(forall|k: int| 0 <= k < 4 ==> #[trigger] flags@[k] == any_nonzero(block_at(b, k)));
            if non_zero {
                let k = choose|k: int| 0 <= k < flags@.len() && #[trigger] flags@[k];
                assert(any_nonzero(block_at(b, k)));
            } else {
                assert forall|k: int| 0 <= k < 4 implies !any_nonzero(#[trigger] block_at(b, k)) by {
                    assert(!flags@[k]);
                }
            }
        }
        add_residue(ws, &residue, 8, CHROMA_STRIDE);
        (blocks, non_zero)
    }

    /// Copies reconstructed chroma macroblocks to their place in the frame.
    pub fn write_chroma_recon(
        &mut self,
        mbx: usize,
        mby: usize,
        predicted_u: &[u8; CHROMA_BLOCK_SIZE],
        predicted_v: &[u8; CHROMA_BLOCK_SIZE],
    )
        requires
            old(self).has_chroma_canvas(),
            old(self).has_macroblock(mbx as int, mby as int),
        ensures
            *final(self) == (Vp8Encoder {
                recon_u: final(self).recon_u,
                recon_v: final(self).recon_v,
                ..*old(self)
            }),
            final(self).recon_u@ == placed(
                old(self).recon_u@,
                old(self).macroblock_width * 8,
                mbx * 8,
                mby * 8,
                predicted_u@,
                8,
                9,
            ),
            final(self).recon_v@ == placed(
                old(self).recon_v@,
                old(self).macroblock_width * 8,
                mbx * 8,
                mby * 8,
                predicted_v@,
                8,
                9,
            ),
    {
        proof {
            lemma_macroblock_fits(
                mbx as int,
                mby as int,
                self.macroblock_width as int,
                self.macroblock_height as int,
                8,
            );
        }
        let w: usize = self.macroblock_width as usize * 8;
        place_macroblock(&mut self.recon_u, w, mbx * 8, mby * 8, predicted_u, 8, CHROMA_STRIDE);
        place_macroblock(&mut self.recon_v, w, mbx * 8, mby * 8, predicted_v, 8, CHROMA_STRIDE);
    }

    /// Reconstructs the chroma of a macroblock in the frame. Returns its
    /// coefficients and whether any of them is not zero once quantised.
    pub fn transform_chroma_blocks(
        &mut self,
        mbx: usize,
        mby: usize,
        macroblock_info: &MacroblockInfo,
    ) -> (r: ([i32; 64], [i32; 64], bool))
        requires
            old(self).has_chroma_source(),
            old(self).has_chroma_canvas(),
            old(self).has_macroblock(mbx as int, mby as int),
            macroblock_info.wf(),
            segment_for(old(self).segments@, macroblock_info.segment_id).wf(),
        ensures
            *final(self) == (Vp8Encoder {
                recon_u: final(self).recon_u,
                recon_v: final(self).recon_v,
                ..*old(self)
            }),
            final(self).recon_u@ == painted(
                old(self).scene(),
                old(self).canvas(),
                macroblock_info@,
                mbx as int,
                mby as int,
            ).u,
            final(self).recon_v@ == painted(
                old(self).scene(),
                old(self).canvas(),
                macroblock_info@,
                mbx as int,
                mby as int,
            ).v,
            r.0@ == chroma_coeffs(
                old(self).scene(),
                old(self).frame.ubuf@,
                old(self).recon_u@,
                macroblock_info@,
                mbx as int,
                mby as int,
            ),
            r.1@ == chroma_coeffs(
                old(self).scene(),
                old(self).frame.vbuf@,
                old(self).recon_v@,
                macroblock_info@,
                mbx as int,
                mby as int,
            ),
            r.2 == (chroma_has_nonzero(
                r.0@,
                segment_for(old(self).segments@, macroblock_info.segment_id),
            ) || chroma_has_nonzero(
                r.1@,
                segment_for(old(self).segments@, macroblock_info.segment_id),
            )),
    {
        proof {
            reveal(painted);
            reveal(chroma_coeffs);
        }
        let segment = self.segment_of(macroblock_info.segment_id);
        let chroma_mode = macroblock_info.chroma_mode;
        let mut predicted_u = self.get_predicted_chroma_block(chroma_mode, mbx, mby, &self.recon_u);
        let mut predicted_v = self.get_predicted_chroma_block(chroma_mode, mbx, mby, &self.recon_v);
        let (u_blocks, u_non_zero) = self.reconstruct_chroma(
            &mut predicted_u,
            &self.frame.ubuf,
            mbx,
            mby,
            &segment,
        );
        let (v_blocks, v_non_zero) = self.reconstruct_chroma(
            &mut predicted_v,
            &self.frame.vbuf,
            mbx,
            mby,
            &segment,
        );
        self.write_chroma_recon(mbx, mby, &predicted_u, &predicted_v);
        (u_blocks, v_blocks, u_non_zero || v_non_zero)
    }
}

} // verus!
