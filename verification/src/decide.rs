//! Choice of the prediction modes of a macroblock by rate and distortion.
use vstd::prelude::*;

use crate::binary64::{Binary64, Dyadic};
use crate::blocks::{add_block, add_residue, macroblock_sse, put_subblock, sse};
use crate::common::{
    ChromaMode, IntraMode, LumaMode, Segment, CHROMA_BLOCK_SIZE, CHROMA_STRIDE, LUMA_BLOCK_SIZE,
    LUMA_STRIDE,
};
use crate::cost::{
    bpred_mode_bit_cost, coeff_rate_estimate, lagrangian_cost, lambda_of, lemma_rate_bound,
    mode_decision_lambda,
};
use crate::encoder::{MacroblockInfo, Vp8Encoder};
use crate::model::{
    best_luma, best_sub_mode, cheapest, chroma_blocks, chroma_candidate, chroma_costs,
    chroma_trial, decide, luma_blocks, luma_candidate, luma_costs, luma_trial, mode_above,
    mode_left, predicted_chroma, predicted_luma, sub_candidate, sub_cost, sub_error, sub_levels,
    sub_rate, sub_restored, sub_search, sub_search_step,
};
use crate::prediction::{create_border_luma_from_plane, lemma_inside, predict_subblock};
use crate::quantize::{
    any_nonzero, dequantize, get_chroma_block_coeffs, get_dequantized_blocks_from_coeffs_chroma,
    get_dequantized_blocks_from_coeffs_luma_16x16, get_luma_block_coeffs_16x16, has_nonzero,
    lemma_chroma_levels, lemma_chroma_residue_bound, lemma_levels, lemma_luma_residue_bound,
    lemma_quantized_bound, lemma_trunc_div, luma_residue, quantize, quantized, scaled, step_of,
    store_block, y2_levels, y2_restored, y_levels, Luma16x16Coeffs,
};
use crate::reconstruct::lemma_sub_coeffs_bound;
use crate::segments::lemma_macroblock_fits;
use crate::transform::{dct4x4, idct4x4, lemma_idct_bound};

verus! {

/// The whole-macroblock luma modes, in the order in which they are tried.
pub const LUMA_MODE_CANDIDATES: [LumaMode; 4] = [
    LumaMode::DC,
    LumaMode::V,
    LumaMode::H,
    LumaMode::TM,
];

/// The chroma modes, in the order in which they are tried.
pub const CHROMA_MODE_CANDIDATES: [ChromaMode; 4] = [
    ChromaMode::DC,
    ChromaMode::V,
    ChromaMode::H,
    ChromaMode::TM,
];

/// The sub-block modes, in the order in which they are tried.
pub const BPRED_MODE_CANDIDATES: [IntraMode; 10] = [
    IntraMode::DC,
    IntraMode::TM,
    IntraMode::VE,
    IntraMode::HE,
    IntraMode::LD,
    IntraMode::RD,
    IntraMode::VR,
    IntraMode::VL,
    IntraMode::HD,
    IntraMode::HU,
];

/// What trying a mode for a sub-block gives.
pub struct SubTrial {
    pub cost: Binary64,
    pub distortion: i64,
    pub rate: Binary64,
    pub levels: [i32; 16],
    pub restored: [u8; 16],
}

proof fn lemma_cheapest(costs: Seq<Dyadic>, k: int)
    requires
        k >= 1,
    ensures
        0 <= cheapest(costs, k) < k,
    decreases k,
{
    if k > 1 {
        lemma_cheapest(costs, k - 1);
    }
}

impl Vp8Encoder {
    /// Squared error of a reconstructed luma macroblock.
    pub fn luma_sse(&self, recon: &[u8; LUMA_BLOCK_SIZE], mbx: usize, mby: usize) -> (r: i64)
        requires
            self.has_luma_source(),
            self.has_macroblock(mbx as int, mby as int),
        ensures
            r == sse(
                recon@,
                16,
                21,
                self.frame.ybuf@,
                self.macroblock_width * 16,
                mbx * 16,
                mby * 16,
                256,
            ),
            0 <= r <= 65025 * 256,
    {
        proof {
            lemma_macroblock_fits(
                mbx as int,
                mby as int,
                self.macroblock_width as int,
                self.macroblock_height as int,
                16,
            );
        }
        let w: usize = self.macroblock_width as usize * 16;
        macroblock_sse(recon, 16, LUMA_STRIDE, &self.frame.ybuf, w, mbx * 16, mby * 16)
    }

    /// Squared error of a reconstructed chroma macroblock.
    pub fn chroma_sse(
        &self,
        recon: &[u8; CHROMA_BLOCK_SIZE],
        plane: &[u8],
        mbx: usize,
        mby: usize,
    ) -> (r: i64)
        requires
            self.has_macroblock(mbx as int, mby as int),
            plane@.len() == (self.macroblock_width * 8) * (self.macroblock_height * 8),
        ensures
            r == sse(
                recon@,
                8,
                9,
                plane@,
                self.macroblock_width * 8,
                mbx * 8,
                mby * 8,
                64,
            ),
            0 <= r <= 65025 * 256,
    {
        proof {
            lemma_macroblock_fits(
                mbx as int,
                mby as int,
                self.macroblock_width as int,
                self.macroblock_height as int,
                8,
            );
        }
        let w: usize = self.macroblock_width as usize * 8;
        macroblock_sse(recon, 8, CHROMA_STRIDE, plane, w, mbx * 8, mby * 8)
    }

    /// Tries a luma mode: squared error, rate and coefficients.
    pub fn trial_luma_16x16(
        &self,
        luma_mode: LumaMode,
        mbx: usize,
        mby: usize,
        segment: &Segment,
    ) -> (r: (i64, i64, Luma16x16Coeffs))
        requires
            self.has_luma_source(),
            self.has_luma_canvas(),
            self.has_macroblock(mbx as int, mby as int),
            luma_mode != LumaMode::B,
            segment.wf(),
        ensures
            ({
                let t = luma_trial(
                    self.scene(),
                    self.canvas(),
                    luma_mode,
                    *segment,
                    mbx as int,
                    mby as int,
                );
                let ws = predicted_luma(
                    self.scene(),
                    self.canvas(),
                    luma_mode,
                    mbx as int,
                    mby as int,
                );
                let blocks = luma_blocks(self.scene(), ws, mbx as int, mby as int);
                let y2 = y2_levels(blocks, *segment);
                &&& r.0 == t.distortion
                &&& r.1 == t.rate
                &&& r.2.y2_coeffs@ == y2_restored(y2, *segment)
                &&& r.2.y_coeffs@ == luma_residue(y2, y_levels(blocks, *segment), *segment)
                &&& t.all_zero == (!any_nonzero(r.2.y2_coeffs@) && !any_nonzero(r.2.y_coeffs@))
            }),
            r.0 >= 0,
            r.1 >= 0,
    {
        proof {
            reveal(luma_trial);
        }
        let y_with_border = self.get_predicted_luma_block_16x16(luma_mode, mbx, mby);
        let block_coeffs = self.get_luma_blocks_from_predicted_16x16(&y_with_border, mbx, mby);
        let mut coeffs = get_luma_block_coeffs_16x16(&block_coeffs, segment);
        proof {
            lemma_levels(block_coeffs@, *segment);
            lemma_luma_residue_bound(coeffs.y2_coeffs@, coeffs.y_coeffs@, *segment);
        }
        let (dequantized_blocks, _non_zero) = get_dequantized_blocks_from_coeffs_luma_16x16(
            &mut coeffs,
            segment,
        );
        let mut recon = y_with_border;
        add_residue(&mut recon, &dequantized_blocks, 16, LUMA_STRIDE);
        let distortion: i64 = self.luma_sse(&recon, mbx, mby);
        proof {
            lemma_rate_bound(coeffs.y2_coeffs@, 40001);
            lemma_rate_bound(coeffs.y_coeffs@, 1000000);
        }
        let rate: i64 = coeff_rate_estimate(&coeffs.y2_coeffs) + coeff_rate_estimate(
            &coeffs.y_coeffs,
        );
        (distortion, rate, coeffs)
    }

    /// Tries a chroma mode on both planes: squared error, rate and levels.
    pub fn trial_chroma(
        &self,
        chroma_mode: ChromaMode,
        mbx: usize,
        mby: usize,
        segment: &Segment,
    ) -> (r: (i64, i64, [i32; 64], [i32; 64]))
        requires
            self.has_chroma_source(),
            self.has_chroma_canvas(),
            self.has_macroblock(mbx as int, mby as int),
            segment.wf(),
        ensures
            ({
                let t = chroma_trial(
                    self.scene(),
                    self.canvas(),
                    chroma_mode,
                    *segment,
                    mbx as int,
                    mby as int,
                );
                let (scene, x, y) = (self.scene(), mbx as int, mby as int);
                let wu = predicted_chroma(scene, self.canvas().u, chroma_mode, x, y);
                let wv = predicted_chroma(scene, self.canvas().v, chroma_mode, x, y);
                &&& r.0 == t.distortion
                &&& r.1 == t.rate
                &&& r.2@ == quantized(
                    chroma_blocks(scene.mbw, scene.ubuf, wu, x, y),
                    segment.uvdc,
                    segment.uvac,
                )
                &&& r.3@ == quantized(
                    chroma_blocks(scene.mbw, scene.vbuf, wv, x, y),
                    segment.uvdc,
                    segment.uvac,
                )
                &&& t.all_zero == (!any_nonzero(r.2@) && !any_nonzero(r.3@))
            }),
            r.0 >= 0,
            r.1 >= 0,
    {
        proof {
            reveal(chroma_trial);
        }
        let mut predicted_u = self.get_predicted_chroma_block(chroma_mode, mbx, mby, &self.recon_u);
        let mut predicted_v = self.get_predicted_chroma_block(chroma_mode, mbx, mby, &self.recon_v);
        let u_blocks = self.get_chroma_blocks_from_predicted(
            &predicted_u,
            &self.frame.ubuf,
            mbx,
            mby,
        );
        let v_blocks = self.get_chroma_blocks_from_predicted(
            &predicted_v,
            &self.frame.vbuf,
            mbx,
            mby,
        );
        let u_coeffs = get_chroma_block_coeffs(&u_blocks, segment);
        let v_coeffs = get_chroma_block_coeffs(&v_blocks, segment);
        proof {
            lemma_chroma_levels(u_blocks@, *segment);
            lemma_chroma_levels(v_blocks@, *segment);
            lemma_chroma_residue_bound(u_coeffs@, *segment);
            lemma_chroma_residue_bound(v_coeffs@, *segment);
            lemma_rate_bound(u_coeffs@, 2040);
            lemma_rate_bound(v_coeffs@, 2040);
        }
        let (dequantized_u, _u_non_zero) = get_dequantized_blocks_from_coeffs_chroma(
            &u_coeffs,
            segment,
        );
        let (dequantized_v, _v_non_zero) = get_dequantized_blocks_from_coeffs_chroma(
            &v_coeffs,
            segment,
        );
        add_residue(&mut predicted_u, &dequantized_u, 8, CHROMA_STRIDE);
        add_residue(&mut predicted_v, &dequantized_v, 8, CHROMA_STRIDE);
        let distortion: i64 = self.chroma_sse(&predicted_u, &self.frame.ubuf, mbx, mby)
            + self.chroma_sse(&predicted_v, &self.frame.vbuf, mbx, mby);
        let rate: i64 = coeff_rate_estimate(&u_coeffs) + coeff_rate_estimate(&v_coeffs);
        (distortion, rate, u_coeffs, v_coeffs)
    }

    /// Squared error of a reconstructed sub-block.
    fn subblock_error(&self, restored: &[u8; 16], mbx: usize, mby: usize, k: usize) -> (r: i64)
        requires
            self.has_luma_source(),
            self.has_macroblock(mbx as int, mby as int),
            k < 16,
        ensures
            r == sub_error(self.scene(), restored@, mbx as int, mby as int, k as int, 16),
            0 <= r <= 1_040_400,
    {
        let mut r: i64 = 0;
        let mut i: usize = 0;
        while i < 16
            invariant
                i <= 16,
                k < 16,
                self.has_luma_source(),
                self.has_macroblock(mbx as int, mby as int),
                r == sub_error(
                    self.scene(),
                    restored@,
                    mbx as int,
                    mby as int,
                    k as int,
                    i as int,
                ),
                0 <= r <= 65025 * i,
            decreases 16 - i,
        {
            let d: i64 = restored[i] as i64 - self.subblock_source(mbx, mby, k, i) as i64;
            assert(0 <= d * d <= 65025) by (nonlinear_arith)
                requires
                    -255 <= d <= 255,
            ;
            r = r + d * d;
            i = i + 1;
        }
        r
    }

    /// Tries a mode for sub-block `k`.
    fn trial_subblock(
        &self,
        ws: &[u8; LUMA_BLOCK_SIZE],
        mode: IntraMode,
        top: IntraMode,
        left: IntraMode,
        mbx: usize,
        mby: usize,
        k: usize,
        segment: &Segment,
        lambda: Binary64,
    ) -> (r: SubTrial)
        requires
            self.has_luma_source(),
            self.has_macroblock(mbx as int, mby as int),
            k < 16,
            segment.wf(),
            lambda.wf(),
            lambda@.exp_in(-60, 80),
        ensures
            r.cost.wf(),
            r.cost@ == sub_cost(
                self.scene(),
                ws@,
                mode,
                *segment,
                lambda@,
                top,
                left,
                mbx as int,
                mby as int,
                k as int,
            ),
            r.distortion == sub_error(
                self.scene(),
                r.restored@,
                mbx as int,
                mby as int,
                k as int,
                16,
            ),
            0 <= r.distortion <= 1_040_400,
            r.rate.wf(),
            r.rate@.exp_in(-60, 14),
            r.rate@ == sub_rate(r.levels@, top, left, mode),
            r.levels@ == sub_levels(
                self.scene(),
                ws@,
                mode,
                *segment,
                mbx as int,
                mby as int,
                k as int,
            ),
            r.restored@ == sub_restored(
                self.scene(),
                ws@,
                mode,
                *segment,
                mbx as int,
                mby as int,
                k as int,
            ),
    {
        let predicted = predict_subblock(ws, mode, 1 + (k % 4) * 4, 1 + (k / 4) * 4);
        let mut levels = self.subblock_residual(&predicted, mbx, mby, k);
        dct4x4(&mut levels);
        let ghost coeffs = levels@;
        proof {
            reveal(sub_levels);
            reveal(sub_restored);
            reveal(sub_rate);
            reveal(sub_cost);
            lemma_sub_coeffs_bound(self.scene(), ws@, mode, mbx as int, mby as int, k as int);
            lemma_quantized_bound(coeffs, segment.ydc, segment.yac, 2040);
            let q = quantized(coeffs, segment.ydc, segment.yac);
            assert forall|i: int| 0 <= i < 16 implies i32::MIN <= #[trigger] q[i] * step_of(
                i,
                segment.ydc,
                segment.yac,
            ) <= i32::MAX by {
                lemma_trunc_div(coeffs[i] as int, step_of(i, segment.ydc, segment.yac));
            }
            lemma_idct_bound(scaled(q, segment.ydc, segment.yac));
            lemma_rate_bound(q, 2040);
        }
        quantize(&mut levels, segment.ydc, segment.yac);
        let mut residue: [i32; 16] = levels;
        dequantize(&mut residue, segment.ydc, segment.yac);
        idct4x4(&mut residue);
        let restored = add_block(&predicted, &residue);
        let distortion: i64 = self.subblock_error(&restored, mbx, mby, k);
        let coeff_rate: i64 = coeff_rate_estimate(&levels);
        let rate = Binary64::from_u64(coeff_rate as u64).add(bpred_mode_bit_cost(top, left, mode));
        let cost = lagrangian_cost(distortion, lambda, rate);
        SubTrial { cost, distortion, rate, levels, restored }
    }

    /// The cheapest mode for sub-block `k`, and its trial.
    fn choose_subblock(
        &self,
        ws: &[u8; LUMA_BLOCK_SIZE],
        top: IntraMode,
        left: IntraMode,
        mbx: usize,
        mby: usize,
        k: usize,
        segment: &Segment,
        lambda: Binary64,
    ) -> (r: (IntraMode, SubTrial))
        requires
            self.has_luma_source(),
            self.has_macroblock(mbx as int, mby as int),
            k < 16,
            segment.wf(),
            lambda.wf(),
            lambda@.exp_in(-60, 80),
        ensures
            r.0 == best_sub_mode(
                self.scene(),
                ws@,
                *segment,
                lambda@,
                top,
                left,
                mbx as int,
                mby as int,
                k as int,
            ),
            r.1.distortion == sub_error(
                self.scene(),
                r.1.restored@,
                mbx as int,
                mby as int,
                k as int,
                16,
            ),
            0 <= r.1.distortion <= 1_040_400,
            r.1.rate.wf(),
            r.1.rate@.exp_in(-60, 14),
            r.1.rate@ == sub_rate(r.1.levels@, top, left, r.0),
            r.1.levels@ == sub_levels(
                self.scene(),
                ws@,
                r.0,
                *segment,
                mbx as int,
                mby as int,
                k as int,
            ),
            r.1.restored@ == sub_restored(
                self.scene(),
                ws@,
                r.0,
                *segment,
                mbx as int,
                mby as int,
                k as int,
            ),
    {
        let ghost costs = Seq::new(
            10,
            |m: int|
                sub_cost(
                    self.scene(),
                    ws@,
                    sub_candidate(m),
                    *segment,
                    lambda@,
                    top,
                    left,
                    mbx as int,
                    mby as int,
                    k as int,
                ),
        );
        proof {
            reveal(best_sub_mode);
        }
        let mut best_mode = IntraMode::DC;
        let mut best = self.trial_subblock(
            ws,
            IntraMode::DC,
            top,
            left,
            mbx,
            mby,
            k,
            segment,
            lambda,
        );
        let mut m: usize = 1;
        while m < 10
            invariant
                1 <= m <= 10,
                self.has_luma_source(),
                self.has_macroblock(mbx as int, mby as int),
                k < 16,
                segment.wf(),
                lambda.wf(),
                lambda@.exp_in(-60, 80),
                costs == Seq::new(
                    10,
                    |m: int|
                        sub_cost(
                            self.scene(),
                            ws@,
                            sub_candidate(m),
                            *segment,
                            lambda@,
                            top,
                            left,
                            mbx as int,
                            mby as int,
                            k as int,
                        ),
                ),
                best_mode == sub_candidate(cheapest(costs, m as int)),
                best.cost.wf(),
                best.cost@ == costs[cheapest(costs, m as int)],
                best.distortion == sub_error(
                    self.scene(),
                    best.restored@,
                    mbx as int,
                    mby as int,
                    k as int,
                    16,
                ),
                0 <= best.distortion <= 1_040_400,
                best.rate.wf(),
                best.rate@.exp_in(-60, 14),
                best.rate@ == sub_rate(best.levels@, top, left, best_mode),
                best.levels@ == sub_levels(
                    self.scene(),
                    ws@,
                    best_mode,
                    *segment,
                    mbx as int,
                    mby as int,
                    k as int,
                ),
                best.restored@ == sub_restored(
                    self.scene(),
                    ws@,
                    best_mode,
                    *segment,
                    mbx as int,
                    mby as int,
                    k as int,
                ),
            decreases 10 - m,
        {
            let mode: IntraMode = BPRED_MODE_CANDIDATES[m];
            assert(mode == sub_candidate(m as int));
            let trial = self.trial_subblock(ws, mode, top, left, mbx, mby, k, segment, lambda);
            proof {
                lemma_cheapest(costs, m as int);
                assert(trial.cost@ == costs[m as int]);
            }
            if trial.cost.lt(best.cost) {
                best = trial;
                best_mode = mode;
            }
            m = m + 1;
        }
        (best_mode, best)
    }

    /// Searches the modes of the sixteen sub-blocks one after the other. Each
    /// is predicted from the reconstructions of those before it, as a decoder
    /// will predict it. Returns the total squared error and rate, the modes
    /// and the levels.
    pub fn trial_luma_bpred(
        &self,
        mbx: usize,
        mby: usize,
        segment: &Segment,
        lambda: Binary64,
    ) -> (r: (i64, Binary64, [IntraMode; 16], [i32; 256]))
        requires
            self.has_luma_source(),
            self.has_luma_canvas(),
            self.top_b_pred@.len() >= 4 * mbx + 4,
            self.has_macroblock(mbx as int, mby as int),
            segment.wf(),
            lambda.wf(),
            lambda@.exp_in(-60, 80),
        ensures
            ({
                let s = sub_search(
                    self.scene(),
                    self.canvas(),
                    self.modes(),
                    *segment,
                    lambda@,
                    mbx as int,
                    mby as int,
                    16,
                );
                &&& r.0 == s.distortion
                &&& r.1@ == s.rate
                &&& r.2@ == s.modes
                &&& r.3@ == s.levels
            }),
            r.0 >= 0,
            r.1.wf(),
            r.1@.exp_in(-60, 50),
    {
        let ghost scene = self.scene();
        let ghost canvas = self.canvas();
        let ghost modes = self.modes();
        let ghost x = mbx as int;
        let ghost y = mby as int;
        proof {
            lemma_macroblock_fits(x, y, scene.mbw, scene.mbh, 16);
        }
        let mbw: usize = self.macroblock_width as usize;
        let mut ws = create_border_luma_from_plane(mbx, mby, mbw, &self.recon_y);
        let mut total_distortion: i64 = 0;
        let mut total_rate = Binary64::zero();
        let mut chosen_modes = [IntraMode::DC; 16];
        let mut y_coeffs = [0i32; 256];
        let mut k: usize = 0;
        while k < 16
            invariant
                k <= 16,
                self.has_luma_source(),
                self.has_luma_canvas(),
                self.top_b_pred@.len() >= 4 * mbx + 4,
                self.has_macroblock(x, y),
                x == mbx,
                y == mby,
                scene == self.scene(),
                canvas == self.canvas(),
                modes == self.modes(),
                segment.wf(),
                lambda.wf(),
                lambda@.exp_in(-60, 80),
                ({
                    let s = sub_search(scene, canvas, modes, *segment, lambda@, x, y, k as int);
                    &&& ws@ == s.ws
                    &&& total_distortion == s.distortion
                    &&& total_rate@ == s.rate
                    &&& s.modes.len() == k
                    &&& s.levels.len() == 16 * k
                    &&& forall|j: int| 0 <= j < k ==> #[trigger] chosen_modes@[j] == s.modes[j]
                    &&& forall|n: int|
                        0 <= n < 16 * k ==> #[trigger] y_coeffs@[n] == s.levels[n]
                }),
                0 <= total_distortion <= 1_040_400 * k,
                total_rate.wf(),
                total_rate@.exp_in(-60, 14 + 2 * k),
            decreases 16 - k,
        {
            let ghost s = sub_search(scene, canvas, modes, *segment, lambda@, x, y, k as int);
            let top: IntraMode = if k < 4 {
                self.top_b_pred[mbx * 4 + k]
            } else {
                chosen_modes[k - 4]
            };
            let left: IntraMode = if k % 4 == 0 {
                self.left_b_pred[k / 4]
            } else {
                chosen_modes[k - 1]
            };
            assert(top == mode_above(modes, s.modes, x, k as int));
            assert(left == mode_left(modes, s.modes, k as int));
            let (mode, trial) = self.choose_subblock(
                &ws,
                top,
                left,
                mbx,
                mby,
                k,
                segment,
                lambda,
            );
            put_subblock(&mut ws, &trial.restored, 1 + (k % 4) * 4, 1 + (k / 4) * 4);
            chosen_modes[k] = mode;
            store_block(&mut y_coeffs, k, &trial.levels);
            total_distortion = total_distortion + trial.distortion;
            total_rate = total_rate.add(trial.rate);
            proof {
                assert(sub_search(scene, canvas, modes, *segment, lambda@, x, y, k + 1)
                    == sub_search_step(scene, s, modes, *segment, lambda@, x, y, k as int));
            }
            k = k + 1;
        }
        let ghost s = sub_search(scene, canvas, modes, *segment, lambda@, x, y, 16);
        assert(chosen_modes@ =~= s.modes);
        assert(y_coeffs@ =~= s.levels);
        (total_distortion, total_rate, chosen_modes, y_coeffs)
    }

    /// The cheapest whole-macroblock luma mode: its cost, the mode, and
    /// whether all its coefficients are zero.
    fn choose_luma_16x16(
        &self,
        mbx: usize,
        mby: usize,
        segment: &Segment,
        lambda: Binary64,
    ) -> (r: (Binary64, LumaMode, bool))
        requires
            self.has_luma_source(),
            self.has_luma_canvas(),
            self.has_macroblock(mbx as int, mby as int),
            segment.wf(),
            lambda.wf(),
            lambda@ == lambda_of(segment.yac),
            lambda@.exp_in(-60, 80),
        ensures
            ({
                let (scene, canvas) = (self.scene(), self.canvas());
                let best = best_luma(scene, canvas, *segment, mbx as int, mby as int);
                &&& r.0@ == luma_costs(scene, canvas, *segment, mbx as int, mby as int)[best]
                &&& r.1 == luma_candidate(best)
                &&& r.2 == luma_trial(
                    scene,
                    canvas,
                    r.1,
                    *segment,
                    mbx as int,
                    mby as int,
                ).all_zero
            }),
            r.0.wf(),
    {
        let ghost scene = self.scene();
        let ghost canvas = self.canvas();
        let ghost costs = luma_costs(scene, canvas, *segment, mbx as int, mby as int);
        let mut best_cost = Binary64::zero();
        let mut best_mode = LumaMode::DC;
        let mut best_zero = false;
        let mut m: usize = 0;
        while m < 4
            invariant
                m <= 4,
                self.has_luma_source(),
                self.has_luma_canvas(),
                self.has_macroblock(mbx as int, mby as int),
                scene == self.scene(),
                canvas == self.canvas(),
                segment.wf(),
                lambda.wf(),
                lambda@ == lambda_of(segment.yac),
                lambda@.exp_in(-60, 80),
                costs == luma_costs(scene, canvas, *segment, mbx as int, mby as int),
                best_cost.wf(),
                m > 0 ==> {
                    &&& best_cost@ == costs[cheapest(costs, m as int)]
                    &&& best_mode == luma_candidate(cheapest(costs, m as int))
                    &&& best_zero == luma_trial(
                        scene,
                        canvas,
                        best_mode,
                        *segment,
                        mbx as int,
                        mby as int,
                    ).all_zero
                },
            decreases 4 - m,
        {
            let mode: LumaMode = LUMA_MODE_CANDIDATES[m];
            assert(mode == luma_candidate(m as int));
            let (distortion, rate, coeffs) = self.trial_luma_16x16(mode, mbx, mby, segment);
            let cost = lagrangian_cost(distortion, lambda, Binary64::from_u64(rate as u64));
            proof {
                if m > 0 {
                    lemma_cheapest(costs, m as int);
                }
                assert(cost@ == costs[m as int]);
            }
            if m == 0 || cost.lt(best_cost) {
                best_cost = cost;
                best_mode = mode;
                best_zero = !has_nonzero(&coeffs.y2_coeffs) && !has_nonzero(&coeffs.y_coeffs);
            }
            m = m + 1;
        }
        (best_cost, best_mode, best_zero)
    }

    /// The cheapest chroma mode, and whether all its levels are zero.
    fn choose_chroma(
        &self,
        mbx: usize,
        mby: usize,
        segment: &Segment,
        lambda: Binary64,
    ) -> (r: (ChromaMode, bool))
        requires
            self.has_chroma_source(),
            self.has_chroma_canvas(),
            self.has_macroblock(mbx as int, mby as int),
            segment.wf(),
            lambda.wf(),
            lambda@ == lambda_of(segment.yac),
            lambda@.exp_in(-60, 80),
        ensures
            ({
                let (scene, canvas) = (self.scene(), self.canvas());
                let costs = chroma_costs(scene, canvas, *segment, mbx as int, mby as int);
                &&& r.0 == chroma_candidate(cheapest(costs, 4))
                &&& r.1 == chroma_trial(
                    scene,
                    canvas,
                    r.0,
                    *segment,
                    mbx as int,
                    mby as int,
                ).all_zero
            }),
    {
        let ghost scene = self.scene();
        let ghost canvas = self.canvas();
        let ghost costs = chroma_costs(scene, canvas, *segment, mbx as int, mby as int);
        let mut best_cost = Binary64::zero();
        let mut best_mode = ChromaMode::DC;
        let mut best_zero = false;
        let mut m: usize = 0;
        while m < 4
            invariant
                m <= 4,
                self.has_chroma_source(),
                self.has_chroma_canvas(),
                self.has_macroblock(mbx as int, mby as int),
                scene == self.scene(),
                canvas == self.canvas(),
                segment.wf(),
                lambda.wf(),
                lambda@ == lambda_of(segment.yac),
                lambda@.exp_in(-60, 80),
                costs == chroma_costs(scene, canvas, *segment, mbx as int, mby as int),
                best_cost.wf(),
                m > 0 ==> {
                    &&& best_cost@ == costs[cheapest(costs, m as int)]
                    &&& best_mode == chroma_candidate(cheapest(costs, m as int))
                    &&& best_zero == chroma_trial(
                        scene,
                        canvas,
                        best_mode,
                        *segment,
                        mbx as int,
                        mby as int,
                    ).all_zero
                },
            decreases 4 - m,
        {
            let mode: ChromaMode = CHROMA_MODE_CANDIDATES[m];
            assert(mode == chroma_candidate(m as int));
            let (distortion, rate, u_coeffs, v_coeffs) = self.trial_chroma(mode, mbx, mby, segment);
            let cost = lagrangian_cost(distortion, lambda, Binary64::from_u64(rate as u64));
            proof {
                if m > 0 {
                    lemma_cheapest(costs, m as int);
                }
                assert(cost@ == costs[m as int]);
            }
            if m == 0 || cost.lt(best_cost) {
                best_cost = cost;
                best_mode = mode;
                best_zero = !has_nonzero(&u_coeffs) && !has_nonzero(&v_coeffs);
            }
            m = m + 1;
        }
        (best_mode, best_zero)
    }

    /// Chooses the modes of a macroblock. Nothing is reconstructed in the
    /// frame: every mode is tried on copies.
    pub fn choose_macroblock_info(&self, mbx: usize, mby: usize) -> (info: MacroblockInfo)
        requires
            self.in_frame(),
            self.has_macroblock(mbx as int, mby as int),
        ensures
            info@ == decide(
                self.scene(),
                self.canvas(),
                self.modes(),
                mbx as int,
                mby as int,
            ),
            info.wf(),
            info.segment_id is Some,
    {
        let ghost scene = self.scene();
        proof {
            reveal(decide);
            lemma_inside(
                mbx as int,
                mby as int,
                scene.mbw,
                scene.mbh,
                self.mb_segment_ids@.len() as int,
            );
        }
        let count: usize = self.mb_segment_ids.len();
        assert(mby * self.macroblock_width + mbx < count);
        let index: usize = mby * self.macroblock_width as usize + mbx;
        let segment_id: u8 = self.mb_segment_ids[index];
        assert(scene.ids[index as int] < 4);
        let segment = self.segments[segment_id as usize];
        assert(scene.segments[segment_id as int].wf());
        let lambda = mode_decision_lambda(&segment);
        let (best_16x16_cost, luma_mode_16x16, zero_16x16) = self.choose_luma_16x16(
            mbx,
            mby,
            &segment,
            lambda,
        );
        let (bpred_distortion, bpred_rate, bpred_modes, bpred_coeffs) = self.trial_luma_bpred(
            mbx,
            mby,
            &segment,
            lambda,
        );
        let bpred_cost = lagrangian_cost(bpred_distortion, lambda, bpred_rate);
        let (luma_mode, luma_bpred, luma_all_zero) = if bpred_cost.lt(best_16x16_cost) {
            (LumaMode::B, Some(bpred_modes), !has_nonzero(&bpred_coeffs))
        } else {
            (luma_mode_16x16, None, zero_16x16)
        };
        let (chroma_mode, chroma_all_zero) = self.choose_chroma(mbx, mby, &segment, lambda);
        let info = MacroblockInfo {
            luma_mode,
            luma_bpred,
            chroma_mode,
            segment_id: Some(segment_id as usize),
            coeffs_skipped: luma_all_zero && chroma_all_zero,
            non_zero_dct: false,
        };
        info
    }
}

} // verus!
