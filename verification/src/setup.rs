//! Preparation of the encoder for a frame.
use vstd::prelude::*;

use crate::arithmetic_encoder::{ArithmeticEncoder, Coder};
use crate::common::{flat_table, IntraMode, Segment};
use crate::encoder::{Complexity, Contexts, Frame, Vp8Encoder};
use crate::filter::{derive_filter_level, filter_level_for};
use crate::model::Scene;
use crate::passes::{edge_modes, Surroundings, Walk};
use crate::segments::{
    build_segment, lemma_macroblock_fits, lemma_macroblock_position, luma_variance, quartiles,
    quartiles_of, segment_of, segment_probs, segment_tree_probs_for,
    variance, variances_of, QuantizationIndices, SEGMENT_QUANT_DELTAS,
};
use crate::tables::coeff_probs::{default_probs, default_tables};
use crate::yuv::{macroblock_count, macroblocks};

verus! {

/// Quantiser index for a quality from 0 to 100.
pub open spec fn quant_index_for(quality: int) -> u8 {
    (127 - quality * 127 / 100) as u8
}

/// Segments of a frame with a given quantiser index.
pub open spec fn frame_segments(quant_index: u8) -> Seq<Segment> {
    Seq::new(
        4,
        |i: int|
            segment_of(
                quant_index,
                SEGMENT_QUANT_DELTAS[i],
                QuantizationIndices::of(quant_index),
            ),
    )
}

/// A frame with given planes, dimensions and quality.
pub open spec fn scene_of(
    quality: int,
    width: int,
    height: int,
    y: Seq<u8>,
    u: Seq<u8>,
    v: Seq<u8>,
) -> Scene {
    Scene {
        mbw: macroblocks(width),
        mbh: macroblocks(height),
        ybuf: y,
        ubuf: u,
        vbuf: v,
        segments: frame_segments(quant_index_for(quality)),
        ids: quartiles(variances_of(y, macroblocks(width), macroblocks(height))),
    }
}

/// A segment without quantisers.
pub open spec fn no_segment() -> Segment {
    Segment {
        ydc: 0,
        yac: 0,
        y2dc: 0,
        y2ac: 0,
        uvdc: 0,
        uvac: 0,
        delta_values: false,
        quantizer_level: 0,
        loopfilter_level: 0,
    }
}

/// A plane of a frame has fewer than 2^32 pixels.
proof fn lemma_plane_sizes(mbw: int, mbh: int)
    requires
        0 <= mbw <= 4095,
        0 <= mbh <= 4096,
    ensures
        0 <= (mbw * 16) * (mbh * 16) < 0x1_0000_0000,
        0 <= (mbw * 8) * (mbh * 8) < 0x1_0000_0000,
        0 <= mbw * mbh <= 0x100_0000,
{
    assert(0 <= mbw * mbh <= 4095 * 4096) by (nonlinear_arith)
        requires
            0 <= mbw <= 4095,
            0 <= mbh <= 4096,
    ;
    assert((mbw * 16) * (mbh * 16) == 256 * (mbw * mbh)) by (nonlinear_arith);
    assert((mbw * 8) * (mbh * 8) == 64 * (mbw * mbh)) by (nonlinear_arith);
}

impl Vp8Encoder {
    /// An encoder that has written nothing.
    pub fn new() -> (encoder: Vp8Encoder)
        ensures
            encoder.writer@.len() == 0,
            encoder.encoder@ == Coder::fresh(),
            encoder.coders() == seq![Coder::fresh()],
            encoder.has_coders(),
            encoder.left_complexity@ == Contexts::zero(),
            !encoder.loop_filter_adjustments,
            !encoder.segments_enabled,
            encoder.segment_tree_probs@ == seq![128u8, 128u8, 128u8],
            encoder.macroblock_no_skip_coeff is None,
            encoder.macroblock_width == 0,
            encoder.macroblock_height == 0,
            encoder.mb_segment_ids@.len() == 0,
            encoder.top_complexity@.len() == 0,
            encoder.top_b_pred@.len() == 0,
            encoder.left_b_pred@ == edge_modes(),
            encoder.mb_info_cache@.len() == 0,
            encoder.recon_y@.len() == 0,
            encoder.recon_u@.len() == 0,
            encoder.recon_v@.len() == 0,
            encoder.quantization_indices == QuantizationIndices::of(0),
            flat_table(encoder.token_probs) == Seq::new(1056, |n: int| 0u8),
            forall|i: int| 0 <= i < 4 ==> #[trigger] encoder.segments@[i] == no_segment(),
            encoder.frame.width == 0,
            encoder.frame.height == 0,
            encoder.frame.ybuf@.len() == 0,
            encoder.frame.ubuf@.len() == 0,
            encoder.frame.vbuf@.len() == 0,
            encoder.frame.version == 0,
            !encoder.frame.keyframe,
            !encoder.frame.for_display,
            encoder.frame.pixel_type == 0,
            !encoder.frame.filter_type,
            encoder.frame.filter_level == 0,
            encoder.frame.sharpness_level == 0,
    {
        let segment = Segment {
            ydc: 0,
            yac: 0,
            y2dc: 0,
            y2ac: 0,
            uvdc: 0,
            uvac: 0,
            delta_values: false,
            quantizer_level: 0,
            loopfilter_level: 0,
        };
        let mut partitions: Vec<ArithmeticEncoder> = Vec::new();
        partitions.push(ArithmeticEncoder::new());
        let encoder = Vp8Encoder {
            writer: Vec::new(),
            frame: Frame {
                width: 0,
                height: 0,
                ybuf: Vec::new(),
                ubuf: Vec::new(),
                vbuf: Vec::new(),
                version: 0,
                keyframe: false,
                for_display: false,
                pixel_type: 0,
                filter_type: false,
                filter_level: 0,
                sharpness_level: 0,
            },
            encoder: ArithmeticEncoder::new(),
            segments: [segment;4],
            segments_enabled: false,
            segment_tree_probs: [128;3],
            mb_segment_ids: Vec::new(),
            loop_filter_adjustments: false,
            macroblock_no_skip_coeff: None,
            quantization_indices: QuantizationIndices::plain(0),
            token_probs: [[[[0;11];3];8];4],
            top_complexity: Vec::new(),
            left_complexity: Complexity::none(),
            top_b_pred: Vec::new(),
            left_b_pred: [IntraMode::DC;4],
            macroblock_width: 0,
            macroblock_height: 0,
            partitions,
            recon_y: Vec::new(),
            recon_u: Vec::new(),
            recon_v: Vec::new(),
            mb_info_cache: Vec::new(),
        };
        proof {
            assert(encoder.coders() =~= seq![Coder::fresh()]);
            assert(encoder.segment_tree_probs@ =~= seq![128u8, 128u8, 128u8]);
            assert(encoder.left_b_pred@ =~= edge_modes());
            assert(flat_table(encoder.token_probs) =~= Seq::new(1056, |n: int| 0u8));
        }
        encoder
    }

    /// Puts everything that prediction reads back to what it is before the
    /// first macroblock of a frame.
    pub fn reset_frame_state(&mut self)
        requires
            (old(self).macroblock_width * 16) * (old(self).macroblock_height * 16) <= usize::MAX,
        ensures
            *final(self) == (Vp8Encoder {
                top_complexity: final(self).top_complexity,
                left_complexity: final(self).left_complexity,
                top_b_pred: final(self).top_b_pred,
                left_b_pred: final(self).left_b_pred,
                recon_y: final(self).recon_y,
                recon_u: final(self).recon_u,
                recon_v: final(self).recon_v,
                ..*old(self)
            }),
            final(self).walk() == Walk::fresh(
                old(self).macroblock_width as int,
                old(self).macroblock_height as int,
            ),
            final(self).left_complexity@ == Contexts::zero(),
            final(self).around() == Surroundings::fresh(old(self).macroblock_width as int),
            final(self).has_contexts(),
    {
        let mbw: usize = self.macroblock_width as usize;
        let mbh: usize = self.macroblock_height as usize;
        assert(0 <= (mbw * 8) * (mbh * 8) <= (mbw * 16) * (mbh * 16)) by (nonlinear_arith);
        self.top_complexity = vec![Complexity::none(); mbw];
        self.left_complexity = Complexity::none();
        self.top_b_pred = vec![IntraMode::DC; 4 * mbw];
        self.left_b_pred = [IntraMode::DC;4];
        self.recon_y = vec![0u8; (mbw * 16) * (mbh * 16)];
        self.recon_u = vec![0u8; (mbw * 8) * (mbh * 8)];
        self.recon_v = vec![0u8; (mbw * 8) * (mbh * 8)];
        proof {
            let w = Walk::fresh(mbw as int, mbh as int);
            assert(self.canvas() =~= w.canvas);
            assert(self.modes() =~= w.modes);
            assert(self.around().top =~= Surroundings::fresh(mbw as int).top);
            assert(self.around() == Surroundings::fresh(mbw as int));
        }
    }

    /// Variance of the source pixels of a luma macroblock, times 65536: in
    /// these units it is a whole number.
    pub fn macroblock_luma_variance(&self, mbx: usize, mby: usize) -> (r: u64)
        requires
            self.has_macroblock(mbx as int, mby as int),
            self.has_luma_source(),
        ensures
            r == variance(
                self.frame.ybuf@,
                self.macroblock_width as int,
                mbx as int,
                mby as int,
            ),
    {
        proof {
            lemma_macroblock_fits(
                mbx as int,
                mby as int,
                self.macroblock_width as int,
                self.macroblock_height as int,
                16,
            );
        }
        luma_variance(&self.frame.ybuf, self.macroblock_width as usize, mbx, mby)
    }

    /// Assigns every macroblock to a segment: the quarter that the variance of
    /// its source pixels falls into among those of the frame.
    pub fn classify_segments(&self) -> (ids: Vec<u8>)
        requires
            self.has_luma_source(),
        ensures
            ids@ == quartiles(
                variances_of(
                    self.frame.ybuf@,
                    self.macroblock_width as int,
                    self.macroblock_height as int,
                ),
            ),
            ids@.len() == self.macroblock_width * self.macroblock_height,
            forall|i: int| 0 <= i < ids@.len() ==> #[trigger] ids@[i] < 4,
    {
        let mbw: usize = self.macroblock_width as usize;
        let mbh: usize = self.macroblock_height as usize;
        assert(self.frame.ybuf.len() == (mbw * 16) * (mbh * 16));
        assert(0 <= mbw * mbh && (mbw * 16) * (mbh * 16) == 256 * (mbw * mbh)) by (nonlinear_arith)
            requires
                0 <= mbw,
                0 <= mbh,
        ;
        let ghost all = variances_of(self.frame.ybuf@, mbw as int, mbh as int);
        let n: usize = mbw * mbh;
        let mut variances: Vec<u64> = Vec::new();
        let mut i: usize = 0;
        while i < n
            invariant
                i <= n == mbw * mbh,
                mbw == self.macroblock_width,
                mbh == self.macroblock_height,
                self.has_luma_source(),
                all == variances_of(self.frame.ybuf@, mbw as int, mbh as int),
                variances@.len() == i,
                forall|k: int| 0 <= k < i ==> #[trigger] variances@[k] == all[k],
            decreases n - i,
        {
            proof {
                lemma_macroblock_position(i as int, mbw as int, mbh as int);
            }
            let v: u64 = self.macroblock_luma_variance(i % mbw, i / mbw);
            variances.push(v);
            i = i + 1;
        }
        assert(variances@ =~= all);
        quartiles_of(&variances)
    }

    /// Prepares the encoder for a frame: the planes, the quantisers for the
    /// quality, and the segment of each macroblock.
    pub fn setup_encoding(
        &mut self,
        lossy_quality: u8,
        width: u16,
        height: u16,
        y_buf: Vec<u8>,
        u_buf: Vec<u8>,
        v_buf: Vec<u8>,
    )
        requires
            lossy_quality <= 100,
            width <= 65520,
            y_buf@.len() == (macroblocks(width as int) * 16) * (macroblocks(height as int) * 16),
            u_buf@.len() == (macroblocks(width as int) * 8) * (macroblocks(height as int) * 8),
            v_buf@.len() == (macroblocks(width as int) * 8) * (macroblocks(height as int) * 8),
        ensures
            *final(self) == (Vp8Encoder {
                writer: old(self).writer,
                encoder: old(self).encoder,
                loop_filter_adjustments: old(self).loop_filter_adjustments,
                macroblock_no_skip_coeff: old(self).macroblock_no_skip_coeff,
                partitions: old(self).partitions,
                ..*final(self)
            }),
            final(self).scene() == scene_of(
                lossy_quality as int,
                width as int,
                height as int,
                y_buf@,
                u_buf@,
                v_buf@,
            ),
            final(self).in_frame(),
            final(self).walk() == Walk::fresh(
                macroblocks(width as int),
                macroblocks(height as int),
            ),
            final(self).around() == Surroundings::fresh(macroblocks(width as int)),
            final(self).has_contexts(),
            final(self).frame.width == width,
            final(self).frame.height == height,
            final(self).frame.version == 0,
            final(self).frame.keyframe,
            final(self).frame.for_display,
            final(self).frame.pixel_type == 0,
            !final(self).frame.filter_type,
            final(self).frame.filter_level == filter_level_for(
                quant_index_for(lossy_quality as int) as int,
            ),
            final(self).frame.sharpness_level == 7,
            final(self).segments_enabled,
            final(self).segment_tree_probs@ == segment_probs(final(self).scene().ids),
            final(self).quantization_indices == QuantizationIndices::of(
                quant_index_for(lossy_quality as int),
            ),
            ({
                let index = final(self).quantization_indices.yac_abs as int;
                let level = final(self).frame.filter_level as int;
                &&& 100 * (127 - index) <= 127 * lossy_quality < 100 * (127 - index) + 100
                &&& 8 * level <= index < 8 * level + 8
            }),
            flat_table(final(self).token_probs) == default_probs(),
            final(self).mb_info_cache@.len() == final(self).count(),
            forall|i: int|
                0 <= i < final(self).count() ==> #[trigger] final(self).mb_info_cache@[i] is None,
    {
        let mb_width: u16 = macroblock_count(width);
        let mb_height: u16 = macroblock_count(height);
        let ghost scene = scene_of(
            lossy_quality as int,
            width as int,
            height as int,
            y_buf@,
            u_buf@,
            v_buf@,
        );
        proof {
            lemma_plane_sizes(mb_width as int, mb_height as int);
        }
        self.macroblock_width = mb_width;
        self.macroblock_height = mb_height;
        let quant_index: u8 = (127 - lossy_quality as u16 * 127 / 100) as u8;
        self.frame = Frame {
            width,
            height,
            ybuf: y_buf,
            ubuf: u_buf,
            vbuf: v_buf,
            version: 0,
            keyframe: true,
            for_display: true,
            pixel_type: 0,
            filter_type: false,
            filter_level: derive_filter_level(quant_index),
            sharpness_level: 7,
        };
        self.token_probs = default_tables();
        let indices = QuantizationIndices::plain(quant_index);
        self.quantization_indices = indices;
        self.segments_enabled = true;
        let ids = self.classify_segments();
        self.segment_tree_probs = segment_tree_probs_for(&ids);
        self.mb_segment_ids = ids;
        self.segments = [
            build_segment(quant_index, SEGMENT_QUANT_DELTAS[0], &indices),
            build_segment(quant_index, SEGMENT_QUANT_DELTAS[1], &indices),
            build_segment(quant_index, SEGMENT_QUANT_DELTAS[2], &indices),
            build_segment(quant_index, SEGMENT_QUANT_DELTAS[3], &indices),
        ];
        self.mb_info_cache = vec![None; mb_width as usize * mb_height as usize];
        self.reset_frame_state();
        proof {
            assert(self.segments@ =~= frame_segments(quant_index));
            assert(self.scene() == scene);
            assert forall|i: int| 0 <= i < 4 implies (#[trigger] scene.segments[i]).wf() by {
                assert(scene.segments[i] == self.segments@[i]);
            }
        }
    }
}

} // verus!
