//! Encoding of whole frames.
use vstd::prelude::*;

use crate::arithmetic_encoder::{lemma_write_all_concat, Coder};
use crate::common::flat_table;
use crate::encoder::{ColorType, Vp8Encoder};
use crate::filter::{filter_level_for, filtered_frame, FilterSettings};
use crate::header::{frame_header_bits, FrameHeader, HeaderParams};
use crate::model::{Canvas, Decision, Scene};
use crate::output::{
    flushed_parts, partition_bytes, partitions_fit, uncompressed_header, MAX_HEADER_SIZE,
};
use crate::passes::{
    completed, decisions, frame_branches, frame_mode_bits, frame_partitions, lemma_partitions_len,
    replay, skipped_count, surroundings, Surroundings, Walk,
};
use crate::probabilities::{
    countable, derive_updated_token_probs, skip_prob, skip_probability, updated_probs,
};
use crate::segments::{segment_probs, QuantizationIndices};
use crate::setup::{quant_index_for, scene_of};
use crate::tokens::{no_counts, tallied};
use crate::yuv::{
    convert_image_y, convert_image_yuv, gray_plane, luma_plane, neutral_plane, u_plane, v_plane,
};

verus! {

/// An image to be encoded, and the quality to encode it with.
pub struct Image {
    pub data: Seq<u8>,
    pub color: ColorType,
    pub width: u16,
    pub height: u16,
    pub quality: u8,
}

impl Image {
    /// The data fit the dimensions, and the quality is a percentage.
    pub open spec fn wf(self) -> bool {
        &&& self.width <= 65520
        &&& self.quality <= 100
        &&& self.data.len() == self.width * self.height * self.color.bytes()
    }

    /// Luma and chroma planes.
    pub open spec fn planes(self) -> (Seq<u8>, Seq<u8>, Seq<u8>) {
        let (w, h) = (self.width as int, self.height as int);
        let bytes = self.color.bytes();
        match self.color {
            ColorType::L8 | ColorType::La8 => (
                gray_plane(self.data, bytes, w, h),
                neutral_plane(w, h),
                neutral_plane(w, h),
            ),
            ColorType::Rgb8 | ColorType::Rgba8 => (
                luma_plane(self.data, bytes, w, h),
                u_plane(self.data, bytes, w, h),
                v_plane(self.data, bytes, w, h),
            ),
        }
    }

    pub open spec fn scene(self) -> Scene {
        let (y, u, v) = self.planes();
        scene_of(self.quality as int, self.width as int, self.height as int, y, u, v)
    }

    /// Number of macroblocks.
    pub open spec fn count(self) -> int {
        self.scene().mbw * self.scene().mbh
    }

    /// State before the first macroblock.
    pub open spec fn start(self) -> Walk {
        Walk::fresh(self.scene().mbw, self.scene().mbh)
    }

    /// Contexts before the first macroblock.
    pub open spec fn first(self) -> Surroundings {
        Surroundings::fresh(self.scene().mbw)
    }

    /// Modes of the macroblocks.
    pub open spec fn decisions(self) -> Seq<Decision> {
        decisions(self.scene(), self.start(), self.count())
    }

    /// How often each branch of the token tree is taken.
    pub open spec fn counts(self) -> Seq<u64> {
        tallied(
            no_counts(),
            frame_branches(
                self.scene(),
                self.start(),
                self.first(),
                self.decisions(),
                self.count(),
            ),
        )
    }

    /// Token probabilities of the frame.
    pub open spec fn token_probs(self) -> Seq<u8> {
        updated_probs(self.counts())
    }

    /// Probability that a macroblock is not skipped.
    pub open spec fn no_skip(self) -> u8 {
        skip_prob(skipped_count(self.decisions()), self.count())
    }

    /// Compressed frame header.
    pub open spec fn frame_header(self, partitions: int) -> FrameHeader {
        let quant_index = quant_index_for(self.quality as int);
        FrameHeader {
            segments_enabled: true,
            segments: self.scene().segments,
            segment_tree_probs: segment_probs(self.scene().ids),
            filter_type: false,
            filter_level: filter_level_for(quant_index as int) as u8,
            sharpness_level: 7,
            partitions,
            indices: QuantizationIndices::of(quant_index),
            token_probs: self.token_probs(),
            no_skip: Some(self.no_skip()),
        }
    }

    /// Parameters of the macroblock headers.
    pub open spec fn header_params(self) -> HeaderParams {
        HeaderParams {
            segments_enabled: true,
            segment_tree_probs: segment_probs(self.scene().ids),
            no_skip: Some(self.no_skip()),
        }
    }

    /// Bits of the first partition: the frame header and the macroblock headers.
    pub open spec fn header_bits(self, partitions: int) -> Seq<(bool, u8)> {
        frame_header_bits(self.frame_header(partitions)) + frame_mode_bits(
            self.header_params(),
            self.scene(),
            self.start(),
            self.decisions(),
            self.count(),
        )
    }

    /// The coefficient partitions, written with given coders.
    pub open spec fn partitions(self, coders: Seq<Coder>) -> Seq<Coder> {
        frame_partitions(
            self.scene(),
            self.start(),
            self.first(),
            self.decisions(),
            self.token_probs(),
            coders,
            self.count(),
        )
    }

    /// The decisions with what reconstruction has found out.
    pub open spec fn completed(self) -> Seq<Decision> {
        Seq::new(
            self.decisions().len(),
            |j: int| completed(self.scene(), self.start(), self.decisions(), j),
        )
    }

    /// Pixels before deblocking, and sub-block modes, after the last macroblock.
    pub open spec fn finish(self) -> Walk {
        replay(self.scene(), self.start(), self.decisions(), self.count())
    }

    /// Contexts after the last macroblock.
    pub open spec fn last(self) -> Surroundings {
        surroundings(self.scene(), self.start(), self.first(), self.decisions(), self.count())
    }

    /// Settings of the deblocking filter.
    pub open spec fn filter_settings(self) -> FilterSettings {
        FilterSettings {
            filter_type: false,
            filter_level: filter_level_for(quant_index_for(self.quality as int) as int) as u8,
            sharpness_level: 7,
            segments_enabled: true,
        }
    }

    /// The pixels that a decoder shows.
    pub open spec fn reconstruction(self) -> Canvas {
        let canvas = self.finish().canvas;
        if self.filter_settings().filter_level == 0 {
            canvas
        } else {
            filtered_frame(
                self.scene(),
                self.filter_settings(),
                self.completed(),
                canvas,
                self.count(),
            )
        }
    }

    /// The bytes of the frame, written with given coders.
    pub open spec fn bytes(self, coder: Coder, coders: Seq<Coder>) -> Seq<u8> {
        let header = coder.write_all(self.header_bits(coders.len() as int)).flushed();
        uncompressed_header(0, true, self.width, self.height, header.len() as int) + header
            + partition_bytes(flushed_parts(self.partitions(coders)))
    }

    /// The sizes in the frame fit their fields.
    pub open spec fn fits(self, coder: Coder, coders: Seq<Coder>) -> bool {
        &&& coder.write_all(self.header_bits(coders.len() as int)).flushed().len() < MAX_HEADER_SIZE
        &&& partitions_fit(flushed_parts(self.partitions(coders)))
    }

    /// The bytes of the frame as a new encoder writes them.
    pub open spec fn encoded(self) -> Seq<u8> {
        self.bytes(Coder::fresh(), seq![Coder::fresh()])
    }

    /// The sizes in the frame fit their fields, for a new encoder.
    pub open spec fn encodable(self) -> bool {
        self.fits(Coder::fresh(), seq![Coder::fresh()])
    }
}

/// Planes of an image.
fn convert(data: &[u8], color: ColorType, width: u16, height: u16) -> (planes: (
    Vec<u8>,
    Vec<u8>,
    Vec<u8>,
))
    requires
        width <= 65520,
        data@.len() == width * height * color.bytes(),
    ensures
        (planes.0@, planes.1@, planes.2@) == (Image {
            data: data@,
            color,
            width,
            height,
            quality: 0,
        }).planes(),
{
    match color {
        ColorType::Rgb8 => convert_image_yuv::<3>(data, width, height),
        ColorType::Rgba8 => convert_image_yuv::<4>(data, width, height),
        ColorType::L8 => convert_image_y::<1>(data, width, height),
        ColorType::La8 => convert_image_y::<2>(data, width, height),
    }
}

impl Vp8Encoder {
    /// The encoder can take an image: its coders are valid, there are
    /// partitions, and the features that it does not write are off.
    pub open spec fn ready(&self) -> bool {
        &&& self.has_coders()
        &&& self.partitions@.len() >= 1
        &&& !self.loop_filter_adjustments
    }

    /// Decides the modes of the frame, and learns the probabilities of its
    /// skip flags and tokens.
    fn learn_statistics(&mut self, Ghost(image): Ghost<Image>)
        requires
            old(self).in_frame(),
            old(self).scene() == image.scene(),
            old(self).walk() == image.start(),
            old(self).around() == image.first(),
            old(self).mb_info_cache@.len() == old(self).count(),
        ensures
            *final(self) == (Vp8Encoder {
                macroblock_no_skip_coeff: final(self).macroblock_no_skip_coeff,
                token_probs: final(self).token_probs,
                left_complexity: final(self).left_complexity,
                top_complexity: final(self).top_complexity,
                top_b_pred: final(self).top_b_pred,
                left_b_pred: final(self).left_b_pred,
                recon_y: final(self).recon_y,
                recon_u: final(self).recon_u,
                recon_v: final(self).recon_v,
                mb_info_cache: final(self).mb_info_cache,
                ..*old(self)
            }),
            final(self).in_frame(),
            final(self).has_contexts(),
            final(self).has_decisions(),
            final(self).walk() == image.start(),
            final(self).around() == image.first(),
            final(self).cached() == image.decisions(),
            flat_table(final(self).token_probs) == image.token_probs(),
            final(self).macroblock_no_skip_coeff == Some(image.no_skip()),
    {
        let ghost scene = self.scene();
        assert(self.recon_y.len() == (self.macroblock_width * 16) * (self.macroblock_height * 16));
        let (skipped, total) = self.count_skipped_macroblocks();
        assert(self.scene() == scene);
        let ghost cached = self.cached();
        self.reset_frame_state();
        assert(self.scene() == scene);
        assert(self.cached() == cached);
        self.macroblock_no_skip_coeff = Some(skip_probability(skipped, total));
        let counts = self.collect_token_counts();
        proof {
            assert(counts@ == image.counts());
            assert forall|k: int| 0 <= k < 1056 implies countable(
                #[trigger] counts@[2 * k],
                counts@[2 * k + 1],
            ) by {
                assert(counts@[2 * k] <= 0x40_0000_0000);
                assert(counts@[2 * k + 1] <= 0x40_0000_0000);
            }
        }
        assert(self.scene() == scene);
        self.reset_frame_state();
        assert(self.scene() == scene);
        assert(self.cached() == cached);
        self.token_probs = derive_updated_token_probs(&counts);
    }

    /// Sets up the frame of an image, and learns its statistics.
    fn start_frame(
        &mut self,
        data: &[u8],
        color: ColorType,
        width: u16,
        height: u16,
        lossy_quality: u8,
    )
        requires
            old(self).ready(),
            (Image { data: data@, color, width, height, quality: lossy_quality }).wf(),
        ensures
            ({
                let image = Image { data: data@, color, width, height, quality: lossy_quality };
                &&& final(self).holds(image)
                &&& final(self).frame_header() == image.frame_header(
                    old(self).partitions@.len() as int,
                )
            }),
            final(self).encoder == old(self).encoder,
            final(self).partitions == old(self).partitions,
            final(self).writer == old(self).writer,
    {
        let ghost image = Image { data: data@, color, width, height, quality: lossy_quality };
        let (y_bytes, u_bytes, v_bytes) = convert(data, color, width, height);
        proof {
            assert((Image { data: data@, color, width, height, quality: 0 }).planes()
                == image.planes());
        }
        self.setup_encoding(lossy_quality, width, height, y_bytes, u_bytes, v_bytes);
        assert(self.scene() == image.scene());
        self.learn_statistics(Ghost(image));
        assert(self.scene() == image.scene());
    }

    /// The encoder describes the frame of an image: the source and its
    /// segments, the header fields, and the probabilities.
    pub open spec fn describes(&self, image: Image) -> bool {
        &&& self.scene() == image.scene()
        &&& self.filter_settings() == image.filter_settings()
        &&& self.frame.width == image.width
        &&& self.frame.height == image.height
        &&& self.frame.version == 0
        &&& self.frame.keyframe
        &&& self.frame.for_display
        &&& self.frame.pixel_type == 0
        &&& self.segment_tree_probs@ == segment_probs(image.scene().ids)
        &&& self.quantization_indices == QuantizationIndices::of(
            quant_index_for(image.quality as int),
        )
        &&& flat_table(self.token_probs) == image.token_probs()
        &&& self.macroblock_no_skip_coeff == Some(image.no_skip())
        &&& !self.loop_filter_adjustments
    }

    /// The frame of an image is set up, and its statistics are known.
    pub open spec fn holds(&self, image: Image) -> bool {
        &&& self.in_frame()
        &&& self.has_contexts()
        &&& self.has_decisions()
        &&& self.describes(image)
        &&& self.walk() == image.start()
        &&& self.around() == image.first()
        &&& self.cached() == image.decisions()
        &&& self.header_params() == image.header_params()
    }

    /// Codes the headers and coefficients of a frame whose statistics are
    /// known.
    fn code_frame(&mut self, Ghost(image): Ghost<Image>)
        requires
            old(self).holds(image),
            old(self).has_coders(),
            old(self).partitions@.len() >= 1,
            old(self).frame_header() == image.frame_header(old(self).partitions@.len() as int),
        ensures
            *final(self) == (Vp8Encoder {
                encoder: final(self).encoder,
                partitions: final(self).partitions,
                left_complexity: final(self).left_complexity,
                top_complexity: final(self).top_complexity,
                top_b_pred: final(self).top_b_pred,
                left_b_pred: final(self).left_b_pred,
                recon_y: final(self).recon_y,
                recon_u: final(self).recon_u,
                recon_v: final(self).recon_v,
                mb_info_cache: final(self).mb_info_cache,
                ..*old(self)
            }),
            final(self).in_frame(),
            final(self).has_contexts(),
            final(self).has_decisions(),
            final(self).has_coders(),
            final(self).encoder@ == old(self).encoder@.write_all(
                image.header_bits(old(self).partitions@.len() as int),
            ),
            final(self).coders() == image.partitions(old(self).coders()),
            final(self).describes(image),
            final(self).walk() == image.finish(),
            final(self).around() == image.last(),
            final(self).cached() == image.completed(),
            final(self).partitions@.len() == old(self).partitions@.len(),
    {
        let ghost coder = self.encoder@;
        let ghost coders = self.coders();
        let ghost header = frame_header_bits(self.frame_header());
        let ghost first = self.around();
        self.encode_compressed_frame_header();
        assert(self.holds(image));
        assert(self.around() == first);
        assert(self.coders() == coders);
        self.encode_macroblocks();
        proof {
            lemma_write_all_concat(
                coder,
                header,
                frame_mode_bits(
                    image.header_params(),
                    image.scene(),
                    image.start(),
                    image.decisions(),
                    image.count(),
                ),
            );
            lemma_partitions_len(
                image.scene(),
                image.start(),
                image.first(),
                image.decisions(),
                image.token_probs(),
                coders,
                image.count(),
            );
            assert(self.coders().len() == self.partitions@.len());
        }
    }

    /// Encodes an image up to the point where the bytes are written.
    pub fn encode_passes(
        &mut self,
        data: &[u8],
        color: ColorType,
        width: u16,
        height: u16,
        lossy_quality: u8,
    )
        requires
            old(self).ready(),
            (Image { data: data@, color, width, height, quality: lossy_quality }).wf(),
        ensures
            ({
                let image = Image { data: data@, color, width, height, quality: lossy_quality };
                &&& final(self).encoder@ == old(self).encoder@.write_all(
                    image.header_bits(old(self).partitions@.len() as int),
                )
                &&& final(self).coders() == image.partitions(old(self).coders())
                &&& final(self).canvas() == image.reconstruction()
                &&& final(self).cached() == image.completed()
                &&& final(self).describes(image)
                &&& final(self).modes() == image.finish().modes
                &&& final(self).around() == image.last()
            }),
            final(self).writer == old(self).writer,
            final(self).has_coders(),
            final(self).partitions@.len() == old(self).partitions@.len(),
    {
        let ghost image = Image { data: data@, color, width, height, quality: lossy_quality };
        let ghost coders = self.coders();
        self.start_frame(data, color, width, height, lossy_quality);
        assert(self.coders() == coders);
        self.code_frame(Ghost(image));
        assert(self.scene() == image.scene());
        assert(self.filter_settings() == image.filter_settings());
        let ghost around = self.around();
        self.apply_loop_filter();
        assert(self.scene() == image.scene());
        assert(self.around() == around);
    }
}

} // verus!
