//! The compressed frame header and the macroblock headers.
use vstd::arithmetic::logarithm::{
    lemma_log0, lemma_log_is_ordered, lemma_log_nonnegative, lemma_log_pow, lemma_log_s, log,
};
use vstd::arithmetic::power::pow;
use vstd::arithmetic::power2::{lemma2_to64, lemma2_to64_rest, lemma_pow2};
use vstd::prelude::*;

use crate::arithmetic_encoder::{
    flag_bits, lemma_write_all_concat, literal_bits, optional_signed_bits, tree_bits, Coder,
};
use crate::common::{
    flat_table, IntraMode, LumaMode, Segment, KEYFRAME_BPRED_MODE_TREE, KEYFRAME_UV_MODE_PROBS,
    KEYFRAME_UV_MODE_TREE, KEYFRAME_YMODE_PROBS, KEYFRAME_YMODE_TREE, SEGMENT_ID_TREE,
};
use crate::encoder::{MacroblockInfo, Vp8Encoder};
use crate::model::{advanced, mode_above, mode_left, Decision, Modes};
use crate::probabilities::prob_at;
use crate::segments::QuantizationIndices;
use crate::tables::coeff_probs::{default_prob_at, default_probs};
use crate::tables::mode_probs::{bpred_probs, bpred_probs_for};
use crate::tables::update_probs::{update_flag_prob_at, update_flag_probs};
use crate::trees::{lemma_bpred_tree, lemma_segment_tree, lemma_uv_mode_tree, lemma_ymode_tree};

verus! {

/// Fields of the compressed frame header.
pub struct FrameHeader {
    pub segments_enabled: bool,
    pub segments: Seq<Segment>,
    pub segment_tree_probs: Seq<u8>,
    pub filter_type: bool,
    pub filter_level: u8,
    pub sharpness_level: u8,
    pub partitions: int,
    pub indices: QuantizationIndices,
    pub token_probs: Seq<u8>,
    pub no_skip: Option<u8>,
}

/// Quantiser deltas of the first `k` segments.
pub open spec fn quantizer_delta_bits(segments: Seq<Segment>, k: int) -> Seq<(bool, u8)>
    decreases k,
{
    if k <= 0 {
        Seq::empty()
    } else {
        quantizer_delta_bits(segments, k - 1) + optional_signed_bits(
            7,
            Some(segments[k - 1].quantizer_level),
        )
    }
}

/// Absent loop filter deltas of `k` segments.
pub open spec fn filter_delta_bits(k: int) -> Seq<(bool, u8)>
    decreases k,
{
    if k <= 0 {
        Seq::empty()
    } else {
        filter_delta_bits(k - 1) + optional_signed_bits(6, None)
    }
}

/// The first `k` probabilities of the segment tree, each announced by a flag.
pub open spec fn segment_prob_bits(probs: Seq<u8>, k: int) -> Seq<(bool, u8)>
    decreases k,
{
    if k <= 0 {
        Seq::empty()
    } else {
        segment_prob_bits(probs, k - 1) + flag_bits(true) + literal_bits(8, probs[k - 1])
    }
}

/// Segmentation of the frame: the segment map and the segment data follow, as
/// differences from the values of the frame.
pub open spec fn segment_update_bits(segments: Seq<Segment>, probs: Seq<u8>) -> Seq<(bool, u8)> {
    flag_bits(true) + flag_bits(true) + flag_bits(false) + quantizer_delta_bits(segments, 4)
        + filter_delta_bits(4) + segment_prob_bits(probs, 3)
}

/// Quantiser indices of the frame.
pub open spec fn quantization_bits(indices: QuantizationIndices) -> Seq<(bool, u8)> {
    literal_bits(7, indices.yac_abs) + optional_signed_bits(4, indices.ydc_delta)
        + optional_signed_bits(4, indices.y2dc_delta) + optional_signed_bits(4, indices.y2ac_delta)
        + optional_signed_bits(4, indices.uvdc_delta) + optional_signed_bits(4, indices.uvac_delta)
}

/// Update of one token probability: a flag, and the value if it is not the default.
pub open spec fn token_prob_bits(prob: u8, default_prob: u8, flag_prob: u8) -> Seq<(bool, u8)> {
    if prob != default_prob {
        seq![(true, flag_prob)] + literal_bits(8, prob)
    } else {
        seq![(false, flag_prob)]
    }
}

/// Updates of the first `k` token probabilities.
pub open spec fn token_probs_bits(probs: Seq<u8>, k: int) -> Seq<(bool, u8)>
    decreases k,
{
    if k <= 0 {
        Seq::empty()
    } else {
        token_probs_bits(probs, k - 1) + token_prob_bits(
            probs[k - 1],
            default_probs()[k - 1],
            update_flag_probs()[k - 1],
        )
    }
}

/// Binary logarithm of the number of partitions, rounded down.
pub open spec fn partition_code(partitions: int) -> u8 {
    log(2, partitions) as u8
}

fn binary_log(n: usize) -> (r: u8)
    requires
        n >= 1,
    ensures
        r as int == log(2, n as int),
        r == partition_code(n as int),
{
    proof {
        lemma2_to64();
        lemma2_to64_rest();
        lemma_pow2(64);
        lemma_log_is_ordered(2, n as int, pow(2, 64));
        lemma_log_pow(2, 64);
    }
    let mut rest: usize = n;
    let mut r: u8 = 0;
    while rest > 1
        invariant
            rest >= 1,
            r + log(2, rest as int) == log(2, n as int) <= 64,
        decreases rest,
    {
        proof {
            lemma_log_s(2, rest as int);
            lemma_log_nonnegative(2, rest as int / 2);
        }
        rest = rest / 2;
        r = r + 1;
    }
    proof {
        lemma_log0(2, rest as int);
    }
    r
}

/// Bits of the flag that tells whether a skip probability follows.
pub open spec fn no_skip_bits(no_skip: Option<u8>) -> Seq<(bool, u8)> {
    match no_skip {
        Some(prob) => literal_bits(1, 1) + literal_bits(8, prob),
        None => literal_bits(1, 0),
    }
}

/// The compressed frame header.
pub open spec fn frame_header_bits(h: FrameHeader) -> Seq<(bool, u8)> {
    literal_bits(1, 0) + literal_bits(1, 0) + flag_bits(h.segments_enabled) + (
    if h.segments_enabled {
        segment_update_bits(h.segments, h.segment_tree_probs)
    } else {
        Seq::empty()
    }) + flag_bits(h.filter_type) + literal_bits(6, h.filter_level) + literal_bits(
        3,
        h.sharpness_level,
    ) + flag_bits(false) + literal_bits(2, partition_code(h.partitions)) + quantization_bits(
        h.indices,
    ) + literal_bits(1, 0) + token_probs_bits(h.token_probs, 1056) + no_skip_bits(h.no_skip)
}

/// Parameters of the macroblock headers.
pub struct HeaderParams {
    pub segments_enabled: bool,
    pub segment_tree_probs: Seq<u8>,
    pub no_skip: Option<u8>,
}

/// Modes of the first `k` sub-blocks, each coded next to the modes above it
/// and to its left.
pub open spec fn subblock_mode_bits(
    modes: Modes,
    bpred: Seq<IntraMode>,
    mbx: int,
    k: int,
) -> Seq<(bool, u8)>
    decreases k,
{
    if k <= 0 {
        Seq::empty()
    } else {
        subblock_mode_bits(modes, bpred, mbx, k - 1) + tree_bits(
            KEYFRAME_BPRED_MODE_TREE@,
            bpred_probs(
                mode_above(modes, bpred, mbx, k - 1),
                mode_left(modes, bpred, k - 1),
            ),
            bpred[k - 1].code(),
            0,
        )
    }
}

/// Header of a macroblock: segment, skip flag, luma mode with the modes of the
/// sub-blocks, and chroma mode.
pub open spec fn macroblock_header_bits(
    params: HeaderParams,
    modes: Modes,
    d: Decision,
    mbx: int,
) -> Seq<(bool, u8)> {
    (if params.segments_enabled {
        tree_bits(SEGMENT_ID_TREE@, params.segment_tree_probs, d.segment_id.unwrap() as i8, 0)
    } else {
        Seq::empty()
    }) + (match params.no_skip {
        Some(prob) => seq![(d.coeffs_skipped, prob)],
        None => Seq::empty(),
    }) + tree_bits(KEYFRAME_YMODE_TREE@, KEYFRAME_YMODE_PROBS@, d.luma_mode.code(), 0) + (
    if d.luma_mode == LumaMode::B {
        subblock_mode_bits(modes, d.luma_bpred.unwrap(), mbx, 16)
    } else {
        Seq::empty()
    }) + tree_bits(KEYFRAME_UV_MODE_TREE@, KEYFRAME_UV_MODE_PROBS@, d.chroma_mode.code(), 0)
}

proof fn lemma_write_one(c: Coder, bit: bool, prob: u8)
    ensures
        c.write_all(seq![(bit, prob)]) == c.write(bit, prob),
{
    let s = seq![(bit, prob)];
    assert(s.drop_last() =~= Seq::<(bool, u8)>::empty());
    assert(c.write_all(s.drop_last()) == c);
}

impl Vp8Encoder {
    /// Fields that go into the compressed frame header.
    pub open spec fn frame_header(&self) -> FrameHeader {
        FrameHeader {
            segments_enabled: self.segments_enabled,
            segments: self.segments@,
            segment_tree_probs: self.segment_tree_probs@,
            filter_type: self.frame.filter_type,
            filter_level: self.frame.filter_level,
            sharpness_level: self.frame.sharpness_level,
            partitions: self.partitions@.len() as int,
            indices: self.quantization_indices,
            token_probs: flat_table(self.token_probs),
            no_skip: self.macroblock_no_skip_coeff,
        }
    }

    /// Parameters of the macroblock headers.
    pub open spec fn header_params(&self) -> HeaderParams {
        HeaderParams {
            segments_enabled: self.segments_enabled,
            segment_tree_probs: self.segment_tree_probs@,
            no_skip: self.macroblock_no_skip_coeff,
        }
    }

    /// Writes the segmentation of the frame.
    pub fn encode_segment_updates(&mut self)
        requires
            old(self).encoder.wf(),
        ensures
            *final(self) == (Vp8Encoder { encoder: final(self).encoder, ..*old(self) }),
            final(self).encoder.wf(),
            final(self).encoder@ == old(self).encoder@.write_all(
                segment_update_bits(old(self).segments@, old(self).segment_tree_probs@),
            ),
    {
        let ghost start = *self;
        let ghost c = self.encoder@;
        let ghost head = flag_bits(true) + flag_bits(true) + flag_bits(false);
        self.encoder.write_flag(true);
        self.encoder.write_flag(true);
        self.encoder.write_flag(false);
        proof {
            lemma_write_all_concat(c, flag_bits(true), flag_bits(true));
            lemma_write_all_concat(c, flag_bits(true) + flag_bits(true), flag_bits(false));
        }
        let ghost c1 = self.encoder@;
        let mut i: usize = 0;
        assert(c1.write_all(Seq::<(bool, u8)>::empty()) == c1);
        while i < 4
            invariant
                i <= 4,
                *self == (Vp8Encoder { encoder: self.encoder, ..start }),
                self.encoder.wf(),
                self.encoder@ == c1.write_all(quantizer_delta_bits(start.segments@, i as int)),
            decreases 4 - i,
        {
            proof {
                lemma_write_all_concat(
                    c1,
                    quantizer_delta_bits(start.segments@, i as int),
                    optional_signed_bits(7, Some(start.segments@[i as int].quantizer_level)),
                );
            }
            let level: i8 = self.segments[i].quantizer_level;
            self.encoder.write_optional_signed_value(7, Some(level));
            i = i + 1;
        }
        let ghost deltas = quantizer_delta_bits(start.segments@, 4);
        let ghost c2 = self.encoder@;
        let mut j: usize = 0;
        assert(c2.write_all(Seq::<(bool, u8)>::empty()) == c2);
        while j < 4
            invariant
                j <= 4,
                *self == (Vp8Encoder { encoder: self.encoder, ..start }),
                self.encoder.wf(),
                self.encoder@ == c2.write_all(filter_delta_bits(j as int)),
            decreases 4 - j,
        {
            proof {
                lemma_write_all_concat(
                    c2,
                    filter_delta_bits(j as int),
                    optional_signed_bits(6, None),
                );
            }
            self.encoder.write_optional_signed_value(6, None);
            j = j + 1;
        }
        let ghost c3 = self.encoder@;
        let mut k: usize = 0;
        assert(c3.write_all(Seq::<(bool, u8)>::empty()) == c3);
        while k < 3
            invariant
                k <= 3,
                *self == (Vp8Encoder { encoder: self.encoder, ..start }),
                self.encoder.wf(),
                self.encoder@ == c3.write_all(
                    segment_prob_bits(start.segment_tree_probs@, k as int),
                ),
            decreases 3 - k,
        {
            let prob: u8 = self.segment_tree_probs[k];
            proof {
                let done = segment_prob_bits(start.segment_tree_probs@, k as int);
                lemma_write_all_concat(c3, done, flag_bits(true));
                lemma_write_all_concat(c3, done + flag_bits(true), literal_bits(8, prob));
            }
            self.encoder.write_flag(true);
            self.encoder.write_literal(8, prob);
            k = k + 1;
        }
        proof {
            let probs = segment_prob_bits(start.segment_tree_probs@, 3);
            lemma_write_all_concat(c, head, deltas);
            lemma_write_all_concat(c, head + deltas, filter_delta_bits(4));
            lemma_write_all_concat(c, head + deltas + filter_delta_bits(4), probs);
        }
    }

    /// Writes the quantiser indices of the frame.
    pub fn encode_quantization_indices(&mut self)
        requires
            old(self).encoder.wf(),
        ensures
            *final(self) == (Vp8Encoder { encoder: final(self).encoder, ..*old(self) }),
            final(self).encoder.wf(),
            final(self).encoder@ == old(self).encoder@.write_all(
                quantization_bits(old(self).quantization_indices),
            ),
    {
        let indices = self.quantization_indices;
        let ghost c = self.encoder@;
        self.encoder.write_literal(7, indices.yac_abs);
        self.encoder.write_optional_signed_value(4, indices.ydc_delta);
        self.encoder.write_optional_signed_value(4, indices.y2dc_delta);
        self.encoder.write_optional_signed_value(4, indices.y2ac_delta);
        self.encoder.write_optional_signed_value(4, indices.uvdc_delta);
        self.encoder.write_optional_signed_value(4, indices.uvac_delta);
        proof {
            let b0 = literal_bits(7, indices.yac_abs);
            let b1 = optional_signed_bits(4, indices.ydc_delta);
            let b2 = optional_signed_bits(4, indices.y2dc_delta);
            let b3 = optional_signed_bits(4, indices.y2ac_delta);
            let b4 = optional_signed_bits(4, indices.uvdc_delta);
            let b5 = optional_signed_bits(4, indices.uvac_delta);
            lemma_write_all_concat(c, b0, b1);
            lemma_write_all_concat(c, b0 + b1, b2);
            lemma_write_all_concat(c, b0 + b1 + b2, b3);
            lemma_write_all_concat(c, b0 + b1 + b2 + b3, b4);
            lemma_write_all_concat(c, b0 + b1 + b2 + b3 + b4, b5);
        }
    }

    /// Writes, for each token probability, whether it differs from the
    /// default, and its value if it does.
    pub fn encode_updated_token_probabilities(&mut self)
        requires
            old(self).encoder.wf(),
        ensures
            *final(self) == (Vp8Encoder { encoder: final(self).encoder, ..*old(self) }),
            final(self).encoder.wf(),
            final(self).encoder@ == old(self).encoder@.write_all(
                token_probs_bits(flat_table(old(self).token_probs), 1056),
            ),
    {
        let ghost start = *self;
        let ghost c = self.encoder@;
        let ghost probs = flat_table(self.token_probs);
        let mut n: usize = 0;
        assert(c.write_all(Seq::<(bool, u8)>::empty()) == c);
        while n < 1056
            invariant
                n <= 1056,
                *self == (Vp8Encoder { encoder: self.encoder, ..start }),
                probs == flat_table(start.token_probs),
                self.encoder.wf(),
                self.encoder@ == c.write_all(token_probs_bits(probs, n as int)),
            decreases 1056 - n,
        {
            let new_prob: u8 = prob_at(&self.token_probs, n);
            let flag_prob: u8 = update_flag_prob_at(n);
            let default_prob: u8 = default_prob_at(n);
            let update = new_prob != default_prob;
            let ghost c1 = self.encoder@;
            proof {
                lemma_write_all_concat(
                    c,
                    token_probs_bits(probs, n as int),
                    token_prob_bits(new_prob, default_prob, flag_prob),
                );
                lemma_write_one(c1, update, flag_prob);
                lemma_write_all_concat(c1, seq![(update, flag_prob)], literal_bits(8, new_prob));
            }
            self.encoder.write_bool(update, flag_prob);
            if update {
                self.encoder.write_literal(8, new_prob);
            }
            n = n + 1;
        }
    }

    /// Writes the compressed frame header.
    pub fn encode_compressed_frame_header(&mut self)
        requires
            old(self).encoder.wf(),
            !old(self).loop_filter_adjustments,
            old(self).partitions@.len() >= 1,
        ensures
            *final(self) == (Vp8Encoder { encoder: final(self).encoder, ..*old(self) }),
            final(self).encoder.wf(),
            final(self).encoder@ == old(self).encoder@.write_all(
                frame_header_bits(old(self).frame_header()),
            ),
    {
        let ghost start = *self;
        let ghost h = self.frame_header();
        let ghost c = self.encoder@;
        self.encoder.write_literal(1, 0);
        self.encoder.write_literal(1, 0);
        let enabled = self.segments_enabled;
        self.encoder.write_flag(enabled);
        let ghost b0 = literal_bits(1, 0) + literal_bits(1, 0) + flag_bits(enabled);
        proof {
            lemma_write_all_concat(c, literal_bits(1, 0), literal_bits(1, 0));
            lemma_write_all_concat(
                c,
                literal_bits(1, 0) + literal_bits(1, 0),
                flag_bits(enabled),
            );
        }
        let ghost b1: Seq<(bool, u8)> = if enabled {
            segment_update_bits(start.segments@, start.segment_tree_probs@)
        } else {
            Seq::empty()
        };
        if self.segments_enabled {
            self.encode_segment_updates();
        }
        proof {
            lemma_write_all_concat(c, b0, b1);
            if !enabled {
                assert(b0 + b1 =~= b0);
            }
        }
        let ghost c1 = self.encoder@;
        assert(c1 == c.write_all(b0 + b1));
        let filter_type = self.frame.filter_type;
        let filter_level: u8 = self.frame.filter_level;
        let sharpness_level: u8 = self.frame.sharpness_level;
        self.encoder.write_flag(filter_type);
        self.encoder.write_literal(6, filter_level);
        self.encoder.write_literal(3, sharpness_level);
        self.encoder.write_flag(false);
        let partitions_value: u8 = binary_log(self.partitions.len());
        self.encoder.write_literal(2, partitions_value);
        let ghost a = b0 + b1;
        let ghost f1 = flag_bits(filter_type);
        let ghost f2 = literal_bits(6, filter_level);
        let ghost f3 = literal_bits(3, sharpness_level);
        let ghost f4 = flag_bits(false);
        let ghost f5 = literal_bits(2, partitions_value);
        proof {
            lemma_write_all_concat(c, a, f1);
            lemma_write_all_concat(c, a + f1, f2);
            lemma_write_all_concat(c, a + f1 + f2, f3);
            lemma_write_all_concat(c, a + f1 + f2 + f3, f4);
            lemma_write_all_concat(c, a + f1 + f2 + f3 + f4, f5);
        }
        self.encode_quantization_indices();
        self.encoder.write_literal(1, 0);
        self.encode_updated_token_probabilities();
        let ghost d = a + f1 + f2 + f3 + f4 + f5;
        let ghost q = quantization_bits(start.quantization_indices);
        let ghost t = token_probs_bits(flat_table(start.token_probs), 1056);
        proof {
            lemma_write_all_concat(c, d, q);
            lemma_write_all_concat(c, d + q, literal_bits(1, 0));
            lemma_write_all_concat(c, d + q + literal_bits(1, 0), t);
        }
        let ghost e = d + q + literal_bits(1, 0) + t;
        assert(self.encoder@ == c.write_all(e));
        match self.macroblock_no_skip_coeff {
            Some(prob_skip_false) => {
                self.encoder.write_literal(1, 1);
                self.encoder.write_literal(8, prob_skip_false);
                proof {
                    lemma_write_all_concat(
                        c.write_all(e),
                        literal_bits(1, 1),
                        literal_bits(8, prob_skip_false),
                    );
                }
            },
            None => {
                self.encoder.write_literal(1, 0);
            },
        }
        proof {
            lemma_write_all_concat(c, e, no_skip_bits(start.macroblock_no_skip_coeff));
            assert(frame_header_bits(h) == e + no_skip_bits(start.macroblock_no_skip_coeff));
        }
    }

    /// Writes the header of a macroblock, and leaves its sub-block modes as
    /// context for the macroblocks that follow.
    pub fn write_macroblock_header(&mut self, macroblock_info: &MacroblockInfo, mbx: usize)
        requires
            old(self).encoder.wf(),
            old(self).top_b_pred@.len() >= 4 * mbx + 4,
            macroblock_info.wf(),
            old(self).segments_enabled ==> macroblock_info.segment_id is Some,
        ensures
            *final(self) == (Vp8Encoder {
                encoder: final(self).encoder,
                top_b_pred: final(self).top_b_pred,
                left_b_pred: final(self).left_b_pred,
                ..*old(self)
            }),
            final(self).encoder.wf(),
            final(self).encoder@ == old(self).encoder@.write_all(
                macroblock_header_bits(
                    old(self).header_params(),
                    old(self).modes(),
                    macroblock_info@,
                    mbx as int,
                ),
            ),
            final(self).modes() == advanced(old(self).modes(), macroblock_info@, mbx as int),
    {
        let ghost start = *self;
        let ghost d = macroblock_info@;
        let ghost c = self.encoder@;
        let ghost none = Seq::<(bool, u8)>::empty();
        assert(c.write_all(none) == c);
        let ghost b0 = if self.segments_enabled {
            tree_bits(
                SEGMENT_ID_TREE@,
                self.segment_tree_probs@,
                d.segment_id.unwrap() as i8,
                0,
            )
        } else {
            none
        };
        if self.segments_enabled {
            if let Some(segment_id) = macroblock_info.segment_id {
                proof {
                    lemma_segment_tree(segment_id as i8);
                }
                let probs: [u8; 3] = self.segment_tree_probs;
                self.encoder.write_with_tree(&SEGMENT_ID_TREE, &probs, segment_id as i8);
            }
        }
        assert(self.encoder@ == c.write_all(b0));
        let ghost b1 = match self.macroblock_no_skip_coeff {
            Some(prob) => seq![(d.coeffs_skipped, prob)],
            None => none,
        };
        if let Some(prob) = self.macroblock_no_skip_coeff {
            proof {
                lemma_write_one(self.encoder@, macroblock_info.coeffs_skipped, prob);
            }
            self.encoder.write_bool(macroblock_info.coeffs_skipped, prob);
        }
        proof {
            lemma_write_all_concat(c, b0, b1);
            assert(c.write_all(b0).write_all(none) == c.write_all(b0));
        }
        assert(self.encoder@ == c.write_all(b0 + b1));
        proof {
            lemma_ymode_tree(macroblock_info.luma_mode);
            lemma_uv_mode_tree(macroblock_info.chroma_mode);
        }
        let ghost b2 = tree_bits(KEYFRAME_YMODE_TREE@, KEYFRAME_YMODE_PROBS@, d.luma_mode.code(), 0);
        self.encoder.write_with_tree(
            &KEYFRAME_YMODE_TREE,
            &KEYFRAME_YMODE_PROBS,
            macroblock_info.luma_mode.to_i8(),
        );
        proof {
            lemma_write_all_concat(c, b0 + b1, b2);
        }
        let ghost b3 = if d.luma_mode == LumaMode::B {
            subblock_mode_bits(start.modes(), d.luma_bpred.unwrap(), mbx as int, 16)
        } else {
            none
        };
        match macroblock_info.luma_mode.into_intra() {
            None => {
                if let Some(bpred) = macroblock_info.luma_bpred {
                    self.write_subblock_modes(&bpred, mbx);
                }
            },
            Some(intra_mode) => {
                self.fill_bpred_context(intra_mode, mbx);
            },
        }
        proof {
            lemma_write_all_concat(c, b0 + b1 + b2, b3);
            assert(c.write_all(b0 + b1 + b2).write_all(none) == c.write_all(b0 + b1 + b2));
        }
        assert(self.encoder@ == c.write_all(b0 + b1 + b2 + b3));
        self.encoder.write_with_tree(
            &KEYFRAME_UV_MODE_TREE,
            &KEYFRAME_UV_MODE_PROBS,
            macroblock_info.chroma_mode.to_i8(),
        );
        proof {
            lemma_write_all_concat(
                c,
                b0 + b1 + b2 + b3,
                tree_bits(
                    KEYFRAME_UV_MODE_TREE@,
                    KEYFRAME_UV_MODE_PROBS@,
                    d.chroma_mode.code(),
                    0,
                ),
            );
        }
    }

    /// Writes the modes of the sub-blocks. Each is coded next to the modes
    /// above it and to its left, and takes their place as context.
    fn write_subblock_modes(&mut self, bpred: &[IntraMode; 16], mbx: usize)
        requires
            old(self).encoder.wf(),
            old(self).top_b_pred@.len() >= 4 * mbx + 4,
        ensures
            *final(self) == (Vp8Encoder {
                encoder: final(self).encoder,
                top_b_pred: final(self).top_b_pred,
                left_b_pred: final(self).left_b_pred,
                ..*old(self)
            }),
            final(self).encoder.wf(),
            final(self).encoder@ == old(self).encoder@.write_all(
                subblock_mode_bits(old(self).modes(), bpred@, mbx as int, 16),
            ),
            final(self).top_b_pred@ == Seq::new(
                old(self).top_b_pred@.len(),
                |i: int|
                    if i / 4 == mbx {
                        bpred@[12 + i % 4]
                    } else {
                        old(self).top_b_pred@[i]
                    },
            ),
            final(self).left_b_pred@ == Seq::new(4, |y: int| bpred@[y * 4 + 3]),
    {
        let ghost start = *self;
        let ghost modes = self.modes();
        let ghost c = self.encoder@;
        let ghost len = self.top_b_pred@.len();
        let size: usize = self.top_b_pred.len();
        let mut k: usize = 0;
        assert(c.write_all(Seq::<(bool, u8)>::empty()) == c);
        while k < 16
            invariant
                k <= 16,
                *self == (Vp8Encoder {
                    encoder: self.encoder,
                    top_b_pred: self.top_b_pred,
                    left_b_pred: self.left_b_pred,
                    ..start
                }),
                modes == start.modes(),
                self.encoder.wf(),
                size == len,
                len == start.top_b_pred@.len() == self.top_b_pred@.len(),
                len >= 4 * mbx + 4,
                self.encoder@ == c.write_all(
                    subblock_mode_bits(modes, bpred@, mbx as int, k as int),
                ),
                forall|i: int|
                    0 <= i < len ==> #[trigger] self.top_b_pred@[i] == if i / 4 == mbx && (i % 4
                        < k % 4 || k >= 4) {
                        bpred@[if i % 4 < k % 4 {
                            (k / 4) * 4 + i % 4
                        } else {
                            (k / 4) * 4 - 4 + i % 4
                        }]
                    } else {
                        start.top_b_pred@[i]
                    },
                forall|y: int|
                    0 <= y < 4 ==> #[trigger] self.left_b_pred@[y] == if y < k / 4 {
                        bpred@[y * 4 + 3]
                    } else if y == k / 4 && k % 4 > 0 {
                        bpred@[k - 1]
                    } else {
                        start.left_b_pred@[y]
                    },
            decreases 16 - k,
        {
            let y: usize = k / 4;
            let x: usize = k % 4;
            assert((mbx * 4 + x) / 4 == mbx && (mbx * 4 + x) % 4 == x);
            let top: IntraMode = self.top_b_pred[mbx * 4 + x];
            let left: IntraMode = self.left_b_pred[y];
            assert(top == mode_above(modes, bpred@, mbx as int, k as int));
            assert(left == mode_left(modes, bpred@, k as int));
            let mode: IntraMode = bpred[k];
            let probs = bpred_probs_for(top, left);
            proof {
                lemma_bpred_tree(mode);
                lemma_write_all_concat(
                    c,
                    subblock_mode_bits(modes, bpred@, mbx as int, k as int),
                    tree_bits(
                        KEYFRAME_BPRED_MODE_TREE@,
                        bpred_probs(top, left),
                        mode.code(),
                        0,
                    ),
                );
            }
            self.encoder.write_with_tree(&KEYFRAME_BPRED_MODE_TREE, &probs, mode.to_i8());
            self.left_b_pred[y] = mode;
            self.top_b_pred[mbx * 4 + x] = mode;
            k = k + 1;
        }
    }

    /// Makes one mode the context on all sides of a macroblock.
    fn fill_bpred_context(&mut self, mode: IntraMode, mbx: usize)
        requires
            old(self).top_b_pred@.len() >= 4 * mbx + 4,
        ensures
            *final(self) == (Vp8Encoder {
                top_b_pred: final(self).top_b_pred,
                left_b_pred: final(self).left_b_pred,
                ..*old(self)
            }),
            final(self).top_b_pred@ == Seq::new(
                old(self).top_b_pred@.len(),
                |i: int|
                    if i / 4 == mbx {
                        mode
                    } else {
                        old(self).top_b_pred@[i]
                    },
            ),
            final(self).left_b_pred@ == Seq::new(4, |y: int| mode),
    {
        let ghost start = *self;
        let size: usize = self.top_b_pred.len();
        let mut i: usize = 0;
        while i < 4
            invariant
                i <= 4,
                size == start.top_b_pred@.len() == self.top_b_pred@.len(),
                size >= 4 * mbx + 4,
                *self == (Vp8Encoder {
                    top_b_pred: self.top_b_pred,
                    left_b_pred: self.left_b_pred,
                    ..start
                }),
                forall|j: int|
                    0 <= j < size ==> #[trigger] self.top_b_pred@[j] == if 4 * mbx <= j < 4 * mbx
                        + i {
                        mode
                    } else {
                        start.top_b_pred@[j]
                    },
                forall|y: int| 0 <= y < i ==> #[trigger] self.left_b_pred@[y] == mode,
            decreases 4 - i,
        {
            self.left_b_pred[i] = mode;
            self.top_b_pred[4 * mbx + i] = mode;
            i = i + 1;
        }
        assert(self.left_b_pred@ =~= Seq::new(4, |y: int| mode));
    }

    /// Leaves the sub-block modes of a macroblock as context for the
    /// macroblocks that follow, as writing its header does.
    pub fn advance_bpred_context(&mut self, macroblock_info: &MacroblockInfo, mbx: usize)
        requires
            old(self).top_b_pred@.len() >= 4 * mbx + 4,
            macroblock_info.wf(),
        ensures
            *final(self) == (Vp8Encoder {
                top_b_pred: final(self).top_b_pred,
                left_b_pred: final(self).left_b_pred,
                ..*old(self)
            }),
            final(self).modes() == advanced(old(self).modes(), macroblock_info@, mbx as int),
    {
        match macroblock_info.luma_mode.into_intra() {
            None => {
                if let Some(bpred) = macroblock_info.luma_bpred {
                    let ghost start = *self;
                    let size: usize = self.top_b_pred.len();
                    let mut i: usize = 0;
                    while i < 4
                        invariant
                            i <= 4,
                            size == start.top_b_pred@.len() == self.top_b_pred@.len(),
                            size >= 4 * mbx + 4,
                            *self == (Vp8Encoder {
                                top_b_pred: self.top_b_pred,
                                left_b_pred: self.left_b_pred,
                                ..start
                            }),
                            forall|j: int|
                                0 <= j < size ==> #[trigger] self.top_b_pred@[j] == if 4 * mbx <= j
                                    < 4 * mbx + i {
                                    bpred@[12 + j - 4 * mbx]
                                } else {
                                    start.top_b_pred@[j]
                                },
                            forall|y: int|
                                0 <= y < i ==> #[trigger] self.left_b_pred@[y] == bpred@[y * 4 + 3],
                        decreases 4 - i,
                    {
                        self.left_b_pred[i] = bpred[i * 4 + 3];
                        self.top_b_pred[4 * mbx + i] = bpred[12 + i];
                        i = i + 1;
                    }
                    assert(self.modes() =~= advanced(
                        start.modes(),
                        macroblock_info@,
                        mbx as int,
                    ));
                }
            },
            Some(intra_mode) => {
                self.fill_bpred_context(intra_mode, mbx);
            },
        }
    }
}

} // verus!
