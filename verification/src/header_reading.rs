//! Reading of the compressed frame header.
use vstd::arithmetic::logarithm::{lemma_log0, lemma_log_s};
use vstd::arithmetic::power2::lemma2_to64;
use vstd::prelude::*;

use crate::arithmetic_encoder::{flag_bits, literal_bits, optional_signed_bits};
use crate::common::Segment;
use crate::header::{
    filter_delta_bits, frame_header_bits, no_skip_bits, partition_code, quantization_bits,
    quantizer_delta_bits, segment_prob_bits, segment_update_bits, token_prob_bits,
    token_probs_bits, FrameHeader,
};
use crate::reading::{
    after, follows, lemma_follows_concat, lemma_follows_nothing, lemma_follows_one, lemma_read_flag,
    lemma_read_literal, lemma_read_optional, read_flag, read_literal, read_optional,
};
use crate::roundtrip::Reader;
use crate::segments::{segment_of, QuantizationIndices};
use crate::tables::coeff_probs::default_probs;
use crate::tables::quantizers::{ac_step, dc_step};
use crate::tables::update_probs::update_flag_probs;

verus! {

/// The first `k` of a list of optional values; one that is absent is zero.
pub open spec fn read_values(r: Reader, n: nat, k: int) -> (Seq<int>, Reader)
    decreases k,
{
    if k <= 0 {
        (Seq::empty(), r)
    } else {
        let (values, r1) = read_values(r, n, k - 1);
        let (value, r2) = read_optional(r1, n);
        (
            values.push(
                match value {
                    Some(v) => v,
                    None => 0,
                },
            ),
            r2,
        )
    }
}

/// The first `k` of a list of optional probabilities.
pub open spec fn read_probs(r: Reader, k: int) -> (Seq<u8>, Reader)
    decreases k,
{
    if k <= 0 {
        (Seq::empty(), r)
    } else {
        let (probs, r1) = read_probs(r, k - 1);
        let (present, r2) = read_flag(r1);
        if present {
            let (prob, r3) = read_literal(r2, 8);
            (probs.push(prob as u8), r3)
        } else {
            (probs.push(255), r2)
        }
    }
}

/// The first `k` token probabilities.
pub open spec fn read_token_probs(r: Reader, k: int) -> (Seq<u8>, Reader)
    decreases k,
{
    if k <= 0 {
        (Seq::empty(), r)
    } else {
        let (probs, r1) = read_token_probs(r, k - 1);
        let flag_prob = update_flag_probs()[k - 1];
        if r1.bit(flag_prob) {
            let (prob, r2) = read_literal(r1.rest(flag_prob), 8);
            (probs.push(prob as u8), r2)
        } else {
            (probs.push(default_probs()[k - 1]), r1.rest(flag_prob))
        }
    }
}

/// Segmentation of a frame: what each segment adds to the quantiser index and
/// to the filter level, whether these are additions, and the probabilities of
/// the segment tree.
pub struct Segmentation {
    pub deltas: bool,
    pub quantizers: Seq<int>,
    pub filters: Seq<int>,
    pub tree_probs: Seq<u8>,
}

/// Segmentation of a frame.
pub open spec fn read_segmentation(r: Reader) -> (Segmentation, Reader) {
    let (map, r1) = read_flag(r);
    let (data, r2) = read_flag(r1);
    let (absolute, r3) = if data {
        read_flag(r2)
    } else {
        (false, r2)
    };
    let (quantizers, r4) = if data {
        read_values(r3, 7, 4)
    } else {
        (seq![0, 0, 0, 0], r3)
    };
    let (filters, r5) = if data {
        read_values(r4, 6, 4)
    } else {
        (seq![0, 0, 0, 0], r4)
    };
    let (tree_probs, r6) = if map {
        read_probs(r5, 3)
    } else {
        (seq![255u8, 255u8, 255u8], r5)
    };
    (Segmentation { deltas: !absolute, quantizers, filters, tree_probs }, r6)
}

/// An optional value of eight bits.
pub open spec fn narrow(value: Option<int>) -> Option<i8> {
    match value {
        Some(v) => Some(v as i8),
        None => None,
    }
}

/// Quantiser indices of a frame.
pub open spec fn read_indices(r: Reader) -> (QuantizationIndices, Reader) {
    let (yac_abs, r1) = read_literal(r, 7);
    let (ydc, r2) = read_optional(r1, 4);
    let (y2dc, r3) = read_optional(r2, 4);
    let (y2ac, r4) = read_optional(r3, 4);
    let (uvdc, r5) = read_optional(r4, 4);
    let (uvac, r6) = read_optional(r5, 4);
    (
        QuantizationIndices {
            yac_abs: yac_abs as u8,
            ydc_delta: narrow(ydc),
            y2dc_delta: narrow(y2dc),
            y2ac_delta: narrow(y2ac),
            uvdc_delta: narrow(uvdc),
            uvac_delta: narrow(uvac),
        },
        r6,
    )
}

/// Entry of a quantiser table; there are none beyond its ends.
pub open spec fn nearest_entry(index: int) -> int {
    if index > 127 {
        127
    } else if index >= 0 {
        index
    } else {
        0
    }
}

/// Addition to a quantiser index, zero if there is none.
pub open spec fn added_index(delta: Option<i8>) -> int {
    match delta {
        Some(v) => v as int,
        None => 0,
    }
}

/// Segment `i` of a frame. The steps for DC coefficients of the luma blocks
/// are twice those of the table, and one and a half times, but at least 8; the
/// chroma DC step is at most 132.
#[verifier::opaque]
pub open spec fn derived_segment(s: Segmentation, indices: QuantizationIndices, i: int) -> Segment {
    let index = s.quantizers[i] as i8 + if s.deltas {
        indices.yac_abs as int
    } else {
        0
    };
    let dc = |delta: Option<i8>| dc_step(nearest_entry(index + added_index(delta))) as int;
    let ac = |delta: Option<i8>| ac_step(nearest_entry(index + added_index(delta))) as int;
    let y2ac = 155 * ac(indices.y2ac_delta) / 100;
    let uvdc = dc(indices.uvdc_delta);
    Segment {
        ydc: dc(indices.ydc_delta) as i16,
        yac: ac(None) as i16,
        y2dc: (2 * dc(indices.y2dc_delta)) as i16,
        y2ac: (if y2ac > 8 {
            y2ac
        } else {
            8
        }) as i16,
        uvdc: (if uvdc < 132 {
            uvdc
        } else {
            132
        }) as i16,
        uvac: ac(indices.uvac_delta) as i16,
        delta_values: s.deltas,
        quantizer_level: s.quantizers[i] as i8,
        loopfilter_level: s.filters[i] as i8,
    }
}

/// The compressed header of a key frame without filter adjustments.
pub open spec fn read_header(r: Reader) -> (FrameHeader, Reader) {
    let (color_space, r1) = read_literal(r, 1);
    let (clamping, r2) = read_literal(r1, 1);
    let (segments_enabled, r3) = read_flag(r2);
    let (s, r4) = if segments_enabled {
        read_segmentation(r3)
    } else {
        (
            Segmentation {
                deltas: true,
                quantizers: seq![0, 0, 0, 0],
                filters: seq![0, 0, 0, 0],
                tree_probs: seq![255u8, 255u8, 255u8],
            },
            r3,
        )
    };
    let (filter_type, r5) = read_flag(r4);
    let (filter_level, r6) = read_literal(r5, 6);
    let (sharpness_level, r7) = read_literal(r6, 3);
    let (adjustments, r8) = read_flag(r7);
    let (code, r9) = read_literal(r8, 2);
    let (indices, r10) = read_indices(r9);
    let (refresh, r11) = read_literal(r10, 1);
    let plain = color_space == 0 && clamping == 0 && !adjustments && refresh == 0;
    let (token_probs, r12) = read_token_probs(r11, 1056);
    let (skipping, r13) = read_literal(r12, 1);
    let (no_skip, r14) = read_literal(r13, 8);
    (
        FrameHeader {
            segments_enabled,
            segments: Seq::new(4, |i: int| derived_segment(s, indices, i)),
            segment_tree_probs: s.tree_probs,
            filter_type,
            filter_level: filter_level as u8,
            sharpness_level: sharpness_level as u8,
            partitions: if !plain {
                0
            } else if code == 0 {
                1
            } else if code == 1 {
                2
            } else if code == 2 {
                4
            } else {
                8
            },
            indices,
            token_probs,
            no_skip: if skipping == 1 {
                Some(no_skip as u8)
            } else {
                None
            },
        },
        if skipping == 1 {
            r14
        } else {
            r13
        },
    )
}

proof fn lemma_read_quantizers(r: Reader, segments: Seq<Segment>, k: int)
    requires
        0 <= k <= segments.len(),
        forall|i: int| 0 <= i < k ==> -128 < (#[trigger] segments[i]).quantizer_level,
        follows(r, quantizer_delta_bits(segments, k)),
    ensures
        read_values(r, 7, k) == (
            Seq::new(k as nat, |i: int| segments[i].quantizer_level as int),
            after(r, quantizer_delta_bits(segments, k)),
        ),
    decreases k,
{
    lemma2_to64();
    let all = Seq::new(k as nat, |i: int| segments[i].quantizer_level as int);
    if k > 0 {
        let done = quantizer_delta_bits(segments, k - 1);
        let value = Some(segments[k - 1].quantizer_level);
        lemma_follows_concat(r, done, optional_signed_bits(7, value));
        lemma_read_quantizers(r, segments, k - 1);
        assert(-128 < segments[k - 1].quantizer_level);
        lemma_read_optional(after(r, done), 7, value);
        assert(read_values(r, 7, k).0 =~= all);
    } else {
        lemma_follows_nothing(r);
        assert(read_values(r, 7, k).0 =~= all);
    }
}

proof fn lemma_read_filters(r: Reader, k: int)
    requires
        0 <= k,
        follows(r, filter_delta_bits(k)),
    ensures
        read_values(r, 6, k) == (
            Seq::new(k as nat, |i: int| 0int),
            after(r, filter_delta_bits(k)),
        ),
    decreases k,
{
    let all = Seq::new(k as nat, |i: int| 0int);
    if k > 0 {
        let done = filter_delta_bits(k - 1);
        lemma_follows_concat(r, done, optional_signed_bits(6, None));
        lemma_read_filters(r, k - 1);
        lemma_read_optional(after(r, done), 6, None);
        assert(read_values(r, 6, k).0 =~= all);
    } else {
        lemma_follows_nothing(r);
        assert(read_values(r, 6, k).0 =~= all);
    }
}

proof fn lemma_read_probs(r: Reader, probs: Seq<u8>, k: int)
    requires
        0 <= k <= probs.len(),
        follows(r, segment_prob_bits(probs, k)),
    ensures
        read_probs(r, k) == (probs.take(k), after(r, segment_prob_bits(probs, k))),
    decreases k,
{
    lemma2_to64();
    if k > 0 {
        let done = segment_prob_bits(probs, k - 1);
        lemma_follows_concat(r, done + flag_bits(true), literal_bits(8, probs[k - 1]));
        lemma_follows_concat(r, done, flag_bits(true));
        lemma_read_probs(r, probs, k - 1);
        lemma_read_flag(after(r, done), true);
        lemma_read_literal(after(r, done + flag_bits(true)), 8, probs[k - 1]);
        assert(read_probs(r, k).0 =~= probs.take(k));
    } else {
        lemma_follows_nothing(r);
        assert(read_probs(r, k).0 =~= probs.take(k));
    }
}

/// Reading the updates of the token probabilities gives the probabilities.
proof fn lemma_read_token_probs(r: Reader, probs: Seq<u8>, k: int)
    requires
        0 <= k <= probs.len(),
        follows(r, token_probs_bits(probs, k)),
    ensures
        read_token_probs(r, k) == (probs.take(k), after(r, token_probs_bits(probs, k))),
    decreases k,
{
    lemma2_to64();
    if k > 0 {
        let done = token_probs_bits(probs, k - 1);
        let flag_prob = update_flag_probs()[k - 1];
        let default_prob = default_probs()[k - 1];
        let prob = probs[k - 1];
        lemma_follows_concat(r, done, token_prob_bits(prob, default_prob, flag_prob));
        lemma_read_token_probs(r, probs, k - 1);
        let at = after(r, done);
        if prob != default_prob {
            lemma_follows_concat(at, seq![(true, flag_prob)], literal_bits(8, prob));
            lemma_follows_one(at, true, flag_prob);
            lemma_read_literal(at.rest(flag_prob), 8, prob);
        } else {
            lemma_follows_one(at, false, flag_prob);
        }
        assert(read_token_probs(r, k).0 =~= probs.take(k));
    } else {
        lemma_follows_nothing(r);
        assert(read_token_probs(r, k).0 =~= probs.take(k));
    }
}

proof fn lemma_read_segmentation(r: Reader, segments: Seq<Segment>, probs: Seq<u8>)
    requires
        segments.len() == 4,
        probs.len() == 3,
        forall|i: int| 0 <= i < 4 ==> -128 < (#[trigger] segments[i]).quantizer_level,
        follows(r, segment_update_bits(segments, probs)),
    ensures
        read_segmentation(r) == (
            (Segmentation {
                deltas: true,
                quantizers: Seq::new(4, |i: int| segments[i].quantizer_level as int),
                filters: Seq::new(4, |i: int| 0int),
                tree_probs: probs,
            }),
            after(r, segment_update_bits(segments, probs)),
        ),
{
    let f1 = flag_bits(true);
    let f2 = f1 + flag_bits(true);
    let f3 = f2 + flag_bits(false);
    let q = quantizer_delta_bits(segments, 4);
    let f = filter_delta_bits(4);
    lemma_follows_concat(r, f3 + q + f, segment_prob_bits(probs, 3));
    lemma_follows_concat(r, f3 + q, f);
    lemma_follows_concat(r, f3, q);
    lemma_follows_concat(r, f2, flag_bits(false));
    lemma_follows_concat(r, f1, flag_bits(true));
    lemma_read_flag(r, true);
    lemma_read_flag(after(r, f1), true);
    lemma_read_flag(after(r, f2), false);
    lemma_read_quantizers(after(r, f3), segments, 4);
    lemma_read_filters(after(r, f3 + q), 4);
    lemma_read_probs(after(r, f3 + q + f), probs, 3);
    assert(probs.take(3) =~= probs);
}

/// A quantiser addition that fits its field.
pub open spec fn fits_delta(delta: Option<i8>) -> bool {
    delta matches Some(v) ==> -16 < v < 16
}

/// The fields fit, and the segments are what a decoder derives.
pub open spec fn readable(h: FrameHeader) -> bool {
    &&& h.segments_enabled
    &&& h.segments.len() == 4
    &&& forall|i: int|
        0 <= i < 4 ==> {
            &&& -128 < (#[trigger] h.segments[i]).quantizer_level
            &&& h.segments[i] == segment_of(
                h.indices.yac_abs,
                h.segments[i].quantizer_level,
                h.indices,
            )
        }
    &&& h.segment_tree_probs.len() == 3
    &&& h.filter_level < 64
    &&& h.sharpness_level < 8
    &&& h.partitions == 1 || h.partitions == 2 || h.partitions == 4 || h.partitions == 8
    &&& h.indices.yac_abs < 128
    &&& fits_delta(h.indices.ydc_delta)
    &&& fits_delta(h.indices.y2dc_delta)
    &&& fits_delta(h.indices.y2ac_delta)
    &&& fits_delta(h.indices.uvdc_delta)
    &&& fits_delta(h.indices.uvac_delta)
    &&& h.token_probs.len() == 1056
}

proof fn lemma_read_indices(r: Reader, q: QuantizationIndices)
    requires
        q.yac_abs < 128,
        fits_delta(q.ydc_delta),
        fits_delta(q.y2dc_delta),
        fits_delta(q.y2ac_delta),
        fits_delta(q.uvdc_delta),
        fits_delta(q.uvac_delta),
        follows(r, quantization_bits(q)),
    ensures
        read_indices(r) == (q, after(r, quantization_bits(q))),
{
    lemma2_to64();
    let b0 = literal_bits(7, q.yac_abs);
    let b1 = b0 + optional_signed_bits(4, q.ydc_delta);
    let b2 = b1 + optional_signed_bits(4, q.y2dc_delta);
    let b3 = b2 + optional_signed_bits(4, q.y2ac_delta);
    let b4 = b3 + optional_signed_bits(4, q.uvdc_delta);
    lemma_follows_concat(r, b4, optional_signed_bits(4, q.uvac_delta));
    lemma_follows_concat(r, b3, optional_signed_bits(4, q.uvdc_delta));
    lemma_follows_concat(r, b2, optional_signed_bits(4, q.y2ac_delta));
    lemma_follows_concat(r, b1, optional_signed_bits(4, q.y2dc_delta));
    lemma_follows_concat(r, b0, optional_signed_bits(4, q.ydc_delta));
    lemma_read_literal(r, 7, q.yac_abs);
    lemma_read_optional(after(r, b0), 4, q.ydc_delta);
    lemma_read_optional(after(r, b1), 4, q.y2dc_delta);
    lemma_read_optional(after(r, b2), 4, q.y2ac_delta);
    lemma_read_optional(after(r, b3), 4, q.uvdc_delta);
    lemma_read_optional(after(r, b4), 4, q.uvac_delta);
}

/// The segments are those of the encoder.
proof fn lemma_derived_segment(s: Segmentation, indices: QuantizationIndices, i: int)
    ensures
        derived_segment(s, indices, i) == (Segment {
            delta_values: s.deltas,
            loopfilter_level: s.filters[i] as i8,
            ..segment_of(
                if s.deltas {
                    indices.yac_abs
                } else {
                    0
                },
                s.quantizers[i] as i8,
                indices,
            )
        }),
{
    reveal(derived_segment);
}

/// The codes of the numbers of partitions.
proof fn lemma_partition_code(n: int)
    ensures
        n == 1 ==> partition_code(n) == 0,
        n == 2 ==> partition_code(n) == 1,
        n == 4 ==> partition_code(n) == 2,
        n == 8 ==> partition_code(n) == 3,
{
    lemma_log0(2, 1);
    lemma_log_s(2, 2);
    lemma_log_s(2, 4);
    lemma_log_s(2, 8);
}

/// Reading the compressed frame header gives its fields.
pub proof fn lemma_read_header(r: Reader, h: FrameHeader)
    requires
        readable(h),
        follows(r, frame_header_bits(h)),
    ensures
        read_header(r) == (h, after(r, frame_header_bits(h))),
{
    lemma2_to64();
    lemma_partition_code(h.partitions);
    let b1 = literal_bits(1, 0);
    let b2 = b1 + literal_bits(1, 0);
    let b3 = b2 + flag_bits(h.segments_enabled);
    let s = segment_update_bits(h.segments, h.segment_tree_probs);
    let b4 = b3 + s;
    let b5 = b4 + flag_bits(h.filter_type);
    let b6 = b5 + literal_bits(6, h.filter_level);
    let b7 = b6 + literal_bits(3, h.sharpness_level);
    let b8 = b7 + flag_bits(false);
    let b9 = b8 + literal_bits(2, partition_code(h.partitions));
    let b10 = b9 + quantization_bits(h.indices);
    let b11 = b10 + literal_bits(1, 0);
    let b12 = b11 + token_probs_bits(h.token_probs, 1056);
    lemma_follows_concat(r, b12, no_skip_bits(h.no_skip));
    lemma_follows_concat(r, b11, token_probs_bits(h.token_probs, 1056));
    lemma_follows_concat(r, b10, literal_bits(1, 0));
    lemma_follows_concat(r, b9, quantization_bits(h.indices));
    lemma_follows_concat(r, b8, literal_bits(2, partition_code(h.partitions)));
    lemma_follows_concat(r, b7, flag_bits(false));
    lemma_follows_concat(r, b6, literal_bits(3, h.sharpness_level));
    lemma_follows_concat(r, b5, literal_bits(6, h.filter_level));
    lemma_follows_concat(r, b4, flag_bits(h.filter_type));
    lemma_follows_concat(r, b3, s);
    lemma_follows_concat(r, b2, flag_bits(h.segments_enabled));
    lemma_follows_concat(r, b1, literal_bits(1, 0));
    lemma_read_literal(r, 1, 0);
    lemma_read_literal(after(r, b1), 1, 0);
    lemma_read_flag(after(r, b2), h.segments_enabled);
    lemma_read_segmentation(after(r, b3), h.segments, h.segment_tree_probs);
    lemma_read_flag(after(r, b4), h.filter_type);
    lemma_read_literal(after(r, b5), 6, h.filter_level);
    lemma_read_literal(after(r, b6), 3, h.sharpness_level);
    lemma_read_flag(after(r, b7), false);
    lemma_read_literal(after(r, b8), 2, partition_code(h.partitions));
    lemma_read_indices(after(r, b9), h.indices);
    lemma_read_literal(after(r, b10), 1, 0);
    lemma_read_token_probs(after(r, b11), h.token_probs, 1056);
    assert(h.token_probs.take(1056) =~= h.token_probs);
    let r12 = after(r, b12);
    match h.no_skip {
        Some(no_skip) => {
            lemma_follows_concat(r12, literal_bits(1, 1), literal_bits(8, no_skip));
            lemma_read_literal(r12, 1, 1);
            lemma_read_literal(after(r12, literal_bits(1, 1)), 8, no_skip);
        },
        None => {
            lemma_read_literal(r12, 1, 0);
        },
    }
    let read = read_header(r).0;
    assert forall|i: int| 0 <= i < 4 implies read.segments[i] == h.segments[i] by {
        assert(-128 < h.segments[i].quantizer_level);
        lemma_derived_segment(read_segmentation(after(r, b3)).0, h.indices, i);
    }
    assert(read.segments =~= h.segments);
}

} // verus!
