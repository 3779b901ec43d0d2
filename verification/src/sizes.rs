//! Sizes of frames.
use vstd::arithmetic::power2::{lemma2_to64, lemma_pow2_unfold, pow2};
use vstd::prelude::*;

use crate::arithmetic_encoder::{
    be_bytes, lemma_fresh_wf, lemma_path_nodes, lemma_split, lemma_write_all_wf, Coder,
};
use crate::common::{
    IntraMode, LumaMode, Segment, KEYFRAME_BPRED_MODE_TREE, KEYFRAME_UV_MODE_TREE,
    KEYFRAME_YMODE_TREE, SEGMENT_ID_TREE,
};
use crate::decoder::lemma_scene_wf;
use crate::frame::Image;
use crate::frame_decoding::law_decisions_are_those_of_every_pass;
use crate::header::{
    filter_delta_bits, frame_header_bits, macroblock_header_bits, quantization_bits,
    quantizer_delta_bits, segment_prob_bits, segment_update_bits, subblock_mode_bits,
    token_probs_bits, FrameHeader, HeaderParams,
};
use crate::mode_reading::plain;
use crate::model::{Decision, Modes};
use crate::passes::{frame_mode_bits, lemma_partitions_len, replay, row_modes};
use crate::segments::lemma_macroblock_position;
use crate::skipping::lemma_decision_plain;
use crate::trees::{lemma_bpred_tree, lemma_segment_tree, lemma_uv_mode_tree, lemma_ymode_tree};

verus! {

/// Number of macroblocks up to which the header of every frame fits.
pub const SAFE_MACROBLOCKS: usize = 1900;

/// Doubling a width until it is at least 128.
proof fn lemma_renormalized_shifts(c: Coder, k: nat)
    requires
        1 <= c.range,
        c.range * pow2(k) >= 128,
    ensures
        c.renormalized().shifts <= c.shifts + k,
    decreases 256 - c.range,
{
    lemma2_to64();
    if c.range < 128 {
        if k == 0 {
            assert(c.range * 1 == c.range);
        } else {
            lemma_pow2_unfold(k);
            let p = pow2((k - 1) as nat);
            assert((c.range * 2) * p == c.range * (2 * p)) by (nonlinear_arith);
            lemma_renormalized_shifts(
                Coder { low: c.low * 2, range: c.range * 2, shifts: c.shifts + 1 },
                (k - 1) as nat,
            );
        }
    }
}

/// Every bit doubles the scale at most seven times.
proof fn lemma_write_all_shifts(c: Coder, bits: Seq<(bool, u8)>)
    requires
        c.wf(),
    ensures
        c.write_all(bits).shifts <= c.shifts + 7 * bits.len(),
    decreases bits.len(),
{
    if bits.len() > 0 {
        let before = c.write_all(bits.drop_last());
        lemma_write_all_shifts(c, bits.drop_last());
        lemma_write_all_wf(c, bits.drop_last());
        let (bit, prob) = bits.last();
        lemma_split(before.range, prob);
        lemma2_to64();
        lemma_renormalized_shifts(before.narrow(bit, prob), 7);
    }
}

proof fn lemma_be_bytes_len(value: nat, count: nat)
    ensures
        be_bytes(value, count).len() == count,
    decreases count,
{
    if count > 0 {
        lemma_be_bytes_len(value / 256, (count - 1) as nat);
    }
}

/// A bit takes less than a byte.
pub proof fn lemma_flushed_len(bits: Seq<(bool, u8)>)
    ensures
        8 * Coder::fresh().write_all(bits).flushed().len() <= 7 * bits.len() + 32,
{
    let c = Coder::fresh();
    lemma_fresh_wf();
    lemma_write_all_shifts(c, bits);
    let end = c.write_all(bits);
    lemma_be_bytes_len(
        end.low * pow2((8 * end.whole_bytes() + 24 - end.shifts) as nat),
        end.whole_bytes() + 4,
    );
}

proof fn lemma_quantizer_bits_len(segments: Seq<Segment>, k: int)
    requires
        0 <= k,
    ensures
        quantizer_delta_bits(segments, k).len() == 9 * k,
    decreases k,
{
    if k > 0 {
        lemma_quantizer_bits_len(segments, k - 1);
    }
}

proof fn lemma_filter_bits_len(k: int)
    requires
        0 <= k,
    ensures
        filter_delta_bits(k).len() == k,
    decreases k,
{
    if k > 0 {
        lemma_filter_bits_len(k - 1);
    }
}

proof fn lemma_segment_prob_bits_len(probs: Seq<u8>, k: int)
    requires
        0 <= k,
    ensures
        segment_prob_bits(probs, k).len() == 9 * k,
    decreases k,
{
    if k > 0 {
        lemma_segment_prob_bits_len(probs, k - 1);
    }
}

proof fn lemma_token_prob_bits_len(probs: Seq<u8>, k: int)
    requires
        0 <= k,
    ensures
        token_probs_bits(probs, k).len() <= 9 * k,
    decreases k,
{
    if k > 0 {
        lemma_token_prob_bits_len(probs, k - 1);
    }
}

/// Number of bits of the compressed frame header.
proof fn lemma_frame_header_len(h: FrameHeader)
    ensures
        frame_header_bits(h).len() <= 9700,
{
    lemma_quantizer_bits_len(h.segments, 4);
    lemma_filter_bits_len(4);
    lemma_segment_prob_bits_len(h.segment_tree_probs, 3);
    lemma_token_prob_bits_len(h.token_probs, 1056);
    assert(segment_update_bits(h.segments, h.segment_tree_probs).len() == 70);
    assert(quantization_bits(h.indices).len() <= 37);
}

proof fn lemma_subblock_bits_len(
    modes: Modes,
    bpred: Seq<IntraMode>,
    mbx: int,
    k: int,
)
    requires
        0 <= k,
    ensures
        subblock_mode_bits(modes, bpred, mbx, k).len() <= 18 * k,
    decreases k,
{
    if k > 0 {
        lemma_subblock_bits_len(modes, bpred, mbx, k - 1);
        lemma_bpred_tree(bpred[k - 1]);
        lemma_path_nodes(KEYFRAME_BPRED_MODE_TREE@, bpred[k - 1].code(), 0);
    }
}

/// Number of bits of a macroblock header.
proof fn lemma_macroblock_header_len(params: HeaderParams, modes: Modes, d: Decision, mbx: int)
    requires
        plain(d),
    ensures
        macroblock_header_bits(params, modes, d, mbx).len() <= 309,
{
    let id = d.segment_id.unwrap() as i8;
    lemma_segment_tree(id);
    lemma_path_nodes(SEGMENT_ID_TREE@, id, 0);
    lemma_ymode_tree(d.luma_mode);
    lemma_path_nodes(KEYFRAME_YMODE_TREE@, d.luma_mode.code(), 0);
    if d.luma_mode == LumaMode::B {
        lemma_subblock_bits_len(modes, d.luma_bpred.unwrap(), mbx, 16);
    }
    lemma_uv_mode_tree(d.chroma_mode);
    lemma_path_nodes(KEYFRAME_UV_MODE_TREE@, d.chroma_mode.code(), 0);
}

proof fn lemma_mode_bits_len(image: Image, i: int)
    requires
        image.wf(),
        0 <= i <= image.count(),
    ensures
        frame_mode_bits(
            image.header_params(),
            image.scene(),
            image.start(),
            image.decisions(),
            i,
        ).len() <= 309 * i,
    decreases i,
{
    if i > 0 {
        lemma_mode_bits_len(image, i - 1);
        let scene = image.scene();
        lemma_scene_wf(image);
        lemma_macroblock_position(i - 1, scene.mbw, scene.mbh);
        assert(scene.ids[i - 1] < 4);
        law_decisions_are_those_of_every_pass(scene, image.start(), image.count(), i - 1);
        let w = replay(scene, image.start(), image.decisions(), i - 1);
        let mbx = (i - 1) % scene.mbw;
        lemma_decision_plain(
            scene,
            w.canvas,
            row_modes(w.modes, mbx),
            mbx,
            (i - 1) / scene.mbw,
        );
        lemma_macroblock_header_len(
            image.header_params(),
            row_modes(w.modes, mbx),
            image.decisions()[i - 1],
            mbx,
        );
    }
}

/// The header of a frame fits its size field if the frame has no more than
/// 1900 macroblocks.
pub proof fn law_small_frames_are_encodable(image: Image)
    requires
        image.wf(),
        image.count() <= SAFE_MACROBLOCKS,
    ensures
        image.encodable(),
{
    lemma_scene_wf(image);
    let n = image.count();
    assert(0 <= n) by (nonlinear_arith)
        requires
            0 <= image.scene().mbw,
            0 <= image.scene().mbh,
            n == image.scene().mbw * image.scene().mbh,
    ;
    lemma_frame_header_len(image.frame_header(1));
    lemma_mode_bits_len(image, n);
    let bits = image.header_bits(1);
    assert(bits.len() <= 9700 + 309 * n);
    lemma_flushed_len(bits);
    let fresh = seq![Coder::fresh()];
    assert(fresh.len() == 1);
    lemma_partitions_len(
        image.scene(),
        image.start(),
        image.first(),
        image.decisions(),
        image.token_probs(),
        fresh,
        n,
    );
}

} // verus!
