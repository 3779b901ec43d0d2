//! Reading of the macroblock headers.
use vstd::prelude::*;

use crate::arithmetic_encoder::{first_index, has_path, is_first, tree_bits};
use crate::common::{
    ChromaMode, IntraMode, LumaMode, KEYFRAME_BPRED_MODE_TREE, KEYFRAME_UV_MODE_PROBS,
    KEYFRAME_UV_MODE_TREE,
    KEYFRAME_YMODE_PROBS, KEYFRAME_YMODE_TREE, SEGMENT_ID_TREE,
};
use crate::header::{macroblock_header_bits, subblock_mode_bits, HeaderParams};
use crate::model::{chroma_candidate, luma_candidate, mode_above, mode_left, Decision, Modes};
use crate::reading::{
    after, follows, lemma_follows_concat, lemma_follows_nothing, lemma_follows_one,
    lemma_read_tree, read_tree,
};
use crate::roundtrip::Reader;
use crate::tables::mode_probs::bpred_probs;
use crate::trees::{lemma_bpred_tree, lemma_segment_tree, lemma_uv_mode_tree, lemma_ymode_tree};

verus! {

/// The tree of the segment ids.
pub open spec fn segment_tree() -> Seq<i8> {
    seq![2i8, 4, 0, -1i8, -2i8, -3i8]
}

/// The tree of the luma modes.
pub open spec fn luma_tree() -> Seq<i8> {
    seq![-4i8, 2, 4, 6, 0, -1i8, -2i8, -3i8]
}

/// The tree of the chroma modes.
pub open spec fn chroma_tree() -> Seq<i8> {
    seq![0i8, 2, -1i8, 4, -2i8, -3i8]
}

/// The tree of the sub-block modes.
pub open spec fn small_tree() -> Seq<i8> {
    seq![
        0i8, 2, -1i8, 4, -2i8, 6, 8, 12, -3i8, 10, -5i8, -6i8, -4i8, 14, -7i8, 16, -8i8, -9i8,
    ]
}

/// Sub-block mode with a given code.
pub open spec fn small_mode(code: int) -> IntraMode {
    seq![
        IntraMode::DC,
        IntraMode::TM,
        IntraMode::VE,
        IntraMode::HE,
        IntraMode::LD,
        IntraMode::RD,
        IntraMode::VR,
        IntraMode::VL,
        IntraMode::HD,
        IntraMode::HU,
    ][code]
}

/// Modes of the first `k` sub-blocks, next to the modes around the macroblock.
pub open spec fn read_sub_modes(r: Reader, modes: Modes, mbx: int, k: int) -> (
    Seq<IntraMode>,
    Reader,
)
    decreases k,
{
    if k <= 0 {
        (Seq::empty(), r)
    } else {
        let (read, r1) = read_sub_modes(r, modes, mbx, k - 1);
        let j = k - 1;
        let above = if j / 4 == 0 {
            modes.top[4 * mbx + j]
        } else {
            read[j - 4]
        };
        let beside = if j % 4 == 0 {
            modes.left[j / 4]
        } else {
            read[j - 1]
        };
        let (code, r2) = read_tree(
            r1,
            small_tree(),
            bpred_probs(above, beside),
            0,
            18,
        );
        (read.push(small_mode(code)), r2)
    }
}

/// Header of a macroblock. What reconstruction finds out is not part of it.
pub open spec fn read_macroblock_header(r: Reader, params: HeaderParams, modes: Modes, mbx: int) -> (
    Decision,
    Reader,
) {
    let (segment_id, r1) = if params.segments_enabled {
        let (id, rest) = read_tree(r, segment_tree(), params.segment_tree_probs, 0, 6);
        (Some(id as usize), rest)
    } else {
        (None, r)
    };
    let (coeffs_skipped, r2) = match params.no_skip {
        Some(prob) => (r1.bit(prob), r1.rest(prob)),
        None => (false, r1),
    };
    let (luma, r3) = read_tree(
        r2,
        luma_tree(),
        seq![145u8, 156, 163, 128],
        0,
        8,
    );
    let (luma_bpred, r4) = if luma == 4 {
        let (read, rest) = read_sub_modes(r3, modes, mbx, 16);
        (Some(read), rest)
    } else {
        (None, r3)
    };
    let (chroma, r5) = read_tree(
        r4,
        chroma_tree(),
        seq![142u8, 114, 183],
        0,
        6,
    );
    (
        Decision {
            luma_mode: if luma == 0 {
                LumaMode::DC
            } else if luma == 1 {
                LumaMode::V
            } else if luma == 2 {
                LumaMode::H
            } else if luma == 3 {
                LumaMode::TM
            } else {
                LumaMode::B
            },
            luma_bpred,
            chroma_mode: if chroma == 0 {
                ChromaMode::DC
            } else if chroma == 1 {
                ChromaMode::V
            } else if chroma == 2 {
                ChromaMode::H
            } else {
                ChromaMode::TM
            },
            segment_id,
            coeffs_skipped,
            non_zero_dct: false,
        },
        r5,
    )
}

/// The trees of the decoder are those of the encoder.
proof fn lemma_trees()
    ensures
        small_tree() == KEYFRAME_BPRED_MODE_TREE@,
        segment_tree() == SEGMENT_ID_TREE@,
        luma_tree() == KEYFRAME_YMODE_TREE@,
        seq![145u8, 156, 163, 128] == KEYFRAME_YMODE_PROBS@,
        chroma_tree() == KEYFRAME_UV_MODE_TREE@,
        seq![142u8, 114, 183] == KEYFRAME_UV_MODE_PROBS@,
{
    assert(small_tree() =~= KEYFRAME_BPRED_MODE_TREE@);
    assert(segment_tree() =~= SEGMENT_ID_TREE@);
    assert(luma_tree() =~= KEYFRAME_YMODE_TREE@);
    assert(seq![145u8, 156, 163, 128] =~= KEYFRAME_YMODE_PROBS@);
    assert(chroma_tree() =~= KEYFRAME_UV_MODE_TREE@);
    assert(seq![142u8, 114, 183] =~= KEYFRAME_UV_MODE_PROBS@);
}

/// What a decision holds before reconstruction, and nothing that its header
/// does not tell.
pub open spec fn plain(d: Decision) -> bool {
    &&& d.wf()
    &&& d.luma_bpred is Some ==> d.luma_mode == LumaMode::B
    &&& d.segment_id is Some
    &&& !d.non_zero_dct
}

/// A leaf lies behind the root.
proof fn lemma_behind_root(tree: Seq<i8>, value: i8)
    requires
        has_path(tree, value, 0),
    ensures
        first_index(tree, (-value) as i8) >= 0,
{
    let leaf = (-value) as i8;
    assert(is_first(tree, leaf, first_index(tree, leaf)));
}

proof fn lemma_read_sub_modes(
    r: Reader,
    modes: Modes,
    bpred: Seq<IntraMode>,
    mbx: int,
    k: int,
)
    requires
        0 <= k <= bpred.len(),
        follows(r, subblock_mode_bits(modes, bpred, mbx, k)),
    ensures
        read_sub_modes(r, modes, mbx, k) == (
            bpred.take(k),
            after(r, subblock_mode_bits(modes, bpred, mbx, k)),
        ),
    decreases k,
{
    lemma_trees();
    if k > 0 {
        let done = subblock_mode_bits(modes, bpred, mbx, k - 1);
        let probs = bpred_probs(
            mode_above(modes, bpred, mbx, k - 1),
            mode_left(modes, bpred, k - 1),
        );
        let mode = bpred[k - 1];
        let tree = KEYFRAME_BPRED_MODE_TREE@;
        lemma_follows_concat(r, done, tree_bits(tree, probs, mode.code(), 0));
        lemma_read_sub_modes(r, modes, bpred, mbx, k - 1);
        let read = bpred.take(k - 1);
        assert(mode_above(modes, read, mbx, k - 1) == mode_above(modes, bpred, mbx, k - 1));
        assert(mode_left(modes, read, k - 1) == mode_left(modes, bpred, k - 1));
        lemma_bpred_tree(mode);
        lemma_behind_root(tree, mode.code());
        lemma_read_tree(after(r, done), tree, probs, mode.code(), 0);
        assert(small_mode(mode.code() as int) == mode);
        assert(read.push(mode) =~= bpred.take(k));
    } else {
        lemma_follows_nothing(r);
        assert(bpred.take(0) =~= Seq::<IntraMode>::empty());
    }
}

/// Reading a macroblock header gives the decision that was written.
pub proof fn lemma_read_macroblock_header(
    r: Reader,
    params: HeaderParams,
    modes: Modes,
    d: Decision,
    mbx: int,
)
    requires
        d.wf(),
        d.luma_bpred is Some ==> d.luma_mode == LumaMode::B,
        !d.non_zero_dct,
        d.segment_id is Some == params.segments_enabled,
        params.no_skip is None ==> !d.coeffs_skipped,
        follows(r, macroblock_header_bits(params, modes, d, mbx)),
    ensures
        read_macroblock_header(r, params, modes, mbx) == (
            d,
            after(r, macroblock_header_bits(params, modes, d, mbx)),
        ),
{
    lemma_trees();
    let id = d.segment_id.unwrap() as i8;
    let prob = params.no_skip.unwrap();
    let b1 = if params.segments_enabled {
        tree_bits(SEGMENT_ID_TREE@, params.segment_tree_probs, id, 0)
    } else {
        Seq::empty()
    };
    let skip = match params.no_skip {
        Some(prob) => seq![(d.coeffs_skipped, prob)],
        None => Seq::empty(),
    };
    let b2 = b1 + skip;
    let luma = tree_bits(KEYFRAME_YMODE_TREE@, KEYFRAME_YMODE_PROBS@, d.luma_mode.code(), 0);
    let b3 = b2 + luma;
    let subs = if d.luma_mode == LumaMode::B {
        subblock_mode_bits(modes, d.luma_bpred.unwrap(), mbx, 16)
    } else {
        Seq::empty()
    };
    let b4 = b3 + subs;
    let chroma = tree_bits(
        KEYFRAME_UV_MODE_TREE@,
        KEYFRAME_UV_MODE_PROBS@,
        d.chroma_mode.code(),
        0,
    );
    assert(macroblock_header_bits(params, modes, d, mbx) == b4 + chroma);
    lemma_follows_concat(r, b4, chroma);
    lemma_follows_concat(r, b3, subs);
    lemma_follows_concat(r, b2, luma);
    lemma_follows_concat(r, b1, skip);
    if params.segments_enabled {
        lemma_segment_tree(id);
        lemma_behind_root(SEGMENT_ID_TREE@, id);
        lemma_read_tree(r, SEGMENT_ID_TREE@, params.segment_tree_probs, id, 0);
    } else {
        lemma_follows_nothing(r);
    }
    if params.no_skip is Some {
        lemma_follows_one(after(r, b1), d.coeffs_skipped, prob);
    } else {
        lemma_follows_nothing(after(r, b1));
    }
    lemma_ymode_tree(d.luma_mode);
    lemma_behind_root(KEYFRAME_YMODE_TREE@, d.luma_mode.code());
    lemma_read_tree(
        after(r, b2),
        KEYFRAME_YMODE_TREE@,
        KEYFRAME_YMODE_PROBS@,
        d.luma_mode.code(),
        0,
    );
    assert(d.luma_mode != LumaMode::B ==> luma_candidate(d.luma_mode.code() as int)
        == d.luma_mode);
    if d.luma_mode == LumaMode::B {
        let bpred = d.luma_bpred.unwrap();
        lemma_read_sub_modes(after(r, b3), modes, bpred, mbx, 16);
        assert(bpred.take(16) =~= bpred);
    }
    lemma_uv_mode_tree(d.chroma_mode);
    lemma_behind_root(KEYFRAME_UV_MODE_TREE@, d.chroma_mode.code());
    lemma_read_tree(
        after(r, b4),
        KEYFRAME_UV_MODE_TREE@,
        KEYFRAME_UV_MODE_PROBS@,
        d.chroma_mode.code(),
        0,
    );
    assert(chroma_candidate(d.chroma_mode.code() as int) == d.chroma_mode);
    lemma_follows_nothing(after(r, b3));
    assert(read_macroblock_header(r, params, modes, mbx).0 =~= d);
}

} // verus!
