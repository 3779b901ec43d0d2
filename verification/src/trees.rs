//! The symbols of each coding tree have a code.
use vstd::prelude::*;

use crate::arithmetic_encoder::{climb, first_index, has_path, is_first, lemma_first_index};
use crate::common::{
    ChromaMode, IntraMode, LumaMode, DCT_EOB, DCT_TOKEN_TREE, KEYFRAME_BPRED_MODE_TREE,
    KEYFRAME_UV_MODE_TREE, KEYFRAME_YMODE_TREE, SEGMENT_ID_TREE,
};

verus! {

/// The climb from the tree position `index` succeeds within `depth` nodes.
spec fn climbs(tree: Seq<i8>, index: int, start_index: int, depth: nat) -> bool {
    climb(tree, index, start_index, depth) is Some
}

proof fn lemma_more_fuel(tree: Seq<i8>, index: int, start_index: int, depth: nat, fuel: nat)
    requires
        climbs(tree, index, start_index, depth),
        depth <= fuel,
    ensures
        climbs(tree, index, start_index, fuel),
    decreases depth,
{
    if index != start_index && index != start_index + 1 {
        let node = (index - index % 2) as i8;
        lemma_more_fuel(
            tree,
            first_index(tree, node),
            start_index,
            (depth - 1) as nat,
            (fuel - 1) as nat,
        );
    }
}

/// Both children of the node that the position `parent` points to can be
/// reached when `parent` can.
proof fn lemma_node(tree: Seq<i8>, node: i8, parent: int, start_index: int, depth: nat)
    requires
        0 <= node < 127,
        node % 2 == 0,
        is_first(tree, node, parent),
        climbs(tree, parent, start_index, depth),
    ensures
        climbs(tree, node as int, start_index, depth + 1),
        climbs(tree, node as int + 1, start_index, depth + 1),
{
    lemma_first_index(tree, node, parent);
    assert((node as int) as i8 == node);
}

proof fn lemma_leaf(tree: Seq<i8>, value: i8, leaf: int, start_index: int, depth: nat)
    requires
        value >= 0,
        is_first(tree, (-value) as i8, leaf),
        climbs(tree, leaf, start_index, depth),
        depth <= tree.len(),
    ensures
        has_path(tree, value, start_index),
{
    lemma_first_index(tree, (-value) as i8, leaf);
    lemma_more_fuel(tree, leaf, start_index, depth, tree.len());
}

/// Every segment id is a leaf of the segment tree.
pub proof fn lemma_segment_tree(value: i8)
    requires
        0 <= value <= 3,
    ensures
        has_path(SEGMENT_ID_TREE@, value, 0),
{
    let t = SEGMENT_ID_TREE@;
    lemma_node(t, 2, 0, 0, 1);
    lemma_node(t, 4, 1, 0, 1);
    lemma_leaf(t, value, value as int + 2, 0, 2);
}

/// Every luma mode is a leaf of the luma mode tree.
pub proof fn lemma_ymode_tree(mode: LumaMode)
    ensures
        has_path(KEYFRAME_YMODE_TREE@, mode.code(), 0),
{
    let t = KEYFRAME_YMODE_TREE@;
    lemma_node(t, 2, 1, 0, 1);
    lemma_node(t, 4, 2, 0, 2);
    lemma_node(t, 6, 3, 0, 2);
    match mode {
        LumaMode::DC => lemma_leaf(t, 0, 4, 0, 3),
        LumaMode::V => lemma_leaf(t, 1, 5, 0, 3),
        LumaMode::H => lemma_leaf(t, 2, 6, 0, 3),
        LumaMode::TM => lemma_leaf(t, 3, 7, 0, 3),
        LumaMode::B => lemma_leaf(t, 4, 0, 0, 1),
    }
}

/// Every chroma mode is a leaf of the chroma mode tree.
pub proof fn lemma_uv_mode_tree(mode: ChromaMode)
    ensures
        has_path(KEYFRAME_UV_MODE_TREE@, mode.code(), 0),
{
    let t = KEYFRAME_UV_MODE_TREE@;
    lemma_node(t, 2, 1, 0, 1);
    lemma_node(t, 4, 3, 0, 2);
    match mode {
        ChromaMode::DC => lemma_leaf(t, 0, 0, 0, 1),
        ChromaMode::V => lemma_leaf(t, 1, 2, 0, 2),
        ChromaMode::H => lemma_leaf(t, 2, 4, 0, 3),
        ChromaMode::TM => lemma_leaf(t, 3, 5, 0, 3),
    }
}

/// Every sub-block mode is a leaf of the sub-block mode tree.
pub proof fn lemma_bpred_tree(mode: IntraMode)
    ensures
        has_path(KEYFRAME_BPRED_MODE_TREE@, mode.code(), 0),
{
    let t = KEYFRAME_BPRED_MODE_TREE@;
    lemma_node(t, 2, 1, 0, 1);
    lemma_node(t, 4, 3, 0, 2);
    lemma_node(t, 6, 5, 0, 3);
    lemma_node(t, 8, 6, 0, 4);
    lemma_node(t, 12, 7, 0, 4);
    lemma_node(t, 10, 9, 0, 5);
    lemma_node(t, 14, 13, 0, 5);
    lemma_node(t, 16, 15, 0, 6);
    match mode {
        IntraMode::DC => lemma_leaf(t, 0, 0, 0, 1),
        IntraMode::TM => lemma_leaf(t, 1, 2, 0, 2),
        IntraMode::VE => lemma_leaf(t, 2, 4, 0, 3),
        IntraMode::HE => lemma_leaf(t, 3, 8, 0, 5),
        IntraMode::LD => lemma_leaf(t, 4, 12, 0, 5),
        IntraMode::RD => lemma_leaf(t, 5, 10, 0, 6),
        IntraMode::VR => lemma_leaf(t, 6, 11, 0, 6),
        IntraMode::VL => lemma_leaf(t, 7, 14, 0, 6),
        IntraMode::HD => lemma_leaf(t, 8, 16, 0, 7),
        IntraMode::HU => lemma_leaf(t, 9, 17, 0, 7),
    }
}

/// Every token is a leaf of the token tree; after a zero the end of the block
/// is not.
pub proof fn lemma_token_tree(token: i8, start_index: int)
    requires
        0 <= token <= 11,
        start_index == 0 || (start_index == 2 && token != DCT_EOB),
    ensures
        has_path(DCT_TOKEN_TREE@, token, start_index),
{
    let t = DCT_TOKEN_TREE@;
    let s = start_index;
    if s == 0 {
        lemma_node(t, 2, 1, s, 1);
    } else {
        lemma_more_fuel(t, 2, s, 1, 2);
        lemma_more_fuel(t, 3, s, 1, 2);
    }
    lemma_node(t, 4, 3, s, 2);
    lemma_node(t, 6, 5, s, 3);
    lemma_node(t, 8, 6, s, 4);
    lemma_node(t, 12, 7, s, 4);
    lemma_node(t, 10, 9, s, 5);
    lemma_node(t, 14, 12, s, 5);
    lemma_node(t, 16, 13, s, 5);
    lemma_node(t, 18, 16, s, 6);
    lemma_node(t, 20, 17, s, 6);
    if token == 0 {
        lemma_leaf(t, token, 2, s, 2);
    } else if token == 1 {
        lemma_leaf(t, token, 4, s, 3);
    } else if token == 2 {
        lemma_leaf(t, token, 8, s, 5);
    } else if token == 3 {
        lemma_leaf(t, token, 10, s, 6);
    } else if token == 4 {
        lemma_leaf(t, token, 11, s, 6);
    } else if token == 5 {
        lemma_leaf(t, token, 14, s, 6);
    } else if token == 6 {
        lemma_leaf(t, token, 15, s, 6);
    } else if token == 7 {
        lemma_leaf(t, token, 18, s, 7);
    } else if token == 8 {
        lemma_leaf(t, token, 19, s, 7);
    } else if token == 9 {
        lemma_leaf(t, token, 20, s, 7);
    } else if token == 10 {
        lemma_leaf(t, token, 21, s, 7);
    } else {
        lemma_leaf(t, token, 0, s, 1);
    }
}

} // verus!
