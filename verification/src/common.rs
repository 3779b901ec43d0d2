//! Constants and basic types of the VP8 format.
use vstd::prelude::*;

verus! {

/// Probability out of 256.
pub type Prob = u8;

/// Coefficient token probabilities by plane, band, context and tree node.
pub type TokenProbTables = [[[[u8; 11]; 3]; 8]; 4];

/// Number of segments a frame can have.
pub const MAX_SEGMENTS: usize = 4;

/// Number of coefficient tokens.
pub const NUM_DCT_TOKENS: usize = 12;

pub const DCT_0: i8 = 0;
pub const DCT_1: i8 = 1;
pub const DCT_CAT1: i8 = 5;
pub const DCT_CAT2: i8 = 6;
pub const DCT_CAT3: i8 = 7;
pub const DCT_CAT4: i8 = 8;
pub const DCT_CAT5: i8 = 9;
pub const DCT_CAT6: i8 = 10;
pub const DCT_EOB: i8 = 11;

pub const DC_PRED: i8 = 0;
pub const V_PRED: i8 = 1;
pub const H_PRED: i8 = 2;
pub const TM_PRED: i8 = 3;
pub const B_PRED: i8 = 4;

/// Row length of a luma macroblock with its border: one pixel to the left and
/// four to the right.
pub const LUMA_STRIDE: usize = 21;

/// Size of a luma macroblock with its border.
pub const LUMA_BLOCK_SIZE: usize = 357;

/// Row length of a chroma macroblock with its border.
pub const CHROMA_STRIDE: usize = 9;

/// Size of a chroma macroblock with its border.
pub const CHROMA_BLOCK_SIZE: usize = 81;

/// Prediction mode of a whole luma macroblock; `B` predicts each 4x4
/// sub-block on its own.
#[derive(Clone, Copy, Debug, PartialEq, Eq, Structural)]
pub enum LumaMode {
    DC,
    V,
    H,
    TM,
    B,
}

/// Prediction mode of a chroma macroblock.
#[derive(Clone, Copy, Debug, PartialEq, Eq, Structural)]
pub enum ChromaMode {
    DC,
    V,
    H,
    TM,
}

/// Prediction mode of a 4x4 luma sub-block.
#[derive(Clone, Copy, Debug, PartialEq, Eq, Structural)]
pub enum IntraMode {
    DC,
    TM,
    VE,
    HE,
    LD,
    RD,
    VR,
    VL,
    HD,
    HU,
}

/// Kind of a block of coefficients.
#[derive(Clone, Copy, Debug, PartialEq, Eq, Structural)]
pub enum Plane {
    /// luma without the DC coefficient
    YCoeff1,
    /// the DC coefficients of the luma blocks
    Y2,
    Chroma,
    /// luma with the DC coefficient
    YCoeff0,
}

impl LumaMode {
    pub open spec fn code(self) -> i8 {
        match self {
            LumaMode::DC => 0,
            LumaMode::V => 1,
            LumaMode::H => 2,
            LumaMode::TM => 3,
            LumaMode::B => 4,
        }
    }

    /// Value that stands for the mode in [`KEYFRAME_YMODE_TREE`].
    pub fn to_i8(self) -> (r: i8)
        ensures
            r == self.code(),
    {
        match self {
            LumaMode::DC => 0,
            LumaMode::V => 1,
            LumaMode::H => 2,
            LumaMode::TM => 3,
            LumaMode::B => 4,
        }
    }

    pub open spec fn intra(self) -> Option<IntraMode> {
        match self {
            LumaMode::DC => Some(IntraMode::DC),
            LumaMode::V => Some(IntraMode::VE),
            LumaMode::H => Some(IntraMode::HE),
            LumaMode::TM => Some(IntraMode::TM),
            LumaMode::B => None,
        }
    }

    /// Sub-block mode that a whole macroblock mode counts as, when it is the
    /// context of a sub-block mode.
    pub fn into_intra(self) -> (r: Option<IntraMode>)
        ensures
            r == self.intra(),
    {
        match self {
            LumaMode::DC => Some(IntraMode::DC),
            LumaMode::V => Some(IntraMode::VE),
            LumaMode::H => Some(IntraMode::HE),
            LumaMode::TM => Some(IntraMode::TM),
            LumaMode::B => None,
        }
    }
}

impl ChromaMode {
    pub open spec fn code(self) -> i8 {
        match self {
            ChromaMode::DC => 0,
            ChromaMode::V => 1,
            ChromaMode::H => 2,
            ChromaMode::TM => 3,
        }
    }

    /// Value that stands for the mode in [`KEYFRAME_UV_MODE_TREE`].
    pub fn to_i8(self) -> (r: i8)
        ensures
            r == self.code(),
    {
        match self {
            ChromaMode::DC => 0,
            ChromaMode::V => 1,
            ChromaMode::H => 2,
            ChromaMode::TM => 3,
        }
    }
}

impl IntraMode {
    pub open spec fn code(self) -> i8 {
        match self {
            IntraMode::DC => 0,
            IntraMode::TM => 1,
            IntraMode::VE => 2,
            IntraMode::HE => 3,
            IntraMode::LD => 4,
            IntraMode::RD => 5,
            IntraMode::VR => 6,
            IntraMode::VL => 7,
            IntraMode::HD => 8,
            IntraMode::HU => 9,
        }
    }

    /// Value that stands for the mode in [`KEYFRAME_BPRED_MODE_TREE`].
    pub fn to_i8(self) -> (r: i8)
        ensures
            r == self.code(),
            0 <= r <= 9,
    {
        match self {
            IntraMode::DC => 0,
            IntraMode::TM => 1,
            IntraMode::VE => 2,
            IntraMode::HE => 3,
            IntraMode::LD => 4,
            IntraMode::RD => 5,
            IntraMode::VR => 6,
            IntraMode::VL => 7,
            IntraMode::HD => 8,
            IntraMode::HU => 9,
        }
    }
}

impl Plane {
    pub open spec fn code(self) -> int {
        match self {
            Plane::YCoeff1 => 0,
            Plane::Y2 => 1,
            Plane::Chroma => 2,
            Plane::YCoeff0 => 3,
        }
    }

    /// Index of the plane in the probability tables.
    pub fn to_usize(self) -> (r: usize)
        ensures
            r == self.code(),
            r < 4,
    {
        match self {
            Plane::YCoeff1 => 0,
            Plane::Y2 => 1,
            Plane::Chroma => 2,
            Plane::YCoeff0 => 3,
        }
    }
}

/// Quantiser steps and filter adjustments of a segment.
#[derive(Clone, Copy, Debug, PartialEq, Eq, Structural)]
pub struct Segment {
    pub ydc: i16,
    pub yac: i16,
    pub y2dc: i16,
    pub y2ac: i16,
    pub uvdc: i16,
    pub uvac: i16,
    pub delta_values: bool,
    pub quantizer_level: i8,
    pub loopfilter_level: i8,
}

impl Segment {
    /// Every quantiser step is one that the quantiser tables can give.
    pub open spec fn wf(self) -> bool {
        &&& 4 <= self.ydc <= 157
        &&& 4 <= self.yac <= 284
        &&& 8 <= self.y2dc <= 314
        &&& 8 <= self.y2ac <= 440
        &&& 4 <= self.uvdc <= 132
        &&& 4 <= self.uvac <= 284
    }
}

/// Order in which the coefficients of a block are coded.
pub const ZIGZAG: [u8; 16] = [0, 1, 4, 8, 5, 2, 3, 6, 9, 12, 13, 10, 7, 11, 14, 15];

/// Band of each coefficient, in coding order.
pub const COEFF_BANDS: [u8; 16] = [0, 1, 2, 3, 6, 4, 5, 6, 6, 6, 6, 6, 6, 6, 6, 7];

pub const SEGMENT_ID_TREE: [i8; 6] = [2, 4, 0, -1, -2, -3];

pub const KEYFRAME_YMODE_TREE: [i8; 8] = [-4, 2, 4, 6, 0, -1, -2, -3];

pub const KEYFRAME_YMODE_PROBS: [u8; 4] = [145, 156, 163, 128];

pub const KEYFRAME_UV_MODE_TREE: [i8; 6] = [0, 2, -1, 4, -2, -3];

pub const KEYFRAME_UV_MODE_PROBS: [u8; 3] = [142, 114, 183];

pub const KEYFRAME_BPRED_MODE_TREE: [i8; 18] = [
    0, 2, -1, 4, -2, 6, 8, 12, -3, 10, -5, -6, -4, 14, -7, 16, -8, -9,
];

pub const DCT_TOKEN_TREE: [i8; 22] = [
    -11, 2, 0, 4, -1, 6, 8, 12, -2, 10, -3, -4, 14, 16, -5, -6, 18, 20, -7, -8, -9, -10,
];

/// Probabilities of the extra bits of the token categories; a zero ends a row.
pub const PROB_DCT_CAT: [[u8; 12]; 6] = [
    [159, 0, 0, 0, 0, 0, 0, 0, 0, 0, 0, 0],
    [165, 145, 0, 0, 0, 0, 0, 0, 0, 0, 0, 0],
    [173, 148, 140, 0, 0, 0, 0, 0, 0, 0, 0, 0],
    [176, 155, 140, 135, 0, 0, 0, 0, 0, 0, 0, 0],
    [180, 157, 141, 134, 130, 0, 0, 0, 0, 0, 0, 0],
    [254, 254, 243, 230, 196, 177, 153, 140, 133, 130, 129, 0],
];

/// Smallest magnitude of each token category.
pub const DCT_CAT_BASE: [u8; 6] = [5, 7, 11, 19, 35, 67];

/// Entry of a probability table at a flat position.
pub open spec fn table_at(table: TokenProbTables, n: int) -> u8 {
    table[n / 264][n / 33 % 8][n / 11 % 3][n % 11]
}

/// Flat position of a probability table entry.
pub open spec fn slot(plane: int, band: int, context: int, node: int) -> int {
    ((plane * 8 + band) * 3 + context) * 11 + node
}

/// A probability table as one sequence.
pub open spec fn flat_table(table: TokenProbTables) -> Seq<u8> {
    Seq::new(1056, |n: int| table_at(table, n))
}

pub proof fn lemma_slot(plane: int, band: int, context: int, node: int)
    requires
        0 <= plane < 4,
        0 <= band < 8,
        0 <= context < 3,
        0 <= node < 11,
    ensures
        0 <= slot(plane, band, context, node) < 1056,
        slot(plane, band, context, node) / 264 == plane,
        slot(plane, band, context, node) / 33 % 8 == band,
        slot(plane, band, context, node) / 11 % 3 == context,
        slot(plane, band, context, node) % 11 == node,
{
}

} // verus!
