//! The encoder and its state.
use vstd::prelude::*;

use crate::arithmetic_encoder::ArithmeticEncoder;
use crate::common::{ChromaMode, IntraMode, LumaMode, Segment, TokenProbTables};
use crate::model::{Canvas, Decision, Modes, Scene};
use crate::segments::QuantizationIndices;

verus! {

/// What encoding can fail with.
#[derive(Clone, Copy, Debug, PartialEq, Eq, Structural)]
pub enum EncodingError {
    /// The width or the height of the image does not fit.
    InvalidDimensions,
}

/// Layout of the pixels of an image.
#[derive(Clone, Copy, Debug, PartialEq, Eq, Structural)]
pub enum ColorType {
    /// brightness
    L8,
    /// brightness and opacity
    La8,
    /// red, green and blue
    Rgb8,
    /// red, green, blue and opacity
    Rgba8,
}

impl ColorType {
    pub open spec fn bytes(self) -> int {
        match self {
            ColorType::L8 => 1,
            ColorType::La8 => 2,
            ColorType::Rgb8 => 3,
            ColorType::Rgba8 => 4,
        }
    }

    /// Number of bytes for each pixel.
    pub fn bytes_per_pixel(self) -> (r: usize)
        ensures
            r == self.bytes(),
    {
        match self {
            ColorType::L8 => 1,
            ColorType::La8 => 2,
            ColorType::Rgb8 => 3,
            ColorType::Rgba8 => 4,
        }
    }
}

/// For each position next to a macroblock, whether the block there has a
/// coefficient that is not zero.
#[derive(Clone, Copy, Debug, PartialEq, Eq)]
pub struct Complexity {
    pub y2: u8,
    pub y: [u8; 4],
    pub u: [u8; 2],
    pub v: [u8; 2],
}

/// The same on mathematical values.
#[verifier::ext_equal]
pub struct Contexts {
    pub y2: u8,
    pub y: Seq<u8>,
    pub u: Seq<u8>,
    pub v: Seq<u8>,
}

impl Contexts {
    pub open spec fn wf(self) -> bool {
        &&& self.y2 <= 1
        &&& self.y.len() == 4
        &&& self.u.len() == 2
        &&& self.v.len() == 2
        &&& forall|i: int| 0 <= i < 4 ==> #[trigger] self.y[i] <= 1
        &&& forall|i: int| 0 <= i < 2 ==> #[trigger] self.u[i] <= 1
        &&& forall|i: int| 0 <= i < 2 ==> #[trigger] self.v[i] <= 1
    }

    /// No coefficients.
    pub open spec fn zero() -> Contexts {
        Contexts { y2: 0, y: seq![0, 0, 0, 0], u: seq![0, 0], v: seq![0, 0] }
    }

    /// After a macroblock without coefficients; one that is predicted by
    /// sub-blocks has no DC block and leaves that entry alone.
    pub open spec fn cleared(self, include_y2: bool) -> Contexts {
        Contexts {
            y2: if include_y2 {
                0
            } else {
                self.y2
            },
            ..Contexts::zero()
        }
    }
}

impl View for Complexity {
    type V = Contexts;

    open spec fn view(&self) -> Contexts {
        Contexts { y2: self.y2, y: self.y@, u: self.u@, v: self.v@ }
    }
}

impl Complexity {
    /// No coefficients.
    pub fn none() -> (r: Complexity)
        ensures
            r@ == Contexts::zero(),
    {
        let r = Complexity { y2: 0, y: [0, 0, 0, 0], u: [0, 0], v: [0, 0] };
        assert(r@ =~= Contexts::zero());
        r
    }

    /// Clears the entries that a macroblock without coefficients clears.
    pub fn clear(&mut self, include_y2: bool)
        ensures
            final(self)@ == old(self)@.cleared(include_y2),
    {
        self.y = [0, 0, 0, 0];
        self.u = [0, 0];
        self.v = [0, 0];
        if include_y2 {
            self.y2 = 0;
        }
        assert(self@ =~= old(self)@.cleared(include_y2));
    }
}

/// Modes and flags of a macroblock.
#[derive(Clone, Copy, Debug, PartialEq, Eq)]
pub struct MacroblockInfo {
    pub luma_mode: LumaMode,
    /// modes of the sub-blocks, when the luma mode is `B`
    pub luma_bpred: Option<[IntraMode; 16]>,
    pub chroma_mode: ChromaMode,
    /// index of the segment of the macroblock
    pub segment_id: Option<usize>,
    /// no coefficient is coded
    pub coeffs_skipped: bool,
    /// whether reconstruction finds a coefficient that is not zero; known only
    /// once the macroblock has been reconstructed
    pub non_zero_dct: bool,
}

impl View for MacroblockInfo {
    type V = Decision;

    open spec fn view(&self) -> Decision {
        Decision {
            luma_mode: self.luma_mode,
            luma_bpred: match self.luma_bpred {
                Some(modes) => Some(modes@),
                None => None,
            },
            chroma_mode: self.chroma_mode,
            segment_id: self.segment_id,
            coeffs_skipped: self.coeffs_skipped,
            non_zero_dct: self.non_zero_dct,
        }
    }
}

impl Default for MacroblockInfo {
    /// DC prediction, before anything is known of the macroblock.
    fn default() -> (info: MacroblockInfo)
        ensures
            info@ == (Decision {
                luma_mode: LumaMode::DC,
                luma_bpred: None,
                chroma_mode: ChromaMode::DC,
                segment_id: None,
                coeffs_skipped: false,
                non_zero_dct: false,
            }),
    {
        MacroblockInfo {
            luma_mode: LumaMode::DC,
            luma_bpred: None,
            chroma_mode: ChromaMode::DC,
            segment_id: None,
            coeffs_skipped: false,
            non_zero_dct: false,
        }
    }
}

impl MacroblockInfo {
    /// Sub-block prediction has sub-block modes, and the segment exists.
    pub open spec fn wf(self) -> bool {
        &&& self.luma_mode == LumaMode::B ==> self.luma_bpred is Some
        &&& self.segment_id is Some ==> self.segment_id.unwrap() < 4
    }
}

/// The frame that is being encoded, and its header fields.
pub struct Frame {
    pub width: u16,
    pub height: u16,
    pub ybuf: Vec<u8>,
    pub ubuf: Vec<u8>,
    pub vbuf: Vec<u8>,
    pub version: u8,
    pub keyframe: bool,
    pub for_display: bool,
    pub pixel_type: u8,
    /// whether the simple loop filter is used
    pub filter_type: bool,
    pub filter_level: u8,
    pub sharpness_level: u8,
}

/// Encoder of lossy frames.
pub struct Vp8Encoder {
    /// what has been written
    pub writer: Vec<u8>,
    pub frame: Frame,
    /// encoder of the compressed frame header and the macroblock headers
    pub encoder: ArithmeticEncoder,
    pub segments: [Segment; 4],
    pub segments_enabled: bool,
    /// probabilities of the segment tree
    pub segment_tree_probs: [u8; 3],
    /// segment of each macroblock, row by row
    pub mb_segment_ids: Vec<u8>,
    pub loop_filter_adjustments: bool,
    /// probability that a macroblock is not skipped
    pub macroblock_no_skip_coeff: Option<u8>,
    pub quantization_indices: QuantizationIndices,
    pub token_probs: TokenProbTables,
    pub top_complexity: Vec<Complexity>,
    pub left_complexity: Complexity,
    pub top_b_pred: Vec<IntraMode>,
    pub left_b_pred: [IntraMode; 4],
    pub macroblock_width: u16,
    pub macroblock_height: u16,
    /// encoders of the coefficients
    pub partitions: Vec<ArithmeticEncoder>,
    /// pixels reconstructed so far
    pub recon_y: Vec<u8>,
    pub recon_u: Vec<u8>,
    pub recon_v: Vec<u8>,
    /// modes of each macroblock, row by row
    pub mb_info_cache: Vec<Option<MacroblockInfo>>,
}

impl Vp8Encoder {
    /// What does not change while the macroblocks are encoded.
    pub open spec fn scene(&self) -> Scene {
        Scene {
            mbw: self.macroblock_width as int,
            mbh: self.macroblock_height as int,
            ybuf: self.frame.ybuf@,
            ubuf: self.frame.ubuf@,
            vbuf: self.frame.vbuf@,
            segments: self.segments@,
            ids: self.mb_segment_ids@,
        }
    }

    pub open spec fn canvas(&self) -> Canvas {
        Canvas { y: self.recon_y@, u: self.recon_u@, v: self.recon_v@ }
    }

    pub open spec fn modes(&self) -> Modes {
        Modes { top: self.top_b_pred@, left: self.left_b_pred@ }
    }

    /// The planes and contexts fit the frame.
    pub open spec fn in_frame(&self) -> bool {
        &&& self.scene().wf()
        &&& self.canvas().wf(self.macroblock_width as int, self.macroblock_height as int)
        &&& self.top_b_pred@.len() == 4 * self.macroblock_width
    }

    /// The source has a luma plane of the size of the frame.
    pub open spec fn has_luma_source(&self) -> bool {
        self.frame.ybuf@.len() == (self.macroblock_width * 16) * (self.macroblock_height * 16)
    }

    /// The source has chroma planes of the size of the frame.
    pub open spec fn has_chroma_source(&self) -> bool {
        let len = (self.macroblock_width * 8) * (self.macroblock_height * 8);
        self.frame.ubuf@.len() == len && self.frame.vbuf@.len() == len
    }

    /// The reconstructed luma plane has the size of the frame.
    pub open spec fn has_luma_canvas(&self) -> bool {
        self.recon_y@.len() == (self.macroblock_width * 16) * (self.macroblock_height * 16)
    }

    /// The reconstructed chroma planes have the size of the frame.
    pub open spec fn has_chroma_canvas(&self) -> bool {
        let len = (self.macroblock_width * 8) * (self.macroblock_height * 8);
        self.recon_u@.len() == len && self.recon_v@.len() == len
    }

    /// The macroblock lies in the frame.
    pub open spec fn has_macroblock(&self, mbx: int, mby: int) -> bool {
        0 <= mbx < self.macroblock_width && 0 <= mby < self.macroblock_height
    }

    /// The coefficient contexts fit the frame.
    pub open spec fn has_contexts(&self) -> bool {
        &&& self.left_complexity@.wf()
        &&& self.top_complexity@.len() == self.macroblock_width
        &&& forall|i: int|
            0 <= i < self.top_complexity@.len() ==> (#[trigger] self.top_complexity@[i])@.wf()
    }

    /// The entropy encoders are valid.
    pub open spec fn has_coders(&self) -> bool {
        &&& self.encoder.wf()
        &&& forall|i: int| 0 <= i < self.partitions@.len() ==> (#[trigger] self.partitions@[i]).wf()
    }
}

} // verus!
