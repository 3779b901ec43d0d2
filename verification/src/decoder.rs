//! What a decoder makes of the bytes of a frame.
use vstd::prelude::*;

use crate::arithmetic_encoder::{lemma_write_all_concat, Coder};
use crate::deblocking::{frame_smoothed, lemma_frame_smoothed};
use crate::filter::{filtered_frame, FilterSettings};
use crate::frame::Image;
use crate::frame_decoding::{
    decode_macroblocks, decoding_at, frame_token_bits, lemma_decode_macroblocks, mode_bits,
    seen_decision, Decoding,
};
use crate::header::frame_header_bits;
use crate::header_reading::{lemma_read_header, read_header, readable};
use crate::model::{Canvas, Decision, Scene};
use crate::output::{
    flushed_parts, le_bytes, lemma_frame_tag, partition_bytes, uncompressed_header,
    MAX_HEADER_SIZE,
};
use crate::passes::{
    completed, frame_partitions, jobs_at, lemma_decisions_prefix, lemma_partitions_len,
    Surroundings, Walk,
};
use crate::reading::{after, lemma_follows_concat, lemma_follows_written};
use crate::residual::jobs_bits;
use crate::roundtrip::Reader;
use crate::segments::{
    lemma_ranks, lemma_segment_wf, rank, segment_of, variances_of, QuantizationIndices,
    SEGMENT_QUANT_DELTAS,
};
use crate::setup::quant_index_for;

verus! {

/// Value of two bytes, least significant first.
pub open spec fn le16(bytes: Seq<u8>, at: int) -> int {
    bytes[at] + 256 * bytes[at + 1]
}

/// A decoded frame.
#[verifier::ext_equal]
pub struct DecodedFrame {
    pub width: int,
    pub height: int,
    pub canvas: Canvas,
}

/// The bytes start like a key frame of the first version that is shown, and is
/// not to be scaled.
pub open spec fn starts_frame(bytes: Seq<u8>) -> bool {
    &&& le16(bytes, 0) % 32 == 16
    &&& le16(bytes, 3) == 0x019d
    &&& bytes[5] == 0x2a
    &&& le16(bytes, 6) < 0x4000
    &&& le16(bytes, 8) < 0x4000
}

/// Decodes a key frame with one partition; anything else has no size.
pub open spec fn decode(bytes: Seq<u8>) -> DecodedFrame {
    let size = (le16(bytes, 0) + 65536 * bytes[2]) / 32;
    let width = if starts_frame(bytes) {
        le16(bytes, 6) % 0x4000
    } else {
        0
    };
    let height = if starts_frame(bytes) {
        le16(bytes, 8) % 0x4000
    } else {
        0
    };
    let mbw = (width + 15) / 16;
    let mbh = (height + 15) / 16;
    let (h, headers) = read_header(Reader::open(bytes.subrange(10, 10 + size)));
    let start = Decoding {
        headers,
        tokens: Reader::open(bytes.skip(10 + size)),
        walk: Walk::fresh(mbw, mbh),
        around: Surroundings::fresh(mbw),
        ds: Seq::empty(),
    };
    let end = decode_macroblocks(h, mbw, start, mbw * mbh);
    let settings = FilterSettings {
        filter_type: h.filter_type,
        filter_level: h.filter_level,
        sharpness_level: h.sharpness_level,
        segments_enabled: h.segments_enabled,
    };
    DecodedFrame {
        width,
        height,
        canvas: if h.filter_level == 0 {
            end.walk.canvas
        } else {
            frame_smoothed(settings, h.segments, end.ds, mbw, end.walk.canvas, mbw * mbh)
        },
    }
}

/// The frame of an image is valid.
pub proof fn lemma_scene_wf(image: Image)
    requires
        image.wf(),
    ensures
        image.scene().wf(),
        quant_index_for(image.quality as int) <= 127,
{
    let scene = image.scene();
    let qi = quant_index_for(image.quality as int);
    assert(0 <= image.quality * 127 / 100 <= 127);
    assert forall|i: int| 0 <= i < 4 implies (#[trigger] scene.segments[i]).wf() by {
        let delta = SEGMENT_QUANT_DELTAS[i];
        lemma_segment_wf(qi, delta, QuantizationIndices::of(qi));
    }
    let v = variances_of(image.planes().0, scene.mbw, scene.mbh);
    assert(0 <= scene.mbw * scene.mbh) by (nonlinear_arith)
        requires
            0 <= scene.mbw,
            0 <= scene.mbh,
    ;
    assert forall|i: int| 0 <= i < scene.ids.len() implies #[trigger] scene.ids[i] < 4 by {
        lemma_ranks(v, i, i);
        let n = v.len() as int;
        let r = rank(v, i);
        assert(0 <= r * 4 / n < 4) by (nonlinear_arith)
            requires
                0 <= r < n,
        ;
    }
    assert(0 <= (scene.mbw * 16) * (scene.mbh * 16)) by (nonlinear_arith)
        requires
            0 <= scene.mbw,
            0 <= scene.mbh,
    ;
    assert(0 <= (scene.mbw * 8) * (scene.mbh * 8)) by (nonlinear_arith)
        requires
            0 <= scene.mbw,
            0 <= scene.mbh,
    ;
}

/// The one partition of a frame holds all coefficients.
proof fn lemma_one_partition(image: Image, i: int)
    requires
        0 <= i,
    ensures
        frame_partitions(
            image.scene(),
            image.start(),
            image.first(),
            image.decisions(),
            image.token_probs(),
            seq![Coder::fresh()],
            i,
        ) == seq![Coder::fresh().write_all(frame_token_bits(image, i))],
    decreases i,
{
    let c = Coder::fresh();
    if i > 0 {
        lemma_one_partition(image, i - 1);
        let bits = jobs_bits(
            jobs_at(image.scene(), image.start(), image.first(), image.decisions(), i - 1),
            image.token_probs(),
        );
        lemma_write_all_concat(
            c,
            frame_token_bits(image, i - 1),
            bits,
        );
        let row = (i - 1) / image.scene().mbw;
        assert(row % 1 == 0) by (nonlinear_arith);
        assert(frame_partitions(
            image.scene(),
            image.start(),
            image.first(),
            image.decisions(),
            image.token_probs(),
            seq![c],
            i,
        ) =~= seq![c.write_all(frame_token_bits(image, i))]);
    } else {
        assert(seq![c] =~= seq![c.write_all(frame_token_bits(image, 0))]);
    }
}

/// The filter treats two decisions alike.
pub open spec fn filtered_alike(a: Decision, b: Decision) -> bool {
    &&& a.luma_mode == b.luma_mode
    &&& a.segment_id == b.segment_id
    &&& a.coeffs_skipped == b.coeffs_skipped
    &&& a.coeffs_skipped || a.non_zero_dct == b.non_zero_dct
}

/// Filtering depends on the size of the frame, its segments and the decisions.
proof fn lemma_filtered_alike(
    a: Scene,
    b: Scene,
    settings: FilterSettings,
    x: Seq<Decision>,
    y: Seq<Decision>,
    canvas: Canvas,
    i: int,
)
    requires
        a.mbw == b.mbw,
        a.segments == b.segments,
        0 <= i <= x.len(),
        i <= y.len(),
        forall|j: int| 0 <= j < i ==> filtered_alike(#[trigger] x[j], y[j]),
    ensures
        filtered_frame(a, settings, x, canvas, i) == filtered_frame(b, settings, y, canvas, i),
    decreases i,
{
    if i > 0 {
        lemma_filtered_alike(a, b, settings, x, y, canvas, i - 1);
        assert(filtered_alike(x[i - 1], y[i - 1]));
    }
}

proof fn lemma_le_bytes(v: int)
    requires
        0 <= v < 0x100_0000,
    ensures
        le_bytes(v, 3) == seq![(v % 256) as u8, (v / 256 % 256) as u8, (v / 65536) as u8],
        v < 65536 ==> le_bytes(v, 2) == seq![(v % 256) as u8, (v / 256) as u8],
{
    reveal_with_fuel(le_bytes, 4);
    assert(v / 256 / 256 == v / 65536);
    assert(le_bytes(v, 3) =~= seq![(v % 256) as u8, (v / 256 % 256) as u8, (v / 65536) as u8]);
    if v < 65536 {
        assert(le_bytes(v, 2) =~= seq![(v % 256) as u8, (v / 256) as u8]);
    }
}

/// Where the parts of a frame are found.
proof fn lemma_layout(width: u16, height: u16, header: Seq<u8>, tokens: Seq<u8>)
    requires
        width < 0x4000,
        height < 0x4000,
        header.len() < MAX_HEADER_SIZE,
    ensures
        ({
            let bytes = uncompressed_header(0, true, width, height, header.len() as int) + header
                + tokens;
            let size = (le16(bytes, 0) + 65536 * bytes[2]) / 32;
            &&& size == header.len()
            &&& starts_frame(bytes)
            &&& le16(bytes, 6) % 0x4000 == width
            &&& le16(bytes, 8) % 0x4000 == height
            &&& bytes.subrange(10, 10 + size) == header
            &&& bytes.skip(10 + size) == tokens
        }),
{
    let n = header.len() as int;
    let tag = n * 32 + 16;
    lemma_frame_tag(0, true, header.len() as u32);
    lemma_le_bytes(tag);
    lemma_le_bytes(width as int);
    lemma_le_bytes(height as int);
    let head = uncompressed_header(0, true, width, height, n);
    assert(head =~= seq![
        (tag % 256) as u8,
        (tag / 256 % 256) as u8,
        (tag / 65536) as u8,
        0x9du8,
        0x01u8,
        0x2au8,
        (width % 256) as u8,
        (width / 256) as u8,
        (height % 256) as u8,
        (height / 256) as u8,
    ]);
    let bytes = head + header + tokens;
    assert(bytes[0] == head[0] && bytes[1] == head[1] && bytes[2] == head[2]);
    assert(bytes[3] == head[3] && bytes[4] == head[4] && bytes[5] == head[5]);
    assert(bytes[6] == head[6] && bytes[7] == head[7]);
    assert(bytes[8] == head[8] && bytes[9] == head[9]);
    assert(tag % 256 + 256 * (tag / 256 % 256) + 65536 * (tag / 65536) == tag);
    assert(le16(bytes, 0) + 65536 * bytes[2] == tag);
    assert(le16(bytes, 0) % 32 == 16);
    assert(bytes.subrange(10, 10 + n) =~= header);
    assert(bytes.skip(10 + n) =~= tokens);
}

/// A decoder can read the header of the frame of an image.
proof fn lemma_readable(image: Image)
    requires
        image.wf(),
    ensures
        readable(image.frame_header(1)),
{
    lemma_scene_wf(image);
    let h = image.frame_header(1);
    assert forall|i: int| 0 <= i < 4 implies {
        &&& -128 < (#[trigger] h.segments[i]).quantizer_level
        &&& h.segments[i] == segment_of(
            h.indices.yac_abs,
            h.segments[i].quantizer_level,
            h.indices,
        )
    } by {
        assert(SEGMENT_QUANT_DELTAS[i] >= -6);
    }
}

/// Decoding the frame of an image gives its dimensions and the pixels that the
/// encoder holds as its reconstruction: the encoder and a decoder never drift
/// apart.
///
/// A frame has no room for a dimension of more than 14 bits.
pub proof fn law_decoding_gives_the_reconstruction(image: Image)
    requires
        image.wf(),
        image.width < 0x4000,
        image.height < 0x4000,
        image.encodable(),
    ensures
        decode(image.encoded()) == (DecodedFrame {
            width: image.width as int,
            height: image.height as int,
            canvas: image.reconstruction(),
        }),
{
    let scene = image.scene();
    let n = image.count();
    lemma_scene_wf(image);
    assert(0 <= n) by (nonlinear_arith)
        requires
            0 <= scene.mbw,
            0 <= scene.mbh,
            n == scene.mbw * scene.mbh,
    ;
    let fresh = Coder::fresh();
    let bits = image.header_bits(1);
    let header = fresh.write_all(bits).flushed();
    let token_bits = frame_token_bits(image, n);
    let tokens = fresh.write_all(token_bits).flushed();
    assert(seq![fresh].len() == 1);
    lemma_one_partition(image, n);
    let parts = flushed_parts(image.partitions(seq![fresh]));
    assert(parts =~= seq![tokens]);
    assert(partition_bytes(parts) =~= tokens);
    assert(image.encoded() == uncompressed_header(
        0,
        true,
        image.width,
        image.height,
        header.len() as int,
    ) + header + tokens);
    lemma_layout(image.width, image.height, header, tokens);

    let h = image.frame_header(1);
    let r = Reader::open(header);
    let t = Reader::open(tokens);
    lemma_follows_written(bits);
    lemma_follows_written(token_bits);
    lemma_follows_concat(r, frame_header_bits(h), mode_bits(image, n));
    lemma_readable(image);
    lemma_read_header(r, h);
    let headers = after(r, frame_header_bits(h));
    lemma_decode_macroblocks(image, h, headers, t, n);
    let end = decoding_at(image, headers, t, n);
    lemma_decisions_prefix(scene, image.start(), n, n);
    if h.filter_level != 0 {
        let frame = Scene {
            mbw: scene.mbw,
            mbh: scene.mbh,
            ybuf: Seq::empty(),
            ubuf: Seq::empty(),
            vbuf: Seq::empty(),
            segments: h.segments,
            ids: Seq::empty(),
        };
        let x = end.ds;
        let y = image.completed();
        assert forall|j: int| 0 <= j < n implies filtered_alike(#[trigger] x[j], y[j]) by {
            assert(x[j] == seen_decision(image, j));
            assert(y[j] == completed(scene, image.start(), image.decisions(), j));
        }
        lemma_filtered_alike(
            frame,
            scene,
            image.filter_settings(),
            x,
            y,
            end.walk.canvas,
            n,
        );
        if n > 0 {
            assert(scene.mbw >= 1) by (nonlinear_arith)
                requires
                    0 <= scene.mbw,
                    scene.mbw * scene.mbh > 0,
            ;
            lemma_frame_smoothed(frame, image.filter_settings(), x, end.walk.canvas, n);
        }
    }
}

/// The first ten bytes of a frame.
proof fn lemma_start(width: u16, height: u16, header: Seq<u8>, tokens: Seq<u8>)
    requires
        header.len() < MAX_HEADER_SIZE,
    ensures
        ({
            let bytes = uncompressed_header(0, true, width, height, header.len() as int) + header
                + tokens;
            &&& starts_frame(bytes)
            &&& le16(bytes, 6) == width % 0x4000
            &&& le16(bytes, 8) == height % 0x4000
        }),
{
    let (w, h) = ((width % 0x4000) as u16, (height % 0x4000) as u16);
    let n = header.len() as int;
    lemma_layout(w, h, header, tokens);
    assert(w as int % 0x4000 == width as int % 0x4000);
    assert(h as int % 0x4000 == height as int % 0x4000);
    assert(uncompressed_header(0, true, w, h, n) == uncompressed_header(0, true, width, height, n));
}

/// How every frame starts. Of a dimension only the lower 14 bits are kept.
pub proof fn law_frame_starts_with_its_dimensions(image: Image)
    requires
        image.encodable(),
    ensures
        starts_frame(image.encoded()),
        le16(image.encoded(), 6) == image.width % 0x4000,
        le16(image.encoded(), 8) == image.height % 0x4000,
{
    let header = Coder::fresh().write_all(image.header_bits(1)).flushed();
    assert(seq![Coder::fresh()].len() == 1);
    let tokens = partition_bytes(flushed_parts(image.partitions(seq![Coder::fresh()])));
    lemma_start(image.width, image.height, header, tokens);
}

/// A frame can be encoded exactly if the size of its first part fits in 19 bits.
pub proof fn law_encodable_if_the_header_fits(image: Image)
    ensures
        image.encodable() <==> Coder::fresh().write_all(image.header_bits(1)).flushed().len()
            < 524288,
{
    assert(seq![Coder::fresh()].len() == 1);
    let parts = flushed_parts(image.partitions(seq![Coder::fresh()]));
    lemma_partitions_len(
        image.scene(),
        image.start(),
        image.first(),
        image.decisions(),
        image.token_probs(),
        seq![Coder::fresh()],
        image.count(),
    );
    assert(parts.len() == 1);
}

} // verus!
