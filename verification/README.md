# webp_lossy

A verified encoder of lossy WebP frames (VP8 key frames), written in Rust and
proved with Verus.

* `src/` is the library. Every function has a contract, and Verus proves it. The
  two calls into byteorder-lite, in `output.rs`, are trusted.
* `tests/` runs the library: against expected bytes, against a decoder of its
  own, and against libwebp.
* `app/` writes frames to any byte sink.

## Where to start

* `lossy.rs` has the entry points: `encode_frame_lossy` and
  `Vp8Encoder::encode_image`.
* `frame.rs` states what the frame of an image is (`Image`): its bytes, and the
  pixels that a decoder shows.
* `model.rs` and `passes.rs` describe the mode decision, the reconstruction and
  the passes over the macroblocks on mathematical values. The executable
  modules (`reconstruct.rs`, `decide.rs`, `pipeline.rs`, `coding.rs`, ...) are
  proved against them.
* `arithmetic_encoder.rs` is the entropy coder, `roundtrip.rs` its inverse.
* `decoder.rs` describes a decoder and proves the central law: decoding the
  bytes of a frame gives exactly the pixels that the encoder has reconstructed.
* `search.rs` and `skipping.rs` prove that what the mode search measures is what
  is coded, and `counting.rs` that the token statistics are those of the bits
  that are written.
* `laws.rs` and `sizes.rs` hold what else is true of the encoder as a whole.

Costs are compared as IEEE doubles; `binary64.rs` implements the arithmetic that
this takes on integers, bit for bit.
