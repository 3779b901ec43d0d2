//! Encoder of lossy WebP frames.
//!
//! [`lossy`] has the entry points, [`frame`] says what the frame of an image
//! is, and [`decoder`] proves that decoding it gives what the encoder has
//! reconstructed.
//!
//! The modules with laws say, without the functions of the encoder, what it
//! makes of an image: [`image_laws`] of its pixels and its quality,
//! [`source_laws`] of the differences that it codes, [`mode_laws`] and
//! [`subblock_laws`] of the modes that it chooses, [`choice_laws`] of its
//! segments and probabilities, and [`rounding_laws`] of its arithmetic.
pub mod arithmetic_encoder;
pub mod binary64;
pub mod blocks;
pub mod choice_laws;
pub mod coding;
pub mod common;
pub mod cost;
pub mod counting;
pub mod deblocking;
pub mod decide;
pub mod decoder;
pub mod decoding;
pub mod encoder;
pub mod filter;
pub mod frame;
pub mod frame_decoding;
pub mod header;
pub mod header_reading;
pub mod image_laws;
pub mod laws;
pub mod loop_filter;
pub mod lossy;
pub mod mode_laws;
pub mod mode_reading;
pub mod model;
pub mod output;
pub mod passes;
pub mod pipeline;
pub mod playback;
pub mod prediction;
pub mod probabilities;
pub mod quantize;
pub mod reading;
pub mod reconstruct;
pub mod residual;
pub mod residual_reading;
pub mod rounding_laws;
pub mod roundtrip;
pub mod search;
pub mod segments;
pub mod setup;
pub mod sizes;
pub mod skipping;
pub mod source_laws;
pub mod subblock_laws;
pub mod tables;
pub mod token_reading;
pub mod tokens;
pub mod transform;
pub mod trees;
pub mod viewing;
pub mod yuv;
