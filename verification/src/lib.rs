//! A lossy grayscale compression pipeline: a whole-grid 2D discrete cosine
//! transform, quantization against a fixed perceptual table, and the inverse
//! transform.
//!
//! All grid arithmetic is exact fixed-point arithmetic over scaled integers
//! (see [`arith::SCALE`]), so every stage carries a contract that pins its
//! result down: the transforms state the exact double summation each output
//! cell holds, and the quantizer states the exact rounded quotient. The
//! cosine and normalization tables the transforms are evaluated against are
//! plain data, validated on construction ([`dct::DctBasis::new`]).

pub mod arith;
pub mod grid;
pub mod quant;
pub mod dct;
pub mod pipeline;
