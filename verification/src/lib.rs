//! Verified index, layout and ranking logic of the LexRank pipeline.
//!
//! The numeric kernels (cosine similarities, soft-max, power iteration) work on
//! `f32` values; the code here is the part of the pipeline that does not: how
//! flat buffers are cut into rows and SIMD lanes, how a square matrix is
//! mirrored or transposed, how input shapes are validated, how raw
//! little-endian bytes become 32-bit words, and how sentences are ranked by
//! their scores.
pub mod bytes;
pub mod ieee;
pub mod layout;
pub mod ranking;
pub mod shape;
pub mod split_data;
pub mod tensor;
