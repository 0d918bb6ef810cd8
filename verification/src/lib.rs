//! Perceptual image hashing: the algorithm layer.
//!
//! Given a flat buffer of grayscale luma samples (or, for the block-average
//! algorithm, raw pixel data), each hashing strategy derives a sequence of
//! boolean comparisons and packs it into a fixed-bit-order bit-set.

pub mod alg;
pub mod bits;
pub mod blockhash;
pub mod luma;
