//! A compact bit-packed boolean sequence ("bitmap") for use as a
//! validity/selection mask in a columnar data engine.
//!
//! Bits are stored LSB-first within each byte, over a shared, immutable,
//! reference-counted byte buffer. Cross-word algorithms view the buffer as a
//! sequence of little-endian 64-bit words.

pub mod bitmap;
pub mod bits;
pub mod buffer;
pub mod compute;
