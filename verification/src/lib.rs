//! Run-length encoding in several variants, each with a verified contract.
//!
//! - [`basic`]: runs as `(count, byte)` pairs, and a compact two-bytes-per-run form.
//! - [`packbits`]: the PackBits format of Apple and TIFF.
//! - [`bitmap`]: alternating run lengths for rows of 1-bit pixels.
//! - [`encode`] and [`decode`]: one entry point per variant.
pub mod basic;
pub mod packbits;
pub mod bitmap;
pub mod encode;
pub mod decode;
