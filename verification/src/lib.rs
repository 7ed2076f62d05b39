//! LSB steganography: hide a byte message in the least-significant bits of
//! the channel values of an RGB pixel grid, and reveal it again.
//!
//! The message's bits, followed by a fixed six-byte marker, are written one
//! bit per channel, pixels in row-major order and channels in red, green,
//! blue order. Revealing reads the same stream back and stops at the first
//! point where the bytes assembled so far end with the marker.

pub mod bit_iter;
pub mod grid;
pub mod stego;
