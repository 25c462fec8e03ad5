//! A byte-exact codec for the QUIC version 1 wire format: variable-length
//! integers, bit-packed header fields, frames, packet headers and whole
//! packets, with proofs that encoding and decoding are inverses.

pub mod bits;
pub mod coder;
pub mod error;
pub mod frame;
pub mod header;
pub mod packet;
pub mod result;
pub mod types;
pub mod varint;
pub mod wire;

use vstd::prelude::*;

verus! {

/// Protocol version identifier published by this crate.
pub const MINI_QUICHE_VERSION: u32 = 0b0000_0010;

} // verus!
