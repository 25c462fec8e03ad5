//! The shape shared by everything this crate puts on the wire.

use crate::result::QuicheResult;
use vstd::prelude::*;

verus! {

/// An encoder-decoder pair: a value becomes bytes, and bytes at the
/// front of a buffer become a value.
pub trait Coder: Sized {
    fn encode(&self) -> QuicheResult<Vec<u8>>;

    fn decode(bytes: &mut Vec<u8>) -> QuicheResult<Self>;
}

} // verus!
