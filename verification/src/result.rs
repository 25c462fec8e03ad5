//! Failure categories shared by every layer of the codec.

use vstd::prelude::*;

verus! {

/// The category of a codec failure.
#[derive(Debug, Clone, Copy, PartialEq, Eq, Structural)]
pub enum ErrorKind {
    /// A variable-length integer was given, or would compute to, a value
    /// above 2^62 - 1.
    ValueExceedsMaximum,
    /// The buffer ended in the middle of a field.
    Truncated,
    /// A frame was malformed: unknown type, impossible ACK range, invalid
    /// connection-id length, a retire threshold above its sequence number,
    /// or a reason phrase that is not UTF-8.
    FrameEncodingError,
    /// A CRYPTO frame's offset plus length exceeded 2^62 - 1.
    CryptoBufferExceeded,
    /// Reserved for invariants owed to the layer above the codec.
    ProtocolViolation,
    /// A header exceeded its defensive length bound.
    LengthBoundExceeded,
}

/// A codec failure: a category together with a diagnostic message.
#[derive(Debug, Clone)]
pub struct QuicheError {
    pub kind: ErrorKind,
    pub message: String,
}

pub type QuicheResult<T> = Result<T, QuicheError>;

impl QuicheError {
    pub fn new(kind: ErrorKind, message: &str) -> (r: Self)
        ensures
            r.kind == kind,
    {
        QuicheError { kind, message: message.to_owned() }
    }
}

/// Returns `Ok` exactly when `cond` holds, and otherwise the given failure.
pub fn require(cond: bool, kind: ErrorKind, message: &str) -> (r: QuicheResult<()>)
    ensures
        r is Ok <==> cond,
        !cond ==> r->Err_0.kind == kind,
{
    if cond {
        Ok(())
    } else {
        Err(QuicheError::new(kind, message))
    }
}

} // verus!
