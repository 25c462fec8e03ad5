//! The transport-error taxonomy of RFC 9000 section 20. These numeric
//! codes travel as the payload of CONNECTION_CLOSE frames; they are not
//! the codec's own failures, which live in `crate::result`.

use vstd::prelude::*;

verus! {

#[derive(Debug, PartialEq, Eq, Clone, Copy)]
pub enum ProtocolError {
    NoError,
    InternalError,
    ConnectionRefused,
    FlowControlError,
    StreamLimitError,
    StreamStateError,
    FinalSizeError,
    FrameEncodingError,
    TransportParameterError,
    ConnectionIdLimitError,
    ProtocolViolation,
    InvalidToken,
    ApplicationError,
    CryptoBufferExceeded,
    KeyUpdateError,
    AeadLimitReached,
    NoViablePath,
    CryptoError(u64),
}

impl ProtocolError {
    /// The numeric code a variant stands for.
    pub open spec fn code(self) -> u64 {
        match self {
            ProtocolError::NoError => 0x00,
            ProtocolError::InternalError => 0x01,
            ProtocolError::ConnectionRefused => 0x02,
            ProtocolError::FlowControlError => 0x03,
            ProtocolError::StreamLimitError => 0x04,
            ProtocolError::StreamStateError => 0x05,
            ProtocolError::FinalSizeError => 0x06,
            ProtocolError::FrameEncodingError => 0x07,
            ProtocolError::TransportParameterError => 0x08,
            ProtocolError::ConnectionIdLimitError => 0x09,
            ProtocolError::ProtocolViolation => 0x0a,
            ProtocolError::InvalidToken => 0x0b,
            ProtocolError::ApplicationError => 0x0c,
            ProtocolError::CryptoBufferExceeded => 0x0d,
            ProtocolError::KeyUpdateError => 0x0e,
            ProtocolError::AeadLimitReached => 0x0f,
            ProtocolError::NoViablePath => 0x10,
            ProtocolError::CryptoError(c) => c,
        }
    }

    /// Reads a transport-error variant back from its numeric code.
    pub fn new_u16(value: u64) -> (r: Self)
        requires
            value <= 0x10 || 0x0100 <= value <= 0x01ff,
        ensures
            r.code() == value,
            r is CryptoError <==> 0x0100 <= value <= 0x01ff,
    {
        if value == 0x00 {
            ProtocolError::NoError
        } else if value == 0x01 {
            ProtocolError::InternalError
        } else if value == 0x02 {
            ProtocolError::ConnectionRefused
        } else if value == 0x03 {
            ProtocolError::FlowControlError
        } else if value == 0x04 {
            ProtocolError::StreamLimitError
        } else if value == 0x05 {
            ProtocolError::StreamStateError
        } else if value == 0x06 {
            ProtocolError::FinalSizeError
        } else if value == 0x07 {
            ProtocolError::FrameEncodingError
        } else if value == 0x08 {
            ProtocolError::TransportParameterError
        } else if value == 0x09 {
            ProtocolError::ConnectionIdLimitError
        } else if value == 0x0a {
            ProtocolError::ProtocolViolation
        } else if value == 0x0b {
            ProtocolError::InvalidToken
        } else if value == 0x0c {
            ProtocolError::ApplicationError
        } else if value == 0x0d {
            ProtocolError::CryptoBufferExceeded
        } else if value == 0x0e {
            ProtocolError::KeyUpdateError
        } else if value == 0x0f {
            ProtocolError::AeadLimitReached
        } else if value == 0x10 {
            ProtocolError::NoViablePath
        } else {
            ProtocolError::CryptoError(value)
        }
    }

    /// True of the codes the transport taxonomy covers: the named codes
    /// up to 0x10 and the crypto range 0x0100 to 0x01ff.
    pub fn is_protocol_error(code: u64) -> (r: bool)
        ensures
            r == (code <= 0x10 || 0x0100 <= code <= 0x01ff),
    {
        code <= 0x10 || (0x0100 <= code && code <= 0x01ff)
    }
}

} // verus!
