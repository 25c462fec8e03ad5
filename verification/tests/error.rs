use mini_quiche::error::ProtocolError;
use mini_quiche::result::{require, ErrorKind};

#[test]
fn test_protocol_error_codes() {
    assert_eq!(ProtocolError::new_u16(0x00), ProtocolError::NoError);
    assert_eq!(ProtocolError::new_u16(0x07), ProtocolError::FrameEncodingError);
    assert_eq!(ProtocolError::new_u16(0x0d), ProtocolError::CryptoBufferExceeded);
    assert_eq!(ProtocolError::new_u16(0x10), ProtocolError::NoViablePath);
    assert_eq!(ProtocolError::new_u16(0x0150), ProtocolError::CryptoError(0x0150));
}

#[test]
fn test_is_protocol_error() {
    assert!(ProtocolError::is_protocol_error(0x00));
    assert!(ProtocolError::is_protocol_error(0x10));
    assert!(!ProtocolError::is_protocol_error(0x11));
    assert!(!ProtocolError::is_protocol_error(0xff));
    assert!(ProtocolError::is_protocol_error(0x0100));
    assert!(ProtocolError::is_protocol_error(0x01ff));
    assert!(!ProtocolError::is_protocol_error(0x0200));
}

#[test]
fn test_require() {
    assert!(require(true, ErrorKind::ProtocolViolation, "never seen").is_ok());
    let err = require(false, ErrorKind::ProtocolViolation, "always seen").unwrap_err();
    assert_eq!(err.kind, ErrorKind::ProtocolViolation);
    assert_eq!(err.message, "always seen");
}
