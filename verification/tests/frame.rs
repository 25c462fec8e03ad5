use mini_quiche::bits::BitsExt;
use mini_quiche::frame::{Frame, StreamType};
use mini_quiche::result::ErrorKind;
use mini_quiche::types::{ConnectionId, SingleBit};
use mini_quiche::varint::VarInt;

struct Lcg(u64);

impl Lcg {
    fn new() -> Self {
        Lcg(0x123456789ABCDEF)
    }

    fn rand(&mut self, modulus: u128) -> u8 {
        if modulus == 0 {
            return 0;
        }
        self.0 = self.0.wrapping_mul(6364136223846793005).wrapping_add(1442695040888963407);
        (((self.0 >> 32) as u128) % modulus) as u8
    }
}

pub fn generate_random_frame(lcg: &mut Lcg) -> Frame {
    let ty = lcg.rand(31);
    match ty {
        0x00 => Frame::Padding,
        0x01 => Frame::Ping,
        0x02 => {
            let largest_acknowledged = VarInt::new_u32(lcg.rand(1000) as u32);
            let ack_delay = VarInt::new_u32(7);
            let ack_range_count = VarInt::new_u32(4);
            let first_ack_range =
                VarInt::new_u32(lcg.rand((largest_acknowledged.to_inner() + 1) as u128) as u32);

            let mut remaining = largest_acknowledged.sub(&first_ack_range).unwrap();
            if remaining.lt(&VarInt::new_u32(8)) {
                return Frame::Ack {
                    largest_acknowledged,
                    ack_delay,
                    ack_range_count: VarInt::new_u32(0),
                    first_ack_range,
                    ack_ranges: vec![],
                };
            }

            let mut ack_ranges: Vec<(VarInt, VarInt)> = Vec::new();
            for _ in 0..ack_range_count.to_inner() {
                let gap = if remaining.to_inner() > 2 {
                    let max_gap = remaining.to_inner() - 2;
                    VarInt::new_u32(lcg.rand((max_gap + 1) as u128) as u32)
                } else {
                    VarInt::zero()
                };

                remaining = if gap.to_inner() + 2 < remaining.to_inner() {
                    remaining.sub(&gap.addn(2).unwrap()).unwrap()
                } else {
                    VarInt::zero()
                };

                let ack_range_length = if remaining.to_inner() > 0 {
                    VarInt::new_u32(lcg.rand((remaining.to_inner() + 1) as u128) as u32)
                } else {
                    VarInt::zero()
                };

                remaining = if ack_range_length.to_inner() < remaining.to_inner() {
                    remaining.sub(&ack_range_length).unwrap()
                } else {
                    VarInt::zero()
                };

                if gap.to_inner() == 0 && ack_range_length.to_inner() == 0 {
                    break;
                }
                ack_ranges.push((gap, ack_range_length));
            }

            let actual_ack_range_count = VarInt::new_u32(ack_ranges.len() as u32);

            Frame::Ack {
                largest_acknowledged,
                ack_delay,
                ack_range_count: actual_ack_range_count,
                first_ack_range,
                ack_ranges,
            }
        }
        0x03 => {
            let largest_acknowledged = VarInt::new_u32(lcg.rand(1000) as u32);
            let ack_delay = VarInt::new_u32(7);
            let first_ack_range =
                VarInt::new_u32(lcg.rand((largest_acknowledged.to_inner() + 1) as u128) as u32);
            let ect0_count = VarInt::new_u32(7);
            let ect1_count = VarInt::new_u32(7);
            let ecn_ce_count = VarInt::new_u32(7);

            if largest_acknowledged
                .sub(&first_ack_range)
                .unwrap()
                .lt(&VarInt::new_u32(8))
            {
                return Frame::AckEcn {
                    largest_acknowledged,
                    ack_delay,
                    ack_range_count: VarInt::new_u32(0),
                    first_ack_range,
                    ack_ranges: vec![],
                    ect0_count,
                    ect1_count,
                    ecn_ce_count,
                };
            }

            let mut remaining = largest_acknowledged.sub(&first_ack_range).unwrap();
            let mut ack_ranges = Vec::new();

            while remaining.to_inner() > 0 {
                if ack_ranges.len() >= 4 {
                    break;
                }

                let max_gap = if remaining.to_inner() > 2 {
                    remaining.to_inner() - 2
                } else {
                    0
                };
                let gap = VarInt::new_u32(lcg.rand((max_gap + 1) as u128) as u32);

                if gap.to_inner() + 2 >= remaining.to_inner() {
                    break;
                }

                remaining = remaining.sub(&gap.addn(2).unwrap()).unwrap();

                let max_ack_range_length = remaining.to_inner();
                let ack_range_length =
                    VarInt::new_u32(lcg.rand((max_ack_range_length + 1) as u128) as u32);

                remaining = if ack_range_length.to_inner() < remaining.to_inner() {
                    remaining.sub(&ack_range_length).unwrap()
                } else {
                    VarInt::zero()
                };

                ack_ranges.push((gap, ack_range_length));
            }

            Frame::AckEcn {
                largest_acknowledged,
                ack_delay,
                ack_range_count: VarInt::new_u32(ack_ranges.len() as u32),
                first_ack_range,
                ack_ranges,
                ect0_count,
                ect1_count,
                ecn_ce_count,
            }
        }
        0x04 => Frame::ResetStream {
            stream_id: VarInt::new_u32(lcg.rand(255) as u32),
            application_protocol_error_code: VarInt::new_u32(lcg.rand(255) as u32),
            final_size: VarInt::new_u32(lcg.rand(255) as u32),
        },
        0x05 => Frame::StopSending {
            stream_id: VarInt::new_u32(lcg.rand(255) as u32),
            application_protocol_error_code: VarInt::new_u32(lcg.rand(255) as u32),
        },
        0x06 => {
            let offset = VarInt::new_u32(lcg.rand(255) as u32);
            let crypto_length = VarInt::new_u32(65);
            let mut crypto_data = Vec::with_capacity(crypto_length.usize());
            for _ in 0..crypto_length.to_inner() {
                crypto_data.push(lcg.rand(255));
            }
            Frame::Crypto {
                offset,
                crypto_length,
                crypto_data,
            }
        }
        0x07 => {
            let token_length = VarInt::new_u32(65);
            let mut token = Vec::with_capacity(token_length.usize());
            for _ in 0..token_length.to_inner() {
                token.push(lcg.rand(255));
            }
            Frame::NewToken {
                token_length,
                token,
            }
        }
        stream_ty @ 0x08..=0x0f => {
            let stream_id = VarInt::new_u32(lcg.rand(1_000_000) as u32);
            let offset = if (stream_ty & 0x04) != 0 {
                VarInt::new_u32(lcg.rand(1_000) as u32)
            } else {
                VarInt::default()
            };

            let length = if (stream_ty & 0x02) != 0 {
                VarInt::new_u32(lcg.rand(1024) as u32)
            } else {
                VarInt::default()
            };

            let fin = if (stream_ty & 0x01) != 0 {
                SingleBit::one()
            } else {
                SingleBit::zero()
            };

            let stream_data = if length.to_inner() > 0 {
                (0..length.to_inner()).map(|_| lcg.rand(256)).collect()
            } else {
                let b = lcg.rand(256);
                vec![b; 64]
            };

            Frame::Stream {
                stream_id,
                offset,
                length,
                fin,
                stream_data,
            }
        }
        0x10 => Frame::MaxData(VarInt::new_u32(lcg.rand(255) as u32)),
        0x11 => Frame::MaxStreamData {
            stream_id: VarInt::new_u32(lcg.rand(255) as u32),
            max_stream_data: VarInt::new_u32(lcg.rand(255) as u32),
        },
        0x12 => Frame::MaxStreams {
            stream_type: StreamType::Bidirectional,
            max_streams: VarInt::new_u32(lcg.rand(255) as u32),
        },
        0x13 => Frame::MaxStreams {
            stream_type: StreamType::Unidirectional,
            max_streams: VarInt::new_u32(lcg.rand(255) as u32),
        },
        0x14 => Frame::DataBlocked(VarInt::new_u32(lcg.rand(255) as u32)),
        0x15 => Frame::StreamDataBlocked {
            stream_id: VarInt::new_u32(lcg.rand(255) as u32),
            stream_data_limit: VarInt::new_u32(lcg.rand(255) as u32),
        },
        0x16 => Frame::StreamsBlocked {
            stream_type: StreamType::Bidirectional,
            max_streams: VarInt::new_u32(lcg.rand(255) as u32),
        },
        0x17 => Frame::StreamsBlocked {
            stream_type: StreamType::Unidirectional,
            max_streams: VarInt::new_u32(lcg.rand(255) as u32),
        },
        0x18 => {
            let sequence_number = VarInt::new_u32(lcg.rand(255) as u32);
            let retire_prior_to =
                VarInt::new_u32(lcg.rand(sequence_number.to_inner() as u128) as u32);
            let cid_len = lcg.rand(20) + 1;
            let mut cid = Vec::with_capacity(cid_len as usize);
            for _ in 0..cid_len {
                cid.push(lcg.rand(255));
            }
            let mut stateless_reset_token = [0; 16];
            for i in 0..16 {
                stateless_reset_token[i] = lcg.rand(255);
            }
            Frame::NewConnectionId {
                sequence_number,
                retire_prior_to,
                connection_id: ConnectionId::new(cid_len, cid),
                stateless_reset_token,
            }
        }
        0x19 => Frame::RetireConnectionId(VarInt::new_u32(lcg.rand(255) as u32)),
        0x1a => {
            let mut challenge = [0; 8];
            for i in 0..8 {
                challenge[i] = lcg.rand(255);
            }
            Frame::PathChallenge(challenge)
        }
        0x1b => {
            let mut response = [0; 8];
            for i in 0..8 {
                response[i] = lcg.rand(255);
            }
            Frame::PathResponse(response)
        }
        0x1c => {
            let error_code: u16 = match lcg.rand(2) {
                0 => lcg.rand(0x11) as u16,
                1 => 0x0100 + lcg.rand(0x0100) as u16,
                _ => unreachable!(),
            };
            let frame_type = lcg.rand(31);
            let reason_phrase_length = VarInt::new_u32(lcg.rand(1948) as u32);
            let mut reason_phrase = Vec::with_capacity(reason_phrase_length.usize());
            for _ in 0..reason_phrase_length.to_inner() {
                let valid_char = lcg.rand(95) + 32;
                reason_phrase.push(valid_char);
            }
            Frame::ConnectionClose {
                error_code: VarInt::new_u64(error_code as u64).unwrap(),
                frame_type: Some(frame_type),
                reason_phrase_length,
                reason_phrase: String::from_utf8(reason_phrase).unwrap(),
            }
        }
        0x1d => {
            let error_code = match lcg.rand(2) {
                0 => {
                    let temp = lcg.rand(0x00EF) as u16;
                    if temp >= 0xEF {
                        temp + 0x0110
                    } else {
                        temp + 0x11
                    }
                }
                1 => 0x0200 + lcg.rand((u64::MAX - 0x0200).into()) as u16,
                _ => unreachable!(),
            };
            let reason_phrase_length = VarInt::new_u32(lcg.rand(1948) as u32);
            let mut reason_phrase = Vec::with_capacity(reason_phrase_length.usize());
            for _ in 0..reason_phrase_length.to_inner() {
                let valid_char = lcg.rand(95) + 32;
                reason_phrase.push(valid_char);
            }
            Frame::ConnectionClose {
                error_code: VarInt::new_u64(error_code as u64).unwrap(),
                frame_type: None,
                reason_phrase_length,
                reason_phrase: String::from_utf8(reason_phrase).unwrap(),
            }
        }
        0x1e => Frame::HandshakeDone,
        _ => unreachable!(),
    }
}

#[test]
fn test_frame() {
    let num_frames = 1_000_000;
    let mut lcg = Lcg::new();
    for _ in 0..num_frames {
        let frame = generate_random_frame(&mut lcg);
        let encoded = frame.encode();
        let decoded = Frame::decode(&mut encoded.clone()).unwrap();
        assert_eq!(frame, decoded, "frame ty: {}", frame.ty().to_inner());
    }
}

// `PADDING` frame: `encode() == [0x00]`; `decode([0x00]) == Padding`
#[test]
fn test_padding_wire_form() {
    assert_eq!(Frame::Padding.encode(), vec![0x00]);
    let mut buf = vec![0x00];
    assert_eq!(Frame::decode(&mut buf).unwrap(), Frame::Padding);
    assert!(buf.is_empty());
}

// `PING` then `HANDSHAKE_DONE` in one buffer decode in order, leaving it empty
#[test]
fn test_ping_then_handshake_done() {
    let mut buf = vec![0x01, 0x1e];
    assert_eq!(Frame::decode(&mut buf).unwrap(), Frame::Ping);
    assert_eq!(Frame::decode(&mut buf).unwrap(), Frame::HandshakeDone);
    assert!(buf.is_empty());
}

#[test]
fn test_unknown_type_rejected() {
    let err = Frame::decode(&mut vec![0x1f]).unwrap_err();
    assert_eq!(err.kind, ErrorKind::FrameEncodingError);
    let err = Frame::decode(&mut vec![0xab]).unwrap_err();
    assert_eq!(err.kind, ErrorKind::FrameEncodingError);
}

#[test]
fn test_ack_range_validation_rejects_impossible_gap() {
    // largest 10, delay 0, one range, first range 0, then gap 9:
    // gap + 2 exceeds the 10 packet numbers that remain
    let mut buf = vec![0x02, 0x0a, 0x00, 0x01, 0x00, 0x09, 0x00];
    let err = Frame::decode(&mut buf).unwrap_err();
    assert_eq!(err.kind, ErrorKind::FrameEncodingError);
}

#[test]
fn test_ack_range_validation_rejects_impossible_length() {
    // largest 10, first range 2 leaves 8; gap 1 leaves 5; length 6 overruns
    let mut buf = vec![0x02, 0x0a, 0x00, 0x01, 0x02, 0x01, 0x06];
    let err = Frame::decode(&mut buf).unwrap_err();
    assert_eq!(err.kind, ErrorKind::FrameEncodingError);
}

#[test]
fn test_ack_negative_first_range_rejected() {
    // first ack range 5 exceeds largest acknowledged 3
    let mut buf = vec![0x02, 0x03, 0x00, 0x00, 0x05];
    let err = Frame::decode(&mut buf).unwrap_err();
    assert_eq!(err.kind, ErrorKind::FrameEncodingError);
}

#[test]
fn test_crypto_buffer_exceeded() {
    // offset at the maximum plus a length of one
    let mut buf = vec![0x06, 0xff, 0xff, 0xff, 0xff, 0xff, 0xff, 0xff, 0xff, 0x01, 0xaa];
    let err = Frame::decode(&mut buf).unwrap_err();
    assert_eq!(err.kind, ErrorKind::CryptoBufferExceeded);
}

#[test]
fn test_new_connection_id_checks() {
    // zero-length connection id
    let mut buf = vec![0x18, 0x00, 0x00, 0x00];
    let err = Frame::decode(&mut buf).unwrap_err();
    assert_eq!(err.kind, ErrorKind::FrameEncodingError);
    // retire threshold 5 above sequence number 1
    let mut buf = vec![0x18, 0x01, 0x05, 0x01];
    let err = Frame::decode(&mut buf).unwrap_err();
    assert_eq!(err.kind, ErrorKind::FrameEncodingError);
}

#[test]
fn test_bad_utf8_reason_rejected() {
    // application close, error code 0, one reason byte that is not UTF-8
    let mut buf = vec![0x1d, 0x00, 0x01, 0xff];
    let err = Frame::decode(&mut buf).unwrap_err();
    assert_eq!(err.kind, ErrorKind::FrameEncodingError);
}

#[test]
fn test_truncated_frame() {
    // STOP_SENDING with its fields missing entirely still reads zeros
    // from the empty tail, so use a two-byte varint cut short instead
    let mut buf = vec![0x05, 0x41];
    let err = Frame::decode(&mut buf).unwrap_err();
    assert_eq!(err.kind, ErrorKind::Truncated);
    let mut buf = vec![0x1a, 0x00, 0x01];
    let err = Frame::decode(&mut buf).unwrap_err();
    assert_eq!(err.kind, ErrorKind::Truncated);
}

#[test]
fn test_stream_flags_round_trip() {
    for flags in 0u8..8 {
        let frame = Frame::Stream {
            stream_id: VarInt::new_u32(9),
            offset: if flags & 0x04 != 0 {
                VarInt::new_u32(77)
            } else {
                VarInt::new_u32(0)
            },
            length: if flags & 0x02 != 0 {
                VarInt::new_u32(3)
            } else {
                VarInt::new_u32(0)
            },
            fin: if flags & 0x01 != 0 {
                SingleBit::one()
            } else {
                SingleBit::zero()
            },
            stream_data: vec![1, 2, 3],
        };
        let encoded = frame.encode();
        let expected_ty = 0x08
            | (flags & 0x01)
            | (if flags & 0x02 != 0 { 0x02 } else { 0 })
            | (if flags & 0x04 != 0 { 0x04 } else { 0 });
        assert_eq!(encoded[0], expected_ty);
        let decoded = Frame::decode(&mut encoded.clone()).unwrap();
        assert_eq!(frame, decoded);
    }
}
