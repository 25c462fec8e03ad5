use mini_quiche::bits::BitsExt;
use mini_quiche::frame::{Frame, FrameType, StreamType};
use mini_quiche::header::{Header, LongHeader, LongHeaderExtension, ShortHeader};
use mini_quiche::packet::Packet;
use mini_quiche::types::{ConnectionId, FourBits, HeaderForm, LongPacketType, PacketNumber,
    SingleBit, TwoBits};
use mini_quiche::varint::VarInt;

struct Lcg(u64);

impl Lcg {
    fn new() -> Self {
        Lcg(0x123456789ABCDEF)
    }

    fn rand(&mut self, modulus: u128) -> u8 {
        if modulus == 0 {
            return 0;
        }
        self.0 = self.0.wrapping_mul(6364136223846793005).wrapping_add(1442695040888963407);
        (((self.0 >> 32) as u128) % modulus) as u8
    }
}

fn generate_random_long_header(lcg: &mut Lcg) -> Header {
    // 0 initial, 1 retry, 2 zero-rtt or handshake, 3 version negotiate
    let header_type = lcg.rand(4);

    let long_packet_type = match header_type {
        0 => LongPacketType::initial(),
        1 => LongPacketType::retry(),
        2 => {
            if lcg.rand(2) == 0 {
                LongPacketType::zero_rtt()
            } else {
                LongPacketType::handshake()
            }
        }
        3 => LongPacketType::zero(),
        _ => unreachable!("header_type should be 0, 1, 2, 3"),
    };

    let fixed_bit = match header_type {
        3 => SingleBit::zero(),
        _ => SingleBit::one(),
    };

    let extension = match header_type {
        0 => {
            let token_len = lcg.rand(20);
            let token: Vec<u8> = (0..token_len).map(|_| lcg.rand(256)).collect();
            LongHeaderExtension::Initial {
                token_length: VarInt::new_u32(token_len as u32),
                token,
                length: VarInt::new_u32(lcg.rand(2).into()),
                packet_number: PacketNumber(VarInt::new_u32(lcg.rand(32) as u32)),
            }
        }
        1 => LongHeaderExtension::Retry {
            retry_token: (0..lcg.rand(20)).map(|_| lcg.rand(256)).collect(),
            retry_integrity_tag: {
                let mut tag = [0u8; 16];
                for b in tag.iter_mut() {
                    *b = lcg.rand(256);
                }
                tag
            },
        },
        2 => {
            let length = VarInt::new_u32(lcg.rand(2).into());
            let packet_number = PacketNumber(VarInt::new_u32(lcg.rand(32) as u32));
            if long_packet_type.to_inner() == 1 {
                LongHeaderExtension::ZeroRTT { length, packet_number }
            } else {
                LongHeaderExtension::Handshake { length, packet_number }
            }
        }
        3 => LongHeaderExtension::VersionNegotiation {
            supported_versions: vec![
                lcg.rand(32).into(),
                lcg.rand(32).into(),
                lcg.rand(32).into(),
                lcg.rand(32).into(),
            ],
        },
        _ => unreachable!("header_type should be 0, 1, 2, 3"),
    };

    let type_specific_bits = FourBits::from_num(lcg.rand(16));
    let version_id = lcg.rand(32) as u32;
    let dst_cid_len = lcg.rand(20);
    let src_cid_len = lcg.rand(20);
    let dst_cid_data: Vec<u8> = (0..dst_cid_len).map(|_| lcg.rand(256)).collect();
    let src_cid_data: Vec<u8> = (0..src_cid_len).map(|_| lcg.rand(256)).collect();

    let header = LongHeader {
        header_form: HeaderForm::long(),
        fixed_bit,
        long_packet_type,
        type_specific_bits,
        version_id,
        dst_cid: ConnectionId::new(dst_cid_len, dst_cid_data),
        src_cid: ConnectionId::new(src_cid_len, src_cid_data),
        extension,
    };

    match header_type {
        0 => Header::Initial(header),
        1 => Header::Retry(header),
        2 => Header::Long(header),
        3 => Header::VersionNegotiate(header),
        _ => unreachable!(),
    }
}

fn generate_random_short_header(lcg: &mut Lcg) -> Header {
    let number_len = TwoBits::from_num(lcg.rand(3));
    let dst_cid_len = lcg.rand(19);
    let dst_cid_data: Vec<u8> = (0..dst_cid_len).map(|_| lcg.rand(256)).collect();
    let number: Vec<u8> = (0..number_len.to_inner() + 1).map(|_| lcg.rand(256)).collect();

    Header::Short(ShortHeader {
        header_form: HeaderForm::short(),
        fixed_bit: SingleBit::from_num(lcg.rand(2)),
        spin_bit: SingleBit::from_num(lcg.rand(2)),
        reserved_bits: TwoBits::from_num(lcg.rand(4)),
        key_phase: SingleBit::from_num(lcg.rand(2)),
        number_len,
        dst_cid: ConnectionId::new(dst_cid_len, dst_cid_data),
        number,
    })
}

fn generate_random_frame(lcg: &mut Lcg) -> Frame {
    // a small mix of frame shapes that long and short packets may carry
    match lcg.rand(8) {
        0 => Frame::Padding,
        1 => Frame::Ping,
        2 => Frame::Crypto {
            offset: VarInt::new_u32(lcg.rand(255) as u32),
            crypto_length: VarInt::new_u32(5),
            crypto_data: (0..5).map(|_| lcg.rand(256)).collect(),
        },
        3 => Frame::MaxData(VarInt::new_u32(lcg.rand(255) as u32)),
        4 => Frame::ConnectionClose {
            error_code: VarInt::new_u32(lcg.rand(0x11) as u32),
            frame_type: Some(lcg.rand(31)),
            reason_phrase_length: VarInt::new_u32(4),
            reason_phrase: "oops".to_string(),
        },
        5 => Frame::Stream {
            stream_id: VarInt::new_u32(lcg.rand(255) as u32),
            offset: VarInt::new_u32(lcg.rand(100) as u32),
            length: VarInt::new_u32(3),
            fin: SingleBit::one(),
            stream_data: vec![lcg.rand(256), lcg.rand(256), lcg.rand(256)],
        },
        6 => Frame::MaxStreams {
            stream_type: StreamType::Bidirectional,
            max_streams: VarInt::new_u32(lcg.rand(255) as u32),
        },
        7 => Frame::PathChallenge({
            let mut data = [0u8; 8];
            for b in data.iter_mut() {
                *b = lcg.rand(256);
            }
            data
        }),
        _ => unreachable!(),
    }
}

// long header packets cannot carry stream, flow-control, connection-id,
// path or handshake-done frames
const PROHIBITED_LONG_HEADER_FRAMES: [u8; 13] = [
    FrameType::MAX_DATA,
    FrameType::MAX_STREAM_DATA,
    FrameType::MAX_STREAMS_BIDI,
    FrameType::MAX_STREAMS_UNI,
    FrameType::DATA_BLOCKED,
    FrameType::STREAM_DATA_BLOCKED,
    FrameType::STREAMS_BLOCKED_BIDI,
    FrameType::STREAMS_BLOCKED_UNI,
    FrameType::NEW_CONNECTION_ID,
    FrameType::RETIRE_CONNECTION_ID,
    FrameType::PATH_CHALLENGE,
    FrameType::PATH_RESPONSE,
    FrameType::HANDSHAKE_DONE,
];

// initial packets may only carry crypto, padding, close and ack frames
const ALLOWED_INITIAL_FRAMES: [u8; 5] = [
    FrameType::CRYPTO,
    FrameType::PADDING,
    FrameType::CONNECTION_CLOSE_APPLICATION,
    FrameType::ACK,
    FrameType::ACK_ECN,
];

fn generate_random_long_header_payload(lcg: &mut Lcg, len: usize, initial: bool) -> Vec<Frame> {
    let mut curr_size: usize = 0;
    let mut frames = Vec::new();
    let mut attempts = 0;
    while curr_size < len && attempts < 200 {
        attempts += 1;
        let frame = generate_random_frame(lcg);
        let ty = frame.ty().to_inner();
        if (0x08..=0x0f).contains(&ty) {
            continue;
        }
        if PROHIBITED_LONG_HEADER_FRAMES.contains(&ty) {
            continue;
        }
        if initial && !ALLOWED_INITIAL_FRAMES.contains(&ty) {
            continue;
        }
        let frame_size = frame.encode().len();
        if curr_size + frame_size > len {
            continue;
        }
        frames.push(frame);
        curr_size += frame_size;
    }
    while curr_size < len {
        frames.push(Frame::Padding);
        curr_size += 1;
    }
    frames
}

// short header packets cannot carry crypto or new-token frames
const PROHIBITED_SHORT_HEADER_FRAMES: [u8; 2] = [FrameType::CRYPTO, FrameType::NEW_TOKEN];

fn generate_random_short_header_payload(lcg: &mut Lcg, num_packets: u8) -> Vec<Frame> {
    let mut frames = Vec::new();
    for _ in 0..num_packets {
        let frame = generate_random_frame(lcg);
        if PROHIBITED_SHORT_HEADER_FRAMES.contains(&frame.ty().to_inner()) {
            continue;
        }
        let must_be_last = matches!(
            &frame,
            Frame::Stream { length, .. } if length.to_inner() == 0
        );
        if must_be_last {
            break;
        }
        frames.push(frame);
    }
    frames
}

#[test]
fn test_long_packet() {
    let original_initial_packet = Packet::initial(
        1,
        ConnectionId::new(8, vec![0; 8]),
        ConnectionId::new(8, vec![0; 8]),
        FourBits::from_num(3),
        VarInt::new_u32(8),
        vec![1, 0, 1, 0, 1, 0, 1, 0],
        VarInt::new_u32(12),
        PacketNumber(VarInt::new_u32(8)),
        vec![Frame::Crypto {
            offset: VarInt::new_u32(2),
            crypto_length: VarInt::new_u32(10),
            crypto_data: vec![1, 0, 1, 0, 1, 0, 1, 0, 1, 0],
        }],
    );

    let mut initial_packet_bytes = original_initial_packet.encode().unwrap();

    let reconstructed_initial_packet = Packet::decode(&mut initial_packet_bytes).unwrap();

    assert_eq!(original_initial_packet, reconstructed_initial_packet);

    let num_packets = 10;
    let mut lcg = Lcg::new();
    for _ in 0..num_packets {
        let header = generate_random_long_header(&mut lcg);
        let payload = match &header {
            Header::Retry(_) | Header::VersionNegotiate(_) => Vec::new(),
            Header::Initial(_) => {
                let budget = lcg.rand(40) as usize;
                generate_random_long_header_payload(&mut lcg, budget, true)
            }
            _ => {
                let budget = lcg.rand(40) as usize;
                generate_random_long_header_payload(&mut lcg, budget, false)
            }
        };
        let packet = Packet { header, payload };
        let mut packet_bytes = packet.encode().unwrap();
        let reconstructed_packet = Packet::decode(&mut packet_bytes).unwrap();
        assert_eq!(packet, reconstructed_packet);
    }
}

#[test]
fn test_short_packet() {
    let original_short_packet = Packet::short_header(
        SingleBit::zero(),
        TwoBits::zero(),
        SingleBit::one(),
        TwoBits::from_num(3),
        ConnectionId::new(8, vec![0; 8]),
        vec![0, 1, 0, 1],
        vec![Frame::Ping, Frame::Padding, Frame::Padding, Frame::Padding],
    );

    let mut short_packet_bytes = original_short_packet.encode().unwrap();

    let reconstructed_short_packet = Packet::decode(&mut short_packet_bytes).unwrap();

    assert_eq!(original_short_packet, reconstructed_short_packet);

    let num_packets = 10_000;
    let mut lcg = Lcg::new();
    for _ in 0..num_packets {
        let header = generate_random_short_header(&mut lcg);
        let n = lcg.rand(14) + 1;
        let payload = generate_random_short_header_payload(&mut lcg, n);
        let packet = Packet { header, payload };
        let mut packet_bytes = packet.encode().unwrap();
        let reconstructed_packet = Packet::decode(&mut packet_bytes).unwrap();
        assert_eq!(packet, reconstructed_packet);
    }
}

// Initial packet with version 1, empty token, length 4, packet number 8,
// a CRYPTO(offset 2, length 10) payload and 8-byte zero identifiers
// round-trips to itself
#[test]
fn test_initial_packet_scenario() {
    let packet = Packet::initial(
        1,
        ConnectionId::new(8, vec![0; 8]),
        ConnectionId::new(8, vec![0; 8]),
        FourBits::from_num(0),
        VarInt::new_u32(0),
        vec![],
        VarInt::new_u32(4),
        PacketNumber(VarInt::new_u32(8)),
        vec![Frame::Crypto {
            offset: VarInt::new_u32(2),
            crypto_length: VarInt::new_u32(10),
            crypto_data: vec![0x01, 0x00, 0x01, 0x00, 0x01, 0x00, 0x01, 0x00, 0x01, 0x00],
        }],
    );
    let mut bytes = packet.encode().unwrap();
    let decoded = Packet::decode(&mut bytes).unwrap();
    assert_eq!(packet, decoded);
}

// short packet with spin 0, reserved 00, key phase 1, four packet-number
// bytes, an 8-byte zero identifier and payload [Ping, Padding, Padding,
// Padding] round-trips to itself
#[test]
fn test_short_packet_scenario() {
    let packet = Packet::short_header(
        SingleBit::zero(),
        TwoBits::zero(),
        SingleBit::one(),
        TwoBits::from_num(3),
        ConnectionId::new(8, vec![0x00; 8]),
        vec![0, 1, 0, 1],
        vec![Frame::Ping, Frame::Padding, Frame::Padding, Frame::Padding],
    );
    let bytes = packet.encode().unwrap();
    assert_eq!(bytes[0], 0b0100_0111);
    let decoded = Packet::decode(&mut bytes.clone()).unwrap();
    assert_eq!(packet, decoded);
}

#[test]
fn test_contains_frames() {
    let mut lcg = Lcg::new();
    loop {
        let header = generate_random_long_header(&mut lcg);
        match &header {
            Header::Retry(_) | Header::VersionNegotiate(_) => {
                assert!(!Packet { header, payload: vec![] }.contains_frames());
                break;
            }
            _ => {
                assert!(Packet { header, payload: vec![] }.contains_frames());
            }
        }
    }
}

#[test]
fn test_trailing_garbage_rejected() {
    let packet = Packet::short_header(
        SingleBit::zero(),
        TwoBits::zero(),
        SingleBit::zero(),
        TwoBits::from_num(0),
        ConnectionId::new(0, vec![]),
        vec![7],
        vec![Frame::Ping],
    );
    let mut bytes = packet.encode().unwrap();
    // an unknown frame type at the tail of the payload
    bytes.push(0xfe);
    let err = Packet::decode(&mut bytes).unwrap_err();
    assert_eq!(err.kind, mini_quiche::result::ErrorKind::FrameEncodingError);
}
