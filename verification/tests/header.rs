use mini_quiche::bits::BitsExt;
use mini_quiche::header::{Header, LongHeader, LongHeaderExtension, ShortHeader};
use mini_quiche::result::ErrorKind;
use mini_quiche::types::{ConnectionId, FourBits, HeaderForm, LongPacketType, PacketNumber,
    SingleBit, TwoBits};
use mini_quiche::varint::VarInt;

pub struct Lcg(u64);

impl Lcg {
    pub fn new() -> Self {
        Lcg(0x123456789ABCDEF)
    }

    pub fn rand(&mut self, modulus: u128) -> u8 {
        if modulus == 0 {
            return 0;
        }
        self.0 = self.0.wrapping_mul(6364136223846793005).wrapping_add(1442695040888963407);
        (((self.0 >> 32) as u128) % modulus) as u8
    }
}

pub fn generate_random_long_header(lcg: &mut Lcg) -> Header {
    // 0 initial, 1 retry, 2 zero-rtt or handshake, 3 version negotiate
    let header_type = lcg.rand(4);

    let long_packet_type = match header_type {
        0 => LongPacketType::initial(),
        1 => LongPacketType::retry(),
        2 => {
            if lcg.rand(2) == 0 {
                LongPacketType::zero_rtt()
            } else {
                LongPacketType::handshake()
            }
        }
        3 => LongPacketType::zero(),
        _ => unreachable!("header_type should be 0, 1, 2, 3"),
    };

    let fixed_bit = match header_type {
        3 => SingleBit::zero(),
        _ => SingleBit::one(),
    };

    let extension = match header_type {
        0 => {
            let token_len = lcg.rand(20);
            let token: Vec<u8> = (0..token_len).map(|_| lcg.rand(256)).collect();
            LongHeaderExtension::Initial {
                token_length: VarInt::new_u32(token_len as u32),
                token,
                length: VarInt::new_u32(lcg.rand(2).into()),
                packet_number: PacketNumber(VarInt::new_u32(lcg.rand(32) as u32)),
            }
        }
        1 => LongHeaderExtension::Retry {
            retry_token: (0..lcg.rand(20)).map(|_| lcg.rand(256)).collect(),
            retry_integrity_tag: {
                let mut tag = [0u8; 16];
                for b in tag.iter_mut() {
                    *b = lcg.rand(256);
                }
                tag
            },
        },
        2 => {
            let length = VarInt::new_u32(lcg.rand(2).into());
            let packet_number = PacketNumber(VarInt::new_u32(lcg.rand(32) as u32));
            if long_packet_type.to_inner() == 1 {
                LongHeaderExtension::ZeroRTT { length, packet_number }
            } else {
                LongHeaderExtension::Handshake { length, packet_number }
            }
        }
        3 => LongHeaderExtension::VersionNegotiation {
            supported_versions: vec![
                lcg.rand(32).into(),
                lcg.rand(32).into(),
                lcg.rand(32).into(),
                lcg.rand(32).into(),
            ],
        },
        _ => unreachable!("header_type should be 0, 1, 2, 3"),
    };

    let type_specific_bits = FourBits::from_num(lcg.rand(16));
    let version_id = lcg.rand(32) as u32;
    let dst_cid_len = lcg.rand(20);
    let src_cid_len = lcg.rand(20);
    let dst_cid_data: Vec<u8> = (0..dst_cid_len).map(|_| lcg.rand(256)).collect();
    let src_cid_data: Vec<u8> = (0..src_cid_len).map(|_| lcg.rand(256)).collect();
    let dst_cid = ConnectionId::new(dst_cid_len, dst_cid_data);
    let src_cid = ConnectionId::new(src_cid_len, src_cid_data);

    let header = LongHeader {
        header_form: HeaderForm::long(),
        fixed_bit,
        long_packet_type,
        type_specific_bits,
        version_id,
        dst_cid,
        src_cid,
        extension,
    };

    match header_type {
        0 => Header::Initial(header),
        1 => Header::Retry(header),
        2 => Header::Long(header),
        3 => Header::VersionNegotiate(header),
        _ => unreachable!(),
    }
}

pub fn generate_random_short_header(lcg: &mut Lcg) -> Header {
    let header_form = HeaderForm::short();
    let fixed_bit = SingleBit::from_num(lcg.rand(2));
    let spin_bit = SingleBit::from_num(lcg.rand(2));
    let reserved_bits = TwoBits::from_num(lcg.rand(4));
    let key_phase = SingleBit::from_num(lcg.rand(2));
    let number_len = TwoBits::from_num(lcg.rand(3));
    let dst_cid_len = lcg.rand(19);
    let dst_cid_data: Vec<u8> = (0..dst_cid_len).map(|_| lcg.rand(256)).collect();
    let number: Vec<u8> = (0..number_len.to_inner() + 1).map(|_| lcg.rand(256)).collect();

    Header::Short(ShortHeader {
        header_form,
        fixed_bit,
        spin_bit,
        reserved_bits,
        key_phase,
        number_len,
        dst_cid: ConnectionId::new(dst_cid_len, dst_cid_data),
        number,
    })
}

#[test]
fn test_long_encode_decode() {
    let original_initial_header = Header::Initial(LongHeader::initial(
        1,
        ConnectionId::new(8, vec![0; 8]),
        ConnectionId::new(8, vec![0; 8]),
        FourBits::from_num(0),
        VarInt::new_u32(8),
        vec![0, 1, 0, 1, 0, 1, 0, 1],
        VarInt::new_u32(4),
        PacketNumber(VarInt::new_u32(8)),
    ));

    let mut initial_header_bytes = original_initial_header.encode().unwrap();

    let reconstructed_initial_header = Header::decode(&mut initial_header_bytes).unwrap();

    assert_eq!(original_initial_header, reconstructed_initial_header);

    let num_headers = 100;
    let mut lcg = Lcg::new();
    for _ in 0..num_headers {
        let original_header = generate_random_long_header(&mut lcg);
        let mut header_bytes = original_header.encode().unwrap();
        let reconstructed_header = Header::decode(&mut header_bytes).unwrap();
        assert_eq!(original_header, reconstructed_header);
    }
}

#[test]
fn test_short_encode_decode() {
    let original_one_rtt_header = Header::Short(ShortHeader::one_rtt(
        SingleBit::zero(),
        TwoBits::zero(),
        SingleBit::one(),
        TwoBits::from_num(3),
        ConnectionId::new(8, vec![0; 8]),
        vec![0, 1, 0, 1],
    ));

    let mut one_rtt_header_bytes = original_one_rtt_header.encode().unwrap();

    let reconstructed_one_rtt_header = Header::decode(&mut one_rtt_header_bytes).unwrap();

    assert_eq!(original_one_rtt_header, reconstructed_one_rtt_header);

    let num_headers = 100;
    let mut lcg = Lcg::new();
    for _ in 0..num_headers {
        let original_header = generate_random_short_header(&mut lcg);
        let mut header_bytes = original_header.encode().unwrap();
        let reconstructed_header = Header::decode(&mut header_bytes).unwrap();
        assert_eq!(original_header, reconstructed_header);
    }
}

#[test]
fn test_first_byte_bit_packing() {
    // short header: form 0, fixed 1, spin 0, reserved 00, key phase 1,
    // packet-number length 3 packs to 0b0100_0111
    let header = ShortHeader::one_rtt(
        SingleBit::zero(),
        TwoBits::zero(),
        SingleBit::one(),
        TwoBits::from_num(3),
        ConnectionId::new(0, vec![]),
        vec![9, 8, 7, 6],
    );
    let bytes = header.encode().unwrap();
    assert_eq!(bytes[0], 0b0100_0111);

    // long header: form 1, fixed 1, type handshake (2), type bits 0b0110
    let header = LongHeader::new(
        LongPacketType::handshake(),
        FourBits::from_num(0b0110),
        7,
        ConnectionId::new(0, vec![]),
        ConnectionId::new(0, vec![]),
        LongHeaderExtension::Handshake {
            length: VarInt::new_u32(0),
            packet_number: PacketNumber(VarInt::new_u32(0)),
        },
    );
    let bytes = header.encode().unwrap();
    assert_eq!(bytes[0], 0b1110_0110);
}

#[test]
fn test_long_header_length_bound() {
    let header = LongHeader::new(
        LongPacketType::handshake(),
        FourBits::from_num(0),
        1,
        ConnectionId::new(30, vec![0; 30]),
        ConnectionId::new(30, vec![0; 30]),
        LongHeaderExtension::Handshake {
            length: VarInt::new_u32(0),
            packet_number: PacketNumber(VarInt::new_u32(0)),
        },
    );
    let err = header.len().unwrap_err();
    assert_eq!(err.kind, ErrorKind::LengthBoundExceeded);
    let err = header.encode().unwrap_err();
    assert_eq!(err.kind, ErrorKind::LengthBoundExceeded);

    // 20-byte identifiers sit exactly on the 47-byte bound
    let header = LongHeader::new(
        LongPacketType::handshake(),
        FourBits::from_num(0),
        1,
        ConnectionId::new(20, vec![0; 20]),
        ConnectionId::new(20, vec![0; 20]),
        LongHeaderExtension::Handshake {
            length: VarInt::new_u32(0),
            packet_number: PacketNumber(VarInt::new_u32(0)),
        },
    );
    assert_eq!(header.len().unwrap(), 47);
    assert!(header.encode().is_ok());
}

#[test]
fn test_short_header_length_bound() {
    let header = ShortHeader::new(
        SingleBit::zero(),
        TwoBits::zero(),
        SingleBit::zero(),
        TwoBits::from_num(0),
        ConnectionId::new(25, vec![0; 25]),
        vec![1],
    );
    let err = header.len().unwrap_err();
    assert_eq!(err.kind, ErrorKind::LengthBoundExceeded);
    let err = header.encode().unwrap_err();
    assert_eq!(err.kind, ErrorKind::LengthBoundExceeded);

    let header = ShortHeader::new(
        SingleBit::zero(),
        TwoBits::zero(),
        SingleBit::zero(),
        TwoBits::from_num(0),
        ConnectionId::new(20, vec![0; 20]),
        vec![1],
    );
    assert_eq!(header.len().unwrap(), 33);
    assert!(header.encode().is_ok());
}

#[test]
fn test_extension_length_matches_encoding() {
    let header = LongHeader::initial(
        1,
        ConnectionId::new(4, vec![1, 2, 3, 4]),
        ConnectionId::new(2, vec![5, 6]),
        FourBits::from_num(0),
        VarInt::new_u32(3),
        vec![7, 8, 9],
        VarInt::new_u32(100),
        PacketNumber(VarInt::new_u32(70)),
    );
    let bytes = header.encode().unwrap();
    // token-length (1) + token (3) + length (2) + packet number (2)
    let ext_len = LongHeader::extension_length(&bytes).unwrap();
    assert_eq!(ext_len, 8);
    // base prefix of 7 plus the two identifiers
    assert_eq!(bytes.len(), 7 + 4 + 2 + ext_len);
}

#[test]
fn test_version_negotiate_round_trip() {
    let header = LongHeader::version_negotiate(
        ConnectionId::new(3, vec![1, 2, 3]),
        ConnectionId::new(0, vec![]),
        vec![1, 5, 0xdead_beef],
    );
    let wrapped = Header::VersionNegotiate(header);
    let mut bytes = wrapped.encode().unwrap();
    let decoded = Header::decode(&mut bytes).unwrap();
    assert_eq!(wrapped, decoded);
}

#[test]
fn test_truncated_header() {
    let err = Header::decode(&mut vec![]).unwrap_err();
    assert_eq!(err.kind, ErrorKind::Truncated);
    // long form with the version cut short
    let err = Header::decode(&mut vec![0xc0, 0x01, 0x02]).unwrap_err();
    assert_eq!(err.kind, ErrorKind::Truncated);
}
