use mini_quiche::result::ErrorKind;
use mini_quiche::varint::{VarInt, VARINT_MAX};

struct Lcg(u64);

impl Lcg {
    fn new() -> Self {
        Lcg(0x123456789ABCDEF)
    }

    fn rand_u64(&mut self, modulus: u128) -> u64 {
        if modulus == 0 {
            return 0;
        }
        self.0 = self.0.wrapping_mul(6364136223846793005).wrapping_add(1442695040888963407);
        ((self.0 as u128) % modulus) as u64
    }
}

#[test]
fn test_varint() {
    assert_eq!((2 << 5) - 1, 63);
    let varint_xsmall = VarInt::new_u32(63);
    let xsmall_encoded = varint_xsmall.encode();
    assert_eq!(xsmall_encoded, vec![0b00_111111]);
    let xsmall_decoded = VarInt::decode(&mut xsmall_encoded.clone()).unwrap();
    assert_eq!(varint_xsmall, xsmall_decoded);

    let varint_small = VarInt::new_u32(16_383);
    let small_encoded = varint_small.encode();
    assert_eq!(small_encoded, vec![0b01_111111, 0b11_111111]);
    let small_decoded = VarInt::decode(&mut small_encoded.clone()).unwrap();
    assert_eq!(varint_small, small_decoded);

    let varint_medium = VarInt::new_u64(357_913_941).unwrap();
    let medium_encoded = varint_medium.encode();
    assert_eq!(
        medium_encoded,
        vec![0b10_010101, 0b01_010101, 0b01_010101, 0b01_010101]
    );
    let medium_decoded = VarInt::decode(&mut medium_encoded.clone()).unwrap();
    assert_eq!(varint_medium, medium_decoded);

    let varint_large = VarInt::new_u64(1_537_228_672_809_129_301).unwrap();
    let large_encoded = varint_large.encode();
    assert_eq!(
        large_encoded,
        vec![
            0b11_010101,
            0b01_010101,
            0b01_010101,
            0b01_010101,
            0b01_010101,
            0b01_010101,
            0b01_010101,
            0b01_010101
        ]
    );
    let large_decoded = VarInt::decode(&mut large_encoded.clone()).unwrap();
    assert_eq!(varint_large, large_decoded);
}

#[test]
fn test_cast() {
    let num_casts = 1_000_000;
    let mut lcg = Lcg::new();
    for _ in 0..num_casts {
        let varint = VarInt::new_u64(lcg.rand_u64(VARINT_MAX as u128 + 1)).unwrap();
        let casted: usize = varint.usize();
        assert_eq!(varint.to_inner(), casted as u64);
    }
}

// `VarInt(63).encode() == [0x3F]`; `VarInt(64).encode() == [0x40, 0x40]`
#[test]
fn test_boundary_63_64() {
    assert_eq!(VarInt::new_u32(63).encode(), vec![0x3f]);
    assert_eq!(VarInt::new_u32(64).encode(), vec![0x40, 0x40]);
}

// `VarInt(16_383).encode() == [0x7F, 0xFF]`;
// `VarInt(16_384).encode() == [0x80, 0x00, 0x40, 0x00]`
#[test]
fn test_boundary_16383_16384() {
    assert_eq!(VarInt::new_u32(16_383).encode(), vec![0x7f, 0xff]);
    assert_eq!(VarInt::new_u32(16_384).encode(), vec![0x80, 0x00, 0x40, 0x00]);
}

#[test]
fn test_size_is_minimal() {
    assert_eq!(VarInt::new_u32(0).size(), 1);
    assert_eq!(VarInt::new_u32(63).size(), 1);
    assert_eq!(VarInt::new_u32(64).size(), 2);
    assert_eq!(VarInt::new_u32(16_383).size(), 2);
    assert_eq!(VarInt::new_u32(16_384).size(), 4);
    assert_eq!(VarInt::new_u32(0x3fff_ffff).size(), 4);
    assert_eq!(VarInt::new_u64(0x4000_0000).unwrap().size(), 8);
    assert_eq!(VarInt::new_u64(VARINT_MAX).unwrap().size(), 8);
    for v in [0u64, 1, 63, 64, 300, 16_383, 16_384, 0x3fff_ffff, 0x4000_0000, VARINT_MAX] {
        let vi = VarInt::new_u64(v).unwrap();
        assert_eq!(vi.encode().len(), vi.size());
    }
}

#[test]
fn test_value_exceeds_maximum() {
    let err = VarInt::new_u64(VARINT_MAX + 1).unwrap_err();
    assert_eq!(err.kind, ErrorKind::ValueExceedsMaximum);
    assert!(VarInt::new_u64(VARINT_MAX).is_ok());
}

#[test]
fn test_truncated_decode() {
    // a two-byte prefix with only one byte present
    let err = VarInt::decode(&mut vec![0x40]).unwrap_err();
    assert_eq!(err.kind, ErrorKind::Truncated);
    // an eight-byte prefix with three bytes present
    let err = VarInt::decode(&mut vec![0xc0, 0x01, 0x02]).unwrap_err();
    assert_eq!(err.kind, ErrorKind::Truncated);
}

#[test]
fn test_empty_buffer_reads_zero() {
    let mut empty: Vec<u8> = Vec::new();
    let v = VarInt::decode(&mut empty).unwrap();
    assert_eq!(v.to_inner(), 0);
}

#[test]
fn test_non_minimal_encoding_accepted() {
    // the value 3 spelled with a two-byte prefix still decodes
    let v = VarInt::decode(&mut vec![0x40, 0x03]).unwrap();
    assert_eq!(v.to_inner(), 3);
}

#[test]
fn test_checked_arithmetic() {
    let a = VarInt::new_u32(10);
    let b = VarInt::new_u32(4);
    assert_eq!(a.add(&b).unwrap().to_inner(), 14);
    assert_eq!(a.sub(&b).unwrap().to_inner(), 6);
    assert_eq!(a.addn(2).unwrap().to_inner(), 12);
    let under = b.sub(&a).unwrap_err();
    assert_eq!(under.kind, ErrorKind::FrameEncodingError);
    let max = VarInt::new_u64(VARINT_MAX).unwrap();
    let over = max.addn(1).unwrap_err();
    assert_eq!(over.kind, ErrorKind::ValueExceedsMaximum);
    assert!(a.gt(&b));
    assert!(b.lt(&a));
    assert!(a.gtn(9));
}
