use mini_quiche::bits::{compose_bits, decompose_bits, Bits, BitsExt};
use mini_quiche::types::{FourBits, SevenBits, SingleBit, TwoBits};

struct Lcg(u64);

impl Lcg {
    fn new() -> Self {
        Lcg(0x123456789ABCDEF)
    }

    fn rand(&mut self, modulus: u128) -> u128 {
        if modulus == 0 {
            return 0;
        }
        self.0 = self.0.wrapping_mul(6364136223846793005).wrapping_add(1442695040888963407);
        ((self.0 >> 32) as u128) % modulus
    }
}

#[test]
fn test_u8() {
    let invariant: u32 = 0b1010_1010;
    let bits = Bits::<8>::from(invariant);
    assert_eq!(
        bits.bits(),
        vec![false, true, false, true, false, true, false, true]
    );
    let inner = bits.to_inner();
    assert_eq!(inner, invariant);

    let mut lcg = Lcg::new();
    for _ in 0..100 {
        let random = lcg.rand(256) as u32;
        let bits = Bits::<8>::from(random);
        let inner = bits.to_inner();
        assert_eq!(inner, random);
    }
}

#[test]
fn test_u16() {
    let invariant: u32 = 0b1010_1010_1010_1010;
    let bits = Bits::<16>::from(invariant);
    assert_eq!(
        bits.bits(),
        vec![
            false, true, false, true, false, true, false, true, false, true, false, true, false,
            true, false, true
        ]
    );
    let inner = bits.to_inner();
    assert_eq!(inner, invariant);

    let mut lcg = Lcg::new();
    for _ in 0..100 {
        let random = lcg.rand(65536) as u32;
        let bits = Bits::<16>::from(random);
        let inner = bits.to_inner();
        assert_eq!(inner, random);
    }
}

#[test]
fn test_u32() {
    let invariant: u32 = 0b1010_1010_1010_1010_1010_1010_1010_1010;
    let bits = Bits::<32>::from(invariant);
    assert_eq!(
        bits.bits(),
        vec![
            false, true, false, true, false, true, false, true, false, true, false, true, false,
            true, false, true, false, true, false, true, false, true, false, true, false, true,
            false, true, false, true, false, true
        ]
    );
    let inner = bits.to_inner();
    assert_eq!(inner, invariant);

    let mut lcg = Lcg::new();
    for _ in 0..100 {
        let random = lcg.rand(4294967296) as u32;
        let bits = Bits::<32>::from(random);
        let inner = bits.to_inner();
        assert_eq!(inner, random);
    }
}

#[test]
fn test_from_bits_round_trip() {
    let bits = Bits::<8>::from(0b1100_0101);
    let rebuilt = Bits::<8>::from_bits(bits.bits());
    assert_eq!(rebuilt.to_inner(), 0b1100_0101);
}

#[test]
fn test_decompose_then_compose() {
    // a long-header first byte split least-significant field first
    let source: u8 = 0b1100_0011;
    let fields = decompose_bits(source, &[4, 2, 1, 1]);
    assert_eq!(fields.len(), 4);
    assert_eq!(fields[0], vec![true, true, false, false]);
    assert_eq!(fields[1], vec![false, false]);
    assert_eq!(fields[2], vec![true]);
    assert_eq!(fields[3], vec![true]);
    let flat: Vec<bool> = fields.into_iter().flatten().collect();
    assert_eq!(compose_bits(&flat), source);
}

#[test]
fn test_compose_bits_value() {
    assert_eq!(compose_bits(&[true, false, true]), 0b101);
    assert_eq!(compose_bits(&[]), 0);
}

#[test]
fn test_invert_flips_all_bits() {
    assert_eq!(SingleBit::from_num(0).invert().to_inner(), 1);
    assert_eq!(SingleBit::from_num(1).invert().to_inner(), 0);
    assert_eq!(TwoBits::from_num(0b01).invert().to_inner(), 0b10);
    assert_eq!(FourBits::from_num(0b1010).invert().to_inner(), 0b0101);
    assert_eq!(SevenBits::from_num(0b110_0101).invert().to_inner(), 0b001_1010);
    let b = Bits::<8>::from(0b1100_0011);
    assert_eq!(b.invert().to_inner(), 0b0011_1100);
}
