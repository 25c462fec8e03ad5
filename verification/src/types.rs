//! Field types shared by the header codec: connection identifiers, the
//! packet number, and the named bit fields of the packed first byte.

use crate::bits::{Bits, BitsExt};
use crate::varint::{varint_size, VarInt};
use vstd::arithmetic::power2::lemma2_to64;
use vstd::prelude::*;

verus! {

/// A length-prefixed opaque connection identifier. QUIC version 1 allows
/// lengths 0 to 20; the codec itself tolerates 0 to 255 so that
/// version-negotiation traffic can be re-encoded unchanged.
#[derive(Debug, PartialEq, Eq, Clone)]
pub struct ConnectionId {
    pub cid_len: u8,
    pub cid: Vec<u8>,
}

impl ConnectionId {
    /// The stored length agrees with the identifier bytes.
    pub open spec fn wf(self) -> bool {
        self.cid@.len() == self.cid_len
    }

    pub fn new(cid_len: u8, cid: Vec<u8>) -> (r: Self)
        ensures
            r.cid_len == cid_len,
            r.cid@ == cid@,
    {
        Self { cid_len, cid }
    }
}

/// The packet number as it travels inside a header extension. It wraps a
/// variable-length integer; the 1-to-4-byte truncated form of RFC 9000 is
/// a higher layer's concern.
#[derive(Debug, PartialEq, Eq, Clone, Copy)]
pub struct PacketNumber(pub VarInt);

impl PacketNumber {
    pub fn size(&self) -> (r: usize)
        ensures
            r == varint_size(self.0.0),
    {
        self.0.size()
    }
}

/// A one-bit field.
#[derive(Debug, PartialEq, Eq, Clone, Copy)]
pub struct SingleBit(pub Bits<1>);

impl BitsExt for SingleBit {
    open spec fn bound() -> nat {
        2
    }

    open spec fn value(self) -> u8 {
        self.0.v as u8
    }

    open spec fn wf(self) -> bool {
        self.0.wf()
    }

    fn from_num(n: u8) -> (r: Self) {
        proof {
            lemma2_to64();
        }
        SingleBit(Bits::from(n as u32))
    }

    fn zero() -> (r: Self) {
        SingleBit(Bits::zero())
    }

    fn one() -> (r: Self) {
        SingleBit(Bits::one())
    }

    fn to_inner(&self) -> (r: u8) {
        self.0.to_inner() as u8
    }

    fn invert(&self) -> (r: Self) {
        proof {
            lemma2_to64();
        }
        SingleBit(self.0.invert())
    }
}

impl Default for SingleBit {
    fn default() -> (r: Self)
        ensures
            r.wf(),
            r.value() == 0,
    {
        SingleBit(Bits::zero())
    }
}

/// A two-bit field.
#[derive(Debug, PartialEq, Eq, Clone, Copy)]
pub struct TwoBits(pub Bits<2>);

impl BitsExt for TwoBits {
    open spec fn bound() -> nat {
        4
    }

    open spec fn value(self) -> u8 {
        self.0.v as u8
    }

    open spec fn wf(self) -> bool {
        self.0.wf()
    }

    fn from_num(n: u8) -> (r: Self) {
        proof {
            lemma2_to64();
        }
        TwoBits(Bits::from(n as u32))
    }

    fn zero() -> (r: Self) {
        TwoBits(Bits::zero())
    }

    fn one() -> (r: Self) {
        TwoBits(Bits::one())
    }

    fn to_inner(&self) -> (r: u8) {
        self.0.to_inner() as u8
    }

    fn invert(&self) -> (r: Self) {
        proof {
            lemma2_to64();
        }
        TwoBits(self.0.invert())
    }
}

/// A four-bit field.
#[derive(Debug, PartialEq, Eq, Clone, Copy)]
pub struct FourBits(pub Bits<4>);

impl BitsExt for FourBits {
    open spec fn bound() -> nat {
        16
    }

    open spec fn value(self) -> u8 {
        self.0.v as u8
    }

    open spec fn wf(self) -> bool {
        self.0.wf()
    }

    fn from_num(n: u8) -> (r: Self) {
        proof {
            lemma2_to64();
        }
        FourBits(Bits::from(n as u32))
    }

    fn zero() -> (r: Self) {
        FourBits(Bits::zero())
    }

    fn one() -> (r: Self) {
        FourBits(Bits::one())
    }

    fn to_inner(&self) -> (r: u8) {
        self.0.to_inner() as u8
    }

    fn invert(&self) -> (r: Self) {
        proof {
            lemma2_to64();
        }
        FourBits(self.0.invert())
    }
}

/// A seven-bit field.
#[derive(Debug, PartialEq, Eq, Clone, Copy)]
pub struct SevenBits(pub Bits<7>);

impl BitsExt for SevenBits {
    open spec fn bound() -> nat {
        128
    }

    open spec fn value(self) -> u8 {
        self.0.v as u8
    }

    open spec fn wf(self) -> bool {
        self.0.wf()
    }

    fn from_num(n: u8) -> (r: Self) {
        proof {
            lemma2_to64();
        }
        SevenBits(Bits::from(n as u32))
    }

    fn zero() -> (r: Self) {
        SevenBits(Bits::zero())
    }

    fn one() -> (r: Self) {
        SevenBits(Bits::one())
    }

    fn to_inner(&self) -> (r: u8) {
        self.0.to_inner() as u8
    }

    fn invert(&self) -> (r: Self) {
        proof {
            lemma2_to64();
        }
        SevenBits(self.0.invert())
    }
}

/// The two-bit long-packet-type field of a long header's first byte.
#[derive(Debug, PartialEq, Eq, Clone, Copy)]
pub struct LongPacketType(pub Bits<2>);

impl BitsExt for LongPacketType {
    open spec fn bound() -> nat {
        4
    }

    open spec fn value(self) -> u8 {
        self.0.v as u8
    }

    open spec fn wf(self) -> bool {
        self.0.wf()
    }

    fn from_num(n: u8) -> (r: Self) {
        proof {
            lemma2_to64();
        }
        LongPacketType(Bits::from(n as u32))
    }

    fn zero() -> (r: Self) {
        LongPacketType(Bits::zero())
    }

    fn one() -> (r: Self) {
        LongPacketType(Bits::one())
    }

    fn to_inner(&self) -> (r: u8) {
        self.0.to_inner() as u8
    }

    fn invert(&self) -> (r: Self) {
        proof {
            lemma2_to64();
        }
        LongPacketType(self.0.invert())
    }
}

impl LongPacketType {
    #[inline(always)]
    pub fn initial() -> (r: Self)
        ensures
            r.wf(),
            r.value() == 0,
    {
        Self::zero()
    }

    #[inline(always)]
    pub fn zero_rtt() -> (r: Self)
        ensures
            r.wf(),
            r.value() == 1,
    {
        Self::one()
    }

    #[inline(always)]
    pub fn handshake() -> (r: Self)
        ensures
            r.wf(),
            r.value() == 2,
    {
        proof {
            lemma2_to64();
        }
        LongPacketType(Bits::from(2))
    }

    #[inline(always)]
    pub fn retry() -> (r: Self)
        ensures
            r.wf(),
            r.value() == 3,
    {
        proof {
            lemma2_to64();
        }
        LongPacketType(Bits::from(3))
    }
}

/// The one-bit header-form field: one for a long header, zero for short.
#[derive(Debug, PartialEq, Eq, Clone, Copy)]
pub struct HeaderForm(pub Bits<1>);

impl BitsExt for HeaderForm {
    open spec fn bound() -> nat {
        2
    }

    open spec fn value(self) -> u8 {
        self.0.v as u8
    }

    open spec fn wf(self) -> bool {
        self.0.wf()
    }

    fn from_num(n: u8) -> (r: Self) {
        proof {
            lemma2_to64();
        }
        HeaderForm(Bits::from(n as u32))
    }

    fn zero() -> (r: Self) {
        HeaderForm(Bits::zero())
    }

    fn one() -> (r: Self) {
        HeaderForm(Bits::one())
    }

    fn to_inner(&self) -> (r: u8) {
        self.0.to_inner() as u8
    }

    fn invert(&self) -> (r: Self) {
        proof {
            lemma2_to64();
        }
        HeaderForm(self.0.invert())
    }
}

impl HeaderForm {
    #[inline(always)]
    pub fn short() -> (r: Self)
        ensures
            r.wf(),
            r.value() == 0,
    {
        Self::zero()
    }

    #[inline(always)]
    pub fn long() -> (r: Self)
        ensures
            r.wf(),
            r.value() == 1,
    {
        Self::one()
    }
}

} // verus!
