//! The QUIC variable-length integer: a self-describing 1/2/4/8-byte
//! unsigned integer carrying values up to 2^62 - 1.
//!
//! On the wire the two most significant bits of the first byte give the
//! total length (00 -> 1, 01 -> 2, 10 -> 4, 11 -> 8 bytes); the remaining
//! 62 bits are the value, big-endian. Encoders pick the smallest prefix
//! that fits; decoders accept non-minimal encodings.

use crate::result::{ErrorKind, QuicheError, QuicheResult};
use crate::wire::drop_front;
use vstd::prelude::*;

verus! {

/// Largest value a variable-length integer can carry: 2^62 - 1.
pub const VARINT_MAX: u64 = 0x3fff_ffff_ffff_ffff;

#[derive(Debug, PartialEq, Eq, PartialOrd, Ord, Clone, Copy, Structural)]
pub struct VarInt(pub u64);

/// Number of bytes the smallest encoding of `v` occupies.
pub open spec fn varint_size(v: u64) -> nat {
    if v < 0x40 {
        1
    } else if v < 0x4000 {
        2
    } else if v < 0x4000_0000 {
        4
    } else {
        8
    }
}

/// The minimal wire encoding of `v`: prefix bits in the first byte, then
/// the value big-endian.
#[verifier::opaque]
pub open spec fn varint_bytes(v: u64) -> Seq<u8>
    recommends
        v <= VARINT_MAX,
{
    if v < 0x40 {
        seq![v as u8]
    } else if v < 0x4000 {
        seq![(0x40 + v / 0x100) as u8, (v % 0x100) as u8]
    } else if v < 0x4000_0000 {
        seq![
            (0x80 + v / 0x100_0000) as u8,
            ((v / 0x1_0000) % 0x100) as u8,
            ((v / 0x100) % 0x100) as u8,
            (v % 0x100) as u8,
        ]
    } else {
        seq![
            (0xc0 + v / 0x100_0000_0000_0000) as u8,
            ((v / 0x1_0000_0000_0000) % 0x100) as u8,
            ((v / 0x100_0000_0000) % 0x100) as u8,
            ((v / 0x1_0000_0000) % 0x100) as u8,
            ((v / 0x100_0000) % 0x100) as u8,
            ((v / 0x1_0000) % 0x100) as u8,
            ((v / 0x100) % 0x100) as u8,
            (v % 0x100) as u8,
        ]
    }
}

/// What reading one variable-length integer from the front of `s` yields:
/// the value and the unread suffix, or the failure. An empty buffer reads
/// as zero, supporting optional trailing fields.
#[verifier::opaque]
pub open spec fn parse_varint(s: Seq<u8>) -> Result<(u64, Seq<u8>), ErrorKind> {
    if s.len() == 0 {
        Ok((0u64, s))
    } else {
        let first = s[0];
        let rem = (first % 0x40) as u64;
        if first < 0x40 {
            Ok((rem, s.skip(1)))
        } else if first < 0x80 {
            if s.len() < 2 {
                Err(ErrorKind::Truncated)
            } else {
                Ok(((rem * 0x100 + s[1]) as u64, s.skip(2)))
            }
        } else if first < 0xc0 {
            if s.len() < 4 {
                Err(ErrorKind::Truncated)
            } else {
                Ok(
                    (
                        (rem * 0x100_0000 + s[1] * 0x1_0000 + s[2] * 0x100 + s[3]) as u64,
                        s.skip(4),
                    ),
                )
            }
        } else {
            if s.len() < 8 {
                Err(ErrorKind::Truncated)
            } else {
                Ok(
                    (
                        (rem * 0x100_0000_0000_0000 + s[1] * 0x1_0000_0000_0000 + s[2]
                            * 0x100_0000_0000 + s[3] * 0x1_0000_0000 + s[4] * 0x100_0000 + s[5]
                            * 0x1_0000 + s[6] * 0x100 + s[7]) as u64,
                        s.skip(8),
                    ),
                )
            }
        }
    }
}

/// A parsed variable-length integer never exceeds the maximum: six value
/// bits in the first byte leave at most 62 value bits in total.
pub proof fn lemma_parse_varint_bounded(s: Seq<u8>)
    ensures
        parse_varint(s) matches Ok((v, _)) ==> v <= VARINT_MAX,
{
    reveal(parse_varint);
}

/// A parsed variable-length integer leaves a suffix of the buffer it was
/// given.
pub proof fn lemma_parse_varint_len(s: Seq<u8>)
    ensures
        parse_varint(s) matches Ok((_, r)) ==> r.len() <= s.len(),
        s.len() > 0 ==> (parse_varint(s) matches Ok((_, r)) ==> r.len() < s.len()),
{
    reveal(parse_varint);
}

/// The encoder's length choice is minimal: whenever a longer prefix is
/// chosen, the value does not fit the next shorter one.
pub proof fn lemma_varint_size_minimal(v: u64)
    ensures
        varint_size(v) == 2 ==> v >= 0x40,
        varint_size(v) == 4 ==> v >= 0x4000,
        varint_size(v) == 8 ==> v >= 0x4000_0000,
{
}

/// Reading back an encoded value yields that value and consumes exactly
/// its encoding, whatever follows it in the buffer.
pub proof fn lemma_varint_round_trip(v: u64, rest: Seq<u8>)
    requires
        v <= VARINT_MAX,
    ensures
        varint_bytes(v).len() == varint_size(v),
        parse_varint(varint_bytes(v) + rest) == Ok::<_, ErrorKind>((v, rest)),
{
    reveal(varint_bytes);
    reveal(parse_varint);
    let s = varint_bytes(v) + rest;
    if v < 0x40 {
        assert(s.skip(1) =~= rest);
    } else if v < 0x4000 {
        assert(s[0] == (0x40 + v / 0x100) as u8);
        assert((0x40 + v / 0x100) % 0x40 == v / 0x100);
        assert(s.skip(2) =~= rest);
    } else if v < 0x4000_0000 {
        assert((0x80 + v / 0x100_0000) % 0x40 == v / 0x100_0000);
        assert((v / 0x100) / 0x100 == v / 0x1_0000) by (nonlinear_arith);
        assert((v / 0x1_0000) / 0x100 == v / 0x100_0000) by (nonlinear_arith);
        assert(s.skip(4) =~= rest);
    } else {
        assert((0xc0 + v / 0x100_0000_0000_0000) % 0x40 == v / 0x100_0000_0000_0000);
        assert((v / 0x100) / 0x100 == v / 0x1_0000) by (nonlinear_arith);
        assert((v / 0x1_0000) / 0x100 == v / 0x100_0000) by (nonlinear_arith);
        assert((v / 0x100_0000) / 0x100 == v / 0x1_0000_0000) by (nonlinear_arith);
        assert((v / 0x1_0000_0000) / 0x100 == v / 0x100_0000_0000) by (nonlinear_arith);
        assert((v / 0x100_0000_0000) / 0x100 == v / 0x1_0000_0000_0000) by (nonlinear_arith);
        assert((v / 0x1_0000_0000_0000) / 0x100 == v / 0x100_0000_0000_0000) by (nonlinear_arith);
        assert(s.skip(8) =~= rest);
    }
}

impl VarInt {
    /// True of every value the wire format can carry.
    pub open spec fn wf(self) -> bool {
        self.0 <= VARINT_MAX
    }

    #[inline(always)]
    pub fn new_u32(value: u32) -> (r: Self)
        ensures
            r.0 == value as u64,
            r.wf(),
    {
        VarInt(value as u64)
    }

    #[inline(always)]
    pub fn zero() -> (r: Self)
        ensures
            r.0 == 0,
            r.wf(),
    {
        VarInt(0)
    }

    pub fn new_u64(value: u64) -> (r: QuicheResult<Self>)
        ensures
            value <= VARINT_MAX ==> r is Ok && r->Ok_0.0 == value,
            value > VARINT_MAX ==> r is Err && r->Err_0.kind == ErrorKind::ValueExceedsMaximum,
    {
        if value <= VARINT_MAX {
            Ok(VarInt(value))
        } else {
            Err(QuicheError::new(ErrorKind::ValueExceedsMaximum, "VarInt value exceeds maximum"))
        }
    }

    #[inline(always)]
    pub fn to_inner(self) -> (r: u64)
        ensures
            r == self.0,
    {
        self.0
    }

    /// The value as a buffer index or length.
    #[inline(always)]
    pub fn usize(self) -> (r: usize)
        requires
            self.0 <= usize::MAX,
        ensures
            r == self.0,
    {
        self.0 as usize
    }

    /// Number of bytes the encoding of this value occupies: the smallest
    /// of 1, 2, 4 and 8 whose prefix admits the value.
    pub fn size(self) -> (r: usize)
        ensures
            r == varint_size(self.0),
    {
        if self.0 < 0x40 {
            1
        } else if self.0 < 0x4000 {
            2
        } else if self.0 < 0x4000_0000 {
            4
        } else {
            8
        }
    }

    /// Checked addition; a sum above the maximum is a failure.
    pub fn add(self, other: &VarInt) -> (r: QuicheResult<VarInt>)
        requires
            self.wf(),
            other.wf(),
        ensures
            self.0 + other.0 <= VARINT_MAX ==> r is Ok && r->Ok_0.0 == self.0 + other.0,
            self.0 + other.0 > VARINT_MAX ==> r is Err && r->Err_0.kind
                == ErrorKind::ValueExceedsMaximum,
    {
        VarInt::new_u64(self.0 + other.0)
    }

    /// Checked addition of a small constant; a sum above the maximum is a
    /// failure.
    pub fn addn(self, n: u8) -> (r: QuicheResult<VarInt>)
        requires
            self.wf(),
        ensures
            self.0 + n <= VARINT_MAX ==> r is Ok && r->Ok_0.0 == self.0 + n,
            self.0 + n > VARINT_MAX ==> r is Err && r->Err_0.kind
                == ErrorKind::ValueExceedsMaximum,
    {
        VarInt::new_u64(self.0 + n as u64)
    }

    /// Checked subtraction; a difference below zero is a failure.
    pub fn sub(self, other: &VarInt) -> (r: QuicheResult<VarInt>)
        requires
            self.wf(),
            other.wf(),
        ensures
            self.0 >= other.0 ==> r is Ok && r->Ok_0.0 == self.0 - other.0,
            self.0 < other.0 ==> r is Err && r->Err_0.kind == ErrorKind::FrameEncodingError,
    {
        if self.0 >= other.0 {
            Ok(VarInt(self.0 - other.0))
        } else {
            Err(QuicheError::new(ErrorKind::FrameEncodingError, "VarInt difference below zero"))
        }
    }

    pub fn gt(self, other: &VarInt) -> (r: bool)
        ensures
            r == (self.0 > other.0),
    {
        self.0 > other.0
    }

    pub fn lt(self, other: &VarInt) -> (r: bool)
        ensures
            r == (self.0 < other.0),
    {
        self.0 < other.0
    }

    pub fn gtn(self, n: u64) -> (r: bool)
        ensures
            r == (self.0 > n),
    {
        self.0 > n
    }

    /// The minimal wire encoding: `size()` bytes, prefix bits first.
    pub fn encode(&self) -> (r: Vec<u8>)
        requires
            self.wf(),
        ensures
            r@ == varint_bytes(self.0),
            r@.len() == varint_size(self.0),
    {
        let v = self.0;
        let mut buf: Vec<u8> = Vec::new();
        if v < 0x40 {
            buf.push(v as u8);
        } else if v < 0x4000 {
            buf.push((0x40 + v / 0x100) as u8);
            buf.push((v % 0x100) as u8);
        } else if v < 0x4000_0000 {
            buf.push((0x80 + v / 0x100_0000) as u8);
            buf.push(((v / 0x1_0000) % 0x100) as u8);
            buf.push(((v / 0x100) % 0x100) as u8);
            buf.push((v % 0x100) as u8);
        } else {
            buf.push((0xc0 + v / 0x100_0000_0000_0000) as u8);
            buf.push(((v / 0x1_0000_0000_0000) % 0x100) as u8);
            buf.push(((v / 0x100_0000_0000) % 0x100) as u8);
            buf.push(((v / 0x1_0000_0000) % 0x100) as u8);
            buf.push(((v / 0x100_0000) % 0x100) as u8);
            buf.push(((v / 0x1_0000) % 0x100) as u8);
            buf.push(((v / 0x100) % 0x100) as u8);
            buf.push((v % 0x100) as u8);
        }
        proof {
            reveal(varint_bytes);
        }
        assert(buf@ =~= varint_bytes(self.0));
        buf
    }

    /// Reads one variable-length integer from the front of the buffer,
    /// consuming 1, 2, 4 or 8 bytes as its prefix dictates; an empty
    /// buffer reads as zero.
    pub fn decode(bytes: &mut Vec<u8>) -> (r: QuicheResult<Self>)
        ensures
            match parse_varint(old(bytes)@) {
                Ok((v, rest)) => r is Ok && r->Ok_0.0 == v && r->Ok_0.wf() && final(bytes)@
                    == rest,
                Err(k) => r is Err && r->Err_0.kind == k && final(bytes)@ == old(bytes)@,
            },
    {
        proof {
            reveal(parse_varint);
        }
        if bytes.len() == 0 {
            return Ok(VarInt(0));
        }
        let first = bytes[0];
        let rem = (first % 0x40) as u64;
        if first < 0x40 {
            drop_front(bytes, 1);
            Ok(VarInt(rem))
        } else if first < 0x80 {
            if bytes.len() < 2 {
                return Err(
                    QuicheError::new(ErrorKind::Truncated, "buffer ended inside a VarInt"),
                );
            }
            let v = rem * 0x100 + bytes[1] as u64;
            drop_front(bytes, 2);
            Ok(VarInt(v))
        } else if first < 0xc0 {
            if bytes.len() < 4 {
                return Err(
                    QuicheError::new(ErrorKind::Truncated, "buffer ended inside a VarInt"),
                );
            }
            let v = rem * 0x100_0000 + (bytes[1] as u64) * 0x1_0000 + (bytes[2] as u64) * 0x100
                + bytes[3] as u64;
            drop_front(bytes, 4);
            Ok(VarInt(v))
        } else {
            if bytes.len() < 8 {
                return Err(
                    QuicheError::new(ErrorKind::Truncated, "buffer ended inside a VarInt"),
                );
            }
            let v = rem * 0x100_0000_0000_0000 + (bytes[1] as u64) * 0x1_0000_0000_0000 + (
            bytes[2] as u64) * 0x100_0000_0000 + (bytes[3] as u64) * 0x1_0000_0000 + (
            bytes[4] as u64) * 0x100_0000 + (bytes[5] as u64) * 0x1_0000 + (bytes[6] as u64)
                * 0x100 + bytes[7] as u64;
            drop_front(bytes, 8);
            Ok(VarInt(v))
        }
    }
}

/// Appends the wire encoding of `v`.
pub fn push_varint(buf: &mut Vec<u8>, v: VarInt)
    requires
        v.wf(),
    ensures
        final(buf)@ == old(buf)@ + varint_bytes(v.0),
{
    let mut e = v.encode();
    buf.append(&mut e);
}

impl Default for VarInt {
    fn default() -> (r: Self)
        ensures
            r.0 == 0,
    {
        VarInt(0)
    }
}

} // verus!
