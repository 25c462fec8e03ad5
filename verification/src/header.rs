//! The header layer: the long-header family (Initial, 0-RTT, Handshake,
//! Retry, Version-Negotiate) and the short (1-RTT) header.
//!
//! Both shapes begin with a bit-packed first byte, written here
//! most-significant field first: for a long header
//! `[form, fixed, packet type (2), type-specific (4)]`, for a short
//! header `[form, fixed, spin, reserved (2), key phase, number length
//! (2)]`. The form bit is one for long headers and zero for short ones.

use crate::bits::BitsExt;
use crate::result::{ErrorKind, QuicheError, QuicheResult};
use crate::types::{ConnectionId, FourBits, HeaderForm, LongPacketType, PacketNumber, SingleBit,
    TwoBits};
use crate::varint::{lemma_parse_varint_bounded, lemma_parse_varint_len, lemma_varint_round_trip,
    parse_varint, push_varint, varint_bytes, VarInt, VARINT_MAX};
use crate::wire::{le32_bytes, le32_val, lemma_le32_round_trip, push_bytes, push_slice,
    push_u32_le, read_bytes, read_u32_le, read_u8};
use vstd::prelude::*;

verus! {

/// The model of a connection identifier: its declared length and bytes.
pub struct CidView {
    pub len: u8,
    pub bytes: Seq<u8>,
}

impl CidView {
    /// The declared length agrees with the bytes.
    pub open spec fn wf(self) -> bool {
        self.bytes.len() == self.len
    }
}

impl View for ConnectionId {
    type V = CidView;

    open spec fn view(&self) -> CidView {
        CidView { len: self.cid_len, bytes: self.cid@ }
    }
}

/// A length-prefixed connection identifier on the wire.
pub open spec fn cid_bytes(c: CidView) -> Seq<u8> {
    seq![c.len] + c.bytes
}

/// The model of a long-header extension.
pub enum ExtView {
    Initial { token_length: u64, token: Seq<u8>, length: u64, packet_number: u64 },
    ZeroRtt { length: u64, packet_number: u64 },
    Handshake { length: u64, packet_number: u64 },
    Retry { token: Seq<u8>, tag: Seq<u8> },
    VersionNegotiation { versions: Seq<u32> },
}

impl ExtView {
    pub open spec fn wf(self) -> bool {
        match self {
            ExtView::Initial { token_length, token, length, packet_number } => {
                &&& token_length <= VARINT_MAX
                &&& token.len() == token_length
                &&& length <= VARINT_MAX
                &&& packet_number <= VARINT_MAX
            },
            ExtView::ZeroRtt { length, packet_number } => length <= VARINT_MAX && packet_number
                <= VARINT_MAX,
            ExtView::Handshake { length, packet_number } => length <= VARINT_MAX && packet_number
                <= VARINT_MAX,
            ExtView::Retry { token, tag } => tag.len() == 16,
            ExtView::VersionNegotiation { versions } => true,
        }
    }

    /// A Retry or Version-Negotiate extension reads to the end of the
    /// datagram.
    pub open spec fn greedy(self) -> bool {
        self is Retry || self is VersionNegotiation
    }
}

/// The packed sequence of supported versions, each four bytes
/// little-endian.
pub open spec fn versions_bytes(versions: Seq<u32>) -> Seq<u8>
    decreases versions.len(),
{
    if versions.len() == 0 {
        Seq::empty()
    } else {
        le32_bytes(versions[0]) + versions_bytes(versions.drop_first())
    }
}

/// Reading a packed version list that fills the rest of the buffer.
pub open spec fn parse_versions(s: Seq<u8>) -> Result<Seq<u32>, ErrorKind>
    decreases s.len(),
{
    if s.len() == 0 {
        Ok(Seq::empty())
    } else if s.len() < 4 {
        Err(ErrorKind::Truncated)
    } else {
        match parse_versions(s.skip(4)) {
            Err(k) => Err(k),
            Ok(rest) => Ok(seq![le32_val(s.take(4))] + rest),
        }
    }
}

/// The wire bytes of a long-header extension.
pub open spec fn ext_bytes(e: ExtView) -> Seq<u8> {
    match e {
        ExtView::Initial { token_length, token, length, packet_number } => varint_bytes(
            token_length,
        ) + token + varint_bytes(length) + varint_bytes(packet_number),
        ExtView::ZeroRtt { length, packet_number } => varint_bytes(length) + varint_bytes(
            packet_number,
        ),
        ExtView::Handshake { length, packet_number } => varint_bytes(length) + varint_bytes(
            packet_number,
        ),
        ExtView::Retry { token, tag } => token + tag,
        ExtView::VersionNegotiation { versions } => versions_bytes(versions),
    }
}

/// The extension selector derived from the first header byte: the
/// long-packet-type bits, and for type zero the fixed bit, which tells
/// Initial (fixed one) from Version-Negotiate (fixed zero).
pub open spec fn ext_selector(packet_type: u8, fixed: u8) -> int {
    if packet_type == 0 {
        if fixed == 0 {
            4int
        } else {
            0int
        }
    } else {
        packet_type as int
    }
}

/// Reading the extension block chosen by `sel`.
#[verifier::opaque]
pub open spec fn parse_ext(s: Seq<u8>, sel: int) -> Result<(ExtView, Seq<u8>), ErrorKind> {
    if sel == 0 {
        match parse_varint(s) {
            Err(k) => Err(k),
            Ok((token_length, s1)) => {
                if token_length > s1.len() {
                    Err(ErrorKind::Truncated)
                } else {
                    let token = s1.take(token_length as int);
                    let s2 = s1.skip(token_length as int);
                    match parse_varint(s2) {
                        Err(k) => Err(k),
                        Ok((length, s3)) => match parse_varint(s3) {
                            Err(k) => Err(k),
                            Ok(
                                (packet_number, s4),
                            ) => Ok(
                                (
                                    ExtView::Initial { token_length, token, length, packet_number },
                                    s4,
                                ),
                            ),
                        },
                    }
                }
            },
        }
    } else if sel == 1 || sel == 2 {
        match parse_varint(s) {
            Err(k) => Err(k),
            Ok((length, s1)) => match parse_varint(s1) {
                Err(k) => Err(k),
                Ok((packet_number, s2)) => {
                    if sel == 1 {
                        Ok((ExtView::ZeroRtt { length, packet_number }, s2))
                    } else {
                        Ok((ExtView::Handshake { length, packet_number }, s2))
                    }
                },
            },
        }
    } else if sel == 3 {
        if s.len() < 16 {
            Err(ErrorKind::Truncated)
        } else {
            Ok(
                (
                    ExtView::Retry {
                        token: s.take(s.len() - 16),
                        tag: s.skip(s.len() - 16),
                    },
                    Seq::empty(),
                ),
            )
        }
    } else {
        match parse_versions(s) {
            Err(k) => Err(k),
            Ok(versions) => Ok((ExtView::VersionNegotiation { versions }, Seq::empty())),
        }
    }
}

/// A long header's type-specific tail. The Initial extension holds the
/// token and the length and packet-number fields; 0-RTT and Handshake
/// hold length and packet number; Retry holds its token and 16-byte
/// integrity tag; Version-Negotiate holds the supported versions.
#[derive(Debug, PartialEq, Eq, Clone)]
pub enum LongHeaderExtension {
    Initial { token_length: VarInt, token: Vec<u8>, length: VarInt, packet_number: PacketNumber },
    ZeroRTT { length: VarInt, packet_number: PacketNumber },
    Handshake { length: VarInt, packet_number: PacketNumber },
    Retry { retry_token: Vec<u8>, retry_integrity_tag: [u8; 16] },
    VersionNegotiation { supported_versions: Vec<u32> },
}

impl View for LongHeaderExtension {
    type V = ExtView;

    open spec fn view(&self) -> ExtView {
        match self {
            LongHeaderExtension::Initial { token_length, token, length, packet_number } => ExtView::Initial {
                token_length: token_length.0,
                token: token@,
                length: length.0,
                packet_number: packet_number.0.0,
            },
            LongHeaderExtension::ZeroRTT { length, packet_number } => ExtView::ZeroRtt {
                length: length.0,
                packet_number: packet_number.0.0,
            },
            LongHeaderExtension::Handshake { length, packet_number } => ExtView::Handshake {
                length: length.0,
                packet_number: packet_number.0.0,
            },
            LongHeaderExtension::Retry { retry_token, retry_integrity_tag } => ExtView::Retry {
                token: retry_token@,
                tag: retry_integrity_tag@,
            },
            LongHeaderExtension::VersionNegotiation { supported_versions } => ExtView::VersionNegotiation {
                versions: supported_versions@,
            },
        }
    }
}

impl LongHeaderExtension {
    /// Encodes the extension's fields in their wire order.
    pub fn encode(&self) -> (r: QuicheResult<Vec<u8>>)
        requires
            self@.wf(),
        ensures
            r is Ok && r->Ok_0@ == ext_bytes(self@),
    {
        let mut bytes: Vec<u8> = Vec::new();
        match self {
            LongHeaderExtension::Initial { token_length, token, length, packet_number } => {
                push_varint(&mut bytes, *token_length);
                push_bytes(&mut bytes, token);
                push_varint(&mut bytes, *length);
                push_varint(&mut bytes, packet_number.0);
            },
            LongHeaderExtension::ZeroRTT { length, packet_number }
            | LongHeaderExtension::Handshake { length, packet_number } => {
                push_varint(&mut bytes, *length);
                push_varint(&mut bytes, packet_number.0);
            },
            LongHeaderExtension::Retry { retry_token, retry_integrity_tag } => {
                push_bytes(&mut bytes, retry_token);
                push_slice(&mut bytes, retry_integrity_tag.as_slice());
            },
            LongHeaderExtension::VersionNegotiation { supported_versions } => {
                let ghost vs = supported_versions@;
                let mut i: usize = 0;
                proof {
                    assert(vs.skip(0) =~= vs);
                    assert(bytes@ + versions_bytes(vs) =~= versions_bytes(vs));
                }
                while i < supported_versions.len()
                    invariant
                        i <= vs.len(),
                        vs == supported_versions@,
                        versions_bytes(vs) == bytes@ + versions_bytes(vs.skip(i as int)),
                    decreases vs.len() - i,
                {
                    let ghost pre = bytes@;
                    push_u32_le(&mut bytes, supported_versions[i]);
                    proof {
                        assert(vs.skip(i as int).drop_first() =~= vs.skip(i + 1));
                        assert(vs.skip(i as int)[0] == vs[i as int]);
                        assert((pre + le32_bytes(vs[i as int])) + versions_bytes(vs.skip(i + 1))
                            =~= pre + versions_bytes(vs.skip(i as int)));
                    }
                    i = i + 1;
                }
                proof {
                    assert(versions_bytes(vs.skip(vs.len() as int)) =~= Seq::<u8>::empty());
                    assert(bytes@ + Seq::<u8>::empty() =~= bytes@);
                }
            },
        }
        assert(bytes@ =~= ext_bytes(self@));
        Ok(bytes)
    }

    /// Reads the extension block chosen by `sel` from the front of the
    /// buffer; Retry and Version-Negotiate take the whole buffer.
    pub fn decode(bytes: &mut Vec<u8>, sel: u8) -> (r: QuicheResult<Self>)
        requires
            sel <= 4,
        ensures
            match parse_ext(old(bytes)@, sel as int) {
                Ok((e, rest)) => r is Ok && r->Ok_0@ == e && final(bytes)@ == rest,
                Err(k) => r is Err && r->Err_0.kind == k,
            },
    {
        proof {
            reveal(parse_ext);
        }
        if sel == 0 {
            let token_length = match VarInt::decode(bytes) {
                Ok(v) => v,
                Err(e) => { return Err(e) },
            };
            if token_length.to_inner() > bytes.len() as u64 {
                return Err(QuicheError::new(ErrorKind::Truncated, "buffer ended inside a token"));
            }
            let token = match read_bytes(bytes, token_length.to_inner() as usize) {
                Ok(d) => d,
                Err(e) => { return Err(e) },
            };
            let length = match VarInt::decode(bytes) {
                Ok(v) => v,
                Err(e) => { return Err(e) },
            };
            let packet_number = match VarInt::decode(bytes) {
                Ok(v) => v,
                Err(e) => { return Err(e) },
            };
            Ok(
                LongHeaderExtension::Initial {
                    token_length,
                    token,
                    length,
                    packet_number: PacketNumber(packet_number),
                },
            )
        } else if sel == 1 || sel == 2 {
            let length = match VarInt::decode(bytes) {
                Ok(v) => v,
                Err(e) => { return Err(e) },
            };
            let packet_number = match VarInt::decode(bytes) {
                Ok(v) => v,
                Err(e) => { return Err(e) },
            };
            if sel == 1 {
                Ok(LongHeaderExtension::ZeroRTT { length, packet_number: PacketNumber(packet_number) })
            } else {
                Ok(
                    LongHeaderExtension::Handshake {
                        length,
                        packet_number: PacketNumber(packet_number),
                    },
                )
            }
        } else if sel == 3 {
            if bytes.len() < 16 {
                return Err(
                    QuicheError::new(ErrorKind::Truncated, "buffer ended inside a retry tag"),
                );
            }
            let token_len = bytes.len() - 16;
            let retry_token = match read_bytes(bytes, token_len) {
                Ok(d) => d,
                Err(e) => { return Err(e) },
            };
            let tag = match read_bytes(bytes, 16) {
                Ok(d) => d,
                Err(e) => { return Err(e) },
            };
            let retry_integrity_tag: [u8; 16] = [
                tag[0],
                tag[1],
                tag[2],
                tag[3],
                tag[4],
                tag[5],
                tag[6],
                tag[7],
                tag[8],
                tag[9],
                tag[10],
                tag[11],
                tag[12],
                tag[13],
                tag[14],
                tag[15],
            ];
            proof {
                assert(retry_integrity_tag@ =~= tag@);
                assert(tag@ =~= old(bytes)@.skip(token_len as int).take(16));
                assert(old(bytes)@.skip(token_len as int).take(16) =~= old(bytes)@.skip(
                    old(bytes)@.len() - 16,
                ));
                assert(bytes@ =~= Seq::<u8>::empty());
            }
            Ok(LongHeaderExtension::Retry { retry_token, retry_integrity_tag })
        } else {
            let ghost s0 = bytes@;
            let mut supported_versions: Vec<u32> = Vec::new();
            proof {
                assert(join_versions(supported_versions@, parse_versions(bytes@))
                    == parse_versions(s0));
            }
            while bytes.len() > 0
                invariant
                    sel == 4,
                    s0 == old(bytes)@,
                    parse_versions(s0) == join_versions(supported_versions@, parse_versions(
                        bytes@,
                    )),
                decreases bytes@.len(),
            {
                let ghost pre = bytes@;
                let ghost acc = supported_versions@;
                let v = match read_u32_le(bytes) {
                    Ok(v) => v,
                    Err(e) => {
                        proof {
                            reveal(parse_ext);
                        }
                        return Err(e)
                    },
                };
                supported_versions.push(v);
                proof {
                    lemma_join_versions_assoc(acc, seq![v], parse_versions(bytes@));
                    assert(acc + seq![v] =~= supported_versions@);
                }
            }
            proof {
                assert(supported_versions@ + Seq::<u32>::empty() =~= supported_versions@);
            }
            Ok(LongHeaderExtension::VersionNegotiation { supported_versions })
        }
    }
}

/// Prepending already-read versions to the outcome of reading the rest.
spec fn join_versions(acc: Seq<u32>, r: Result<Seq<u32>, ErrorKind>) -> Result<
    Seq<u32>,
    ErrorKind,
> {
    match r {
        Ok(vs) => Ok(acc + vs),
        Err(k) => Err(k),
    }
}

proof fn lemma_join_versions_assoc(acc: Seq<u32>, one: Seq<u32>, r: Result<Seq<u32>, ErrorKind>)
    ensures
        join_versions(acc, join_versions(one, r)) == join_versions(acc + one, r),
{
    match r {
        Ok(vs) => {
            assert(acc + (one + vs) =~= (acc + one) + vs);
        },
        Err(k) => {},
    }
}

/// The model of a long header.
pub struct LongView {
    pub form: u8,
    pub fixed: u8,
    pub packet_type: u8,
    pub type_bits: u8,
    pub version: u32,
    pub dst: CidView,
    pub src: CidView,
    pub ext: ExtView,
}

impl LongView {
    /// Bit fields in range, identifiers consistent, and the extension
    /// variant the one that the packet-type and fixed bits select.
    pub open spec fn wf(self) -> bool {
        &&& self.form == 1
        &&& self.fixed <= 1
        &&& self.packet_type <= 3
        &&& self.type_bits <= 15
        &&& self.dst.wf()
        &&& self.src.wf()
        &&& self.ext.wf()
        &&& (self.packet_type == 0 && self.fixed == 1 <==> self.ext is Initial)
        &&& (self.packet_type == 0 && self.fixed == 0 <==> self.ext is VersionNegotiation)
        &&& (self.packet_type == 1 <==> self.ext is ZeroRtt)
        &&& (self.packet_type == 2 <==> self.ext is Handshake)
        &&& (self.packet_type == 3 <==> self.ext is Retry)
    }
}

/// The model of a short header.
pub struct ShortView {
    pub form: u8,
    pub fixed: u8,
    pub spin: u8,
    pub reserved: u8,
    pub key_phase: u8,
    pub number_len: u8,
    pub dst: CidView,
    pub number: Seq<u8>,
}

impl ShortView {
    /// Bit fields in range and one more packet-number byte than the
    /// two-bit length field says.
    pub open spec fn wf(self) -> bool {
        &&& self.form == 0
        &&& self.fixed <= 1
        &&& self.spin <= 1
        &&& self.reserved <= 3
        &&& self.key_phase <= 1
        &&& self.number_len <= 3
        &&& self.dst.wf()
        &&& self.number.len() == self.number_len + 1
    }
}

/// The model of a header: the long sub-forms and the short form.
pub enum HeaderView {
    Initial(LongView),
    Retry(LongView),
    VersionNegotiate(LongView),
    Long(LongView),
    Short(ShortView),
}

impl HeaderView {
    /// The wrapped variant agrees with the bits that decoding
    /// dispatches on.
    pub open spec fn wf(self) -> bool {
        match self {
            HeaderView::Initial(l) => l.wf() && l.packet_type == 0 && l.fixed == 1,
            HeaderView::Retry(l) => l.wf() && l.packet_type == 3,
            HeaderView::VersionNegotiate(l) => l.wf() && l.packet_type == 0 && l.fixed == 0,
            HeaderView::Long(l) => l.wf() && (l.packet_type == 1 || l.packet_type == 2),
            HeaderView::Short(s) => s.wf(),
        }
    }

    /// A header whose extension reads to the end of the datagram.
    pub open spec fn greedy(self) -> bool {
        match self {
            HeaderView::Initial(l) => l.ext.greedy(),
            HeaderView::Retry(l) => l.ext.greedy(),
            HeaderView::VersionNegotiate(l) => l.ext.greedy(),
            HeaderView::Long(l) => l.ext.greedy(),
            HeaderView::Short(s) => false,
        }
    }

    /// Whether packets under this header carry frames: Retry and
    /// Version-Negotiate packets do not.
    pub open spec fn carries_frames(self) -> bool {
        !(self is Retry || self is VersionNegotiate)
    }
}

/// The extension selector a well-formed extension encodes to.
pub open spec fn selector_of(e: ExtView) -> int {
    match e {
        ExtView::Initial { .. } => 0,
        ExtView::ZeroRtt { .. } => 1,
        ExtView::Handshake { .. } => 2,
        ExtView::Retry { .. } => 3,
        ExtView::VersionNegotiation { .. } => 4,
    }
}

/// The packed first byte of a long header, most-significant field
/// first.
pub open spec fn long_first_byte(l: LongView) -> u8 {
    (128 * l.form + 64 * l.fixed + 16 * l.packet_type + l.type_bits) as u8
}

/// The packed first byte of a short header, most-significant field
/// first.
pub open spec fn short_first_byte(s: ShortView) -> u8 {
    (128 * s.form + 64 * s.fixed + 32 * s.spin + 8 * s.reserved + 4 * s.key_phase
        + s.number_len) as u8
}

/// The wire bytes of a long header: the first byte, the 32-bit version
/// little-endian, both length-prefixed connection identifiers, then the
/// extension.
pub open spec fn long_bytes(l: LongView) -> Seq<u8> {
    seq![long_first_byte(l)] + le32_bytes(l.version) + cid_bytes(l.dst) + cid_bytes(l.src)
        + ext_bytes(l.ext)
}

/// The wire bytes of a short header: the first byte, the destination
/// identifier with its length byte, then the packet-number bytes.
pub open spec fn short_bytes(s: ShortView) -> Seq<u8> {
    seq![short_first_byte(s)] + cid_bytes(s.dst) + s.number
}

/// The long view a header view wraps; short headers give an arbitrary
/// long view and are never asked.
pub open spec fn long_of(hv: HeaderView) -> LongView
    recommends
        !(hv is Short),
{
    match hv {
        HeaderView::Initial(l) => l,
        HeaderView::Retry(l) => l,
        HeaderView::VersionNegotiate(l) => l,
        HeaderView::Long(l) => l,
        HeaderView::Short(s) => arbitrary(),
    }
}

/// The wire bytes of a header.
pub open spec fn header_bytes(hv: HeaderView) -> Seq<u8> {
    match hv {
        HeaderView::Short(s) => short_bytes(s),
        _ => long_bytes(long_of(hv)),
    }
}

/// Reading a length-prefixed connection identifier.
pub open spec fn parse_cid(s: Seq<u8>) -> Result<(CidView, Seq<u8>), ErrorKind> {
    if s.len() == 0 {
        Err(ErrorKind::Truncated)
    } else {
        let len = s[0];
        let t = s.skip(1);
        if len > t.len() {
            Err(ErrorKind::Truncated)
        } else {
            Ok((CidView { len, bytes: t.take(len as int) }, t.skip(len as int)))
        }
    }
}

/// Reading a long header: the packed first byte, version, identifiers
/// and extension, wrapped in the sub-form the type bits select.
#[verifier::opaque]
pub open spec fn parse_long(s: Seq<u8>) -> Result<(HeaderView, Seq<u8>), ErrorKind> {
    if s.len() == 0 {
        Err(ErrorKind::Truncated)
    } else {
        let b0 = s[0];
        let t = s.skip(1);
        let form = b0 / 128;
        let fixed = (b0 / 64) % 2;
        let lpt = (b0 / 16) % 4;
        let tsb = b0 % 16;
        if t.len() < 4 {
            Err(ErrorKind::Truncated)
        } else {
            let version = le32_val(t.take(4));
            match parse_cid(t.skip(4)) {
                Err(k) => Err(k),
                Ok((dst, t1)) => match parse_cid(t1) {
                    Err(k) => Err(k),
                    Ok((src, t2)) => match parse_ext(t2, ext_selector(lpt, fixed)) {
                        Err(k) => Err(k),
                        Ok((ext, rest)) => {
                            let lv = LongView {
                                form,
                                fixed,
                                packet_type: lpt,
                                type_bits: tsb,
                                version,
                                dst,
                                src,
                                ext,
                            };
                            if lpt == 0 {
                                if fixed == 0 {
                                    Ok((HeaderView::VersionNegotiate(lv), rest))
                                } else {
                                    Ok((HeaderView::Initial(lv), rest))
                                }
                            } else if lpt == 3 {
                                Ok((HeaderView::Retry(lv), rest))
                            } else {
                                Ok((HeaderView::Long(lv), rest))
                            }
                        },
                    },
                },
            }
        }
    }
}

/// Reading a short header: the packed first byte, the destination
/// identifier, and one more packet-number byte than the two-bit length
/// field says.
#[verifier::opaque]
pub open spec fn parse_short(s: Seq<u8>) -> Result<(HeaderView, Seq<u8>), ErrorKind> {
    if s.len() == 0 {
        Err(ErrorKind::Truncated)
    } else {
        let b0 = s[0];
        let t = s.skip(1);
        let form = b0 / 128;
        let fixed = (b0 / 64) % 2;
        let spin = (b0 / 32) % 2;
        let reserved = (b0 / 8) % 4;
        let key_phase = (b0 / 4) % 2;
        let number_len = b0 % 4;
        match parse_cid(t) {
            Err(k) => Err(k),
            Ok((dst, t1)) => {
                if t1.len() < number_len + 1 {
                    Err(ErrorKind::Truncated)
                } else {
                    Ok(
                        (
                            HeaderView::Short(
                                ShortView {
                                    form,
                                    fixed,
                                    spin,
                                    reserved,
                                    key_phase,
                                    number_len,
                                    dst,
                                    number: t1.take(number_len + 1),
                                },
                            ),
                            t1.skip(number_len + 1),
                        ),
                    )
                }
            },
        }
    }
}

/// Reading a header: the most significant bit of the first byte picks
/// the long or the short shape.
pub open spec fn parse_header(s: Seq<u8>) -> Result<(HeaderView, Seq<u8>), ErrorKind> {
    if s.len() == 0 {
        Err(ErrorKind::Truncated)
    } else if s[0] >= 128 {
        parse_long(s)
    } else {
        parse_short(s)
    }
}

/// Law: reading back a packed version list yields the list.
pub proof fn lemma_versions_round_trip(versions: Seq<u32>)
    ensures
        versions_bytes(versions).len() == 4 * versions.len(),
        parse_versions(versions_bytes(versions)) == Ok::<Seq<u32>, ErrorKind>(versions),
    decreases versions.len(),
{
    if versions.len() == 0 {
        assert(versions =~= Seq::<u32>::empty());
    } else {
        let v = versions[0];
        let tail = versions_bytes(versions.drop_first());
        let s = versions_bytes(versions);
        lemma_le32_round_trip(v);
        lemma_versions_round_trip(versions.drop_first());
        assert(s =~= le32_bytes(v) + tail);
        assert(s.take(4) =~= le32_bytes(v));
        assert(s.skip(4) =~= tail);
        assert(seq![le32_val(s.take(4))] + versions.drop_first() =~= versions);
    }
}

/// Reads a length-prefixed connection identifier from the buffer.
fn read_cid(bytes: &mut Vec<u8>) -> (r: QuicheResult<ConnectionId>)
    ensures
        match parse_cid(old(bytes)@) {
            Ok((c, rest)) => r is Ok && r->Ok_0@ == c && final(bytes)@ == rest,
            Err(k) => r is Err && r->Err_0.kind == k,
        },
{
    let len = match read_u8(bytes) {
        Ok(b) => b,
        Err(e) => { return Err(e) },
    };
    if len as usize > bytes.len() {
        return Err(
            QuicheError::new(ErrorKind::Truncated, "buffer ended inside a connection id"),
        );
    }
    let cid = match read_bytes(bytes, len as usize) {
        Ok(d) => d,
        Err(e) => { return Err(e) },
    };
    Ok(ConnectionId::new(len, cid))
}

/// Appends a length-prefixed connection identifier.
fn write_cid(out: &mut Vec<u8>, cid: &ConnectionId)
    ensures
        final(out)@ == old(out)@ + cid_bytes(cid@),
{
    out.push(cid.cid_len);
    push_bytes(out, &cid.cid);
    assert(final(out)@ =~= old(out)@ + cid_bytes(cid@));
}

/// A decoded packet header: one of the five long sub-forms, or short.
#[derive(Debug, PartialEq, Eq, Clone)]
pub enum Header {
    Initial(LongHeader),
    Retry(LongHeader),
    VersionNegotiate(LongHeader),
    Long(LongHeader),
    Short(ShortHeader),
}

impl View for Header {
    type V = HeaderView;

    open spec fn view(&self) -> HeaderView {
        match self {
            Header::Initial(h) => HeaderView::Initial(h@),
            Header::Retry(h) => HeaderView::Retry(h@),
            Header::VersionNegotiate(h) => HeaderView::VersionNegotiate(h@),
            Header::Long(h) => HeaderView::Long(h@),
            Header::Short(h) => HeaderView::Short(h@),
        }
    }
}

/// A long header: bit-packed first byte, version, two connection
/// identifiers and a type-specific extension.
#[derive(Debug, PartialEq, Eq, Clone)]
pub struct LongHeader {
    pub header_form: HeaderForm,
    // one in every long header; zero only in version negotiation
    pub fixed_bit: SingleBit,
    pub long_packet_type: LongPacketType,
    // semantics of these bits depend on the long packet type
    pub type_specific_bits: FourBits,
    pub version_id: u32,
    pub dst_cid: ConnectionId,
    pub src_cid: ConnectionId,
    pub extension: LongHeaderExtension,
}

impl View for LongHeader {
    type V = LongView;

    open spec fn view(&self) -> LongView {
        LongView {
            form: self.header_form.value(),
            fixed: self.fixed_bit.value(),
            packet_type: self.long_packet_type.value(),
            type_bits: self.type_specific_bits.value(),
            version: self.version_id,
            dst: self.dst_cid@,
            src: self.src_cid@,
            ext: self.extension@,
        }
    }
}

impl LongHeader {
    /// The fixed-prefix length: first byte, version and the two
    /// length-prefixed identifiers, excluding the extension. A total
    /// above 47 bytes, possible only through an over-long identifier,
    /// is refused.
    pub fn len(&self) -> (r: QuicheResult<usize>)
        ensures
            7 + self.dst_cid.cid_len + self.src_cid.cid_len <= 47 ==> r is Ok && r->Ok_0 == 7
                + self.dst_cid.cid_len + self.src_cid.cid_len,
            7 + self.dst_cid.cid_len + self.src_cid.cid_len > 47 ==> r is Err && r->Err_0.kind
                == ErrorKind::LengthBoundExceeded,
    {
        let len: usize = 7 + self.dst_cid.cid_len as usize + self.src_cid.cid_len as usize;
        if len <= 47 {
            Ok(len)
        } else {
            Err(
                QuicheError::new(
                    ErrorKind::LengthBoundExceeded,
                    "LongHeader length must not exceed 47 bytes",
                ),
            )
        }
    }

    /// Builds a long header of the given type; the form and fixed bits
    /// are set as every non-negotiation long header carries them.
    pub fn new(
        long_packet_type: LongPacketType,
        type_specific_bits: FourBits,
        version_id: u32,
        dst_cid: ConnectionId,
        src_cid: ConnectionId,
        extension: LongHeaderExtension,
    ) -> (r: Self)
        ensures
            r@ == (LongView {
                form: 1,
                fixed: 1,
                packet_type: long_packet_type.value(),
                type_bits: type_specific_bits.value(),
                version: version_id,
                dst: dst_cid@,
                src: src_cid@,
                ext: extension@,
            }),
    {
        Self {
            header_form: HeaderForm::long(),
            fixed_bit: SingleBit::one(),
            long_packet_type,
            type_specific_bits,
            version_id,
            dst_cid,
            src_cid,
            extension,
        }
    }

    /// Builds an Initial header from its fields.
    pub fn initial(
        version_id: u32,
        dst_cid: ConnectionId,
        src_cid: ConnectionId,
        type_specific_bits: FourBits,
        token_length: VarInt,
        token: Vec<u8>,
        length: VarInt,
        packet_number: PacketNumber,
    ) -> (r: Self)
        ensures
            r@ == (LongView {
                form: 1,
                fixed: 1,
                packet_type: 0,
                type_bits: type_specific_bits.value(),
                version: version_id,
                dst: dst_cid@,
                src: src_cid@,
                ext: ExtView::Initial {
                    token_length: token_length.0,
                    token: token@,
                    length: length.0,
                    packet_number: packet_number.0.0,
                },
            }),
    {
        Self {
            header_form: HeaderForm::long(),
            fixed_bit: SingleBit::one(),
            long_packet_type: LongPacketType::initial(),
            type_specific_bits,
            version_id,
            dst_cid,
            src_cid,
            extension: LongHeaderExtension::Initial {
                token_length,
                token,
                length,
                packet_number,
            },
        }
    }

    /// Builds a Version-Negotiate header: fixed bit zero, type bits
    /// zero, version zero, and the supported versions as extension.
    pub fn version_negotiate(
        dst_cid: ConnectionId,
        src_cid: ConnectionId,
        supported_versions: Vec<u32>,
    ) -> (r: Self)
        ensures
            r@ == (LongView {
                form: 1,
                fixed: 0,
                packet_type: 0,
                type_bits: 0,
                version: 0,
                dst: dst_cid@,
                src: src_cid@,
                ext: ExtView::VersionNegotiation { versions: supported_versions@ },
            }),
    {
        Self {
            header_form: HeaderForm::long(),
            fixed_bit: SingleBit::zero(),
            long_packet_type: LongPacketType::zero(),
            type_specific_bits: FourBits::zero(),
            version_id: 0,
            dst_cid,
            src_cid,
            extension: LongHeaderExtension::VersionNegotiation { supported_versions },
        }
    }

    /// Reads a long header from the front of the buffer, leaving
    /// whatever follows it.
    pub(crate) fn decode_partial(bytes: &mut Vec<u8>) -> (r: QuicheResult<Header>)
        ensures
            match parse_long(old(bytes)@) {
                Ok((hv, rest)) => r is Ok && r->Ok_0@ == hv && final(bytes)@ == rest,
                Err(k) => r is Err && r->Err_0.kind == k,
            },
    {
        proof {
            reveal(parse_long);
        }
        let b0 = match read_u8(bytes) {
            Ok(b) => b,
            Err(e) => { return Err(e) },
        };
        let header_form = HeaderForm::from_num(b0 / 128);
        let fixed_bit = SingleBit::from_num((b0 / 64) % 2);
        let long_packet_type = LongPacketType::from_num((b0 / 16) % 4);
        let type_specific_bits = FourBits::from_num(b0 % 16);
        let version_id = match read_u32_le(bytes) {
            Ok(v) => v,
            Err(e) => { return Err(e) },
        };
        let dst_cid = match read_cid(bytes) {
            Ok(c) => c,
            Err(e) => { return Err(e) },
        };
        let src_cid = match read_cid(bytes) {
            Ok(c) => c,
            Err(e) => { return Err(e) },
        };
        let lpt = (b0 / 16) % 4;
        let fixed = (b0 / 64) % 2;
        let sel: u8 = if lpt == 0 {
            if fixed == 0 {
                4
            } else {
                0
            }
        } else {
            lpt
        };
        let extension = match LongHeaderExtension::decode(bytes, sel) {
            Ok(e) => e,
            Err(e) => { return Err(e) },
        };
        let header = LongHeader {
            header_form,
            fixed_bit,
            long_packet_type,
            type_specific_bits,
            version_id,
            dst_cid,
            src_cid,
            extension,
        };
        if lpt == 0 {
            if fixed == 0 {
                Ok(Header::VersionNegotiate(header))
            } else {
                Ok(Header::Initial(header))
            }
        } else if lpt == 3 {
            Ok(Header::Retry(header))
        } else {
            Ok(Header::Long(header))
        }
    }

    /// Reads a long header that must fill the whole buffer; bytes left
    /// over after the extension are a failure.
    pub fn decode(bytes: &mut Vec<u8>) -> (r: QuicheResult<Header>)
        ensures
            match parse_long(old(bytes)@) {
                Ok((hv, rest)) => {
                    if rest.len() == 0 {
                        r is Ok && r->Ok_0@ == hv && final(bytes)@ == rest
                    } else {
                        r is Err && r->Err_0.kind == ErrorKind::FrameEncodingError
                    }
                },
                Err(k) => r is Err && r->Err_0.kind == k,
            },
    {
        let header = match Self::decode_partial(bytes) {
            Ok(h) => h,
            Err(e) => { return Err(e) },
        };
        if bytes.len() > 0 {
            return Err(
                QuicheError::new(
                    ErrorKind::FrameEncodingError,
                    "long header did not use the whole buffer",
                ),
            );
        }
        Ok(header)
    }

    /// Encodes the header: packed first byte, version, identifiers,
    /// extension. The fixed prefix must stay within 47 bytes.
    pub fn encode(&self) -> (r: QuicheResult<Vec<u8>>)
        requires
            self@.wf(),
        ensures
            7 + self.dst_cid.cid_len + self.src_cid.cid_len <= 47 ==> r is Ok && r->Ok_0@
                == long_bytes(self@),
            7 + self.dst_cid.cid_len + self.src_cid.cid_len > 47 ==> r is Err && r->Err_0.kind
                == ErrorKind::LengthBoundExceeded,
    {
        match self.len() {
            Ok(_) => {},
            Err(e) => { return Err(e) },
        }
        let mut bytes: Vec<u8> = Vec::new();
        let b0: u8 = 128 * self.header_form.to_inner() + 64 * self.fixed_bit.to_inner() + 16
            * self.long_packet_type.to_inner() + self.type_specific_bits.to_inner();
        bytes.push(b0);
        push_u32_le(&mut bytes, self.version_id);
        write_cid(&mut bytes, &self.dst_cid);
        write_cid(&mut bytes, &self.src_cid);
        let ext = match self.extension.encode() {
            Ok(e) => e,
            Err(e) => { return Err(e) },
        };
        push_bytes(&mut bytes, &ext);
        assert(bytes@ =~= long_bytes(self@));
        Ok(bytes)
    }

    /// The number of bytes the extension of the long header at the
    /// front of `bytes` occupies, found by reading the length-bearing
    /// fields; the buffer itself is left untouched.
    pub fn extension_length(bytes: &Vec<u8>) -> (r: QuicheResult<usize>)
        ensures
            match parse_long(bytes@) {
                Ok((hv, rest)) => r is Ok && r->Ok_0 + 7 + long_of(hv).dst.len + long_of(
                    hv,
                ).src.len + rest.len() == bytes@.len(),
                Err(k) => r is Err && r->Err_0.kind == k,
            },
    {
        let mut copy = crate::wire::copy_bytes(bytes);
        let header = match Self::decode_partial(&mut copy) {
            Ok(h) => h,
            Err(e) => { return Err(e) },
        };
        proof {
            lemma_parse_long_base(bytes@);
        }
        let consumed = bytes.len() - copy.len();
        let base: usize = match &header {
            Header::Initial(h) | Header::Retry(h) | Header::VersionNegotiate(h)
            | Header::Long(h) => 7 + h.dst_cid.cid_len as usize + h.src_cid.cid_len as usize,
            Header::Short(_) => {
                // a long-header parse never yields the short form
                proof {
                    assert(false);
                }
                7
            },
        };
        Ok(consumed - base)
    }
}

/// A short (1-RTT) header: packed first byte, destination identifier
/// and packet-number bytes. The identifier carries an explicit length
/// byte here so that a header can round-trip on its own, without the
/// negotiated connection context that fixes its length.
#[derive(Debug, PartialEq, Eq, Clone)]
pub struct ShortHeader {
    pub header_form: HeaderForm,
    // packets with a zero fixed bit are not valid in QUIC version 1
    pub fixed_bit: SingleBit,
    // spun once per round trip for passive latency measurement
    pub spin_bit: SingleBit,
    pub reserved_bits: TwoBits,
    // identifies the packet protection keys in use
    pub key_phase: SingleBit,
    // one less than the number of packet-number bytes
    pub number_len: TwoBits,
    pub dst_cid: ConnectionId,
    // 1 to 4 bytes
    pub number: Vec<u8>,
}

impl View for ShortHeader {
    type V = ShortView;

    open spec fn view(&self) -> ShortView {
        ShortView {
            form: self.header_form.value(),
            fixed: self.fixed_bit.value(),
            spin: self.spin_bit.value(),
            reserved: self.reserved_bits.value(),
            key_phase: self.key_phase.value(),
            number_len: self.number_len.value(),
            dst: self.dst_cid@,
            number: self.number@,
        }
    }
}

impl ShortHeader {
    /// The defensive length count of the short header's fields; a total
    /// above 33, possible only through an over-long identifier, is
    /// refused.
    pub fn len(&self) -> (r: QuicheResult<usize>)
        ensures
            13 + self.dst_cid.cid_len <= 33 ==> r is Ok && r->Ok_0 == 13 + self.dst_cid.cid_len,
            13 + self.dst_cid.cid_len > 33 ==> r is Err && r->Err_0.kind
                == ErrorKind::LengthBoundExceeded,
    {
        let len: usize = 13 + self.dst_cid.cid_len as usize;
        if len <= 33 {
            Ok(len)
        } else {
            Err(
                QuicheError::new(
                    ErrorKind::LengthBoundExceeded,
                    "ShortHeader length must not exceed 33 bytes",
                ),
            )
        }
    }

    /// Builds a short header; the form and fixed bits are set as every
    /// 1-RTT header carries them.
    pub fn new(
        spin_bit: SingleBit,
        reserved_bits: TwoBits,
        key_phase: SingleBit,
        number_len: TwoBits,
        dst_cid: ConnectionId,
        number: Vec<u8>,
    ) -> (r: Self)
        ensures
            r@ == (ShortView {
                form: 0,
                fixed: 1,
                spin: spin_bit.value(),
                reserved: reserved_bits.value(),
                key_phase: key_phase.value(),
                number_len: number_len.value(),
                dst: dst_cid@,
                number: number@,
            }),
    {
        Self {
            header_form: HeaderForm::short(),
            fixed_bit: SingleBit::one(),
            spin_bit,
            reserved_bits,
            key_phase,
            number_len,
            dst_cid,
            number,
        }
    }

    /// Builds the 1-RTT header; the same shape as `new`.
    pub fn one_rtt(
        spin_bit: SingleBit,
        reserved_bits: TwoBits,
        key_phase: SingleBit,
        number_len: TwoBits,
        dst_cid: ConnectionId,
        number: Vec<u8>,
    ) -> (r: Self)
        ensures
            r@ == (ShortView {
                form: 0,
                fixed: 1,
                spin: spin_bit.value(),
                reserved: reserved_bits.value(),
                key_phase: key_phase.value(),
                number_len: number_len.value(),
                dst: dst_cid@,
                number: number@,
            }),
    {
        Self::new(spin_bit, reserved_bits, key_phase, number_len, dst_cid, number)
    }

    /// Reads a short header from the front of the buffer, leaving
    /// whatever follows it.
    pub(crate) fn decode_partial(bytes: &mut Vec<u8>) -> (r: QuicheResult<Header>)
        ensures
            match parse_short(old(bytes)@) {
                Ok((hv, rest)) => r is Ok && r->Ok_0@ == hv && final(bytes)@ == rest,
                Err(k) => r is Err && r->Err_0.kind == k,
            },
    {
        proof {
            reveal(parse_short);
        }
        let b0 = match read_u8(bytes) {
            Ok(b) => b,
            Err(e) => { return Err(e) },
        };
        let header_form = HeaderForm::from_num(b0 / 128);
        let fixed_bit = SingleBit::from_num((b0 / 64) % 2);
        let spin_bit = SingleBit::from_num((b0 / 32) % 2);
        let reserved_bits = TwoBits::from_num((b0 / 8) % 4);
        let key_phase = SingleBit::from_num((b0 / 4) % 2);
        let number_len = TwoBits::from_num(b0 % 4);
        let dst_cid = match read_cid(bytes) {
            Ok(c) => c,
            Err(e) => { return Err(e) },
        };
        let n = (b0 % 4) as usize + 1;
        if n > bytes.len() {
            return Err(
                QuicheError::new(ErrorKind::Truncated, "buffer ended inside a packet number"),
            );
        }
        let number = match read_bytes(bytes, n) {
            Ok(d) => d,
            Err(e) => { return Err(e) },
        };
        Ok(
            Header::Short(
                ShortHeader {
                    header_form,
                    fixed_bit,
                    spin_bit,
                    reserved_bits,
                    key_phase,
                    number_len,
                    dst_cid,
                    number,
                },
            ),
        )
    }

    /// Reads a short header that must fill the whole buffer; bytes left
    /// over after the packet number are a failure.
    pub fn decode(bytes: &mut Vec<u8>) -> (r: QuicheResult<Header>)
        ensures
            match parse_short(old(bytes)@) {
                Ok((hv, rest)) => {
                    if rest.len() == 0 {
                        r is Ok && r->Ok_0@ == hv && final(bytes)@ == rest
                    } else {
                        r is Err && r->Err_0.kind == ErrorKind::FrameEncodingError
                    }
                },
                Err(k) => r is Err && r->Err_0.kind == k,
            },
    {
        let header = match Self::decode_partial(bytes) {
            Ok(h) => h,
            Err(e) => { return Err(e) },
        };
        if bytes.len() > 0 {
            return Err(
                QuicheError::new(
                    ErrorKind::FrameEncodingError,
                    "short header did not use the whole buffer",
                ),
            );
        }
        Ok(header)
    }

    /// Encodes the header: packed first byte, destination identifier,
    /// packet-number bytes. The field count must stay within 33 bytes.
    pub fn encode(&self) -> (r: QuicheResult<Vec<u8>>)
        requires
            self@.wf(),
        ensures
            13 + self.dst_cid.cid_len <= 33 ==> r is Ok && r->Ok_0@ == short_bytes(self@),
            13 + self.dst_cid.cid_len > 33 ==> r is Err && r->Err_0.kind
                == ErrorKind::LengthBoundExceeded,
    {
        match self.len() {
            Ok(_) => {},
            Err(e) => { return Err(e) },
        }
        let mut bytes: Vec<u8> = Vec::new();
        let b0: u8 = 128 * self.header_form.to_inner() + 64 * self.fixed_bit.to_inner() + 32
            * self.spin_bit.to_inner() + 8 * self.reserved_bits.to_inner() + 4
            * self.key_phase.to_inner() + self.number_len.to_inner();
        bytes.push(b0);
        write_cid(&mut bytes, &self.dst_cid);
        push_bytes(&mut bytes, &self.number);
        assert(bytes@ =~= short_bytes(self@));
        Ok(bytes)
    }
}

impl Header {
    /// Reads a header that must fill the whole buffer, dispatching on
    /// the most significant bit of the first byte. Whatever the bytes
    /// were, a header that comes back is well-formed.
    pub fn decode(bytes: &mut Vec<u8>) -> (r: QuicheResult<Header>)
        ensures
            match parse_header(old(bytes)@) {
                Ok((hv, rest)) => {
                    if rest.len() == 0 {
                        r is Ok && r->Ok_0@ == hv && final(bytes)@ == rest
                    } else {
                        r is Err && r->Err_0.kind == ErrorKind::FrameEncodingError
                    }
                },
                Err(k) => r is Err && r->Err_0.kind == k,
            },
            r is Ok ==> r->Ok_0@.wf(),
    {
        proof {
            lemma_parse_header_wf(old(bytes)@);
        }
        if bytes.len() == 0 {
            return Err(QuicheError::new(ErrorKind::Truncated, "buffer ended before a header"));
        }
        if bytes[0] >= 128 {
            LongHeader::decode(bytes)
        } else {
            ShortHeader::decode(bytes)
        }
    }

    /// Encodes whichever header shape this is.
    pub fn encode(&self) -> (r: QuicheResult<Vec<u8>>)
        requires
            self@.wf(),
        ensures
            match self {
                Header::Short(h) => {
                    &&& 13 + h.dst_cid.cid_len <= 33 ==> r is Ok && r->Ok_0@ == header_bytes(
                        self@,
                    )
                    &&& 13 + h.dst_cid.cid_len > 33 ==> r is Err && r->Err_0.kind
                        == ErrorKind::LengthBoundExceeded
                },
                _ => {
                    &&& 7 + long_cids_len(self) <= 47 ==> r is Ok && r->Ok_0@ == header_bytes(
                        self@,
                    )
                    &&& 7 + long_cids_len(self) > 47 ==> r is Err && r->Err_0.kind
                        == ErrorKind::LengthBoundExceeded
                },
            },
    {
        match self {
            Header::Initial(h) | Header::Retry(h) | Header::VersionNegotiate(h)
            | Header::Long(h) => h.encode(),
            Header::Short(h) => h.encode(),
        }
    }
}

/// The combined length of a long header's two connection identifiers.
pub open spec fn long_cids_len(h: &Header) -> int
    recommends
        !(h is Short),
{
    match h {
        Header::Initial(l) => l.dst_cid.cid_len + l.src_cid.cid_len,
        Header::Retry(l) => l.dst_cid.cid_len + l.src_cid.cid_len,
        Header::VersionNegotiate(l) => l.dst_cid.cid_len + l.src_cid.cid_len,
        Header::Long(l) => l.dst_cid.cid_len + l.src_cid.cid_len,
        Header::Short(_) => arbitrary(),
    }
}

/// Law: reading back an encoded connection identifier yields it,
/// whatever follows it.
pub proof fn lemma_cid_round_trip(c: CidView, rest: Seq<u8>)
    requires
        c.wf(),
    ensures
        parse_cid(cid_bytes(c) + rest) == Ok::<(CidView, Seq<u8>), ErrorKind>((c, rest)),
{
    let s = cid_bytes(c) + rest;
    assert(s[0] == c.len);
    assert(s.skip(1) =~= c.bytes + rest);
    assert((c.bytes + rest).take(c.len as int) =~= c.bytes);
    assert((c.bytes + rest).skip(c.len as int) =~= rest);
    let parsed = CidView { len: c.len, bytes: (c.bytes + rest).take(c.len as int) };
    assert(parsed == c);
}

/// Law: reading back an encoded extension yields it and consumes
/// exactly its bytes; the Retry and Version-Negotiate extensions, which
/// read to the end of the buffer, must be followed by nothing.
#[verifier::rlimit(100)]
#[verifier::spinoff_prover]
pub proof fn lemma_ext_round_trip(e: ExtView, rest: Seq<u8>)
    requires
        e.wf(),
        e.greedy() ==> rest.len() == 0,
    ensures
        parse_ext(ext_bytes(e) + rest, selector_of(e)) == Ok::<(ExtView, Seq<u8>), ErrorKind>(
            (e, rest),
        ),
{
    reveal(parse_ext);
    let s = ext_bytes(e) + rest;
    match e {
        ExtView::Initial { token_length, token, length, packet_number } => {
            let t3 = varint_bytes(packet_number) + rest;
            let t2 = varint_bytes(length) + t3;
            let t1 = token + t2;
            assert(s =~= varint_bytes(token_length) + t1);
            lemma_varint_round_trip(token_length, t1);
            assert(t1.take(token_length as int) =~= token);
            assert(t1.skip(token_length as int) =~= t2);
            lemma_varint_round_trip(length, t3);
            lemma_varint_round_trip(packet_number, rest);
        },
        ExtView::ZeroRtt { length, packet_number } => {
            let t1 = varint_bytes(packet_number) + rest;
            assert(s =~= varint_bytes(length) + t1);
            lemma_varint_round_trip(length, t1);
            lemma_varint_round_trip(packet_number, rest);
        },
        ExtView::Handshake { length, packet_number } => {
            let t1 = varint_bytes(packet_number) + rest;
            assert(s =~= varint_bytes(length) + t1);
            lemma_varint_round_trip(length, t1);
            lemma_varint_round_trip(packet_number, rest);
        },
        ExtView::Retry { token, tag } => {
            assert(rest =~= Seq::<u8>::empty());
            assert(s =~= token + tag);
            assert(s.take(s.len() - 16) =~= token);
            assert(s.skip(s.len() - 16) =~= tag);
        },
        ExtView::VersionNegotiation { versions } => {
            assert(rest =~= Seq::<u8>::empty());
            assert(s =~= versions_bytes(versions));
            lemma_versions_round_trip(versions);
        },
    }
}

/// Law: reading back an encoded long header yields it and consumes
/// exactly its bytes; Retry and Version-Negotiate headers, whose
/// extensions read to the end of the buffer, must be followed by
/// nothing.
#[verifier::rlimit(100)]
#[verifier::spinoff_prover]
pub proof fn lemma_long_round_trip(hv: HeaderView, rest: Seq<u8>)
    requires
        hv.wf(),
        !(hv is Short),
        hv.greedy() ==> rest.len() == 0,
    ensures
        parse_long(header_bytes(hv) + rest) == Ok::<(HeaderView, Seq<u8>), ErrorKind>((hv, rest)),
{
    reveal(parse_long);
    let l = long_of(hv);
    let s = header_bytes(hv) + rest;
    let b0 = long_first_byte(l);
    assert(s[0] == b0);
    let form = l.form;
    let fixed = l.fixed;
    let lpt = l.packet_type;
    let tsb = l.type_bits;
    assert(b0 / 128 == form && (b0 / 64) % 2 == fixed && (b0 / 16) % 4 == lpt && b0 % 16 == tsb)
        by (bit_vector)
        requires
            b0 == (128 * form + 64 * fixed + 16 * lpt + tsb) as u8,
            form <= 1,
            fixed <= 1,
            lpt <= 3,
            tsb <= 15,
    ;
    let t4 = ext_bytes(l.ext) + rest;
    let t3 = cid_bytes(l.src) + t4;
    let t2 = cid_bytes(l.dst) + t3;
    let t1 = le32_bytes(l.version) + t2;
    lemma_le32_round_trip(l.version);
    assert(s.skip(1) =~= t1);
    assert(t1.take(4) =~= le32_bytes(l.version));
    assert(t1.skip(4) =~= t2);
    lemma_cid_round_trip(l.dst, t3);
    lemma_cid_round_trip(l.src, t4);
    assert(ext_selector(l.packet_type, l.fixed) == selector_of(l.ext));
    lemma_ext_round_trip(l.ext, rest);
}

/// Law: reading back an encoded short header yields it and consumes
/// exactly its bytes, whatever follows them.
#[verifier::rlimit(100)]
#[verifier::spinoff_prover]
pub proof fn lemma_short_round_trip(sv: ShortView, rest: Seq<u8>)
    requires
        sv.wf(),
    ensures
        parse_short(short_bytes(sv) + rest) == Ok::<(HeaderView, Seq<u8>), ErrorKind>(
            (HeaderView::Short(sv), rest),
        ),
{
    reveal(parse_short);
    let s = short_bytes(sv) + rest;
    let b0 = short_first_byte(sv);
    assert(s[0] == b0);
    let form = sv.form;
    let fixed = sv.fixed;
    let spin = sv.spin;
    let reserved = sv.reserved;
    let key_phase = sv.key_phase;
    let nlen = sv.number_len;
    assert(b0 / 128 == form && (b0 / 64) % 2 == fixed && (b0 / 32) % 2 == spin && (b0 / 8) % 4
        == reserved && (b0 / 4) % 2 == key_phase && b0 % 4 == nlen) by (bit_vector)
        requires
            b0 == (128 * form + 64 * fixed + 32 * spin + 8 * reserved + 4 * key_phase
                + nlen) as u8,
            form == 0,
            fixed <= 1,
            spin <= 1,
            reserved <= 3,
            key_phase <= 1,
            nlen <= 3,
    ;
    let t1 = sv.number + rest;
    assert(s.skip(1) =~= cid_bytes(sv.dst) + t1);
    lemma_cid_round_trip(sv.dst, t1);
    assert(t1.take(sv.number_len + 1) =~= sv.number);
    assert(t1.skip(sv.number_len + 1) =~= rest);
}

/// Law: reading back any encoded header yields it and consumes exactly
/// its bytes; headers whose extension reads to the end of the buffer
/// must be followed by nothing.
pub proof fn lemma_header_round_trip(hv: HeaderView, rest: Seq<u8>)
    requires
        hv.wf(),
        hv.greedy() ==> rest.len() == 0,
    ensures
        parse_header(header_bytes(hv) + rest) == Ok::<(HeaderView, Seq<u8>), ErrorKind>(
            (hv, rest),
        ),
{
    match hv {
        HeaderView::Short(sv) => {
            let b0 = short_first_byte(sv);
            let fixed = sv.fixed;
            let spin = sv.spin;
            let reserved = sv.reserved;
            let key_phase = sv.key_phase;
            let nlen = sv.number_len;
            assert(b0 < 128) by (bit_vector)
                requires
                    b0 == (64 * fixed + 32 * spin + 8 * reserved + 4 * key_phase + nlen) as u8,
                    fixed <= 1,
                    spin <= 1,
                    reserved <= 3,
                    key_phase <= 1,
                    nlen <= 3,
            ;
            assert((header_bytes(hv) + rest)[0] == b0);
            lemma_short_round_trip(sv, rest);
        },
        _ => {
            let l = long_of(hv);
            let b0 = long_first_byte(l);
            let fixed = l.fixed;
            let lpt = l.packet_type;
            let tsb = l.type_bits;
            assert(b0 >= 128) by (bit_vector)
                requires
                    b0 == (128 + 64 * fixed + 16 * lpt + tsb) as u8,
                    fixed <= 1,
                    lpt <= 3,
                    tsb <= 15,
            ;
            assert((header_bytes(hv) + rest)[0] == b0);
            lemma_long_round_trip(hv, rest);
        },
    }
}

proof fn lemma_parse_cid_wf(s: Seq<u8>)
    ensures
        parse_cid(s) matches Ok((c, _)) ==> c.wf(),
{
}

proof fn lemma_parse_ext_wf(s: Seq<u8>, sel: int)
    requires
        0 <= sel <= 4,
    ensures
        parse_ext(s, sel) matches Ok((e, _)) ==> e.wf() && selector_of(e) == sel,
{
    reveal(parse_ext);
    lemma_parse_varint_bounded(s);
    match parse_varint(s) {
        Ok((a, s1)) => {
            lemma_parse_varint_bounded(s1);
            if a <= s1.len() {
                let s2 = s1.skip(a as int);
                lemma_parse_varint_bounded(s2);
                match parse_varint(s2) {
                    Ok((b, s3)) => {
                        lemma_parse_varint_bounded(s3);
                    },
                    Err(_) => {},
                }
            }
        },
        Err(_) => {},
    }
}

/// Whatever bytes a header was read from, the header is well-formed:
/// its bit fields are in range, its identifiers carry their declared
/// lengths, and its extension is the one its type bits select.
pub proof fn lemma_parse_header_wf(s: Seq<u8>)
    ensures
        parse_header(s) matches Ok((hv, _)) ==> hv.wf(),
{
    if s.len() == 0 {
        return ;
    }
    let b0 = s[0];
    let t = s.skip(1);
    if b0 >= 128 {
        reveal(parse_long);
        if t.len() >= 4 {
            match parse_cid(t.skip(4)) {
                Ok((dst, t1)) => {
                    lemma_parse_cid_wf(t.skip(4));
                    match parse_cid(t1) {
                        Ok((src, t2)) => {
                            lemma_parse_cid_wf(t1);
                            let lpt = (b0 / 16) % 4;
                            let fixed = (b0 / 64) % 2;
                            lemma_parse_ext_wf(t2, ext_selector(lpt, fixed));
                            assert(b0 / 128 == 1 && (b0 / 64) % 2 <= 1 && (b0 / 16) % 4 <= 3 && b0
                                % 16 <= 15) by (bit_vector)
                                requires
                                    b0 >= 128,
                            ;
                        },
                        Err(_) => {},
                    }
                },
                Err(_) => {},
            }
        }
    } else {
        reveal(parse_short);
        match parse_cid(t) {
            Ok((dst, t1)) => {
                lemma_parse_cid_wf(t);
                assert(b0 / 128 == 0 && (b0 / 64) % 2 <= 1 && (b0 / 32) % 2 <= 1 && (b0 / 8) % 4
                    <= 3 && (b0 / 4) % 2 <= 1 && b0 % 4 <= 3) by (bit_vector)
                    requires
                        b0 < 128,
                ;
            },
            Err(_) => {},
        }
    }
}

/// A parsed extension leaves a suffix of what it was given.
proof fn lemma_parse_ext_len(s: Seq<u8>, sel: int)
    ensures
        parse_ext(s, sel) matches Ok((_, r)) ==> r.len() <= s.len(),
{
    reveal(parse_ext);
    if sel == 0 {
        lemma_parse_varint_len(s);
        match parse_varint(s) {
            Ok((token_length, s1)) => {
                if token_length <= s1.len() {
                    let s2 = s1.skip(token_length as int);
                    lemma_parse_varint_len(s2);
                    match parse_varint(s2) {
                        Ok((length, s3)) => {
                            lemma_parse_varint_len(s3);
                        },
                        Err(_) => {},
                    }
                }
            },
            Err(_) => {},
        }
    } else if sel == 1 || sel == 2 {
        lemma_parse_varint_len(s);
        match parse_varint(s) {
            Ok((length, s1)) => {
                lemma_parse_varint_len(s1);
            },
            Err(_) => {},
        }
    }
}

/// A parsed long header consumes at least its fixed prefix: the first
/// byte, the version, and both length-prefixed identifiers.
proof fn lemma_parse_long_base(s: Seq<u8>)
    ensures
        parse_long(s) matches Ok((hv, rest)) ==> !(hv is Short) && rest.len() + 7 + long_of(
            hv,
        ).dst.len + long_of(hv).src.len <= s.len(),
{
    reveal(parse_long);
    if s.len() > 0 {
        let b0 = s[0];
        let t = s.skip(1);
        if t.len() >= 4 {
            match parse_cid(t.skip(4)) {
                Ok((dst, t1)) => {
                    match parse_cid(t1) {
                        Ok((src, t2)) => {
                            lemma_parse_ext_len(t2, ext_selector((b0 / 16) % 4, (b0 / 64) % 2));
                        },
                        Err(_) => {},
                    }
                },
                Err(_) => {},
            }
        }
    }
}

} // verus!
