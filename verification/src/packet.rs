//! The packet layer: a header followed by its payload of frames.
//!
//! Encoding writes the header and then each frame in order; decoding
//! reads the header and then drains the rest of the buffer frame by
//! frame, failing on any unparseable trailing fragment. Retry and
//! Version-Negotiate packets carry no frames: their header extension
//! reads to the end of the datagram.

use crate::frame::{frame_bytes, parse_frame, Frame, FrameView};
use crate::frame::{lemma_frame_round_trip, lemma_parse_frame_progress};
use crate::header::{header_bytes, long_cids_len, parse_header, Header, HeaderView, LongHeader,
    LongHeaderExtension, ShortHeader};
use crate::header::{lemma_header_round_trip, ExtView};
use crate::result::{ErrorKind, QuicheError, QuicheResult};
use crate::bits::BitsExt;
use crate::types::{ConnectionId, FourBits, LongPacketType, PacketNumber, SingleBit, TwoBits};
use crate::varint::VarInt;
use crate::wire::push_bytes;
use vstd::prelude::*;

verus! {

/// A whole cleartext packet: its header and its frames.
#[derive(Debug, PartialEq, Clone)]
pub struct Packet {
    pub header: Header,
    pub payload: Vec<Frame>,
}

/// The model of a packet.
pub struct PacketView {
    pub header: HeaderView,
    pub payload: Seq<FrameView>,
}

impl View for Packet {
    type V = PacketView;

    open spec fn view(&self) -> PacketView {
        PacketView {
            header: self.header@,
            payload: self.payload@.map_values(|f: Frame| f@),
        }
    }
}

impl PacketView {
    /// The values a decoder can produce, and exactly the values whose
    /// encoding reads back unchanged: a well-formed header, well-formed
    /// frames, a frame that reads to the end of the buffer only last,
    /// and no frames at all under a Retry or Version-Negotiate header.
    pub open spec fn wf(self) -> bool {
        &&& self.header.wf()
        &&& forall|i: int| 0 <= i < self.payload.len() ==> (#[trigger] self.payload[i]).wf()
        &&& forall|i: int|
            0 <= i < self.payload.len() - 1 ==> !(#[trigger] self.payload[i]).greedy()
        &&& !self.header.carries_frames() ==> self.payload.len() == 0
    }
}

/// The concatenated wire bytes of a run of frames.
pub open spec fn frames_bytes(fs: Seq<FrameView>) -> Seq<u8>
    decreases fs.len(),
{
    if fs.len() == 0 {
        Seq::empty()
    } else {
        frame_bytes(fs[0]) + frames_bytes(fs.drop_first())
    }
}

/// Draining a buffer frame by frame until it is empty.
pub open spec fn parse_frames(s: Seq<u8>) -> Result<Seq<FrameView>, ErrorKind>
    decreases s.len(),
    via parse_frames_decreases
{
    if s.len() == 0 {
        Ok(Seq::empty())
    } else {
        match parse_frame(s) {
            Err(k) => Err(k),
            Ok((f, rest)) => match parse_frames(rest) {
                Err(k) => Err(k),
                Ok(fs) => Ok(seq![f] + fs),
            },
        }
    }
}

#[via_fn]
proof fn parse_frames_decreases(s: Seq<u8>) {
    lemma_parse_frame_progress(s);
}

/// The full wire bytes of a packet.
pub open spec fn packet_bytes(pv: PacketView) -> Seq<u8> {
    header_bytes(pv.header) + frames_bytes(pv.payload)
}

/// Reading a whole packet: its header, then frames until the buffer is
/// empty.
pub open spec fn parse_packet(s: Seq<u8>) -> Result<PacketView, ErrorKind> {
    match parse_header(s) {
        Err(k) => Err(k),
        Ok((hv, rest)) => match parse_frames(rest) {
            Err(k) => Err(k),
            Ok(fs) => Ok(PacketView { header: hv, payload: fs }),
        },
    }
}

/// Prepending already-read frames to the outcome of reading the rest.
spec fn frames_join(acc: Seq<FrameView>, r: Result<Seq<FrameView>, ErrorKind>) -> Result<
    Seq<FrameView>,
    ErrorKind,
> {
    match r {
        Ok(fs) => Ok(acc + fs),
        Err(k) => Err(k),
    }
}

proof fn lemma_frames_join_assoc(
    acc: Seq<FrameView>,
    one: Seq<FrameView>,
    r: Result<Seq<FrameView>, ErrorKind>,
)
    ensures
        frames_join(acc, frames_join(one, r)) == frames_join(acc + one, r),
{
    match r {
        Ok(fs) => {
            assert(acc + (one + fs) =~= (acc + one) + fs);
        },
        Err(k) => {},
    }
}

/// Appending one frame appends its bytes.
proof fn lemma_frames_bytes_push(fs: Seq<FrameView>, f: FrameView)
    ensures
        frames_bytes(fs.push(f)) == frames_bytes(fs) + frame_bytes(f),
    decreases fs.len(),
{
    let snoc = fs.push(f);
    assert(snoc.len() == fs.len() + 1);
    if fs.len() == 0 {
        assert(snoc[0] == f);
        assert(snoc.drop_first() =~= Seq::<FrameView>::empty());
        assert(frames_bytes(snoc) == frame_bytes(snoc[0]) + frames_bytes(snoc.drop_first()));
        assert(frames_bytes(snoc) =~= frames_bytes(fs) + frame_bytes(f));
    } else {
        assert(snoc.drop_first() =~= fs.drop_first().push(f));
        lemma_frames_bytes_push(fs.drop_first(), f);
        assert(snoc[0] == fs[0]);
        assert(frames_bytes(snoc) == frame_bytes(snoc[0]) + frames_bytes(snoc.drop_first()));
        assert(frames_bytes(fs) == frame_bytes(fs[0]) + frames_bytes(fs.drop_first()));
        assert(frames_bytes(snoc) =~= frames_bytes(fs) + frame_bytes(f));
    }
}

/// Law: reading back an encoded run of frames yields that run, frame by
/// frame, provided a frame without a length stands only last.
pub proof fn lemma_frames_round_trip(fs: Seq<FrameView>)
    requires
        forall|i: int| 0 <= i < fs.len() ==> (#[trigger] fs[i]).wf(),
        forall|i: int| 0 <= i < fs.len() - 1 ==> !(#[trigger] fs[i]).greedy(),
    ensures
        parse_frames(frames_bytes(fs)) == Ok::<Seq<FrameView>, ErrorKind>(fs),
    decreases fs.len(),
{
    if fs.len() == 0 {
        assert(frames_bytes(fs) =~= Seq::<u8>::empty());
        assert(fs =~= Seq::<FrameView>::empty());
    } else {
        let f = fs[0];
        let tail = frames_bytes(fs.drop_first());
        let s = frames_bytes(fs);
        assert(s =~= frame_bytes(f) + tail);
        if fs.len() == 1 {
            assert(fs.drop_first() =~= Seq::<FrameView>::empty());
            assert(tail =~= Seq::<u8>::empty());
        } else {
            assert(!f.greedy());
        }
        lemma_frame_round_trip(f, tail);
        assert(forall|i: int|
            0 <= i < fs.drop_first().len() ==> (#[trigger] fs.drop_first()[i]).wf());
        assert(forall|i: int|
            0 <= i < fs.drop_first().len() - 1 ==> !(#[trigger] fs.drop_first()[i]).greedy());
        lemma_frames_round_trip(fs.drop_first());
        assert(s.len() > 0);
        assert(seq![f] + fs.drop_first() =~= fs);
    }
}

/// Law: reading back an encoded packet yields that packet and uses the
/// whole buffer.
pub proof fn lemma_packet_round_trip(pv: PacketView)
    requires
        pv.wf(),
    ensures
        parse_packet(packet_bytes(pv)) == Ok::<PacketView, ErrorKind>(pv),
{
    let fb = frames_bytes(pv.payload);
    if pv.header.greedy() {
        assert(pv.payload.len() == 0);
        assert(fb =~= Seq::<u8>::empty());
    }
    lemma_header_round_trip(pv.header, fb);
    lemma_frames_round_trip(pv.payload);
    assert(parse_packet(packet_bytes(pv)) == Ok::<PacketView, ErrorKind>(
        PacketView { header: pv.header, payload: pv.payload },
    ));
    assert((PacketView { header: pv.header, payload: pv.payload }) == pv);
}

impl Packet {
    /// Whether this packet may carry frames: Retry and Version-Negotiate
    /// packets do not.
    pub fn contains_frames(&self) -> (r: bool)
        ensures
            r == self@.header.carries_frames(),
    {
        !(matches!(self.header, Header::Retry(_)) || matches!(
            self.header,
            Header::VersionNegotiate(_),
        ))
    }

    /// Builds an Initial packet from its header fields and payload.
    pub fn initial(
        version_id: u32,
        dst_cid: ConnectionId,
        src_cid: ConnectionId,
        type_specific_bits: FourBits,
        token_length: VarInt,
        token: Vec<u8>,
        length: VarInt,
        packet_number: PacketNumber,
        payload: Vec<Frame>,
    ) -> (r: Self)
        ensures
            r@.header matches HeaderView::Initial(l) && l == (crate::header::LongView {
                form: 1,
                fixed: 1,
                packet_type: 0,
                type_bits: type_specific_bits.value(),
                version: version_id,
                dst: dst_cid@,
                src: src_cid@,
                ext: ExtView::Initial {
                    token_length: token_length.0,
                    token: token@,
                    length: length.0,
                    packet_number: packet_number.0.0,
                },
            }),
            r@.payload == payload@.map_values(|f: Frame| f@),
    {
        let header = Header::Initial(
            LongHeader::initial(
                version_id,
                dst_cid,
                src_cid,
                type_specific_bits,
                token_length,
                token,
                length,
                packet_number,
            ),
        );
        Self { header, payload }
    }

    /// Builds a long-header packet of the given type from its fields
    /// and payload.
    pub fn long_header(
        long_packet_type: LongPacketType,
        type_specific_bits: FourBits,
        version_id: u32,
        dst_cid: ConnectionId,
        src_cid: ConnectionId,
        extension: LongHeaderExtension,
        payload: Vec<Frame>,
    ) -> (r: Self)
        ensures
            r@.header matches HeaderView::Long(l) && l == (crate::header::LongView {
                form: 1,
                fixed: 1,
                packet_type: long_packet_type.value(),
                type_bits: type_specific_bits.value(),
                version: version_id,
                dst: dst_cid@,
                src: src_cid@,
                ext: extension@,
            }),
            r@.payload == payload@.map_values(|f: Frame| f@),
    {
        let header = Header::Long(
            LongHeader::new(
                long_packet_type,
                type_specific_bits,
                version_id,
                dst_cid,
                src_cid,
                extension,
            ),
        );
        Self { header, payload }
    }

    /// Builds a short-header packet from its fields and payload.
    pub fn short_header(
        spin_bit: SingleBit,
        reserved_bits: TwoBits,
        key_phase: SingleBit,
        number_len: TwoBits,
        dst_cid: ConnectionId,
        number: Vec<u8>,
        payload: Vec<Frame>,
    ) -> (r: Self)
        ensures
            r@.header matches HeaderView::Short(sv) && sv == (crate::header::ShortView {
                form: 0,
                fixed: 1,
                spin: spin_bit.value(),
                reserved: reserved_bits.value(),
                key_phase: key_phase.value(),
                number_len: number_len.value(),
                dst: dst_cid@,
                number: number@,
            }),
            r@.payload == payload@.map_values(|f: Frame| f@),
    {
        let header = Header::Short(
            ShortHeader::new(spin_bit, reserved_bits, key_phase, number_len, dst_cid, number),
        );
        Self { header, payload }
    }

    /// Encodes the packet: the header, then each payload frame in
    /// order.
    pub fn encode(&self) -> (r: QuicheResult<Vec<u8>>)
        requires
            self@.wf(),
        ensures
            match self.header {
                Header::Short(ref h) => {
                    &&& 13 + h.dst_cid.cid_len <= 33 ==> r is Ok && r->Ok_0@ == packet_bytes(
                        self@,
                    )
                    &&& 13 + h.dst_cid.cid_len > 33 ==> r is Err && r->Err_0.kind
                        == ErrorKind::LengthBoundExceeded
                },
                _ => {
                    &&& 7 + long_cids_len(&self.header) <= 47 ==> r is Ok && r->Ok_0@
                        == packet_bytes(self@)
                    &&& 7 + long_cids_len(&self.header) > 47 ==> r is Err && r->Err_0.kind
                        == ErrorKind::LengthBoundExceeded
                },
            },
    {
        let mut encoded = match self.header.encode() {
            Ok(b) => b,
            Err(e) => { return Err(e) },
        };
        let ghost base = encoded@;
        let ghost fvs = self.payload@.map_values(|f: Frame| f@);
        proof {
            assert forall|j: int| 0 <= j < fvs.len() implies (#[trigger] fvs[j]).wf() by {
                assert(self@.payload[j].wf());
            }
        }
        let mut i: usize = 0;
        while i < self.payload.len()
            invariant
                i <= self.payload@.len(),
                fvs == self.payload@.map_values(|f: Frame| f@),
                forall|j: int| 0 <= j < fvs.len() ==> (#[trigger] fvs[j]).wf(),
                encoded@ == base + frames_bytes(fvs.take(i as int)),
            decreases self.payload@.len() - i,
        {
            let fb = self.payload[i].encode();
            push_bytes(&mut encoded, &fb);
            proof {
                lemma_frames_bytes_push(fvs.take(i as int), fvs[i as int]);
                assert(fvs.take(i + 1) =~= fvs.take(i as int).push(fvs[i as int]));
            }
            i = i + 1;
        }
        proof {
            assert(fvs.take(fvs.len() as int) =~= fvs);
            assert(base + frames_bytes(fvs) =~= packet_bytes(self@));
        }
        Ok(encoded)
    }

    /// Reads a whole packet: the header, then frames until the buffer
    /// is empty. An unparseable trailing fragment is a failure.
    pub fn decode(bytes: &mut Vec<u8>) -> (r: QuicheResult<Self>)
        ensures
            match parse_packet(old(bytes)@) {
                Ok(pv) => r is Ok && r->Ok_0@.header == pv.header && r->Ok_0@.payload
                    == pv.payload && final(bytes)@.len() == 0,
                Err(k) => r is Err && r->Err_0.kind == k,
            },
    {
        if bytes.len() == 0 {
            return Err(QuicheError::new(ErrorKind::Truncated, "buffer ended before a packet"));
        }
        let header = if bytes[0] >= 128 {
            match LongHeader::decode_partial(bytes) {
                Ok(h) => h,
                Err(e) => { return Err(e) },
            }
        } else {
            match ShortHeader::decode_partial(bytes) {
                Ok(h) => h,
                Err(e) => { return Err(e) },
            }
        };
        let ghost hv = header@;
        let ghost rest0 = bytes@;
        let mut payload: Vec<Frame> = Vec::new();
        proof {
            assert(payload@.map_values(|f: Frame| f@) =~= Seq::<FrameView>::empty());
        }
        while bytes.len() > 0
            invariant
                parse_header(old(bytes)@) == Ok::<(HeaderView, Seq<u8>), ErrorKind>((hv, rest0)),
                parse_frames(rest0) == frames_join(
                    payload@.map_values(|f: Frame| f@),
                    parse_frames(bytes@),
                ),
            decreases bytes@.len(),
        {
            let ghost pre = bytes@;
            let ghost acc = payload@.map_values(|f: Frame| f@);
            proof {
                lemma_parse_frame_progress(pre);
            }
            let frame = match Frame::decode(bytes) {
                Ok(f) => f,
                Err(e) => { return Err(e) },
            };
            payload.push(frame);
            proof {
                lemma_frames_join_assoc(acc, seq![frame@], parse_frames(bytes@));
                assert(payload@.map_values(|f: Frame| f@) =~= acc + seq![frame@]);
            }
        }
        proof {
            assert(payload@.map_values(|f: Frame| f@) + Seq::<FrameView>::empty() =~= payload@
                .map_values(|f: Frame| f@));
        }
        Ok(Self { header, payload })
    }
}

} // verus!
