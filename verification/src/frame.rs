//! The frame layer: the tagged unit of packet payload.
//!
//! A frame is identified by a one-byte type. The STREAM type occupies the
//! range 0x08 to 0x0f, its low three bits being the FIN, LEN and OFF
//! flags; every other variant has a single byte. The wire layout of each
//! variant is given by `frame_bytes`, what decoding reads back by
//! `parse_frame`, and `lemma_frame_round_trip` proves them inverses.

use crate::result::{ErrorKind, QuicheError, QuicheResult};
use crate::types::{ConnectionId, SingleBit};
use crate::bits::BitsExt;
use crate::varint::{lemma_parse_varint_bounded, lemma_parse_varint_len, lemma_varint_round_trip, parse_varint, push_varint, varint_bytes, VarInt, VARINT_MAX};
use crate::wire::{push_bytes, push_slice, read_bytes, read_u8};
use vstd::prelude::*;
use vstd::string::StringSliceAdditionalSpecFns;
use vstd::utf8::{decode_utf8, encode_utf8, valid_utf8};

verus! {

/// A frame's one-byte type tag.
#[derive(Debug, PartialEq, Eq, PartialOrd, Clone, Copy)]
pub struct FrameType(pub u8);

impl FrameType {
    pub const PADDING: u8 = 0x00;

    pub const PING: u8 = 0x01;

    pub const ACK: u8 = 0x02;

    pub const ACK_ECN: u8 = 0x03;

    pub const RESET_STREAM: u8 = 0x04;

    pub const STOP_SENDING: u8 = 0x05;

    pub const CRYPTO: u8 = 0x06;

    pub const NEW_TOKEN: u8 = 0x07;

    pub const STREAM: u8 = 0x08;

    pub const MAX_DATA: u8 = 0x10;

    pub const MAX_STREAM_DATA: u8 = 0x11;

    pub const MAX_STREAMS_BIDI: u8 = 0x12;

    pub const MAX_STREAMS_UNI: u8 = 0x13;

    pub const DATA_BLOCKED: u8 = 0x14;

    pub const STREAM_DATA_BLOCKED: u8 = 0x15;

    pub const STREAMS_BLOCKED_BIDI: u8 = 0x16;

    pub const STREAMS_BLOCKED_UNI: u8 = 0x17;

    pub const NEW_CONNECTION_ID: u8 = 0x18;

    pub const RETIRE_CONNECTION_ID: u8 = 0x19;

    pub const PATH_CHALLENGE: u8 = 0x1a;

    pub const PATH_RESPONSE: u8 = 0x1b;

    pub const CONNECTION_CLOSE_TRANSPORT: u8 = 0x1c;

    pub const CONNECTION_CLOSE_APPLICATION: u8 = 0x1d;

    pub const HANDSHAKE_DONE: u8 = 0x1e;

    pub fn to_inner(&self) -> (r: u8)
        ensures
            r == self.0,
    {
        self.0
    }
}

/// Whether a stream limit concerns bidirectional or unidirectional
/// streams.
#[derive(Debug, Clone, Copy, PartialEq, Eq, Structural)]
pub enum StreamType {
    Bidirectional,
    Unidirectional,
}

/// The tagged union of frame variants.
#[derive(Debug, Clone, PartialEq)]
pub enum Frame {
    // 0x00
    Padding,
    // 0x01
    Ping,
    // 0x02
    Ack {
        largest_acknowledged: VarInt,
        ack_delay: VarInt,
        ack_range_count: VarInt,
        first_ack_range: VarInt,
        ack_ranges: Vec<(VarInt, VarInt)>,
    },
    // 0x03
    AckEcn {
        largest_acknowledged: VarInt,
        ack_delay: VarInt,
        ack_range_count: VarInt,
        first_ack_range: VarInt,
        ack_ranges: Vec<(VarInt, VarInt)>,
        ect0_count: VarInt,
        ect1_count: VarInt,
        ecn_ce_count: VarInt,
    },
    // 0x04
    ResetStream {
        stream_id: VarInt,
        application_protocol_error_code: VarInt,
        final_size: VarInt,
    },
    // 0x05
    StopSending {
        stream_id: VarInt,
        application_protocol_error_code: VarInt,
    },
    // 0x06
    Crypto {
        offset: VarInt,
        crypto_length: VarInt,
        crypto_data: Vec<u8>,
    },
    // 0x07
    NewToken {
        token_length: VarInt,
        token: Vec<u8>,
    },
    // 0x08 to 0x0f
    Stream {
        stream_id: VarInt,
        offset: VarInt,
        length: VarInt,
        fin: SingleBit,
        // when length is zero this extends to the end of the packet
        stream_data: Vec<u8>,
    },
    // 0x10
    MaxData(VarInt),
    // 0x11
    MaxStreamData {
        stream_id: VarInt,
        max_stream_data: VarInt,
    },
    // 0x12 (bidirectional), 0x13 (unidirectional)
    MaxStreams {
        stream_type: StreamType,
        max_streams: VarInt,
    },
    // 0x14
    DataBlocked(VarInt),
    // 0x15
    StreamDataBlocked {
        stream_id: VarInt,
        stream_data_limit: VarInt,
    },
    // 0x16 (bidirectional), 0x17 (unidirectional)
    StreamsBlocked {
        stream_type: StreamType,
        max_streams: VarInt,
    },
    // 0x18
    NewConnectionId {
        sequence_number: VarInt,
        retire_prior_to: VarInt,
        connection_id: ConnectionId,
        stateless_reset_token: [u8; 16],
    },
    // 0x19
    RetireConnectionId(VarInt),
    // 0x1a
    PathChallenge([u8; 8]),
    // 0x1b
    PathResponse([u8; 8]),
    // 0x1c (transport), 0x1d (application)
    ConnectionClose {
        error_code: VarInt,
        frame_type: Option<u8>,
        reason_phrase_length: VarInt,
        reason_phrase: String,
    },
    // 0x1e
    HandshakeDone,
}

/// The mathematical model of a frame: plain numbers and sequences.
pub enum FrameView {
    Padding,
    Ping,
    Ack {
        largest: u64,
        delay: u64,
        range_count: u64,
        first_range: u64,
        ranges: Seq<(u64, u64)>,
    },
    AckEcn {
        largest: u64,
        delay: u64,
        range_count: u64,
        first_range: u64,
        ranges: Seq<(u64, u64)>,
        ect0: u64,
        ect1: u64,
        ecn_ce: u64,
    },
    ResetStream { stream_id: u64, error_code: u64, final_size: u64 },
    StopSending { stream_id: u64, error_code: u64 },
    Crypto { offset: u64, length: u64, data: Seq<u8> },
    NewToken { length: u64, token: Seq<u8> },
    Stream { stream_id: u64, offset: u64, length: u64, fin: bool, data: Seq<u8> },
    MaxData { max: u64 },
    MaxStreamData { stream_id: u64, max: u64 },
    MaxStreams { bidi: bool, max: u64 },
    DataBlocked { max: u64 },
    StreamDataBlocked { stream_id: u64, limit: u64 },
    StreamsBlocked { bidi: bool, max: u64 },
    NewConnectionId { seq_no: u64, retire_prior_to: u64, cid_len: u8, cid: Seq<u8>, token: Seq<u8> },
    RetireConnectionId { seq_no: u64 },
    PathChallenge { data: Seq<u8> },
    PathResponse { data: Seq<u8> },
    ConnectionClose { error_code: u64, frame_type: Option<u8>, reason_len: u64, reason: Seq<char> },
    HandshakeDone,
}

impl View for Frame {
    type V = FrameView;

    open spec fn view(&self) -> FrameView {
        match self {
            Frame::Padding => FrameView::Padding,
            Frame::Ping => FrameView::Ping,
            Frame::Ack { largest_acknowledged, ack_delay, ack_range_count, first_ack_range, ack_ranges } => FrameView::Ack {
                largest: largest_acknowledged.0,
                delay: ack_delay.0,
                range_count: ack_range_count.0,
                first_range: first_ack_range.0,
                ranges: ack_ranges@.map_values(|p: (VarInt, VarInt)| (p.0.0, p.1.0)),
            },
            Frame::AckEcn {
                largest_acknowledged,
                ack_delay,
                ack_range_count,
                first_ack_range,
                ack_ranges,
                ect0_count,
                ect1_count,
                ecn_ce_count,
            } => FrameView::AckEcn {
                largest: largest_acknowledged.0,
                delay: ack_delay.0,
                range_count: ack_range_count.0,
                first_range: first_ack_range.0,
                ranges: ack_ranges@.map_values(|p: (VarInt, VarInt)| (p.0.0, p.1.0)),
                ect0: ect0_count.0,
                ect1: ect1_count.0,
                ecn_ce: ecn_ce_count.0,
            },
            Frame::ResetStream { stream_id, application_protocol_error_code, final_size } => FrameView::ResetStream {
                stream_id: stream_id.0,
                error_code: application_protocol_error_code.0,
                final_size: final_size.0,
            },
            Frame::StopSending { stream_id, application_protocol_error_code } => FrameView::StopSending {
                stream_id: stream_id.0,
                error_code: application_protocol_error_code.0,
            },
            Frame::Crypto { offset, crypto_length, crypto_data } => FrameView::Crypto {
                offset: offset.0,
                length: crypto_length.0,
                data: crypto_data@,
            },
            Frame::NewToken { token_length, token } => FrameView::NewToken {
                length: token_length.0,
                token: token@,
            },
            Frame::Stream { stream_id, offset, length, fin, stream_data } => FrameView::Stream {
                stream_id: stream_id.0,
                offset: offset.0,
                length: length.0,
                fin: fin.value() == 1,
                data: stream_data@,
            },
            Frame::MaxData(max) => FrameView::MaxData { max: max.0 },
            Frame::MaxStreamData { stream_id, max_stream_data } => FrameView::MaxStreamData {
                stream_id: stream_id.0,
                max: max_stream_data.0,
            },
            Frame::MaxStreams { stream_type, max_streams } => FrameView::MaxStreams {
                bidi: stream_type is Bidirectional,
                max: max_streams.0,
            },
            Frame::DataBlocked(max) => FrameView::DataBlocked { max: max.0 },
            Frame::StreamDataBlocked { stream_id, stream_data_limit } => FrameView::StreamDataBlocked {
                stream_id: stream_id.0,
                limit: stream_data_limit.0,
            },
            Frame::StreamsBlocked { stream_type, max_streams } => FrameView::StreamsBlocked {
                bidi: stream_type is Bidirectional,
                max: max_streams.0,
            },
            Frame::NewConnectionId { sequence_number, retire_prior_to, connection_id, stateless_reset_token } => FrameView::NewConnectionId {
                seq_no: sequence_number.0,
                retire_prior_to: retire_prior_to.0,
                cid_len: connection_id.cid_len,
                cid: connection_id.cid@,
                token: stateless_reset_token@,
            },
            Frame::RetireConnectionId(seq_no) => FrameView::RetireConnectionId { seq_no: seq_no.0 },
            Frame::PathChallenge(data) => FrameView::PathChallenge { data: data@ },
            Frame::PathResponse(data) => FrameView::PathResponse { data: data@ },
            Frame::ConnectionClose { error_code, frame_type, reason_phrase_length, reason_phrase } => FrameView::ConnectionClose {
                error_code: error_code.0,
                frame_type: *frame_type,
                reason_len: reason_phrase_length.0,
                reason: reason_phrase@,
            },
            Frame::HandshakeDone => FrameView::HandshakeDone,
        }
    }
}

/// The ACK-range validation state: each range must leave the packet
/// number at its far end non-negative. `next` is the smallest packet
/// number acknowledged so far.
pub open spec fn ack_ranges_wf(next: int, ranges: Seq<(u64, u64)>) -> bool
    decreases ranges.len(),
{
    if ranges.len() == 0 {
        true
    } else {
        let (gap, len) = ranges[0];
        &&& gap + 2 <= next
        &&& len <= next - gap - 2
        &&& ack_ranges_wf(next - gap - 2, ranges.drop_first())
    }
}

impl FrameView {
    /// The values a decoder can produce, and exactly the values whose
    /// encoding reads back unchanged.
    pub open spec fn wf(self) -> bool {
        match self {
            FrameView::Padding => true,
            FrameView::Ping => true,
            FrameView::HandshakeDone => true,
            FrameView::Ack { largest, delay, range_count, first_range, ranges } => {
                &&& largest <= VARINT_MAX
                &&& delay <= VARINT_MAX
                &&& range_count <= VARINT_MAX
                &&& range_count == ranges.len()
                &&& first_range <= largest
                &&& ack_ranges_wf(largest - first_range, ranges)
            },
            FrameView::AckEcn { largest, delay, range_count, first_range, ranges, ect0, ect1, ecn_ce } => {
                &&& largest <= VARINT_MAX
                &&& delay <= VARINT_MAX
                &&& range_count <= VARINT_MAX
                &&& range_count == ranges.len()
                &&& first_range <= largest
                &&& ack_ranges_wf(largest - first_range, ranges)
                &&& ect0 <= VARINT_MAX
                &&& ect1 <= VARINT_MAX
                &&& ecn_ce <= VARINT_MAX
            },
            FrameView::ResetStream { stream_id, error_code, final_size } => {
                &&& stream_id <= VARINT_MAX
                &&& error_code <= VARINT_MAX
                &&& final_size <= VARINT_MAX
            },
            FrameView::StopSending { stream_id, error_code } => {
                &&& stream_id <= VARINT_MAX
                &&& error_code <= VARINT_MAX
            },
            FrameView::Crypto { offset, length, data } => {
                &&& offset + length <= VARINT_MAX
                &&& data.len() == length
            },
            FrameView::NewToken { length, token } => {
                &&& length <= VARINT_MAX
                &&& token.len() == length
            },
            FrameView::Stream { stream_id, offset, length, fin, data } => {
                &&& stream_id <= VARINT_MAX
                &&& offset <= VARINT_MAX
                &&& length <= VARINT_MAX
                &&& length > 0 ==> data.len() == length
            },
            FrameView::MaxData { max } => max <= VARINT_MAX,
            FrameView::MaxStreamData { stream_id, max } => stream_id <= VARINT_MAX && max
                <= VARINT_MAX,
            FrameView::MaxStreams { bidi, max } => max <= VARINT_MAX,
            FrameView::DataBlocked { max } => max <= VARINT_MAX,
            FrameView::StreamDataBlocked { stream_id, limit } => stream_id <= VARINT_MAX && limit
                <= VARINT_MAX,
            FrameView::StreamsBlocked { bidi, max } => max <= VARINT_MAX,
            FrameView::NewConnectionId { seq_no, retire_prior_to, cid_len, cid, token } => {
                &&& seq_no <= VARINT_MAX
                &&& retire_prior_to <= seq_no
                &&& 1 <= cid_len <= 20
                &&& cid.len() == cid_len
                &&& token.len() == 16
            },
            FrameView::RetireConnectionId { seq_no } => seq_no <= VARINT_MAX,
            FrameView::PathChallenge { data } => data.len() == 8,
            FrameView::PathResponse { data } => data.len() == 8,
            FrameView::ConnectionClose { error_code, frame_type, reason_len, reason } => {
                &&& error_code <= VARINT_MAX
                &&& reason_len == encode_utf8(reason).len()
                &&& reason_len <= VARINT_MAX
            },
        }
    }

    /// A frame that reads to the end of the buffer: a STREAM frame whose
    /// LEN flag is absent. Only the last frame of a packet may be greedy.
    pub open spec fn greedy(self) -> bool {
        self matches FrameView::Stream { length, .. } && length == 0
    }
}

/// The first byte of a STREAM frame: 0x08 plus the FIN, LEN and OFF
/// flags in its low three bits.
pub open spec fn stream_type_byte(fin: bool, has_len: bool, has_off: bool) -> u8 {
    (0x08 + (if fin {
        1int
    } else {
        0int
    }) + (if has_len {
        2int
    } else {
        0int
    }) + (if has_off {
        4int
    } else {
        0int
    })) as u8
}

/// The one-byte type tag of a frame.
pub open spec fn frame_type_byte(m: FrameView) -> u8 {
    match m {
        FrameView::Padding => 0x00,
        FrameView::Ping => 0x01,
        FrameView::Ack { .. } => 0x02,
        FrameView::AckEcn { .. } => 0x03,
        FrameView::ResetStream { .. } => 0x04,
        FrameView::StopSending { .. } => 0x05,
        FrameView::Crypto { .. } => 0x06,
        FrameView::NewToken { .. } => 0x07,
        FrameView::Stream { offset, length, fin, .. } => stream_type_byte(
            fin,
            length > 0,
            offset > 0,
        ),
        FrameView::MaxData { .. } => 0x10,
        FrameView::MaxStreamData { .. } => 0x11,
        FrameView::MaxStreams { bidi, .. } => if bidi {
            0x12
        } else {
            0x13
        },
        FrameView::DataBlocked { .. } => 0x14,
        FrameView::StreamDataBlocked { .. } => 0x15,
        FrameView::StreamsBlocked { bidi, .. } => if bidi {
            0x16
        } else {
            0x17
        },
        FrameView::NewConnectionId { .. } => 0x18,
        FrameView::RetireConnectionId { .. } => 0x19,
        FrameView::PathChallenge { .. } => 0x1a,
        FrameView::PathResponse { .. } => 0x1b,
        FrameView::ConnectionClose { frame_type, .. } => if frame_type is Some {
            0x1c
        } else {
            0x1d
        },
        FrameView::HandshakeDone => 0x1e,
    }
}

/// The wire bytes of the ACK ranges, in order: a gap and a length each.
pub open spec fn ack_ranges_bytes(ranges: Seq<(u64, u64)>) -> Seq<u8>
    decreases ranges.len(),
{
    if ranges.len() == 0 {
        Seq::empty()
    } else {
        varint_bytes(ranges[0].0) + varint_bytes(ranges[0].1) + ack_ranges_bytes(
            ranges.drop_first(),
        )
    }
}

/// The full wire encoding of a frame.
pub open spec fn frame_bytes(m: FrameView) -> Seq<u8> {
    seq![frame_type_byte(m)] + match m {
        FrameView::Padding => Seq::empty(),
        FrameView::Ping => Seq::empty(),
        FrameView::HandshakeDone => Seq::empty(),
        FrameView::Ack { largest, delay, range_count, first_range, ranges } => varint_bytes(
            largest,
        ) + varint_bytes(delay) + varint_bytes(range_count) + varint_bytes(first_range)
            + ack_ranges_bytes(ranges),
        FrameView::AckEcn { largest, delay, range_count, first_range, ranges, ect0, ect1, ecn_ce } => varint_bytes(largest) + varint_bytes(delay) + varint_bytes(range_count)
            + varint_bytes(first_range) + ack_ranges_bytes(ranges) + varint_bytes(ect0)
            + varint_bytes(ect1) + varint_bytes(ecn_ce),
        FrameView::ResetStream { stream_id, error_code, final_size } => varint_bytes(stream_id)
            + varint_bytes(error_code) + varint_bytes(final_size),
        FrameView::StopSending { stream_id, error_code } => varint_bytes(stream_id) + varint_bytes(
            error_code,
        ),
        FrameView::Crypto { offset, length, data } => varint_bytes(offset) + varint_bytes(length)
            + data,
        FrameView::NewToken { length, token } => varint_bytes(length) + token,
        FrameView::Stream { stream_id, offset, length, fin, data } => varint_bytes(stream_id) + (
        if offset > 0 {
            varint_bytes(offset)
        } else {
            Seq::empty()
        }) + (if length > 0 {
            varint_bytes(length)
        } else {
            Seq::empty()
        }) + data,
        FrameView::MaxData { max } => varint_bytes(max),
        FrameView::MaxStreamData { stream_id, max } => varint_bytes(stream_id) + varint_bytes(max),
        FrameView::MaxStreams { bidi, max } => varint_bytes(max),
        FrameView::DataBlocked { max } => varint_bytes(max),
        FrameView::StreamDataBlocked { stream_id, limit } => varint_bytes(stream_id)
            + varint_bytes(limit),
        FrameView::StreamsBlocked { bidi, max } => varint_bytes(max),
        FrameView::NewConnectionId { seq_no, retire_prior_to, cid_len, cid, token } => varint_bytes(
            seq_no,
        ) + varint_bytes(retire_prior_to) + seq![cid_len] + cid + token,
        FrameView::RetireConnectionId { seq_no } => varint_bytes(seq_no),
        FrameView::PathChallenge { data } => data,
        FrameView::PathResponse { data } => data,
        FrameView::ConnectionClose { error_code, frame_type, reason_len, reason } => varint_bytes(
            error_code,
        ) + (match frame_type {
            Some(ft) => seq![ft],
            None => Seq::empty(),
        }) + varint_bytes(reason_len) + encode_utf8(reason),
    }
}

/// Reading a run of `n` bytes: the run and the unread suffix, or a
/// truncation failure.
pub open spec fn parse_run(s: Seq<u8>, n: int) -> Result<(Seq<u8>, Seq<u8>), ErrorKind> {
    if n <= s.len() {
        Ok((s.take(n), s.skip(n)))
    } else {
        Err(ErrorKind::Truncated)
    }
}

/// Reading `count` ACK ranges while validating that every range keeps
/// the computed packet number non-negative; `next` is the smallest
/// packet number acknowledged so far.
pub open spec fn parse_ack_ranges(s: Seq<u8>, count: u64, next: u64) -> Result<
    (Seq<(u64, u64)>, Seq<u8>),
    ErrorKind,
>
    decreases count,
{
    if count == 0 {
        Ok((Seq::empty(), s))
    } else {
        match parse_varint(s) {
            Err(k) => Err(k),
            Ok((gap, s1)) => match parse_varint(s1) {
                Err(k) => Err(k),
                Ok((len, s2)) => {
                    if gap + 2 > next {
                        Err(ErrorKind::FrameEncodingError)
                    } else if len > next - gap - 2 {
                        Err(ErrorKind::FrameEncodingError)
                    } else {
                        match parse_ack_ranges(s2, (count - 1) as u64, (next - gap - 2) as u64) {
                            Err(k) => Err(k),
                            Ok((rest_ranges, s3)) => Ok((seq![(gap, len)] + rest_ranges, s3)),
                        }
                    }
                },
            },
        }
    }
}

/// What follows the validated ranges of an ACK body: the frame itself,
/// or for ACK_ECN the three ECN counts first.
pub open spec fn ack_finish(
    r: Result<(Seq<(u64, u64)>, Seq<u8>), ErrorKind>,
    largest: u64,
    delay: u64,
    range_count: u64,
    first_range: u64,
    ecn: bool,
) -> Result<(FrameView, Seq<u8>), ErrorKind> {
    match r {
        Err(k) => Err(k),
        Ok((ranges, s5)) => {
            if !ecn {
                Ok((FrameView::Ack { largest, delay, range_count, first_range, ranges }, s5))
            } else {
                match parse_varint(s5) {
                    Err(k) => Err(k),
                    Ok((ect0, s6)) => match parse_varint(s6) {
                        Err(k) => Err(k),
                        Ok((ect1, s7)) => match parse_varint(s7) {
                            Err(k) => Err(k),
                            Ok(
                                (ecn_ce, s8),
                            ) => Ok(
                                (
                                    FrameView::AckEcn {
                                        largest,
                                        delay,
                                        range_count,
                                        first_range,
                                        ranges,
                                        ect0,
                                        ect1,
                                        ecn_ce,
                                    },
                                    s8,
                                ),
                            ),
                        },
                    },
                }
            }
        },
    }
}

/// Reading an ACK or ACK_ECN frame body.
#[verifier::opaque]
pub open spec fn parse_ack(s: Seq<u8>, ecn: bool) -> Result<(FrameView, Seq<u8>), ErrorKind> {
    match parse_varint(s) {
        Err(k) => Err(k),
        Ok((largest, s1)) => match parse_varint(s1) {
            Err(k) => Err(k),
            Ok((delay, s2)) => match parse_varint(s2) {
                Err(k) => Err(k),
                Ok((range_count, s3)) => match parse_varint(s3) {
                    Err(k) => Err(k),
                    Ok((first_range, s4)) => {
                        if first_range > largest {
                            Err(ErrorKind::FrameEncodingError)
                        } else {
                            ack_finish(
                                parse_ack_ranges(s4, range_count, (largest - first_range) as u64),
                                largest,
                                delay,
                                range_count,
                                first_range,
                                ecn,
                            )
                        }
                    },
                },
            },
        },
    }
}

/// Reading a STREAM frame body, the flags taken from the type byte.
#[verifier::opaque]
pub open spec fn parse_stream(ty: u8, s: Seq<u8>) -> Result<(FrameView, Seq<u8>), ErrorKind> {
    let fin = ty % 2 == 1;
    let has_len = (ty / 2) % 2 == 1;
    let has_off = (ty / 4) % 2 == 1;
    match parse_varint(s) {
        Err(k) => Err(k),
        Ok((stream_id, s1)) => {
            let offres = if has_off {
                parse_varint(s1)
            } else {
                Ok((0u64, s1))
            };
            match offres {
                Err(k) => Err(k),
                Ok((offset, s2)) => {
                    let lenres = if has_len {
                        parse_varint(s2)
                    } else {
                        Ok((0u64, s2))
                    };
                    match lenres {
                        Err(k) => Err(k),
                        Ok((length, s3)) => {
                            let dres = if has_len {
                                parse_run(s3, length as int)
                            } else {
                                Ok((s3, s3.skip(s3.len() as int)))
                            };
                            match dres {
                                Err(k) => Err(k),
                                Ok(
                                    (data, s4),
                                ) => Ok(
                                    (FrameView::Stream { stream_id, offset, length, fin, data }, s4),
                                ),
                            }
                        },
                    }
                },
            }
        },
    }
}

/// Reading a CONNECTION_CLOSE frame body; the transport form (0x1c)
/// carries a triggering-frame-type byte, the application form (0x1d)
/// does not.
#[verifier::opaque]
pub open spec fn parse_connection_close(s: Seq<u8>, transport: bool) -> Result<
    (FrameView, Seq<u8>),
    ErrorKind,
> {
    match parse_varint(s) {
        Err(k) => Err(k),
        Ok((error_code, s1)) => {
            let ftres = if transport {
                if s1.len() == 0 {
                    Err(ErrorKind::Truncated)
                } else {
                    Ok((Some(s1[0]), s1.skip(1)))
                }
            } else {
                Ok((None, s1))
            };
            match ftres {
                Err(k) => Err(k),
                Ok((frame_type, s2)) => match parse_varint(s2) {
                    Err(k) => Err(k),
                    Ok((reason_len, s3)) => match parse_run(s3, reason_len as int) {
                        Err(k) => Err(k),
                        Ok((reason_bytes, s4)) => {
                            if valid_utf8(reason_bytes) {
                                Ok(
                                    (
                                        FrameView::ConnectionClose {
                                            error_code,
                                            frame_type,
                                            reason_len,
                                            reason: decode_utf8(reason_bytes),
                                        },
                                        s4,
                                    ),
                                )
                            } else {
                                Err(ErrorKind::FrameEncodingError)
                            }
                        },
                    },
                },
            }
        },
    }
}

/// Reading a frame whose type byte is below 0x10.
#[verifier::opaque]
pub open spec fn parse_frame_low(ty: u8, t: Seq<u8>) -> Result<(FrameView, Seq<u8>), ErrorKind>
    recommends
        ty < 0x10,
{
    if ty == 0x00 {
            Ok((FrameView::Padding, t))
        } else if ty == 0x01 {
            Ok((FrameView::Ping, t))
        } else if ty == 0x02 {
            parse_ack(t, false)
        } else if ty == 0x03 {
            parse_ack(t, true)
        } else if ty == 0x04 {
            match parse_varint(t) {
                Err(k) => Err(k),
                Ok((stream_id, s1)) => match parse_varint(s1) {
                    Err(k) => Err(k),
                    Ok((error_code, s2)) => match parse_varint(s2) {
                        Err(k) => Err(k),
                        Ok(
                            (final_size, s3),
                        ) => Ok((FrameView::ResetStream { stream_id, error_code, final_size }, s3)),
                    },
                },
            }
        } else if ty == 0x05 {
            match parse_varint(t) {
                Err(k) => Err(k),
                Ok((stream_id, s1)) => match parse_varint(s1) {
                    Err(k) => Err(k),
                    Ok((error_code, s2)) => Ok(
                        (FrameView::StopSending { stream_id, error_code }, s2),
                    ),
                },
            }
        } else if ty == 0x06 {
            match parse_varint(t) {
                Err(k) => Err(k),
                Ok((offset, s1)) => match parse_varint(s1) {
                    Err(k) => Err(k),
                    Ok((length, s2)) => {
                        if offset + length > VARINT_MAX {
                            Err(ErrorKind::CryptoBufferExceeded)
                        } else {
                            match parse_run(s2, length as int) {
                                Err(k) => Err(k),
                                Ok(
                                    (data, s3),
                                ) => Ok((FrameView::Crypto { offset, length, data }, s3)),
                            }
                        }
                    },
                },
            }
        } else if ty == 0x07 {
            match parse_varint(t) {
                Err(k) => Err(k),
                Ok((length, s1)) => match parse_run(s1, length as int) {
                    Err(k) => Err(k),
                    Ok((token, s2)) => Ok((FrameView::NewToken { length, token }, s2)),
                },
            }
        } else {
            parse_stream(ty, t)
        }
}

/// Reading a frame whose type byte is 0x10 or above.
#[verifier::opaque]
pub open spec fn parse_frame_high(ty: u8, t: Seq<u8>) -> Result<(FrameView, Seq<u8>), ErrorKind>
    recommends
        ty >= 0x10,
{
    if ty == 0x10 {
            match parse_varint(t) {
                Err(k) => Err(k),
                Ok((max, s1)) => Ok((FrameView::MaxData { max }, s1)),
            }
        } else if ty == 0x11 {
            match parse_varint(t) {
                Err(k) => Err(k),
                Ok((stream_id, s1)) => match parse_varint(s1) {
                    Err(k) => Err(k),
                    Ok((max, s2)) => Ok((FrameView::MaxStreamData { stream_id, max }, s2)),
                },
            }
        } else if ty == 0x12 || ty == 0x13 {
            match parse_varint(t) {
                Err(k) => Err(k),
                Ok((max, s1)) => Ok((FrameView::MaxStreams { bidi: ty == 0x12, max }, s1)),
            }
        } else if ty == 0x14 {
            match parse_varint(t) {
                Err(k) => Err(k),
                Ok((max, s1)) => Ok((FrameView::DataBlocked { max }, s1)),
            }
        } else if ty == 0x15 {
            match parse_varint(t) {
                Err(k) => Err(k),
                Ok((stream_id, s1)) => match parse_varint(s1) {
                    Err(k) => Err(k),
                    Ok((limit, s2)) => Ok((FrameView::StreamDataBlocked { stream_id, limit }, s2)),
                },
            }
        } else if ty == 0x16 || ty == 0x17 {
            match parse_varint(t) {
                Err(k) => Err(k),
                Ok((max, s1)) => Ok((FrameView::StreamsBlocked { bidi: ty == 0x16, max }, s1)),
            }
        } else if ty == 0x18 {
            match parse_varint(t) {
                Err(k) => Err(k),
                Ok((seq_no, s1)) => match parse_varint(s1) {
                    Err(k) => Err(k),
                    Ok((retire_prior_to, s2)) => {
                        if s2.len() == 0 {
                            Err(ErrorKind::Truncated)
                        } else {
                            let cid_len = s2[0];
                            let s3 = s2.skip(1);
                            if cid_len < 1 || cid_len > 20 {
                                Err(ErrorKind::FrameEncodingError)
                            } else if retire_prior_to > seq_no {
                                Err(ErrorKind::FrameEncodingError)
                            } else {
                                match parse_run(s3, cid_len as int) {
                                    Err(k) => Err(k),
                                    Ok((cid, s4)) => match parse_run(s4, 16) {
                                        Err(k) => Err(k),
                                        Ok(
                                            (token, s5),
                                        ) => Ok(
                                            (
                                                FrameView::NewConnectionId {
                                                    seq_no,
                                                    retire_prior_to,
                                                    cid_len,
                                                    cid,
                                                    token,
                                                },
                                                s5,
                                            ),
                                        ),
                                    },
                                }
                            }
                        }
                    },
                },
            }
        } else if ty == 0x19 {
            match parse_varint(t) {
                Err(k) => Err(k),
                Ok((seq_no, s1)) => Ok((FrameView::RetireConnectionId { seq_no }, s1)),
            }
        } else if ty == 0x1a {
            match parse_run(t, 8) {
                Err(k) => Err(k),
                Ok((data, s1)) => Ok((FrameView::PathChallenge { data }, s1)),
            }
        } else if ty == 0x1b {
            match parse_run(t, 8) {
                Err(k) => Err(k),
                Ok((data, s1)) => Ok((FrameView::PathResponse { data }, s1)),
            }
        } else if ty == 0x1c {
            parse_connection_close(t, true)
        } else if ty == 0x1d {
            parse_connection_close(t, false)
        } else if ty == 0x1e {
            Ok((FrameView::HandshakeDone, t))
        } else {
            Err(ErrorKind::FrameEncodingError)
        }
}

/// Reading one frame from the front of `s`: the frame and the unread
/// suffix, or the failure the wire data forces.
pub open spec fn parse_frame(s: Seq<u8>) -> Result<(FrameView, Seq<u8>), ErrorKind> {
    if s.len() == 0 {
        Err(ErrorKind::Truncated)
    } else {
        let ty = s[0];
        let t = s.skip(1);
        if ty < 0x10 {
            parse_frame_low(ty, t)
        } else {
            parse_frame_high(ty, t)
        }
    }
}

/// Every gap and length of a validated range list fits the
/// variable-length integer range.
proof fn lemma_ack_ranges_wf_bounds(next: int, ranges: Seq<(u64, u64)>)
    requires
        ack_ranges_wf(next, ranges),
        next <= VARINT_MAX,
    ensures
        forall|i: int|
            0 <= i < ranges.len() ==> (#[trigger] ranges[i]).0 <= VARINT_MAX && ranges[i].1
                <= VARINT_MAX,
    decreases ranges.len(),
{
    if ranges.len() > 0 {
        let (gap, len) = ranges[0];
        lemma_ack_ranges_wf_bounds(next - gap - 2, ranges.drop_first());
        assert forall|i: int|
            0 <= i < ranges.len() implies (#[trigger] ranges[i]).0 <= VARINT_MAX && ranges[i].1
            <= VARINT_MAX by {
            if i > 0 {
                assert(ranges[i] == ranges.drop_first()[i - 1]);
            }
        }
    }
}

/// Appending one range appends its gap and length bytes.
proof fn lemma_ack_ranges_bytes_push(ranges: Seq<(u64, u64)>, p: (u64, u64))
    ensures
        ack_ranges_bytes(ranges.push(p)) == ack_ranges_bytes(ranges) + varint_bytes(p.0)
            + varint_bytes(p.1),
    decreases ranges.len(),
{
    let snoc = ranges.push(p);
    assert(snoc.len() == ranges.len() + 1);
    if ranges.len() == 0 {
        assert(snoc[0] == p);
        assert(snoc.drop_first() =~= Seq::<(u64, u64)>::empty());
        assert(ack_ranges_bytes(snoc) == varint_bytes(snoc[0].0) + varint_bytes(snoc[0].1)
            + ack_ranges_bytes(snoc.drop_first()));
        assert(ack_ranges_bytes(snoc) =~= ack_ranges_bytes(ranges) + varint_bytes(p.0)
            + varint_bytes(p.1));
    } else {
        assert(snoc.drop_first() =~= ranges.drop_first().push(p));
        lemma_ack_ranges_bytes_push(ranges.drop_first(), p);
        assert(snoc[0] == ranges[0]);
        assert(ack_ranges_bytes(snoc) == varint_bytes(snoc[0].0) + varint_bytes(snoc[0].1)
            + ack_ranges_bytes(snoc.drop_first()));
        assert(ack_ranges_bytes(ranges) == varint_bytes(ranges[0].0) + varint_bytes(ranges[0].1)
            + ack_ranges_bytes(ranges.drop_first()));
        assert(ack_ranges_bytes(snoc) =~= ack_ranges_bytes(ranges) + varint_bytes(p.0)
            + varint_bytes(p.1));
    }
}

/// Relies on String::from_utf8: it succeeds exactly on valid UTF-8
/// input, and then carries the characters those bytes encode.
#[verifier::external_body]
fn string_from_utf8(bytes: Vec<u8>) -> (r: Option<String>)
    ensures
        r is Some <==> valid_utf8(bytes@),
        r matches Some(s) ==> s@ == decode_utf8(bytes@),
{
    String::from_utf8(bytes).ok()
}

impl Frame {
    /// The frame's one-byte type tag; for STREAM frames the low three
    /// bits carry the FIN, LEN and OFF flags.
    pub fn ty(&self) -> (r: FrameType)
        ensures
            r.0 == frame_type_byte(self@),
    {
        match self {
            Frame::Padding => FrameType(0x00),
            Frame::Ping => FrameType(0x01),
            Frame::Ack { .. } => FrameType(0x02),
            Frame::AckEcn { .. } => FrameType(0x03),
            Frame::ResetStream { .. } => FrameType(0x04),
            Frame::StopSending { .. } => FrameType(0x05),
            Frame::Crypto { .. } => FrameType(0x06),
            Frame::NewToken { .. } => FrameType(0x07),
            Frame::Stream { offset, length, fin, .. } => {
                let mut t: u8 = 0x08;
                if fin.to_inner() == 1 {
                    t = t + 1;
                }
                if length.to_inner() > 0 {
                    t = t + 2;
                }
                if offset.to_inner() > 0 {
                    t = t + 4;
                }
                FrameType(t)
            },
            Frame::MaxData(..) => FrameType(0x10),
            Frame::MaxStreamData { .. } => FrameType(0x11),
            Frame::MaxStreams { stream_type, .. } => match stream_type {
                StreamType::Bidirectional => FrameType(0x12),
                StreamType::Unidirectional => FrameType(0x13),
            },
            Frame::DataBlocked(..) => FrameType(0x14),
            Frame::StreamDataBlocked { .. } => FrameType(0x15),
            Frame::StreamsBlocked { stream_type, .. } => match stream_type {
                StreamType::Bidirectional => FrameType(0x16),
                StreamType::Unidirectional => FrameType(0x17),
            },
            Frame::NewConnectionId { .. } => FrameType(0x18),
            Frame::RetireConnectionId(..) => FrameType(0x19),
            Frame::PathChallenge(..) => FrameType(0x1a),
            Frame::PathResponse(..) => FrameType(0x1b),
            Frame::ConnectionClose { frame_type, .. } => {
                if frame_type.is_some() {
                    FrameType(0x1c)
                } else {
                    FrameType(0x1d)
                }
            },
            Frame::HandshakeDone => FrameType(0x1e),
        }
    }

    /// Encodes the frame: the type byte, then the variant's fields in
    /// their wire order.
    #[verifier::rlimit(100)]
    #[verifier::spinoff_prover]
    pub fn encode(&self) -> (r: Vec<u8>)
        requires
            self@.wf(),
        ensures
            r@ == frame_bytes(self@),
    {
        let mut buf: Vec<u8> = Vec::new();
        let t = self.ty();
        buf.push(t.0);
        match self {
            Frame::Padding | Frame::Ping | Frame::HandshakeDone => {},
            Frame::Ack {
                largest_acknowledged,
                ack_delay,
                ack_range_count,
                first_ack_range,
                ack_ranges,
            } => {
                push_varint(&mut buf, *largest_acknowledged);
                push_varint(&mut buf, *ack_delay);
                push_varint(&mut buf, *ack_range_count);
                push_varint(&mut buf, *first_ack_range);
                let ghost rv = ack_ranges@.map_values(|p: (VarInt, VarInt)| (p.0.0, p.1.0));
                proof {
                    lemma_ack_ranges_wf_bounds(
                        largest_acknowledged.0 - first_ack_range.0,
                        rv,
                    );
                }
                let ghost base = buf@;
                let mut i: usize = 0;
                while i < ack_ranges.len()
                    invariant
                        i <= ack_ranges@.len(),
                        rv == ack_ranges@.map_values(|p: (VarInt, VarInt)| (p.0.0, p.1.0)),
                        forall|j: int|
                            0 <= j < rv.len() ==> (#[trigger] rv[j]).0 <= VARINT_MAX && rv[j].1
                                <= VARINT_MAX,
                        buf@ == base + ack_ranges_bytes(rv.take(i as int)),
                    decreases ack_ranges@.len() - i,
                {
                    let (gap, len) = ack_ranges[i];
                    assert(rv[i as int] == (gap.0, len.0));
                    push_varint(&mut buf, gap);
                    push_varint(&mut buf, len);
                    proof {
                        lemma_ack_ranges_bytes_push(rv.take(i as int), rv[i as int]);
                        assert(rv.take(i + 1) =~= rv.take(i as int).push(rv[i as int]));
                    }
                    i = i + 1;
                }
                assert(rv.take(ack_ranges@.len() as int) =~= rv);
            },
            Frame::AckEcn {
                largest_acknowledged,
                ack_delay,
                ack_range_count,
                first_ack_range,
                ack_ranges,
                ect0_count,
                ect1_count,
                ecn_ce_count,
            } => {
                push_varint(&mut buf, *largest_acknowledged);
                push_varint(&mut buf, *ack_delay);
                push_varint(&mut buf, *ack_range_count);
                push_varint(&mut buf, *first_ack_range);
                let ghost rv = ack_ranges@.map_values(|p: (VarInt, VarInt)| (p.0.0, p.1.0));
                proof {
                    lemma_ack_ranges_wf_bounds(
                        largest_acknowledged.0 - first_ack_range.0,
                        rv,
                    );
                }
                let ghost base = buf@;
                let mut i: usize = 0;
                while i < ack_ranges.len()
                    invariant
                        i <= ack_ranges@.len(),
                        rv == ack_ranges@.map_values(|p: (VarInt, VarInt)| (p.0.0, p.1.0)),
                        forall|j: int|
                            0 <= j < rv.len() ==> (#[trigger] rv[j]).0 <= VARINT_MAX && rv[j].1
                                <= VARINT_MAX,
                        buf@ == base + ack_ranges_bytes(rv.take(i as int)),
                    decreases ack_ranges@.len() - i,
                {
                    let (gap, len) = ack_ranges[i];
                    assert(rv[i as int] == (gap.0, len.0));
                    push_varint(&mut buf, gap);
                    push_varint(&mut buf, len);
                    proof {
                        lemma_ack_ranges_bytes_push(rv.take(i as int), rv[i as int]);
                        assert(rv.take(i + 1) =~= rv.take(i as int).push(rv[i as int]));
                    }
                    i = i + 1;
                }
                assert(rv.take(ack_ranges@.len() as int) =~= rv);
                push_varint(&mut buf, *ect0_count);
                push_varint(&mut buf, *ect1_count);
                push_varint(&mut buf, *ecn_ce_count);
            },
            Frame::ResetStream { stream_id, application_protocol_error_code, final_size } => {
                push_varint(&mut buf, *stream_id);
                push_varint(&mut buf, *application_protocol_error_code);
                push_varint(&mut buf, *final_size);
            },
            Frame::StopSending { stream_id, application_protocol_error_code } => {
                push_varint(&mut buf, *stream_id);
                push_varint(&mut buf, *application_protocol_error_code);
            },
            Frame::Crypto { offset, crypto_length, crypto_data } => {
                push_varint(&mut buf, *offset);
                push_varint(&mut buf, *crypto_length);
                push_bytes(&mut buf, crypto_data);
            },
            Frame::NewToken { token_length, token } => {
                push_varint(&mut buf, *token_length);
                push_bytes(&mut buf, token);
            },
            Frame::Stream { stream_id, offset, length, fin, stream_data } => {
                push_varint(&mut buf, *stream_id);
                if offset.to_inner() > 0 {
                    push_varint(&mut buf, *offset);
                }
                if length.to_inner() > 0 {
                    push_varint(&mut buf, *length);
                }
                push_bytes(&mut buf, stream_data);
            },
            Frame::MaxData(max) => {
                push_varint(&mut buf, *max);
            },
            Frame::MaxStreamData { stream_id, max_stream_data } => {
                push_varint(&mut buf, *stream_id);
                push_varint(&mut buf, *max_stream_data);
            },
            Frame::MaxStreams { max_streams, .. } => {
                push_varint(&mut buf, *max_streams);
            },
            Frame::DataBlocked(max) => {
                push_varint(&mut buf, *max);
            },
            Frame::StreamDataBlocked { stream_id, stream_data_limit } => {
                push_varint(&mut buf, *stream_id);
                push_varint(&mut buf, *stream_data_limit);
            },
            Frame::StreamsBlocked { max_streams, .. } => {
                push_varint(&mut buf, *max_streams);
            },
            Frame::NewConnectionId {
                sequence_number,
                retire_prior_to,
                connection_id,
                stateless_reset_token,
            } => {
                push_varint(&mut buf, *sequence_number);
                push_varint(&mut buf, *retire_prior_to);
                buf.push(connection_id.cid_len);
                push_bytes(&mut buf, &connection_id.cid);
                push_slice(&mut buf, stateless_reset_token.as_slice());
            },
            Frame::RetireConnectionId(sequence_number) => {
                push_varint(&mut buf, *sequence_number);
            },
            Frame::PathChallenge(data) => {
                push_slice(&mut buf, data.as_slice());
            },
            Frame::PathResponse(data) => {
                push_slice(&mut buf, data.as_slice());
            },
            Frame::ConnectionClose {
                error_code,
                frame_type,
                reason_phrase_length,
                reason_phrase,
            } => {
                push_varint(&mut buf, *error_code);
                if let Some(ft) = frame_type {
                    buf.push(*ft);
                }
                push_varint(&mut buf, *reason_phrase_length);
                push_slice(&mut buf, reason_phrase.as_str().as_bytes());
            },
        }
        assert(buf@ =~= frame_bytes(self@));
        buf
    }
}

/// Law: reading back an encoded range list yields that list and
/// consumes exactly its bytes, whatever follows them.
pub proof fn lemma_ack_ranges_round_trip(ranges: Seq<(u64, u64)>, next: u64, rest: Seq<u8>)
    requires
        ack_ranges_wf(next as int, ranges),
        next <= VARINT_MAX,
        ranges.len() <= VARINT_MAX,
    ensures
        parse_ack_ranges(ack_ranges_bytes(ranges) + rest, ranges.len() as u64, next) == Ok::<
            (Seq<(u64, u64)>, Seq<u8>),
            ErrorKind,
        >((ranges, rest)),
    decreases ranges.len(),
{
    let s = ack_ranges_bytes(ranges) + rest;
    if ranges.len() == 0 {
        assert(s =~= rest);
        assert(ranges =~= Seq::<(u64, u64)>::empty());
    } else {
        let (gap, len) = ranges[0];
        let tail = ack_ranges_bytes(ranges.drop_first());
        let t1 = varint_bytes(len) + (tail + rest);
        assert(s =~= varint_bytes(gap) + t1);
        lemma_varint_round_trip(gap, t1);
        lemma_varint_round_trip(len, tail + rest);
        let next2 = (next - gap - 2) as u64;
        lemma_ack_ranges_round_trip(ranges.drop_first(), next2, rest);
        assert(seq![(gap, len)] + ranges.drop_first() =~= ranges);
    }
}

#[verifier::rlimit(100)]
#[verifier::spinoff_prover]
proof fn lemma_frame_rt_ack(m: FrameView, rest: Seq<u8>)
    requires
        m.wf(),
        m.greedy() ==> rest.len() == 0,
        m is Ack || m is AckEcn,
    ensures
        parse_frame(frame_bytes(m) + rest) == Ok::<(FrameView, Seq<u8>), ErrorKind>((m, rest)),
{
    reveal(parse_frame_low);
    reveal(parse_ack);
    let s = frame_bytes(m) + rest;
    let tb = frame_type_byte(m);
    assert(s[0] == tb);
    let t = s.skip(1);
    match m {
        FrameView::Ack { largest, delay, range_count, first_range, ranges } => {
            let rb = ack_ranges_bytes(ranges);
            let t4 = rb + rest;
            let t3 = varint_bytes(first_range) + t4;
            let t2 = varint_bytes(range_count) + t3;
            let t1 = varint_bytes(delay) + t2;
            assert(t =~= varint_bytes(largest) + t1);
            lemma_varint_round_trip(largest, t1);
            lemma_varint_round_trip(delay, t2);
            lemma_varint_round_trip(range_count, t3);
            lemma_varint_round_trip(first_range, t4);
            lemma_ack_ranges_round_trip(ranges, (largest - first_range) as u64, rest);
        },
        FrameView::AckEcn { largest, delay, range_count, first_range, ranges, ect0, ect1, ecn_ce } => {
            let rb = ack_ranges_bytes(ranges);
            let t7 = varint_bytes(ecn_ce) + rest;
            let t6 = varint_bytes(ect1) + t7;
            let t5 = varint_bytes(ect0) + t6;
            let t4 = rb + t5;
            let t3 = varint_bytes(first_range) + t4;
            let t2 = varint_bytes(range_count) + t3;
            let t1 = varint_bytes(delay) + t2;
            assert(t =~= varint_bytes(largest) + t1);
            lemma_varint_round_trip(largest, t1);
            lemma_varint_round_trip(delay, t2);
            lemma_varint_round_trip(range_count, t3);
            lemma_varint_round_trip(first_range, t4);
            lemma_ack_ranges_round_trip(ranges, (largest - first_range) as u64, t5);
            lemma_varint_round_trip(ect0, t6);
            lemma_varint_round_trip(ect1, t7);
            lemma_varint_round_trip(ecn_ce, rest);
        },
        _ => {},
    }
}

#[verifier::rlimit(100)]
#[verifier::spinoff_prover]
proof fn lemma_frame_rt_fields(m: FrameView, rest: Seq<u8>)
    requires
        m.wf(),
        m.greedy() ==> rest.len() == 0,
        m is ResetStream || m is StopSending || m is MaxData || m is MaxStreamData
            || m is MaxStreams || m is DataBlocked || m is StreamDataBlocked
            || m is StreamsBlocked || m is RetireConnectionId,
    ensures
        parse_frame(frame_bytes(m) + rest) == Ok::<(FrameView, Seq<u8>), ErrorKind>((m, rest)),
{
    reveal(parse_frame_low);
    reveal(parse_frame_high);
    let s = frame_bytes(m) + rest;
    let tb = frame_type_byte(m);
    assert(s[0] == tb);
    let t = s.skip(1);
    match m {
        FrameView::ResetStream { stream_id, error_code, final_size } => {
            let t2 = varint_bytes(final_size) + rest;
            let t1 = varint_bytes(error_code) + t2;
            assert(t =~= varint_bytes(stream_id) + t1);
            lemma_varint_round_trip(stream_id, t1);
            lemma_varint_round_trip(error_code, t2);
            lemma_varint_round_trip(final_size, rest);
        },
        FrameView::StopSending { stream_id, error_code } => {
            let t1 = varint_bytes(error_code) + rest;
            assert(t =~= varint_bytes(stream_id) + t1);
            lemma_varint_round_trip(stream_id, t1);
            lemma_varint_round_trip(error_code, rest);
        },
        FrameView::MaxData { max } => {
            assert(t =~= varint_bytes(max) + rest);
            lemma_varint_round_trip(max, rest);
        },
        FrameView::MaxStreamData { stream_id, max } => {
            let t1 = varint_bytes(max) + rest;
            assert(t =~= varint_bytes(stream_id) + t1);
            lemma_varint_round_trip(stream_id, t1);
            lemma_varint_round_trip(max, rest);
        },
        FrameView::MaxStreams { bidi, max } => {
            assert(t =~= varint_bytes(max) + rest);
            lemma_varint_round_trip(max, rest);
        },
        FrameView::DataBlocked { max } => {
            assert(t =~= varint_bytes(max) + rest);
            lemma_varint_round_trip(max, rest);
        },
        FrameView::StreamDataBlocked { stream_id, limit } => {
            let t1 = varint_bytes(limit) + rest;
            assert(t =~= varint_bytes(stream_id) + t1);
            lemma_varint_round_trip(stream_id, t1);
            lemma_varint_round_trip(limit, rest);
        },
        FrameView::StreamsBlocked { bidi, max } => {
            assert(t =~= varint_bytes(max) + rest);
            lemma_varint_round_trip(max, rest);
        },
        FrameView::RetireConnectionId { seq_no } => {
            assert(t =~= varint_bytes(seq_no) + rest);
            lemma_varint_round_trip(seq_no, rest);
        },
        _ => {},
    }
}

#[verifier::rlimit(100)]
#[verifier::spinoff_prover]
proof fn lemma_frame_rt_runs(m: FrameView, rest: Seq<u8>)
    requires
        m.wf(),
        m.greedy() ==> rest.len() == 0,
        m is Crypto || m is NewToken || m is NewConnectionId || m is PathChallenge
            || m is PathResponse || m is ConnectionClose,
    ensures
        parse_frame(frame_bytes(m) + rest) == Ok::<(FrameView, Seq<u8>), ErrorKind>((m, rest)),
{
    reveal(parse_frame_low);
    reveal(parse_frame_high);
    reveal(parse_connection_close);
    let s = frame_bytes(m) + rest;
    let tb = frame_type_byte(m);
    assert(s[0] == tb);
    let t = s.skip(1);
    match m {
        FrameView::Crypto { offset, length, data } => {
            let t2 = data + rest;
            let t1 = varint_bytes(length) + t2;
            assert(t =~= varint_bytes(offset) + t1);
            lemma_varint_round_trip(offset, t1);
            lemma_varint_round_trip(length, t2);
            assert(t2.take(length as int) =~= data);
            assert(t2.skip(length as int) =~= rest);
        },
        FrameView::NewToken { length, token } => {
            let t1 = token + rest;
            assert(t =~= varint_bytes(length) + t1);
            lemma_varint_round_trip(length, t1);
            assert(t1.take(length as int) =~= token);
            assert(t1.skip(length as int) =~= rest);
        },
        FrameView::NewConnectionId { seq_no, retire_prior_to, cid_len, cid, token } => {
            let t3 = cid + (token + rest);
            let t2 = seq![cid_len] + t3;
            let t1 = varint_bytes(retire_prior_to) + t2;
            assert(t =~= varint_bytes(seq_no) + t1);
            lemma_varint_round_trip(seq_no, t1);
            lemma_varint_round_trip(retire_prior_to, t2);
            assert(t2[0] == cid_len);
            assert(t2.skip(1) =~= t3);
            assert(t3.take(cid_len as int) =~= cid);
            assert(t3.skip(cid_len as int) =~= token + rest);
            assert((token + rest).take(16) =~= token);
            assert((token + rest).skip(16) =~= rest);
        },
        FrameView::PathChallenge { data } => {
            assert(t =~= data + rest);
            assert((data + rest).take(8) =~= data);
            assert((data + rest).skip(8) =~= rest);
        },
        FrameView::PathResponse { data } => {
            assert(t =~= data + rest);
            assert((data + rest).take(8) =~= data);
            assert((data + rest).skip(8) =~= rest);
        },
        FrameView::ConnectionClose { error_code, frame_type, reason_len, reason } => {
            let eb = encode_utf8(reason);
            let fb = match frame_type {
                Some(ft) => seq![ft],
                None => Seq::<u8>::empty(),
            };
            let t3 = eb + rest;
            let t2 = varint_bytes(reason_len) + t3;
            let t1 = fb + t2;
            assert(t =~= varint_bytes(error_code) + t1);
            lemma_varint_round_trip(error_code, t1);
            match frame_type {
                Some(ft) => {
                    assert(t1[0] == ft);
                    assert(t1.skip(1) =~= t2);
                },
                None => {
                    assert(t1 =~= t2);
                },
            }
            lemma_varint_round_trip(reason_len, t3);
            assert(t3.take(reason_len as int) =~= eb);
            assert(t3.skip(reason_len as int) =~= rest);
            vstd::utf8::encode_utf8_valid_utf8(reason);
            vstd::utf8::encode_utf8_decode_utf8(reason);
        },
        _ => {},
    }
}

#[verifier::rlimit(100)]
#[verifier::spinoff_prover]
proof fn lemma_frame_rt_stream(m: FrameView, rest: Seq<u8>)
    requires
        m.wf(),
        m.greedy() ==> rest.len() == 0,
        m is Stream,
    ensures
        parse_frame(frame_bytes(m) + rest) == Ok::<(FrameView, Seq<u8>), ErrorKind>((m, rest)),
{
    reveal(parse_frame_low);
    reveal(parse_stream);
    let s = frame_bytes(m) + rest;
    let tb = frame_type_byte(m);
    assert(s[0] == tb);
    let t = s.skip(1);
    match m {
        FrameView::Stream { stream_id, offset, length, fin, data } => {
            assert(0x08 <= tb <= 0x0f);
            assert((tb % 2 == 1) == fin);
            assert(((tb / 2) % 2 == 1) == (length > 0));
            assert(((tb / 4) % 2 == 1) == (offset > 0));
            let ob = if offset > 0 {
                varint_bytes(offset)
            } else {
                Seq::<u8>::empty()
            };
            let lb = if length > 0 {
                varint_bytes(length)
            } else {
                Seq::<u8>::empty()
            };
            let t3 = data + rest;
            let t2 = lb + t3;
            let t1 = ob + t2;
            assert(t =~= varint_bytes(stream_id) + t1);
            lemma_varint_round_trip(stream_id, t1);
            if offset > 0 {
                lemma_varint_round_trip(offset, t2);
            } else {
                assert(t1 =~= t2);
            }
            if length > 0 {
                lemma_varint_round_trip(length, t3);
                assert(t3.take(length as int) =~= data);
                assert(t3.skip(length as int) =~= rest);
            } else {
                assert(t2 =~= t3);
                assert(t3 =~= data);
                assert(t3.skip(t3.len() as int) =~= rest);
            }
        },
        _ => {},
    }
}

/// Law: reading back an encoded frame yields that frame and consumes
/// exactly its encoding, whatever follows it in the buffer; a frame
/// without a length, which reads to the end of the buffer, must be
/// followed by nothing.
pub proof fn lemma_frame_round_trip(m: FrameView, rest: Seq<u8>)
    requires
        m.wf(),
        m.greedy() ==> rest.len() == 0,
    ensures
        parse_frame(frame_bytes(m) + rest) == Ok::<(FrameView, Seq<u8>), ErrorKind>((m, rest)),
{
    reveal(parse_frame_low);
    reveal(parse_frame_high);
    let s = frame_bytes(m) + rest;
    let tb = frame_type_byte(m);
    assert(s[0] == tb);
    match m {
        FrameView::Padding | FrameView::Ping | FrameView::HandshakeDone => {
            assert(s.skip(1) =~= rest);
        },
        FrameView::Ack { .. } | FrameView::AckEcn { .. } => {
            lemma_frame_rt_ack(m, rest);
        },
        FrameView::ResetStream { .. } | FrameView::StopSending { .. } | FrameView::MaxData { .. }
        | FrameView::MaxStreamData { .. } | FrameView::MaxStreams { .. }
        | FrameView::DataBlocked { .. } | FrameView::StreamDataBlocked { .. }
        | FrameView::StreamsBlocked { .. } | FrameView::RetireConnectionId { .. } => {
            lemma_frame_rt_fields(m, rest);
        },
        FrameView::Crypto { .. } | FrameView::NewToken { .. } | FrameView::NewConnectionId { .. }
        | FrameView::PathChallenge { .. } | FrameView::PathResponse { .. }
        | FrameView::ConnectionClose { .. } => {
            lemma_frame_rt_runs(m, rest);
        },
        FrameView::Stream { .. } => {
            lemma_frame_rt_stream(m, rest);
        },
    }
}

proof fn lemma_parse_ack_ranges_len(s: Seq<u8>, count: u64, next: u64)
    ensures
        parse_ack_ranges(s, count, next) matches Ok((_, rest)) ==> rest.len() <= s.len(),
    decreases count,
{
    if count != 0 {
        lemma_parse_varint_len(s);
        match parse_varint(s) {
            Ok((gap, s1)) => {
                lemma_parse_varint_len(s1);
                match parse_varint(s1) {
                    Ok((len, s2)) => {
                        if gap + 2 <= next && len <= next - gap - 2 {
                            lemma_parse_ack_ranges_len(
                                s2,
                                (count - 1) as u64,
                                (next - gap - 2) as u64,
                            );
                        }
                    },
                    Err(_) => {},
                }
            },
            Err(_) => {},
        }
    }
}

proof fn lemma_parse_ack_len(s: Seq<u8>, ecn: bool)
    ensures
        parse_ack(s, ecn) matches Ok((_, rest)) ==> rest.len() <= s.len(),
{
    reveal(parse_ack);
    lemma_parse_varint_len(s);
    match parse_varint(s) {
        Ok((largest, s1)) => {
            lemma_parse_varint_len(s1);
            match parse_varint(s1) {
                Ok((delay, s2)) => {
                    lemma_parse_varint_len(s2);
                    match parse_varint(s2) {
                        Ok((range_count, s3)) => {
                            lemma_parse_varint_len(s3);
                            match parse_varint(s3) {
                                Ok((first_range, s4)) => {
                                    if first_range <= largest {
                                        lemma_parse_ack_ranges_len(
                                            s4,
                                            range_count,
                                            (largest - first_range) as u64,
                                        );
                                        match parse_ack_ranges(
                                            s4,
                                            range_count,
                                            (largest - first_range) as u64,
                                        ) {
                                            Ok((ranges, s5)) => {
                                                lemma_parse_varint_len(s5);
                                                match parse_varint(s5) {
                                                    Ok((ect0, s6)) => {
                                                        lemma_parse_varint_len(s6);
                                                        match parse_varint(s6) {
                                                            Ok((ect1, s7)) => {
                                                                lemma_parse_varint_len(s7);
                                                            },
                                                            Err(_) => {},
                                                        }
                                                    },
                                                    Err(_) => {},
                                                }
                                            },
                                            Err(_) => {},
                                        }
                                    }
                                },
                                Err(_) => {},
                            }
                        },
                        Err(_) => {},
                    }
                },
                Err(_) => {},
            }
        },
        Err(_) => {},
    }
}

proof fn lemma_parse_stream_len(ty: u8, s: Seq<u8>)
    ensures
        parse_stream(ty, s) matches Ok((_, rest)) ==> rest.len() <= s.len(),
{
    reveal(parse_stream);
    lemma_parse_varint_len(s);
    match parse_varint(s) {
        Ok((stream_id, s1)) => {
            lemma_parse_varint_len(s1);
            let offres = if (ty / 4) % 2 == 1 {
                parse_varint(s1)
            } else {
                Ok((0u64, s1))
            };
            match offres {
                Ok((offset, s2)) => {
                    lemma_parse_varint_len(s2);
                },
                Err(_) => {},
            }
        },
        Err(_) => {},
    }
}

proof fn lemma_parse_connection_close_len(s: Seq<u8>, transport: bool)
    ensures
        parse_connection_close(s, transport) matches Ok((_, rest)) ==> rest.len() <= s.len(),
{
    reveal(parse_connection_close);
    lemma_parse_varint_len(s);
    match parse_varint(s) {
        Ok((error_code, s1)) => {
            let ftres: Result<(Option<u8>, Seq<u8>), ErrorKind> = if transport {
                if s1.len() == 0 {
                    Err(ErrorKind::Truncated)
                } else {
                    Ok((Some(s1[0]), s1.skip(1)))
                }
            } else {
                Ok((None, s1))
            };
            match ftres {
                Ok((frame_type, s2)) => {
                    lemma_parse_varint_len(s2);
                },
                Err(_) => {},
            }
        },
        Err(_) => {},
    }
}

proof fn lemma_parse_frame_low_len(ty: u8, t: Seq<u8>)
    ensures
        parse_frame_low(ty, t) matches Ok((_, rest)) ==> rest.len() <= t.len(),
{
    reveal(parse_frame_low);
    lemma_parse_ack_len(t, false);
    lemma_parse_ack_len(t, true);
    lemma_parse_stream_len(ty, t);
    lemma_parse_varint_len(t);
    match parse_varint(t) {
        Ok((a, t1)) => {
            lemma_parse_varint_len(t1);
            match parse_varint(t1) {
                Ok((b, t2)) => {
                    lemma_parse_varint_len(t2);
                    if a <= t1.len() {
                        lemma_parse_varint_len(t1.skip(a as int));
                    }
                    if b <= t2.len() {
                        lemma_parse_varint_len(t2.skip(b as int));
                    }
                },
                Err(_) => {},
            }
        },
        Err(_) => {},
    }
}

proof fn lemma_parse_frame_high_len(ty: u8, t: Seq<u8>)
    ensures
        parse_frame_high(ty, t) matches Ok((_, rest)) ==> rest.len() <= t.len(),
{
    reveal(parse_frame_high);
    lemma_parse_connection_close_len(t, true);
    lemma_parse_connection_close_len(t, false);
    lemma_parse_varint_len(t);
    match parse_varint(t) {
        Ok((a, t1)) => {
            lemma_parse_varint_len(t1);
        },
        Err(_) => {},
    }
}

proof fn lemma_parse_ack_ranges_wf(s: Seq<u8>, count: u64, next: u64)
    ensures
        parse_ack_ranges(s, count, next) matches Ok((ranges, _)) ==> ranges.len() == count
            && ack_ranges_wf(next as int, ranges),
    decreases count,
{
    if count != 0 {
        match parse_varint(s) {
            Ok((gap, s1)) => {
                match parse_varint(s1) {
                    Ok((len, s2)) => {
                        if gap + 2 <= next && len <= next - gap - 2 {
                            lemma_parse_ack_ranges_wf(
                                s2,
                                (count - 1) as u64,
                                (next - gap - 2) as u64,
                            );
                            match parse_ack_ranges(
                                s2,
                                (count - 1) as u64,
                                (next - gap - 2) as u64,
                            ) {
                                Ok((rs, _)) => {
                                    assert((seq![(gap, len)] + rs).drop_first() =~= rs);
                                    assert((seq![(gap, len)] + rs)[0] == (gap, len));
                                },
                                Err(_) => {},
                            }
                        }
                    },
                    Err(_) => {},
                }
            },
            Err(_) => {},
        }
    }
}

proof fn lemma_parse_ack_wf(s: Seq<u8>, ecn: bool)
    ensures
        parse_ack(s, ecn) matches Ok((m, _)) ==> m.wf(),
{
    reveal(parse_ack);
    lemma_parse_varint_bounded(s);
    match parse_varint(s) {
        Ok((largest, s1)) => {
            lemma_parse_varint_bounded(s1);
            match parse_varint(s1) {
                Ok((delay, s2)) => {
                    lemma_parse_varint_bounded(s2);
                    match parse_varint(s2) {
                        Ok((range_count, s3)) => {
                            match parse_varint(s3) {
                                Ok((first_range, s4)) => {
                                    if first_range <= largest {
                                        let next = (largest - first_range) as u64;
                                        lemma_parse_ack_ranges_wf(s4, range_count, next);
                                        match parse_ack_ranges(s4, range_count, next) {
                                            Ok((ranges, s5)) => {
                                                lemma_parse_varint_bounded(s5);
                                                match parse_varint(s5) {
                                                    Ok((ect0, s6)) => {
                                                        lemma_parse_varint_bounded(s6);
                                                        match parse_varint(s6) {
                                                            Ok((ect1, s7)) => {
                                                                lemma_parse_varint_bounded(s7);
                                                            },
                                                            Err(_) => {},
                                                        }
                                                    },
                                                    Err(_) => {},
                                                }
                                            },
                                            Err(_) => {},
                                        }
                                    }
                                },
                                Err(_) => {},
                            }
                        },
                        Err(_) => {},
                    }
                },
                Err(_) => {},
            }
        },
        Err(_) => {},
    }
}

proof fn lemma_parse_stream_wf(ty: u8, s: Seq<u8>)
    ensures
        parse_stream(ty, s) matches Ok((m, _)) ==> m.wf(),
{
    reveal(parse_stream);
    lemma_parse_varint_bounded(s);
    match parse_varint(s) {
        Ok((stream_id, s1)) => {
            lemma_parse_varint_bounded(s1);
            let offres = if (ty / 4) % 2 == 1 {
                parse_varint(s1)
            } else {
                Ok((0u64, s1))
            };
            match offres {
                Ok((offset, s2)) => {
                    lemma_parse_varint_bounded(s2);
                },
                Err(_) => {},
            }
        },
        Err(_) => {},
    }
}

proof fn lemma_parse_connection_close_wf(s: Seq<u8>, transport: bool)
    ensures
        parse_connection_close(s, transport) matches Ok((m, _)) ==> m.wf(),
{
    reveal(parse_connection_close);
    lemma_parse_varint_bounded(s);
    match parse_varint(s) {
        Ok((error_code, s1)) => {
            let ftres: Result<(Option<u8>, Seq<u8>), ErrorKind> = if transport {
                if s1.len() == 0 {
                    Err(ErrorKind::Truncated)
                } else {
                    Ok((Some(s1[0]), s1.skip(1)))
                }
            } else {
                Ok((None, s1))
            };
            match ftres {
                Ok((frame_type, s2)) => {
                    lemma_parse_varint_bounded(s2);
                    match parse_varint(s2) {
                        Ok((reason_len, s3)) => {
                            if reason_len <= s3.len() {
                                let rb = s3.take(reason_len as int);
                                if valid_utf8(rb) {
                                    vstd::utf8::decode_utf8_encode_utf8(rb);
                                }
                            }
                        },
                        Err(_) => {},
                    }
                },
                Err(_) => {},
            }
        },
        Err(_) => {},
    }
}

proof fn lemma_parse_frame_low_wf(ty: u8, t: Seq<u8>)
    ensures
        parse_frame_low(ty, t) matches Ok((m, _)) ==> m.wf(),
{
    reveal(parse_frame_low);
    lemma_parse_ack_wf(t, false);
    lemma_parse_ack_wf(t, true);
    lemma_parse_stream_wf(ty, t);
    lemma_parse_varint_bounded(t);
    match parse_varint(t) {
        Ok((a, t1)) => {
            lemma_parse_varint_bounded(t1);
            match parse_varint(t1) {
                Ok((b, t2)) => {
                    lemma_parse_varint_bounded(t2);
                    if a <= t1.len() {
                        lemma_parse_varint_bounded(t1.skip(a as int));
                    }
                },
                Err(_) => {},
            }
        },
        Err(_) => {},
    }
}

proof fn lemma_parse_frame_high_wf(ty: u8, t: Seq<u8>)
    ensures
        parse_frame_high(ty, t) matches Ok((m, _)) ==> m.wf(),
{
    reveal(parse_frame_high);
    lemma_parse_connection_close_wf(t, true);
    lemma_parse_connection_close_wf(t, false);
    lemma_parse_varint_bounded(t);
    match parse_varint(t) {
        Ok((a, t1)) => {
            lemma_parse_varint_bounded(t1);
        },
        Err(_) => {},
    }
}

/// Whatever bytes a frame was read from, the frame is well-formed: its
/// numbers are in range, its length fields agree with its data, and its
/// ACK ranges validate.
pub proof fn lemma_parse_frame_wf(s: Seq<u8>)
    ensures
        parse_frame(s) matches Ok((m, _)) ==> m.wf(),
{
    if s.len() > 0 {
        let t = s.skip(1);
        lemma_parse_frame_low_wf(s[0], t);
        lemma_parse_frame_high_wf(s[0], t);
    }
}

/// A parsed frame consumes at least its type byte: what remains is
/// strictly shorter than the buffer.
pub proof fn lemma_parse_frame_progress(s: Seq<u8>)
    ensures
        parse_frame(s) matches Ok((_, rest)) ==> rest.len() < s.len(),
{
    if s.len() > 0 {
        let t = s.skip(1);
        lemma_parse_frame_low_len(s[0], t);
        lemma_parse_frame_high_len(s[0], t);
    }
}

/// Prepending already-read ranges to the outcome of reading the rest.
spec fn ack_join(
    acc: Seq<(u64, u64)>,
    r: Result<(Seq<(u64, u64)>, Seq<u8>), ErrorKind>,
) -> Result<(Seq<(u64, u64)>, Seq<u8>), ErrorKind> {
    match r {
        Ok((rs, rest)) => Ok((acc + rs, rest)),
        Err(k) => Err(k),
    }
}

proof fn lemma_ack_join_assoc(
    acc: Seq<(u64, u64)>,
    one: Seq<(u64, u64)>,
    r: Result<(Seq<(u64, u64)>, Seq<u8>), ErrorKind>,
)
    ensures
        ack_join(acc, ack_join(one, r)) == ack_join(acc + one, r),
{
    match r {
        Ok((rs, rest)) => {
            assert(acc + (one + rs) =~= (acc + one) + rs);
        },
        Err(k) => {},
    }
}

impl Frame {
    /// Reads the ACK or ACK_ECN body that follows the type byte.
    #[verifier::rlimit(100)]
    #[verifier::spinoff_prover]
    fn decode_ack(bytes: &mut Vec<u8>, ecn: bool) -> (r: QuicheResult<Frame>)
        ensures
            match parse_ack(old(bytes)@, ecn) {
                Ok((m, rest)) => r is Ok && r->Ok_0@ == m && final(bytes)@ == rest,
                Err(k) => r is Err && r->Err_0.kind == k,
            },
    {
        proof {
            reveal(parse_ack);
        }
        let largest = match VarInt::decode(bytes) {
            Ok(v) => v,
            Err(e) => { return Err(e) },
        };
        let delay = match VarInt::decode(bytes) {
            Ok(v) => v,
            Err(e) => { return Err(e) },
        };
        let count = match VarInt::decode(bytes) {
            Ok(v) => v,
            Err(e) => { return Err(e) },
        };
        let first = match VarInt::decode(bytes) {
            Ok(v) => v,
            Err(e) => { return Err(e) },
        };
        if first.to_inner() > largest.to_inner() {
            return Err(
                QuicheError::new(
                    ErrorKind::FrameEncodingError,
                    "ACK first range exceeds largest acknowledged",
                ),
            );
        }
        let ghost s0 = bytes@;
        let ghost next0 = (largest.0 - first.0) as u64;
        proof {
            assert(parse_ack(old(bytes)@, ecn) == ack_finish(
                parse_ack_ranges(s0, count.0, next0),
                largest.0,
                delay.0,
                count.0,
                first.0,
                ecn,
            ));
        }
        let mut next: u64 = largest.to_inner() - first.to_inner();
        let mut ranges: Vec<(VarInt, VarInt)> = Vec::new();
        let total = count.to_inner();
        let mut i: u64 = 0;
        proof {
            assert(ranges@.map_values(|p: (VarInt, VarInt)| (p.0.0, p.1.0)) =~= Seq::<(
                u64,
                u64,
            )>::empty());
        }
        while i < total
            invariant
                i <= total == count.0,
                next <= VARINT_MAX,
                parse_ack(old(bytes)@, ecn) == ack_finish(
                    parse_ack_ranges(s0, count.0, next0),
                    largest.0,
                    delay.0,
                    count.0,
                    first.0,
                    ecn,
                ),
                parse_ack_ranges(s0, count.0, next0) == ack_join(
                    ranges@.map_values(|p: (VarInt, VarInt)| (p.0.0, p.1.0)),
                    parse_ack_ranges(bytes@, (total - i) as u64, next),
                ),
            decreases total - i,
        {
            let ghost pre = bytes@;
            let ghost rv_pre = ranges@.map_values(|p: (VarInt, VarInt)| (p.0.0, p.1.0));
            let ghost next_pre = next;
            let gap = match VarInt::decode(bytes) {
                Ok(v) => v,
                Err(e) => {
                    proof {
                        assert(parse_ack_ranges(pre, (total - i) as u64, next_pre) == Err::<
                            (Seq<(u64, u64)>, Seq<u8>),
                            ErrorKind,
                        >(e.kind));
                    }
                    return Err(e)
                },
            };
            let ghost s1 = bytes@;
            let len = match VarInt::decode(bytes) {
                Ok(v) => v,
                Err(e) => {
                    proof {
                        assert(parse_varint(pre) == Ok::<(u64, Seq<u8>), ErrorKind>((gap.0, s1)));
                        assert(parse_ack_ranges(pre, (total - i) as u64, next_pre) == Err::<
                            (Seq<(u64, u64)>, Seq<u8>),
                            ErrorKind,
                        >(e.kind));
                    }
                    return Err(e)
                },
            };
            let ghost s2 = bytes@;
            if gap.to_inner() + 2 > next {
                proof {
                    assert(parse_ack_ranges(pre, (total - i) as u64, next_pre) == Err::<
                        (Seq<(u64, u64)>, Seq<u8>),
                        ErrorKind,
                    >(ErrorKind::FrameEncodingError));
                }
                return Err(
                    QuicheError::new(
                        ErrorKind::FrameEncodingError,
                        "ACK range gap exceeds remaining packet numbers",
                    ),
                );
            }
            next = next - (gap.to_inner() + 2);
            if len.to_inner() > next {
                proof {
                    assert(parse_ack_ranges(pre, (total - i) as u64, next_pre) == Err::<
                        (Seq<(u64, u64)>, Seq<u8>),
                        ErrorKind,
                    >(ErrorKind::FrameEncodingError));
                }
                return Err(
                    QuicheError::new(
                        ErrorKind::FrameEncodingError,
                        "ACK range length exceeds remaining packet numbers",
                    ),
                );
            }
            ranges.push((gap, len));
            proof {
                lemma_ack_join_assoc(
                    rv_pre,
                    seq![(gap.0, len.0)],
                    parse_ack_ranges(bytes@, (total - i - 1) as u64, next),
                );
                assert(ranges@.map_values(|p: (VarInt, VarInt)| (p.0.0, p.1.0)) =~= rv_pre
                    + seq![(gap.0, len.0)]);
            }
            i = i + 1;
        }
        let ghost rv = ranges@.map_values(|p: (VarInt, VarInt)| (p.0.0, p.1.0));
        proof {
            assert(rv + Seq::<(u64, u64)>::empty() =~= rv);
        }
        if !ecn {
            Ok(
                Frame::Ack {
                    largest_acknowledged: largest,
                    ack_delay: delay,
                    ack_range_count: count,
                    first_ack_range: first,
                    ack_ranges: ranges,
                },
            )
        } else {
            let ect0 = match VarInt::decode(bytes) {
                Ok(v) => v,
                Err(e) => { return Err(e) },
            };
            let ect1 = match VarInt::decode(bytes) {
                Ok(v) => v,
                Err(e) => { return Err(e) },
            };
            let ecn_ce = match VarInt::decode(bytes) {
                Ok(v) => v,
                Err(e) => { return Err(e) },
            };
            Ok(
                Frame::AckEcn {
                    largest_acknowledged: largest,
                    ack_delay: delay,
                    ack_range_count: count,
                    first_ack_range: first,
                    ack_ranges: ranges,
                    ect0_count: ect0,
                    ect1_count: ect1,
                    ecn_ce_count: ecn_ce,
                },
            )
        }
    }

    /// Reads the STREAM body that follows a type byte in 0x08 to 0x0f,
    /// whose low three bits say which optional fields are present.
    #[verifier::rlimit(100)]
    #[verifier::spinoff_prover]
    fn decode_stream(ty: u8, bytes: &mut Vec<u8>) -> (r: QuicheResult<Frame>)
        ensures
            match parse_stream(ty, old(bytes)@) {
                Ok((m, rest)) => r is Ok && r->Ok_0@ == m && final(bytes)@ == rest,
                Err(k) => r is Err && r->Err_0.kind == k,
            },
    {
        proof {
            reveal(parse_stream);
        }
        let fin_flag = ty % 2 == 1;
        let has_len = (ty / 2) % 2 == 1;
        let has_off = (ty / 4) % 2 == 1;
        let stream_id = match VarInt::decode(bytes) {
            Ok(v) => v,
            Err(e) => { return Err(e) },
        };
        let offset = if has_off {
            match VarInt::decode(bytes) {
                Ok(v) => v,
                Err(e) => { return Err(e) },
            }
        } else {
            VarInt::zero()
        };
        let length = if has_len {
            match VarInt::decode(bytes) {
                Ok(v) => v,
                Err(e) => { return Err(e) },
            }
        } else {
            VarInt::zero()
        };
        let ghost s3 = bytes@;
        let stream_data = if has_len {
            if length.to_inner() > bytes.len() as u64 {
                return Err(
                    QuicheError::new(ErrorKind::Truncated, "buffer ended inside stream data"),
                );
            }
            match read_bytes(bytes, length.to_inner() as usize) {
                Ok(d) => d,
                Err(e) => { return Err(e) },
            }
        } else {
            let n = bytes.len();
            let d = match read_bytes(bytes, n) {
                Ok(d) => d,
                Err(e) => { return Err(e) },
            };
            proof {
                assert(d@ =~= s3);
                assert(bytes@ =~= s3.skip(s3.len() as int));
            }
            d
        };
        let fin = if fin_flag {
            SingleBit::one()
        } else {
            SingleBit::zero()
        };
        Ok(Frame::Stream { stream_id, offset, length, fin, stream_data })
    }

    /// Reads the CONNECTION_CLOSE body; the transport form (0x1c)
    /// carries a triggering-frame-type byte, the application form
    /// (0x1d) does not.
    #[verifier::rlimit(100)]
    #[verifier::spinoff_prover]
    fn decode_connection_close(bytes: &mut Vec<u8>, transport: bool) -> (r: QuicheResult<Frame>)
        ensures
            match parse_connection_close(old(bytes)@, transport) {
                Ok((m, rest)) => r is Ok && r->Ok_0@ == m && final(bytes)@ == rest,
                Err(k) => r is Err && r->Err_0.kind == k,
            },
    {
        proof {
            reveal(parse_connection_close);
        }
        let error_code = match VarInt::decode(bytes) {
            Ok(v) => v,
            Err(e) => { return Err(e) },
        };
        let frame_type = if transport {
            match read_u8(bytes) {
                Ok(b) => Some(b),
                Err(e) => { return Err(e) },
            }
        } else {
            None
        };
        let reason_phrase_length = match VarInt::decode(bytes) {
            Ok(v) => v,
            Err(e) => { return Err(e) },
        };
        if reason_phrase_length.to_inner() > bytes.len() as u64 {
            return Err(
                QuicheError::new(ErrorKind::Truncated, "buffer ended inside a reason phrase"),
            );
        }
        let reason_bytes = match read_bytes(bytes, reason_phrase_length.to_inner() as usize) {
            Ok(d) => d,
            Err(e) => { return Err(e) },
        };
        let reason_phrase = match string_from_utf8(reason_bytes) {
            Some(s) => s,
            None => {
                return Err(
                    QuicheError::new(
                        ErrorKind::FrameEncodingError,
                        "reason phrase is not valid UTF-8",
                    ),
                );
            },
        };
        Ok(Frame::ConnectionClose { error_code, frame_type, reason_phrase_length, reason_phrase })
    }

    /// Reads the body of a frame whose type byte is below 0x10.
    #[verifier::rlimit(100)]
    #[verifier::spinoff_prover]
    fn decode_low(ty: u8, bytes: &mut Vec<u8>) -> (r: QuicheResult<Frame>)
        ensures
            match parse_frame_low(ty, old(bytes)@) {
                Ok((m, rest)) => r is Ok && r->Ok_0@ == m && final(bytes)@ == rest,
                Err(k) => r is Err && r->Err_0.kind == k,
            },
    {
        proof {
            reveal(parse_frame_low);
        }
        if ty == 0x00 {
            Ok(Frame::Padding)
        } else if ty == 0x01 {
            Ok(Frame::Ping)
        } else if ty == 0x02 {
            Self::decode_ack(bytes, false)
        } else if ty == 0x03 {
            Self::decode_ack(bytes, true)
        } else if ty == 0x04 {
            let stream_id = match VarInt::decode(bytes) {
                Ok(v) => v,
                Err(e) => { return Err(e) },
            };
            let application_protocol_error_code = match VarInt::decode(bytes) {
                Ok(v) => v,
                Err(e) => { return Err(e) },
            };
            let final_size = match VarInt::decode(bytes) {
                Ok(v) => v,
                Err(e) => { return Err(e) },
            };
            Ok(Frame::ResetStream { stream_id, application_protocol_error_code, final_size })
        } else if ty == 0x05 {
            let stream_id = match VarInt::decode(bytes) {
                Ok(v) => v,
                Err(e) => { return Err(e) },
            };
            let application_protocol_error_code = match VarInt::decode(bytes) {
                Ok(v) => v,
                Err(e) => { return Err(e) },
            };
            Ok(Frame::StopSending { stream_id, application_protocol_error_code })
        } else if ty == 0x06 {
            let offset = match VarInt::decode(bytes) {
                Ok(v) => v,
                Err(e) => { return Err(e) },
            };
            let crypto_length = match VarInt::decode(bytes) {
                Ok(v) => v,
                Err(e) => { return Err(e) },
            };
            if offset.to_inner() + crypto_length.to_inner() > VARINT_MAX {
                return Err(
                    QuicheError::new(
                        ErrorKind::CryptoBufferExceeded,
                        "CRYPTO offset plus length exceeds the stream bound",
                    ),
                );
            }
            if crypto_length.to_inner() > bytes.len() as u64 {
                return Err(
                    QuicheError::new(ErrorKind::Truncated, "buffer ended inside crypto data"),
                );
            }
            let crypto_data = match read_bytes(bytes, crypto_length.to_inner() as usize) {
                Ok(d) => d,
                Err(e) => { return Err(e) },
            };
            Ok(Frame::Crypto { offset, crypto_length, crypto_data })
        } else if ty == 0x07 {
            let token_length = match VarInt::decode(bytes) {
                Ok(v) => v,
                Err(e) => { return Err(e) },
            };
            if token_length.to_inner() > bytes.len() as u64 {
                return Err(
                    QuicheError::new(ErrorKind::Truncated, "buffer ended inside a token"),
                );
            }
            let token = match read_bytes(bytes, token_length.to_inner() as usize) {
                Ok(d) => d,
                Err(e) => { return Err(e) },
            };
            Ok(Frame::NewToken { token_length, token })
        } else {
            Self::decode_stream(ty, bytes)
        }
    }

    /// Reads the NEW_CONNECTION_ID body that follows its type byte.
    #[verifier::rlimit(100)]
    #[verifier::spinoff_prover]
    fn decode_new_connection_id(bytes: &mut Vec<u8>) -> (r: QuicheResult<Frame>)
        ensures
            match parse_frame_high(0x18, old(bytes)@) {
                Ok((m, rest)) => r is Ok && r->Ok_0@ == m && final(bytes)@ == rest,
                Err(k) => r is Err && r->Err_0.kind == k,
            },
    {
        proof {
            reveal(parse_frame_high);
        }
        let sequence_number = match VarInt::decode(bytes) {
            Ok(v) => v,
            Err(e) => { return Err(e) },
        };
        let retire_prior_to = match VarInt::decode(bytes) {
            Ok(v) => v,
            Err(e) => { return Err(e) },
        };
        let cid_len = match read_u8(bytes) {
            Ok(b) => b,
            Err(e) => { return Err(e) },
        };
        if cid_len < 1 || cid_len > 20 {
            return Err(
                QuicheError::new(
                    ErrorKind::FrameEncodingError,
                    "connection-id length outside 1 to 20",
                ),
            );
        }
        if retire_prior_to.to_inner() > sequence_number.to_inner() {
            return Err(
                QuicheError::new(
                    ErrorKind::FrameEncodingError,
                    "retire threshold exceeds sequence number",
                ),
            );
        }
        let cid = match read_bytes(bytes, cid_len as usize) {
            Ok(d) => d,
            Err(e) => { return Err(e) },
        };
        let tok = match read_bytes(bytes, 16) {
            Ok(d) => d,
            Err(e) => { return Err(e) },
        };
        let stateless_reset_token: [u8; 16] = [
            tok[0],
            tok[1],
            tok[2],
            tok[3],
            tok[4],
            tok[5],
            tok[6],
            tok[7],
            tok[8],
            tok[9],
            tok[10],
            tok[11],
            tok[12],
            tok[13],
            tok[14],
            tok[15],
        ];
        proof {
            assert(stateless_reset_token@ =~= tok@);
        }
        Ok(
            Frame::NewConnectionId {
                sequence_number,
                retire_prior_to,
                connection_id: ConnectionId::new(cid_len, cid),
                stateless_reset_token,
            },
        )
    }

    /// Reads the body of a frame whose type byte is 0x10 or above.
    #[verifier::rlimit(100)]
    #[verifier::spinoff_prover]
    fn decode_high(ty: u8, bytes: &mut Vec<u8>) -> (r: QuicheResult<Frame>)
        ensures
            match parse_frame_high(ty, old(bytes)@) {
                Ok((m, rest)) => r is Ok && r->Ok_0@ == m && final(bytes)@ == rest,
                Err(k) => r is Err && r->Err_0.kind == k,
            },
    {
        proof {
            reveal(parse_frame_high);
        }
        if ty == 0x10 {
            let max = match VarInt::decode(bytes) {
                Ok(v) => v,
                Err(e) => { return Err(e) },
            };
            Ok(Frame::MaxData(max))
        } else if ty == 0x11 {
            let stream_id = match VarInt::decode(bytes) {
                Ok(v) => v,
                Err(e) => { return Err(e) },
            };
            let max_stream_data = match VarInt::decode(bytes) {
                Ok(v) => v,
                Err(e) => { return Err(e) },
            };
            Ok(Frame::MaxStreamData { stream_id, max_stream_data })
        } else if ty == 0x12 || ty == 0x13 {
            let max_streams = match VarInt::decode(bytes) {
                Ok(v) => v,
                Err(e) => { return Err(e) },
            };
            let stream_type = if ty == 0x12 {
                StreamType::Bidirectional
            } else {
                StreamType::Unidirectional
            };
            Ok(Frame::MaxStreams { stream_type, max_streams })
        } else if ty == 0x14 {
            let max = match VarInt::decode(bytes) {
                Ok(v) => v,
                Err(e) => { return Err(e) },
            };
            Ok(Frame::DataBlocked(max))
        } else if ty == 0x15 {
            let stream_id = match VarInt::decode(bytes) {
                Ok(v) => v,
                Err(e) => { return Err(e) },
            };
            let stream_data_limit = match VarInt::decode(bytes) {
                Ok(v) => v,
                Err(e) => { return Err(e) },
            };
            Ok(Frame::StreamDataBlocked { stream_id, stream_data_limit })
        } else if ty == 0x16 || ty == 0x17 {
            let max_streams = match VarInt::decode(bytes) {
                Ok(v) => v,
                Err(e) => { return Err(e) },
            };
            let stream_type = if ty == 0x16 {
                StreamType::Bidirectional
            } else {
                StreamType::Unidirectional
            };
            Ok(Frame::StreamsBlocked { stream_type, max_streams })
        } else if ty == 0x18 {
            Self::decode_new_connection_id(bytes)
        } else if ty == 0x19 {
            let sequence_number = match VarInt::decode(bytes) {
                Ok(v) => v,
                Err(e) => { return Err(e) },
            };
            Ok(Frame::RetireConnectionId(sequence_number))
        } else if ty == 0x1a {
            let d = match read_bytes(bytes, 8) {
                Ok(d) => d,
                Err(e) => { return Err(e) },
            };
            let data: [u8; 8] = [d[0], d[1], d[2], d[3], d[4], d[5], d[6], d[7]];
            proof {
                assert(data@ =~= d@);
            }
            Ok(Frame::PathChallenge(data))
        } else if ty == 0x1b {
            let d = match read_bytes(bytes, 8) {
                Ok(d) => d,
                Err(e) => { return Err(e) },
            };
            let data: [u8; 8] = [d[0], d[1], d[2], d[3], d[4], d[5], d[6], d[7]];
            proof {
                assert(data@ =~= d@);
            }
            Ok(Frame::PathResponse(data))
        } else if ty == 0x1c {
            Self::decode_connection_close(bytes, true)
        } else if ty == 0x1d {
            Self::decode_connection_close(bytes, false)
        } else if ty == 0x1e {
            Ok(Frame::HandshakeDone)
        } else {
            Err(QuicheError::new(ErrorKind::FrameEncodingError, "unknown frame type"))
        }
    }

    /// Reads one frame from the front of the buffer. The type byte picks
    /// the variant; unknown types are a frame-encoding failure. Whatever
    /// the bytes were, a frame that comes back is well-formed.
    pub fn decode(bytes: &mut Vec<u8>) -> (r: QuicheResult<Frame>)
        ensures
            match parse_frame(old(bytes)@) {
                Ok((m, rest)) => r is Ok && r->Ok_0@ == m && final(bytes)@ == rest,
                Err(k) => r is Err && r->Err_0.kind == k,
            },
            r is Ok ==> r->Ok_0@.wf(),
    {
        proof {
            lemma_parse_frame_wf(old(bytes)@);
        }
        let ty = match read_u8(bytes) {
            Ok(b) => b,
            Err(e) => { return Err(e) },
        };
        if ty < 0x10 {
            Self::decode_low(ty, bytes)
        } else {
            Self::decode_high(ty, bytes)
        }
    }
}

} // verus!
