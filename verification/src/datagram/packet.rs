//! The on-wire layout of a datagram and of its content field.

use vstd::prelude::*;

use crate::types::{ManiStreamId, SequenceNumber, Timestamp};
use crate::wire::{
    be16, be32, be64, copy_range, get16, get32, get64, lemma_be16_roundtrip, lemma_be32_roundtrip,
    lemma_be64_roundtrip, lemma_from_be16_roundtrip, lemma_from_be32_roundtrip,
    lemma_from_be64_roundtrip, put_slice, put_u16, put_u32, put_u64, read_u16, read_u32, read_u64,
};

verus! {

/// Size of the fixed wire header prepended to every datagram:
/// `stream_id` (u64) + `sequence_number` (u32) + `timestamp` (u64) = 20 bytes.
pub const PACKET_WIRE_HEADER_SIZE: usize = 20;

/// Overhead added to the content field of a non-fragmented packet: 1 flag byte.
pub const SINGLE_CONTENT_OVERHEAD: usize = 1;

/// Overhead added to the content field of each fragment:
/// 1 flag byte + u16 frag_index + u16 total_frags = 5 bytes.
///
/// All fragments of the same logical chunk share the same `sequence_number` in
/// the packet wire header, so no additional chunk-key is needed here.
pub const FRAG_CONTENT_OVERHEAD: usize = 5;

/// One datagram of a MANI stream.
#[derive(Debug, Clone)]
pub struct Packet {
    pub stream_id: ManiStreamId,
    pub sequence_number: SequenceNumber,
    pub timestamp: Timestamp,
    pub content: Vec<u8>,
}

/// The mathematical value of a [`Packet`].
pub struct PacketView {
    pub stream_id: u64,
    pub sequence_number: u32,
    pub timestamp: u64,
    pub content: Seq<u8>,
}

impl View for Packet {
    type V = PacketView;

    open spec fn view(&self) -> PacketView {
        PacketView {
            stream_id: self.stream_id.0,
            sequence_number: self.sequence_number.0,
            timestamp: self.timestamp.0,
            content: self.content@,
        }
    }
}

/// The bytes of a packet on the wire: the 20-byte big-endian header, then the content.
pub open spec fn spec_packet_bytes(p: PacketView) -> Seq<u8> {
    be64(p.stream_id) + be32(p.sequence_number) + be64(p.timestamp) + p.content
}

/// The packet read from `b`, which holds at least the 20-byte header.
pub open spec fn spec_parse_packet(b: Seq<u8>) -> PacketView {
    PacketView {
        stream_id: get64(b, 0),
        sequence_number: get32(b, 8),
        timestamp: get64(b, 12),
        content: b.subrange(20, b.len() as int),
    }
}

/// Writes the wire form of `packet`.
pub fn serialize_packet(packet: &Packet) -> (out: Vec<u8>)
    ensures
        out@ == spec_packet_bytes(packet@),
{
    let mut buf: Vec<u8> = Vec::new();
    put_u64(&mut buf, packet.stream_id.0);
    put_u32(&mut buf, packet.sequence_number.0);
    put_u64(&mut buf, packet.timestamp.0);
    put_slice(&mut buf, packet.content.as_slice());
    buf
}

/// Reads a packet from its wire form. Every input of at least 20 bytes is a packet:
/// the header fields are read, and the rest is the content.
pub fn parse_packet(bytes: Vec<u8>) -> (res: Result<Packet, PacketParseError>)
    requires
        bytes@.len() >= PACKET_WIRE_HEADER_SIZE,
    ensures
        res matches Ok(p) && p@ == spec_parse_packet(bytes@),
{
    let s = bytes.as_slice();
    let stream_id = ManiStreamId(read_u64(s, 0));
    let sequence_number = SequenceNumber(read_u32(s, 8));
    let timestamp = Timestamp(read_u64(s, 12));
    let content = copy_range(s, PACKET_WIRE_HEADER_SIZE, s.len());
    Ok(Packet { stream_id, sequence_number, timestamp, content })
}

/// Reading the wire form of a packet gives the packet back.
pub proof fn lemma_packet_roundtrip(p: PacketView)
    ensures
        spec_parse_packet(spec_packet_bytes(p)) == p,
{
    let b = spec_packet_bytes(p);
    lemma_be64_roundtrip(p.stream_id);
    lemma_be32_roundtrip(p.sequence_number);
    lemma_be64_roundtrip(p.timestamp);
    assert(b.subrange(20, b.len() as int) =~= p.content);
}

/// Writing a parsed packet gives exactly the bytes it was read from:
/// no two inputs parse to the same packet.
pub proof fn lemma_packet_bytes_of_parse(b: Seq<u8>)
    requires
        b.len() >= 20,
    ensures
        spec_packet_bytes(spec_parse_packet(b)) == b,
{
    lemma_from_be64_roundtrip(b[0], b[1], b[2], b[3], b[4], b[5], b[6], b[7]);
    lemma_from_be32_roundtrip(b[8], b[9], b[10], b[11]);
    lemma_from_be64_roundtrip(b[12], b[13], b[14], b[15], b[16], b[17], b[18], b[19]);
    assert(spec_packet_bytes(spec_parse_packet(b)) =~= b);
}

/// The decoded content of a packet after stripping the fragmentation header.
///
/// All fragments that belong to the same logical chunk carry the same
/// `sequence_number` in the outer packet header. The `frag_index` /
/// `total_frags` fields within the fragment content are used to reassemble them.
#[derive(Debug, Clone)]
pub enum DecodedContent {
    /// The entire compressed payload is contained in this single packet.
    Single(Vec<u8>),
    /// This packet carries one fragment of a larger compressed payload.
    Fragment {
        /// 0-based index of this fragment within the chunk.
        frag_index: u16,
        /// Total number of fragments for this chunk.
        total_frags: u16,
        /// The compressed bytes carried by this fragment.
        payload: Vec<u8>,
    },
}

/// The mathematical value of a [`DecodedContent`].
pub enum ContentView {
    Single(Seq<u8>),
    Fragment(u16, u16, Seq<u8>),
}

impl View for DecodedContent {
    type V = ContentView;

    open spec fn view(&self) -> ContentView {
        match self {
            DecodedContent::Single(p) => ContentView::Single(p@),
            DecodedContent::Fragment { frag_index, total_frags, payload } => ContentView::Fragment(
                *frag_index,
                *total_frags,
                payload@,
            ),
        }
    }
}

/// The on-wire content field: a `0x00` flag then the payload, or a `0x01` flag,
/// the big-endian fragment index and count, then the fragment's bytes.
pub open spec fn spec_encode_content(c: ContentView) -> Seq<u8> {
    match c {
        ContentView::Single(p) => seq![0u8] + p,
        ContentView::Fragment(i, t, p) => seq![1u8] + be16(i) + be16(t) + p,
    }
}

/// What a content field decodes to; `None` where it is empty, has an unknown
/// flag, or is a fragment shorter than its 5-byte header.
pub open spec fn spec_decode_content(b: Seq<u8>) -> Option<ContentView> {
    if b.len() == 0 {
        None
    } else if b[0] == 0 {
        Some(ContentView::Single(b.subrange(1, b.len() as int)))
    } else if b[0] == 1 && b.len() >= 5 {
        Some(ContentView::Fragment(get16(b, 1), get16(b, 3), b.subrange(5, b.len() as int)))
    } else {
        None
    }
}

/// Encodes a complete (non-fragmented) compressed payload into the on-wire content format.
///
/// Prepends a `0x00` flag byte indicating a single-packet payload.
pub fn encode_single_content(compressed: Vec<u8>) -> (out: Vec<u8>)
    ensures
        out@ == spec_encode_content(ContentView::Single(compressed@)),
{
    let mut buf: Vec<u8> = Vec::new();
    buf.push(0u8);
    put_slice(&mut buf, compressed.as_slice());
    buf
}

/// Encodes one fragment of a fragmented compressed payload into the on-wire content format.
///
/// Prepends a `0x01` flag byte followed by `frag_index` (u16) and `total_frags` (u16).
/// All fragments of the same logical chunk must be sent with the same `sequence_number`
/// in the outer packet header so that the receiver can group them without an additional key.
pub fn encode_fragment_content(frag_index: u16, total_frags: u16, payload: &[u8]) -> (out: Vec<u8>)
    ensures
        out@ == spec_encode_content(ContentView::Fragment(frag_index, total_frags, payload@)),
{
    let mut buf: Vec<u8> = Vec::new();
    buf.push(1u8);
    put_u16(&mut buf, frag_index);
    put_u16(&mut buf, total_frags);
    put_slice(&mut buf, payload);
    buf
}

/// Decodes the fragmentation header from the `content` field of a received packet.
pub fn decode_content(bytes: Vec<u8>) -> (res: Result<DecodedContent, PacketParseError>)
    ensures
        res is Ok <==> spec_decode_content(bytes@) is Some,
        res matches Ok(d) ==> spec_decode_content(bytes@) == Some(d@),
{
    let s = bytes.as_slice();
    if s.len() == 0 {
        return Err(PacketParseError::UnexpectedEndOfData);
    }
    let flag = s[0];
    if flag == 0u8 {
        Ok(DecodedContent::Single(copy_range(s, 1, s.len())))
    } else if flag == 1u8 {
        if s.len() - 1 < 4 {
            return Err(PacketParseError::UnexpectedEndOfData);
        }
        let frag_index = read_u16(s, 1);
        let total_frags = read_u16(s, 3);
        Ok(DecodedContent::Fragment { frag_index, total_frags, payload: copy_range(s, 5, s.len()) })
    } else {
        Err(PacketParseError::UnexpectedEndOfData)
    }
}

/// Decoding an encoded content field gives it back.
pub proof fn lemma_content_roundtrip(c: ContentView)
    ensures
        spec_decode_content(spec_encode_content(c)) == Some(c),
{
    let b = spec_encode_content(c);
    match c {
        ContentView::Single(p) => {
            assert(b.subrange(1, b.len() as int) =~= p);
        },
        ContentView::Fragment(i, t, p) => {
            lemma_be16_roundtrip(i);
            lemma_be16_roundtrip(t);
            assert(b.subrange(5, b.len() as int) =~= p);
        },
    }
}

/// A content field that decodes is exactly the encoding of what it decodes to.
pub proof fn lemma_content_bytes_of_decode(b: Seq<u8>)
    requires
        spec_decode_content(b) is Some,
    ensures
        spec_encode_content(spec_decode_content(b)->0) == b,
{
    if b[0] == 1 {
        lemma_from_be16_roundtrip(b[1], b[2]);
        lemma_from_be16_roundtrip(b[3], b[4]);
    }
    assert(spec_encode_content(spec_decode_content(b)->0) =~= b);
}

/// Error returned when a datagram's content cannot be decoded.
#[derive(Debug, Clone, Copy, PartialEq, Eq, Structural)]
pub enum PacketParseError {
    UnexpectedEndOfData,
}

} // verus!
