use protofish2::opus_stream::{is_opus_header, FRAME_MS};
use protofish2::datagram::packet::{
    decode_content, encode_fragment_content, encode_single_content, parse_packet,
    serialize_packet, DecodedContent, Packet, PacketParseError, FRAG_CONTENT_OVERHEAD,
    PACKET_WIRE_HEADER_SIZE, SINGLE_CONTENT_OVERHEAD,
};
use protofish2::{ManiStreamId, SequenceNumber, Timestamp};

#[test]
fn test_encode_decode_single() {
    let original = b"hello compressed".to_vec();
    let encoded = encode_single_content(original.clone());
    match decode_content(encoded).unwrap() {
        DecodedContent::Single(payload) => assert_eq!(payload, original),
        _ => panic!("expected Single"),
    }
}

#[test]
fn test_encode_decode_fragment() {
    let payload = b"fragment bytes";
    let encoded = encode_fragment_content(2, 5, payload);
    match decode_content(encoded).unwrap() {
        DecodedContent::Fragment {
            frag_index,
            total_frags,
            payload: p,
        } => {
            assert_eq!(frag_index, 2);
            assert_eq!(total_frags, 5);
            assert_eq!(p.as_slice(), payload);
        }
        _ => panic!("expected Fragment"),
    }
}

#[test]
fn test_empty_content_errors() {
    assert!(decode_content(Vec::new()).is_err());
}

#[test]
fn single_content_has_flag_byte() {
    let encoded = encode_single_content(vec![7, 8, 9]);
    assert_eq!(encoded, vec![0x00, 7, 8, 9]);
    assert_eq!(encoded.len(), 3 + SINGLE_CONTENT_OVERHEAD);
}

#[test]
fn fragment_content_header_is_big_endian() {
    let encoded = encode_fragment_content(0x0102, 0x0304, &[0xaa]);
    assert_eq!(encoded, vec![0x01, 0x01, 0x02, 0x03, 0x04, 0xaa]);
    assert_eq!(encoded.len(), 1 + FRAG_CONTENT_OVERHEAD);
}

#[test]
fn decode_rejects_unknown_flag() {
    assert_eq!(
        decode_content(vec![0x02, 1, 2, 3, 4]).unwrap_err(),
        PacketParseError::UnexpectedEndOfData
    );
}

#[test]
fn decode_rejects_short_fragment_header() {
    assert_eq!(
        decode_content(vec![0x01, 0, 1, 0]).unwrap_err(),
        PacketParseError::UnexpectedEndOfData
    );
}

#[test]
fn decode_accepts_empty_payloads() {
    match decode_content(vec![0x00]).unwrap() {
        DecodedContent::Single(p) => assert!(p.is_empty()),
        _ => panic!("expected Single"),
    }
    match decode_content(vec![0x01, 0, 0, 0, 1]).unwrap() {
        DecodedContent::Fragment {
            frag_index,
            total_frags,
            payload,
        } => {
            assert_eq!((frag_index, total_frags), (0, 1));
            assert!(payload.is_empty());
        }
        _ => panic!("expected Fragment"),
    }
}

#[test]
fn packet_wire_layout() {
    let packet = Packet {
        stream_id: ManiStreamId(0x0102030405060708),
        sequence_number: SequenceNumber(0x0a0b0c0d),
        timestamp: Timestamp(0x1112131415161718),
        content: vec![0xff, 0xee],
    };
    let bytes = serialize_packet(&packet);
    assert_eq!(
        bytes,
        vec![
            1, 2, 3, 4, 5, 6, 7, 8, 0x0a, 0x0b, 0x0c, 0x0d, 0x11, 0x12, 0x13, 0x14, 0x15, 0x16,
            0x17, 0x18, 0xff, 0xee
        ]
    );
    assert_eq!(bytes.len(), PACKET_WIRE_HEADER_SIZE + 2);
}

#[test]
fn packet_roundtrip() {
    let packet = Packet {
        stream_id: ManiStreamId(42),
        sequence_number: SequenceNumber(u32::MAX),
        timestamp: Timestamp(1234567890),
        content: b"payload".to_vec(),
    };
    let parsed = parse_packet(serialize_packet(&packet)).unwrap();
    assert_eq!(parsed.stream_id, packet.stream_id);
    assert_eq!(parsed.sequence_number, packet.sequence_number);
    assert_eq!(parsed.timestamp, packet.timestamp);
    assert_eq!(parsed.content, packet.content);
}

#[test]
fn packet_bytes_roundtrip_exact_header() {
    let bytes: Vec<u8> = (0u8..20).collect();
    let parsed = parse_packet(bytes.clone()).unwrap();
    assert!(parsed.content.is_empty());
    assert_eq!(serialize_packet(&parsed), bytes);
}

#[test]
fn opus_headers_are_recognised() {
    assert!(is_opus_header(b"OpusHead\x01\x02"));
    assert!(is_opus_header(b"OpusTags"));
    assert!(!is_opus_header(b"OpusHea"));
    assert!(!is_opus_header(b"OpusData1234"));
    assert!(!is_opus_header(b"\xfc\xff\xfe"));
    assert_eq!(FRAME_MS, 20);
}
