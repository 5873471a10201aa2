use protofish2::compression::CompressionType;
use protofish2::connection::codec::{
    parse_connection_message, serialize_connection_message, ConnectionMessageParseError,
    TryGetError,
};
use protofish2::connection::message::ConnectionMessageType;
use protofish2::connection::{
    ClientHello, ConnectionErrorMsg, ConnectionMessage, Headers, ServerHello,
};

fn headers(pairs: &[(&str, &[u8])]) -> Headers {
    let mut h = Headers::new();
    for (k, v) in pairs {
        h.insert(k.to_string(), v.to_vec());
    }
    h
}

fn header_pairs(h: &Headers) -> Vec<(String, Vec<u8>)> {
    h.entries().to_vec()
}

#[test]
fn message_type_codes() {
    for code in 0u8..=255 {
        let t = ConnectionMessageType::from_u8(code);
        if (1..=6).contains(&code) {
            assert_eq!(t.unwrap().to_u8(), code);
        } else {
            assert!(t.is_none());
        }
    }
    assert_eq!(ConnectionMessageType::from_u8(0x05), Some(ConnectionMessageType::Error));
}

#[test]
fn compression_codes() {
    for c in [
        CompressionType::NoCompression,
        CompressionType::Gzip,
        CompressionType::Zstd,
        CompressionType::Lz4,
    ] {
        assert_eq!(CompressionType::from_u8(c.to_u8()), Some(c));
    }
    assert_eq!(CompressionType::from_u8(4), None);
}

#[test]
fn simple_messages_are_one_byte() {
    assert_eq!(serialize_connection_message(&ConnectionMessage::Keepalive), vec![0x03]);
    assert_eq!(serialize_connection_message(&ConnectionMessage::KeepaliveAck), vec![0x04]);
    assert_eq!(serialize_connection_message(&ConnectionMessage::Close), vec![0x06]);
    assert!(matches!(
        parse_connection_message(vec![0x03]),
        Ok(ConnectionMessage::Keepalive)
    ));
    assert!(matches!(
        parse_connection_message(vec![0x06, 0xff]),
        Ok(ConnectionMessage::Close)
    ));
}

#[test]
fn error_message_layout_and_roundtrip() {
    let msg = ConnectionMessage::Error(ConnectionErrorMsg {
        code: 0x0102,
        message: "bad".to_string(),
        close: true,
    });
    let bytes = serialize_connection_message(&msg);
    assert_eq!(bytes, vec![0x05, 0x01, 0x02, 0x00, 0x03, b'b', b'a', b'd', 0x01]);
    match parse_connection_message(bytes).unwrap() {
        ConnectionMessage::Error(e) => {
            assert_eq!(e.code, 0x0102);
            assert_eq!(e.message, "bad");
            assert!(e.close);
        }
        _ => panic!("expected Error"),
    }
}

#[test]
fn any_nonzero_flag_closes() {
    match parse_connection_message(vec![0x05, 0, 1, 0, 0, 7]).unwrap() {
        ConnectionMessage::Error(e) => assert!(e.close),
        _ => panic!("expected Error"),
    }
}

#[test]
fn client_hello_roundtrip() {
    let hello = ClientHello {
        version: 2,
        host: "localhost".to_string(),
        headers: headers(&[("example-header", b"hello server"), ("ключ", b"\x00\xff")]),
        available_compression_types: vec![CompressionType::Lz4, CompressionType::NoCompression],
        keepalive_min_ms: 1000,
        keepalive_max_ms: 10000,
    };
    let bytes = serialize_connection_message(&ConnectionMessage::ClientHello(hello));
    match parse_connection_message(bytes).unwrap() {
        ConnectionMessage::ClientHello(h) => {
            assert_eq!(h.version, 2);
            assert_eq!(h.host, "localhost");
            assert_eq!(
                header_pairs(&h.headers),
                vec![
                    ("example-header".to_string(), b"hello server".to_vec()),
                    ("ключ".to_string(), vec![0x00, 0xff]),
                ]
            );
            assert_eq!(
                h.available_compression_types,
                vec![CompressionType::Lz4, CompressionType::NoCompression]
            );
            assert_eq!(h.keepalive_min_ms, 1000);
            assert_eq!(h.keepalive_max_ms, 10000);
        }
        _ => panic!("expected ClientHello"),
    }
}

#[test]
fn server_hello_roundtrip() {
    let hello = ServerHello {
        version: 7,
        headers: Headers::new(),
        compression_type: CompressionType::Zstd,
        keepalive_interval_ms: 5000,
    };
    let bytes = serialize_connection_message(&ConnectionMessage::ServerHello(hello));
    assert_eq!(bytes, vec![0x02, 0, 7, 0, 0, 2, 0, 0, 0x13, 0x88]);
    match parse_connection_message(bytes).unwrap() {
        ConnectionMessage::ServerHello(h) => {
            assert_eq!(h.version, 7);
            assert_eq!(h.headers.len(), 0);
            assert_eq!(h.compression_type, CompressionType::Zstd);
            assert_eq!(h.keepalive_interval_ms, 5000);
        }
        _ => panic!("expected ServerHello"),
    }
}

#[test]
fn duplicate_header_keys_keep_the_last_value() {
    // count 2: "a" -> [1], "a" -> [2]
    let bytes = vec![
        0x02, 0, 1, 0, 2, 0, 1, b'a', 0, 1, 1, 0, 1, b'a', 0, 1, 2, 0, 0, 0, 0, 1,
    ];
    match parse_connection_message(bytes).unwrap() {
        ConnectionMessage::ServerHello(h) => {
            assert_eq!(header_pairs(&h.headers), vec![("a".to_string(), vec![2])]);
        }
        _ => panic!("expected ServerHello"),
    }
}

#[test]
fn headers_insert_replaces() {
    let mut h = Headers::new();
    assert_eq!(h.insert("k".to_string(), vec![1]), None);
    assert_eq!(h.insert("j".to_string(), vec![2]), None);
    assert_eq!(h.insert("k".to_string(), vec![3]), Some(vec![1]));
    assert_eq!(
        header_pairs(&h),
        vec![("k".to_string(), vec![3]), ("j".to_string(), vec![2])]
    );
}

#[test]
fn unknown_type_is_rejected() {
    assert_eq!(
        parse_connection_message(vec![0x09]).unwrap_err(),
        ConnectionMessageParseError::InvalidMessageType(0x09)
    );
}

#[test]
fn empty_input_is_short() {
    assert_eq!(
        parse_connection_message(Vec::new()).unwrap_err(),
        ConnectionMessageParseError::UnexpectedEndOfMessage(TryGetError {
            requested: 1,
            available: 0
        })
    );
}

#[test]
fn truncated_string_reports_sizes() {
    assert_eq!(
        parse_connection_message(vec![0x05, 0, 1, 0, 5, b'a', b'b']).unwrap_err(),
        ConnectionMessageParseError::UnexpectedEndOfMessage(TryGetError {
            requested: 5,
            available: 2
        })
    );
    assert_eq!(
        parse_connection_message(vec![0x05, 0]).unwrap_err(),
        ConnectionMessageParseError::UnexpectedEndOfMessage(TryGetError {
            requested: 2,
            available: 1
        })
    );
}

#[test]
fn invalid_utf8_is_rejected() {
    assert_eq!(
        parse_connection_message(vec![0x05, 0, 1, 0, 1, 0xff, 0]).unwrap_err(),
        ConnectionMessageParseError::StringDecodeError
    );
}

#[test]
fn unknown_compression_is_invalid_format() {
    // server hello, version 1, no headers, compression code 9
    assert_eq!(
        parse_connection_message(vec![0x02, 0, 1, 0, 0, 9, 0, 0, 0, 0]).unwrap_err(),
        ConnectionMessageParseError::InvalidMessageFormat
    );
}

#[test]
fn truncated_keepalive_field() {
    assert_eq!(
        parse_connection_message(vec![0x02, 0, 1, 0, 0, 3, 0, 0]).unwrap_err(),
        ConnectionMessageParseError::UnexpectedEndOfMessage(TryGetError {
            requested: 4,
            available: 2
        })
    );
}

#[test]
fn cloned_message_serializes_the_same() {
    let hello = ClientHello {
        version: 1,
        host: "example.org".to_string(),
        headers: headers(&[("a", b"1"), ("b", b"22")]),
        available_compression_types: vec![CompressionType::Zstd],
        keepalive_min_ms: 5,
        keepalive_max_ms: 50,
    };
    let message = ConnectionMessage::ClientHello(hello);
    let copy = message.clone();
    assert_eq!(
        serialize_connection_message(&copy),
        serialize_connection_message(&message)
    );
    let h = headers(&[("x", b"1"), ("y", b"2")]);
    assert_eq!(header_pairs(&h.clone()), header_pairs(&h));
}
