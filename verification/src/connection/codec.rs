//! The byte format of control-stream messages.
//!
//! A message is a one-byte type tag followed by its fields. Integers are
//! big-endian; a string is a `u16` byte length and its UTF-8 bytes; a header
//! map is a `u16` entry count, then per entry a string key, a `u16` value
//! length and the value bytes.

use vstd::prelude::*;
use vstd::utf8::{decode_utf8, encode_utf8, valid_utf8};

use crate::compression::{spec_compression_code, spec_compression_from_code, CompressionType};
use crate::connection::message::{
    spec_insert, spec_message_type_code, spec_message_type_from_code, ClientHello,
    ConnectionErrorMsg, ConnectionMessage, ConnectionMessageType, Headers, MessageView,
    ServerHello,
};
use crate::connection::message::{distinct_keys, key_position};
use crate::wire::{
    be16, be32, get16, get32, lemma_be16_roundtrip, lemma_be32_roundtrip, put_slice, put_u16,
    put_u32, read_u16, read_u32,
};

verus! {

/// Not enough bytes remained for a read: how many it needed and how many there were.
#[derive(Debug, Clone, Copy, PartialEq, Eq, Structural)]
pub struct TryGetError {
    pub requested: usize,
    pub available: usize,
}

/// Why a control message could not be parsed.
#[derive(Debug, Clone, Copy, PartialEq, Eq, Structural)]
pub enum ConnectionMessageParseError {
    InvalidMessageType(u8),
    InvalidMessageFormat,
    StringDecodeError,
    UnexpectedEndOfMessage(TryGetError),
}

/// The error of a read of `n` bytes at `pos` that runs past the end of `b`.
pub open spec fn short(b: Seq<u8>, pos: int, n: int) -> ConnectionMessageParseError {
    ConnectionMessageParseError::UnexpectedEndOfMessage(
        TryGetError { requested: n as usize, available: (b.len() - pos) as usize },
    )
}

/// Reads one byte at `pos`; the result carries the position after it.
pub open spec fn sp_u8(b: Seq<u8>, pos: int) -> Result<(u8, int), ConnectionMessageParseError> {
    if b.len() - pos < 1 {
        Err(short(b, pos, 1))
    } else {
        Ok((b[pos], pos + 1))
    }
}

/// Reads a big-endian `u16` at `pos`.
pub open spec fn sp_u16(b: Seq<u8>, pos: int) -> Result<(u16, int), ConnectionMessageParseError> {
    if b.len() - pos < 2 {
        Err(short(b, pos, 2))
    } else {
        Ok((get16(b, pos), pos + 2))
    }
}

/// Reads a big-endian `u32` at `pos`.
pub open spec fn sp_u32(b: Seq<u8>, pos: int) -> Result<(u32, int), ConnectionMessageParseError> {
    if b.len() - pos < 4 {
        Err(short(b, pos, 4))
    } else {
        Ok((get32(b, pos), pos + 4))
    }
}

/// Reads `n` raw bytes at `pos`.
pub open spec fn sp_raw(b: Seq<u8>, pos: int, n: int) -> Result<(Seq<u8>, int), ConnectionMessageParseError> {
    if b.len() - pos < n {
        Err(short(b, pos, n))
    } else {
        Ok((b.subrange(pos, pos + n), pos + n))
    }
}

/// Reads a length-prefixed UTF-8 string at `pos`.
pub open spec fn sp_string(b: Seq<u8>, pos: int) -> Result<(Seq<char>, int), ConnectionMessageParseError> {
    match sp_u16(b, pos) {
        Err(e) => Err(e),
        Ok((len, p)) => match sp_raw(b, p, len as int) {
            Err(e) => Err(e),
            Ok((raw, q)) => if valid_utf8(raw) {
                Ok((decode_utf8(raw), q))
            } else {
                Err(ConnectionMessageParseError::StringDecodeError)
            },
        },
    }
}

/// Reads `n` header entries at `pos`, inserting each into `acc`.
pub open spec fn sp_entries(b: Seq<u8>, pos: int, n: nat, acc: Seq<(Seq<char>, Seq<u8>)>) -> Result<
    (Seq<(Seq<char>, Seq<u8>)>, int),
    ConnectionMessageParseError,
>
    decreases n,
{
    if n == 0 {
        Ok((acc, pos))
    } else {
        match sp_string(b, pos) {
            Err(e) => Err(e),
            Ok((k, p1)) => match sp_u16(b, p1) {
                Err(e) => Err(e),
                Ok((vlen, p2)) => match sp_raw(b, p2, vlen as int) {
                    Err(e) => Err(e),
                    Ok((v, p3)) => sp_entries(b, p3, (n - 1) as nat, spec_insert(acc, k, v)),
                },
            },
        }
    }
}

/// Reads a header map at `pos`.
pub open spec fn sp_headers(b: Seq<u8>, pos: int) -> Result<
    (Seq<(Seq<char>, Seq<u8>)>, int),
    ConnectionMessageParseError,
> {
    match sp_u16(b, pos) {
        Err(e) => Err(e),
        Ok((count, p)) => sp_entries(b, p, count as nat, Seq::empty()),
    }
}

/// Reads `n` compression-type codes at `pos`, appending each to `acc`.
pub open spec fn sp_compressions(b: Seq<u8>, pos: int, n: nat, acc: Seq<CompressionType>) -> Result<
    (Seq<CompressionType>, int),
    ConnectionMessageParseError,
>
    decreases n,
{
    if n == 0 {
        Ok((acc, pos))
    } else {
        match sp_u8(b, pos) {
            Err(e) => Err(e),
            Ok((code, p)) => match spec_compression_from_code(code) {
                None => Err(ConnectionMessageParseError::InvalidMessageFormat),
                Some(c) => sp_compressions(b, p, (n - 1) as nat, acc.push(c)),
            },
        }
    }
}

/// The body of a client hello, read at `pos`.
pub open spec fn sp_client_hello(b: Seq<u8>, pos: int) -> Result<MessageView, ConnectionMessageParseError> {
    match sp_u16(b, pos) {
        Err(e) => Err(e),
        Ok((version, p1)) => match sp_string(b, p1) {
            Err(e) => Err(e),
            Ok((host, p2)) => match sp_headers(b, p2) {
                Err(e) => Err(e),
                Ok((headers, p3)) => match sp_u8(b, p3) {
                    Err(e) => Err(e),
                    Ok((count, p4)) => match sp_compressions(b, p4, count as nat, Seq::empty()) {
                        Err(e) => Err(e),
                        Ok((compression_types, p5)) => match sp_u32(b, p5) {
                            Err(e) => Err(e),
                            Ok((keepalive_min_ms, p6)) => match sp_u32(b, p6) {
                                Err(e) => Err(e),
                                Ok((keepalive_max_ms, _)) => Ok(
                                    MessageView::ClientHello {
                                        version,
                                        host,
                                        headers,
                                        compression_types,
                                        keepalive_min_ms,
                                        keepalive_max_ms,
                                    },
                                ),
                            },
                        },
                    },
                },
            },
        },
    }
}

/// The body of a server hello, read at `pos`.
pub open spec fn sp_server_hello(b: Seq<u8>, pos: int) -> Result<MessageView, ConnectionMessageParseError> {
    match sp_u16(b, pos) {
        Err(e) => Err(e),
        Ok((version, p1)) => match sp_headers(b, p1) {
            Err(e) => Err(e),
            Ok((headers, p2)) => match sp_u8(b, p2) {
                Err(e) => Err(e),
                Ok((code, p3)) => match spec_compression_from_code(code) {
                    None => Err(ConnectionMessageParseError::InvalidMessageFormat),
                    Some(compression_type) => match sp_u32(b, p3) {
                        Err(e) => Err(e),
                        Ok((keepalive_interval_ms, _)) => Ok(
                            MessageView::ServerHello {
                                version,
                                headers,
                                compression_type,
                                keepalive_interval_ms,
                            },
                        ),
                    },
                },
            },
        },
    }
}

/// The body of an error message, read at `pos`; any non-zero flag byte means `close`.
pub open spec fn sp_error(b: Seq<u8>, pos: int) -> Result<MessageView, ConnectionMessageParseError> {
    match sp_u16(b, pos) {
        Err(e) => Err(e),
        Ok((code, p1)) => match sp_string(b, p1) {
            Err(e) => Err(e),
            Ok((message, p2)) => match sp_u8(b, p2) {
                Err(e) => Err(e),
                Ok((flag, _)) => Ok(MessageView::Error { code, message, close: flag != 0 }),
            },
        },
    }
}

/// The message that `b` holds. Bytes after the message's last field are ignored.
pub open spec fn spec_parse_message(b: Seq<u8>) -> Result<MessageView, ConnectionMessageParseError> {
    match sp_u8(b, 0) {
        Err(e) => Err(e),
        Ok((tag, p)) => match spec_message_type_from_code(tag) {
            None => Err(ConnectionMessageParseError::InvalidMessageType(tag)),
            Some(ConnectionMessageType::ClientHello) => sp_client_hello(b, p),
            Some(ConnectionMessageType::ServerHello) => sp_server_hello(b, p),
            Some(ConnectionMessageType::Keepalive) => Ok(MessageView::Keepalive),
            Some(ConnectionMessageType::KeepaliveAck) => Ok(MessageView::KeepaliveAck),
            Some(ConnectionMessageType::Error) => sp_error(b, p),
            Some(ConnectionMessageType::Close) => Ok(MessageView::Close),
        },
    }
}

/// A string on the wire: its UTF-8 byte length (kept to 16 bits) and its UTF-8 bytes.
pub open spec fn str_bytes(s: Seq<char>) -> Seq<u8> {
    be16(encode_utf8(s).len() as u16) + encode_utf8(s)
}

/// One header entry on the wire.
pub open spec fn entry_bytes(e: (Seq<char>, Seq<u8>)) -> Seq<u8> {
    str_bytes(e.0) + be16(e.1.len() as u16) + e.1
}

/// Header entries on the wire, in order.
pub open spec fn entries_bytes(h: Seq<(Seq<char>, Seq<u8>)>) -> Seq<u8>
    decreases h.len(),
{
    if h.len() == 0 {
        Seq::empty()
    } else {
        entries_bytes(h.drop_last()) + entry_bytes(h.last())
    }
}

/// A header map on the wire: the entry count (kept to 16 bits), then the entries.
pub open spec fn headers_bytes(h: Seq<(Seq<char>, Seq<u8>)>) -> Seq<u8> {
    be16(h.len() as u16) + entries_bytes(h)
}

/// The wire codes of a list of compression types.
pub open spec fn codes(cs: Seq<CompressionType>) -> Seq<u8> {
    cs.map_values(|c: CompressionType| spec_compression_code(c))
}

/// A message is exactly as long as its fields: the type byte, then each field's
/// encoding and nothing after the last one. A string takes two length bytes and its
/// UTF-8 bytes; a header map two count bytes and, per entry, its key as a string, two
/// length bytes and its value.
pub proof fn lemma_message_length(m: MessageView)
    ensures
        m matches MessageView::ClientHello { host, headers, compression_types, .. } ==> spec_serialize_message(
            m,
        ).len() == 1 + 2 + (2 + encode_utf8(host).len()) + headers_len(headers) + 1
            + compression_types.len() + 4 + 4,
        m matches MessageView::ServerHello { headers, .. } ==> spec_serialize_message(m).len() == 1
            + 2 + headers_len(headers) + 1 + 4,
        m matches MessageView::Error { message, .. } ==> spec_serialize_message(m).len() == 1 + 2 + (2
            + encode_utf8(message).len()) + 1,
        m is Keepalive || m is KeepaliveAck || m is Close ==> spec_serialize_message(m).len() == 1,
{
    match m {
        MessageView::ClientHello { headers, compression_types, .. } => {
            lemma_headers_len(headers);
            assert(codes(compression_types).len() == compression_types.len());
        },
        MessageView::ServerHello { headers, .. } => {
            lemma_headers_len(headers);
        },
        _ => {},
    }
}

/// The length of a header map on the wire, entry by entry.
pub open spec fn headers_len(h: Seq<(Seq<char>, Seq<u8>)>) -> int
    decreases h.len(),
{
    if h.len() == 0 {
        2
    } else {
        headers_len(h.drop_last()) + (2 + encode_utf8(h.last().0).len()) + 2 + h.last().1.len()
    }
}

proof fn lemma_headers_len(h: Seq<(Seq<char>, Seq<u8>)>)
    ensures
        headers_bytes(h).len() == headers_len(h),
    decreases h.len(),
{
    if h.len() > 0 {
        lemma_headers_len(h.drop_last());
    }
}

/// The bytes of a control message.
pub open spec fn spec_serialize_message(m: MessageView) -> Seq<u8> {
    match m {
        MessageView::ClientHello {
            version,
            host,
            headers,
            compression_types,
            keepalive_min_ms,
            keepalive_max_ms,
        } => seq![spec_message_type_code(ConnectionMessageType::ClientHello)] + be16(version)
            + str_bytes(host) + headers_bytes(headers) + seq![compression_types.len() as u8] + codes(
            compression_types,
        ) + be32(keepalive_min_ms) + be32(keepalive_max_ms),
        MessageView::ServerHello { version, headers, compression_type, keepalive_interval_ms } =>
            seq![spec_message_type_code(ConnectionMessageType::ServerHello)] + be16(version)
            + headers_bytes(headers) + seq![spec_compression_code(compression_type)] + be32(
            keepalive_interval_ms,
        ),
        MessageView::Keepalive => seq![spec_message_type_code(ConnectionMessageType::Keepalive)],
        MessageView::KeepaliveAck => seq![
            spec_message_type_code(ConnectionMessageType::KeepaliveAck),
        ],
        MessageView::Error { code, message, close } => seq![
            spec_message_type_code(ConnectionMessageType::Error),
        ] + be16(code) + str_bytes(message) + seq![if close { 1u8 } else { 0u8 }],
        MessageView::Close => seq![spec_message_type_code(ConnectionMessageType::Close)],
    }
}

/// Calls `String::from_utf8` (std). Trusted, after its documentation: it succeeds
/// exactly when `bytes` is valid UTF-8 (vstd's `valid_utf8`), and the string it
/// returns has `bytes` as its UTF-8 encoding.
#[verifier::external_body]
fn string_from_utf8(bytes: Vec<u8>) -> (res: Option<String>)
    ensures
        res is Some <==> valid_utf8(bytes@),
        res matches Some(s) ==> encode_utf8(s@) == bytes@,
{
    String::from_utf8(bytes).ok()
}

fn try_get_u8(b: &[u8], pos: usize) -> (res: Result<(u8, usize), ConnectionMessageParseError>)
    requires
        pos <= b@.len(),
    ensures
        match res {
            Ok((v, p)) => sp_u8(b@, pos as int) == Ok::<(u8, int), ConnectionMessageParseError>(
                (v, p as int),
            ) && p <= b@.len(),
            Err(e) => sp_u8(b@, pos as int) == Err::<(u8, int), ConnectionMessageParseError>(e),
        },
{
    if b.len() - pos < 1 {
        return Err(
            ConnectionMessageParseError::UnexpectedEndOfMessage(
                TryGetError { requested: 1, available: b.len() - pos },
            ),
        );
    }
    Ok((b[pos], pos + 1))
}

fn try_get_u16(b: &[u8], pos: usize) -> (res: Result<(u16, usize), ConnectionMessageParseError>)
    requires
        pos <= b@.len(),
    ensures
        match res {
            Ok((v, p)) => sp_u16(b@, pos as int) == Ok::<(u16, int), ConnectionMessageParseError>(
                (v, p as int),
            ) && p <= b@.len(),
            Err(e) => sp_u16(b@, pos as int) == Err::<(u16, int), ConnectionMessageParseError>(e),
        },
{
    if b.len() - pos < 2 {
        return Err(
            ConnectionMessageParseError::UnexpectedEndOfMessage(
                TryGetError { requested: 2, available: b.len() - pos },
            ),
        );
    }
    Ok((read_u16(b, pos), pos + 2))
}

fn try_get_u32(b: &[u8], pos: usize) -> (res: Result<(u32, usize), ConnectionMessageParseError>)
    requires
        pos <= b@.len(),
    ensures
        match res {
            Ok((v, p)) => sp_u32(b@, pos as int) == Ok::<(u32, int), ConnectionMessageParseError>(
                (v, p as int),
            ) && p <= b@.len(),
            Err(e) => sp_u32(b@, pos as int) == Err::<(u32, int), ConnectionMessageParseError>(e),
        },
{
    if b.len() - pos < 4 {
        return Err(
            ConnectionMessageParseError::UnexpectedEndOfMessage(
                TryGetError { requested: 4, available: b.len() - pos },
            ),
        );
    }
    Ok((read_u32(b, pos), pos + 4))
}

fn try_get_raw(b: &[u8], pos: usize, n: usize) -> (res: Result<(Vec<u8>, usize), ConnectionMessageParseError>)
    requires
        pos <= b@.len(),
    ensures
        match res {
            Ok((v, p)) => sp_raw(b@, pos as int, n as int) == Ok::<
                (Seq<u8>, int),
                ConnectionMessageParseError,
            >((v@, p as int)) && p <= b@.len(),
            Err(e) => sp_raw(b@, pos as int, n as int) == Err::<
                (Seq<u8>, int),
                ConnectionMessageParseError,
            >(e),
        },
{
    if b.len() - pos < n {
        return Err(
            ConnectionMessageParseError::UnexpectedEndOfMessage(
                TryGetError { requested: n, available: b.len() - pos },
            ),
        );
    }
    let mut out: Vec<u8> = Vec::new();
    let end = pos + n;
    let mut i: usize = pos;
    while i < end
        invariant
            end == pos + n,
            pos <= i <= end <= b@.len(),
            out@ == b@.subrange(pos as int, i as int),
        decreases end - i,
    {
        out.push(b[i]);
        i = i + 1;
        assert(out@ =~= b@.subrange(pos as int, i as int));
    }
    Ok((out, end))
}

fn try_get_string(b: &[u8], pos: usize) -> (res: Result<(String, usize), ConnectionMessageParseError>)
    requires
        pos <= b@.len(),
    ensures
        match res {
            Ok((s, p)) => sp_string(b@, pos as int) == Ok::<
                (Seq<char>, int),
                ConnectionMessageParseError,
            >((s@, p as int)) && p <= b@.len(),
            Err(e) => sp_string(b@, pos as int) == Err::<
                (Seq<char>, int),
                ConnectionMessageParseError,
            >(e),
        },
{
    let (len, p) = try_get_u16(b, pos)?;
    let (raw, q) = try_get_raw(b, p, len as usize)?;
    let ghost raw_view = raw@;
    match string_from_utf8(raw) {
        Some(s) => {
            proof {
                vstd::utf8::encode_utf8_decode_utf8(s@);
            }
            Ok((s, q))
        },
        None => Err(ConnectionMessageParseError::StringDecodeError),
    }
}

fn try_get_headers(b: &[u8], pos: usize) -> (res: Result<(Headers, usize), ConnectionMessageParseError>)
    requires
        pos <= b@.len(),
    ensures
        match res {
            Ok((h, p)) => sp_headers(b@, pos as int) == Ok::<
                (Seq<(Seq<char>, Seq<u8>)>, int),
                ConnectionMessageParseError,
            >((h@, p as int)) && p <= b@.len(),
            Err(e) => sp_headers(b@, pos as int) == Err::<
                (Seq<(Seq<char>, Seq<u8>)>, int),
                ConnectionMessageParseError,
            >(e),
        },
{
    let (count, p0) = try_get_u16(b, pos)?;
    let mut map = Headers::new();
    let mut cur = p0;
    let mut i: u16 = 0;
    while i < count
        invariant
            cur <= b@.len(),
            0 <= i <= count,
            sp_headers(b@, pos as int) == sp_entries(b@, cur as int, (count - i) as nat, map@),
        decreases count - i,
    {
        let (key, p1) = try_get_string(b, cur)?;
        let (val_len, p2) = try_get_u16(b, p1)?;
        let (val, p3) = try_get_raw(b, p2, val_len as usize)?;
        map.insert(key, val);
        cur = p3;
        i = i + 1;
    }
    Ok((map, cur))
}

fn try_get_compressions(b: &[u8], pos: usize, count: u8) -> (res: Result<
    (Vec<CompressionType>, usize),
    ConnectionMessageParseError,
>)
    requires
        pos <= b@.len(),
    ensures
        match res {
            Ok((cs, p)) => sp_compressions(b@, pos as int, count as nat, Seq::empty()) == Ok::<
                (Seq<CompressionType>, int),
                ConnectionMessageParseError,
            >((cs@, p as int)) && p <= b@.len(),
            Err(e) => sp_compressions(b@, pos as int, count as nat, Seq::empty()) == Err::<
                (Seq<CompressionType>, int),
                ConnectionMessageParseError,
            >(e),
        },
{
    let mut out: Vec<CompressionType> = Vec::with_capacity(count as usize);
    let mut cur = pos;
    let mut i: u8 = 0;
    while i < count
        invariant
            cur <= b@.len(),
            0 <= i <= count,
            sp_compressions(b@, pos as int, count as nat, Seq::empty()) == sp_compressions(
                b@,
                cur as int,
                (count - i) as nat,
                out@,
            ),
        decreases count - i,
    {
        let (code, p) = try_get_u8(b, cur)?;
        match CompressionType::from_u8(code) {
            Some(ct) => out.push(ct),
            None => {
                return Err(ConnectionMessageParseError::InvalidMessageFormat);
            },
        }
        cur = p;
        i = i + 1;
    }
    Ok((out, cur))
}

/// Views a parse result as the spec parser's result.
pub open spec fn result_view(r: Result<ConnectionMessage, ConnectionMessageParseError>) -> Result<
    MessageView,
    ConnectionMessageParseError,
> {
    match r {
        Ok(m) => Ok(m@),
        Err(e) => Err(e),
    }
}

/// Parses one control message from `bytes`.
pub fn parse_connection_message(bytes: Vec<u8>) -> (res: Result<
    ConnectionMessage,
    ConnectionMessageParseError,
>)
    ensures
        result_view(res) == spec_parse_message(bytes@),
{
    let b = bytes.as_slice();
    let (message_type, p) = try_get_u8(b, 0)?;
    let t = match ConnectionMessageType::from_u8(message_type) {
        Some(t) => t,
        None => {
            return Err(ConnectionMessageParseError::InvalidMessageType(message_type));
        },
    };
    match t {
        ConnectionMessageType::ClientHello => {
            let (version, p1) = try_get_u16(b, p)?;
            let (host, p2) = try_get_string(b, p1)?;
            let (headers, p3) = try_get_headers(b, p2)?;
            let (compressions_count, p4) = try_get_u8(b, p3)?;
            let (available_compression_types, p5) = try_get_compressions(
                b,
                p4,
                compressions_count,
            )?;
            let (keepalive_min_ms, p6) = try_get_u32(b, p5)?;
            let (keepalive_max_ms, _) = try_get_u32(b, p6)?;
            Ok(
                ConnectionMessage::ClientHello(
                    ClientHello {
                        version,
                        host,
                        headers,
                        available_compression_types,
                        keepalive_min_ms,
                        keepalive_max_ms,
                    },
                ),
            )
        },
        ConnectionMessageType::ServerHello => {
            let (version, p1) = try_get_u16(b, p)?;
            let (headers, p2) = try_get_headers(b, p1)?;
            let (ct, p3) = try_get_u8(b, p2)?;
            let compression_type = match CompressionType::from_u8(ct) {
                Some(c) => c,
                None => {
                    return Err(ConnectionMessageParseError::InvalidMessageFormat);
                },
            };
            let (keepalive_interval_ms, _) = try_get_u32(b, p3)?;
            Ok(
                ConnectionMessage::ServerHello(
                    ServerHello { version, headers, compression_type, keepalive_interval_ms },
                ),
            )
        },
        ConnectionMessageType::Keepalive => Ok(ConnectionMessage::Keepalive),
        ConnectionMessageType::KeepaliveAck => Ok(ConnectionMessage::KeepaliveAck),
        ConnectionMessageType::Error => {
            let (code, p1) = try_get_u16(b, p)?;
            let (message, p2) = try_get_string(b, p1)?;
            let (flag, _) = try_get_u8(b, p2)?;
            Ok(ConnectionMessage::Error(ConnectionErrorMsg { code, message, close: flag != 0 }))
        },
        ConnectionMessageType::Close => Ok(ConnectionMessage::Close),
    }
}

fn put_string(buf: &mut Vec<u8>, s: &str)
    ensures
        final(buf)@ == old(buf)@ + str_bytes(s@),
{
    let bytes = s.as_bytes();
    put_u16(buf, bytes.len() as u16);
    put_slice(buf, bytes);
    assert(final(buf)@ =~= old(buf)@ + str_bytes(s@));
}

fn put_headers(buf: &mut Vec<u8>, headers: &Headers)
    ensures
        final(buf)@ == old(buf)@ + headers_bytes(headers@),
{
    let entries = headers.entries();
    let ghost h = headers@;
    let n = entries.len();
    put_u16(buf, n as u16);
    let ghost start = buf@;
    let mut i: usize = 0;
    while i < n
        invariant
            n == entries@.len(),
            0 <= i <= n,
            h == entries@.map_values(|e: (String, Vec<u8>)| crate::connection::message::entry_view(e)),
            buf@ == start + entries_bytes(h.take(i as int)),
        decreases n - i,
    {
        let (k, v) = &entries[i];
        assert(h[i as int] == (k@, v@));
        let ghost before = buf@;
        put_string(buf, k.as_str());
        put_u16(buf, v.len() as u16);
        put_slice(buf, v.as_slice());
        assert(h.take(i + 1).drop_last() =~= h.take(i as int));
        assert(h.take(i + 1).last() == h[i as int]);
        assert(buf@ =~= before + entry_bytes(h[i as int]));
        assert(buf@ =~= start + entries_bytes(h.take(i + 1)));
        i = i + 1;
    }
    assert(h.take(n as int) =~= h);
    assert(final(buf)@ =~= old(buf)@ + headers_bytes(headers@));
}

fn put_compressions(buf: &mut Vec<u8>, cs: &Vec<CompressionType>)
    ensures
        final(buf)@ == old(buf)@ + codes(cs@),
{
    let ghost start = buf@;
    let n = cs.len();
    let mut i: usize = 0;
    while i < n
        invariant
            n == cs@.len(),
            0 <= i <= n,
            buf@ == start + codes(cs@).take(i as int),
        decreases n - i,
    {
        let ct = cs[i];
        buf.push(ct.to_u8());
        assert(codes(cs@).take(i + 1) =~= codes(cs@).take(i as int).push(codes(cs@)[i as int]));
        assert(buf@ =~= start + codes(cs@).take(i + 1));
        i = i + 1;
    }
    assert(codes(cs@).take(n as int) =~= codes(cs@));
}

/// Writes the wire form of `message`.
pub fn serialize_connection_message(message: &ConnectionMessage) -> (out: Vec<u8>)
    ensures
        out@ == spec_serialize_message(message@),
{
    let mut buf: Vec<u8> = Vec::new();
    match message {
        ConnectionMessage::ClientHello(hello) => {
            buf.push(ConnectionMessageType::ClientHello.to_u8());
            put_u16(&mut buf, hello.version);
            put_string(&mut buf, hello.host.as_str());
            put_headers(&mut buf, &hello.headers);
            buf.push(hello.available_compression_types.len() as u8);
            put_compressions(&mut buf, &hello.available_compression_types);
            put_u32(&mut buf, hello.keepalive_min_ms);
            put_u32(&mut buf, hello.keepalive_max_ms);
        },
        ConnectionMessage::ServerHello(hello) => {
            buf.push(ConnectionMessageType::ServerHello.to_u8());
            put_u16(&mut buf, hello.version);
            put_headers(&mut buf, &hello.headers);
            buf.push(hello.compression_type.to_u8());
            put_u32(&mut buf, hello.keepalive_interval_ms);
        },
        ConnectionMessage::Keepalive => buf.push(ConnectionMessageType::Keepalive.to_u8()),
        ConnectionMessage::KeepaliveAck => buf.push(ConnectionMessageType::KeepaliveAck.to_u8()),
        ConnectionMessage::Error(err) => {
            buf.push(ConnectionMessageType::Error.to_u8());
            put_u16(&mut buf, err.code);
            put_string(&mut buf, err.message.as_str());
            buf.push(if err.close { 1u8 } else { 0u8 });
        },
        ConnectionMessage::Close => buf.push(ConnectionMessageType::Close.to_u8()),
    }
    assert(buf@ =~= spec_serialize_message(message@));
    buf
}

/// `b` holds the bytes `x` at `pos`.
pub open spec fn holds_at(b: Seq<u8>, pos: int, x: Seq<u8>) -> bool {
    0 <= pos && pos + x.len() <= b.len() && b.subrange(pos, pos + x.len()) == x
}

proof fn lemma_holds_split(b: Seq<u8>, pos: int, x: Seq<u8>, y: Seq<u8>)
    requires
        holds_at(b, pos, x + y),
    ensures
        holds_at(b, pos, x),
        holds_at(b, pos + x.len(), y),
{
    let whole = b.subrange(pos, pos + x.len() + y.len());
    assert(b.subrange(pos, pos + x.len()) =~= whole.subrange(0, x.len() as int));
    assert(whole.subrange(0, x.len() as int) =~= x);
    assert(b.subrange(pos + x.len(), pos + x.len() + y.len()) =~= whole.subrange(
        x.len() as int,
        (x.len() + y.len()) as int,
    ));
    assert(whole.subrange(x.len() as int, (x.len() + y.len()) as int) =~= y);
}

proof fn lemma_u8_at(b: Seq<u8>, pos: int, v: u8)
    requires
        holds_at(b, pos, seq![v]),
    ensures
        sp_u8(b, pos) == Ok::<(u8, int), ConnectionMessageParseError>((v, pos + 1)),
{
    assert(b[pos] == b.subrange(pos, pos + 1)[0]);
}

proof fn lemma_u16_at(b: Seq<u8>, pos: int, v: u16)
    requires
        holds_at(b, pos, be16(v)),
    ensures
        sp_u16(b, pos) == Ok::<(u16, int), ConnectionMessageParseError>((v, pos + 2)),
{
    assert(b[pos] == b.subrange(pos, pos + 2)[0]);
    assert(b[pos + 1] == b.subrange(pos, pos + 2)[1]);
    lemma_be16_roundtrip(v);
}

proof fn lemma_u32_at(b: Seq<u8>, pos: int, v: u32)
    requires
        holds_at(b, pos, be32(v)),
    ensures
        sp_u32(b, pos) == Ok::<(u32, int), ConnectionMessageParseError>((v, pos + 4)),
{
    let w = b.subrange(pos, pos + 4);
    assert(b[pos] == w[0] && b[pos + 1] == w[1] && b[pos + 2] == w[2] && b[pos + 3] == w[3]);
    lemma_be32_roundtrip(v);
}

proof fn lemma_raw_at(b: Seq<u8>, pos: int, x: Seq<u8>)
    requires
        holds_at(b, pos, x),
    ensures
        sp_raw(b, pos, x.len() as int) == Ok::<(Seq<u8>, int), ConnectionMessageParseError>(
            (x, pos + x.len()),
        ),
{
}

proof fn lemma_string_at(b: Seq<u8>, pos: int, s: Seq<char>)
    requires
        holds_at(b, pos, str_bytes(s)),
        encode_utf8(s).len() <= 0xffff,
    ensures
        sp_string(b, pos) == Ok::<(Seq<char>, int), ConnectionMessageParseError>(
            (s, pos + str_bytes(s).len()),
        ),
{
    let e = encode_utf8(s);
    lemma_holds_split(b, pos, be16(e.len() as u16), e);
    lemma_u16_at(b, pos, e.len() as u16);
    lemma_raw_at(b, pos + 2, e);
    vstd::utf8::encode_utf8_valid_utf8(s);
    vstd::utf8::encode_utf8_decode_utf8(s);
}

proof fn lemma_entries_front(h: Seq<(Seq<char>, Seq<u8>)>)
    requires
        h.len() > 0,
    ensures
        entries_bytes(h) == entry_bytes(h[0]) + entries_bytes(h.drop_first()),
    decreases h.len(),
{
    if h.len() == 1 {
        assert(h.drop_first() =~= Seq::<(Seq<char>, Seq<u8>)>::empty());
        assert(h.drop_last() =~= Seq::<(Seq<char>, Seq<u8>)>::empty());
        assert(entries_bytes(h) =~= entry_bytes(h[0]) + entries_bytes(h.drop_first()));
    } else {
        lemma_entries_front(h.drop_last());
        assert(h.drop_last().drop_first() =~= h.drop_first().drop_last());
        assert(h.drop_first().last() == h.last());
        assert(entries_bytes(h) =~= entry_bytes(h[0]) + entries_bytes(h.drop_first()));
    }
}

/// Every key and value fits its 16-bit length field, and so does the number of entries.
pub open spec fn headers_sized(h: Seq<(Seq<char>, Seq<u8>)>) -> bool {
    &&& h.len() <= 0xffff
    &&& forall|i: int|
        0 <= i < h.len() ==> encode_utf8(#[trigger] h[i].0).len() <= 0xffff && h[i].1.len()
            <= 0xffff
}

proof fn lemma_entries_at(
    b: Seq<u8>,
    pos: int,
    h: Seq<(Seq<char>, Seq<u8>)>,
    acc: Seq<(Seq<char>, Seq<u8>)>,
)
    requires
        holds_at(b, pos, entries_bytes(h)),
        forall|i: int|
            0 <= i < h.len() ==> encode_utf8(#[trigger] h[i].0).len() <= 0xffff && h[i].1.len()
                <= 0xffff,
        distinct_keys(acc + h),
    ensures
        sp_entries(b, pos, h.len(), acc) == Ok::<
            (Seq<(Seq<char>, Seq<u8>)>, int),
            ConnectionMessageParseError,
        >((acc + h, pos + entries_bytes(h).len())),
    decreases h.len(),
{
    if h.len() == 0 {
        assert(acc + h =~= acc);
    } else {
        let e = h[0];
        let rest = h.drop_first();
        lemma_entries_front(h);
        lemma_holds_split(b, pos, entry_bytes(e), entries_bytes(rest));
        lemma_holds_split(b, pos, str_bytes(e.0) + be16(e.1.len() as u16), e.1);
        lemma_holds_split(b, pos, str_bytes(e.0), be16(e.1.len() as u16));
        assert(encode_utf8(h[0].0).len() <= 0xffff);
        lemma_string_at(b, pos, e.0);
        let p1 = pos + str_bytes(e.0).len();
        lemma_u16_at(b, p1, e.1.len() as u16);
        lemma_raw_at(b, p1 + 2, e.1);
        let ah = acc + h;
        assert(key_position(acc, e.0) is None) by {
            if exists|i: int| 0 <= i < acc.len() && acc[i].0 == e.0 {
                let i = choose|i: int| 0 <= i < acc.len() && acc[i].0 == e.0;
                assert(ah[i] == acc[i]);
                assert(ah[acc.len() as int] == e);
            }
        }
        assert(e == (e.0, e.1));
        let acc2 = acc.push(e);
        assert(acc2 + rest =~= acc + h);
        lemma_entries_at(b, p1 + 2 + e.1.len(), rest, acc2);
    }
}

proof fn lemma_compressions_at(b: Seq<u8>, pos: int, cs: Seq<CompressionType>, acc: Seq<CompressionType>)
    requires
        holds_at(b, pos, codes(cs)),
    ensures
        sp_compressions(b, pos, cs.len(), acc) == Ok::<
            (Seq<CompressionType>, int),
            ConnectionMessageParseError,
        >((acc + cs, pos + cs.len())),
    decreases cs.len(),
{
    if cs.len() == 0 {
        assert(acc + cs =~= acc);
    } else {
        let rest = cs.drop_first();
        assert(codes(cs) =~= seq![spec_compression_code(cs[0])] + codes(rest));
        lemma_holds_split(b, pos, seq![spec_compression_code(cs[0])], codes(rest));
        lemma_u8_at(b, pos, spec_compression_code(cs[0]));
        crate::compression::lemma_compression_code_roundtrip(cs[0], 0);
        assert(acc.push(cs[0]) + rest =~= acc + cs);
        lemma_compressions_at(b, pos + 1, rest, acc.push(cs[0]));
    }
}

/// Every length field of `m` can hold the length it counts, and no header key
/// occurs twice.
pub open spec fn message_well_sized(m: MessageView) -> bool {
    match m {
        MessageView::ClientHello { host, headers, compression_types, .. } => {
            &&& encode_utf8(host).len() <= 0xffff
            &&& headers_sized(headers)
            &&& distinct_keys(headers)
            &&& compression_types.len() <= 0xff
        },
        MessageView::ServerHello { headers, .. } => headers_sized(headers) && distinct_keys(headers),
        MessageView::Error { message, .. } => encode_utf8(message).len() <= 0xffff,
        _ => true,
    }
}

proof fn lemma_headers_at(b: Seq<u8>, pos: int, h: Seq<(Seq<char>, Seq<u8>)>)
    requires
        holds_at(b, pos, headers_bytes(h)),
        headers_sized(h),
        distinct_keys(h),
    ensures
        sp_headers(b, pos) == Ok::<(Seq<(Seq<char>, Seq<u8>)>, int), ConnectionMessageParseError>(
            (h, pos + headers_bytes(h).len()),
        ),
{
    lemma_holds_split(b, pos, be16(h.len() as u16), entries_bytes(h));
    lemma_u16_at(b, pos, h.len() as u16);
    let e = Seq::<(Seq<char>, Seq<u8>)>::empty();
    assert(e + h =~= h);
    lemma_entries_at(b, pos + 2, h, e);
}

proof fn lemma_client_hello_prefix(
    b: Seq<u8>,
    version: u16,
    host: Seq<char>,
    headers: Seq<(Seq<char>, Seq<u8>)>,
)
    requires
        holds_at(b, 1, be16(version) + str_bytes(host) + headers_bytes(headers)),
        encode_utf8(host).len() <= 0xffff,
        headers_sized(headers),
        distinct_keys(headers),
    ensures
        sp_u16(b, 1) == Ok::<(u16, int), ConnectionMessageParseError>((version, 3)),
        sp_string(b, 3) == Ok::<(Seq<char>, int), ConnectionMessageParseError>(
            (host, 3 + str_bytes(host).len() as int),
        ),
        sp_headers(b, 3 + str_bytes(host).len() as int) == Ok::<
            (Seq<(Seq<char>, Seq<u8>)>, int),
            ConnectionMessageParseError,
        >((headers, 3 + str_bytes(host).len() as int + headers_bytes(headers).len() as int)),
{
    let x1 = be16(version);
    let x2 = str_bytes(host);
    let x3 = headers_bytes(headers);
    lemma_holds_split(b, 1, x1 + x2, x3);
    lemma_holds_split(b, 1, x1, x2);
    lemma_u16_at(b, 1, version);
    lemma_string_at(b, 3, host);
    lemma_headers_at(b, 3 + x2.len() as int, headers);
}

proof fn lemma_client_hello_suffix(
    b: Seq<u8>,
    pos: int,
    compression_types: Seq<CompressionType>,
    keepalive_min_ms: u32,
    keepalive_max_ms: u32,
)
    requires
        holds_at(
            b,
            pos,
            seq![compression_types.len() as u8] + codes(compression_types) + be32(keepalive_min_ms)
                + be32(keepalive_max_ms),
        ),
        compression_types.len() <= 0xff,
    ensures
        sp_u8(b, pos) == Ok::<(u8, int), ConnectionMessageParseError>(
            (compression_types.len() as u8, pos + 1),
        ),
        sp_compressions(b, pos + 1, compression_types.len() as u8 as nat, Seq::empty()) == Ok::<
            (Seq<CompressionType>, int),
            ConnectionMessageParseError,
        >((compression_types, pos + 1 + compression_types.len())),
        sp_u32(b, pos + 1 + compression_types.len()) == Ok::<(u32, int), ConnectionMessageParseError>(
            (keepalive_min_ms, pos + 1 + compression_types.len() + 4),
        ),
        sp_u32(b, pos + 1 + compression_types.len() + 4) == Ok::<
            (u32, int),
            ConnectionMessageParseError,
        >((keepalive_max_ms, pos + 1 + compression_types.len() + 8)),
{
    let x4 = seq![compression_types.len() as u8];
    let x5 = codes(compression_types);
    let x6 = be32(keepalive_min_ms);
    let x7 = be32(keepalive_max_ms);
    lemma_holds_split(b, pos, x4 + x5 + x6, x7);
    lemma_holds_split(b, pos, x4 + x5, x6);
    lemma_holds_split(b, pos, x4, x5);
    lemma_u8_at(b, pos, compression_types.len() as u8);
    lemma_compressions_at(b, pos + 1, compression_types, Seq::empty());
    assert(Seq::<CompressionType>::empty() + compression_types =~= compression_types);
    lemma_u32_at(b, pos + 1 + compression_types.len(), keepalive_min_ms);
    lemma_u32_at(b, pos + 1 + compression_types.len() + 4, keepalive_max_ms);
}

proof fn lemma_client_hello_body(
    b: Seq<u8>,
    version: u16,
    host: Seq<char>,
    headers: Seq<(Seq<char>, Seq<u8>)>,
    compression_types: Seq<CompressionType>,
    keepalive_min_ms: u32,
    keepalive_max_ms: u32,
)
    requires
        holds_at(
            b,
            1,
            (be16(version) + str_bytes(host) + headers_bytes(headers)) + (seq![
                compression_types.len() as u8,
            ] + codes(compression_types) + be32(keepalive_min_ms) + be32(keepalive_max_ms)),
        ),
        encode_utf8(host).len() <= 0xffff,
        headers_sized(headers),
        distinct_keys(headers),
        compression_types.len() <= 0xff,
    ensures
        sp_client_hello(b, 1) == Ok::<MessageView, ConnectionMessageParseError>(
            MessageView::ClientHello {
                version,
                host,
                headers,
                compression_types,
                keepalive_min_ms,
                keepalive_max_ms,
            },
        ),
{
    let front = be16(version) + str_bytes(host) + headers_bytes(headers);
    let back = seq![compression_types.len() as u8] + codes(compression_types) + be32(
        keepalive_min_ms,
    ) + be32(keepalive_max_ms);
    lemma_holds_split(b, 1, front, back);
    lemma_client_hello_prefix(b, version, host, headers);
    let p3: int = 3 + str_bytes(host).len() as int + headers_bytes(headers).len() as int;
    assert(p3 == 1 + front.len());
    lemma_client_hello_suffix(b, p3, compression_types, keepalive_min_ms, keepalive_max_ms);
}

proof fn lemma_client_hello_roundtrip(
    version: u16,
    host: Seq<char>,
    headers: Seq<(Seq<char>, Seq<u8>)>,
    compression_types: Seq<CompressionType>,
    keepalive_min_ms: u32,
    keepalive_max_ms: u32,
)
    requires
        message_well_sized(
            MessageView::ClientHello {
                version,
                host,
                headers,
                compression_types,
                keepalive_min_ms,
                keepalive_max_ms,
            },
        ),
    ensures
        ({
            let m = MessageView::ClientHello {
                version,
                host,
                headers,
                compression_types,
                keepalive_min_ms,
                keepalive_max_ms,
            };
            spec_parse_message(spec_serialize_message(m)) == Ok::<
                MessageView,
                ConnectionMessageParseError,
            >(m)
        }),
{
    let m = MessageView::ClientHello {
        version,
        host,
        headers,
        compression_types,
        keepalive_min_ms,
        keepalive_max_ms,
    };
    let b = spec_serialize_message(m);
    let t = seq![spec_message_type_code(ConnectionMessageType::ClientHello)];
    let front = be16(version) + str_bytes(host) + headers_bytes(headers);
    let back = seq![compression_types.len() as u8] + codes(compression_types) + be32(
        keepalive_min_ms,
    ) + be32(keepalive_max_ms);
    assert(b =~= t + (front + back));
    assert(holds_at(b, 0, t + (front + back))) by {
        assert(b.subrange(0, b.len() as int) =~= b);
    }
    lemma_holds_split(b, 0, t, front + back);
    lemma_u8_at(b, 0, 1u8);
    lemma_client_hello_body(
        b,
        version,
        host,
        headers,
        compression_types,
        keepalive_min_ms,
        keepalive_max_ms,
    );
}

#[verifier::rlimit(50)]
proof fn lemma_server_hello_roundtrip(
    version: u16,
    headers: Seq<(Seq<char>, Seq<u8>)>,
    compression_type: CompressionType,
    keepalive_interval_ms: u32,
)
    requires
        message_well_sized(
            MessageView::ServerHello { version, headers, compression_type, keepalive_interval_ms },
        ),
    ensures
        ({
            let m = MessageView::ServerHello {
                version,
                headers,
                compression_type,
                keepalive_interval_ms,
            };
            spec_parse_message(spec_serialize_message(m)) == Ok::<
                MessageView,
                ConnectionMessageParseError,
            >(m)
        }),
{
    let m = MessageView::ServerHello { version, headers, compression_type, keepalive_interval_ms };
    let b = spec_serialize_message(m);
    assert(holds_at(b, 0, b)) by {
        assert(b.subrange(0, b.len() as int) =~= b);
    }
    let t = seq![spec_message_type_code(ConnectionMessageType::ServerHello)];
    let x1 = be16(version);
    let x2 = headers_bytes(headers);
    let x3 = seq![spec_compression_code(compression_type)];
    let x4 = be32(keepalive_interval_ms);
    lemma_holds_split(b, 0, t + x1 + x2 + x3, x4);
    lemma_holds_split(b, 0, t + x1 + x2, x3);
    lemma_holds_split(b, 0, t + x1, x2);
    lemma_holds_split(b, 0, t, x1);
    lemma_u8_at(b, 0, spec_message_type_code(ConnectionMessageType::ServerHello));
    lemma_u16_at(b, 1, version);
    lemma_headers_at(b, 3, headers);
    let p2: int = 3 + x2.len() as int;
    lemma_u8_at(b, p2, spec_compression_code(compression_type));
    crate::compression::lemma_compression_code_roundtrip(compression_type, 0);
    lemma_u32_at(b, p2 + 1, keepalive_interval_ms);
}

#[verifier::rlimit(50)]
proof fn lemma_error_roundtrip(code: u16, message: Seq<char>, close: bool)
    requires
        message_well_sized(MessageView::Error { code, message, close }),
    ensures
        spec_parse_message(spec_serialize_message(MessageView::Error { code, message, close }))
            == Ok::<MessageView, ConnectionMessageParseError>(
            MessageView::Error { code, message, close },
        ),
{
    let m = MessageView::Error { code, message, close };
    let b = spec_serialize_message(m);
    assert(holds_at(b, 0, b)) by {
        assert(b.subrange(0, b.len() as int) =~= b);
    }
    let t = seq![spec_message_type_code(ConnectionMessageType::Error)];
    let x1 = be16(code);
    let x2 = str_bytes(message);
    let x3 = seq![if close { 1u8 } else { 0u8 }];
    lemma_holds_split(b, 0, t + x1 + x2, x3);
    lemma_holds_split(b, 0, t + x1, x2);
    lemma_holds_split(b, 0, t, x1);
    lemma_u8_at(b, 0, spec_message_type_code(ConnectionMessageType::Error));
    lemma_u16_at(b, 1, code);
    lemma_string_at(b, 3, message);
    lemma_u8_at(b, 3 + x2.len() as int, if close { 1u8 } else { 0u8 });
}

/// Parsing the bytes of a well-sized message gives the message back.
pub proof fn lemma_message_roundtrip(m: MessageView)
    requires
        message_well_sized(m),
    ensures
        spec_parse_message(spec_serialize_message(m)) == Ok::<
            MessageView,
            ConnectionMessageParseError,
        >(m),
{
    match m {
        MessageView::ClientHello {
            version,
            host,
            headers,
            compression_types,
            keepalive_min_ms,
            keepalive_max_ms,
        } => lemma_client_hello_roundtrip(
            version,
            host,
            headers,
            compression_types,
            keepalive_min_ms,
            keepalive_max_ms,
        ),
        MessageView::ServerHello { version, headers, compression_type, keepalive_interval_ms } =>
            lemma_server_hello_roundtrip(version, headers, compression_type, keepalive_interval_ms),
        MessageView::Error { code, message, close } => lemma_error_roundtrip(code, message, close),
        _ => {
            let b = spec_serialize_message(m);
            assert(b.subrange(0, 1) =~= b);
            assert(b[0] == b.subrange(0, 1)[0]);
        },
    }
}
} // verus!
