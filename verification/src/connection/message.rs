//! The messages exchanged on a connection's control stream.

use vstd::prelude::*;

use crate::compression::CompressionType;

verus! {

/// The one-byte tag that starts every control message.
#[derive(Debug, Clone, Copy, PartialEq, Eq, Structural)]
pub enum ConnectionMessageType {
    ClientHello,
    ServerHello,
    Keepalive,
    KeepaliveAck,
    Error,
    Close,
}

/// The wire tag of each message type.
pub open spec fn spec_message_type_code(t: ConnectionMessageType) -> u8 {
    match t {
        ConnectionMessageType::ClientHello => 0x01,
        ConnectionMessageType::ServerHello => 0x02,
        ConnectionMessageType::Keepalive => 0x03,
        ConnectionMessageType::KeepaliveAck => 0x04,
        ConnectionMessageType::Error => 0x05,
        ConnectionMessageType::Close => 0x06,
    }
}

/// The message type with wire tag `value`, if there is one.
pub open spec fn spec_message_type_from_code(value: u8) -> Option<ConnectionMessageType> {
    if value == 0x01 {
        Some(ConnectionMessageType::ClientHello)
    } else if value == 0x02 {
        Some(ConnectionMessageType::ServerHello)
    } else if value == 0x03 {
        Some(ConnectionMessageType::Keepalive)
    } else if value == 0x04 {
        Some(ConnectionMessageType::KeepaliveAck)
    } else if value == 0x05 {
        Some(ConnectionMessageType::Error)
    } else if value == 0x06 {
        Some(ConnectionMessageType::Close)
    } else {
        None
    }
}

impl ConnectionMessageType {
    /// The message type with wire tag `value`; `None` for an unknown tag.
    pub fn from_u8(value: u8) -> (res: Option<Self>)
        ensures
            res == spec_message_type_from_code(value),
    {
        match value {
            0x01 => Some(Self::ClientHello),
            0x02 => Some(Self::ServerHello),
            0x03 => Some(Self::Keepalive),
            0x04 => Some(Self::KeepaliveAck),
            0x05 => Some(Self::Error),
            0x06 => Some(Self::Close),
            _ => None,
        }
    }

    /// The wire tag of this message type.
    pub fn to_u8(self) -> (res: u8)
        ensures
            res == spec_message_type_code(self),
    {
        match self {
            Self::ClientHello => 0x01,
            Self::ServerHello => 0x02,
            Self::Keepalive => 0x03,
            Self::KeepaliveAck => 0x04,
            Self::Error => 0x05,
            Self::Close => 0x06,
        }
    }
}

/// Every message type reads back from its tag, and exactly the tags 1 to 6 are known.
pub proof fn lemma_message_type_code_roundtrip(t: ConnectionMessageType, value: u8)
    ensures
        spec_message_type_from_code(spec_message_type_code(t)) == Some(t),
        spec_message_type_from_code(value) is Some <==> 1 <= value <= 6,
        spec_message_type_from_code(value) matches Some(d) ==> spec_message_type_code(d) == value,
{
}

/// A header map: each key (a string) maps to a byte value, and no key occurs twice.
/// Entries keep the order in which their keys were first inserted.
#[derive(Debug)]
pub struct Headers {
    entries: Vec<(String, Vec<u8>)>,
}

/// The position of key `k` among `entries`, if it occurs.
pub open spec fn key_position(entries: Seq<(Seq<char>, Seq<u8>)>, k: Seq<char>) -> Option<int> {
    if exists|i: int| 0 <= i < entries.len() && entries[i].0 == k {
        Some(choose|i: int| 0 <= i < entries.len() && entries[i].0 == k)
    } else {
        None
    }
}

/// No key occurs twice among `entries`.
pub open spec fn distinct_keys(entries: Seq<(Seq<char>, Seq<u8>)>) -> bool {
    forall|i: int, j: int|
        0 <= i < entries.len() && 0 <= j < entries.len() && i != j ==> #[trigger] entries[i].0
            != #[trigger] entries[j].0
}

/// The entries after mapping `k` to `v`: an existing key keeps its place and takes
/// the new value; a new key is appended.
pub open spec fn spec_insert(entries: Seq<(Seq<char>, Seq<u8>)>, k: Seq<char>, v: Seq<u8>) -> Seq<
    (Seq<char>, Seq<u8>),
> {
    match key_position(entries, k) {
        Some(i) => entries.update(i, (k, v)),
        None => entries.push((k, v)),
    }
}

/// Inserting into entries with distinct keys keeps the keys distinct.
pub proof fn lemma_insert_distinct(entries: Seq<(Seq<char>, Seq<u8>)>, k: Seq<char>, v: Seq<u8>)
    requires
        distinct_keys(entries),
    ensures
        distinct_keys(spec_insert(entries, k, v)),
{
    let r = spec_insert(entries, k, v);
    assert forall|i: int, j: int|
        0 <= i < r.len() && 0 <= j < r.len() && i != j implies #[trigger] r[i].0 != #[trigger] r[j].0 by {
        match key_position(entries, k) {
            Some(p) => {
                if i != p && j != p {
                    assert(r[i] == entries[i] && r[j] == entries[j]);
                } else if i == p {
                    assert(r[j] == entries[j]);
                } else {
                    assert(r[i] == entries[i]);
                }
            },
            None => {
                if i < entries.len() && j < entries.len() {
                    assert(r[i] == entries[i] && r[j] == entries[j]);
                } else if i < entries.len() {
                    assert(r[i] == entries[i]);
                } else {
                    assert(r[j] == entries[j]);
                }
            },
        }
    }
}

/// The mathematical value of an entry.
pub open spec fn entry_view(e: (String, Vec<u8>)) -> (Seq<char>, Seq<u8>) {
    (e.0@, e.1@)
}

impl View for Headers {
    type V = Seq<(Seq<char>, Seq<u8>)>;

    closed spec fn view(&self) -> Seq<(Seq<char>, Seq<u8>)> {
        self.entries@.map_values(|e: (String, Vec<u8>)| entry_view(e))
    }
}

impl Headers {
    /// The invariant of every header map: no key occurs twice. A holder of a map
    /// learns it with `use_type_invariant`.
    #[verifier::type_invariant]
    pub open spec fn keys_are_distinct(self) -> bool {
        distinct_keys(self@)
    }

    /// An empty header map.
    pub fn new() -> (res: Headers)
        ensures
            res@ == Seq::<(Seq<char>, Seq<u8>)>::empty(),
    {
        let res = Headers { entries: Vec::new() };
        assert(res@ =~= Seq::<(Seq<char>, Seq<u8>)>::empty());
        res
    }

    /// Maps `key` to `value`, returning the value it replaces, if any.
    pub fn insert(&mut self, key: String, value: Vec<u8>) -> (res: Option<Vec<u8>>)
        ensures
            final(self)@ == spec_insert(old(self)@, key@, value@),
            match key_position(old(self)@, key@) {
                Some(i) => res matches Some(r) && r@ == old(self)@[i].1,
                None => res is None,
            },
    {
        proof {
            use_type_invariant(&*self);
        }
        let ghost old_view = self@;
        let n = self.entries.len();
        let mut i: usize = 0;
        while i < n
            invariant
                n == self.entries@.len(),
                0 <= i <= n,
                old_view == self@,
                old_view == old(self)@,
                distinct_keys(old_view),
                forall|j: int| 0 <= j < i ==> old_view[j].0 != key@,
            decreases n - i,
        {
            assert(old_view[i as int] == entry_view(self.entries@[i as int]));
            if self.entries[i].0 == key {
                proof {
                    assert(old_view[i as int].0 == key@);
                    assert(key_position(old_view, key@) == Some(i as int)) by {
                        let c = choose|j: int|
                            0 <= j < old_view.len() && old_view[j].0 == key@;
                        if c != i {
                            assert(old_view[c].0 != old_view[i as int].0);
                        }
                    }
                }
                let mut entries: Vec<(String, Vec<u8>)> = Vec::new();
        std::mem::swap(&mut entries, &mut self.entries);
                let (k, old_value) = entries.remove(i);
                entries.insert(i, (k, value));
                assert(entries@.map_values(|e: (String, Vec<u8>)| entry_view(e)) =~= spec_insert(
                    old_view,
                    key@,
                    value@,
                ));
                proof {
                    lemma_insert_distinct(old_view, key@, value@);
                }
                self.entries = entries;
                return Some(old_value);
            }
            i = i + 1;
        }
        assert(key_position(old_view, key@) is None);
        proof {
            lemma_insert_distinct(old_view, key@, value@);
        }
        let mut entries: Vec<(String, Vec<u8>)> = Vec::new();
        std::mem::swap(&mut entries, &mut self.entries);
        entries.push((key, value));
        assert(entries@.map_values(|e: (String, Vec<u8>)| entry_view(e)) =~= spec_insert(
            old_view,
            key@,
            value@,
        ));
        self.entries = entries;
        None
    }

    /// The number of keys.
    pub fn len(&self) -> (res: usize)
        ensures
            res == self@.len(),
    {
        self.entries.len()
    }

    /// The entries, in order.
    pub fn entries(&self) -> (res: &[(String, Vec<u8>)])
        ensures
            res@.map_values(|e: (String, Vec<u8>)| entry_view(e)) == self@,
    {
        self.entries.as_slice()
    }
}

impl Clone for Headers {
    /// A copy with the same entries, in the same order.
    fn clone(&self) -> (res: Self)
        ensures
            res@ == self@,
    {
        proof {
            use_type_invariant(self);
        }
        let mut entries: Vec<(String, Vec<u8>)> = Vec::new();
        let mut i: usize = 0;
        while i < self.entries.len()
            invariant
                0 <= i <= self.entries@.len(),
                entries@.len() == i,
                self@.len() == self.entries@.len(),
                entries@.map_values(|e: (String, Vec<u8>)| entry_view(e)) == self@.take(i as int),
            decreases self.entries@.len() - i,
        {
            let key = self.entries[i].0.clone();
            let value = self.entries[i].1.clone();
            assert(value@ =~= self.entries@[i as int].1@);
            assert(key@ == self.entries@[i as int].0@);
            let ghost pair = (key, value);
            entries.push((key, value));
            assert(entries@[i as int] == pair);
            assert(entry_view(pair) == self@[i as int]);
            assert(entries@.map_values(|e: (String, Vec<u8>)| entry_view(e)) =~= self@.take(
                i + 1,
            ));
            i = i + 1;
        }
        assert(self@.take(self@.len() as int) =~= self@);
        Headers { entries }
    }
}

/// A message on the control stream.
#[derive(Debug, Clone)]
pub enum ConnectionMessage {
    ClientHello(ClientHello),
    ServerHello(ServerHello),
    Keepalive,
    KeepaliveAck,
    Error(ConnectionErrorMsg),
    Close,
}

/// The client's opening message.
#[derive(Debug, Clone)]
pub struct ClientHello {
    pub version: u16,
    pub host: String,
    pub headers: Headers,
    pub available_compression_types: Vec<CompressionType>,
    pub keepalive_min_ms: u32,
    pub keepalive_max_ms: u32,
}

/// The server's answer to a [`ClientHello`].
#[derive(Debug, Clone)]
pub struct ServerHello {
    pub version: u16,
    pub headers: Headers,
    pub compression_type: CompressionType,
    pub keepalive_interval_ms: u32,
}

/// An error reported by the peer; `close` asks to close the connection.
#[derive(Debug, Clone)]
pub struct ConnectionErrorMsg {
    pub code: u16,
    pub message: String,
    pub close: bool,
}

/// The mathematical value of a [`ConnectionMessage`].
pub enum MessageView {
    ClientHello {
        version: u16,
        host: Seq<char>,
        headers: Seq<(Seq<char>, Seq<u8>)>,
        compression_types: Seq<CompressionType>,
        keepalive_min_ms: u32,
        keepalive_max_ms: u32,
    },
    ServerHello {
        version: u16,
        headers: Seq<(Seq<char>, Seq<u8>)>,
        compression_type: CompressionType,
        keepalive_interval_ms: u32,
    },
    Keepalive,
    KeepaliveAck,
    Error { code: u16, message: Seq<char>, close: bool },
    Close,
}

impl View for ConnectionMessage {
    type V = MessageView;

    open spec fn view(&self) -> MessageView {
        match self {
            ConnectionMessage::ClientHello(h) => MessageView::ClientHello {
                version: h.version,
                host: h.host@,
                headers: h.headers@,
                compression_types: h.available_compression_types@,
                keepalive_min_ms: h.keepalive_min_ms,
                keepalive_max_ms: h.keepalive_max_ms,
            },
            ConnectionMessage::ServerHello(h) => MessageView::ServerHello {
                version: h.version,
                headers: h.headers@,
                compression_type: h.compression_type,
                keepalive_interval_ms: h.keepalive_interval_ms,
            },
            ConnectionMessage::Keepalive => MessageView::Keepalive,
            ConnectionMessage::KeepaliveAck => MessageView::KeepaliveAck,
            ConnectionMessage::Error(e) => MessageView::Error {
                code: e.code,
                message: e.message@,
                close: e.close,
            },
            ConnectionMessage::Close => MessageView::Close,
        }
    }
}

} // verus!
