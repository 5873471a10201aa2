//! Datagram framing: the packet wire header, the fragmentation header, and
//! the per-stream buffer for packets that arrive before their stream exists.

pub mod packet;
pub mod router;
