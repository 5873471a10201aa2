//! The compression algorithms a connection can negotiate.

use vstd::prelude::*;

verus! {

/// Compression applied to chunk payloads, negotiated during the handshake.
#[derive(Debug, Clone, Copy, PartialEq, Eq, Structural, Hash)]
pub enum CompressionType {
    NoCompression,
    Gzip,
    Zstd,
    Lz4,
}

/// The wire code of each compression type.
pub open spec fn spec_compression_code(c: CompressionType) -> u8 {
    match c {
        CompressionType::NoCompression => 0,
        CompressionType::Gzip => 1,
        CompressionType::Zstd => 2,
        CompressionType::Lz4 => 3,
    }
}

/// The compression type with wire code `value`, if there is one.
pub open spec fn spec_compression_from_code(value: u8) -> Option<CompressionType> {
    if value == 0 {
        Some(CompressionType::NoCompression)
    } else if value == 1 {
        Some(CompressionType::Gzip)
    } else if value == 2 {
        Some(CompressionType::Zstd)
    } else if value == 3 {
        Some(CompressionType::Lz4)
    } else {
        None
    }
}

impl CompressionType {
    /// The compression type with wire code `value`; `None` for an unknown code.
    pub fn from_u8(value: u8) -> (res: Option<CompressionType>)
        ensures
            res == spec_compression_from_code(value),
    {
        match value {
            0 => Some(CompressionType::NoCompression),
            1 => Some(CompressionType::Gzip),
            2 => Some(CompressionType::Zstd),
            3 => Some(CompressionType::Lz4),
            _ => None,
        }
    }

    /// The wire code of this compression type.
    pub fn to_u8(self) -> (res: u8)
        ensures
            res == spec_compression_code(self),
    {
        match self {
            CompressionType::NoCompression => 0,
            CompressionType::Gzip => 1,
            CompressionType::Zstd => 2,
            CompressionType::Lz4 => 3,
        }
    }
}

/// Every compression type reads back from its wire code, and only the known
/// codes read as a compression type.
pub proof fn lemma_compression_code_roundtrip(c: CompressionType, value: u8)
    ensures
        spec_compression_from_code(spec_compression_code(c)) == Some(c),
        spec_compression_from_code(value) matches Some(d) ==> spec_compression_code(d) == value,
{
}

} // verus!
