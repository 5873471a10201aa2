//! Core newtypes used throughout the protocol.

use vstd::prelude::*;

verus! {

/// Unique identifier for a MANI stream within a connection.
///
/// A lightweight wrapper around a `u64` that corresponds to the QUIC stream index.
#[derive(Debug, Clone, Copy, PartialEq, Eq, Structural, Hash, PartialOrd, Ord)]
pub struct ManiStreamId(pub u64);

/// Sequence number used for ordering chunks within a transfer.
///
/// Sequence numbers wrap around at `u32::MAX`; addition and subtraction
/// are therefore taken modulo 2^32.
#[derive(Debug, Clone, Copy, PartialEq, Eq, Structural, Hash, PartialOrd, Ord)]
pub struct SequenceNumber(pub u32);

/// Timestamp for a chunk, measured in milliseconds.
#[derive(Debug, Clone, Copy, PartialEq, Eq, Structural, Hash)]
pub struct Timestamp(pub u64);

/// `a + b` modulo 2^32.
pub open spec fn wrap_add(a: u32, b: u32) -> u32 {
    ((a + b) % 0x1_0000_0000) as u32
}

/// `a - b` modulo 2^32.
pub open spec fn wrap_sub(a: u32, b: u32) -> u32 {
    ((a - b + 0x1_0000_0000) % 0x1_0000_0000) as u32
}

/// Sequence-number arithmetic wraps consistently: subtracting what was added gives the
/// start back, and so does adding back what was subtracted.
pub proof fn lemma_wrap_add_sub(a: u32, b: u32)
    ensures
        wrap_sub(wrap_add(a, b), b) == a,
        wrap_add(wrap_sub(a, b), b) == a,
{
}

impl core::ops::Add for SequenceNumber {
    type Output = SequenceNumber;

    fn add(self, rhs: SequenceNumber) -> (res: SequenceNumber) {
        SequenceNumber(self.0.wrapping_add(rhs.0))
    }
}

impl vstd::std_specs::ops::AddSpecImpl for SequenceNumber {
    open spec fn obeys_add_spec() -> bool {
        true
    }

    open spec fn add_req(self, rhs: SequenceNumber) -> bool {
        true
    }

    open spec fn add_spec(self, rhs: SequenceNumber) -> SequenceNumber {
        SequenceNumber(wrap_add(self.0, rhs.0))
    }
}

impl core::ops::Sub for SequenceNumber {
    type Output = SequenceNumber;

    fn sub(self, rhs: SequenceNumber) -> (res: SequenceNumber) {
        SequenceNumber(self.0.wrapping_sub(rhs.0))
    }
}

impl vstd::std_specs::ops::SubSpecImpl for SequenceNumber {
    open spec fn obeys_sub_spec() -> bool {
        true
    }

    open spec fn sub_req(self, rhs: SequenceNumber) -> bool {
        true
    }

    open spec fn sub_spec(self, rhs: SequenceNumber) -> SequenceNumber {
        SequenceNumber(wrap_sub(self.0, rhs.0))
    }
}

impl From<u32> for SequenceNumber {
    fn from(value: u32) -> (res: SequenceNumber) {
        SequenceNumber(value)
    }
}

impl vstd::std_specs::convert::FromSpecImpl<u32> for SequenceNumber {
    open spec fn obeys_from_spec() -> bool {
        true
    }

    open spec fn from_spec(v: u32) -> SequenceNumber {
        SequenceNumber(v)
    }
}

impl From<SequenceNumber> for u32 {
    fn from(value: SequenceNumber) -> (res: u32) {
        value.0
    }
}

impl vstd::std_specs::convert::FromSpecImpl<SequenceNumber> for u32 {
    open spec fn obeys_from_spec() -> bool {
        true
    }

    open spec fn from_spec(v: SequenceNumber) -> u32 {
        v.0
    }
}

impl From<u64> for ManiStreamId {
    fn from(value: u64) -> (res: ManiStreamId) {
        ManiStreamId(value)
    }
}

impl vstd::std_specs::convert::FromSpecImpl<u64> for ManiStreamId {
    open spec fn obeys_from_spec() -> bool {
        true
    }

    open spec fn from_spec(v: u64) -> ManiStreamId {
        ManiStreamId(v)
    }
}

impl From<ManiStreamId> for u64 {
    fn from(value: ManiStreamId) -> (res: u64) {
        value.0
    }
}

impl vstd::std_specs::convert::FromSpecImpl<ManiStreamId> for u64 {
    open spec fn obeys_from_spec() -> bool {
        true
    }

    open spec fn from_spec(v: ManiStreamId) -> u64 {
        v.0
    }
}

} // verus!
