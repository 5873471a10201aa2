//! Which of a transfer's streams the sender fills.

use vstd::prelude::*;

verus! {

/// The streams a transfer carries: both the reliable and the unreliable stream,
/// or the unreliable stream alone.
#[derive(Debug, Clone, Copy, PartialEq, Eq, Structural)]
pub enum TransferMode {
    Dual,
    UnreliableOnly,
}

/// The delivery a user asks for.
#[derive(Debug, Clone, Copy, PartialEq, Eq, Structural)]
pub enum Mode {
    Reliable,
    Unreliable,
}

/// The transfer mode that serves a delivery mode: reliable delivery needs both streams.
pub open spec fn spec_transfer_mode(m: Mode) -> TransferMode {
    match m {
        Mode::Reliable => TransferMode::Dual,
        Mode::Unreliable => TransferMode::UnreliableOnly,
    }
}

impl From<Mode> for TransferMode {
    fn from(value: Mode) -> (res: TransferMode) {
        match value {
            Mode::Reliable => TransferMode::Dual,
            Mode::Unreliable => TransferMode::UnreliableOnly,
        }
    }
}

impl vstd::std_specs::convert::FromSpecImpl<Mode> for TransferMode {
    open spec fn obeys_from_spec() -> bool {
        true
    }

    open spec fn from_spec(v: Mode) -> TransferMode {
        spec_transfer_mode(v)
    }
}

} // verus!
