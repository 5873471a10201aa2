//! The state machines behind a transfer's send and receive streams.

pub mod assembler;
pub mod backpressure;
pub mod compression;
pub mod recv;
pub mod send;
