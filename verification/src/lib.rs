//! Protofish2: a QUIC-based transfer protocol with reliable (ordered, NACK-driven)
//! and unreliable chunk streams.
//!
//! This crate holds the protocol's wire formats, the reassembly and credit
//! accounting state machines, and their proofs.

pub mod cert_chain;
pub mod compression;
pub mod config;
pub mod connection;
pub mod datagram;
pub mod mani;
pub mod mode;
pub mod opus_stream;
pub mod types;
pub mod wire;

pub use mode::{Mode, TransferMode};
pub use types::{ManiStreamId, SequenceNumber, Timestamp};
