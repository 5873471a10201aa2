//! Tunable limits of a connection.

use vstd::prelude::*;

verus! {

/// Limits of the MANI transfer layer.
#[derive(Debug, Clone, Copy, PartialEq, Eq, Structural)]
pub struct ManiConfig {
    pub max_retransmission_buffer_size: usize,
    pub max_nack_channel_size: usize,
    pub max_datagram_channel_size: usize,
    pub max_chunk_buffer_size: usize,
}

impl Default for ManiConfig {
    fn default() -> (res: Self)
        ensures
            res.max_retransmission_buffer_size == 1024,
            res.max_nack_channel_size == 100,
            res.max_datagram_channel_size == 1000,
            res.max_chunk_buffer_size == 1000,
    {
        Self {
            max_retransmission_buffer_size: 1024,
            max_nack_channel_size: 100,
            max_datagram_channel_size: 1000,
            max_chunk_buffer_size: 1000,
        }
    }
}

/// Limits of a connection.
#[derive(Debug, Clone, Copy, PartialEq, Eq, Structural)]
pub struct ProtofishConfig {
    pub retransmission_buffer_size: usize,
    pub mani_config: ManiConfig,
}

impl Default for ProtofishConfig {
    fn default() -> (res: Self)
        ensures
            res.retransmission_buffer_size == 1024,
            res.mani_config.max_retransmission_buffer_size == 1024,
            res.mani_config.max_nack_channel_size == 100,
            res.mani_config.max_datagram_channel_size == 1000,
            res.mani_config.max_chunk_buffer_size == 1000,
    {
        Self { retransmission_buffer_size: 1024, mani_config: ManiConfig::default() }
    }
}

} // verus!
