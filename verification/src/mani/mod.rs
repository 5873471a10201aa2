//! Reliable data transfer layer: chunk reassembly, credit accounting and
//! the send-side retransmission bookkeeping.

pub mod transfer;
