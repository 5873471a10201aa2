use protofish2::{ManiStreamId, Mode, SequenceNumber, Timestamp, TransferMode};
use protofish2::config::{ManiConfig, ProtofishConfig};

#[test]
fn sequence_number_difference() {
    let seq1 = SequenceNumber(100);
    let seq2 = SequenceNumber(101);
    assert_eq!(seq2 - seq1, SequenceNumber(1));
}

#[test]
fn sequence_number_wraps() {
    assert_eq!(SequenceNumber(u32::MAX) + SequenceNumber(1), SequenceNumber(0));
    assert_eq!(SequenceNumber(0) - SequenceNumber(1), SequenceNumber(u32::MAX));
    let seq = SequenceNumber(0);
    assert_eq!(seq + SequenceNumber(1), SequenceNumber(1));
}

#[test]
fn conversions() {
    let s: SequenceNumber = 7u32.into();
    assert_eq!(s, SequenceNumber(7));
    assert_eq!(u32::from(s), 7);
    let id: ManiStreamId = 42u64.into();
    assert_eq!(id, ManiStreamId(42));
    assert_eq!(u64::from(id), 42);
    assert_eq!(Timestamp(1234567890).0, 1234567890);
}

#[test]
fn mode_selects_transfer_mode() {
    assert_eq!(TransferMode::from(Mode::Reliable), TransferMode::Dual);
    assert_eq!(TransferMode::from(Mode::Unreliable), TransferMode::UnreliableOnly);
}

#[test]
fn config_defaults() {
    let m = ManiConfig::default();
    assert_eq!(m.max_retransmission_buffer_size, 1024);
    assert_eq!(m.max_nack_channel_size, 100);
    assert_eq!(m.max_datagram_channel_size, 1000);
    assert_eq!(m.max_chunk_buffer_size, 1000);
    let p = ProtofishConfig::default();
    assert_eq!(p.retransmission_buffer_size, 1024);
    assert_eq!(p.mani_config, m);
}
