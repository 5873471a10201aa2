use protofish2::datagram::packet::Packet;
use protofish2::datagram::router::PendingChunks;
use protofish2::mani::transfer::compression::FragmentReassembler;
use protofish2::mani::transfer::send::{SendWindow, TransferSendError};
use protofish2::{ManiStreamId, SequenceNumber, Timestamp};

fn packet(seq: u32) -> Packet {
    Packet {
        stream_id: ManiStreamId(9),
        sequence_number: SequenceNumber(seq),
        timestamp: Timestamp(0),
        content: vec![seq as u8],
    }
}

#[test]
fn pending_chunks_are_bounded() {
    let mut p = PendingChunks::new();
    assert!(p.push_bounded(0, packet(0), 2));
    assert!(p.push_bounded(1, packet(1), 2));
    assert!(!p.push_bounded(2, packet(2), 2));
    assert_eq!(p.len(), 2);
    let out: Vec<u32> = p.into_packets().iter().map(|c| c.sequence_number.0).collect();
    assert_eq!(out, vec![0, 1]);
}

#[test]
fn pending_chunks_expire() {
    let mut p = PendingChunks::new();
    p.push_bounded(100, packet(0), 10);
    p.push_bounded(150, packet(1), 10);
    p.push_bounded(300, packet(2), 10);
    assert!(p.retain_fresh(200, 100));
    let out: Vec<u32> = p.into_packets().iter().map(|c| c.sequence_number.0).collect();
    assert_eq!(out, vec![1, 2]);
    let mut q = PendingChunks::new();
    q.push_bounded(0, packet(0), 10);
    assert!(!q.retain_fresh(50, 50));
    assert_eq!(q.len(), 0);
}

#[test]
fn fragments_are_joined_in_index_order() {
    let mut r = FragmentReassembler::new(4);
    assert_eq!(r.on_fragment(7, 2, 3, Timestamp(5), b"cc".to_vec()), None);
    assert_eq!(r.on_fragment(7, 0, 3, Timestamp(6), b"a".to_vec()), None);
    assert_eq!(r.len(), 1);
    let (ts, bytes) = r.on_fragment(7, 1, 3, Timestamp(7), b"bb".to_vec()).unwrap();
    assert_eq!(ts, Timestamp(5));
    assert_eq!(bytes, b"abbcc".to_vec());
    assert_eq!(r.len(), 0);
}

#[test]
fn fragment_group_with_foreign_index_is_dropped() {
    let mut r = FragmentReassembler::new(4);
    assert_eq!(r.on_fragment(1, 0, 2, Timestamp(0), vec![1]), None);
    assert_eq!(r.on_fragment(1, 5, 2, Timestamp(0), vec![2]), None);
    assert_eq!(r.len(), 0);
}

#[test]
fn oldest_group_is_evicted() {
    let mut r = FragmentReassembler::new(2);
    r.on_fragment(10, 0, 2, Timestamp(0), vec![1]);
    r.on_fragment(5, 0, 2, Timestamp(0), vec![1]);
    r.on_fragment(20, 0, 2, Timestamp(0), vec![1]);
    assert_eq!(r.len(), 2);
    // group 5 (smallest key) was evicted; its second fragment opens a new group,
    // which evicts group 10
    assert_eq!(r.on_fragment(5, 1, 2, Timestamp(0), vec![2]), None);
    assert_eq!(r.len(), 2);
    // group 20 kept its first fragment and completes
    let (_, bytes) = r.on_fragment(20, 1, 2, Timestamp(0), vec![2]).unwrap();
    assert_eq!(bytes, vec![1, 2]);
    assert_eq!(r.len(), 1);
}

#[test]
fn send_window_numbers_and_buffers() {
    let mut w = SendWindow::new(ManiStreamId(3), SequenceNumber(u32::MAX), 2);
    assert!(w.check_capacity().is_ok());
    let p = w.next_packet(Timestamp(1), vec![1]);
    assert_eq!(p.sequence_number, SequenceNumber(u32::MAX));
    assert_eq!(p.stream_id, ManiStreamId(3));
    w.record_sent(p);
    assert_eq!(w.current_sequence_number(), SequenceNumber(0));
    assert_eq!(w.final_sequence_number(), SequenceNumber(u32::MAX));
    let p = w.next_packet(Timestamp(2), vec![2]);
    w.record_sent(p);
    assert!(matches!(
        w.check_capacity(),
        Err(TransferSendError::RetransmissionBufferFull)
    ));
    assert_eq!(
        w.get_chunk_for_retransmission(SequenceNumber(u32::MAX)).unwrap().content,
        vec![1]
    );
    assert_eq!(
        w.get_chunk_for_retransmission(SequenceNumber(0)).unwrap().timestamp,
        Timestamp(2)
    );
    assert!(w.get_chunk_for_retransmission(SequenceNumber(1)).is_none());
}

#[test]
fn numbering_after_many_sends_wraps() {
    let mut w = SendWindow::new(ManiStreamId(1), SequenceNumber(u32::MAX - 2), 16);
    for k in 0..5u32 {
        assert_eq!(
            w.current_sequence_number(),
            SequenceNumber((u32::MAX - 2).wrapping_add(k))
        );
        let p = w.next_packet(Timestamp(k as u64), vec![k as u8]);
        w.record_sent(p);
    }
    assert_eq!(w.current_sequence_number(), SequenceNumber(2));
    assert_eq!(
        w.get_chunk_for_retransmission(SequenceNumber(0)).unwrap().content,
        vec![3]
    );
}
