use protofish2::datagram::packet::Packet;
use protofish2::mani::transfer::assembler::{Assembler, AssemblerError};
use protofish2::mani::transfer::recv::ReliableReceiver;
use protofish2::{ManiStreamId, SequenceNumber, Timestamp};

fn packet(seq: u32) -> Packet {
    Packet {
        stream_id: ManiStreamId(1),
        sequence_number: SequenceNumber(seq),
        timestamp: Timestamp(seq as u64 * 20),
        content: vec![seq as u8],
    }
}

fn seqs(packets: &[Packet]) -> Vec<u32> {
    packets.iter().map(|p| p.sequence_number.0).collect()
}

#[test]
fn in_order_packets_are_delivered_at_once() {
    let mut a = Assembler::new(16);
    a.push(SequenceNumber(0), packet(0)).unwrap();
    assert_eq!(seqs(&a.read_ordered()), vec![0]);
    a.push(SequenceNumber(1), packet(1)).unwrap();
    assert_eq!(seqs(&a.read_ordered()), vec![1]);
    assert_eq!(a.cursor(), SequenceNumber(2));
    assert!(a.missing_sequence_numbers().is_empty());
}

#[test]
fn gap_is_reported_and_filled() {
    let mut a = Assembler::new(16);
    a.push(SequenceNumber(3), packet(3)).unwrap();
    assert_eq!(
        a.missing_sequence_numbers(),
        vec![SequenceNumber(0), SequenceNumber(1), SequenceNumber(2)]
    );
    assert!(a.read_ordered().is_empty());
    a.push(SequenceNumber(1), packet(1)).unwrap();
    assert_eq!(
        a.missing_sequence_numbers(),
        vec![SequenceNumber(0), SequenceNumber(2)]
    );
    a.push(SequenceNumber(0), packet(0)).unwrap();
    assert_eq!(seqs(&a.read_ordered()), vec![0, 1]);
    assert_eq!(a.cursor(), SequenceNumber(2));
    assert_eq!(a.missing_sequence_numbers(), vec![SequenceNumber(2)]);
    a.push(SequenceNumber(2), packet(2)).unwrap();
    assert_eq!(seqs(&a.read_ordered()), vec![2, 3]);
    assert_eq!(a.cursor(), SequenceNumber(4));
}

#[test]
fn packets_beyond_the_window_keep_their_place() {
    let mut a = Assembler::new(16);
    a.push(SequenceNumber(2), packet(2)).unwrap();
    a.push(SequenceNumber(4), packet(4)).unwrap();
    assert_eq!(
        a.missing_sequence_numbers(),
        vec![SequenceNumber(0), SequenceNumber(1), SequenceNumber(3)]
    );
    a.push(SequenceNumber(0), packet(0)).unwrap();
    a.push(SequenceNumber(1), packet(1)).unwrap();
    a.push(SequenceNumber(3), packet(3)).unwrap();
    assert_eq!(seqs(&a.read_ordered()), vec![0, 1, 2, 3, 4]);
}

#[test]
fn duplicate_is_ignored() {
    let mut a = Assembler::new(16);
    a.push(SequenceNumber(1), packet(1)).unwrap();
    let mut dup = packet(1);
    dup.content = vec![99];
    a.push(SequenceNumber(1), dup).unwrap();
    a.push(SequenceNumber(0), packet(0)).unwrap();
    let out = a.read_ordered();
    assert_eq!(seqs(&out), vec![0, 1]);
    assert_eq!(out[1].content, vec![1]);
}

#[test]
fn full_window_refuses_push() {
    let mut a = Assembler::new(2);
    a.push(SequenceNumber(1), packet(1)).unwrap();
    assert!(a.is_full());
    assert_eq!(
        a.push(SequenceNumber(0), packet(0)).unwrap_err(),
        AssemblerError::RetransmissionBufferOverflow
    );
    assert_eq!(
        a.missing_sequence_numbers(),
        vec![SequenceNumber(0)]
    );
}

#[test]
fn second_read_returns_nothing() {
    let mut a = Assembler::new(8);
    a.push(SequenceNumber(0), packet(0)).unwrap();
    assert_eq!(a.read_ordered().len(), 1);
    assert!(a.read_ordered().is_empty());
}

#[test]
fn receiver_step_nacks_and_delivers() {
    let mut r = ReliableReceiver::new(8);
    assert!(r.can_accept(SequenceNumber(2)));
    let step = r.on_packet(packet(2));
    assert!(step.pushed.is_ok());
    assert_eq!(step.nack, vec![SequenceNumber(0), SequenceNumber(1)]);
    assert!(step.ready.is_empty());
    let step = r.on_packet(packet(0));
    assert_eq!(step.nack, vec![SequenceNumber(1)]);
    assert_eq!(seqs(&step.ready), vec![0]);
    let step = r.on_packet(packet(1));
    assert!(step.nack.is_empty());
    assert_eq!(seqs(&step.ready), vec![1, 2]);
    assert!(r.can_accept(SequenceNumber(0)));
}

#[test]
fn late_retransmission_is_ignored() {
    let mut a = Assembler::new(10);
    a.push(SequenceNumber(0), packet(0)).unwrap();
    assert_eq!(seqs(&a.read_ordered()), vec![0]);
    assert_eq!(a.cursor(), SequenceNumber(1));
    let mut late = packet(0);
    late.content = vec![42];
    assert!(a.push(SequenceNumber(0), late).is_ok());
    assert_eq!(a.cursor(), SequenceNumber(1));
    assert!(a.missing_sequence_numbers().is_empty());
    assert!(a.read_ordered().is_empty());
}

#[test]
fn receiver_ignores_retransmission_of_delivered_packet() {
    let mut r = ReliableReceiver::new(8);
    assert_eq!(seqs(&r.on_packet(packet(0)).ready), vec![0]);
    r.on_packet(packet(2));
    let step = r.on_packet(packet(0));
    assert!(step.pushed.is_ok());
    assert_eq!(step.nack, vec![SequenceNumber(1)]);
    assert!(step.ready.is_empty());
    assert_eq!(seqs(&r.on_packet(packet(1)).ready), vec![1, 2]);
}

#[test]
fn stream_with_duplicates_is_delivered_once_in_order() {
    let mut r = ReliableReceiver::new(8);
    let mut delivered = Vec::new();
    for seq in [3u32, 1, 1, 0, 3, 0, 2, 1, 4, 2, 4] {
        let step = r.on_packet(packet(seq));
        assert!(step.pushed.is_ok());
        delivered.extend(seqs(&step.ready));
    }
    assert_eq!(delivered, vec![0, 1, 2, 3, 4]);
}

#[test]
fn receiver_end_is_reached_after_final_packet() {
    let mut r = ReliableReceiver::new(8);
    r.on_end_transfer(SequenceNumber(1));
    assert!(!r.take_reached_end());
    r.on_packet(packet(0));
    assert!(!r.take_reached_end());
    r.on_packet(packet(1));
    assert!(r.take_reached_end());
    assert!(!r.take_reached_end());
    assert!(r.signal_eof());
    assert!(!r.signal_eof());
}
