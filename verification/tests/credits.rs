use protofish2::mani::transfer::backpressure::{poll_credit, CreditWait};
use protofish2::datagram::packet::{encode_fragment_content, encode_single_content};
use protofish2::mani::transfer::compression::{
    all_routes_failed, ContentOutcome, ContentPipeline, CreditBatcher,
};
use protofish2::Timestamp;
use protofish2::mani::transfer::recv::{effective_count, CoordState, CreditCoordinator, UnreliableEnd};

#[test]
fn dual_mode_waits_for_both_sinks() {
    let mut c = CreditCoordinator::new(2, true);
    assert_eq!(c.record_reliable(3), None);
    assert_eq!(c.record_unreliable(1), None);
    assert_eq!(c.record_unreliable(1), Some(2));
    assert_eq!(c.state().last_emitted, 2);
    assert_eq!(c.record_unreliable(5), None);
    assert_eq!(c.state().last_emitted, 2);
}

#[test]
fn closing_one_sink_flushes_the_other() {
    let mut c = CreditCoordinator::new(10, true);
    assert_eq!(c.record_reliable(3), None);
    assert_eq!(c.record_unreliable(1), None);
    assert_eq!(c.mark_unreliable_closed(), Some(3));
    assert_eq!(c.mark_unreliable_closed(), None);
    assert_eq!(c.mark_reliable_closed(), None);
    assert_eq!(c.record_reliable(4), None);
}

#[test]
fn unreliable_only_counts_unreliable() {
    let mut c = CreditCoordinator::new(0, false);
    assert_eq!(c.record_reliable(5), None);
    assert_eq!(c.record_unreliable(1), Some(1));
    assert_eq!(c.record_unreliable(0), None);
}

#[test]
fn effective_count_cases() {
    let s = CoordState {
        reliable_drained: 4,
        unreliable_drained: 6,
        last_emitted: 0,
        has_reliable: true,
        reliable_closed: false,
        unreliable_closed: false,
    };
    assert_eq!(effective_count(&s), Some(4));
    assert_eq!(effective_count(&CoordState { unreliable_closed: true, ..s }), Some(4));
    assert_eq!(effective_count(&CoordState { reliable_closed: true, ..s }), Some(6));
    assert_eq!(effective_count(&CoordState { has_reliable: false, ..s }), Some(6));
    assert_eq!(
        effective_count(&CoordState { reliable_closed: true, unreliable_closed: true, ..s }),
        None
    );
}

#[test]
fn batcher_emits_every_bulk_packets() {
    let mut b = CreditBatcher::new(3);
    assert_eq!(b.on_packet(), None);
    assert_eq!(b.on_packet(), None);
    assert_eq!(b.on_packet(), Some(3));
    assert_eq!(b.on_packet(), None);
    let mut z = CreditBatcher::new(0);
    assert_eq!(z.on_packet(), Some(1));
}

#[test]
fn credit_poll() {
    assert_eq!(poll_credit(false, 1), CreditWait::Granted);
    assert_eq!(poll_credit(false, 0), CreditWait::Wait);
    assert_eq!(poll_credit(true, 5), CreditWait::ShutDown);
}

#[test]
fn credits_over_a_run_stay_within_drain() {
    let mut c = CreditCoordinator::new(2, true);
    let mut total = 0usize;
    let mut reliable = 0usize;
    let mut unreliable = 0usize;
    for (r, u) in [(1usize, 0usize), (0, 3), (2, 0), (0, 1), (4, 0), (0, 2)] {
        reliable += r;
        unreliable += u;
        for credit in [c.record_reliable(r), c.record_unreliable(u)].into_iter().flatten() {
            assert!(credit >= 2);
            total += credit;
        }
        assert!(total <= reliable.min(unreliable));
        assert_eq!(total as u64, c.state().last_emitted);
    }
    assert_eq!(total, 6);
    assert_eq!(c.mark_reliable_closed(), None);
    assert_eq!(c.record_unreliable(1), None);
    assert_eq!(c.mark_unreliable_closed(), None);
}

#[test]
fn routing_stops_only_when_every_sink_is_gone() {
    assert!(!all_routes_failed(&[]));
    assert!(all_routes_failed(&[false]));
    assert!(all_routes_failed(&[false, false, false]));
    assert!(!all_routes_failed(&[false, true, false]));
    assert!(!all_routes_failed(&[true]));
}

#[test]
fn unreliable_end_is_reported_once() {
    let mut end = UnreliableEnd::new();
    assert!(!end.is_signaled());
    assert!(!UnreliableEnd::is_drained(false, true));
    assert!(!UnreliableEnd::is_drained(true, false));
    assert!(UnreliableEnd::is_drained(true, true));
    assert!(end.signal_eof());
    assert!(end.is_signaled());
    assert!(!end.signal_eof());
}

#[test]
fn content_pipeline_counts_decodes_and_regroups() {
    let mut p = ContentPipeline::new(2, 4);
    let step = p.on_packet(5, Timestamp(10), encode_single_content(vec![1, 2]));
    assert_eq!(step.credit, None);
    assert!(matches!(step.outcome, ContentOutcome::Chunk(Timestamp(10), ref b) if *b == vec![1, 2]));
    let step = p.on_packet(6, Timestamp(20), encode_fragment_content(1, 2, &[4]));
    assert_eq!(step.credit, Some(2));
    assert!(matches!(step.outcome, ContentOutcome::Pending));
    let step = p.on_packet(6, Timestamp(30), vec![]);
    assert_eq!(step.credit, None);
    assert!(matches!(step.outcome, ContentOutcome::Undecodable(_)));
    let step = p.on_packet(6, Timestamp(40), encode_fragment_content(0, 2, &[3]));
    assert_eq!(step.credit, Some(2));
    assert!(matches!(step.outcome, ContentOutcome::Chunk(Timestamp(20), ref b) if *b == vec![3, 4]));
}
