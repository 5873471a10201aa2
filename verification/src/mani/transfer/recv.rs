//! Receive-side decisions: credit return and the reliable stream's reorder step.

use vstd::prelude::*;

use crate::datagram::packet::{Packet, PacketView};
use crate::mani::transfer::assembler::{
    leading_payloads, spec_missing, spec_push, spec_receive, Assembler, AssemblerError,
    AssemblerView,
};
use crate::types::SequenceNumber;

verus! {

/// How far each sink has surfaced packets to the application, and which sinks
/// are still open.
#[derive(Debug, Clone, Copy, PartialEq, Eq, Structural)]
pub struct CoordState {
    pub reliable_drained: u64,
    pub unreliable_drained: u64,
    pub last_emitted: u64,
    pub has_reliable: bool,
    pub reliable_closed: bool,
    pub unreliable_closed: bool,
}

/// The number of packets that every open sink has drained; `None` once no sink is open.
/// The reliable sink counts only when the transfer has one.
pub open spec fn spec_effective(s: CoordState) -> Option<u64> {
    let r_active = s.has_reliable && !s.reliable_closed;
    let u_active = !s.unreliable_closed;
    if r_active && u_active {
        Some(if s.reliable_drained <= s.unreliable_drained {
            s.reliable_drained
        } else {
            s.unreliable_drained
        })
    } else if r_active {
        Some(s.reliable_drained)
    } else if u_active {
        Some(s.unreliable_drained)
    } else {
        None
    }
}

/// The drained count that credits follow (see [`spec_effective`]).
pub fn effective_count(s: &CoordState) -> (res: Option<u64>)
    ensures
        res == spec_effective(*s),
{
    let r_active = s.has_reliable && !s.reliable_closed;
    let u_active = !s.unreliable_closed;
    match (r_active, u_active) {
        (true, true) => Some(
            if s.reliable_drained <= s.unreliable_drained {
                s.reliable_drained
            } else {
                s.unreliable_drained
            },
        ),
        (true, false) => Some(s.reliable_drained),
        (false, true) => Some(s.unreliable_drained),
        (false, false) => None,
    }
}

/// The state after an emission check, and the credits to return (if any).
/// Credits are returned once `bulk` of them are pending, or whenever `force` is set;
/// never for nothing, and never once every sink is closed.
pub open spec fn spec_emit(s: CoordState, bulk: usize, force: bool) -> (CoordState, Option<usize>) {
    match spec_effective(s) {
        None => (s, None),
        Some(eff) => if eff <= s.last_emitted {
            (s, None)
        } else if !force && ((eff - s.last_emitted) as usize) < bulk {
            (s, None)
        } else {
            (CoordState { last_emitted: eff, ..s }, Some((eff - s.last_emitted) as usize))
        },
    }
}

/// `a + b`, or `u64::MAX` where that overflows.
pub open spec fn sat_add(a: u64, b: u64) -> u64 {
    if a + b > u64::MAX {
        u64::MAX
    } else {
        (a + b) as u64
    }
}

/// After the reliable sink surfaces `n` packets.
pub open spec fn spec_record_reliable(s: CoordState, bulk: usize, n: usize) -> (CoordState, Option<usize>) {
    if n == 0 {
        (s, None)
    } else {
        spec_emit(CoordState { reliable_drained: sat_add(s.reliable_drained, n as u64), ..s }, bulk, false)
    }
}

/// After the unreliable sink surfaces `n` packets.
pub open spec fn spec_record_unreliable(s: CoordState, bulk: usize, n: usize) -> (CoordState, Option<usize>) {
    if n == 0 {
        (s, None)
    } else {
        spec_emit(
            CoordState { unreliable_drained: sat_add(s.unreliable_drained, n as u64), ..s },
            bulk,
            false,
        )
    }
}

/// After the reliable sink closes: from then on credits follow the other sink alone,
/// and whatever that sink has drained is returned at once.
pub open spec fn spec_close_reliable(s: CoordState, bulk: usize) -> (CoordState, Option<usize>) {
    if s.reliable_closed {
        (s, None)
    } else {
        spec_emit(CoordState { reliable_closed: true, ..s }, bulk, true)
    }
}

/// After the unreliable sink closes.
pub open spec fn spec_close_unreliable(s: CoordState, bulk: usize) -> (CoordState, Option<usize>) {
    if s.unreliable_closed {
        (s, None)
    } else {
        spec_emit(CoordState { unreliable_closed: true, ..s }, bulk, true)
    }
}

/// Coordinates credit return so that credits track application drain: a credit goes
/// back to the sender only once every open sink has surfaced the corresponding packet.
/// Each operation returns the credits to send back, if any.
pub struct CreditCoordinator {
    bulk: usize,
    state: CoordState,
}

impl CreditCoordinator {
    /// The batch size at which credits are returned (at least 1).
    pub closed spec fn bulk(&self) -> usize {
        self.bulk
    }

    /// The counters.
    pub closed spec fn coord_state(&self) -> CoordState {
        self.state
    }

    /// A coordinator with nothing drained; a batch size of 0 counts as 1.
    pub fn new(bulk: usize, has_reliable: bool) -> (res: Self)
        ensures
            res.bulk() == if bulk >= 1 {
                bulk
            } else {
                1
            },
            res.coord_state() == (CoordState {
                reliable_drained: 0,
                unreliable_drained: 0,
                last_emitted: 0,
                has_reliable,
                reliable_closed: false,
                unreliable_closed: false,
            }),
    {
        Self {
            bulk: if bulk >= 1 {
                bulk
            } else {
                1
            },
            state: CoordState {
                reliable_drained: 0,
                unreliable_drained: 0,
                last_emitted: 0,
                has_reliable,
                reliable_closed: false,
                unreliable_closed: false,
            },
        }
    }

    /// The counters, by value.
    pub fn state(&self) -> (res: CoordState)
        ensures
            res == self.coord_state(),
    {
        self.state
    }

    /// Records that the reliable sink surfaced `n` packets.
    pub fn record_reliable(&mut self, n: usize) -> (res: Option<usize>)
        ensures
            final(self).bulk() == old(self).bulk(),
            (final(self).coord_state(), res) == spec_record_reliable(
                old(self).coord_state(),
                old(self).bulk(),
                n,
            ),
    {
        if n == 0 {
            return None;
        }
        self.state.reliable_drained = self.state.reliable_drained.saturating_add(n as u64);
        self.maybe_emit(false)
    }

    /// Records that the unreliable sink surfaced `n` packets.
    pub fn record_unreliable(&mut self, n: usize) -> (res: Option<usize>)
        ensures
            final(self).bulk() == old(self).bulk(),
            (final(self).coord_state(), res) == spec_record_unreliable(
                old(self).coord_state(),
                old(self).bulk(),
                n,
            ),
    {
        if n == 0 {
            return None;
        }
        self.state.unreliable_drained = self.state.unreliable_drained.saturating_add(n as u64);
        self.maybe_emit(false)
    }

    /// Records that the reliable sink closed.
    pub fn mark_reliable_closed(&mut self) -> (res: Option<usize>)
        ensures
            final(self).bulk() == old(self).bulk(),
            (final(self).coord_state(), res) == spec_close_reliable(
                old(self).coord_state(),
                old(self).bulk(),
            ),
    {
        if self.state.reliable_closed {
            return None;
        }
        self.state.reliable_closed = true;
        self.maybe_emit(true)
    }

    /// Records that the unreliable sink closed.
    pub fn mark_unreliable_closed(&mut self) -> (res: Option<usize>)
        ensures
            final(self).bulk() == old(self).bulk(),
            (final(self).coord_state(), res) == spec_close_unreliable(
                old(self).coord_state(),
                old(self).bulk(),
            ),
    {
        if self.state.unreliable_closed {
            return None;
        }
        self.state.unreliable_closed = true;
        self.maybe_emit(true)
    }

    fn maybe_emit(&mut self, force: bool) -> (res: Option<usize>)
        ensures
            final(self).bulk() == old(self).bulk(),
            (final(self).coord_state(), res) == spec_emit(
                old(self).coord_state(),
                old(self).bulk(),
                force,
            ),
    {
        let effective = match effective_count(&self.state) {
            Some(e) => e,
            None => {
                return None;
            },
        };
        if effective <= self.state.last_emitted {
            return None;
        }
        let pending = effective - self.state.last_emitted;
        if !force && (pending as usize) < self.bulk {
            return None;
        }
        self.state.last_emitted = effective;
        Some(pending as usize)
    }
}

/// What the reliable stream does with one arrived packet: the sequence numbers to
/// NACK (none when the window has no gap), and the packets now deliverable in order.
pub struct ReceiveStep {
    pub pushed: Result<(), AssemblerError>,
    pub nack: Vec<SequenceNumber>,
    pub ready: Vec<Packet>,
}

/// The ordering state of a reliable receive stream: the reorder window, the final
/// sequence number announced by the sender (if any), and whether end of stream was
/// already reported.
pub struct ReliableReceiver {
    assembler: Assembler,
    pending_end: Option<SequenceNumber>,
    closed_signaled: bool,
}

impl ReliableReceiver {
    /// The reorder window.
    pub closed spec fn window(&self) -> AssemblerView {
        self.assembler@
    }

    /// The final sequence number announced by the sender, if any.
    pub closed spec fn pending_end(&self) -> Option<SequenceNumber> {
        self.pending_end
    }

    /// Whether end of stream was already reported.
    pub closed spec fn eof_signaled(&self) -> bool {
        self.closed_signaled
    }

    /// The packets that `on_packet` takes: every packet whose distance from the cursor
    /// fits in memory (always so where `usize` has 64 bits).
    pub open spec fn accepts(&self, sequence_number: u32) -> bool {
        sequence_number - self.window().cursor < usize::MAX
    }

    /// A receiver with an empty window of capacity `max_retransmission_buffer_size`.
    pub fn new(max_retransmission_buffer_size: usize) -> (res: Self)
        ensures
            res.window().cursor == 0,
            res.window().slots == Seq::<Option<PacketView>>::empty(),
            res.window().max == max_retransmission_buffer_size,
            res.pending_end() is None,
            !res.eof_signaled(),
    {
        ReliableReceiver {
            assembler: Assembler::new(max_retransmission_buffer_size),
            pending_end: None,
            closed_signaled: false,
        }
    }

    /// Whether `on_packet` takes a packet with this sequence number (see `accepts`).
    pub fn can_accept(&self, sequence_number: SequenceNumber) -> (res: bool)
        ensures
            res == self.accepts(sequence_number.0),
    {
        let cursor = self.assembler.cursor().0;
        sequence_number.0 < cursor || ((sequence_number.0 - cursor) as u64) < (usize::MAX as u64)
    }

    /// Records the sender's announced final sequence number.
    pub fn on_end_transfer(&mut self, final_sequence_number: SequenceNumber)
        ensures
            final(self).pending_end() == Some(final_sequence_number),
            final(self).window() == old(self).window(),
            final(self).eof_signaled() == old(self).eof_signaled(),
    {
        self.pending_end = Some(final_sequence_number);
    }

    /// When an end was announced and every packet up to it was delivered (the cursor
    /// is past it), clears the announcement and returns `true`.
    pub fn take_reached_end(&mut self) -> (res: bool)
        ensures
            res == (old(self).pending_end() matches Some(f) && old(self).window().cursor > f.0),
            res ==> final(self).pending_end() is None,
            !res ==> final(self).pending_end() == old(self).pending_end(),
            final(self).window() == old(self).window(),
            final(self).eof_signaled() == old(self).eof_signaled(),
    {
        match self.pending_end {
            Some(final_seq) => {
                if self.assembler.cursor().0 > final_seq.0 {
                    self.pending_end = None;
                    true
                } else {
                    false
                }
            },
            None => false,
        }
    }

    /// Marks end of stream; returns `true` only the first time, when the credit
    /// coordinator must be told that this sink closed.
    pub fn signal_eof(&mut self) -> (first: bool)
        ensures
            first == !old(self).eof_signaled(),
            final(self).eof_signaled(),
            final(self).window() == old(self).window(),
            final(self).pending_end() == old(self).pending_end(),
    {
        if !self.closed_signaled {
            self.closed_signaled = true;
            true
        } else {
            false
        }
    }

    /// Handles an arrived packet: stores it in the window, then reports the gaps to NACK
    /// and hands out the packets that are now in order.
    pub fn on_packet(&mut self, packet: Packet) -> (step: ReceiveStep)
        requires
            old(self).accepts(packet.sequence_number.0),
        ensures
            ({
                let w = old(self).window();
                let pushed_slots = if w.slots.len() >= w.max {
                    w.slots
                } else {
                    spec_push(w.slots, w.cursor, packet.sequence_number.0, packet@)
                };
                &&& (step.pushed is Err <==> w.slots.len() >= w.max)
                &&& step.nack@ == spec_missing(pushed_slots, w.cursor)
                &&& step.ready@.len() == leading_payloads(pushed_slots)
                &&& forall|i: int|
                    0 <= i < step.ready@.len() ==> Some(#[trigger] step.ready@[i]@)
                        == pushed_slots[i]
                &&& final(self).window().slots == pushed_slots.skip(step.ready@.len() as int)
                &&& final(self).window().cursor == (w.cursor + step.ready@.len()) % 0x1_0000_0000
                &&& final(self).window().max == w.max
                &&& packet.sequence_number.0 < w.cursor ==> pushed_slots == w.slots
            }),
            final(self).window() == spec_receive(old(self).window(), packet@).0,
            step.ready@.map_values(|p: Packet| p@) == spec_receive(old(self).window(), packet@).1,
            final(self).pending_end() == old(self).pending_end(),
            final(self).eof_signaled() == old(self).eof_signaled(),
    {
        let ghost w = self.assembler@;
        let ghost pv = packet@;
        let sequence_number = packet.sequence_number;
        let pushed = self.assembler.push(sequence_number, packet);
        let nack = self.assembler.missing_sequence_numbers();
        let ready = self.assembler.read_ordered();
        proof {
            let pushed_slots = if w.slots.len() >= w.max {
                w.slots
            } else {
                spec_push(w.slots, w.cursor, sequence_number.0, pv)
            };
            let k = leading_payloads(pushed_slots);
            let handed = pushed_slots.take(k as int).map_values(|o: Option<PacketView>| o->0);
            assert(ready@.len() == k);
            assert forall|i: int| 0 <= i < ready@.len() implies ready@.map_values(|p: Packet| p@)[i]
                == handed[i] by {
                assert(Some(ready@[i]@) == pushed_slots[i]);
                assert(pushed_slots.take(k as int)[i] == pushed_slots[i]);
                assert(handed[i] == pushed_slots.take(k as int)[i]->0);
                assert(ready@.map_values(|p: Packet| p@)[i] == ready@[i]@);
            }
            assert(ready@.map_values(|p: Packet| p@) =~= handed);
        }
        ReceiveStep { pushed, nack, ready }
    }
}

/// The end-of-stream decisions of an unreliable receive stream: when it has ended,
/// and reporting that end to the credit coordinator exactly once.
pub struct UnreliableEnd {
    closed_signaled: bool,
}

impl UnreliableEnd {
    /// Whether end of stream was already reported.
    pub closed spec fn eof_signaled(&self) -> bool {
        self.closed_signaled
    }

    /// Nothing reported yet.
    pub fn new() -> (res: Self)
        ensures
            !res.eof_signaled(),
    {
        UnreliableEnd { closed_signaled: false }
    }

    /// The stream has ended once the sender announced its end and no packet is left
    /// queued (or the queue is already gone).
    pub fn is_drained(end_announced: bool, queue_empty: bool) -> (res: bool)
        ensures
            res == (end_announced && queue_empty),
    {
        end_announced && queue_empty
    }

    /// Marks end of stream; returns `true` only the first time, when the credit
    /// coordinator must be told that this sink closed.
    pub fn signal_eof(&mut self) -> (first: bool)
        ensures
            first == !old(self).eof_signaled(),
            final(self).eof_signaled(),
    {
        if !self.closed_signaled {
            self.closed_signaled = true;
            true
        } else {
            false
        }
    }

    /// Whether end of stream was already reported (a stream dropped before that
    /// still has to report the close).
    pub fn is_signaled(&self) -> (res: bool)
        ensures
            res == self.eof_signaled(),
    {
        self.closed_signaled
    }
}

/// Credits never run ahead of drain: the credits returned so far do not exceed
/// what every open sink has drained.
pub open spec fn credits_within_drain(s: CoordState) -> bool {
    spec_effective(s) matches Some(e) ==> s.last_emitted <= e
}

proof fn lemma_emit_keeps_within(s: CoordState, bulk: usize, force: bool)
    requires
        credits_within_drain(s),
    ensures
        credits_within_drain(spec_emit(s, bulk, force).0),
        spec_emit(s, bulk, force).0.last_emitted >= s.last_emitted,
        spec_emit(s, bulk, force).1 matches Some(c) ==> c == ((spec_emit(s, bulk, force).0.last_emitted
            - s.last_emitted) as usize) && spec_emit(s, bulk, force).0.last_emitted > s.last_emitted,
        spec_emit(s, bulk, force).1 is None ==> spec_emit(s, bulk, force).0 == s,
{
}

/// Every operation keeps credits within drain, never lowers the credits returned so
/// far, and returns exactly the increase of that total (nothing when it stays put).
pub proof fn lemma_credits_follow_drain(s: CoordState, bulk: usize, n: usize)
    requires
        credits_within_drain(s),
    ensures
        ({
            let (t, c) = spec_record_reliable(s, bulk, n);
            &&& credits_within_drain(t)
            &&& t.last_emitted >= s.last_emitted
            &&& c matches Some(k) ==> k == ((t.last_emitted - s.last_emitted) as usize)
            &&& c is None ==> t.last_emitted == s.last_emitted
        }),
        ({
            let (t, c) = spec_record_unreliable(s, bulk, n);
            &&& credits_within_drain(t)
            &&& t.last_emitted >= s.last_emitted
            &&& c matches Some(k) ==> k == ((t.last_emitted - s.last_emitted) as usize)
            &&& c is None ==> t.last_emitted == s.last_emitted
        }),
        ({
            let (t, c) = spec_close_reliable(s, bulk);
            &&& credits_within_drain(t)
            &&& t.last_emitted >= s.last_emitted
            &&& c matches Some(k) ==> k == ((t.last_emitted - s.last_emitted) as usize)
            &&& c is None ==> t.last_emitted == s.last_emitted
        }),
        ({
            let (t, c) = spec_close_unreliable(s, bulk);
            &&& credits_within_drain(t)
            &&& t.last_emitted >= s.last_emitted
            &&& c matches Some(k) ==> k == ((t.last_emitted - s.last_emitted) as usize)
            &&& c is None ==> t.last_emitted == s.last_emitted
        }),
{
    if n != 0 {
        let r = CoordState { reliable_drained: sat_add(s.reliable_drained, n as u64), ..s };
        let u = CoordState { unreliable_drained: sat_add(s.unreliable_drained, n as u64), ..s };
        lemma_emit_keeps_within(r, bulk, false);
        lemma_emit_keeps_within(u, bulk, false);
    }
    if !s.reliable_closed {
        lemma_emit_keeps_within(CoordState { reliable_closed: true, ..s }, bulk, true);
    }
    if !s.unreliable_closed {
        lemma_emit_keeps_within(CoordState { unreliable_closed: true, ..s }, bulk, true);
    }
}

/// One event reported to a [`CreditCoordinator`].
pub enum CreditEvent {
    ReliableDrained(usize),
    UnreliableDrained(usize),
    ReliableClosed,
    UnreliableClosed,
}

/// The coordinator's state after `e`, and the credits returned for it
/// (what `record_reliable`, `record_unreliable`, `mark_reliable_closed` and
/// `mark_unreliable_closed` do).
pub open spec fn spec_credit_step(s: CoordState, bulk: usize, e: CreditEvent) -> (CoordState, Option<usize>) {
    match e {
        CreditEvent::ReliableDrained(n) => spec_record_reliable(s, bulk, n),
        CreditEvent::UnreliableDrained(n) => spec_record_unreliable(s, bulk, n),
        CreditEvent::ReliableClosed => spec_close_reliable(s, bulk),
        CreditEvent::UnreliableClosed => spec_close_unreliable(s, bulk),
    }
}

/// The state after the events `es`, in order, and what each of them returned.
pub open spec fn spec_credit_run(s: CoordState, bulk: usize, es: Seq<CreditEvent>) -> (CoordState, Seq<
    Option<usize>,
>)
    decreases es.len(),
{
    if es.len() == 0 {
        (s, Seq::empty())
    } else {
        let (t, out) = spec_credit_run(s, bulk, es.drop_last());
        let (u, c) = spec_credit_step(t, bulk, es.last());
        (u, out.push(c))
    }
}

/// The packets that the reliable sink reported as surfaced in `es`.
pub open spec fn reliable_total(es: Seq<CreditEvent>) -> int
    decreases es.len(),
{
    if es.len() == 0 {
        0
    } else {
        reliable_total(es.drop_last()) + match es.last() {
            CreditEvent::ReliableDrained(n) => n as int,
            _ => 0,
        }
    }
}

/// The packets that the unreliable sink reported as surfaced in `es`.
pub open spec fn unreliable_total(es: Seq<CreditEvent>) -> int
    decreases es.len(),
{
    if es.len() == 0 {
        0
    } else {
        unreliable_total(es.drop_last()) + match es.last() {
            CreditEvent::UnreliableDrained(n) => n as int,
            _ => 0,
        }
    }
}

/// The credits returned in `out`, summed.
pub open spec fn credits_total(out: Seq<Option<usize>>) -> int
    decreases out.len(),
{
    if out.len() == 0 {
        0
    } else {
        credits_total(out.drop_last()) + match out.last() {
            Some(k) => k as int,
            None => 0,
        }
    }
}

/// Credits over any sequence of calls: the credits returned so far add up to how far
/// the returned total has moved (so it never goes down), never run ahead of what every
/// open sink has drained, each return is at least one credit, and a return that a
/// drain report triggered carries at least the batch size. The drained counters are the
/// sums of the reports. (The sums stay within `usize`, so nothing saturates.)
pub proof fn lemma_credits_over_run(s: CoordState, bulk: usize, es: Seq<CreditEvent>)
    requires
        credits_within_drain(s),
        bulk >= 1,
        s.reliable_drained + reliable_total(es) <= usize::MAX,
        s.unreliable_drained + unreliable_total(es) <= usize::MAX,
    ensures
        ({
            let (t, out) = spec_credit_run(s, bulk, es);
            &&& out.len() == es.len()
            &&& credits_within_drain(t)
            &&& t.last_emitted == s.last_emitted + credits_total(out)
            &&& t.last_emitted >= s.last_emitted
            &&& t.reliable_drained == s.reliable_drained + reliable_total(es)
            &&& t.unreliable_drained == s.unreliable_drained + unreliable_total(es)
            &&& t.has_reliable == s.has_reliable
            &&& forall|i: int|
                0 <= i < out.len() ==> (#[trigger] out[i] matches Some(k) ==> k >= 1 && ((es[i] is ReliableDrained
                    || es[i] is UnreliableDrained) ==> k >= bulk))
        }),
    decreases es.len(),
{
    if es.len() > 0 {
        let prev = es.drop_last();
        lemma_credits_over_run(s, bulk, prev);
        let (t, out) = spec_credit_run(s, bulk, prev);
        let e = es.last();
        let (u, c) = spec_credit_step(t, bulk, e);
        lemma_credits_follow_drain(t, bulk, match e {
            CreditEvent::ReliableDrained(n) => n,
            CreditEvent::UnreliableDrained(n) => n,
            _ => 0,
        });
        assert(u.reliable_drained <= usize::MAX && u.unreliable_drained <= usize::MAX);
        assert(spec_effective(u) matches Some(v) ==> v <= usize::MAX);
        if c is Some {
            assert(u.last_emitted - t.last_emitted <= usize::MAX);
        }
        assert(out.push(c).drop_last() =~= out);
        let out2 = out.push(c);
        assert forall|i: int| 0 <= i < out2.len() implies (#[trigger] out2[i] matches Some(k) ==> k >= 1
            && ((es[i] is ReliableDrained || es[i] is UnreliableDrained) ==> k >= bulk)) by {
            if i < out.len() {
                assert(out2[i] == out[i]);
                assert(es[i] == prev[i]);
            }
        }
    }
}

/// What the coordinator's docs promise of a transfer from its start: the credits
/// returned in total equal the returned counter; while both sinks of a transfer with a
/// reliable sink are open they are at most what each sink has drained; while only the
/// unreliable sink counts (there is no reliable sink, or it closed) they are at most
/// what the unreliable sink has drained.
pub proof fn lemma_credits_never_exceed_drain(has_reliable: bool, bulk: usize, es: Seq<CreditEvent>)
    requires
        bulk >= 1,
        reliable_total(es) <= usize::MAX,
        unreliable_total(es) <= usize::MAX,
    ensures
        ({
            let s0 = CoordState {
                reliable_drained: 0,
                unreliable_drained: 0,
                last_emitted: 0,
                has_reliable,
                reliable_closed: false,
                unreliable_closed: false,
            };
            let (t, out) = spec_credit_run(s0, bulk, es);
            let total = credits_total(out);
            &&& total == t.last_emitted
            &&& has_reliable && !t.reliable_closed && !t.unreliable_closed ==> total <= reliable_total(es)
                && total <= unreliable_total(es)
            &&& !t.unreliable_closed && (!has_reliable || t.reliable_closed) ==> total
                <= unreliable_total(es)
        }),
{
    let s0 = CoordState {
        reliable_drained: 0,
        unreliable_drained: 0,
        last_emitted: 0,
        has_reliable,
        reliable_closed: false,
        unreliable_closed: false,
    };
    lemma_credits_over_run(s0, bulk, es);
}

/// When credits are returned: whenever the count that every open sink has drained
/// has moved at least `bulk` past what was already returned (or by any amount when
/// forced), the whole difference is returned at once and recorded; otherwise nothing
/// is returned and nothing changes.
pub proof fn lemma_emit_returns_pending(s: CoordState, bulk: usize, force: bool)
    ensures
        ({
            let (t, c) = spec_emit(s, bulk, force);
            match spec_effective(s) {
                Some(e) => if e > s.last_emitted && (force || e - s.last_emitted >= bulk) && e
                    - s.last_emitted <= usize::MAX {
                    &&& c == Some((e - s.last_emitted) as usize)
                    &&& t == CoordState { last_emitted: e, ..s }
                } else if e <= s.last_emitted || (!force && e - s.last_emitted < bulk) {
                    c is None && t == s
                } else {
                    // A difference beyond `usize` (possible only where it has 32 bits).
                    true
                },
                None => c is None && t == s,
            }
        }),
{
}

/// When one sink closes while the other stays open, everything the open sink has
/// drained is credited at once; once both are closed nothing more is returned.
pub proof fn lemma_close_flushes(s: CoordState, bulk: usize)
    requires
        credits_within_drain(s),
    ensures
        !s.reliable_closed ==> (spec_effective(spec_close_reliable(s, bulk).0) matches Some(e)
            ==> spec_close_reliable(s, bulk).0.last_emitted == e),
        !s.unreliable_closed ==> (spec_effective(spec_close_unreliable(s, bulk).0) matches Some(e)
            ==> spec_close_unreliable(s, bulk).0.last_emitted == e),
        s.reliable_closed && s.unreliable_closed ==> spec_record_reliable(s, bulk, 1).1 is None
            && spec_record_unreliable(s, bulk, 1).1 is None,
{
    lemma_credits_follow_drain(s, bulk, 1);
}

/// In a transfer without a reliable sink, credits follow the unreliable sink alone.
pub proof fn lemma_unreliable_only(s: CoordState)
    requires
        !s.has_reliable,
        !s.unreliable_closed,
    ensures
        spec_effective(s) == Some(s.unreliable_drained),
{
}

} // verus!
