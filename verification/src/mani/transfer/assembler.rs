//! Reorders the packets of a reliable stream and reports the gaps.

use std::collections::VecDeque;
use vstd::prelude::*;

use crate::datagram::packet::{Packet, PacketView};
use crate::types::{wrap_add, SequenceNumber};

verus! {

/// Error returned by [`Assembler::push`].
#[derive(Debug, Clone, Copy, PartialEq, Eq, Structural)]
pub enum AssemblerError {
    RetransmissionBufferOverflow,
}

enum AssemblerPacket {
    Payload(Packet),
    Missing,
}

/// What one slot of the window holds: `Some` packet, or `None` while it is missing.
closed spec fn slot_view(a: AssemblerPacket) -> Option<PacketView> {
    match a {
        AssemblerPacket::Payload(p) => Some(p@),
        AssemblerPacket::Missing => None,
    }
}

/// The reorder window itself: its operations require, and keep, that it fits below
/// 2^32 sequence numbers; [`Assembler`] holds one with that as its type invariant.
struct Window {
    cursor: SequenceNumber,
    packets: VecDeque<AssemblerPacket>,
    max_retransmission_buffer_size: usize,
}

/// The mathematical value of an [`Assembler`]: its cursor, its slots and its capacity.
pub struct AssemblerView {
    pub cursor: u32,
    pub slots: Seq<Option<PacketView>>,
    pub max: usize,
}

impl View for Window {
    type V = AssemblerView;

    closed spec fn view(&self) -> AssemblerView {
        AssemblerView {
            cursor: self.cursor.0,
            slots: self.packets@.map_values(|a: AssemblerPacket| slot_view(a)),
            max: self.max_retransmission_buffer_size,
        }
    }
}

/// The window never reaches past the largest sequence number.
pub open spec fn window_fits(v: AssemblerView) -> bool {
    v.cursor + v.slots.len() <= 0x1_0000_0000
}

/// The window after `p` arrives with sequence number `seq`: a packet before the
/// cursor was already delivered and changes nothing; inside the window it fills its
/// slot if that slot was missing and changes nothing otherwise; beyond the window, the
/// slots in between are added as missing and `p` takes the slot of `seq`.
pub open spec fn spec_push(slots: Seq<Option<PacketView>>, cursor: u32, seq: u32, p: PacketView) -> Seq<
    Option<PacketView>,
> {
    let off = seq - cursor;
    if seq < cursor {
        slots
    } else if off < slots.len() {
        if slots[off] is None {
            slots.update(off, Some(p))
        } else {
            slots
        }
    } else {
        slots + Seq::new((off - slots.len()) as nat, |i: int| None::<PacketView>) + seq![Some(p)]
    }
}

/// The number of packets at the front of the window that have arrived.
pub open spec fn leading_payloads(slots: Seq<Option<PacketView>>) -> nat
    decreases slots.len(),
{
    if slots.len() == 0 || slots[0] is None {
        0
    } else {
        1 + leading_payloads(slots.drop_first())
    }
}

/// The sequence numbers of the missing slots, in window order.
pub open spec fn spec_missing(slots: Seq<Option<PacketView>>, cursor: u32) -> Seq<SequenceNumber>
    decreases slots.len(),
{
    if slots.len() == 0 {
        Seq::empty()
    } else {
        let prev = spec_missing(slots.drop_last(), cursor);
        if slots.last() is None {
            prev.push(SequenceNumber(wrap_add(cursor, (slots.len() - 1) as u32)))
        } else {
            prev
        }
    }
}

/// Every packet in the window sits in the slot of its own sequence number.
pub open spec fn labelled(slots: Seq<Option<PacketView>>, cursor: u32) -> bool {
    forall|i: int|
        0 <= i < slots.len() && #[trigger] slots[i] is Some ==> slots[i]->0.sequence_number
            == cursor + i
}

/// A packet pushed under its own sequence number keeps every packet of the window
/// in the slot of its own sequence number.
pub proof fn lemma_push_keeps_packets_in_place(
    slots: Seq<Option<PacketView>>,
    cursor: u32,
    seq: u32,
    p: PacketView,
)
    requires
        labelled(slots, cursor),
        p.sequence_number == seq,
    ensures
        labelled(spec_push(slots, cursor, seq, p), cursor),
{
    let r = spec_push(slots, cursor, seq, p);
    assert forall|i: int| 0 <= i < r.len() && #[trigger] r[i] is Some implies r[i]->0.sequence_number
        == cursor + i by {
        if i < slots.len() {
            if seq - cursor < slots.len() {
            } else {
                assert(r[i] == slots[i]);
            }
        }
    }
}

/// A retransmitted packet changes nothing when its sequence number was already
/// delivered (it lies before the cursor) or its slot is already filled.
pub proof fn lemma_push_duplicate_ignored(
    slots: Seq<Option<PacketView>>,
    cursor: u32,
    seq: u32,
    p: PacketView,
)
    requires
        seq < cursor || (seq < cursor + slots.len() && slots[seq - cursor] is Some),
    ensures
        spec_push(slots, cursor, seq, p) == slots,
{
}

/// Ordered delivery: when every packet sits in the slot of its sequence number, the
/// packets that `read_ordered` hands out carry the consecutive sequence numbers
/// `cursor, cursor + 1, ...`, and the rest of the window stays in place behind the new cursor.
pub proof fn lemma_delivery_in_order(slots: Seq<Option<PacketView>>, cursor: u32)
    requires
        labelled(slots, cursor),
        cursor + slots.len() <= 0x1_0000_0000,
    ensures
        forall|i: int|
            0 <= i < leading_payloads(slots) ==> #[trigger] slots[i] is Some && slots[i]->0.sequence_number
                == cursor + i,
        leading_payloads(slots) < slots.len() ==> labelled(
            slots.skip(leading_payloads(slots) as int),
            (cursor + leading_payloads(slots)) as u32,
        ),
{
    lemma_leading_bound(slots);
    let k = leading_payloads(slots);
    let rest = slots.skip(k as int);
    if k < slots.len() {
        assert forall|i: int| 0 <= i < rest.len() && #[trigger] rest[i] is Some implies rest[i]->0.sequence_number
            == ((cursor + k) as u32) + i by {
            assert(rest[i] == slots[k + i]);
        }
    }
}

/// After `read_ordered`, the front of the window is a gap (or the window is empty),
/// so reading again at once hands out nothing.
pub proof fn lemma_read_ordered_drains_front(slots: Seq<Option<PacketView>>)
    ensures
        leading_payloads(slots.skip(leading_payloads(slots) as int)) == 0,
{
    lemma_leading_bound(slots);
    let k = leading_payloads(slots);
    if k < slots.len() {
        assert(slots.skip(k as int)[0] == slots[k as int]);
    }
}

/// The reported sequence numbers are exactly those of the window's missing slots.
pub proof fn lemma_missing_are_gaps(slots: Seq<Option<PacketView>>, cursor: u32)
    requires
        cursor + slots.len() <= 0x1_0000_0000,
    ensures
        spec_missing(slots, cursor).len() <= slots.len(),
        forall|i: int|
            0 <= i < slots.len() ==> (#[trigger] slots[i] is None <==> spec_missing(
                slots,
                cursor,
            ).contains(SequenceNumber((cursor + i) as u32))),
        forall|j: int|
            0 <= j < spec_missing(slots, cursor).len() ==> cursor <= #[trigger] spec_missing(
                slots,
                cursor,
            )[j].0 < cursor + slots.len(),
    decreases slots.len(),
{
    if slots.len() > 0 {
        let prev = slots.drop_last();
        lemma_missing_are_gaps(prev, cursor);
        let m = spec_missing(slots, cursor);
        let pm = spec_missing(prev, cursor);
        let n = slots.len() - 1;
        assert forall|i: int| 0 <= i < slots.len() implies (#[trigger] slots[i] is None <==> m.contains(
            SequenceNumber((cursor + i) as u32),
        )) by {
            if i < n {
                assert(slots[i] == prev[i]);
                if slots.last() is None {
                    if m.contains(SequenceNumber((cursor + i) as u32)) {
                        let j = choose|j: int|
                            0 <= j < m.len() && m[j] == SequenceNumber((cursor + i) as u32);
                        if j < pm.len() {
                            assert(pm.contains(SequenceNumber((cursor + i) as u32)));
                        }
                    }
                    if pm.contains(SequenceNumber((cursor + i) as u32)) {
                        let j = choose|j: int|
                            0 <= j < pm.len() && pm[j] == SequenceNumber((cursor + i) as u32);
                        assert(m[j] == pm[j]);
                    }
                }
            } else {
                if slots.last() is None {
                    assert(m[m.len() - 1] == SequenceNumber((cursor + i) as u32));
                } else {
                    if m.contains(SequenceNumber((cursor + i) as u32)) {
                        let j = choose|j: int|
                            0 <= j < m.len() && m[j] == SequenceNumber((cursor + i) as u32);
                        assert(cursor <= pm[j].0 < cursor + prev.len());
                    }
                }
            }
        }
    }
}

/// The reported numbers come in window order, each once: they strictly increase.
/// With [`lemma_missing_are_gaps`] this makes the `j`-th reported number that of the
/// `j`-th missing slot.
pub proof fn lemma_missing_increasing(slots: Seq<Option<PacketView>>, cursor: u32)
    requires
        cursor + slots.len() <= 0x1_0000_0000,
    ensures
        forall|j: int, k: int|
            0 <= j < k < spec_missing(slots, cursor).len() ==> (#[trigger] spec_missing(
                slots,
                cursor,
            )[j]).0 < (#[trigger] spec_missing(slots, cursor)[k]).0,
    decreases slots.len(),
{
    if slots.len() > 0 {
        let prev = slots.drop_last();
        lemma_missing_increasing(prev, cursor);
        lemma_missing_are_gaps(prev, cursor);
        let m = spec_missing(slots, cursor);
        let pm = spec_missing(prev, cursor);
        if slots.last() is None {
            let n = slots.len() - 1;
            assert(m[m.len() - 1].0 == cursor + n);
            assert forall|j: int, k: int| 0 <= j < k < m.len() implies (#[trigger] m[j]).0 < (
            #[trigger] m[k]).0 by {
                assert(m[j] == pm[j]);
                if k < pm.len() {
                    assert(m[k] == pm[k]);
                }
            }
        }
    }
}

proof fn lemma_leading_bound(slots: Seq<Option<PacketView>>)
    ensures
        leading_payloads(slots) <= slots.len(),
        forall|i: int| 0 <= i < leading_payloads(slots) ==> slots[i] is Some,
        leading_payloads(slots) < slots.len() ==> slots[leading_payloads(slots) as int] is None,
    decreases slots.len(),
{
    if slots.len() > 0 && slots[0] is Some {
        lemma_leading_bound(slots.drop_first());
        assert forall|i: int| 0 <= i < leading_payloads(slots) implies slots[i] is Some by {
            if i > 0 {
                assert(slots[i] == slots.drop_first()[i - 1]);
            }
        }
    }
}

/// What one arrived packet does to the window of a reliable stream: it is pushed
/// (unless the window is full), then the packets now in order are handed out and the
/// cursor moves past them. Returns the new window and the packets handed out.
pub open spec fn spec_receive(w: AssemblerView, p: PacketView) -> (AssemblerView, Seq<PacketView>) {
    let pushed = if w.slots.len() >= w.max {
        w.slots
    } else {
        spec_push(w.slots, w.cursor, p.sequence_number, p)
    };
    let k = leading_payloads(pushed);
    (
        AssemblerView {
            cursor: ((w.cursor + k) % 0x1_0000_0000) as u32,
            slots: pushed.skip(k as int),
            max: w.max,
        },
        pushed.take(k as int).map_values(|o: Option<PacketView>| o->0),
    )
}

/// A run of arrived packets, in arrival order: the window after the last one, and all
/// the packets handed out, in the order they were handed out.
pub open spec fn spec_receive_all(w: AssemblerView, ps: Seq<PacketView>) -> (AssemblerView, Seq<PacketView>)
    decreases ps.len(),
{
    if ps.len() == 0 {
        (w, Seq::empty())
    } else {
        let (w1, d1) = spec_receive_all(w, ps.drop_last());
        let (w2, d2) = spec_receive(w1, ps.last());
        (w2, d1 + d2)
    }
}

/// What holds of a stream that started empty at `c` after the packets `ps` arrived and
/// `d` was handed out: `d` carries `c, c + 1, ...`; every packet held or handed out is
/// one that arrived; each arrived number not yet handed out has its slot filled; the
/// window stays inside `c .. c + n` and its front is a gap.
spec fn stream_state(
    c: u32,
    n: nat,
    max: usize,
    ps: Seq<PacketView>,
    w: AssemblerView,
    d: Seq<PacketView>,
) -> bool {
    &&& w.max == max
    &&& w.cursor == c + d.len()
    &&& w.cursor + w.slots.len() <= c + n
    &&& labelled(w.slots, w.cursor)
    &&& leading_payloads(w.slots) == 0
    &&& forall|i: int| 0 <= i < d.len() ==> #[trigger] d[i].sequence_number == c + i
    &&& forall|i: int| 0 <= i < d.len() ==> ps.contains(#[trigger] d[i])
    &&& forall|i: int|
        0 <= i < w.slots.len() && #[trigger] w.slots[i] is Some ==> ps.contains(w.slots[i]->0)
    &&& forall|j: int|
        0 <= j < ps.len() && #[trigger] ps[j].sequence_number >= w.cursor ==> {
            &&& ps[j].sequence_number - w.cursor < w.slots.len()
            &&& w.slots[ps[j].sequence_number - w.cursor] is Some
        }
}

/// What a push does to the slots: it keeps every filled slot, gives `p` its slot
/// when `p` lies at or after the cursor, fills no other slot, and reaches no further
/// than the slot of `p`.
proof fn lemma_push_shape(slots: Seq<Option<PacketView>>, cursor: u32, p: PacketView)
    ensures
        ({
            let r = spec_push(slots, cursor, p.sequence_number, p);
            &&& r.len() >= slots.len()
            &&& r.len() == slots.len() || r.len() == p.sequence_number - cursor + 1
            &&& forall|i: int| 0 <= i < slots.len() && #[trigger] slots[i] is Some ==> r[i] == slots[i]
            &&& p.sequence_number >= cursor ==> p.sequence_number - cursor < r.len() && r[p.sequence_number
                - cursor] is Some
            &&& forall|i: int|
                0 <= i < r.len() && #[trigger] r[i] is Some ==> (i < slots.len() && r[i] == slots[i])
                    || r[i] == Some(p)
        }),
{
}

/// One arrived packet keeps [`stream_state`].
proof fn lemma_receive_keeps_stream_state(
    c: u32,
    n: nat,
    max: usize,
    ps: Seq<PacketView>,
    w: AssemblerView,
    d: Seq<PacketView>,
    p: PacketView,
)
    requires
        stream_state(c, n, max, ps, w, d),
        n < max,
        c + n < 0x1_0000_0000,
        c <= p.sequence_number < c + n,
    ensures
        stream_state(c, n, max, ps.push(p), spec_receive(w, p).0, d + spec_receive(w, p).1),
{
    let pushed = spec_push(w.slots, w.cursor, p.sequence_number, p);
    let k = leading_payloads(pushed);
    let (w2, d2) = spec_receive(w, p);
    let ps2 = ps.push(p);
    let dd = d + d2;
    assert(w.slots.len() < w.max);
    lemma_push_shape(w.slots, w.cursor, p);
    lemma_push_keeps_packets_in_place(w.slots, w.cursor, p.sequence_number, p);
    lemma_leading_bound(pushed);
    lemma_delivery_in_order(pushed, w.cursor);
    lemma_read_ordered_drains_front(pushed);
    assert(w.cursor + pushed.len() <= c + n);
    assert(w2.cursor == w.cursor + k);
    assert(w2.slots == pushed.skip(k as int));
    if k == pushed.len() {
        assert(labelled(w2.slots, w2.cursor));
    }
    assert forall|i: int| 0 <= i < dd.len() implies #[trigger] dd[i].sequence_number == c + i by {
        if i >= d.len() {
            assert(dd[i] == pushed[i - d.len()]->0);
        }
    }
    assert forall|i: int| 0 <= i < dd.len() implies ps2.contains(#[trigger] dd[i]) by {
        if i < d.len() {
            assert(dd[i] == d[i]);
            let j = choose|j: int| 0 <= j < ps.len() && ps[j] == d[i];
            assert(ps2[j] == ps[j]);
        } else {
            let x = i - d.len();
            assert(dd[i] == pushed[x]->0);
            assert(pushed[x] is Some);
            if x < w.slots.len() && pushed[x] == w.slots[x] {
                let j = choose|j: int| 0 <= j < ps.len() && ps[j] == w.slots[x]->0;
                assert(ps2[j] == ps[j]);
            } else {
                assert(ps2[ps.len() as int] == p);
            }
        }
    }
    assert forall|i: int|
        0 <= i < w2.slots.len() && #[trigger] w2.slots[i] is Some implies ps2.contains(
        w2.slots[i]->0,
    ) by {
        let x = i + k;
        assert(w2.slots[i] == pushed[x]);
        if x < w.slots.len() && pushed[x] == w.slots[x] {
            let j = choose|j: int| 0 <= j < ps.len() && ps[j] == w.slots[x]->0;
            assert(ps2[j] == ps[j]);
        } else {
            assert(ps2[ps.len() as int] == p);
        }
    }
    assert forall|j: int|
        0 <= j < ps2.len() && #[trigger] ps2[j].sequence_number >= w2.cursor implies {
        &&& ps2[j].sequence_number - w2.cursor < w2.slots.len()
        &&& w2.slots[ps2[j].sequence_number - w2.cursor] is Some
    } by {
        let s = ps2[j].sequence_number;
        if j < ps.len() {
            assert(ps2[j] == ps[j]);
            assert(w.slots[s - w.cursor] is Some);
        }
        assert(w2.slots[s - w2.cursor] == pushed[s - w.cursor]);
    }
}

/// [`stream_state`] holds after every run of arrived packets of the stream.
proof fn lemma_receive_all_stream_state(c: u32, n: nat, max: usize, ps: Seq<PacketView>)
    requires
        n < max,
        c + n < 0x1_0000_0000,
        forall|j: int| 0 <= j < ps.len() ==> c <= #[trigger] ps[j].sequence_number < c + n,
    ensures
        stream_state(
            c,
            n,
            max,
            ps,
            spec_receive_all(AssemblerView { cursor: c, slots: Seq::empty(), max }, ps).0,
            spec_receive_all(AssemblerView { cursor: c, slots: Seq::empty(), max }, ps).1,
        ),
    decreases ps.len(),
{
    let w0 = AssemblerView { cursor: c, slots: Seq::empty(), max };
    if ps.len() > 0 {
        let prev = ps.drop_last();
        assert forall|j: int| 0 <= j < prev.len() implies c <= #[trigger] prev[j].sequence_number < c
            + n by {
            assert(prev[j] == ps[j]);
        }
        lemma_receive_all_stream_state(c, n, max, prev);
        let (w1, d1) = spec_receive_all(w0, prev);
        assert(ps[ps.len() - 1] == ps.last());
        lemma_receive_keeps_stream_state(c, n, max, prev, w1, d1, ps.last());
        assert(prev.push(ps.last()) =~= ps);
    } else {
        assert(leading_payloads(w0.slots) == 0);
    }
}

/// Whether a packet with sequence number `s` is among `ps`.
pub open spec fn has_arrived(ps: Seq<PacketView>, s: int) -> bool {
    exists|j: int| 0 <= j < ps.len() && #[trigger] ps[j].sequence_number == s
}

/// Reliable, ordered delivery over a whole stream. Start from an empty window at
/// `cursor` and let packets of the stream `cursor .. cursor + n` arrive in any order and
/// any number of times, retransmissions of numbers already delivered among them. The
/// packets handed out carry the numbers `cursor, cursor + 1, ...`, each once and in that
/// order; each is one of the packets that arrived; and once every number of the stream
/// has arrived, all `n` have been handed out. This holds while the window's capacity
/// exceeds `n` (no packet is refused) and the numbers stay below 2^32.
pub proof fn lemma_stream_delivered_once_in_order(cursor: u32, max: usize, n: nat, ps: Seq<PacketView>)
    requires
        n < max,
        cursor + n < 0x1_0000_0000,
        forall|j: int| 0 <= j < ps.len() ==> cursor <= #[trigger] ps[j].sequence_number < cursor + n,
    ensures
        ({
            let (w, d) = spec_receive_all(AssemblerView { cursor, slots: Seq::empty(), max }, ps);
            &&& forall|i: int| 0 <= i < d.len() ==> #[trigger] d[i].sequence_number == cursor + i
            &&& forall|i: int| 0 <= i < d.len() ==> ps.contains(#[trigger] d[i])
            &&& w.cursor == cursor + d.len()
            &&& d.len() <= n
            &&& (forall|s: int| cursor <= s < cursor + n ==> #[trigger] has_arrived(ps, s)) ==> d.len()
                == n
        }),
{
    lemma_receive_all_stream_state(cursor, n, max, ps);
    let (w, d) = spec_receive_all(AssemblerView { cursor, slots: Seq::empty(), max }, ps);
    if (forall|s: int| cursor <= s < cursor + n ==> #[trigger] has_arrived(ps, s)) && d.len() < n {
        let s = w.cursor as int;
        assert(has_arrived(ps, s));
        let j = choose|j: int| 0 <= j < ps.len() && #[trigger] ps[j].sequence_number == s;
        assert(w.slots[0] is Some);
        assert(leading_payloads(w.slots) >= 1);
    }
}

impl Window {
    /// The window's invariant: it fits below 2^32 sequence numbers.
    spec fn wf(&self) -> bool {
        window_fits(self@)
    }

    /// An empty window at sequence number 0.
    fn new(max_retransmission_buffer_size: usize) -> (res: Self)
        ensures
            res.wf(),
            res@.cursor == 0,
            res@.slots == Seq::<Option<PacketView>>::empty(),
            res@.max == max_retransmission_buffer_size,
    {
        let res = Self {
            cursor: SequenceNumber(0),
            packets: VecDeque::with_capacity(max_retransmission_buffer_size),
            max_retransmission_buffer_size,
        };
        assert(res@.slots =~= Seq::<Option<PacketView>>::empty());
        res
    }

    /// Stores `payload` as the packet with sequence number `sequence_number`.
    /// When the window already holds `max` slots the packet is refused; a packet
    /// before the cursor was already delivered and is ignored.
    fn push(&mut self, sequence_number: SequenceNumber, payload: Packet) -> (res: Result<
        (),
        AssemblerError,
    >)
        requires
            old(self).wf(),
            sequence_number.0 - old(self)@.cursor < usize::MAX,
        ensures
            final(self).wf(),
            final(self)@.cursor == old(self)@.cursor,
            final(self)@.max == old(self)@.max,
            old(self)@.slots.len() >= old(self)@.max ==> {
                &&& res == Err::<(), AssemblerError>(AssemblerError::RetransmissionBufferOverflow)
                &&& final(self)@ == old(self)@
            },
            old(self)@.slots.len() < old(self)@.max ==> {
                &&& res is Ok
                &&& final(self)@.slots == spec_push(
                    old(self)@.slots,
                    old(self)@.cursor,
                    sequence_number.0,
                    payload@,
                )
            },
            old(self)@.slots.len() < old(self)@.max && sequence_number.0 < old(self)@.cursor ==> {
                &&& res is Ok
                &&& final(self)@ == old(self)@
            },
    {
        if self.packets.len() >= self.max_retransmission_buffer_size {
            return Err(AssemblerError::RetransmissionBufferOverflow);
        }
        if sequence_number.0 < self.cursor.0 {
            return Ok(());
        }
        let ghost old_slots = self@.slots;
        let ghost pv = payload@;
        match self.index(sequence_number) {
            Some(index) => {
                let is_missing = match &self.packets[index] {
                    AssemblerPacket::Missing => true,
                    AssemblerPacket::Payload(_) => false,
                };
                if is_missing {
                    let _ = self.packets.remove(index);
                    self.packets.insert(index, AssemblerPacket::Payload(payload));
                    assert(self@.slots =~= old_slots.update(index as int, Some(pv)));
                }
            },
            None => {
                let offset = (sequence_number.0 - self.cursor.0) as usize;
                let missing_packets = offset - self.packets.len();
                let ghost base = self.packets@;
                let mut i: usize = 0;
                while i < missing_packets
                    invariant
                        0 <= i <= missing_packets,
                        self.packets@.len() == base.len() + i,
                        self.packets@.subrange(0, base.len() as int) == base,
                        forall|j: int|
                            base.len() <= j < self.packets@.len() ==> self.packets@[j]
                                is Missing,
                        self.cursor == old(self).cursor,
                        self.max_retransmission_buffer_size == old(
                            self,
                        ).max_retransmission_buffer_size,
                    decreases missing_packets - i,
                {
                    let ghost before = self.packets@;
                    self.packets.push_back(AssemblerPacket::Missing);
                    assert(self.packets@.subrange(0, base.len() as int) =~= before.subrange(
                        0,
                        base.len() as int,
                    ));
                    i = i + 1;
                }
                self.packets.push_back(AssemblerPacket::Payload(payload));
                let ghost target = spec_push(old_slots, old(self)@.cursor, sequence_number.0, pv);
                assert(self@.slots.len() == target.len());
                assert forall|j: int| 0 <= j < target.len() implies self@.slots[j] == target[j] by {
                    if j < base.len() {
                        assert(self.packets@.subrange(0, base.len() as int)[j] == base[j]);
                    }
                }
                assert(self@.slots =~= target);
            },
        }
        Ok(())
    }

    /// Removes and returns the packets at the front of the window that have arrived,
    /// in order, advancing the cursor past them.
    fn read_ordered(&mut self) -> (payloads: Vec<Packet>)
        requires
            old(self).wf(),
        ensures
            final(self).wf(),
            payloads@.len() == leading_payloads(old(self)@.slots),
            payloads@.len() <= old(self)@.slots.len(),
            forall|i: int|
                0 <= i < payloads@.len() ==> Some(#[trigger] payloads@[i]@) == old(self)@.slots[i],
            final(self)@.slots == old(self)@.slots.skip(payloads@.len() as int),
            final(self)@.cursor == (old(self)@.cursor + payloads@.len()) % 0x1_0000_0000,
            final(self)@.max == old(self)@.max,
    {
        let ghost s0 = self@.slots;
        let ghost c0 = self.cursor.0;
        proof {
            lemma_leading_bound(s0);
        }
        let mut payloads: Vec<Packet> = Vec::new();
        loop
            invariant
                s0 == old(self)@.slots,
                c0 == old(self)@.cursor,
                window_fits(old(self)@),
                payloads@.len() <= leading_payloads(s0),
                leading_payloads(s0) <= s0.len(),
                forall|i: int| 0 <= i < leading_payloads(s0) ==> s0[i] is Some,
                leading_payloads(s0) < s0.len() ==> s0[leading_payloads(s0) as int] is None,
                forall|i: int| 0 <= i < payloads@.len() ==> Some(#[trigger] payloads@[i]@) == s0[i],
                self@.slots == s0.skip(payloads@.len() as int),
                self.cursor.0 == c0 + payloads@.len(),
                self.max_retransmission_buffer_size == old(self).max_retransmission_buffer_size,
            ensures
                payloads@.len() == leading_payloads(s0),
                forall|i: int| 0 <= i < payloads@.len() ==> Some(#[trigger] payloads@[i]@) == s0[i],
                self@.slots == s0.skip(payloads@.len() as int),
                self.cursor.0 == (c0 + payloads@.len()) % 0x1_0000_0000,
                self.max_retransmission_buffer_size == old(self).max_retransmission_buffer_size,
            decreases s0.len() - payloads@.len(),
        {
            let ghost before = self.packets@;
            let ghost k = payloads@.len();
            let ghost cur = self@.slots;
            assert(cur.len() == s0.len() - k);
            match self.packets.pop_front() {
                Some(AssemblerPacket::Payload(p)) => {
                    assert(cur[0] == slot_view(before[0]));
                    assert(s0.skip(k as int)[0] == s0[k as int]);
                    assert(self@.slots.len() == s0.skip((k + 1) as int).len());
                    assert forall|j: int| 0 <= j < self@.slots.len() implies self@.slots[j] == s0.skip(
                        (k + 1) as int,
                    )[j] by {
                        assert(self.packets@[j] == before[j + 1]);
                        assert(cur[j + 1] == slot_view(before[j + 1]));
                        assert(cur[j + 1] == s0[k + 1 + j]);
                    }
                    assert(self@.slots =~= s0.skip((k + 1) as int));
                    payloads.push(p);
                    assert(c0 + k + 1 < 0x1_0000_0000 || k + 1 == s0.len());
                    if self.cursor.0 == 0xffff_ffffu32 {
                        self.cursor = self.cursor + SequenceNumber(1);
                        assert(self@.slots.len() == 0);
                        assert(k + 1 == s0.len());
                        return payloads;
                    }
                    self.cursor = self.cursor + SequenceNumber(1);
                },
                Some(AssemblerPacket::Missing) => {
                    assert(cur[0] == slot_view(before[0]));
                    assert(s0.skip(k as int)[0] == s0[k as int]);
                    self.packets.push_front(AssemblerPacket::Missing);
                    assert(self.packets@ =~= before);
                    break;
                },
                None => {
                    break;
                },
            }
        }
        payloads
    }

    /// The sequence numbers of the packets that are still missing, in increasing order.
    fn missing_sequence_numbers(&self) -> (res: Vec<SequenceNumber>)
        requires
            self.wf(),
        ensures
            res@ == spec_missing(self@.slots, self@.cursor),
    {
        let mut res: Vec<SequenceNumber> = Vec::new();
        let n = self.packets.len();
        let mut i: usize = 0;
        while i < n
            invariant
                n == self@.slots.len(),
                0 <= i <= n,
                window_fits(self@),
                res@ == spec_missing(self@.slots.take(i as int), self@.cursor),
            decreases n - i,
        {
            let ghost slots = self@.slots;
            assert(slots.take(i + 1).drop_last() =~= slots.take(i as int));
            assert(slots.take(i + 1).last() == slots[i as int]);
            match &self.packets[i] {
                AssemblerPacket::Missing => {
                    res.push(self.cursor + SequenceNumber(i as u32));
                },
                AssemblerPacket::Payload(_) => {},
            }
            i = i + 1;
        }
        assert(self@.slots.take(n as int) =~= self@.slots);
        res
    }

    /// Whether the window holds its maximum number of slots (a push is then refused).
    fn is_full(&self) -> (res: bool)
        ensures
            res == (self@.slots.len() >= self@.max),
    {
        self.packets.len() >= self.max_retransmission_buffer_size
    }

    /// The sequence number of the first slot of the window.
    fn cursor(&self) -> (res: SequenceNumber)
        ensures
            res.0 == self@.cursor,
    {
        self.cursor
    }

    /// The slot of `sequence_number`, when it lies inside the window.
    fn index(&self, sequence_number: SequenceNumber) -> (res: Option<usize>)
        ensures
            res matches Some(i) ==> i == sequence_number.0 - self@.cursor,
            res is Some <==> (self@.cursor <= sequence_number.0 && sequence_number.0 - self@.cursor
                < self@.slots.len()),
    {
        if sequence_number.0 < self.cursor.0 {
            return None;
        }
        let index = (sequence_number.0 - self.cursor.0) as usize;
        if index >= self.packets.len() {
            return None;
        }
        Some(index)
    }
}

/// The reorder window of a reliable stream: a window of packets starting at the
/// cursor, where slot `i` stands for sequence number `cursor + i` and holds the packet
/// once it has arrived. The window always fits below 2^32 sequence numbers.
pub struct Assembler {
    window: Window,
}

impl View for Assembler {
    type V = AssemblerView;

    closed spec fn view(&self) -> AssemblerView {
        self.window@
    }
}

impl Assembler {
    #[verifier::type_invariant]
    closed spec fn fits(self) -> bool {
        window_fits(self.window@)
    }

    /// An empty window at sequence number 0.
    pub fn new(max_retransmission_buffer_size: usize) -> (res: Self)
        ensures
            res@.cursor == 0,
            res@.slots == Seq::<Option<PacketView>>::empty(),
            res@.max == max_retransmission_buffer_size,
    {
        Assembler { window: Window::new(max_retransmission_buffer_size) }
    }

    /// Takes the window out, leaving an empty one in its place.
    fn take_window(&mut self) -> (w: Window)
        ensures
            w@ == old(self)@,
            w.wf(),
    {
        proof {
            use_type_invariant(&*self);
        }
        let mut w = Window::new(0);
        std::mem::swap(&mut w, &mut self.window);
        w
    }

    /// Stores `payload` as the packet with sequence number `sequence_number`.
    /// When the window already holds `max` slots the packet is refused; a packet
    /// before the cursor was already delivered and is ignored.
    pub fn push(&mut self, sequence_number: SequenceNumber, payload: Packet) -> (res: Result<
        (),
        AssemblerError,
    >)
        requires
            sequence_number.0 - old(self)@.cursor < usize::MAX,
        ensures
            final(self)@.cursor == old(self)@.cursor,
            final(self)@.max == old(self)@.max,
            old(self)@.slots.len() >= old(self)@.max ==> {
                &&& res == Err::<(), AssemblerError>(AssemblerError::RetransmissionBufferOverflow)
                &&& final(self)@ == old(self)@
            },
            old(self)@.slots.len() < old(self)@.max ==> {
                &&& res is Ok
                &&& final(self)@.slots == spec_push(
                    old(self)@.slots,
                    old(self)@.cursor,
                    sequence_number.0,
                    payload@,
                )
            },
            old(self)@.slots.len() < old(self)@.max && sequence_number.0 < old(self)@.cursor ==> {
                &&& res is Ok
                &&& final(self)@ == old(self)@
            },
    {
        let mut w = self.take_window();
        let res = w.push(sequence_number, payload);
        self.window = w;
        res
    }

    /// Removes and returns the packets at the front of the window that have arrived,
    /// in order, advancing the cursor past them.
    pub fn read_ordered(&mut self) -> (payloads: Vec<Packet>)
        ensures
            payloads@.len() == leading_payloads(old(self)@.slots),
            payloads@.len() <= old(self)@.slots.len(),
            forall|i: int|
                0 <= i < payloads@.len() ==> Some(#[trigger] payloads@[i]@) == old(self)@.slots[i],
            final(self)@.slots == old(self)@.slots.skip(payloads@.len() as int),
            final(self)@.cursor == (old(self)@.cursor + payloads@.len()) % 0x1_0000_0000,
            final(self)@.max == old(self)@.max,
    {
        let mut w = self.take_window();
        let payloads = w.read_ordered();
        self.window = w;
        payloads
    }

    /// The sequence numbers of the packets that are still missing, in increasing order.
    pub fn missing_sequence_numbers(&self) -> (res: Vec<SequenceNumber>)
        ensures
            res@ == spec_missing(self@.slots, self@.cursor),
            forall|j: int, k: int| 0 <= j < k < res@.len() ==> (#[trigger] res@[j]).0 < (
            #[trigger] res@[k]).0,
            forall|i: int|
                0 <= i < self@.slots.len() ==> (#[trigger] self@.slots[i] is None <==> res@.contains(
                    SequenceNumber((self@.cursor + i) as u32),
                )),
    {
        proof {
            use_type_invariant(self);
            lemma_missing_increasing(self@.slots, self@.cursor);
            lemma_missing_are_gaps(self@.slots, self@.cursor);
        }
        self.window.missing_sequence_numbers()
    }

    /// Whether the window holds its maximum number of slots (a push is then refused).
    pub fn is_full(&self) -> (res: bool)
        ensures
            res == (self@.slots.len() >= self@.max),
    {
        self.window.is_full()
    }

    /// The sequence number of the first slot of the window.
    pub fn cursor(&self) -> (res: SequenceNumber)
        ensures
            res.0 == self@.cursor,
    {
        self.window.cursor()
    }
}

} // verus!
