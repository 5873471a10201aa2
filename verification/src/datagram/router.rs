//! The bounded, time-limited buffer that holds a stream's packets until the
//! stream registers with the datagram router.

use vstd::prelude::*;

use crate::datagram::packet::{Packet, PacketView};

verus! {

/// Packets of one not-yet-registered stream, each with its arrival time in
/// nanoseconds, oldest first.
pub struct PendingChunks {
    entries: Vec<(u64, Packet)>,
}

/// The mathematical value of a buffered entry.
pub open spec fn pending_view(e: (u64, Packet)) -> (u64, PacketView) {
    (e.0, e.1@)
}

/// How long ago `arrived` was at time `now` (zero for an arrival in the future).
pub open spec fn age(now: u64, arrived: u64) -> u64 {
    if now >= arrived {
        (now - arrived) as u64
    } else {
        0
    }
}

/// The entries that are younger than `timeout` at time `now`, in their order.
pub open spec fn spec_fresh(entries: Seq<(u64, PacketView)>, now: u64, timeout: u64) -> Seq<
    (u64, PacketView),
>
    decreases entries.len(),
{
    if entries.len() == 0 {
        Seq::empty()
    } else {
        let rest = spec_fresh(entries.drop_last(), now, timeout);
        if age(now, entries.last().0) < timeout {
            rest.push(entries.last())
        } else {
            rest
        }
    }
}

impl View for PendingChunks {
    type V = Seq<(u64, PacketView)>;

    closed spec fn view(&self) -> Seq<(u64, PacketView)> {
        self.entries@.map_values(|e: (u64, Packet)| pending_view(e))
    }
}

impl PendingChunks {
    /// An empty buffer.
    pub fn new() -> (res: Self)
        ensures
            res@ == Seq::<(u64, PacketView)>::empty(),
    {
        let res = PendingChunks { entries: Vec::new() };
        assert(res@ =~= Seq::<(u64, PacketView)>::empty());
        res
    }

    /// The number of buffered packets.
    pub fn len(&self) -> (res: usize)
        ensures
            res == self@.len(),
    {
        self.entries.len()
    }

    /// Buffers `packet`, arrived at `now`, unless `max` packets are already buffered;
    /// returns whether it was kept.
    pub fn push_bounded(&mut self, now: u64, packet: Packet, max: usize) -> (kept: bool)
        ensures
            kept == (old(self)@.len() < max),
            kept ==> final(self)@ == old(self)@.push((now, packet@)),
            !kept ==> final(self)@ == old(self)@,
            old(self)@.len() <= max ==> final(self)@.len() <= max,
    {
        if self.entries.len() < max {
            let ghost pv = packet@;
            self.entries.push((now, packet));
            assert(self@ =~= old(self)@.push((now, pv)));
            true
        } else {
            false
        }
    }

    /// Drops the packets that are `timeout` or older at time `now`, keeping the order
    /// of the rest; returns whether any packet is left.
    pub fn retain_fresh(&mut self, now: u64, timeout: u64) -> (nonempty: bool)
        ensures
            final(self)@ == spec_fresh(old(self)@, now, timeout),
            final(self)@ == old(self)@.filter(|e: (u64, PacketView)| age(now, e.0) < timeout),
            nonempty == (final(self)@.len() > 0),
    {
        proof {
            lemma_fresh_keeps_every_young_entry(old(self)@, now, timeout);
        }
        let mut old_entries: Vec<(u64, Packet)> = Vec::new();
        std::mem::swap(&mut old_entries, &mut self.entries);
        let ghost all = old(self)@;
        assert(old_entries@.map_values(|e: (u64, Packet)| pending_view(e)) == all);
        let mut kept: Vec<(u64, Packet)> = Vec::new();
        let mut rest: Vec<(u64, Packet)> = Vec::new();
        let n = old_entries.len();
        // Reverse so that popping yields the entries oldest first.
        while old_entries.len() > 0
            invariant
                old_entries@.len() + rest@.len() == n,
                n == all.len(),
                forall|j: int|
                    0 <= j < rest@.len() ==> pending_view(#[trigger] rest@[j]) == all[n - 1 - j],
                forall|j: int|
                    0 <= j < old_entries@.len() ==> pending_view(#[trigger] old_entries@[j])
                        == all[j],
            decreases old_entries@.len(),
        {
            let e = old_entries.pop().unwrap();
            rest.push(e);
        }
        let mut i: usize = 0;
        while rest.len() > 0
            invariant
                i + rest@.len() == n,
                n == all.len(),
                forall|j: int|
                    0 <= j < rest@.len() ==> pending_view(#[trigger] rest@[j]) == all[n - 1 - j],
                kept@.map_values(|e: (u64, Packet)| pending_view(e)) == spec_fresh(
                    all.take(i as int),
                    now,
                    timeout,
                ),
            decreases rest@.len(),
        {
            let ghost before = kept@;
            let (arrived, packet) = rest.pop().unwrap();
            assert(pending_view((arrived, packet)) == all[i as int]);
            assert(all.take(i + 1).drop_last() =~= all.take(i as int));
            assert(all.take(i + 1).last() == all[i as int]);
            let elapsed = if now >= arrived {
                now - arrived
            } else {
                0
            };
            if elapsed < timeout {
                kept.push((arrived, packet));
                assert(kept@.map_values(|e: (u64, Packet)| pending_view(e)) =~= before.map_values(
                    |e: (u64, Packet)| pending_view(e),
                ).push(all[i as int]));
            }
            i = i + 1;
        }
        assert(all.take(n as int) =~= all);
        self.entries = kept;
        self.entries.len() > 0
    }

    /// Hands out the buffered packets, oldest first.
    pub fn into_packets(self) -> (res: Vec<Packet>)
        ensures
            res@.len() == self@.len(),
            forall|i: int| 0 <= i < res@.len() ==> #[trigger] res@[i]@ == self@[i].1,
    {
        let mut entries = self.entries;
        let ghost all = entries@;
        let mut reversed: Vec<Packet> = Vec::new();
        let n = entries.len();
        while entries.len() > 0
            invariant
                entries@.len() + reversed@.len() == n,
                n == all.len(),
                forall|j: int| 0 <= j < entries@.len() ==> #[trigger] entries@[j] == all[j],
                forall|j: int|
                    0 <= j < reversed@.len() ==> #[trigger] reversed@[j]@ == all[n - 1 - j].1@,
            decreases entries@.len(),
        {
            let (_, p) = entries.pop().unwrap();
            reversed.push(p);
        }
        let mut out: Vec<Packet> = Vec::new();
        while reversed.len() > 0
            invariant
                reversed@.len() + out@.len() == n,
                n == all.len(),
                forall|j: int|
                    0 <= j < reversed@.len() ==> #[trigger] reversed@[j]@ == all[n - 1 - j].1@,
                forall|j: int| 0 <= j < out@.len() ==> #[trigger] out@[j]@ == all[j].1@,
            decreases reversed@.len(),
        {
            let p = reversed.pop().unwrap();
            out.push(p);
        }
        out
    }
}

/// The fresh entries are a subsequence of the buffer: none is added, and the
/// buffer never grows by cleaning it.
pub proof fn lemma_fresh_shrinks(entries: Seq<(u64, PacketView)>, now: u64, timeout: u64)
    ensures
        spec_fresh(entries, now, timeout).len() <= entries.len(),
        forall|j: int|
            0 <= j < spec_fresh(entries, now, timeout).len() ==> entries.contains(
                #[trigger] spec_fresh(entries, now, timeout)[j],
            ) && age(now, spec_fresh(entries, now, timeout)[j].0) < timeout,
    decreases entries.len(),
{
    if entries.len() > 0 {
        let prev = entries.drop_last();
        lemma_fresh_shrinks(prev, now, timeout);
        let f = spec_fresh(entries, now, timeout);
        let pf = spec_fresh(prev, now, timeout);
        assert forall|j: int| 0 <= j < f.len() implies entries.contains(#[trigger] f[j]) && age(
            now,
            f[j].0,
        ) < timeout by {
            if j < pf.len() {
                assert(f[j] == pf[j]);
                let k = choose|k: int| 0 <= k < prev.len() && prev[k] == pf[j];
                assert(entries[k] == prev[k]);
            } else {
                assert(f[j] == entries.last());
                assert(entries[entries.len() - 1] == entries.last());
            }
        }
    }
}

/// Cleaning keeps exactly the entries that are younger than the timeout, each once
/// and in their order: the result is the buffer filtered by freshness. In particular
/// no fresh entry is ever dropped.
pub proof fn lemma_fresh_keeps_every_young_entry(
    entries: Seq<(u64, PacketView)>,
    now: u64,
    timeout: u64,
)
    ensures
        spec_fresh(entries, now, timeout) == entries.filter(
            |e: (u64, PacketView)| age(now, e.0) < timeout,
        ),
        forall|i: int|
            0 <= i < entries.len() && age(now, entries[i].0) < timeout ==> spec_fresh(
                entries,
                now,
                timeout,
            ).contains(#[trigger] entries[i]),
    decreases entries.len(),
{
    let pred = |e: (u64, PacketView)| age(now, e.0) < timeout;
    reveal(Seq::filter);
    if entries.len() > 0 {
        let prev = entries.drop_last();
        lemma_fresh_keeps_every_young_entry(prev, now, timeout);
        let f = spec_fresh(entries, now, timeout);
        assert(f == entries.filter(pred));
        assert forall|i: int|
            0 <= i < entries.len() && age(now, entries[i].0) < timeout implies f.contains(
            #[trigger] entries[i],
        ) by {
            if i < prev.len() {
                assert(prev[i] == entries[i]);
                let pf = spec_fresh(prev, now, timeout);
                let k = choose|k: int| 0 <= k < pf.len() && pf[k] == prev[i];
                assert(f[k] == pf[k]);
            } else {
                assert(entries[i] == entries.last());
                assert(f[f.len() - 1] == entries.last());
            }
        }
    }
}

} // verus!
