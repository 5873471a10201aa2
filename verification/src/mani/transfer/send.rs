//! Send-side bookkeeping: sequence numbering and the retransmission buffer.

use std::collections::BTreeMap;
use vstd::prelude::*;

use crate::datagram::packet::{Packet, PacketView};
use crate::types::{wrap_add, wrap_sub, ManiStreamId, SequenceNumber, Timestamp};

verus! {

broadcast use vstd::std_specs::btree::group_btree_axioms;

/// Why a chunk could not be sent.
#[derive(Debug, Clone)]
pub enum TransferSendError {
    RetransmissionBufferFull,
    DatagramSendFailed(String),
    CompressionFailed,
}

/// The chunks of one transfer stream that were sent, kept by sequence number for
/// retransmission, and the sequence number of the next chunk.
pub struct SendWindow {
    id: ManiStreamId,
    sequence_counter: SequenceNumber,
    retransmission_buffer: BTreeMap<u32, Packet>,
    max_retransmission_buffer_size: usize,
}

/// The mathematical value of a [`SendWindow`].
pub struct SendWindowView {
    pub id: u64,
    pub next: u32,
    pub sent: Map<u32, PacketView>,
    pub max: usize,
}

impl View for SendWindow {
    type V = SendWindowView;

    closed spec fn view(&self) -> SendWindowView {
        SendWindowView {
            id: self.id.0,
            next: self.sequence_counter.0,
            sent: self.retransmission_buffer@.map_values(|p: Packet| p@),
            max: self.max_retransmission_buffer_size,
        }
    }
}

/// The window after `p` went out: it is kept under the current number, and numbering
/// moves on by one (wrapping after `u32::MAX`).
pub open spec fn spec_record_sent(w: SendWindowView, p: PacketView) -> SendWindowView {
    SendWindowView { next: wrap_add(w.next, 1), sent: w.sent.insert(w.next, p), ..w }
}

/// The window after the chunks `ps` went out, in that order.
pub open spec fn spec_record_all(w: SendWindowView, ps: Seq<PacketView>) -> SendWindowView
    decreases ps.len(),
{
    if ps.len() == 0 {
        w
    } else {
        spec_record_sent(spec_record_all(w, ps.drop_last()), ps.last())
    }
}

impl SendWindow {
    /// A window with nothing sent, numbering chunks from `initial_sequence_number`.
    pub fn new(
        id: ManiStreamId,
        initial_sequence_number: SequenceNumber,
        max_retransmission_buffer_size: usize,
    ) -> (res: Self)
        ensures
            res@.id == id.0,
            res@.next == initial_sequence_number.0,
            res@.sent == Map::<u32, PacketView>::empty(),
            res@.max == max_retransmission_buffer_size,
    {
        let res = SendWindow {
            id,
            sequence_counter: initial_sequence_number,
            retransmission_buffer: BTreeMap::new(),
            max_retransmission_buffer_size,
        };
        assert(res@.sent =~= Map::<u32, PacketView>::empty());
        res
    }

    /// Refuses a new chunk while the retransmission buffer holds `max` chunks.
    pub fn check_capacity(&self) -> (res: Result<(), TransferSendError>)
        ensures
            res is Ok <==> self@.sent.len() < self@.max,
            res matches Err(e) ==> e is RetransmissionBufferFull,
    {
        assert(self@.sent.dom() =~= self.retransmission_buffer@.dom());
        if self.retransmission_buffer.len() >= self.max_retransmission_buffer_size {
            return Err(TransferSendError::RetransmissionBufferFull);
        }
        Ok(())
    }

    /// The chunk that carries `content` next: this stream's id and the next sequence number.
    pub fn next_packet(&self, timestamp: Timestamp, content: Vec<u8>) -> (res: Packet)
        ensures
            res@ == (PacketView {
                stream_id: self@.id,
                sequence_number: self@.next,
                timestamp: timestamp.0,
                content: content@,
            }),
    {
        Packet { stream_id: self.id, sequence_number: self.sequence_counter, timestamp, content }
    }

    /// Records that `packet` went out: it is kept under the current sequence number,
    /// and numbering moves on by one (wrapping after `u32::MAX`).
    pub fn record_sent(&mut self, packet: Packet)
        ensures
            final(self)@ == spec_record_sent(old(self)@, packet@),
    {
        let ghost pv = packet@;
        let _ = self.retransmission_buffer.insert(self.sequence_counter.0, packet);
        self.sequence_counter = SequenceNumber(self.sequence_counter.0.wrapping_add(1));
        assert(self@.sent =~= old(self)@.sent.insert(old(self)@.next, pv));
    }

    /// The sequence number the next chunk will carry.
    pub fn current_sequence_number(&self) -> (res: SequenceNumber)
        ensures
            res.0 == self@.next,
    {
        self.sequence_counter
    }

    /// The sequence number of the last chunk sent (the one before the next).
    pub fn final_sequence_number(&self) -> (res: SequenceNumber)
        ensures
            res.0 == wrap_sub(self@.next, 1),
    {
        SequenceNumber(self.sequence_counter.0.wrapping_sub(1))
    }

    /// The chunk sent with `sequence_number`, if it is still buffered.
    pub fn get_chunk_for_retransmission(&self, sequence_number: SequenceNumber) -> (res: Option<&Packet>)
        ensures
            res is Some <==> self@.sent.contains_key(sequence_number.0),
            res matches Some(p) ==> p@ == self@.sent[sequence_number.0],
    {
        self.retransmission_buffer.get(&sequence_number.0)
    }
}

/// Every chunk in the window is kept under its own sequence number, and was sent
/// on this window's stream.
pub open spec fn keyed_by_sequence(w: SendWindowView) -> bool {
    forall|k: u32|
        #[trigger] w.sent.contains_key(k) ==> w.sent[k].sequence_number == k && w.sent[k].stream_id
            == w.id
}

/// Recording the chunk that `next_packet` built keeps every chunk under its own
/// sequence number, so a retransmission request for `n` finds the chunk numbered `n`.
pub proof fn lemma_record_keeps_keyed(w: SendWindowView, ts: u64, content: Seq<u8>)
    requires
        keyed_by_sequence(w),
    ensures
        keyed_by_sequence(
            SendWindowView {
                next: wrap_add(w.next, 1),
                sent: w.sent.insert(
                    w.next,
                    PacketView {
                        stream_id: w.id,
                        sequence_number: w.next,
                        timestamp: ts,
                        content,
                    },
                ),
                ..w
            },
        ),
{
}

/// Numbering over a whole stream: after `k` chunks went out (a send that fails
/// records nothing), the next chunk carries the first number plus `k`, modulo 2^32,
/// and the stream's id and the buffer's capacity are unchanged. While fewer than 2^32
/// chunks went out, the `i`-th of them is kept under the first number plus `i`.
pub proof fn lemma_numbering_after_sends(w: SendWindowView, ps: Seq<PacketView>)
    ensures
        spec_record_all(w, ps).next == (w.next + ps.len()) % 0x1_0000_0000,
        spec_record_all(w, ps).id == w.id,
        spec_record_all(w, ps).max == w.max,
        ps.len() <= 0x1_0000_0000 ==> forall|i: int|
            0 <= i < ps.len() ==> spec_record_all(w, ps).sent[((w.next + i) % 0x1_0000_0000) as u32]
                == #[trigger] ps[i],
    decreases ps.len(),
{
    if ps.len() > 0 {
        let prev = ps.drop_last();
        let m: int = 0x1_0000_0000;
        lemma_numbering_after_sends(w, prev);
        let w1 = spec_record_all(w, prev);
        assert(((w.next + prev.len()) % m + 1int % m) % m == (w.next + prev.len() + 1) % m) by {
            vstd::arithmetic::div_mod::lemma_add_mod_noop(w.next + prev.len(), 1, m);
        }
        assert(1int % m == 1) by {
            vstd::arithmetic::div_mod::lemma_small_mod(1, m as nat);
        }
        assert(spec_record_all(w, ps).next == (w.next + ps.len()) % m);
        if ps.len() <= m {
            let last = (ps.len() - 1) as int;
            assert forall|i: int| 0 <= i < ps.len() implies spec_record_all(w, ps).sent[((w.next + i)
                % m) as u32] == #[trigger] ps[i] by {
                if i < last {
                    assert(ps[i] == prev[i]);
                    assert((w.next + i) % m != (w.next + last) % m) by {
                        vstd::arithmetic::div_mod::lemma_mod_equivalence(w.next + last, w.next + i, m);
                        vstd::arithmetic::div_mod::lemma_small_mod((last - i) as nat, m as nat);
                    }
                }
            }
        }
    }
}

} // verus!
