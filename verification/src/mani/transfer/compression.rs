//! Receive-side decisions of the compressed packet pipeline: regrouping
//! fragments into whole payloads, and batching credit updates.

use std::collections::HashMap;
use vstd::prelude::*;
use vstd::std_specs::hash::spec_keys_iter;
use vstd::std_specs::iter::IteratorSpec;

use crate::datagram::packet::{decode_content, spec_decode_content, ContentView, DecodedContent, PacketParseError};
use crate::types::Timestamp;
use crate::wire::put_slice;

verus! {

broadcast use vstd::std_specs::hash::group_hash_axioms;

/// Buffers in-flight fragments for a single logical chunk.
struct FragmentBuffer {
    total_frags: u16,
    fragments: HashMap<u16, Vec<u8>>,
    timestamp: Timestamp,
}

/// The mathematical value of a [`FragmentBuffer`]: how many fragments the chunk
/// has, the fragments received so far by index, and the timestamp of the first one.
pub struct GroupView {
    pub total: u16,
    pub fragments: Map<u16, Seq<u8>>,
    pub timestamp: u64,
}

/// The mathematical value of a fragment buffer.
spec fn group_view(b: FragmentBuffer) -> GroupView {
    GroupView {
        total: b.total_frags,
        fragments: b.fragments@.map_values(|v: Vec<u8>| v@),
        timestamp: b.timestamp.0,
    }
}

/// The smallest key of a non-empty finite set of keys.
pub open spec fn spec_min_key(d: Set<u32>) -> u32 {
    choose|k: u32| d.contains(k) && forall|j: u32| d.contains(j) ==> k <= j
}

/// The groups after making room for `key`: when `key` has no group yet and `max`
/// groups are already open, the group with the smallest key is dropped.
pub open spec fn spec_make_room(groups: Map<u32, GroupView>, key: u32, max: usize) -> Map<
    u32,
    GroupView,
> {
    if !groups.contains_key(key) && groups.len() >= max && groups.len() > 0 {
        groups.remove(spec_min_key(groups.dom()))
    } else {
        groups
    }
}

/// Fragments `0 .. n` joined in order; `None` if one of them is missing.
pub open spec fn spec_assemble(frags: Map<u16, Seq<u8>>, n: nat) -> Option<Seq<u8>>
    decreases n,
{
    if n == 0 {
        Some(Seq::empty())
    } else {
        match spec_assemble(frags, (n - 1) as nat) {
            None => None,
            Some(prefix) => if frags.contains_key((n - 1) as u16) {
                Some(prefix + frags[(n - 1) as u16])
            } else {
                None
            },
        }
    }
}

/// The groups after fragment `idx` of chunk `key` arrives, and the whole chunk
/// (with its timestamp) if this completed it. A group is complete once it holds as
/// many fragments as it was announced to have; it is then removed, and yields a
/// chunk only if those are exactly the fragments `0 .. total`.
pub open spec fn spec_on_fragment(
    groups: Map<u32, GroupView>,
    max: usize,
    key: u32,
    idx: u16,
    total: u16,
    ts: u64,
    payload: Seq<u8>,
) -> (Map<u32, GroupView>, Option<(u64, Seq<u8>)>) {
    let g1 = spec_make_room(groups, key, max);
    let g = if g1.contains_key(key) {
        g1[key]
    } else {
        GroupView { total, fragments: Map::empty(), timestamp: ts }
    };
    let g2 = GroupView { fragments: g.fragments.insert(idx, payload), ..g };
    if g2.fragments.len() == g2.total as nat {
        (
            g1.remove(key),
            match spec_assemble(g2.fragments, g2.total as nat) {
                Some(b) => Some((g2.timestamp, b)),
                None => None,
            },
        )
    } else {
        (g1.insert(key, g2), None)
    }
}

/// Regroups the fragments of chunks, keyed by the chunk's sequence number, keeping
/// at most `max` incomplete groups (evicting the smallest key first).
pub struct FragmentReassembler {
    fragment_buffers: HashMap<u32, FragmentBuffer>,
    max_fragment_groups: usize,
}

impl View for FragmentReassembler {
    type V = Map<u32, GroupView>;

    closed spec fn view(&self) -> Map<u32, GroupView> {
        self.fragment_buffers@.map_values(|b: FragmentBuffer| group_view(b))
    }
}

fn min_key(m: &HashMap<u32, FragmentBuffer>) -> (res: Option<u32>)
    ensures
        res is None <==> m@.dom().len() == 0,
        res matches Some(k) ==> m@.dom().contains(k) && forall|j: u32|
            m@.dom().contains(j) ==> k <= j,
{
    let ghost ks = spec_keys_iter(m).remaining().unref();
    assert(ks.to_set() == m@.dom());
    assert(ks.len() == m@.dom().len());
    let mut best: Option<u32> = None;
    for k in it: m.keys()
        invariant
            it.seq().unref() == ks,
            best is None <==> it.index() == 0,
            best matches Some(b) ==> ks.contains(b) && forall|j: int|
                0 <= j < it.index() ==> b <= ks[j],
    {
        assert(*k == ks[it.index() as int]);
        match best {
            None => {
                best = Some(*k);
            },
            Some(b) => {
                if *k < b {
                    best = Some(*k);
                }
            },
        }
    }
    proof {
        if best is Some {
            assert forall|j: u32| m@.dom().contains(j) implies best->0 <= j by {
                assert(ks.to_set().contains(j));
                let i = choose|i: int| 0 <= i < ks.len() && ks[i] == j;
            }
        } else {
            assert(ks.len() == 0);
        }
    }
    best
}

impl FragmentReassembler {
    /// The most incomplete groups kept at once.
    pub closed spec fn max(&self) -> usize {
        self.max_fragment_groups
    }

    /// A reassembler with no open group.
    pub fn new(max_fragment_groups: usize) -> (res: Self)
        ensures
            res@ == Map::<u32, GroupView>::empty(),
            res@.dom().finite(),
            res.max() == max_fragment_groups,
    {
        let res = Self { fragment_buffers: HashMap::new(), max_fragment_groups };
        assert(res@ =~= Map::<u32, GroupView>::empty());
        res
    }

    /// The number of open groups.
    pub fn len(&self) -> (res: usize)
        ensures
            res == self@.len(),
    {
        assert(self@.dom() =~= self.fragment_buffers@.dom());
        self.fragment_buffers.len()
    }

    /// Records fragment `frag_index` of the chunk `key` (announced with `total_frags`
    /// fragments) and returns the chunk's timestamp and bytes when it is complete.
    pub fn on_fragment(
        &mut self,
        key: u32,
        frag_index: u16,
        total_frags: u16,
        timestamp: Timestamp,
        payload: Vec<u8>,
    ) -> (res: Option<(Timestamp, Vec<u8>)>)
        ensures
            final(self).max() == old(self).max(),
            final(self)@.dom().finite(),
            ({
                let (groups, out) = spec_on_fragment(
                    old(self)@,
                    old(self).max(),
                    key,
                    frag_index,
                    total_frags,
                    timestamp.0,
                    payload@,
                );
                &&& final(self)@ == groups
                &&& match res {
                    Some((t, b)) => out == Some((t.0, b@)),
                    None => out is None,
                }
            }),
    {
        let ghost g0 = self@;
        assert(g0.dom() =~= self.fragment_buffers@.dom());
        if !self.fragment_buffers.contains_key(&key) && self.fragment_buffers.len()
            >= self.max_fragment_groups {
            if let Some(oldest) = min_key(&self.fragment_buffers) {
                let _ = self.fragment_buffers.remove(&oldest);
                assert(spec_min_key(g0.dom()) == oldest) by {
                    let c = spec_min_key(g0.dom());
                    assert(g0.dom().contains(oldest) && forall|j: u32|
                        g0.dom().contains(j) ==> oldest <= j);
                    assert(c <= oldest && oldest <= c);
                }
                assert(self@ =~= g0.remove(oldest));
            }
        }
        let ghost g1 = self@;
        assert(g1 == spec_make_room(g0, key, old(self).max()));
        let ghost m1 = self.fragment_buffers@;
        let mut buf = match self.fragment_buffers.remove(&key) {
            Some(b) => {
                assert(m1.contains_key(key) && m1[key] == b);
                assert(g1[key] == group_view(b));
                b
            },
            None => {
                let b = FragmentBuffer { total_frags, fragments: HashMap::new(), timestamp };
                assert(group_view(b).fragments =~= Map::<u16, Seq<u8>>::empty());
                b
            },
        };
        assert(self@ =~= g1.remove(key));
        let ghost g = group_view(buf);
        assert(g == if g1.contains_key(key) {
            g1[key]
        } else {
            GroupView { total: total_frags, fragments: Map::empty(), timestamp: timestamp.0 }
        });
        let ghost pv = payload@;
        let _ = buf.fragments.insert(frag_index, payload);
        assert(group_view(buf).fragments =~= g.fragments.insert(frag_index, pv));
        assert(group_view(buf).fragments.dom() =~= buf.fragments@.dom());
        let is_complete = buf.fragments.len() == buf.total_frags as usize;
        let ghost g2 = GroupView { fragments: g.fragments.insert(frag_index, pv), ..g };
        assert(group_view(buf) == g2);
        assert(is_complete == (g2.fragments.len() == g2.total as nat));
        if is_complete {
            let ghost frags = group_view(buf).fragments;
            let mut assembled: Vec<u8> = Vec::new();
            let mut i: u16 = 0;
            #[verifier::loop_isolation(false)]
            while i < buf.total_frags
                invariant
                    0 <= i <= buf.total_frags,
                    frags == group_view(buf).fragments,
                    self@ == g1.remove(key),
                    self.max_fragment_groups == old(self).max_fragment_groups,
                    spec_assemble(frags, i as nat) == Some(assembled@),
                decreases buf.total_frags - i,
            {
                match buf.fragments.get(&i) {
                    Some(frag) => {
                        put_slice(&mut assembled, frag.as_slice());
                        assert(frags.contains_key(i) && frags[i] == frag@);
                    },
                    None => {
                        assert(!frags.contains_key(i));
                        proof {
                            lemma_assemble_missing(frags, i, buf.total_frags);
                        }
                        return None;
                    },
                }
                i = i + 1;
            }
            assert(spec_assemble(g2.fragments, g2.total as nat) == Some(assembled@));
            Some((buf.timestamp, assembled))
        } else {
            let _ = self.fragment_buffers.insert(key, buf);
            assert(self@ =~= g1.insert(key, group_view(buf)));
            None
        }
    }
}

/// A finite non-empty set of keys has a smallest key.
proof fn lemma_min_key_exists(d: Set<u32>)
    requires
        d.finite(),
        d.len() > 0,
    ensures
        d.contains(spec_min_key(d)),
        forall|j: u32| d.contains(j) ==> spec_min_key(d) <= j,
    decreases d.len(),
{
    let x = d.choose();
    let rest = d.remove(x);
    if rest.len() == 0 {
        assert forall|j: u32| d.contains(j) implies x <= j by {
            if j != x {
                assert(rest.contains(j));
            }
        }
    } else {
        lemma_min_key_exists(rest);
        let m = spec_min_key(rest);
        let k = if x <= m {
            x
        } else {
            m
        };
        assert forall|j: u32| d.contains(j) implies k <= j by {
            if j != x {
                assert(rest.contains(j));
            }
        }
        assert(d.contains(k) && forall|j: u32| d.contains(j) ==> k <= j);
    }
}

/// The number of open groups never exceeds `max` (for `max` of at least 1): a new
/// group evicts the one with the smallest key when the limit is reached.
pub proof fn lemma_group_count_bounded(
    groups: Map<u32, GroupView>,
    max: usize,
    key: u32,
    idx: u16,
    total: u16,
    ts: u64,
    payload: Seq<u8>,
)
    requires
        groups.dom().finite(),
        groups.len() <= max,
        max >= 1,
    ensures
        spec_on_fragment(groups, max, key, idx, total, ts, payload).0.len() <= max,
        spec_on_fragment(groups, max, key, idx, total, ts, payload).0.dom().finite(),
{
    let g1 = spec_make_room(groups, key, max);
    if !groups.contains_key(key) && groups.len() >= max && groups.len() > 0 {
        lemma_min_key_exists(groups.dom());
        assert(g1.dom() =~= groups.dom().remove(spec_min_key(groups.dom())));
        assert(g1.len() == groups.len() - 1);
        assert(!g1.contains_key(key));
    }
    assert(g1.dom().finite());
    assert(g1.len() <= max);
    assert(g1.remove(key).dom() =~= g1.dom().remove(key));
    if g1.contains_key(key) {
        assert(g1.len() >= 1);
        assert(g1.insert(key, GroupView { total, fragments: Map::empty(), timestamp: ts }).dom()
            =~= g1.dom());
    }
}

/// A fragment missing below `n` leaves the chunk unassembled.
proof fn lemma_assemble_missing(frags: Map<u16, Seq<u8>>, i: u16, n: u16)
    requires
        i < n,
        !frags.contains_key(i),
    ensures
        spec_assemble(frags, n as nat) is None,
    decreases n,
{
    if n - 1 > i {
        lemma_assemble_missing(frags, i, (n - 1) as u16);
    }
}

/// When every fragment `0 .. n` is present, joining them succeeds, and the joined
/// bytes are as long as the fragments together.
pub proof fn lemma_assemble_joins_in_order(frags: Map<u16, Seq<u8>>, n: u16)
    requires
        forall|i: u16| i < n ==> #[trigger] frags.contains_key(i),
    ensures
        spec_assemble(frags, n as nat) matches Some(b) && b.len() == sum_lengths(frags, n as nat),
    decreases n,
{
    if n > 0 {
        lemma_assemble_joins_in_order(frags, (n - 1) as u16);
        assert(frags.contains_key((n - 1) as u16));
    }
}

/// Joining lays the fragments out in index order: fragment `i` sits at offset
/// `sum_lengths(frags, i)` of the joined bytes, which are exactly as long as the
/// fragments together.
pub proof fn lemma_assemble_layout(frags: Map<u16, Seq<u8>>, n: nat)
    requires
        n <= 0x1_0000,
    ensures
        spec_assemble(frags, n) matches Some(b) ==> {
            &&& b.len() == sum_lengths(frags, n)
            &&& forall|i: int|
                0 <= i < n ==> b.subrange(
                    sum_lengths(frags, i as nat) as int,
                    sum_lengths(frags, (i + 1) as nat) as int,
                ) == #[trigger] frags[i as u16]
        },
    decreases n,
{
    if n > 0 {
        lemma_assemble_layout(frags, (n - 1) as nat);
        if let Some(b) = spec_assemble(frags, n) {
            let prefix = spec_assemble(frags, (n - 1) as nat)->0;
            assert(b == prefix + frags[(n - 1) as u16]);
            assert forall|i: int| 0 <= i < n implies b.subrange(
                sum_lengths(frags, i as nat) as int,
                sum_lengths(frags, (i + 1) as nat) as int,
            ) == #[trigger] frags[i as u16] by {
                lemma_sum_lengths_monotone(frags, (i + 1) as nat, (n - 1) as nat);
                if i < n - 1 {
                    assert(b.subrange(
                        sum_lengths(frags, i as nat) as int,
                        sum_lengths(frags, (i + 1) as nat) as int,
                    ) =~= prefix.subrange(
                        sum_lengths(frags, i as nat) as int,
                        sum_lengths(frags, (i + 1) as nat) as int,
                    ));
                } else {
                    assert(b.subrange(
                        sum_lengths(frags, i as nat) as int,
                        sum_lengths(frags, (i + 1) as nat) as int,
                    ) =~= frags[(n - 1) as u16]);
                }
            }
        }
    }
}

proof fn lemma_sum_lengths_monotone(frags: Map<u16, Seq<u8>>, i: nat, n: nat)
    requires
        i <= n + 1,
    ensures
        i <= n ==> sum_lengths(frags, i) <= sum_lengths(frags, n),
    decreases n,
{
    if i < n {
        lemma_sum_lengths_monotone(frags, i, (n - 1) as nat);
    }
}

/// The total length of fragments `0 .. n`.
pub open spec fn sum_lengths(frags: Map<u16, Seq<u8>>, n: nat) -> nat
    decreases n,
{
    if n == 0 {
        0
    } else {
        sum_lengths(frags, (n - 1) as nat) + frags[(n - 1) as u16].len()
    }
}

/// Whether the receive loop stops after routing a chunk: there are sinks, and the
/// chunk reached none of them (every sink was dropped). `delivered[i]` says whether
/// sink `i` took the chunk.
pub fn all_routes_failed(delivered: &[bool]) -> (res: bool)
    ensures
        res == (delivered@.len() > 0 && forall|i: int| 0 <= i < delivered@.len() ==> !delivered@[i]),
{
    let mut i: usize = 0;
    while i < delivered.len()
        invariant
            0 <= i <= delivered@.len(),
            forall|j: int| 0 <= j < i ==> !delivered@[j],
        decreases delivered@.len() - i,
    {
        if delivered[i] {
            return false;
        }
        i = i + 1;
    }
    delivered.len() > 0
}

/// Counts received packets and asks for a credit update every `bulk` of them.
pub struct CreditBatcher {
    bulk: usize,
    updated: usize,
}

impl CreditBatcher {
    #[verifier::type_invariant]
    closed spec fn inv(self) -> bool {
        self.updated == 0 || self.updated < self.bulk
    }

    /// The batch size.
    pub closed spec fn bulk(&self) -> usize {
        self.bulk
    }

    /// The packets counted since the last update.
    pub closed spec fn pending(&self) -> usize {
        self.updated
    }

    /// A batcher with nothing counted.
    pub fn new(bulk: usize) -> (res: Self)
        ensures
            res.bulk() == bulk,
            res.pending() == 0,
    {
        CreditBatcher { bulk, updated: 0 }
    }

    /// Counts one received packet; returns the credits to grant when the count
    /// reaches the batch size, and starts counting again.
    pub fn on_packet(&mut self) -> (res: Option<usize>)
        ensures
            final(self).bulk() == old(self).bulk(),
            old(self).pending() + 1 >= old(self).bulk() ==> res == Some(
                (old(self).pending() + 1) as usize,
            ) && final(self).pending() == 0,
            old(self).pending() + 1 < old(self).bulk() ==> res is None && final(self).pending()
                == old(self).pending() + 1,
    {
        proof {
            use_type_invariant(&*self);
        }
        let counted = self.updated + 1;
        if counted >= self.bulk {
            self.updated = 0;
            Some(counted)
        } else {
            self.updated = counted;
            None
        }
    }
}

/// What one received packet yields in the compressed pipeline.
pub enum ContentOutcome {
    /// The packet's content could not be decoded.
    Undecodable(PacketParseError),
    /// A fragment was stored; its chunk is not complete yet.
    Pending,
    /// A whole compressed chunk, with its timestamp, ready to be decompressed.
    Chunk(Timestamp, Vec<u8>),
}

/// What the pipeline does with one received packet: the credits to grant (if any),
/// and what the packet yields.
pub struct ContentStep {
    pub credit: Option<usize>,
    pub outcome: ContentOutcome,
}

/// The receive-side state of the compressed packet pipeline: the credit count and
/// the fragment groups.
pub struct ContentPipeline {
    credits: CreditBatcher,
    fragments: FragmentReassembler,
}

impl ContentPipeline {
    /// The credit batcher.
    pub closed spec fn batcher(&self) -> CreditBatcher {
        self.credits
    }

    /// The fragment groups.
    pub closed spec fn groups(&self) -> Map<u32, GroupView> {
        self.fragments@
    }

    /// The most incomplete fragment groups kept at once.
    pub closed spec fn max_groups(&self) -> usize {
        self.fragments.max()
    }

    /// A pipeline with nothing counted and no open group.
    pub fn new(credits_bulk_update_count: usize, max_fragment_groups: usize) -> (res: Self)
        ensures
            res.batcher().bulk() == credits_bulk_update_count,
            res.batcher().pending() == 0,
            res.groups() == Map::<u32, GroupView>::empty(),
            res.max_groups() == max_fragment_groups,
    {
        ContentPipeline {
            credits: CreditBatcher::new(credits_bulk_update_count),
            fragments: FragmentReassembler::new(max_fragment_groups),
        }
    }

    /// Handles one received packet of the chunk numbered `sequence_number`: counts it
    /// for credits, decodes its content, and regroups it if it is a fragment. A whole
    /// packet yields its chunk at once; a fragment yields the chunk once it completes it.
    pub fn on_packet(&mut self, sequence_number: u32, timestamp: Timestamp, content: Vec<u8>) -> (step:
        ContentStep)
        ensures
            final(self).max_groups() == old(self).max_groups(),
            final(self).batcher().bulk() == old(self).batcher().bulk(),
            old(self).batcher().pending() + 1 >= old(self).batcher().bulk() ==> step.credit == Some(
                (old(self).batcher().pending() + 1) as usize,
            ) && final(self).batcher().pending() == 0,
            old(self).batcher().pending() + 1 < old(self).batcher().bulk() ==> step.credit is None
                && final(self).batcher().pending() == old(self).batcher().pending() + 1,
            match spec_decode_content(content@) {
                None => step.outcome is Undecodable && final(self).groups() == old(self).groups(),
                Some(ContentView::Single(c)) => (step.outcome matches ContentOutcome::Chunk(t, b)
                    && t == timestamp && b@ == c) && final(self).groups() == old(self).groups(),
                Some(ContentView::Fragment(i, n, p)) => {
                    let (groups, out) = spec_on_fragment(
                        old(self).groups(),
                        old(self).max_groups(),
                        sequence_number,
                        i,
                        n,
                        timestamp.0,
                        p,
                    );
                    &&& final(self).groups() == groups
                    &&& match out {
                        None => step.outcome is Pending,
                        Some((ts, b)) => step.outcome matches ContentOutcome::Chunk(t, c) && t.0
                            == ts && c@ == b,
                    }
                },
            },
    {
        let credit = self.credits.on_packet();
        let outcome = match decode_content(content) {
            Err(e) => ContentOutcome::Undecodable(e),
            Ok(DecodedContent::Single(compressed)) => ContentOutcome::Chunk(timestamp, compressed),
            Ok(DecodedContent::Fragment { frag_index, total_frags, payload }) => {
                match self.fragments.on_fragment(
                    sequence_number,
                    frag_index,
                    total_frags,
                    timestamp,
                    payload,
                ) {
                    Some((t, assembled)) => ContentOutcome::Chunk(t, assembled),
                    None => ContentOutcome::Pending,
                }
            },
        };
        ContentStep { credit, outcome }
    }
}

} // verus!
