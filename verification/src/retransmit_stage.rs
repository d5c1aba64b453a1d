//! The `retransmit_stage` retransmits shreds between validators

pub mod source_counts;
pub mod stats;

use std::collections::HashMap;
use std::sync::Arc;

use vstd::prelude::*;

use self::source_counts::SourceCounts;
use crate::clock::Epoch;
use crate::clock::Slot;
use crate::pubkey::Pubkey;

verus! {

/// Limit a given thread to consume about this many packets so that
/// it doesn't pull up too much work.
pub const MAX_PACKET_BATCH_SIZE: usize = 100;

/// Milliseconds after which the peers are to be looked up again.
pub const PEER_UPDATE_INTERVAL_MS: u64 = 1000;

/// Whether to take in more packets, where they are waiting, before retransmitting those at
/// hand. The first batch of packets is always followed by a look for the next.
pub fn takes_more_packets(num_batches: usize, total_packets: usize) -> (more: bool)
    ensures
        more == (num_batches <= 1 || total_packets < MAX_PACKET_BATCH_SIZE),
        more <==> num_batches <= 1 || total_packets < 100,
{
    num_batches <= 1 || total_packets < MAX_PACKET_BATCH_SIZE
}

/// The stakes and peers that retransmission goes by, `P` being what is known of a peer.
pub struct EpochStakesCache<P> {
    pub epoch: Epoch,
    pub stakes: Option<Arc<Vec<(Pubkey, u64)>>>,
    pub peers: Vec<P>,
    pub stakes_and_index: Vec<(u64, usize)>,
}

impl<P> EpochStakesCache<P> {
    /// A cache of nothing.
    pub fn new() -> (cache: Self)
        ensures
            cache.epoch == 0,
            cache.stakes is None,
            cache.peers@ == Seq::<P>::empty(),
            cache.stakes_and_index@ == Seq::<(u64, usize)>::empty(),
    {
        EpochStakesCache {
            epoch: 0,
            stakes: None,
            peers: Vec::new(),
            stakes_and_index: Vec::new(),
        }
    }

    /// Whether the stakes are those of another epoch.
    pub fn is_outdated(&self, bank_epoch: Epoch) -> (outdated: bool)
        ensures
            outdated == (self.epoch != bank_epoch),
    {
        self.epoch != bank_epoch
    }

    /// Takes over the stakes of an epoch, unless the cache holds those of that epoch already.
    pub fn update_stakes(&mut self, bank_epoch: Epoch, stakes: Option<Arc<Vec<(Pubkey, u64)>>>)
        ensures
            *final(self) == (if old(self).epoch == bank_epoch {
                *old(self)
            } else {
                EpochStakesCache { epoch: bank_epoch, stakes, ..*old(self) }
            }),
    {
        if self.epoch != bank_epoch {
            self.stakes = stakes;
            self.epoch = bank_epoch;
        }
    }

    /// Takes over the peers and their stakes.
    pub fn update_peers(&mut self, peers: Vec<P>, stakes_and_index: Vec<(u64, usize)>)
        ensures
            *final(self) == (EpochStakesCache { peers, stakes_and_index, ..*old(self) }),
    {
        self.peers = peers;
        self.stakes_and_index = stakes_and_index;
    }
}

/// Whether the peers were last looked up too long ago.
pub fn peers_are_outdated(now: u64, last_peer_update: u64) -> (outdated: bool)
    requires
        last_peer_update <= now,
    ensures
        outdated == (now - last_peer_update > PEER_UPDATE_INTERVAL_MS),
        outdated <==> last_peer_update + 1000 < now,
{
    now - last_peer_update > PEER_UPDATE_INTERVAL_MS
}

/// What retransmission depends on in a packet.
pub struct PacketMeta {
    pub discard: bool,
    pub repair: bool,
    pub forward: bool,
    pub slot: Slot,
    /// the address that the packet came from
    pub source: String,
}

impl PacketMeta {
    /// Discarded packets and repair packets are skipped.
    pub open spec fn is_skipped(self) -> bool {
        self.discard || self.repair
    }
}

/// The number of packets, of the first `end`, that satisfy a condition.
pub open spec fn count_packets(
    packets: Seq<PacketMeta>,
    end: nat,
    condition: spec_fn(PacketMeta) -> bool,
) -> nat
    decreases end,
{
    if end == 0 {
        0
    } else {
        count_packets(packets, (end - 1) as nat, condition) + if condition(packets[end - 1]) {
            1nat
        } else {
            0
        }
    }
}

proof fn lemma_count_bound(
    packets: Seq<PacketMeta>,
    end: nat,
    condition: spec_fn(PacketMeta) -> bool,
)
    ensures
        count_packets(packets, end, condition) <= end,
    decreases end,
{
    if end > 0 {
        lemma_count_bound(packets, (end - 1) as nat, condition);
    }
}

pub open spec fn discarded() -> spec_fn(PacketMeta) -> bool {
    |packet: PacketMeta| packet.discard
}

pub open spec fn repaired() -> spec_fn(PacketMeta) -> bool {
    |packet: PacketMeta| packet.repair && !packet.discard
}

pub open spec fn kept_of_slot(slot: Slot) -> spec_fn(PacketMeta) -> bool {
    |packet: PacketMeta| !packet.is_skipped() && packet.slot == slot
}

pub open spec fn kept_of_source(source: Seq<char>) -> spec_fn(PacketMeta) -> bool {
    |packet: PacketMeta| !packet.is_skipped() && packet.source@ == source
}

/// What a round of retransmission came to.
pub struct RoundTotals {
    /// packets that were not skipped
    pub total_packets: usize,
    pub discard_total: u64,
    pub repair_total: u64,
    /// microseconds spent on sending
    pub retransmit_total: u64,
    /// microseconds spent on finding the peers
    pub compute_turbine_peers_total: u64,
    /// the most peers that there were
    pub peers_len: usize,
    /// number of packets that were not skipped, by slot
    pub packets_by_slot: HashMap<Slot, usize>,
    /// number of packets that were not skipped, by source
    pub packets_by_source: SourceCounts,
}

impl RoundTotals {
    /// The counts are those of the first `end` packets.
    pub open spec fn counts(self, packets: Seq<PacketMeta>, end: nat) -> bool {
        &&& self.discard_total == count_packets(packets, end, discarded())
        &&& self.repair_total == count_packets(packets, end, repaired())
        &&& self.total_packets == packets.len() - self.discard_total - self.repair_total
        &&& self.packets_by_source.wf()
        &&& forall|slot: Slot| #[trigger]
            self.packets_by_slot@.contains_key(slot) <==> count_packets(
                packets,
                end,
                kept_of_slot(slot),
            ) > 0
        &&& forall|slot: Slot| #[trigger]
            self.packets_by_slot@.contains_key(slot) ==> self.packets_by_slot@[slot]
                == count_packets(packets, end, kept_of_slot(slot))
        &&& forall|source: Seq<char>| #[trigger]
            self.packets_by_source@.contains_key(source) <==> count_packets(
                packets,
                end,
                kept_of_source(source),
            ) > 0
        &&& forall|source: Seq<char>| #[trigger]
            self.packets_by_source@.contains_key(source) ==> self.packets_by_source@[source]
                == count_packets(packets, end, kept_of_source(source))
    }
}

/// Peers to send a packet to, by their index.
#[derive(Debug)]
pub struct Transmission {
    pub peers: Vec<usize>,
    pub forwarded: bool,
}

/// The indexes of the peers in shuffled order, without one's own: the stakes are not needed
/// any more.
pub fn other_peer_indexes(
    my_index: usize,
    shuffled_stakes_and_index: &Vec<(u64, usize)>,
) -> (indexes: Vec<usize>)
    requires
        my_index < shuffled_stakes_and_index@.len(),
    ensures
        indexes@ == shuffled_stakes_and_index@.remove(my_index as int).map_values(
            |peer: (u64, usize)| peer.1,
        ),
{
    let mut indexes: Vec<usize> = Vec::new();
    let ghost others = shuffled_stakes_and_index@.remove(my_index as int).map_values(
        |peer: (u64, usize)| peer.1,
    );
    let mut i: usize = 0;
    while i < shuffled_stakes_and_index.len()
        invariant
            i <= shuffled_stakes_and_index@.len(),
            my_index < shuffled_stakes_and_index@.len(),
            others == shuffled_stakes_and_index@.remove(my_index as int).map_values(
                |peer: (u64, usize)| peer.1,
            ),
            indexes@.len() == (if i <= my_index {
                i as int
            } else {
                i - 1
            }),
            forall|j: int| 0 <= j < indexes@.len() ==> indexes@[j] == others[j],
        decreases shuffled_stakes_and_index@.len() - i,
    {
        if i != my_index {
            indexes.push(shuffled_stakes_and_index[i].1);
        }
        i += 1;
    }
    assert(indexes@ =~= others);
    indexes
}

/// How a packet is sent on: to the neighbors as forwarded and to the children as not, unless
/// it was forwarded here already; then only to the children, as forwarded.
pub fn transmissions(
    packet_is_forwarded: bool,
    neighbors: Vec<usize>,
    children: Vec<usize>,
) -> (sends: Vec<Transmission>)
    ensures
        sends@ == (if packet_is_forwarded {
            seq![Transmission { peers: children, forwarded: true }]
        } else {
            seq![
                Transmission { peers: neighbors, forwarded: true },
                Transmission { peers: children, forwarded: false },
            ]
        }),
{
    let mut sends: Vec<Transmission> = Vec::new();
    if !packet_is_forwarded {
        sends.push(Transmission { peers: neighbors, forwarded: true });
        sends.push(Transmission { peers: children, forwarded: false });
    } else {
        sends.push(Transmission { peers: children, forwarded: true });
    }
    sends
}

/// A round of retransmission: goes through the packets that were taken in, and counts.
pub struct RetransmitRound {
    packets: Vec<PacketMeta>,
    next: usize,
    totals: RoundTotals,
}

/// The state of a round.
pub struct RoundView {
    pub packets: Seq<PacketMeta>,
    /// the packets before this one are dealt with
    pub next: nat,
    pub retransmit_total: u64,
    pub compute_turbine_peers_total: u64,
    pub peers_len: usize,
}

impl View for RetransmitRound {
    type V = RoundView;

    closed spec fn view(&self) -> RoundView {
        RoundView {
            packets: self.packets@,
            next: self.next as nat,
            retransmit_total: self.totals.retransmit_total,
            compute_turbine_peers_total: self.totals.compute_turbine_peers_total,
            peers_len: self.totals.peers_len,
        }
    }
}

/// Adds to the count of a slot.
fn count_slot(counts: &mut HashMap<Slot, usize>, slot: Slot, count: usize)
    requires
        old(counts)@.contains_key(slot) ==> old(counts)@[slot] + count <= usize::MAX,
    ensures
        final(counts)@ == old(counts)@.insert(
            slot,
            (if old(counts)@.contains_key(slot) {
                old(counts)@[slot] + count
            } else {
                count as int
            }) as usize,
        ),
{
    let before: usize = match counts.get(&slot) {
        Some(before) => *before,
        None => 0,
    };
    counts.insert(slot, before + count);
}

impl RetransmitRound {
    pub closed spec fn wf(&self) -> bool {
        &&& self.next <= self.packets@.len()
        &&& self.totals.counts(self.packets@, self.next as nat)
    }

    pub fn new(packets: Vec<PacketMeta>) -> (round: Self)
        ensures
            round.wf(),
            round@ == (RoundView {
                packets: packets@,
                next: 0,
                retransmit_total: 0,
                compute_turbine_peers_total: 0,
                peers_len: 0,
            }),
    {
        let total_packets = packets.len();
        RetransmitRound {
            packets,
            next: 0,
            totals: RoundTotals {
                total_packets,
                discard_total: 0,
                repair_total: 0,
                retransmit_total: 0,
                compute_turbine_peers_total: 0,
                peers_len: 0,
                packets_by_slot: HashMap::new(),
                packets_by_source: SourceCounts::new(),
            },
        }
    }

    /// The next packet to send on: the first of those that are left that is not skipped.
    pub fn next_packet(&mut self) -> (packet: Option<usize>)
        requires
            old(self).wf(),
        ensures
            final(self).wf(),
            final(self)@ == (RoundView { next: final(self)@.next, ..old(self)@ }),
            match packet {
                Some(index) => {
                    &&& old(self)@.next <= index < old(self)@.packets.len()
                    &&& !old(self)@.packets[index as int].is_skipped()
                    &&& forall|i: int|
                        old(self)@.next <= i < index ==> (
                        #[trigger] old(self)@.packets[i]).is_skipped()
                    &&& final(self)@.next == index + 1
                },
                None => {
                    &&& forall|i: int|
                        old(self)@.next <= i < old(self)@.packets.len() ==> (
                        #[trigger] old(self)@.packets[i]).is_skipped()
                    &&& final(self)@.next == old(self)@.packets.len()
                },
            },
    {
        while self.next < self.packets.len()
            invariant
                self.wf(),
                old(self)@.next <= self@.next,
                self@ == (RoundView { next: self@.next, ..old(self)@ }),
                forall|i: int|
                    old(self)@.next <= i < self@.next ==> (
                    #[trigger] old(self)@.packets[i]).is_skipped(),
            decreases self.packets@.len() - self.next,
        {
            let ghost packets = self.packets@;
            let ghost end = self.next as nat;
            proof {
                lemma_count_bound(packets, end, discarded());
                lemma_count_bound(packets, end, repaired());
                lemma_skipped_bound(packets, end);
                lemma_skipped_bound(packets, end + 1);
            }
            let index = self.next;
            self.next += 1;
            if self.packets[index].discard {
                self.totals.total_packets -= 1;
                self.totals.discard_total += 1;
                continue;
            }
            if self.packets[index].repair {
                self.totals.total_packets -= 1;
                self.totals.repair_total += 1;
                continue;
            }
            let slot = self.packets[index].slot;
            proof {
                lemma_count_bound(packets, end, kept_of_slot(slot));
                lemma_count_bound(packets, end, kept_of_source(packets[end as int].source@));
            }
            count_slot(&mut self.totals.packets_by_slot, slot, 1);
            self.totals.packets_by_source.count(&self.packets[index].source, 1);
            return Some(index);
        }
        None
    }

    /// Notes how many peers there were for a packet, and the microseconds that it took to find
    /// them and to send the packet.
    pub fn packet_sent(&mut self, peers_len: usize, compute_peers_us: u64, retransmit_us: u64)
        requires
            old(self).wf(),
            old(self)@.compute_turbine_peers_total + compute_peers_us <= u64::MAX,
            old(self)@.retransmit_total + retransmit_us <= u64::MAX,
        ensures
            final(self).wf(),
            final(self)@ == (RoundView {
                peers_len: if peers_len > old(self)@.peers_len {
                    peers_len
                } else {
                    old(self)@.peers_len
                },
                compute_turbine_peers_total: (old(self)@.compute_turbine_peers_total
                    + compute_peers_us) as u64,
                retransmit_total: (old(self)@.retransmit_total + retransmit_us) as u64,
                ..old(self)@
            }),
    {
        if peers_len > self.totals.peers_len {
            self.totals.peers_len = peers_len;
        }
        self.totals.compute_turbine_peers_total += compute_peers_us;
        self.totals.retransmit_total += retransmit_us;
    }

    /// What the round came to, once all packets are dealt with.
    pub fn finish(self) -> (totals: RoundTotals)
        requires
            self.wf(),
            self@.next == self@.packets.len(),
        ensures
            totals.counts(self@.packets, self@.packets.len()),
            totals.retransmit_total == self@.retransmit_total,
            totals.compute_turbine_peers_total == self@.compute_turbine_peers_total,
            totals.peers_len == self@.peers_len,
    {
        self.totals
    }
}

/// No packet counts both as discarded and as a repair packet.
proof fn lemma_skipped_bound(packets: Seq<PacketMeta>, end: nat)
    ensures
        count_packets(packets, end, discarded()) + count_packets(packets, end, repaired()) <= end,
    decreases end,
{
    if end > 0 {
        lemma_skipped_bound(packets, (end - 1) as nat);
    }
}

/// Every packet of a round is retransmitted, discarded or a repair packet.
pub proof fn law_every_packet_is_accounted_for(totals: RoundTotals, packets: Seq<PacketMeta>)
    requires
        totals.counts(packets, packets.len()),
    ensures
        totals.total_packets == count_packets(
            packets,
            packets.len(),
            |packet: PacketMeta| !packet.is_skipped(),
        ),
        totals.total_packets + totals.discard_total + totals.repair_total == packets.len(),
{
    lemma_partition(packets, packets.len());
}

proof fn lemma_partition(packets: Seq<PacketMeta>, end: nat)
    ensures
        count_packets(packets, end, |packet: PacketMeta| !packet.is_skipped()) + count_packets(
            packets,
            end,
            discarded(),
        ) + count_packets(packets, end, repaired()) == end,
    decreases end,
{
    if end > 0 {
        lemma_partition(packets, (end - 1) as nat);
    }
}

/// A count of packets is the number of those that satisfy the condition.
proof fn lemma_count_is_filter(
    packets: Seq<PacketMeta>,
    end: nat,
    condition: spec_fn(PacketMeta) -> bool,
    other: spec_fn(PacketMeta) -> bool,
)
    requires
        end <= packets.len(),
        forall|packet: PacketMeta| #[trigger] condition(packet) == other(packet),
    ensures
        count_packets(packets, end, condition) == packets.take(end as int).filter(other).len(),
    decreases end,
{
    reveal(Seq::filter);
    if end > 0 {
        lemma_count_is_filter(packets, (end - 1) as nat, condition, other);
        assert(packets.take(end as int).drop_last() =~= packets.take(end - 1));
        assert(packets.take(end as int).last() == packets[end - 1]);
        assert(condition(packets[end - 1]) == other(packets[end - 1]));
    }
}

/// Packets are counted by what they are: a discarded packet as discarded, another repair packet
/// as a repair packet, and any other in total, under its slot and under its source; a slot or a
/// source without such packets is not listed.
pub proof fn law_packets_are_counted(totals: RoundTotals, packets: Seq<PacketMeta>)
    requires
        totals.counts(packets, packets.len()),
    ensures
        totals.discard_total == packets.filter(|packet: PacketMeta| packet.discard).len(),
        totals.repair_total == packets.filter(
            |packet: PacketMeta| !packet.discard && packet.repair,
        ).len(),
        totals.total_packets == packets.filter(
            |packet: PacketMeta| !packet.discard && !packet.repair,
        ).len(),
        forall|slot: Slot| #[trigger]
            totals.packets_by_slot@.contains_key(slot) <==> packets.filter(
                |packet: PacketMeta| !packet.discard && !packet.repair && packet.slot == slot,
            ).len() > 0,
        forall|slot: Slot| #[trigger]
            totals.packets_by_slot@.contains_key(slot) ==> totals.packets_by_slot@[slot]
                == packets.filter(
                |packet: PacketMeta| !packet.discard && !packet.repair && packet.slot == slot,
            ).len(),
        forall|source: Seq<char>| #[trigger]
            totals.packets_by_source@.contains_key(source) <==> packets.filter(
                |packet: PacketMeta|
                    !packet.discard && !packet.repair && packet.source@ == source,
            ).len() > 0,
        forall|source: Seq<char>| #[trigger]
            totals.packets_by_source@.contains_key(source) ==> totals.packets_by_source@[source]
                == packets.filter(
                |packet: PacketMeta|
                    !packet.discard && !packet.repair && packet.source@ == source,
            ).len(),
{
    let end = packets.len();
    assert(packets.take(end as int) =~= packets);
    law_every_packet_is_accounted_for(totals, packets);
    lemma_count_is_filter(packets, end, discarded(), |packet: PacketMeta| packet.discard);
    lemma_count_is_filter(
        packets,
        end,
        repaired(),
        |packet: PacketMeta| !packet.discard && packet.repair,
    );
    lemma_count_is_filter(
        packets,
        end,
        |packet: PacketMeta| !packet.is_skipped(),
        |packet: PacketMeta| !packet.discard && !packet.repair,
    );
    assert forall|slot: Slot| count_packets(packets, end, #[trigger] kept_of_slot(slot))
        == packets.filter(
        |packet: PacketMeta| !packet.discard && !packet.repair && packet.slot == slot,
    ).len() by {
        lemma_count_is_filter(
            packets,
            end,
            kept_of_slot(slot),
            |packet: PacketMeta| !packet.discard && !packet.repair && packet.slot == slot,
        );
    }
    assert forall|source: Seq<char>| count_packets(packets, end, #[trigger] kept_of_source(source))
        == packets.filter(
        |packet: PacketMeta| !packet.discard && !packet.repair && packet.source@ == source,
    ).len() by {
        lemma_count_is_filter(
            packets,
            end,
            kept_of_source(source),
            |packet: PacketMeta| !packet.discard && !packet.repair && packet.source@ == source,
        );
    }
}

/// Why a round of retransmission ended early.
#[derive(Clone, Copy, Debug, PartialEq, Eq, Structural)]
pub enum RetransmitError {
    /// no more packets can come
    Disconnected,
    /// no packets came for a while
    Timeout,
    Other,
}

/// What a retransmitting thread does after a round.
#[derive(Clone, Copy, Debug, PartialEq, Eq, Structural)]
pub enum AfterRound {
    Continue,
    CountError,
    Exit,
}

/// A thread ends when no more packets can come, and counts errors other than timeouts.
pub fn after_round(result: Result<(), RetransmitError>) -> (after: AfterRound)
    ensures
        after == AfterRound::Exit <==> result == Err::<(), RetransmitError>(
            RetransmitError::Disconnected,
        ),
        after == AfterRound::CountError <==> result == Err::<(), RetransmitError>(
            RetransmitError::Other,
        ),
{
    match result {
        Err(RetransmitError::Disconnected) => AfterRound::Exit,
        Err(RetransmitError::Timeout) => AfterRound::Continue,
        Err(RetransmitError::Other) => AfterRound::CountError,
        Ok(()) => AfterRound::Continue,
    }
}

/// Whether a shred that is worth it is retransmitted and kept: only while the node is
/// connected, which it is taken to be where nothing tells.
pub fn retransmits_shred(should_retransmit_and_persist: bool, is_connected: Option<bool>) -> (keep:
    bool)
    ensures
        keep == (should_retransmit_and_persist && is_connected != Some(false)),
{
    should_retransmit_and_persist && is_connected.unwrap_or(true)
}

} // verus!
