//! Statistics of retransmission.

use std::collections::BTreeMap;
use std::collections::HashMap;

use vstd::prelude::*;
use vstd::std_specs::iter::IteratorSpec;

use super::source_counts::SourceCounts;
use super::RoundTotals;
use crate::clock::Slot;
use crate::collections::slots_of;

verus! {

/// Milliseconds between two reports.
pub const REPORT_INTERVAL_MS: u64 = 2000;

/// Number of sources that are reported at most.
pub const TOP_SOURCES: usize = 5;

/// Totals since the last report.
#[derive(Clone, Copy, Debug, PartialEq, Eq, Structural)]
pub struct StatTotals {
    pub total_packets: u64,
    pub total_batches: u64,
    pub total_time: u64,
    pub epoch_fetch: u64,
    pub epoch_cache_update: u64,
    pub repair_total: u64,
    pub discard_total: u64,
    pub retransmit_total: u64,
    pub compute_turbine_peers_total: u64,
}

/// The times, in microseconds, of a round and of its preparation.
#[derive(Clone, Copy, Debug, PartialEq, Eq, Structural)]
pub struct RoundTimes {
    pub total_time: u64,
    pub epoch_fetch: u64,
    pub epoch_cache_update: u64,
}

/// The sum as a counter that starts over behind its largest value.
#[verifier::opaque]
pub open spec fn counter_sum(counter: u64, amount: int) -> u64 {
    ((counter + amount) % 0x1_0000_0000_0000_0000) as u64
}

fn count_on(counter: u64, amount: u64) -> (sum: u64)
    ensures
        sum == counter_sum(counter, amount as int),
{
    reveal(counter_sum);
    counter.wrapping_add(amount)
}

impl StatTotals {
    pub open spec fn zero() -> StatTotals {
        StatTotals {
            total_packets: 0,
            total_batches: 0,
            total_time: 0,
            epoch_fetch: 0,
            epoch_cache_update: 0,
            repair_total: 0,
            discard_total: 0,
            retransmit_total: 0,
            compute_turbine_peers_total: 0,
        }
    }

    pub fn new() -> (totals: Self)
        ensures
            totals == StatTotals::zero(),
    {
        StatTotals {
            total_packets: 0,
            total_batches: 0,
            total_time: 0,
            epoch_fetch: 0,
            epoch_cache_update: 0,
            repair_total: 0,
            discard_total: 0,
            retransmit_total: 0,
            compute_turbine_peers_total: 0,
        }
    }

    /// A round is added.
    pub open spec fn with_round(self, round: RoundTotals, times: RoundTimes) -> StatTotals {
        StatTotals {
            total_packets: counter_sum(self.total_packets, round.total_packets as int),
            total_batches: counter_sum(self.total_batches, 1),
            total_time: counter_sum(self.total_time, times.total_time as int),
            epoch_fetch: counter_sum(self.epoch_fetch, times.epoch_fetch as int),
            epoch_cache_update: counter_sum(
                self.epoch_cache_update,
                times.epoch_cache_update as int,
            ),
            repair_total: counter_sum(self.repair_total, round.repair_total as int),
            discard_total: counter_sum(self.discard_total, round.discard_total as int),
            retransmit_total: counter_sum(self.retransmit_total, round.retransmit_total as int),
            compute_turbine_peers_total: counter_sum(
                self.compute_turbine_peers_total,
                round.compute_turbine_peers_total as int,
            ),
        }
    }

    fn add_round(&mut self, round: &RoundTotals, times: &RoundTimes)
        requires
            round.total_packets <= u64::MAX,
        ensures
            *final(self) == old(self).with_round(*round, *times),
    {
        self.total_time = count_on(self.total_time, times.total_time);
        self.total_packets = count_on(self.total_packets, round.total_packets as u64);
        self.retransmit_total = count_on(self.retransmit_total, round.retransmit_total);
        self.repair_total = count_on(self.repair_total, round.repair_total);
        self.discard_total = count_on(self.discard_total, round.discard_total);
        self.compute_turbine_peers_total = count_on(
            self.compute_turbine_peers_total,
            round.compute_turbine_peers_total,
        );
        self.total_batches = count_on(self.total_batches, 1);
        self.epoch_fetch = count_on(self.epoch_fetch, times.epoch_fetch);
        self.epoch_cache_update = count_on(self.epoch_cache_update, times.epoch_cache_update);
    }
}

/// The smallest of the counts.
#[verifier::opaque]
pub open spec fn smallest(counts: Set<usize>) -> usize {
    choose|least: usize|
        counts.contains(least) && forall|count: usize| #[trigger]
            counts.contains(count) ==> least <= count
}

/// The count that a source has to exceed to come into the top.
pub open spec fn top_floor(top: Map<usize, Seq<char>>) -> usize {
    if top.dom().len() == 0 {
        0
    } else {
        smallest(top.dom())
    }
}

/// The top after one more source was looked at: it comes in where its count exceeds the
/// smallest one there, in place of a source with the same count, and where there are too many
/// the one with the smallest count leaves.
#[verifier::opaque]
pub open spec fn top_with(top: Map<usize, Seq<char>>, entry: (Seq<char>, usize)) -> Map<
    usize,
    Seq<char>,
> {
    if entry.1 > top_floor(top) {
        let grown = top.insert(entry.1, entry.0);
        if grown.dom().len() > TOP_SOURCES {
            grown.remove(smallest(grown.dom()))
        } else {
            grown
        }
    } else {
        top
    }
}

/// The top of sources that are looked at one after the other.
pub open spec fn top_of(entries: Seq<(Seq<char>, usize)>) -> Map<usize, Seq<char>>
    decreases entries.len(),
{
    if entries.len() == 0 {
        Map::empty()
    } else {
        top_with(top_of(entries.drop_last()), entries.last())
    }
}

/// The names of sources by their counts.
pub open spec fn names(top: Map<usize, String>) -> Map<usize, Seq<char>> {
    top.map_values(|source: String| source@)
}

proof fn lemma_smallest(counts: Set<usize>, least: usize)
    requires
        counts.contains(least),
        forall|count: usize| #[trigger] counts.contains(count) ==> least <= count,
    ensures
        least == smallest(counts),
{
    reveal(smallest);
    let other = smallest(counts);
    assert(counts.contains(other) && other <= least);
}

/// Counts are ordered as integers are.
proof fn lemma_counts_are_ordered()
    ensures
        vstd::laws_cmp::obeys_cmp::<usize>(),
{
    broadcast use vstd::laws_cmp::group_laws_cmp;

}

fn smallest_count(top: &BTreeMap<usize, String>) -> (least: usize)
    ensures
        least == top_floor(names(top@)),
        top@.dom().len() > 0 ==> top@.contains_key(least) && least == smallest(top@.dom()),
{
    let mut least: Option<usize> = None;
    let ghost all = IteratorSpec::remaining(&top.keys()).unref();
    broadcast use vstd::std_specs::btree::group_btree_axioms;

    proof {
        lemma_counts_are_ordered();
    }
    for count in iter: top.keys()
        invariant
            iter.index() <= iter.seq().len(),
            iter.seq().unref() == all,
            least is None ==> iter.index() == 0,
            least matches Some(least) ==> exists|j: int|
                0 <= j < iter.index() && #[trigger] all[j] == least,
            least matches Some(least) ==> forall|j: int|
                0 <= j < iter.index() ==> least <= #[trigger] all[j],
    {
        assert(all[iter.index() as int] == *count);
        match least {
            Some(known) => {
                if *count < known {
                    least = Some(*count);
                }
            },
            None => {
                least = Some(*count);
            },
        }
    }
    assert(names(top@).dom() =~= top@.dom());
    assert(all.to_set() == top@.dom());
    match least {
        Some(least) => {
            proof {
                assert(all.to_set().contains(least));
                assert forall|count: usize| #[trigger] top@.dom().contains(count) implies least
                    <= count by {
                    assert(all.to_set().contains(count));
                }
                lemma_smallest(top@.dom(), least);
                assert(top@.dom().len() > 0) by {
                    if top@.dom().len() == 0 {
                        assert(top@.dom() =~= Set::empty());
                    }
                }
            }
            least
        },
        None => {
            proof {
                assert(all.len() == 0);
                assert(top@.dom() =~= Set::empty());
            }
            0
        },
    }
}

/// Looks at one more source.
fn add_to_top(top: &mut BTreeMap<usize, String>, source: &str, count: usize)
    ensures
        names(final(top)@) == top_with(names(old(top)@), (source@, count)),
{
    proof {
        reveal(top_with);
        lemma_counts_are_ordered();
    }
    let ghost before = names(top@);
    if count > smallest_count(top) {
        top.insert(count, source.to_owned());
        assert(names(top@) =~= before.insert(count, source@));
        assert(names(top@).dom() =~= top@.dom());
        if top.len() > TOP_SOURCES {
            let last = smallest_count(top);
            let ghost grown = names(top@);
            top.remove(&last);
            assert(names(top@) =~= grown.remove(last));
        }
    }
}

/// The sources with the most packets, by their counts.
pub fn top_sources(counts: &SourceCounts) -> (top: BTreeMap<usize, String>)
    ensures
        names(top@) == top_of(counts.spec_entries()),
{
    let mut top: BTreeMap<usize, String> = BTreeMap::new();
    let ghost entries = counts.spec_entries();
    let mut i: usize = 0;
    assert(names(top@) =~= Map::empty());
    assert(entries.take(0) =~= Seq::empty());
    while i < counts.len()
        invariant
            entries == counts.spec_entries(),
            i <= entries.len(),
            names(top@) == top_of(entries.take(i as int)),
        decreases entries.len() - i,
    {
        assert(entries.take(i + 1).drop_last() =~= entries.take(i as int));
        let entry = counts.entry(i);
        add_to_top(&mut top, entry.0, entry.1);
        i += 1;
    }
    assert(entries.take(i as int) =~= entries);
    top
}

/// What is reported.
pub struct RetransmitReport {
    pub num_nodes: usize,
    pub totals: StatTotals,
    pub packets_by_slot: BTreeMap<Slot, usize>,
    pub top_sources: BTreeMap<usize, String>,
    pub num_sources: usize,
}

/// Statistics since the last report.
pub struct RetransmitStats {
    pub totals: StatTotals,
    /// milliseconds at the last report
    pub last_ts: u64,
    pub packets_by_slot: BTreeMap<Slot, usize>,
    pub packets_by_source: SourceCounts,
}

/// The counts of both.
pub open spec fn sum_counts<K>(counts: Map<K, usize>, more: Map<K, usize>) -> Map<K, usize> {
    Map::new(
        |key: K| counts.contains_key(key) || more.contains_key(key),
        |key: K|
            if !counts.contains_key(key) {
                more[key]
            } else if !more.contains_key(key) {
                counts[key]
            } else {
                (counts[key] + more[key]) as usize
            },
    )
}

/// No count grows too large.
pub open spec fn counts_fit<K>(counts: Map<K, usize>, more: Map<K, usize>) -> bool {
    forall|key: K|
        counts.contains_key(key) && #[trigger] more.contains_key(key) ==> counts[key] + more[key]
            <= usize::MAX
}

proof fn lemma_slots_are_ordered()
    ensures
        vstd::laws_cmp::obeys_cmp::<Slot>(),
{
    broadcast use vstd::laws_cmp::group_laws_cmp;

}

/// Adds to the count of a slot.
fn add_to_slot(counts: &mut BTreeMap<Slot, usize>, slot: Slot, count: usize)
    requires
        old(counts)@.contains_key(slot) ==> old(counts)@[slot] + count <= usize::MAX,
    ensures
        final(counts)@ == old(counts)@.insert(
            slot,
            (if old(counts)@.contains_key(slot) {
                old(counts)@[slot] + count
            } else {
                count as int
            }) as usize,
        ),
{
    proof {
        lemma_slots_are_ordered();
    }
    let so_far: usize = match counts.get(&slot) {
        Some(so_far) => *so_far,
        None => 0,
    };
    counts.insert(slot, so_far + count);
}

/// Adds counts by slot.
fn add_slot_counts(counts: &mut BTreeMap<Slot, usize>, more: &HashMap<Slot, usize>)
    requires
        counts_fit(old(counts)@, more@),
    ensures
        final(counts)@ == sum_counts(old(counts)@, more@),
{
    let slots = slots_of(more);
    let ghost before = counts@;
    let mut i: usize = 0;
    while i < slots.len()
        invariant
            i <= slots@.len(),
            counts_fit(before, more@),
            slots@.no_duplicates(),
            slots@.to_set() == more@.dom(),
            forall|slot: Slot| #[trigger]
                counts@.contains_key(slot) <==> before.contains_key(slot) || exists|j: int|
                    0 <= j < i && #[trigger] slots@[j] == slot,
            forall|j: int|
                0 <= j < i ==> counts@[#[trigger] slots@[j]] == sum_counts(before, more@)[slots@[j]],
            forall|slot: Slot| #[trigger]
                before.contains_key(slot) && !(exists|j: int|
                    0 <= j < i && #[trigger] slots@[j] == slot) ==> counts@[slot] == before[slot],
        decreases slots@.len() - i,
    {
        let slot = slots[i];
        assert(slots@.to_set().contains(slot));
        let ghost current = counts@;
        match more.get(&slot) {
            Some(count) => {
                add_to_slot(counts, slot, *count);
            },
            None => {},
        }
        proof {
            assert forall|s: Slot| #[trigger]
                counts@.contains_key(s) <==> before.contains_key(s) || exists|j: int|
                    0 <= j < i + 1 && #[trigger] slots@[j] == s by {
                if s == slot {
                    assert(slots@[i as int] == s);
                } else if current.contains_key(s) && !before.contains_key(s) {
                    let j = choose|j: int| 0 <= j < i && #[trigger] slots@[j] == s;
                    assert(slots@[j] == s);
                }
            }
            assert forall|s: Slot| #[trigger]
                before.contains_key(s) && !(exists|j: int|
                    0 <= j < i + 1 && #[trigger] slots@[j] == s) implies counts@[s] == before[s] by {
                assert(slots@[i as int] == slot);
                assert(s != slot);
                assert(current.contains_key(s));
                assert(!(exists|j: int| 0 <= j < i && #[trigger] slots@[j] == s));
            }
        }
        i += 1;
    }
    proof {
        let target = sum_counts(before, more@);
        assert forall|slot: Slot| #[trigger]
            counts@.contains_key(slot) == target.contains_key(slot) && (counts@.contains_key(slot)
            ==> counts@[slot] == target[slot]) by {
            if more@.contains_key(slot) {
                assert(slots@.to_set().contains(slot));
                let j = choose|j: int| 0 <= j < slots@.len() && slots@[j] == slot;
                assert(slots@[j] == slot);
            } else {
                assert forall|j: int| 0 <= j < slots@.len() implies #[trigger] slots@[j]
                    != slot by {
                    assert(slots@.to_set().contains(slots@[j]));
                }
            }
        }
        assert(counts@ =~= target);
    }
}

proof fn lemma_sum_extends(
    before: Map<Seq<char>, usize>,
    entries: Seq<(Seq<char>, usize)>,
    i: int,
)
    requires
        super::source_counts::ascending(entries),
        0 <= i < entries.len(),
        counts_fit(before, super::source_counts::counts_of(entries)),
    ensures
        ({
            let some = super::source_counts::counts_of(entries.take(i));
            let more = super::source_counts::counts_of(entries.take(i + 1));
            let sum = sum_counts(before, some);
            let (source, count) = entries[i];
            &&& !some.contains_key(source)
            &&& sum.contains_key(source) == before.contains_key(source)
            &&& sum.contains_key(source) ==> sum[source] + count <= usize::MAX
            &&& sum_counts(before, more) == sum.insert(
                source,
                (if sum.contains_key(source) {
                    sum[source] + count
                } else {
                    count as int
                }) as usize,
            )
        }),
{
    let shorter = entries.take(i);
    let longer = entries.take(i + 1);
    let some = super::source_counts::counts_of(shorter);
    let more = super::source_counts::counts_of(longer);
    let (source, count) = entries[i];
    assert forall|j: int, k: int| 0 <= j < k < shorter.len() implies super::source_counts::precedes(
        (#[trigger] shorter[j]).0,
        (#[trigger] shorter[k]).0,
    ) by {
        assert(shorter[j] == entries[j] && shorter[k] == entries[k]);
    }
    assert forall|j: int| 0 <= j < i implies super::source_counts::precedes(
        (#[trigger] shorter[j]).0,
        source,
    ) by {
        assert(shorter[j] == entries[j]);
    }
    super::source_counts::lemma_counts_insert(shorter, i, entries[i]);
    assert(shorter.insert(i, entries[i]) =~= longer);
    super::source_counts::lemma_entry_unique(entries, i);
    let sum = sum_counts(before, some);
    let target = sum.insert(
        source,
        (if sum.contains_key(source) {
            sum[source] + count
        } else {
            count as int
        }) as usize,
    );
    assert(sum_counts(before, more) =~= target);
}

/// Adds counts by source.
fn add_source_counts(counts: &mut SourceCounts, more: &SourceCounts)
    requires
        old(counts).wf(),
        more.wf(),
        counts_fit(old(counts)@, more@),
    ensures
        final(counts).wf(),
        final(counts)@ == sum_counts(old(counts)@, more@),
{
    let ghost before = counts@;
    let ghost entries = more.spec_entries();
    let mut i: usize = 0;
    proof {
        let none = super::source_counts::counts_of(entries.take(0));
        assert(none =~= Map::empty());
        assert(sum_counts(before, none) =~= before);
    }
    while i < more.len()
        invariant
            entries == more.spec_entries(),
            i <= entries.len(),
            counts.wf(),
            more.wf(),
            counts_fit(before, more@),
            counts@ == sum_counts(before, super::source_counts::counts_of(entries.take(i as int))),
        decreases entries.len() - i,
    {
        proof {
            lemma_sum_extends(before, entries, i as int);
        }
        let entry = more.entry(i);
        counts.count(entry.0, entry.1);
        i += 1;
    }
    assert(entries.take(i as int) =~= entries);
}

impl RetransmitStats {
    pub open spec fn wf(&self) -> bool {
        self.packets_by_source.wf()
    }

    pub fn new() -> (stats: Self)
        ensures
            stats.wf(),
            stats.totals == StatTotals::zero(),
            stats.last_ts == 0,
            stats.packets_by_slot@ == Map::<Slot, usize>::empty(),
            stats.packets_by_source@ == Map::<Seq<char>, usize>::empty(),
    {
        RetransmitStats {
            totals: StatTotals::new(),
            last_ts: 0,
            packets_by_slot: BTreeMap::new(),
            packets_by_source: SourceCounts::new(),
        }
    }

    /// Adds a round. Where the last report is too long ago, what was added up is reported, and
    /// starts over.
    pub fn update_retransmit_stats(
        &mut self,
        round: &RoundTotals,
        times: &RoundTimes,
        now: u64,
    ) -> (report: Option<RetransmitReport>)
        requires
            old(self).wf(),
            old(self).last_ts <= now,
            round.packets_by_source.wf(),
            round.total_packets <= u64::MAX,
            counts_fit(old(self).packets_by_slot@, round.packets_by_slot@),
            counts_fit(old(self).packets_by_source@, round.packets_by_source@),
        ensures
            final(self).wf(),
            report is Some <==> now - old(self).last_ts > REPORT_INTERVAL_MS,
            report is Some <==> old(self).last_ts + 2000 < now,
            match report {
                None => {
                    &&& final(self).totals == old(self).totals.with_round(*round, *times)
                    &&& final(self).last_ts == old(self).last_ts
                    &&& final(self).packets_by_slot@ == sum_counts(
                        old(self).packets_by_slot@,
                        round.packets_by_slot@,
                    )
                    &&& final(self).packets_by_source@ == sum_counts(
                        old(self).packets_by_source@,
                        round.packets_by_source@,
                    )
                },
                Some(report) => {
                    &&& report.num_nodes == round.peers_len
                    &&& report.totals == old(self).totals.with_round(*round, *times)
                    &&& report.packets_by_slot@ == sum_counts(
                        old(self).packets_by_slot@,
                        round.packets_by_slot@,
                    )
                    &&& exists|entries: Seq<(Seq<char>, usize)>|
                        {
                            &&& #[trigger] super::source_counts::ascending(entries)
                            &&& super::source_counts::counts_of(entries) == sum_counts(
                                old(self).packets_by_source@,
                                round.packets_by_source@,
                            )
                            &&& report.num_sources == entries.len()
                            &&& names(report.top_sources@) == top_of(entries)
                        }
                    &&& final(self).totals == StatTotals::zero()
                    &&& final(self).last_ts == now
                    &&& final(self).packets_by_slot@ == Map::<Slot, usize>::empty()
                    &&& final(self).packets_by_source@ == Map::<Seq<char>, usize>::empty()
                },
            },
    {
        self.totals.add_round(round, times);
        add_slot_counts(&mut self.packets_by_slot, &round.packets_by_slot);
        add_source_counts(&mut self.packets_by_source, &round.packets_by_source);
        if now - self.last_ts > REPORT_INTERVAL_MS {
            self.last_ts = now;
            let top = top_sources(&self.packets_by_source);
            let num_sources = self.packets_by_source.len();
            assert(super::source_counts::ascending(self.packets_by_source.spec_entries()));
            let totals = self.totals;
            self.totals = StatTotals::new();
            let mut packets_by_slot: BTreeMap<Slot, usize> = BTreeMap::new();
            std::mem::swap(&mut packets_by_slot, &mut self.packets_by_slot);
            self.packets_by_source = SourceCounts::new();
            Some(
                RetransmitReport {
                    num_nodes: round.peers_len,
                    totals,
                    packets_by_slot,
                    top_sources: top,
                    num_sources,
                },
            )
        } else {
            None
        }
    }
}

proof fn lemma_smallest_exists(counts: Set<usize>)
    requires
        counts.finite(),
        counts.len() > 0,
    ensures
        counts.contains(smallest(counts)),
        forall|count: usize| #[trigger] counts.contains(count) ==> smallest(counts) <= count,
    decreases counts.len(),
{
    let some = counts.choose();
    let rest = counts.remove(some);
    if rest.len() == 0 {
        assert forall|count: usize| #[trigger] counts.contains(count) implies some <= count by {
            if count != some {
                assert(rest.contains(count));
            }
        }
        lemma_smallest(counts, some);
    } else {
        lemma_smallest_exists(rest);
        let other = smallest(rest);
        let least = if some < other {
            some
        } else {
            other
        };
        assert forall|count: usize| #[trigger] counts.contains(count) implies least <= count by {
            if count != some {
                assert(rest.contains(count));
            }
        }
        lemma_smallest(counts, least);
    }
}

/// Whether some named count is at least as large as `bound`.
pub open spec fn reaches(top: Map<usize, Seq<char>>, bound: usize) -> bool {
    exists|count: usize| #[trigger] top.contains_key(count) && count >= bound
}

proof fn lemma_top_step(top: Map<usize, Seq<char>>, entry: (Seq<char>, usize))
    requires
        top.dom().finite(),
        top.dom().len() <= TOP_SOURCES,
    ensures
        top_with(top, entry).dom().finite(),
        top_with(top, entry).dom().len() <= TOP_SOURCES,
        forall|count: usize| #[trigger]
            top_with(top, entry).contains_key(count) ==> {
                ||| count == entry.1 && count > 0 && top_with(top, entry)[count] == entry.0
                ||| top.contains_key(count) && top_with(top, entry)[count] == top[count]
            },
        forall|bound: usize| reaches(top, bound) ==> #[trigger] reaches(
            top_with(top, entry),
            bound,
        ),
        entry.1 > 0 ==> reaches(top_with(top, entry), entry.1),
{
    reveal(top_with);
    let after = top_with(top, entry);
    let grown = top.insert(entry.1, entry.0);
    assert(grown.dom() =~= top.dom().insert(entry.1));
    if top.dom().len() > 0 {
        lemma_smallest_exists(top.dom());
        assert(top.contains_key(smallest(top.dom())));
    }
    if entry.1 > top_floor(top) {
        if grown.dom().len() > TOP_SOURCES {
            let least = smallest(grown.dom());
            lemma_smallest_exists(grown.dom());
            assert(after.dom() =~= grown.dom().remove(least));
            assert(grown.dom().contains(smallest(top.dom())));
            assert(least != entry.1);
            assert(after.contains_key(entry.1));
            assert forall|bound: usize| reaches(top, bound) implies #[trigger] reaches(
                after,
                bound,
            ) by {
                let count = choose|count: usize| #[trigger]
                    top.contains_key(count) && count >= bound;
                if count != least {
                    assert(after.contains_key(count));
                } else {
                    assert(grown.dom().contains(entry.1));
                }
            }
        } else {
            assert(after.contains_key(entry.1));
            assert forall|bound: usize| reaches(top, bound) implies #[trigger] reaches(
                after,
                bound,
            ) by {
                let count = choose|count: usize| #[trigger]
                    top.contains_key(count) && count >= bound;
                assert(after.contains_key(count));
            }
        }
    }
}

/// The report names at most as many sources as it may, each with a count that is its own, and
/// no source has a larger count than the largest that is named.
pub proof fn law_top_sources(entries: Seq<(Seq<char>, usize)>)
    ensures
        top_of(entries).dom().finite(),
        top_of(entries).dom().len() <= TOP_SOURCES,
        forall|count: usize| #[trigger]
            top_of(entries).contains_key(count) ==> count > 0 && entries.contains(
                (top_of(entries)[count], count),
            ),
        forall|i: int|
            0 <= i < entries.len() && (#[trigger] entries[i]).1 > 0 ==> reaches(
                top_of(entries),
                entries[i].1,
            ),
    decreases entries.len(),
{
    if entries.len() > 0 {
        let shorter = entries.drop_last();
        let last = entries.last();
        let top = top_of(shorter);
        let after = top_of(entries);
        law_top_sources(shorter);
        lemma_top_step(top, last);
        assert forall|count: usize| #[trigger] after.contains_key(count) implies count > 0
            && entries.contains((after[count], count)) by {
            if count == last.1 && count > 0 && after[count] == last.0 {
                assert(entries[entries.len() - 1] == (after[count], count));
            } else {
                let j = choose|j: int| 0 <= j < shorter.len() && shorter[j] == (top[count], count);
                assert(entries[j] == (after[count], count));
            }
        }
        assert forall|i: int|
            0 <= i < entries.len() && (#[trigger] entries[i]).1 > 0 implies reaches(
            after,
            entries[i].1,
        ) by {
            if i < shorter.len() {
                assert(shorter[i] == entries[i]);
                assert(reaches(top, entries[i].1));
            }
        }
    }
}

/// Counters of a round are added field by field, each for itself, and start over behind their
/// largest value; every round is one batch more. A report starts them all at zero.
pub proof fn law_rounds_add_up(totals: StatTotals, round: RoundTotals, times: RoundTimes)
    ensures
        ({
            let after = totals.with_round(round, times);
            let over: int = 0x1_0000_0000_0000_0000;
            &&& after.total_packets == (totals.total_packets + round.total_packets) % over
            &&& after.total_batches == (totals.total_batches + 1) % over
            &&& after.total_time == (totals.total_time + times.total_time) % over
            &&& after.epoch_fetch == (totals.epoch_fetch + times.epoch_fetch) % over
            &&& after.epoch_cache_update == (totals.epoch_cache_update + times.epoch_cache_update)
                % over
            &&& after.repair_total == (totals.repair_total + round.repair_total) % over
            &&& after.discard_total == (totals.discard_total + round.discard_total) % over
            &&& after.retransmit_total == (totals.retransmit_total + round.retransmit_total) % over
            &&& after.compute_turbine_peers_total == (totals.compute_turbine_peers_total
                + round.compute_turbine_peers_total) % over
        }),
        StatTotals::zero().total_packets == 0,
        StatTotals::zero().total_batches == 0,
        StatTotals::zero().total_time == 0,
        StatTotals::zero().epoch_fetch == 0,
        StatTotals::zero().epoch_cache_update == 0,
        StatTotals::zero().repair_total == 0,
        StatTotals::zero().discard_total == 0,
        StatTotals::zero().retransmit_total == 0,
        StatTotals::zero().compute_turbine_peers_total == 0,
{
    reveal(counter_sum);
}

/// The counts of both are added under each name: what one of them lacks counts as nothing there,
/// and what both lack is lacking.
pub proof fn law_counts_are_summed<K>(counts: Map<K, usize>, more: Map<K, usize>, key: K)
    requires
        counts_fit(counts, more),
    ensures
        sum_counts(counts, more).contains_key(key) <==> counts.contains_key(key)
            || more.contains_key(key),
        sum_counts(counts, more).contains_key(key) ==> sum_counts(counts, more)[key] == (
        if counts.contains_key(key) {
            counts[key] as int
        } else {
            0
        }) + (if more.contains_key(key) {
            more[key] as int
        } else {
            0
        }),
{
}

/// What one more source does to the top. It comes in where there is none yet and it has a count,
/// or where its count is larger than one that is there. Then it is named for its count, and all
/// others stay, but for the smallest one where there would be more than five.
pub proof fn law_source_comes_into_top(top: Map<usize, Seq<char>>, entry: (Seq<char>, usize))
    requires
        top.dom().finite(),
        top.dom().len() <= 5,
    ensures
        ({
            let after = top_with(top, entry);
            let comes_in = if top.dom().len() == 0 {
                entry.1 > 0
            } else {
                exists|count: usize| #[trigger] top.contains_key(count) && count < entry.1
            };
            let crowded = top.dom().len() == 5 && !top.contains_key(entry.1);
            &&& !comes_in ==> after == top
            &&& comes_in ==> {
                &&& after.contains_key(entry.1)
                &&& after[entry.1] == entry.0
                &&& forall|count: usize|
                    count != entry.1 ==> (#[trigger] after.contains_key(count) <==> (
                    top.contains_key(count) && (crowded ==> exists|less: usize| #[trigger]
                        top.contains_key(less) && less < count)))
                &&& forall|count: usize|
                    count != entry.1 && #[trigger] after.contains_key(count) ==> after[count]
                        == top[count]
            }
        }),
        top_of(Seq::empty()) == Map::<usize, Seq<char>>::empty(),
{
    reveal(top_with);
    let after = top_with(top, entry);
    let grown = top.insert(entry.1, entry.0);
    assert(grown.dom() =~= top.dom().insert(entry.1));
    if top.dom().len() > 0 {
        lemma_smallest_exists(top.dom());
        let least = smallest(top.dom());
        assert(top.contains_key(least));
        if entry.1 > top_floor(top) && grown.dom().len() > TOP_SOURCES {
            assert forall|count: usize| #[trigger] grown.dom().contains(count) implies least
                <= count by {
                if count != entry.1 {
                    assert(top.dom().contains(count));
                }
            }
            assert(grown.dom().contains(least));
            lemma_smallest(grown.dom(), least);
        }
    } else {
        assert(forall|count: usize| !top.dom().contains(count));
    }
}

} // verus!
