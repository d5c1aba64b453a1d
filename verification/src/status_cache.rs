//! Statuses of recently processed signatures, by blockhash and fork.

use std::collections::HashMap;
use std::collections::HashSet;
use std::sync::Arc;

use vstd::prelude::*;
use vstd::std_specs::cmp::PartialEqSpec;
use vstd::std_specs::cmp::PartialEqSpecImpl;
use vstd::std_specs::iter::IteratorSpec;

use crate::byte_map::ByteKey;
use crate::byte_map::ByteMap;
use crate::byte_map::Key20;
use crate::byte_map::Key32;
use crate::clock::Slot;
use crate::collections::share;
use crate::collections::slots_of;
use crate::random::random_below;
use crate::signature::Signature;

pub mod changes;
pub mod history;

verus! {

pub const CACHED_SIGNATURE_SIZE: usize = 20;

/// Number of places in a signature at which the cached part may start.
pub const SIGNATURE_INDEX_BOUND: usize = 12;

/// The ancestors of a fork, by slot.
pub type Ancestors = HashMap<Slot, usize>;

// Store forks in a single chunk of memory to avoid another lookup.
pub type ForkStatus<T> = Vec<(Slot, Arc<T>)>;

/// The cached part of a signature.
pub type SignatureSlice = [u8; 20];

type SignatureMap<T> = ByteMap<Key20, ForkStatus<T>>;

/// For each blockhash the signature offset, and the statuses in the order they came in.
pub type SignatureStatus<T> = ByteMap<Key32, (usize, Vec<(SignatureSlice, Arc<T>)>)>;

/// The signature statuses added during a slot, can be used to build on top of a status cache or to
/// construct a new one. Usually derived from a status cache's slot deltas.
///
/// It tells the slot, whether that is a root, and its statuses, if it has added any. These are the
/// cache's own: as long as they are looked at, the cache cannot change.
pub type SlotDelta<'a, T> = (Slot, bool, Option<&'a SignatureStatus<T>>);

/// How far a signature was confirmed.
#[derive(Debug, PartialEq)]
pub struct SignatureConfirmationStatus<T> {
    pub slot: Slot,
    pub confirmations: usize,
    pub status: T,
}

/// What is known of the signatures that refer to one blockhash: the highest fork it's been
/// observed on along with the signature offset and the fork statuses by signature slice.
#[derive(Debug)]
pub struct BlockhashStatus<T> {
    slot: Slot,
    sig_index: usize,
    signatures: SignatureMap<T>,
}

/// The statuses of recently processed signatures.
#[derive(Debug)]
pub struct StatusCache<T> {
    /// number of roots above which the oldest one is dropped
    max_cache_entries: usize,
    cache: ByteMap<Key32, BlockhashStatus<T>>,
    roots: HashSet<Slot>,
    /// all signatures seen during a fork/slot
    slot_deltas: HashMap<Slot, SignatureStatus<T>>,
}

/// The state of a `BlockhashStatus`.
#[verifier::ext_equal]
pub struct BlockhashView<T> {
    pub slot: Slot,
    pub sig_index: usize,
    pub signatures: Map<Seq<u8>, Seq<(Slot, Arc<T>)>>,
}

/// The statuses that one slot added, by blockhash.
pub type DeltaView<T> = Map<Seq<u8>, (usize, Seq<(SignatureSlice, Arc<T>)>)>;

/// The state of a `StatusCache`.
#[verifier::ext_equal]
pub struct CacheView<T> {
    pub max_cache_entries: usize,
    pub cache: Map<Seq<u8>, BlockhashView<T>>,
    pub roots: Set<Slot>,
    pub slot_deltas: Map<Slot, DeltaView<T>>,
}

pub open spec fn delta_view<T>(statuses: SignatureStatus<T>) -> DeltaView<T> {
    statuses@.map_values(
        |entry: (usize, Vec<(SignatureSlice, Arc<T>)>)| (entry.0, entry.1@),
    )
}

/// The statuses that a slot added, if it added any.
pub open spec fn delta_of<T>(statuses: Option<&SignatureStatus<T>>) -> DeltaView<T> {
    match statuses {
        Some(statuses) => delta_view(*statuses),
        None => Map::empty(),
    }
}

impl<T> View for BlockhashStatus<T> {
    type V = BlockhashView<T>;

    closed spec fn view(&self) -> BlockhashView<T> {
        BlockhashView {
            slot: self.slot,
            sig_index: self.sig_index,
            signatures: self.signatures@.map_values(|forks: ForkStatus<T>| forks@),
        }
    }
}

impl<T> View for StatusCache<T> {
    type V = CacheView<T>;

    closed spec fn view(&self) -> CacheView<T> {
        CacheView {
            max_cache_entries: self.max_cache_entries,
            cache: self.cache@.map_values(|status: BlockhashStatus<T>| status@),
            roots: self.roots@,
            slot_deltas: self.slot_deltas@.map_values(
                |statuses: SignatureStatus<T>| delta_view(statuses),
            ),
        }
    }
}

/// The first of the forks that lies on a visible slot.
pub open spec fn first_visible<T>(
    forks: Seq<(Slot, Arc<T>)>,
    visible: Set<Slot>,
) -> Option<(Slot, Arc<T>)>
    decreases forks.len(),
{
    if forks.len() == 0 {
        None
    } else if visible.contains(forks[0].0) {
        Some(forks[0])
    } else {
        first_visible(forks.drop_first(), visible)
    }
}

/// The forks other than `slot`.
pub open spec fn other_forks<T>(forks: Seq<(Slot, Arc<T>)>, slot: Slot) -> Seq<(Slot, Arc<T>)> {
    forks.filter(|fork: (Slot, Arc<T>)| fork.0 != slot)
}

/// Whether a signature slice occurs among statuses.
pub open spec fn lists_slice<T>(statuses: Seq<(SignatureSlice, Arc<T>)>, slice: Seq<u8>) -> bool {
    exists|i: int| 0 <= i < statuses.len() && (#[trigger] statuses[i]).0@ == slice
}

/// Whether forks hold one on `slot`.
pub open spec fn has_fork<T>(forks: Seq<(Slot, Arc<T>)>, slot: Slot) -> bool {
    exists|k: int| 0 <= k < forks.len() && (#[trigger] forks[k]).0 == slot
}

/// Whether forks hold one on another slot than `slot`.
pub open spec fn has_other_fork<T>(forks: Seq<(Slot, Arc<T>)>, slot: Slot) -> bool {
    exists|k: int| 0 <= k < forks.len() && (#[trigger] forks[k]).0 != slot
}

/// The part of a signature that starts at an offset, and is cached, lies within the signature.
pub open spec fn offset_fits(sig_index: usize) -> bool {
    sig_index + CACHED_SIGNATURE_SIZE <= 64
}

impl<T> BlockhashView<T> {
    pub open spec fn forks(self, slice: Seq<u8>) -> Seq<(Slot, Arc<T>)> {
        if self.signatures.contains_key(slice) {
            self.signatures[slice]
        } else {
            Seq::empty()
        }
    }

    /// A status for a signature slice is added on a slot.
    pub open spec fn record(self, slice: Seq<u8>, slot: Slot, res: Arc<T>) -> BlockhashView<T> {
        BlockhashView {
            slot: if slot > self.slot {
                slot
            } else {
                self.slot
            },
            sig_index: self.sig_index,
            signatures: self.signatures.insert(slice, self.forks(slice).push((slot, res))),
        }
    }

    /// Whether the slice stays when the forks on `slot` are dropped from the listed slices.
    pub open spec fn keeps_slice(
        self,
        statuses: Seq<(SignatureSlice, Arc<T>)>,
        slot: Slot,
        slice: Seq<u8>,
    ) -> bool {
        &&& self.signatures.contains_key(slice)
        &&& lists_slice(statuses, slice) ==> other_forks(self.signatures[slice], slot).len() > 0
    }

    /// The forks on `slot` are dropped from the listed slices, and with them the slices that
    /// have none left.
    pub open spec fn drop_forks(
        self,
        statuses: Seq<(SignatureSlice, Arc<T>)>,
        slot: Slot,
    ) -> BlockhashView<T> {
        BlockhashView {
            slot: self.slot,
            sig_index: self.sig_index,
            signatures: Map::new(
                |slice: Seq<u8>| self.keeps_slice(statuses, slot, slice),
                |slice: Seq<u8>|
                    if lists_slice(statuses, slice) {
                        other_forks(self.signatures[slice], slot)
                    } else {
                        self.signatures[slice]
                    },
            ),
        }
    }
}

impl<T> CacheView<T> {
    /// A cache without statuses, in which slot 0 is a root.
    pub open spec fn empty(max_cache_entries: usize) -> CacheView<T> {
        CacheView {
            max_cache_entries,
            cache: Map::empty(),
            roots: Set::empty().insert(0u64),
            slot_deltas: Map::empty(),
        }
    }

    /// The statuses that `slot` added under a blockhash are still in the cache.
    pub open spec fn delta_backed(self, slot: Slot, blockhash: Seq<u8>) -> bool {
        let statuses = self.slot_deltas[slot][blockhash].1;
        &&& self.cache.contains_key(blockhash)
        &&& self.cache[blockhash].slot >= slot
        &&& statuses.len() > 0
        &&& forall|i: int|
            0 <= i < statuses.len() ==> self.cache[blockhash].signatures.contains_key(
                (#[trigger] statuses[i]).0@,
            ) && has_fork(self.cache[blockhash].signatures[statuses[i].0@], slot)
    }

    /// The cached parts of signatures under a blockhash lie within the signatures.
    pub open spec fn offset_fits_under(self, blockhash: Seq<u8>) -> bool {
        self.cache.contains_key(blockhash) ==> offset_fits(self.cache[blockhash].sig_index)
    }

    /// All cached parts of signatures lie within the signatures.
    pub open spec fn offsets_fit(self) -> bool {
        forall|blockhash: Seq<u8>| #[trigger]
            self.cache.contains_key(blockhash) ==> offset_fits(self.cache[blockhash].sig_index)
    }

    /// Every blockhash has its length, and whatever the deltas list is also in the cache.
    pub open spec fn wf(self) -> bool {
        &&& forall|blockhash: Seq<u8>| #[trigger]
            self.cache.contains_key(blockhash) ==> blockhash.len() == 32
        &&& forall|slot: Slot, blockhash: Seq<u8>|
            self.slot_deltas.contains_key(slot) && #[trigger] self.slot_deltas[slot].contains_key(
                blockhash,
            ) ==> self.delta_backed(slot, blockhash)
    }

    pub open spec fn delta(self, slot: Slot) -> DeltaView<T> {
        if self.slot_deltas.contains_key(slot) {
            self.slot_deltas[slot]
        } else {
            Map::empty()
        }
    }

    /// The statuses under a blockhash; a new blockhash starts with the given slot and offset.
    pub open spec fn entry(self, blockhash: Seq<u8>, slot: Slot, sig_index: usize) -> BlockhashView<
        T,
    > {
        if self.cache.contains_key(blockhash) {
            self.cache[blockhash]
        } else {
            BlockhashView { slot, sig_index, signatures: Map::empty() }
        }
    }

    /// A status for a signature slice is added under a blockhash, on a slot.
    pub open spec fn record_slice(
        self,
        blockhash: Seq<u8>,
        slot: Slot,
        sig_index: usize,
        slice: SignatureSlice,
        res: Arc<T>,
    ) -> CacheView<T> {
        let delta = self.delta(slot);
        let listed = if delta.contains_key(blockhash) {
            delta[blockhash]
        } else {
            (sig_index, Seq::empty())
        };
        CacheView {
            max_cache_entries: self.max_cache_entries,
            cache: self.cache.insert(
                blockhash,
                self.entry(blockhash, slot, sig_index).record(slice@, slot, res),
            ),
            roots: self.roots,
            slot_deltas: self.slot_deltas.insert(
                slot,
                delta.insert(blockhash, (listed.0, listed.1.push((slice, res)))),
            ),
        }
    }
}

/// The smallest of the roots.
pub open spec fn oldest_root(roots: Set<Slot>) -> Slot {
    choose|oldest: Slot|
        roots.contains(oldest) && forall|root: Slot| #[trigger]
            roots.contains(root) ==> oldest <= root
}

impl<T> CacheView<T> {
    /// The status of a signature under a blockhash: that of the first fork on which it was
    /// recorded among the ancestors and the roots.
    pub open spec fn status(
        self,
        sig: Seq<u8>,
        blockhash: Seq<u8>,
        ancestors: Set<Slot>,
    ) -> Option<(Slot, Arc<T>)> {
        if self.cache.contains_key(blockhash) {
            let entry = self.cache[blockhash];
            let slice = sig.subrange(
                entry.sig_index as int,
                entry.sig_index + CACHED_SIGNATURE_SIZE,
            );
            first_visible(entry.forks(slice), ancestors.union(self.roots))
        } else {
            None
        }
    }

    /// `after` is the cache with a status for a signature added under a blockhash, on a slot.
    /// The part of the signature that is cached starts at the blockhash's offset, or at
    /// `sig_index` where the blockhash is new.
    pub open spec fn records(
        self,
        blockhash: Seq<u8>,
        sig: Seq<u8>,
        slot: Slot,
        sig_index: usize,
        res: T,
        after: CacheView<T>,
    ) -> bool {
        let index = self.entry(blockhash, slot, sig_index).sig_index;
        exists|slice: SignatureSlice, shared: Arc<T>|
            slice@ == sig.subrange(index as int, index + CACHED_SIGNATURE_SIZE) && *shared == res
                && after == #[trigger] self.record_slice(blockhash, slot, index, slice, shared)
    }

    /// Where there are too many roots, the oldest one is dropped, and with it what was last
    /// observed on it or before.
    pub open spec fn purge_roots(self) -> CacheView<T> {
        if self.roots.len() > self.max_cache_entries {
            let oldest = oldest_root(self.roots);
            CacheView {
                max_cache_entries: self.max_cache_entries,
                cache: self.cache.restrict(
                    Set::new(|blockhash: Seq<u8>| self.cache[blockhash].slot > oldest),
                ),
                roots: self.roots.remove(oldest),
                slot_deltas: self.slot_deltas.restrict(Set::new(|slot: Slot| slot > oldest)),
            }
        } else {
            self
        }
    }

    pub open spec fn add_root(self, fork: Slot) -> CacheView<T> {
        CacheView { roots: self.roots.insert(fork), ..self }.purge_roots()
    }

    /// All statuses are forgotten; blockhashes and slots stay.
    pub open spec fn clear_signatures(self) -> CacheView<T> {
        CacheView {
            max_cache_entries: self.max_cache_entries,
            cache: self.cache.map_values(
                |entry: BlockhashView<T>|
                    BlockhashView {
                        slot: entry.slot,
                        sig_index: entry.sig_index,
                        signatures: Map::empty(),
                    },
            ),
            roots: self.roots,
            slot_deltas: self.slot_deltas.map_values(|delta: DeltaView<T>| Map::empty()),
        }
    }
}

/// Where a listed slice is listed again, it keeps a fork on another slot.
pub open spec fn slices_clearable<T>(
    entry: BlockhashView<T>,
    statuses: Seq<(SignatureSlice, Arc<T>)>,
    slot: Slot,
) -> bool {
    forall|i: int, j: int|
        0 <= i < j < statuses.len() && (#[trigger] statuses[i]).0@ == (#[trigger] statuses[j]).0@
            ==> has_other_fork(entry.signatures[statuses[i].0@], slot)
}

impl<T> CacheView<T> {
    /// A slot's statuses can be cleared one after the other: none of them finds its slice
    /// gone.
    pub open spec fn clearable(self, slot: Slot) -> bool {
        forall|blockhash: Seq<u8>| #[trigger]
            self.delta(slot).contains_key(blockhash) ==> slices_clearable(
                self.cache[blockhash],
                self.delta(slot)[blockhash].1,
                slot,
            )
    }

    /// The statuses under a blockhash once those of `slot` are cleared.
    pub open spec fn cleared_entry(self, slot: Slot, blockhash: Seq<u8>) -> BlockhashView<T> {
        if self.delta(slot).contains_key(blockhash) {
            self.cache[blockhash].drop_forks(self.delta(slot)[blockhash].1, slot)
        } else {
            self.cache[blockhash]
        }
    }

    /// Whether a blockhash stays when the statuses of `slot` are cleared.
    pub open spec fn keeps_blockhash(self, slot: Slot, blockhash: Seq<u8>) -> bool {
        &&& self.cache.contains_key(blockhash)
        &&& self.delta(slot).contains_key(blockhash) ==> self.cleared_entry(
            slot,
            blockhash,
        ).signatures != Map::<Seq<u8>, Seq<(Slot, Arc<T>)>>::empty()
    }

    /// The statuses that `slot` added are forgotten, and with them the blockhashes that have
    /// none left.
    pub open spec fn clear_slot_signatures(self, slot: Slot) -> CacheView<T> {
        CacheView {
            max_cache_entries: self.max_cache_entries,
            cache: Map::new(
                |blockhash: Seq<u8>| self.keeps_blockhash(slot, blockhash),
                |blockhash: Seq<u8>| self.cleared_entry(slot, blockhash),
            ),
            roots: self.roots,
            slot_deltas: self.slot_deltas.remove(slot),
        }
    }
}

proof fn lemma_other_forks_nonempty<T>(forks: Seq<(Slot, Arc<T>)>, slot: Slot, k: int)
    requires
        0 <= k < forks.len(),
        forks[k].0 != slot,
    ensures
        other_forks(forks, slot).len() > 0,
        has_fork(other_forks(forks, slot), forks[k].0),
    decreases forks.len(),
{
    reveal(Seq::filter);
    let shorter = forks.drop_last();
    let kept = other_forks(shorter, slot);
    let all = other_forks(forks, slot);
    if k < forks.len() - 1 {
        assert(shorter[k] == forks[k]);
        lemma_other_forks_nonempty(shorter, slot, k);
        let j = choose|j: int| 0 <= j < kept.len() && (#[trigger] kept[j]).0 == forks[k].0;
        assert(all[j] == kept[j]);
    } else {
        assert(all[all.len() - 1] == forks[k]);
    }
}

/// What is left of forks lies on other slots.
proof fn lemma_other_forks_differ<T>(forks: Seq<(Slot, Arc<T>)>, slot: Slot)
    ensures
        !has_fork(other_forks(forks, slot), slot),
        other_forks(other_forks(forks, slot), slot) == other_forks(forks, slot),
    decreases forks.len(),
{
    reveal(Seq::filter);
    if forks.len() > 0 {
        let shorter = forks.drop_last();
        lemma_other_forks_differ(shorter, slot);
        let kept = other_forks(shorter, slot);
        if forks.last().0 != slot {
            assert(kept.push(forks.last()).drop_last() =~= kept);
            assert forall|k: int| 0 <= k < kept.push(forks.last()).len() implies (
            #[trigger] kept.push(forks.last())[k]).0 != slot by {
                if k < kept.len() {
                    assert(kept[k].0 != slot);
                }
            }
        }
    }
}

proof fn lemma_clear_slot_keeps_wf<T>(before: CacheView<T>, slot: Slot)
    requires
        before.wf(),
    ensures
        before.clear_slot_signatures(slot).wf(),
{
    let after = before.clear_slot_signatures(slot);
    assert forall|s: Slot, b: Seq<u8>|
        after.slot_deltas.contains_key(s) && #[trigger] after.slot_deltas[s].contains_key(
            b,
        ) implies after.delta_backed(s, b) by {
        assert(before.slot_deltas[s].contains_key(b));
        assert(before.delta_backed(s, b));
        let statuses = before.slot_deltas[s][b].1;
        let entry = before.cleared_entry(slot, b);
        assert forall|i: int| 0 <= i < statuses.len() implies entry.signatures.contains_key(
            (#[trigger] statuses[i]).0@,
        ) && has_fork(entry.signatures[statuses[i].0@], s) by {
            let forks = before.cache[b].signatures[statuses[i].0@];
            let k = choose|k: int| 0 <= k < forks.len() && (#[trigger] forks[k]).0 == s;
            lemma_other_forks_nonempty(forks, slot, k);
        }
        assert(entry.signatures.contains_key(statuses[0].0@));
    }
}

impl<T> BlockhashView<T> {
    /// Statuses are added one after the other, on a slot.
    pub open spec fn replay(
        self,
        statuses: Seq<(SignatureSlice, Arc<T>)>,
        slot: Slot,
    ) -> BlockhashView<T>
        decreases statuses.len(),
    {
        if statuses.len() == 0 {
            self
        } else {
            self.replay(statuses.drop_last(), slot).record(
                statuses.last().0@,
                slot,
                statuses.last().1,
            )
        }
    }
}

/// Whether a delta adds statuses under a blockhash.
pub open spec fn adds_statuses<T>(delta: DeltaView<T>, blockhash: Seq<u8>) -> bool {
    delta.contains_key(blockhash) && delta[blockhash].1.len() > 0
}

/// Under each blockhash of a delta the cached parts of signatures lie within the signatures.
pub open spec fn delta_offsets_fit<T>(delta: DeltaView<T>) -> bool {
    forall|blockhash: Seq<u8>| #[trigger]
        delta.contains_key(blockhash) ==> offset_fits(delta[blockhash].0)
}

impl<T> CacheView<T> {
    /// What a slot lists under a blockhash after a delta was added to it.
    pub open spec fn extended_list(
        self,
        slot: Slot,
        delta: DeltaView<T>,
        blockhash: Seq<u8>,
    ) -> (usize, Seq<(SignatureSlice, Arc<T>)>) {
        let listed = self.delta(slot);
        if !adds_statuses(delta, blockhash) {
            listed[blockhash]
        } else if listed.contains_key(blockhash) {
            (listed[blockhash].0, listed[blockhash].1 + delta[blockhash].1)
        } else {
            delta[blockhash]
        }
    }

    /// The statuses of a delta are added, on a slot.
    pub open spec fn replay(self, slot: Slot, delta: DeltaView<T>) -> CacheView<T> {
        CacheView {
            max_cache_entries: self.max_cache_entries,
            cache: Map::new(
                |blockhash: Seq<u8>|
                    self.cache.contains_key(blockhash) || adds_statuses(delta, blockhash),
                |blockhash: Seq<u8>|
                    if adds_statuses(delta, blockhash) {
                        self.entry(blockhash, slot, delta[blockhash].0).replay(
                            delta[blockhash].1,
                            slot,
                        )
                    } else {
                        self.cache[blockhash]
                    },
            ),
            roots: self.roots,
            slot_deltas: if exists|blockhash: Seq<u8>| #[trigger] adds_statuses(delta, blockhash) {
                self.slot_deltas.insert(
                    slot,
                    Map::new(
                        |blockhash: Seq<u8>|
                            self.delta(slot).contains_key(blockhash) || adds_statuses(
                                delta,
                                blockhash,
                            ),
                        |blockhash: Seq<u8>| self.extended_list(slot, delta, blockhash),
                    ),
                )
            } else {
                self.slot_deltas
            },
        }
    }

    /// A slot's delta is added; where the slot is a root it becomes one here too.
    pub open spec fn append_delta(
        self,
        slot: Slot,
        is_root: bool,
        delta: DeltaView<T>,
    ) -> CacheView<T> {
        if is_root {
            self.replay(slot, delta).add_root(slot)
        } else {
            self.replay(slot, delta)
        }
    }

    /// Deltas are added one after the other.
    pub open spec fn append(self, slot_deltas: Seq<SlotDelta<T>>) -> CacheView<T>
        decreases slot_deltas.len(),
    {
        if slot_deltas.len() == 0 {
            self
        } else {
            let last = slot_deltas.last();
            self.append(slot_deltas.drop_last()).append_delta(last.0, last.1, delta_of(last.2))
        }
    }
}

/// Adding one more status extends the list of the blockhash that is being replayed.
proof fn lemma_replay_extends<T>(
    before: CacheView<T>,
    slot: Slot,
    delta: DeltaView<T>,
    blockhash: Seq<u8>,
    sig_index: usize,
    statuses: Seq<(SignatureSlice, Arc<T>)>,
    status: (SignatureSlice, Arc<T>),
)
    requires
        !delta.contains_key(blockhash),
    ensures
        before.replay(slot, delta.insert(blockhash, (sig_index, statuses))).record_slice(
            blockhash,
            slot,
            sig_index,
            status.0,
            status.1,
        ) == before.replay(slot, delta.insert(blockhash, (sig_index, statuses.push(status)))),
{
    let shorter = delta.insert(blockhash, (sig_index, statuses));
    let longer = delta.insert(blockhash, (sig_index, statuses.push(status)));
    let replayed = before.replay(slot, shorter);
    let recorded = replayed.record_slice(blockhash, slot, sig_index, status.0, status.1);
    let target = before.replay(slot, longer);
    assert(statuses.push(status).drop_last() =~= statuses);
    assert(adds_statuses(longer, blockhash));
    assert forall|b: Seq<u8>| b != blockhash implies #[trigger] adds_statuses(longer, b)
        == adds_statuses(shorter, b) by {}
    let entry = before.entry(blockhash, slot, sig_index);
    assert(replayed.entry(blockhash, slot, sig_index) == entry.replay(statuses, slot));
    assert(recorded.cache =~= target.cache);
    let extended = target.slot_deltas[slot];
    if exists|b: Seq<u8>| #[trigger] adds_statuses(shorter, b) {
        assert(replayed.slot_deltas.contains_key(slot));
    }
    assert(recorded.slot_deltas[slot].contains_key(blockhash));
    let listed = before.delta(slot);
    if listed.contains_key(blockhash) {
        assert(listed[blockhash].1 + Seq::<(SignatureSlice, Arc<T>)>::empty()
            =~= listed[blockhash].1);
        assert(listed[blockhash].1 + statuses.push(status) =~= (listed[blockhash].1
            + statuses).push(status));
        if statuses.len() == 0 {
            assert(statuses =~= Seq::<(SignatureSlice, Arc<T>)>::empty());
        }
    } else {
        if statuses.len() == 0 {
            assert(statuses =~= Seq::<(SignatureSlice, Arc<T>)>::empty());
        }
    }
    assert(recorded.slot_deltas[slot] =~= extended);
    assert(recorded.slot_deltas =~= target.slot_deltas);
    assert(recorded =~= target);
}

/// Recording a status keeps the cache well-formed.
proof fn lemma_record_keeps_wf<T>(
    before: CacheView<T>,
    blockhash: Seq<u8>,
    slot: Slot,
    sig_index: usize,
    slice: SignatureSlice,
    res: Arc<T>,
)
    requires
        before.wf(),
        blockhash.len() == 32,
    ensures
        before.record_slice(blockhash, slot, sig_index, slice, res).wf(),
{
    let after = before.record_slice(blockhash, slot, sig_index, slice, res);
    let entry = before.entry(blockhash, slot, sig_index);
    let forks = entry.forks(slice@).push((slot, res));
    assert(forks[forks.len() - 1].0 == slot);
    assert forall|s: Slot, b: Seq<u8>|
        after.slot_deltas.contains_key(s) && #[trigger] after.slot_deltas[s].contains_key(
            b,
        ) implies after.delta_backed(s, b) by {
        let statuses = after.slot_deltas[s][b].1;
        if before.slot_deltas.contains_key(s) && before.slot_deltas[s].contains_key(b) {
            assert(before.delta_backed(s, b));
        }
        assert forall|i: int| 0 <= i < statuses.len() implies after.cache[b].signatures.contains_key(
            (#[trigger] statuses[i]).0@,
        ) && has_fork(after.cache[b].signatures[statuses[i].0@], s) by {
            if s == slot && b == blockhash && i == statuses.len() - 1 {
                assert(has_fork(forks, slot));
            } else {
                let listed = before.slot_deltas[s][b].1;
                assert(statuses[i] == listed[i]);
                let old_forks = before.cache[b].signatures[listed[i].0@];
                let k = choose|k: int|
                    0 <= k < old_forks.len() && (#[trigger] old_forks[k]).0 == s;
                assert(after.cache[b].signatures[statuses[i].0@][k].0 == s);
            }
        }
    }
}

proof fn lemma_oldest_root(roots: Set<Slot>, oldest: Slot)
    requires
        roots.contains(oldest),
        forall|root: Slot| #[trigger] roots.contains(root) ==> oldest <= root,
    ensures
        oldest == oldest_root(roots),
{
    let other = oldest_root(roots);
    assert(roots.contains(other) && other <= oldest);
}

proof fn lemma_purge_keeps_wf<T>(before: CacheView<T>)
    requires
        before.wf(),
    ensures
        before.purge_roots().wf(),
{
    let after = before.purge_roots();
    assert forall|slot: Slot, blockhash: Seq<u8>|
        after.slot_deltas.contains_key(slot) && #[trigger] after.slot_deltas[slot].contains_key(
            blockhash,
        ) implies after.delta_backed(slot, blockhash) by {
        assert(before.slot_deltas[slot].contains_key(blockhash));
        assert(before.delta_backed(slot, blockhash));
    }
}

/// The smallest of the slots.
fn oldest_of(slots: &HashSet<Slot>) -> (oldest: Option<Slot>)
    ensures
        match oldest {
            Some(oldest) => slots@.contains(oldest) && oldest == oldest_root(slots@),
            None => slots@ == Set::<Slot>::empty(),
        },
{
    let mut oldest: Option<Slot> = None;
    let ghost all = IteratorSpec::remaining(&slots.iter()).unref();
    for slot in iter: slots.iter()
        invariant
            iter.index() <= iter.seq().len(),
            iter.seq().unref() == all,
            oldest is None ==> iter.index() == 0,
            oldest matches Some(oldest) ==> exists|j: int|
                0 <= j < iter.index() && #[trigger] all[j] == oldest,
            oldest matches Some(oldest) ==> forall|j: int|
                0 <= j < iter.index() ==> oldest <= #[trigger] all[j],
    {
        assert(all[iter.index() as int] == *slot);
        match oldest {
            Some(known) => {
                if *slot < known {
                    oldest = Some(*slot);
                }
            },
            None => {
                oldest = Some(*slot);
            },
        }
    }
    proof {
        assert(all.to_set() == slots@);
        match oldest {
            Some(oldest) => {
                assert forall|root: Slot| #[trigger] slots@.contains(root) implies oldest
                    <= root by {
                    assert(all.to_set().contains(root));
                }
                assert(all.to_set().contains(oldest));
                lemma_oldest_root(slots@, oldest);
            },
            None => {
                assert(slots@ =~= Set::<Slot>::empty());
            },
        }
    }
    oldest
}

/// The part of a signature that starts at an offset.
fn signature_slice(sig: &Signature, index: usize) -> (slice: SignatureSlice)
    requires
        index + CACHED_SIGNATURE_SIZE <= 64,
    ensures
        slice@ == sig@.subrange(index as int, index + CACHED_SIGNATURE_SIZE),
{
    let mut slice = [0u8;20];
    let mut i: usize = 0;
    while i < CACHED_SIGNATURE_SIZE
        invariant
            i <= CACHED_SIGNATURE_SIZE,
            index + CACHED_SIGNATURE_SIZE <= 64,
            forall|j: int| 0 <= j < i ==> slice@[j] == sig@[index + j],
        decreases CACHED_SIGNATURE_SIZE - i,
    {
        slice[i] = sig.0[index + i];
        i += 1;
    }
    assert(slice@ =~= sig@.subrange(index as int, index + CACHED_SIGNATURE_SIZE));
    slice
}

impl<T> StatusCache<T> {
    pub open spec fn wf(&self) -> bool {
        self@.wf()
    }

    /// An empty cache that keeps at most `max_cache_entries` roots.
    pub fn new(max_cache_entries: usize) -> (cache: Self)
        ensures
            cache.wf(),
            cache@ == CacheView::<T>::empty(max_cache_entries),
    {
        let mut roots: HashSet<Slot> = HashSet::new();
        // 0 is always a root
        roots.insert(0);
        let cache = StatusCache {
            max_cache_entries,
            cache: ByteMap::new(),
            roots,
            slot_deltas: HashMap::new(),
        };
        assert(cache@ =~= CacheView::<T>::empty(max_cache_entries));
        cache
    }

    fn insert_with_slice(
        &mut self,
        blockhash: &Key32,
        slot: Slot,
        sig_index: usize,
        sig_slice: SignatureSlice,
        res: Arc<T>,
    )
        requires
            old(self).wf(),
        ensures
            final(self)@ == old(self)@.record_slice(
                blockhash.spec_to_bytes(),
                slot,
                sig_index,
                sig_slice,
                res,
            ),
            final(self).wf(),
    {
        let mut entry = match self.cache.remove_key(blockhash) {
            Some(entry) => entry,
            None => BlockhashStatus { slot, sig_index, signatures: ByteMap::new() },
        };
        assert(entry@ =~= old(self)@.entry(blockhash.spec_to_bytes(), slot, sig_index));
        if slot > entry.slot {
            entry.slot = slot;
        }
        let mut sig_forks = match entry.signatures.remove(&sig_slice) {
            Some(sig_forks) => sig_forks,
            None => Vec::new(),
        };
        sig_forks.push((slot, share(&res)));
        entry.signatures.insert(&sig_slice, sig_forks);
        assert(entry@ =~= old(self)@.entry(blockhash.spec_to_bytes(), slot, sig_index).record(
            sig_slice@,
            slot,
            res,
        ));
        self.cache.insert_key(*blockhash, entry);

        let mut statuses = match self.slot_deltas.remove(&slot) {
            Some(statuses) => statuses,
            None => ByteMap::new(),
        };
        assert(delta_view(statuses) =~= old(self)@.delta(slot));
        let mut hash_entry = match statuses.remove_key(blockhash) {
            Some(hash_entry) => hash_entry,
            None => (sig_index, Vec::new()),
        };
        hash_entry.1.push((sig_slice, res));
        statuses.insert_key(*blockhash, hash_entry);
        let ghost after = old(self)@.record_slice(
            blockhash.spec_to_bytes(),
            slot,
            sig_index,
            sig_slice,
            res,
        );
        assert(delta_view(statuses) =~= after.slot_deltas[slot]);
        self.slot_deltas.insert(slot, statuses);
        proof {
            assert(self@.cache =~= after.cache);
            assert(self@.slot_deltas =~= after.slot_deltas);
            Key32::lemma_round_trip_back(*blockhash);
            lemma_record_keeps_wf(
                old(self)@,
                blockhash.spec_to_bytes(),
                slot,
                sig_index,
                sig_slice,
                res,
            );
        }
    }
}

impl<T> BlockhashStatus<T> {
    /// The first fork, of those that a signature was recorded on, that is an ancestor or a
    /// root.
    fn find_fork(
        &self,
        sig: &Signature,
        ancestors: &Ancestors,
        roots: &HashSet<Slot>,
    ) -> (fork: Option<&(Slot, Arc<T>)>)
        requires
            offset_fits(self@.sig_index),
        ensures
            ({
                let slice = sig@.subrange(
                    self@.sig_index as int,
                    self@.sig_index + CACHED_SIGNATURE_SIZE,
                );
                let first = first_visible(
                    self@.forks(slice),
                    ancestors@.dom().union(roots@),
                );
                match fork {
                    Some(fork) => first == Some(*fork),
                    None => first is None,
                }
            }),
    {
        let sig_slice = signature_slice(sig, self.sig_index);
        match self.signatures.get(&sig_slice) {
            Some(stored_forks) => {
                let ghost visible = ancestors@.dom().union(roots@);
                let ghost forks = self@.forks(sig_slice@);
                assert(forks.skip(0) =~= forks);
                let mut i: usize = 0;
                while i < stored_forks.len()
                    invariant
                        i <= stored_forks@.len(),
                        visible == ancestors@.dom().union(roots@),
                        forks == stored_forks@,
                        forks == self@.forks(
                            sig@.subrange(
                                self@.sig_index as int,
                                self@.sig_index + CACHED_SIGNATURE_SIZE,
                            ),
                        ),
                        first_visible(forks, visible) == first_visible(
                            forks.skip(i as int),
                            visible,
                        ),
                    decreases stored_forks@.len() - i,
                {
                    let fork = stored_forks[i].0;
                    if ancestors.contains_key(&fork) || roots.contains(&fork) {
                        return Some(&stored_forks[i]);
                    }
                    proof {
                        assert(forks.skip(i as int).drop_first() =~= forks.skip(i + 1));
                    }
                    i += 1;
                }
                None
            },
            None => None,
        }
    }
}

impl<T> StatusCache<T> {
    /// Check if the signature from a transaction is in any of the forks in the ancestors set.
    pub fn get_signature_status(
        &self,
        sig: &Signature,
        transaction_blockhash: &crate::hash::Hash,
        ancestors: &Ancestors,
    ) -> (status: Option<(Slot, T)>) where T: Clone
        requires
            self@.offset_fits_under(transaction_blockhash@),
        ensures
            match (
                status,
                self@.status(sig@, transaction_blockhash@, ancestors@.dom()),
            ) {
                (Some((slot, res)), Some(stored)) => slot == stored.0 && cloned(*stored.1, res),
                (None, None) => true,
                _ => false,
            },
    {
        match self.cache.get(&transaction_blockhash.0) {
            Some(entry) => {
                assert(self@.cache.contains_key(transaction_blockhash@));
                match entry.find_fork(sig, ancestors, &self.roots) {
                    Some(fork) => Some((fork.0, (*fork.1).clone())),
                    None => None,
                }
            },
            None => None,
        }
    }

    /// Check if the signature from a transaction is in any of the forks in the ancestors set,
    /// under whatever blockhash.
    pub fn get_signature_slot(
        &self,
        signature: &Signature,
        ancestors: &Ancestors,
    ) -> (status: Option<(Slot, T)>) where T: Clone
        requires
            self@.offsets_fit(),
        ensures
            match status {
                Some((slot, res)) => exists|blockhash: Seq<u8>|
                    (#[trigger] self@.status(signature@, blockhash, ancestors@.dom())) matches Some(
                        stored,
                    ) && slot == stored.0 && cloned(*stored.1, res),
                None => forall|blockhash: Seq<u8>|
                    (#[trigger] self@.status(signature@, blockhash, ancestors@.dom())) is None,
            },
    {
        let keys = self.cache.keys();
        let mut i: usize = 0;
        while i < keys.len()
            invariant
                i <= keys@.len(),
                self@.offsets_fit(),
                forall|j: int|
                    0 <= j < keys@.len() ==> self.cache@.contains_key(
                        (#[trigger] keys@[j]).spec_to_bytes(),
                    ),
                forall|bytes: Seq<u8>| #[trigger]
                    self.cache@.contains_key(bytes) ==> keys@.contains(
                        Key32::spec_from_bytes(bytes),
                    ) && Key32::spec_from_bytes(bytes).spec_to_bytes() == bytes,
                forall|j: int|
                    0 <= j < i ==> self@.status(
                        signature@,
                        (#[trigger] keys@[j]).spec_to_bytes(),
                        ancestors@.dom(),
                    ) is None,
            decreases keys@.len() - i,
        {
            let ghost blockhash = keys@[i as int].spec_to_bytes();
            match self.cache.get_key(&keys[i]) {
                Some(entry) => {
                    assert(self@.cache.contains_key(blockhash));
                    match entry.find_fork(signature, ancestors, &self.roots) {
                        Some(fork) => {
                            assert(self@.status(signature@, blockhash, ancestors@.dom()) == Some(
                                *fork,
                            ));
                            return Some((fork.0, (*fork.1).clone()));
                        },
                        None => {},
                    }
                },
                None => {},
            }
            i += 1;
        }
        proof {
            assert forall|blockhash: Seq<u8>|
                (#[trigger] self@.status(signature@, blockhash, ancestors@.dom())) is None by {
                if self@.cache.contains_key(blockhash) {
                    assert(self.cache@.contains_key(blockhash));
                    assert(keys@.contains(Key32::spec_from_bytes(blockhash)));
                }
            }
        }
        None
    }

    /// Add a known root fork.  Roots are always valid ancestors.
    /// After `max_cache_entries`, roots are removed, and any old signatures are cleared.
    pub fn add_root(&mut self, fork: Slot)
        requires
            old(self).wf(),
        ensures
            final(self).wf(),
            final(self)@ == old(self)@.add_root(fork),
            old(self)@.offsets_fit() ==> final(self)@.offsets_fit(),
    {
        self.roots.insert(fork);
        assert(self@ =~= (CacheView { roots: old(self)@.roots.insert(fork), ..old(self)@ }));
        self.purge_roots();
    }

    pub fn roots(&self) -> (roots: &HashSet<u64>)
        ensures
            roots@ == self@.roots,
    {
        &self.roots
    }

    /// Whether no blockhash is cached.
    pub fn is_empty(&self) -> (empty: bool)
        ensures
            empty == (self@.cache == Map::<Seq<u8>, BlockhashView<T>>::empty()),
    {
        proof {
            if self.cache@ == Map::<Seq<u8>, BlockhashStatus<T>>::empty() {
                assert(self@.cache =~= Map::<Seq<u8>, BlockhashView<T>>::empty());
            } else if self@.cache == Map::<Seq<u8>, BlockhashView<T>>::empty() {
                assert forall|blockhash: Seq<u8>| !self.cache@.contains_key(blockhash) by {
                    assert(!self@.cache.contains_key(blockhash));
                }
                assert(self.cache@ =~= Map::<Seq<u8>, BlockhashStatus<T>>::empty());
            }
        }
        self.cache.is_empty()
    }

    /// Where the cached part of the signatures under a blockhash starts.
    pub fn signature_offset(&self, transaction_blockhash: &crate::hash::Hash) -> (offset: Option<
        usize,
    >)
        ensures
            offset == (if self@.cache.contains_key(transaction_blockhash@) {
                Some(self@.cache[transaction_blockhash@].sig_index)
            } else {
                None
            }),
    {
        match self.cache.get(&transaction_blockhash.0) {
            Some(entry) => {
                assert(self@.cache.contains_key(transaction_blockhash@));
                Some(entry.sig_index)
            },
            None => None,
        }
    }

    /// Whether a signature slice has statuses under a blockhash.
    pub fn contains_slice(
        &self,
        transaction_blockhash: &crate::hash::Hash,
        slice: &SignatureSlice,
    ) -> (contained: bool)
        ensures
            contained == (self@.cache.contains_key(transaction_blockhash@)
                && self@.cache[transaction_blockhash@].signatures.contains_key(slice@)),
    {
        match self.cache.get(&transaction_blockhash.0) {
            Some(entry) => {
                assert(self@.cache.contains_key(transaction_blockhash@));
                entry.signatures.get(slice).is_some()
            },
            None => false,
        }
    }

    /// The number of slots that added statuses.
    pub fn num_slot_deltas(&self) -> (count: usize)
        ensures
            count == self@.slot_deltas.len(),
    {
        assert(self@.slot_deltas.dom() =~= self.slot_deltas@.dom());
        self.slot_deltas.len()
    }

    /// Whether a slot added statuses.
    pub fn has_slot_delta(&self, slot: Slot) -> (added: bool)
        ensures
            added == self@.slot_deltas.contains_key(slot),
    {
        self.slot_deltas.contains_key(&slot)
    }

    /// Insert a new signature for a specific slot, with the part of the signature to cache
    /// starting at `sig_index` where the blockhash is new.
    pub fn insert_at(
        &mut self,
        transaction_blockhash: &crate::hash::Hash,
        sig: &Signature,
        slot: Slot,
        sig_index: usize,
        res: T,
    )
        requires
            old(self).wf(),
            offset_fits(old(self)@.entry(transaction_blockhash@, slot, sig_index).sig_index),
        ensures
            final(self).wf(),
            old(self)@.records(
                transaction_blockhash@,
                sig@,
                slot,
                sig_index,
                res,
                final(self)@,
            ),
            old(self)@.offsets_fit() ==> final(self)@.offsets_fit(),
    {
        let index: usize = match self.cache.get(&transaction_blockhash.0) {
            Some(entry) => {
                assert(self@.cache.contains_key(transaction_blockhash@));
                entry.sig_index
            },
            None => sig_index,
        };
        assert(index == self@.entry(transaction_blockhash@, slot, sig_index).sig_index);
        let sig_slice = signature_slice(sig, index);
        let shared = Arc::new(res);
        let ghost recorded = shared;
        let key = Key32::from_bytes(&transaction_blockhash.0);
        proof {
            Key32::lemma_round_trip(transaction_blockhash@);
        }
        self.insert_with_slice(&key, slot, index, sig_slice, shared);
        assert(*recorded == res);
        assert(self@ == old(self)@.record_slice(
            transaction_blockhash@,
            slot,
            index,
            sig_slice,
            recorded,
        ));
    }

    /// Insert a new signature for a specific slot.
    pub fn insert(
        &mut self,
        transaction_blockhash: &crate::hash::Hash,
        sig: &Signature,
        slot: Slot,
        res: T,
    )
        requires
            old(self).wf(),
            old(self)@.offset_fits_under(transaction_blockhash@),
        ensures
            final(self).wf(),
            exists|sig_index: usize|
                sig_index < SIGNATURE_INDEX_BOUND && #[trigger] old(self)@.records(
                    transaction_blockhash@,
                    sig@,
                    slot,
                    sig_index,
                    res,
                    final(self)@,
                ),
            old(self)@.offsets_fit() ==> final(self)@.offsets_fit(),
    {
        let sig_index: usize = match self.cache.get(&transaction_blockhash.0) {
            Some(_) => 0,
            None => random_below(SIGNATURE_INDEX_BOUND),
        };
        self.insert_at(transaction_blockhash, sig, slot, sig_index, res);
    }

    pub fn purge_roots(&mut self)
        requires
            old(self).wf(),
        ensures
            final(self).wf(),
            final(self)@ == old(self)@.purge_roots(),
    {
        if self.roots.len() > self.max_cache_entries {
            match oldest_of(&self.roots) {
                Some(oldest) => {
                    self.roots.remove(&oldest);
                    self.forget_blockhashes_until(oldest);
                    self.forget_slots_until(oldest);
                    proof {
                        let after = old(self)@.purge_roots();
                        assert(self@.cache =~= after.cache);
                        assert(self@.slot_deltas =~= after.slot_deltas);
                        lemma_purge_keeps_wf(old(self)@);
                    }
                },
                None => {
                    assert(self.roots@.len() == 0);
                },
            }
        }
    }

    /// Drops the blockhashes that were not observed after `oldest`.
    fn forget_blockhashes_until(&mut self, oldest: Slot)
        ensures
            final(self).max_cache_entries == old(self).max_cache_entries,
            final(self).roots == old(self).roots,
            final(self).slot_deltas == old(self).slot_deltas,
            final(self)@.cache == old(self)@.cache.restrict(
                Set::new(|blockhash: Seq<u8>| old(self)@.cache[blockhash].slot > oldest),
            ),
    {
        let keys = self.cache.keys();
        let ghost before = self.cache@;
        let mut i: usize = 0;
        while i < keys.len()
            invariant
                i <= keys@.len(),
                self.max_cache_entries == old(self).max_cache_entries,
                self.roots == old(self).roots,
                self.slot_deltas == old(self).slot_deltas,
                before == old(self).cache@,
                keys@.no_duplicates(),
                forall|j: int|
                    0 <= j < keys@.len() ==> before.contains_key(
                        (#[trigger] keys@[j]).spec_to_bytes(),
                    ),
                forall|bytes: Seq<u8>| #[trigger]
                    before.contains_key(bytes) ==> keys@.contains(Key32::spec_from_bytes(bytes))
                        && Key32::spec_from_bytes(bytes).spec_to_bytes() == bytes,
                forall|bytes: Seq<u8>| #[trigger]
                    self.cache@.contains_key(bytes) ==> before.contains_key(bytes)
                        && self.cache@[bytes] == before[bytes],
                forall|j: int|
                    0 <= j < i ==> (self.cache@.contains_key((#[trigger] keys@[j]).spec_to_bytes())
                        <==> before[keys@[j].spec_to_bytes()].slot > oldest),
                forall|j: int|
                    i <= j < keys@.len() ==> self.cache@.contains_key(
                        (#[trigger] keys@[j]).spec_to_bytes(),
                    ),
            decreases keys@.len() - i,
        {
            let ghost current = self.cache@;
            let forget = match self.cache.get_key(&keys[i]) {
                Some(entry) => entry.slot <= oldest,
                None => false,
            };
            if forget {
                self.cache.remove_key(&keys[i]);
                proof {
                    assert forall|j: int| 0 <= j < keys@.len() && j != i implies (
                    #[trigger] keys@[j]).spec_to_bytes() != keys@[i as int].spec_to_bytes() by {
                        Key32::lemma_round_trip_back(keys@[j]);
                        Key32::lemma_round_trip_back(keys@[i as int]);
                    }
                }
            }
            i += 1;
        }
        proof {
            let kept = old(self)@.cache.restrict(
                Set::new(|blockhash: Seq<u8>| old(self)@.cache[blockhash].slot > oldest),
            );
            assert forall|b: Seq<u8>| self@.cache.contains_key(b) == #[trigger] kept.contains_key(
                b,
            ) by {
                if before.contains_key(b) {
                    let j = choose|j: int|
                        0 <= j < keys@.len() && keys@[j] == Key32::spec_from_bytes(b);
                    assert(keys@[j].spec_to_bytes() == b);
                }
            }
            assert(self@.cache =~= kept);
        }
    }

    /// Drops the deltas of the slots up to `oldest`.
    fn forget_slots_until(&mut self, oldest: Slot)
        ensures
            final(self).max_cache_entries == old(self).max_cache_entries,
            final(self).roots == old(self).roots,
            final(self).cache == old(self).cache,
            final(self)@.slot_deltas == old(self)@.slot_deltas.restrict(
                Set::new(|slot: Slot| slot > oldest),
            ),
    {
        let slots = slots_of(&self.slot_deltas);
        let ghost before = self.slot_deltas@;
        let mut i: usize = 0;
        while i < slots.len()
            invariant
                i <= slots@.len(),
                self.max_cache_entries == old(self).max_cache_entries,
                self.roots == old(self).roots,
                self.cache == old(self).cache,
                before == old(self).slot_deltas@,
                slots@.no_duplicates(),
                slots@.to_set() == before.dom(),
                forall|slot: Slot| #[trigger]
                    self.slot_deltas@.contains_key(slot) ==> before.contains_key(slot)
                        && self.slot_deltas@[slot] == before[slot],
                forall|j: int|
                    0 <= j < i ==> (self.slot_deltas@.contains_key(#[trigger] slots@[j])
                        <==> slots@[j] > oldest),
                forall|j: int|
                    i <= j < slots@.len() ==> self.slot_deltas@.contains_key(#[trigger] slots@[j]),
            decreases slots@.len() - i,
        {
            assert(slots@.to_set().contains(slots@[i as int]));
            if slots[i] <= oldest {
                self.slot_deltas.remove(&slots[i]);
            }
            i += 1;
        }
        proof {
            let kept = old(self)@.slot_deltas.restrict(Set::new(|slot: Slot| slot > oldest));
            assert forall|slot: Slot| self@.slot_deltas.contains_key(slot)
                == #[trigger] kept.contains_key(slot) by {
                if before.contains_key(slot) {
                    assert(slots@.to_set().contains(slot));
                    let j = choose|j: int| 0 <= j < slots@.len() && slots@[j] == slot;
                    assert(slots@[j] == slot);
                }
            }
            assert(self@.slot_deltas =~= kept);
        }
    }
}

/// Drops the forks on a slot.
fn retain_other_forks<T>(forks: ForkStatus<T>, slot: Slot) -> (kept: ForkStatus<T>)
    ensures
        kept@ == other_forks(forks@, slot),
{
    let mut kept: ForkStatus<T> = Vec::new();
    let mut i: usize = 0;
    assert(other_forks(forks@.take(0), slot) =~= Seq::<(Slot, Arc<T>)>::empty()) by {
        reveal(Seq::filter);
    }
    while i < forks.len()
        invariant
            i <= forks@.len(),
            kept@ == other_forks(forks@.take(i as int), slot),
        decreases forks@.len() - i,
    {
        proof {
            reveal(Seq::filter);
            assert(forks@.take(i + 1).drop_last() =~= forks@.take(i as int));
        }
        if forks[i].0 != slot {
            kept.push((forks[i].0, share(&forks[i].1)));
        }
        i += 1;
    }
    assert(forks@.take(i as int) =~= forks@);
    kept
}

impl<T> BlockhashStatus<T> {
    /// Drops the forks on `slot` from the listed slices, and with them the slices that have
    /// none left.
    fn drop_forks(&mut self, statuses: &Vec<(SignatureSlice, Arc<T>)>, slot: Slot)
        requires
            forall|i: int|
                0 <= i < statuses@.len() ==> old(self)@.signatures.contains_key(
                    (#[trigger] statuses@[i]).0@,
                ),
            slices_clearable(old(self)@, statuses@, slot),
        ensures
            final(self)@ == old(self)@.drop_forks(statuses@, slot),
    {
        let ghost before = self@;
        let mut i: usize = 0;
        assert(self@ =~= before.drop_forks(statuses@.take(0), slot));
        while i < statuses.len()
            invariant
                i <= statuses@.len(),
                forall|j: int|
                    0 <= j < statuses@.len() ==> before.signatures.contains_key(
                        (#[trigger] statuses@[j]).0@,
                    ),
                slices_clearable(before, statuses@, slot),
                self@ == before.drop_forks(statuses@.take(i as int), slot),
            decreases statuses@.len() - i,
        {
            let ghost slice = statuses@[i as int].0@;
            let ghost listed = statuses@.take(i as int);
            let ghost longer = statuses@.take(i + 1);
            proof {
                assert(longer[i as int].0@ == slice);
                assert forall|other: Seq<u8>| #[trigger] lists_slice(longer, other) == (
                lists_slice(listed, other) || other == slice) by {
                    if lists_slice(listed, other) {
                        let j = choose|j: int|
                            0 <= j < listed.len() && (#[trigger] listed[j]).0@ == other;
                        assert(longer[j].0@ == other);
                    } else if lists_slice(longer, other) {
                        let j = choose|j: int|
                            0 <= j < longer.len() && (#[trigger] longer[j]).0@ == other;
                        if j < i {
                            assert(listed[j].0@ == other);
                        }
                    }
                }
                if lists_slice(listed, slice) {
                    let j = choose|j: int|
                        0 <= j < listed.len() && (#[trigger] listed[j]).0@ == slice;
                    assert(statuses@[j].0@ == statuses@[i as int].0@);
                    let forks = before.signatures[slice];
                    let k = choose|k: int| 0 <= k < forks.len() && (#[trigger] forks[k]).0 != slot;
                    lemma_other_forks_nonempty(forks, slot, k);
                }
                lemma_other_forks_differ(before.signatures[slice], slot);
                assert(before.keeps_slice(listed, slot, slice));
                assert(self@.signatures.contains_key(slice));
                assert(other_forks(self@.signatures[slice], slot) == other_forks(
                    before.signatures[slice],
                    slot,
                ));
            }
            let ghost current = self@.signatures;
            match self.signatures.remove(&statuses[i].0) {
                Some(sig_list) => {
                    assert(sig_list@ == current[slice]);
                    let kept = retain_other_forks(sig_list, slot);
                    assert(kept@ == other_forks(before.signatures[slice], slot));
                    if kept.len() > 0 {
                        self.signatures.insert(&statuses[i].0, kept);
                        assert(self@.signatures =~= current.insert(slice, kept@));
                    } else {
                        assert(self@.signatures =~= current.remove(slice));
                    }
                },
                None => {
                    assert(false);
                },
            }
            proof {
                let target = before.drop_forks(longer, slot).signatures;
                assert forall|other: Seq<u8>|
                    self@.signatures.contains_key(other) == #[trigger] target.contains_key(other)
                        && (target.contains_key(other) ==> self@.signatures[other]
                        == target[other]) by {
                    assert(lists_slice(longer, other) == (lists_slice(listed, other) || other
                        == slice));
                    assert(lists_slice(longer, slice));
                    assert(current.contains_key(other) == before.keeps_slice(listed, slot, other));
                }
                assert(self@.signatures =~= target);
            }
            i += 1;
        }
        assert(statuses@.take(i as int) =~= statuses@);
    }
}

impl<T> StatusCache<T> {
    /// Forgets the signatures that were added during a slot.
    pub fn clear_slot_signatures(&mut self, slot: Slot)
        requires
            old(self).wf(),
            old(self)@.clearable(slot),
        ensures
            final(self).wf(),
            final(self)@ == old(self)@.clear_slot_signatures(slot),
    {
        let ghost before = self@;
        let slot_deltas = match self.slot_deltas.remove(&slot) {
            Some(slot_deltas) => slot_deltas,
            None => {
                assert(self@ =~= before.clear_slot_signatures(slot));
                return;
            },
        };
        let ghost delta = delta_view(slot_deltas);
        assert(delta == before.delta(slot));
        assert(self@.slot_deltas =~= before.slot_deltas.remove(slot));
        let blockhashes = slot_deltas.keys();
        let ghost mut processed: Set<Seq<u8>> = Set::empty();
        let mut i: usize = 0;
        while i < blockhashes.len()
            invariant
                i <= blockhashes@.len(),
                before.wf(),
                before.clearable(slot),
                before.slot_deltas.contains_key(slot),
                delta == delta_view(slot_deltas),
                delta == before.delta(slot),
                self@.max_cache_entries == before.max_cache_entries,
                self@.roots == before.roots,
                self@.slot_deltas == before.slot_deltas.remove(slot),
                blockhashes@.no_duplicates(),
                forall|j: int|
                    0 <= j < blockhashes@.len() ==> delta.contains_key(
                        (#[trigger] blockhashes@[j]).spec_to_bytes(),
                    ),
                forall|b: Seq<u8>| #[trigger]
                    processed.contains(b) <==> exists|j: int|
                        0 <= j < i && (#[trigger] blockhashes@[j]).spec_to_bytes() == b,
                forall|b: Seq<u8>| #[trigger]
                    self@.cache.contains_key(b) <==> (if processed.contains(b) {
                        before.keeps_blockhash(slot, b)
                    } else {
                        before.cache.contains_key(b)
                    }),
                forall|b: Seq<u8>| #[trigger]
                    self@.cache.contains_key(b) ==> self@.cache[b] == (if processed.contains(b) {
                        before.cleared_entry(slot, b)
                    } else {
                        before.cache[b]
                    }),
            decreases blockhashes@.len() - i,
        {
            let ghost blockhash = blockhashes@[i as int].spec_to_bytes();
            let ghost current = self@;
            proof {
                assert(before.slot_deltas[slot].contains_key(blockhash));
                assert(before.delta_backed(slot, blockhash));
                if processed.contains(blockhash) {
                    let j = choose|j: int|
                        0 <= j < i && (#[trigger] blockhashes@[j]).spec_to_bytes() == blockhash;
                    Key32::lemma_round_trip_back(blockhashes@[j]);
                    Key32::lemma_round_trip_back(blockhashes@[i as int]);
                }
                assert(self@.cache.contains_key(blockhash));
            }
            match (slot_deltas.get_key(&blockhashes[i]), self.cache.remove_key(&blockhashes[i])) {
                (Some(signature_list), Some(mut entry)) => {
                    entry.drop_forks(&signature_list.1, slot);
                    assert(entry@ == before.cleared_entry(slot, blockhash));
                    assert((entry@.signatures == Map::<Seq<u8>, Seq<(Slot, Arc<T>)>>::empty()) == (
                    entry.signatures@ == Map::<Seq<u8>, ForkStatus<T>>::empty())) by {
                        if entry@.signatures == Map::<Seq<u8>, Seq<(Slot, Arc<T>)>>::empty() {
                            assert forall|k: Seq<u8>| !entry.signatures@.contains_key(k) by {
                                assert(!entry@.signatures.contains_key(k));
                            }
                            assert(entry.signatures@ =~= Map::empty());
                        } else if entry.signatures@ == Map::<Seq<u8>, ForkStatus<T>>::empty() {
                            assert(entry@.signatures =~= Map::empty());
                        }
                    }
                    if !entry.signatures.is_empty() {
                        self.cache.insert_key(blockhashes[i], entry);
                    }
                },
                _ => {
                    assert(false);
                },
            }
            proof {
                let ghost was = processed;
                processed = processed.insert(blockhash);
                assert forall|b: Seq<u8>| #[trigger]
                    self@.cache.contains_key(b) <==> (if processed.contains(b) {
                        before.keeps_blockhash(slot, b)
                    } else {
                        before.cache.contains_key(b)
                    }) by {
                    if b != blockhash {
                        assert(self@.cache.contains_key(b) == current.cache.contains_key(b));
                    }
                }
                assert forall|b: Seq<u8>| #[trigger] self@.cache.contains_key(b) implies self@.cache[b] == (
                if processed.contains(b) {
                    before.cleared_entry(slot, b)
                } else {
                    before.cache[b]
                }) by {
                    if b != blockhash {
                        assert(current.cache.contains_key(b));
                        assert(self@.cache[b] == current.cache[b]);
                    }
                }
                assert forall|b: Seq<u8>| #[trigger] processed.contains(b) <==> exists|j: int|
                    0 <= j < i + 1 && (#[trigger] blockhashes@[j]).spec_to_bytes() == b by {
                    if b == blockhash {
                        assert(blockhashes@[i as int].spec_to_bytes() == b);
                    } else if was.contains(b) {
                        let j = choose|j: int|
                            0 <= j < i && (#[trigger] blockhashes@[j]).spec_to_bytes() == b;
                        assert(blockhashes@[j].spec_to_bytes() == b);
                    }
                }
            }
            i += 1;
        }
        proof {
            let after = before.clear_slot_signatures(slot);
            assert forall|b: Seq<u8>| delta.contains_key(b) implies #[trigger] processed.contains(
                b,
            ) by {
                assert(slot_deltas@.contains_key(b));
                let j = choose|j: int|
                    0 <= j < blockhashes@.len() && blockhashes@[j] == Key32::spec_from_bytes(b);
                assert(blockhashes@[j].spec_to_bytes() == b);
            }
            assert(self@.cache =~= after.cache);
            assert(self@ =~= after);
            lemma_clear_slot_keeps_wf(before, slot);
        }
    }
}

impl<T> StatusCache<T> {
    /// Clear for testing
    pub fn clear_signatures(&mut self)
        requires
            old(self).wf(),
        ensures
            final(self).wf(),
            final(self)@ == old(self)@.clear_signatures(),
    {
        let ghost before = self@;
        let ghost after = before.clear_signatures();
        let blockhashes = self.cache.keys();
        assert(before.cache.dom() =~= self.cache@.dom());
        let mut i: usize = 0;
        while i < blockhashes.len()
            invariant
                i <= blockhashes@.len(),
                after == before.clear_signatures(),
                self@.max_cache_entries == before.max_cache_entries,
                self@.roots == before.roots,
                self@.slot_deltas == before.slot_deltas,
                self@.cache.dom() == before.cache.dom(),
                forall|j: int|
                    0 <= j < blockhashes@.len() ==> before.cache.contains_key(
                        (#[trigger] blockhashes@[j]).spec_to_bytes(),
                    ),
                forall|b: Seq<u8>| #[trigger]
                    self@.cache.contains_key(b) ==> self@.cache[b] == before.cache[b]
                        || self@.cache[b] == after.cache[b],
                forall|j: int|
                    0 <= j < i ==> self@.cache[(#[trigger] blockhashes@[j]).spec_to_bytes()]
                        == after.cache[blockhashes@[j].spec_to_bytes()],
            decreases blockhashes@.len() - i,
        {
            let ghost current = self@;
            let ghost blockhash = blockhashes@[i as int].spec_to_bytes();
            match self.cache.remove_key(&blockhashes[i]) {
                Some(entry) => {
                    assert(current.cache.contains_key(blockhash));
                    let cleared = BlockhashStatus {
                        slot: entry.slot,
                        sig_index: entry.sig_index,
                        signatures: ByteMap::new(),
                    };
                    assert(cleared@.signatures =~= Map::empty());
                    assert(cleared@ == after.cache[blockhash]);
                    self.cache.insert_key(blockhashes[i], cleared);
                    assert(self@.cache =~= current.cache.insert(blockhash, cleared@));
                },
                None => {
                    assert(self@.cache =~= current.cache);
                },
            }
            i += 1;
        }
        proof {
            assert forall|b: Seq<u8>| #[trigger] self@.cache.contains_key(b) implies self@.cache[b]
                == after.cache[b] by {
                assert(before.cache.contains_key(b));
                assert(old(self).cache@.contains_key(b));
                let j = choose|j: int|
                    0 <= j < blockhashes@.len() && blockhashes@[j] == Key32::spec_from_bytes(b);
                assert(blockhashes@[j].spec_to_bytes() == b);
            }
            assert(self@.cache =~= after.cache);
        }
        let slots = slots_of(&self.slot_deltas);
        let mut i: usize = 0;
        while i < slots.len()
            invariant
                i <= slots@.len(),
                slots@.to_set() == before.slot_deltas.dom(),
                after == before.clear_signatures(),
                self@.max_cache_entries == before.max_cache_entries,
                self@.roots == before.roots,
                self@.cache == after.cache,
                self@.slot_deltas.dom() == before.slot_deltas.dom(),
                forall|j: int|
                    0 <= j < i ==> self@.slot_deltas[#[trigger] slots@[j]] == Map::<
                        Seq<u8>,
                        (usize, Seq<(SignatureSlice, Arc<T>)>),
                    >::empty(),
            decreases slots@.len() - i,
        {
            let ghost current = self@;
            let statuses: SignatureStatus<T> = ByteMap::new();
            assert(delta_view(statuses) =~= Map::empty());
            assert(slots@.to_set().contains(slots@[i as int]));
            self.slot_deltas.insert(slots[i], statuses);
            assert(self@.slot_deltas =~= current.slot_deltas.insert(
                slots@[i as int],
                Map::empty(),
            ));
            i += 1;
        }
        proof {
            assert forall|slot: Slot| #[trigger] self@.slot_deltas.contains_key(slot) implies self@.slot_deltas[slot]
                == after.slot_deltas[slot] by {
                assert(slots@.to_set().contains(slot));
                let j = choose|j: int| 0 <= j < slots@.len() && slots@[j] == slot;
                assert(slots@[j] == slot);
            }
            assert(self@.slot_deltas =~= after.slot_deltas);
            assert(self@ =~= after);
        }
    }

    /// Returns the signature statuses for each slot in the slots provided.
    pub fn slot_deltas<'a>(&'a self, slots: &[Slot]) -> (deltas: Vec<SlotDelta<'a, T>>)
        ensures
            deltas@.len() == slots@.len(),
            forall|i: int|
                0 <= i < slots@.len() ==> {
                    &&& (#[trigger] deltas@[i]).0 == slots@[i]
                    &&& deltas@[i].1 == self@.roots.contains(slots@[i])
                    &&& deltas@[i].2 is Some == self@.slot_deltas.contains_key(slots@[i])
                    &&& delta_of(deltas@[i].2) == self@.delta(slots@[i])
                },
    {
        let mut deltas: Vec<SlotDelta<'a, T>> = Vec::new();
        let mut i: usize = 0;
        while i < slots.len()
            invariant
                i <= slots@.len(),
                deltas@.len() == i,
                forall|j: int|
                    0 <= j < i ==> {
                        &&& (#[trigger] deltas@[j]).0 == slots@[j]
                        &&& deltas@[j].1 == self@.roots.contains(slots@[j])
                        &&& deltas@[j].2 is Some == self@.slot_deltas.contains_key(slots@[j])
                        &&& delta_of(deltas@[j].2) == self@.delta(slots@[j])
                    },
            decreases slots@.len() - i,
        {
            let slot = slots[i];
            deltas.push((slot, self.roots.contains(&slot), self.slot_deltas.get(&slot)));
            i += 1;
        }
        deltas
    }

    /// Adds the statuses of a delta, on a slot.
    fn replay(&mut self, slot: Slot, statuses: &SignatureStatus<T>)
        requires
            old(self).wf(),
        ensures
            final(self).wf(),
            final(self)@ == old(self)@.replay(slot, delta_view(*statuses)),
    {
        let ghost before = self@;
        let ghost delta = delta_view(*statuses);
        let ghost mut done: DeltaView<T> = Map::empty();
        let blockhashes = statuses.keys();
        let mut i: usize = 0;
        assert(self@ =~= before.replay(slot, done));
        while i < blockhashes.len()
            invariant
                i <= blockhashes@.len(),
                self.wf(),
                delta == delta_view(*statuses),
                blockhashes@.no_duplicates(),
                forall|j: int|
                    0 <= j < blockhashes@.len() ==> delta.contains_key(
                        (#[trigger] blockhashes@[j]).spec_to_bytes(),
                    ),
                self@ == before.replay(slot, done),
                forall|b: Seq<u8>| #[trigger]
                    done.contains_key(b) ==> delta.contains_key(b) && done[b] == delta[b]
                        && exists|j: int|
                        0 <= j < i && (#[trigger] blockhashes@[j]).spec_to_bytes() == b,
                forall|j: int|
                    0 <= j < i ==> done.contains_key((#[trigger] blockhashes@[j]).spec_to_bytes()),
            decreases blockhashes@.len() - i,
        {
            let ghost blockhash = blockhashes@[i as int].spec_to_bytes();
            proof {
                if done.contains_key(blockhash) {
                    let j = choose|j: int|
                        0 <= j < i && (#[trigger] blockhashes@[j]).spec_to_bytes() == blockhash;
                    Key32::lemma_round_trip_back(blockhashes@[j]);
                    Key32::lemma_round_trip_back(blockhashes@[i as int]);
                }
            }
            match statuses.get_key(&blockhashes[i]) {
                Some(entry) => {
                    let ghost list = entry.1@;
                    let ghost none = Seq::<(SignatureSlice, Arc<T>)>::empty();
                    assert(delta[blockhash] == (entry.0, list));
                    assert(list.take(0) =~= none);
                    assert(before.replay(slot, done.insert(blockhash, (entry.0, none)))
                        =~= before.replay(slot, done)) by {
                        let grown = done.insert(blockhash, (entry.0, none));
                        assert forall|b: Seq<u8>| adds_statuses(grown, b)
                            == #[trigger] adds_statuses(done, b) by {}
                        assert forall|b: Seq<u8>| #[trigger] adds_statuses(grown, b)
                            == adds_statuses(done, b) by {}
                        let left = before.replay(slot, grown);
                        let right = before.replay(slot, done);
                        assert(left.cache =~= right.cache);
                        assert(left.slot_deltas[slot] =~= right.slot_deltas[slot]);
                        assert(left.slot_deltas =~= right.slot_deltas);
                    }
                    let mut j: usize = 0;
                    while j < entry.1.len()
                        invariant
                            j <= entry.1@.len(),
                            self.wf(),
                            list == entry.1@,
                            blockhash == blockhashes@[i as int].spec_to_bytes(),
                            i < blockhashes@.len(),
                            !done.contains_key(blockhash),
                            self@ == before.replay(
                                slot,
                                done.insert(blockhash, (entry.0, list.take(j as int))),
                            ),
                        decreases entry.1@.len() - j,
                    {
                        proof {
                            lemma_replay_extends(
                                before,
                                slot,
                                done,
                                blockhash,
                                entry.0,
                                list.take(j as int),
                                list[j as int],
                            );
                            assert(list.take(j as int).push(list[j as int]) =~= list.take(j + 1));
                        }
                        self.insert_with_slice(
                            &blockhashes[i],
                            slot,
                            entry.0,
                            entry.1[j].0,
                            share(&entry.1[j].1),
                        );
                        j += 1;
                    }
                    assert(list.take(j as int) =~= list);
                    proof {
                        let was = done;
                        done = done.insert(blockhash, delta[blockhash]);
                        assert forall|b: Seq<u8>| #[trigger] done.contains_key(b) implies exists|
                            j: int,
                        |
                            0 <= j < i + 1 && (#[trigger] blockhashes@[j]).spec_to_bytes() == b by {
                            if b == blockhash {
                                assert(blockhashes@[i as int].spec_to_bytes() == b);
                            } else {
                                assert(was.contains_key(b));
                            }
                        }
                    }
                },
                None => {
                    assert(false);
                },
            }
            i += 1;
        }
        proof {
            assert forall|b: Seq<u8>| done.contains_key(b) == #[trigger] delta.contains_key(b) by {
                if delta.contains_key(b) {
                    assert(statuses@.contains_key(b));
                    let j = choose|j: int|
                        0 <= j < blockhashes@.len() && blockhashes@[j] == Key32::spec_from_bytes(b);
                    assert(blockhashes@[j].spec_to_bytes() == b);
                }
            }
            assert(done =~= delta);
        }
    }

    /// Replay deltas into a status_cache allows "appending" data.
    pub fn append(&mut self, slot_deltas: &[SlotDelta<T>])
        requires
            old(self).wf(),
        ensures
            final(self).wf(),
            final(self)@ == old(self)@.append(slot_deltas@),
    {
        let ghost before = self@;
        let mut i: usize = 0;
        assert(slot_deltas@.take(0) =~= Seq::empty());
        while i < slot_deltas.len()
            invariant
                i <= slot_deltas@.len(),
                self.wf(),
                self@ == before.append(slot_deltas@.take(i as int)),
            decreases slot_deltas@.len() - i,
        {
            assert(slot_deltas@.take(i + 1).drop_last() =~= slot_deltas@.take(i as int));
            let slot = slot_deltas[i].0;
            match slot_deltas[i].2 {
                Some(statuses) => {
                    self.replay(slot, statuses);
                },
                None => {
                    assert(self@.replay(slot, Map::empty()) =~= self@);
                },
            }
            if slot_deltas[i].1 {
                self.add_root(slot);
            }
            i += 1;
        }
        assert(slot_deltas@.take(i as int) =~= slot_deltas@);
    }

    pub fn from_slot_deltas(max_cache_entries: usize, slot_deltas: &[SlotDelta<T>]) -> (cache: Self)
        ensures
            cache.wf(),
            cache@ == CacheView::<T>::empty(max_cache_entries).append(slot_deltas@),
    {
        // play all deltas back into the status cache
        let mut me = Self::new(max_cache_entries);
        me.append(slot_deltas);
        me
    }
}

/// Whether the highest forks are the same.
pub open spec fn same_highest_fork<T: PartialEq>(
    forks: Seq<(Slot, Arc<T>)>,
    other: Seq<(Slot, Arc<T>)>,
) -> bool {
    if forks.len() == 0 || other.len() == 0 {
        forks.len() == other.len()
    } else {
        forks.last().0 == other.last().0 && (*forks.last().1).eq_spec(&*other.last().1)
    }
}

/// Whether every signature has the same highest fork in the other statuses.
pub open spec fn signatures_match<T: PartialEq>(
    signatures: Map<Seq<u8>, Seq<(Slot, Arc<T>)>>,
    other: Map<Seq<u8>, Seq<(Slot, Arc<T>)>>,
) -> bool {
    forall|slice: Seq<u8>| #[trigger]
        signatures.contains_key(slice) ==> other.contains_key(slice) && same_highest_fork(
            signatures[slice],
            other[slice],
        )
}

/// Whether what is known under a blockhash is also known in the other statuses.
pub open spec fn blockhash_matches<T: PartialEq>(
    entry: BlockhashView<T>,
    other: BlockhashView<T>,
) -> bool {
    entry.slot == other.slot && entry.sig_index == other.sig_index && signatures_match(
        entry.signatures,
        other.signatures,
    )
}

impl<T: PartialEq> BlockhashStatus<T> {
    fn matches(&self, other: &Self) -> (matching: bool)
        ensures
            T::obeys_eq_spec() ==> matching == blockhash_matches(self@, other@),
    {
        if self.slot != other.slot || self.sig_index != other.sig_index {
            return false;
        }
        let slices = self.signatures.keys();
        let mut i: usize = 0;
        while i < slices.len()
            invariant
                i <= slices@.len(),
                forall|j: int|
                    0 <= j < slices@.len() ==> self.signatures@.contains_key(
                        (#[trigger] slices@[j]).spec_to_bytes(),
                    ),
                T::obeys_eq_spec() ==> forall|j: int|
                    0 <= j < i ==> other@.signatures.contains_key(
                        (#[trigger] slices@[j]).spec_to_bytes(),
                    ) && same_highest_fork(
                        self@.signatures[slices@[j].spec_to_bytes()],
                        other@.signatures[slices@[j].spec_to_bytes()],
                    ),
            decreases slices@.len() - i,
        {
            let ghost slice = slices@[i as int].spec_to_bytes();
            assert(self@.signatures.contains_key(slice));
            match (self.signatures.get_key(&slices[i]), other.signatures.get_key(&slices[i])) {
                (Some(forks), Some(other_forks)) => {
                    assert(other@.signatures.contains_key(slice));
                    let same = if forks.len() == 0 || other_forks.len() == 0 {
                        forks.len() == other_forks.len()
                    } else {
                        let fork = &forks[forks.len() - 1];
                        let other_fork = &other_forks[other_forks.len() - 1];
                        fork.0 == other_fork.0 && *fork.1 == *other_fork.1
                    };
                    if !same {
                        return false;
                    }
                },
                _ => {
                    assert(!other@.signatures.contains_key(slice));
                    return false;
                },
            }
            i += 1;
        }
        proof {
            if T::obeys_eq_spec() {
                assert forall|slice: Seq<u8>| #[trigger]
                    self@.signatures.contains_key(slice) implies other@.signatures.contains_key(
                    slice,
                ) && same_highest_fork(self@.signatures[slice], other@.signatures[slice]) by {
                    assert(self.signatures@.contains_key(slice));
                    let j = choose|j: int|
                        0 <= j < slices@.len() && slices@[j] == Key20::spec_from_bytes(slice);
                    assert(slices@[j].spec_to_bytes() == slice);
                }
            }
        }
        true
    }
}

/// Whether two sets hold the same slots.
fn same_slots(slots: &HashSet<Slot>, other: &HashSet<Slot>) -> (same: bool)
    ensures
        same == (slots@ == other@),
{
    if slots.len() != other.len() {
        return false;
    }
    let ghost all = IteratorSpec::remaining(&slots.iter()).unref();
    for slot in iter: slots.iter()
        invariant
            iter.index() <= iter.seq().len(),
            iter.seq().unref() == all,
            all.to_set() == slots@,
            forall|j: int| 0 <= j < iter.index() ==> other@.contains(#[trigger] all[j]),
    {
        assert(all[iter.index() as int] == *slot);
        assert(all.to_set().contains(*slot));
        if !other.contains(slot) {
            return false;
        }
    }
    proof {
        assert forall|slot: Slot| #[trigger] slots@.contains(slot) implies other@.contains(
            slot,
        ) by {
            assert(all.to_set().contains(slot));
            let j = choose|j: int| 0 <= j < all.len() && all[j] == slot;
            assert(other@.contains(all[j]));
        }
        assert(slots@.subset_of(other@));
        let all_other = IteratorSpec::remaining(&other.iter()).unref();
        assert(all_other.to_set() == other@);
        vstd::seq_lib::seq_to_set_is_finite(all);
        vstd::seq_lib::seq_to_set_is_finite(all_other);
        vstd::set_lib::lemma_subset_equality(slots@, other@);
    }
    true
}

impl<T: PartialEq> PartialEq for StatusCache<T> {
    fn eq(&self, other: &Self) -> (equal: bool) {
        if !same_slots(&self.roots, &other.roots) {
            return false;
        }
        let blockhashes = self.cache.keys();
        let mut i: usize = 0;
        while i < blockhashes.len()
            invariant
                i <= blockhashes@.len(),
                forall|j: int|
                    0 <= j < blockhashes@.len() ==> self.cache@.contains_key(
                        (#[trigger] blockhashes@[j]).spec_to_bytes(),
                    ),
                T::obeys_eq_spec() ==> forall|j: int|
                    0 <= j < i ==> other@.cache.contains_key(
                        (#[trigger] blockhashes@[j]).spec_to_bytes(),
                    ) && blockhash_matches(
                        self@.cache[blockhashes@[j].spec_to_bytes()],
                        other@.cache[blockhashes@[j].spec_to_bytes()],
                    ),
            decreases blockhashes@.len() - i,
        {
            let ghost blockhash = blockhashes@[i as int].spec_to_bytes();
            assert(self@.cache.contains_key(blockhash));
            match (self.cache.get_key(&blockhashes[i]), other.cache.get_key(&blockhashes[i])) {
                (Some(entry), Some(other_entry)) => {
                    assert(other@.cache.contains_key(blockhash));
                    if !entry.matches(other_entry) {
                        return false;
                    }
                },
                _ => {
                    assert(!other@.cache.contains_key(blockhash));
                    return false;
                },
            }
            i += 1;
        }
        proof {
            if T::obeys_eq_spec() {
                assert forall|b: Seq<u8>| #[trigger] self@.cache.contains_key(b) implies other@.cache.contains_key(
                    b,
                ) && blockhash_matches(self@.cache[b], other@.cache[b]) by {
                    assert(self.cache@.contains_key(b));
                    let j = choose|j: int|
                        0 <= j < blockhashes@.len() && blockhashes@[j] == Key32::spec_from_bytes(b);
                    assert(blockhashes@[j].spec_to_bytes() == b);
                }
            }
        }
        true
    }
}

impl<T: PartialEq> PartialEqSpecImpl for StatusCache<T> {
    open spec fn obeys_eq_spec() -> bool {
        T::obeys_eq_spec()
    }

    /// Both have the same roots, and whatever is known under a blockhash in the first is also
    /// known in the second.
    open spec fn eq_spec(&self, other: &Self) -> bool {
        &&& self@.roots == other@.roots
        &&& forall|blockhash: Seq<u8>| #[trigger]
            self@.cache.contains_key(blockhash) ==> other@.cache.contains_key(blockhash)
                && blockhash_matches(self@.cache[blockhash], other@.cache[blockhash])
    }
}

proof fn lemma_first_visible_push<T>(
    forks: Seq<(Slot, Arc<T>)>,
    fork: (Slot, Arc<T>),
    visible: Set<Slot>,
)
    requires
        visible.contains(fork.0),
    ensures
        first_visible(forks.push(fork), visible) == (match first_visible(forks, visible) {
            Some(earlier) => Some(earlier),
            None => Some(fork),
        }),
    decreases forks.len(),
{
    if forks.len() > 0 {
        assert(forks.push(fork).drop_first() =~= forks.drop_first().push(fork));
        lemma_first_visible_push(forks.drop_first(), fork, visible);
    } else {
        assert(forks.push(fork)[0] == fork);
    }
}

/// A status that was recorded on an ancestor or a root is found, unless an earlier one was
/// already visible: then that one is.
pub proof fn law_recorded_status_is_found<T>(
    before: CacheView<T>,
    blockhash: Seq<u8>,
    sig: Seq<u8>,
    slot: Slot,
    sig_index: usize,
    res: T,
    after: CacheView<T>,
    ancestors: Set<Slot>,
)
    requires
        before.records(blockhash, sig, slot, sig_index, res, after),
        ancestors.contains(slot) || before.roots.contains(slot),
    ensures
        match before.status(sig, blockhash, ancestors) {
            Some(earlier) => after.status(sig, blockhash, ancestors) == Some(earlier),
            None => after.status(sig, blockhash, ancestors) matches Some(found) && found.0 == slot
                && *found.1 == res,
        },
{
    let entry = before.entry(blockhash, slot, sig_index);
    let index = entry.sig_index;
    let (slice, shared) = choose|slice: SignatureSlice, shared: Arc<T>|
        slice@ == sig.subrange(index as int, index + CACHED_SIGNATURE_SIZE) && *shared == res
            && after == #[trigger] before.record_slice(blockhash, slot, index, slice, shared);
    lemma_first_visible_push(entry.forks(slice@), (slot, shared), ancestors.union(before.roots));
}

/// A status under one blockhash is not found under another one.
pub proof fn law_other_blockhashes_unaffected<T>(
    before: CacheView<T>,
    blockhash: Seq<u8>,
    sig: Seq<u8>,
    slot: Slot,
    sig_index: usize,
    res: T,
    after: CacheView<T>,
    other_sig: Seq<u8>,
    other: Seq<u8>,
    ancestors: Set<Slot>,
)
    requires
        before.records(blockhash, sig, slot, sig_index, res, after),
        other != blockhash,
    ensures
        after.status(other_sig, other, ancestors) == before.status(other_sig, other, ancestors),
{
}

/// In an empty cache no signature is found.
pub proof fn law_empty_cache_finds_nothing<T>(
    max_cache_entries: usize,
    sig: Seq<u8>,
    blockhash: Seq<u8>,
    ancestors: Set<Slot>,
)
    ensures
        CacheView::<T>::empty(max_cache_entries).wf(),
        CacheView::<T>::empty(max_cache_entries).status(sig, blockhash, ancestors) is None,
{
}

/// Once the signatures of a slot are cleared, no signature that the slot had listed has a fork
/// on it any more, and the slot lists none.
pub proof fn law_cleared_slot_is_gone<T>(
    before: CacheView<T>,
    slot: Slot,
    blockhash: Seq<u8>,
    slice: Seq<u8>,
)
    requires
        before.wf(),
        before.delta(slot).contains_key(blockhash),
        lists_slice(before.delta(slot)[blockhash].1, slice),
    ensures
        before.clear_slot_signatures(slot).wf(),
        !before.clear_slot_signatures(slot).slot_deltas.contains_key(slot),
        before.clear_slot_signatures(slot).cache.contains_key(blockhash) ==> !has_fork(
            before.clear_slot_signatures(slot).cache[blockhash].forks(slice),
            slot,
        ),
{
    lemma_clear_slot_keeps_wf(before, slot);
    lemma_other_forks_differ(before.cache[blockhash].forks(slice), slot);
}

proof fn lemma_other_forks_same<T>(forks: Seq<(Slot, Arc<T>)>, slot: Slot)
    requires
        !has_fork(forks, slot),
    ensures
        other_forks(forks, slot) == forks,
    decreases forks.len(),
{
    reveal(Seq::filter);
    if forks.len() > 0 {
        let shorter = forks.drop_last();
        assert forall|k: int| 0 <= k < shorter.len() implies (#[trigger] shorter[k]).0 != slot by {
            assert(forks[k].0 != slot);
        }
        lemma_other_forks_same(shorter, slot);
        assert(forks[forks.len() - 1].0 != slot);
        assert(shorter.push(forks.last()) =~= forks);
    } else {
        assert(other_forks(forks, slot) =~= forks);
    }
}

/// Clearing a slot undoes what was recorded on it: every signature has the forks it had
/// before, and a blockhash that the record had brought in is gone again.
pub proof fn law_clear_undoes_record<T>(
    before: CacheView<T>,
    blockhash: Seq<u8>,
    slot: Slot,
    sig_index: usize,
    slice: SignatureSlice,
    res: Arc<T>,
)
    requires
        before.wf(),
        !before.slot_deltas.contains_key(slot),
        before.cache.contains_key(blockhash) ==> {
            let entry = before.cache[blockhash];
            &&& entry.signatures != Map::<Seq<u8>, Seq<(Slot, Arc<T>)>>::empty()
            &&& entry.signatures.contains_key(slice@) ==> entry.signatures[slice@].len() > 0
                && !has_fork(entry.signatures[slice@], slot)
        },
    ensures
        ({
            let recorded = before.record_slice(blockhash, slot, sig_index, slice, res);
            let after = recorded.clear_slot_signatures(slot);
            &&& recorded.clearable(slot)
            &&& after.roots == before.roots
            &&& after.slot_deltas == before.slot_deltas
            &&& after.cache.dom() == before.cache.dom()
            &&& forall|other: Seq<u8>| #[trigger]
                before.cache.contains_key(other) ==> after.cache[other].sig_index
                    == before.cache[other].sig_index && after.cache[other].signatures
                    == before.cache[other].signatures
        }),
{
    let recorded = before.record_slice(blockhash, slot, sig_index, slice, res);
    let after = recorded.clear_slot_signatures(slot);
    let entry = before.entry(blockhash, slot, sig_index);
    let forks = entry.forks(slice@);
    let statuses = recorded.delta(slot)[blockhash].1;
    assert(recorded.delta(slot) =~= Map::empty().insert(blockhash, (sig_index, statuses)));
    assert(statuses =~= seq![(slice, res)]);
    assert(statuses[0].0@ == slice@);
    assert(after.slot_deltas =~= before.slot_deltas);
    assert(other_forks(forks.push((slot, res)), slot) == forks) by {
        reveal(Seq::filter);
        assert(forks.push((slot, res)).drop_last() =~= forks);
        lemma_other_forks_same(forks, slot);
    }
    let cleared = recorded.cleared_entry(slot, blockhash);
    assert forall|s: Seq<u8>| #[trigger] lists_slice(statuses, s) == (s == slice@) by {
        if s == slice@ {
            assert(statuses[0].0@ == s);
        }
    }
    assert(cleared.signatures =~= entry.signatures);
    assert(after.cache.dom() =~= before.cache.dom());
}

proof fn lemma_oldest_exists(roots: Set<Slot>)
    requires
        roots.finite(),
        roots.len() > 0,
    ensures
        roots.contains(oldest_root(roots)),
        forall|root: Slot| #[trigger] roots.contains(root) ==> oldest_root(roots) <= root,
    decreases roots.len(),
{
    let some = roots.choose();
    let rest = roots.remove(some);
    if rest.len() == 0 {
        assert forall|root: Slot| #[trigger] roots.contains(root) implies some <= root by {
            if root != some {
                assert(rest.contains(root));
            }
        }
        lemma_oldest_root(roots, some);
    } else {
        lemma_oldest_exists(rest);
        let other = oldest_root(rest);
        let oldest = if some < other {
            some
        } else {
            other
        };
        assert forall|root: Slot| #[trigger] roots.contains(root) implies oldest <= root by {
            if root != some {
                assert(rest.contains(root));
            }
        }
        lemma_oldest_root(roots, oldest);
    }
}

/// A cache never holds more roots than it may: adding one drops the oldest where there would
/// be too many.
pub proof fn law_roots_stay_bounded<T>(before: CacheView<T>, fork: Slot)
    requires
        before.roots.finite(),
        before.roots.len() <= before.max_cache_entries,
    ensures
        before.add_root(fork).roots.finite(),
        before.add_root(fork).roots.len() <= before.max_cache_entries,
{
    let roots = before.roots.insert(fork);
    if roots.len() > before.max_cache_entries {
        lemma_oldest_exists(roots);
    }
}

/// Once the oldest root is dropped, no signature is found under a blockhash that was not
/// observed after it.
pub proof fn law_expired_root_forgets_statuses<T>(
    before: CacheView<T>,
    sig: Seq<u8>,
    blockhash: Seq<u8>,
    ancestors: Set<Slot>,
)
    requires
        before.roots.len() > before.max_cache_entries,
        before.cache.contains_key(blockhash),
        before.cache[blockhash].slot <= oldest_root(before.roots),
    ensures
        before.purge_roots().status(sig, blockhash, ancestors) is None,
{
}

/// Replaying a slot's delta into a cache that knows nothing of the slot gives the same delta
/// back.
pub proof fn law_replay_restores_delta<T>(before: CacheView<T>, slot: Slot, delta: DeltaView<T>)
    requires
        before.delta(slot) == Map::<Seq<u8>, (usize, Seq<(SignatureSlice, Arc<T>)>)>::empty(),
        forall|blockhash: Seq<u8>| #[trigger]
            delta.contains_key(blockhash) ==> delta[blockhash].1.len() > 0,
    ensures
        before.replay(slot, delta).delta(slot) == delta,
{
    let after = before.replay(slot, delta);
    if exists|blockhash: Seq<u8>| #[trigger] adds_statuses(delta, blockhash) {
        assert(after.delta(slot) =~= delta);
    } else {
        assert forall|blockhash: Seq<u8>| !#[trigger] delta.contains_key(blockhash) by {
            assert(!adds_statuses(delta, blockhash));
        }
        assert(delta =~= Map::empty());
    }
}

proof fn lemma_visible_fork<T>(forks: Seq<(Slot, Arc<T>)>, slot: Slot, visible: Set<Slot>)
    requires
        has_fork(forks, slot),
        visible.contains(slot),
    ensures
        first_visible(forks, visible) is Some,
    decreases forks.len(),
{
    if !visible.contains(forks[0].0) {
        let k = choose|k: int| 0 <= k < forks.len() && (#[trigger] forks[k]).0 == slot;
        assert(forks.drop_first()[k - 1].0 == slot);
        lemma_visible_fork(forks.drop_first(), slot, visible);
    }
}

proof fn lemma_replay_has_fork<T>(
    before: BlockhashView<T>,
    statuses: Seq<(SignatureSlice, Arc<T>)>,
    slot: Slot,
    slice: Seq<u8>,
)
    ensures
        before.replay(statuses, slot).sig_index == before.sig_index,
        lists_slice(statuses, slice) ==> has_fork(
            before.replay(statuses, slot).forks(slice),
            slot,
        ),
    decreases statuses.len(),
{
    if statuses.len() > 0 {
        let earlier = statuses.drop_last();
        let replayed = before.replay(earlier, slot);
        lemma_replay_has_fork(before, earlier, slot, slice);
        if lists_slice(statuses, slice) {
            let last = statuses.last();
            let forks = before.replay(statuses, slot).forks(slice);
            if last.0@ == slice {
                assert(forks[forks.len() - 1].0 == slot);
            } else {
                let i = choose|i: int|
                    0 <= i < statuses.len() && (#[trigger] statuses[i]).0@ == slice;
                assert(earlier[i].0@ == slice);
                assert(forks == replayed.forks(slice));
            }
        }
    }
}

/// A status that a replayed delta lists is found on the delta's slot or on an earlier fork,
/// wherever the slot is an ancestor or a root.
pub proof fn law_replayed_status_is_found<T>(
    before: CacheView<T>,
    slot: Slot,
    delta: DeltaView<T>,
    blockhash: Seq<u8>,
    sig: Seq<u8>,
    ancestors: Set<Slot>,
)
    requires
        delta.contains_key(blockhash),
        ({
            let index = before.entry(blockhash, slot, delta[blockhash].0).sig_index;
            lists_slice(
                delta[blockhash].1,
                sig.subrange(index as int, index + CACHED_SIGNATURE_SIZE),
            )
        }),
        ancestors.contains(slot) || before.roots.contains(slot),
    ensures
        before.replay(slot, delta).status(sig, blockhash, ancestors) is Some,
{
    let entry = before.entry(blockhash, slot, delta[blockhash].0);
    let slice = sig.subrange(entry.sig_index as int, entry.sig_index + CACHED_SIGNATURE_SIZE);
    assert(adds_statuses(delta, blockhash));
    lemma_replay_has_fork(entry, delta[blockhash].1, slot, slice);
    lemma_visible_fork(
        entry.replay(delta[blockhash].1, slot).forks(slice),
        slot,
        ancestors.union(before.roots),
    );
}

/// Where all cached parts of signatures lie within the signatures, in a cache and in deltas, they
/// do so in the cache once the deltas are appended.
pub proof fn law_append_keeps_offsets_fit<T>(before: CacheView<T>, slot_deltas: Seq<SlotDelta<T>>)
    requires
        before.offsets_fit(),
        forall|i: int|
            0 <= i < slot_deltas.len() ==> delta_offsets_fit(
                delta_of((#[trigger] slot_deltas[i]).2),
            ),
    ensures
        before.append(slot_deltas).offsets_fit(),
    decreases slot_deltas.len(),
{
    if slot_deltas.len() > 0 {
        let earlier = slot_deltas.drop_last();
        let last = slot_deltas[slot_deltas.len() - 1];
        assert forall|i: int| 0 <= i < earlier.len() implies delta_offsets_fit(
            delta_of((#[trigger] earlier[i]).2),
        ) by {
            assert(earlier[i] == slot_deltas[i]);
        }
        law_append_keeps_offsets_fit(before, earlier);
        let middle = before.append(earlier);
        let delta = delta_of(last.2);
        let replayed = middle.replay(last.0, delta);
        assert forall|b: Seq<u8>| #[trigger] replayed.cache.contains_key(b) implies offset_fits(
            replayed.cache[b].sig_index,
        ) by {
            if adds_statuses(delta, b) {
                lemma_replay_has_fork(
                    middle.entry(b, last.0, delta[b].0),
                    delta[b].1,
                    last.0,
                    Seq::empty(),
                );
            }
        }
    }
}

/// The slots of deltas that are roots.
pub open spec fn root_slots<T>(slot_deltas: Seq<SlotDelta<T>>) -> Set<Slot>
    decreases slot_deltas.len(),
{
    if slot_deltas.len() == 0 {
        Set::empty()
    } else {
        let earlier = root_slots(slot_deltas.drop_last());
        if slot_deltas.last().1 {
            earlier.insert(slot_deltas.last().0)
        } else {
            earlier
        }
    }
}

proof fn lemma_root_slots<T>(slot_deltas: Seq<SlotDelta<T>>)
    ensures
        root_slots(slot_deltas).finite(),
        root_slots(slot_deltas).len() <= slot_deltas.len(),
    decreases slot_deltas.len(),
{
    if slot_deltas.len() > 0 {
        lemma_root_slots(slot_deltas.drop_last());
    }
}

/// Appending the deltas of slots that a cache knows nothing of, and that bring no more roots
/// than it may hold, gives each of them back, makes their roots roots, and leaves the deltas of
/// all other slots as they were.
pub proof fn law_append_restores_deltas<T>(before: CacheView<T>, slot_deltas: Seq<SlotDelta<T>>)
    requires
        before.roots.finite(),
        before.roots.len() + slot_deltas.len() <= before.max_cache_entries,
        forall|i: int|
            0 <= i < slot_deltas.len() ==> before.delta((#[trigger] slot_deltas[i]).0) == Map::<
                Seq<u8>,
                (usize, Seq<(SignatureSlice, Arc<T>)>),
            >::empty(),
        forall|i: int, j: int|
            0 <= i < j < slot_deltas.len() ==> (#[trigger] slot_deltas[i]).0 != (
            #[trigger] slot_deltas[j]).0,
        forall|i: int, blockhash: Seq<u8>|
            0 <= i < slot_deltas.len() && #[trigger] delta_of(slot_deltas[i].2).contains_key(blockhash) ==> delta_of(slot_deltas[i].2)[blockhash].1.len() > 0,
    ensures
        forall|i: int|
            0 <= i < slot_deltas.len() ==> before.append(slot_deltas).delta(
                (#[trigger] slot_deltas[i]).0,
            ) == delta_of(slot_deltas[i].2),
        forall|slot: Slot|
            (forall|i: int| 0 <= i < slot_deltas.len() ==> (#[trigger] slot_deltas[i]).0 != slot)
                ==> #[trigger] before.append(slot_deltas).delta(slot) == before.delta(slot),
        before.append(slot_deltas).roots == before.roots.union(root_slots(slot_deltas)),
        before.append(slot_deltas).max_cache_entries == before.max_cache_entries,
    decreases slot_deltas.len(),
{
    if slot_deltas.len() == 0 {
        assert(before.roots.union(root_slots(slot_deltas)) =~= before.roots);
    } else {
        let earlier = slot_deltas.drop_last();
        let last = slot_deltas.last();
        let delta = delta_of(last.2);
        assert forall|i: int, blockhash: Seq<u8>|
            0 <= i < earlier.len() && #[trigger] delta_of(earlier[i].2).contains_key(
                blockhash,
            ) implies delta_of(earlier[i].2)[blockhash].1.len() > 0 by {
            assert(delta_of(slot_deltas[i].2).contains_key(blockhash));
        }
        law_append_restores_deltas(before, earlier);
        let middle = before.append(earlier);
        assert(last == slot_deltas[slot_deltas.len() - 1]);
        assert forall|i: int| 0 <= i < earlier.len() implies (#[trigger] earlier[i]).0
            != last.0 by {
            assert(slot_deltas[i].0 != slot_deltas[slot_deltas.len() - 1].0);
        }
        assert(middle.delta(last.0) == before.delta(last.0));
        assert forall|blockhash: Seq<u8>| #[trigger] delta.contains_key(
            blockhash,
        ) implies delta[blockhash].1.len() > 0 by {
            assert(delta_of(slot_deltas[slot_deltas.len() - 1].2).contains_key(blockhash));
        }
        law_replay_restores_delta(middle, last.0, delta);
        let replayed = middle.replay(last.0, delta);
        lemma_root_slots(earlier);
        vstd::set_lib::lemma_len_union(before.roots, root_slots(earlier));
        let after = before.append(slot_deltas);
        assert(after == middle.append_delta(last.0, last.1, delta));
        assert(after.slot_deltas == replayed.slot_deltas);
        assert(after.roots =~= before.roots.union(root_slots(slot_deltas)));
        assert forall|i: int| 0 <= i < slot_deltas.len() implies after.delta(
            (#[trigger] slot_deltas[i]).0,
        ) == delta_of(slot_deltas[i].2) by {
            if i < earlier.len() {
                assert(earlier[i] == slot_deltas[i]);
                assert(earlier[i].0 != last.0);
            }
        }
        assert forall|slot: Slot|
            (forall|i: int| 0 <= i < slot_deltas.len() ==> (#[trigger] slot_deltas[i]).0
                != slot) implies #[trigger] after.delta(slot) == before.delta(slot) by {
            assert(slot_deltas[slot_deltas.len() - 1].0 != slot);
            assert forall|i: int| 0 <= i < earlier.len() implies (#[trigger] earlier[i]).0
                != slot by {
                assert(slot_deltas[i].0 != slot);
            }
            assert(middle.delta(slot) == before.delta(slot));
        }
    }
}

} // verus!
