//! What each change does to a cache, and what is found in it.

use std::sync::Arc;

use vstd::prelude::*;
use vstd::std_specs::cmp::PartialEqSpec;

use super::BlockhashView;
use super::CacheView;
use super::DeltaView;
use super::SignatureSlice;
use super::SlotDelta;
use super::StatusCache;
use crate::clock::Slot;

verus! {

proof fn lemma_first_visible<T>(forks: Seq<(Slot, Arc<T>)>, visible: Set<Slot>)
    ensures
        match super::first_visible(forks, visible) {
            Some(fork) => exists|k: int|
                0 <= k < forks.len() && #[trigger] forks[k] == fork && visible.contains(fork.0)
                    && forall|j: int| 0 <= j < k ==> !visible.contains((#[trigger] forks[j]).0),
            None => forall|k: int|
                0 <= k < forks.len() ==> !visible.contains((#[trigger] forks[k]).0),
        },
    decreases forks.len(),
{
    if forks.len() > 0 {
        if visible.contains(forks[0].0) {
            assert(forks[0] == forks[0]);
        } else {
            let rest = forks.drop_first();
            lemma_first_visible(rest, visible);
            match super::first_visible(rest, visible) {
                Some(fork) => {
                    let k = choose|k: int|
                        0 <= k < rest.len() && #[trigger] rest[k] == fork && visible.contains(
                            fork.0,
                        ) && forall|j: int|
                            0 <= j < k ==> !visible.contains((#[trigger] rest[j]).0);
                    assert(forks[k + 1] == fork);
                    assert forall|j: int| 0 <= j < k + 1 implies !visible.contains(
                        (#[trigger] forks[j]).0,
                    ) by {
                        if j > 0 {
                            assert(rest[j - 1] == forks[j]);
                        }
                    }
                },
                None => {
                    assert forall|k: int| 0 <= k < forks.len() implies !visible.contains(
                        (#[trigger] forks[k]).0,
                    ) by {
                        if k > 0 {
                            assert(rest[k - 1] == forks[k]);
                        }
                    }
                },
            }
        }
    }
}

/// The status that is found is the first of those that were recorded for the signature under the
/// blockhash whose slot is an ancestor or a root; and none is found where no such slot is. The
/// signature is known by the twenty bytes from the blockhash's offset on.
pub proof fn law_first_visible_status_is_found<T>(
    cache: CacheView<T>,
    sig: Seq<u8>,
    blockhash: Seq<u8>,
    ancestors: Set<Slot>,
)
    ensures
        ({
            let found = cache.status(sig, blockhash, ancestors);
            let entry = cache.cache[blockhash];
            let slice = sig.subrange(entry.sig_index as int, entry.sig_index + 20);
            let forks = entry.signatures[slice];
            let known = cache.cache.contains_key(blockhash) && entry.signatures.contains_key(slice);
            &&& !known ==> found is None
            &&& known && found is None ==> forall|k: int|
                0 <= k < forks.len() ==> !ancestors.contains((#[trigger] forks[k]).0)
                    && !cache.roots.contains(forks[k].0)
            &&& found matches Some(fork) ==> (ancestors.contains(fork.0) || cache.roots.contains(
                fork.0,
            )) && exists|k: int|
                0 <= k < forks.len() && #[trigger] forks[k] == fork && forall|j: int|
                    0 <= j < k ==> !ancestors.contains((#[trigger] forks[j]).0)
                        && !cache.roots.contains(forks[j].0)
        }),
{
    let visible = ancestors.union(cache.roots);
    let entry = cache.cache[blockhash];
    let slice = sig.subrange(entry.sig_index as int, entry.sig_index + 20);
    if cache.cache.contains_key(blockhash) && entry.signatures.contains_key(slice) {
        let forks = entry.signatures[slice];
        lemma_first_visible(forks, visible);
        if let Some(fork) = super::first_visible(forks, visible) {
            let k = choose|k: int|
                0 <= k < forks.len() && #[trigger] forks[k] == fork && visible.contains(fork.0)
                    && forall|j: int| 0 <= j < k ==> !visible.contains((#[trigger] forks[j]).0);
            assert(forks[k] == fork);
            assert forall|j: int| 0 <= j < k implies !ancestors.contains((#[trigger] forks[j]).0)
                && !cache.roots.contains(forks[j].0) by {
                assert(!visible.contains(forks[j].0));
            }
        } else {
            assert forall|k: int| 0 <= k < forks.len() implies !ancestors.contains(
                (#[trigger] forks[k]).0,
            ) && !cache.roots.contains(forks[k].0) by {
                assert(!visible.contains(forks[k].0));
            }
        }
    }
}

/// The forks of a signature slice in an entry, none where it has none.
pub open spec fn forks_in<T>(entry: BlockhashView<T>, slice: Seq<u8>) -> Seq<(Slot, Arc<T>)> {
    if entry.signatures.contains_key(slice) {
        entry.signatures[slice]
    } else {
        Seq::empty()
    }
}

/// What a slot lists under a blockhash, nothing where it lists nothing.
pub open spec fn list_in<T>(
    deltas: Map<Slot, DeltaView<T>>,
    slot: Slot,
    blockhash: Seq<u8>,
) -> Seq<(SignatureSlice, Arc<T>)> {
    if deltas.contains_key(slot) && deltas[slot].contains_key(blockhash) {
        deltas[slot][blockhash].1
    } else {
        Seq::empty()
    }
}

/// Recording a status puts its slot behind the forks of the signature slice under the blockhash,
/// raises the blockhash's slot to it, and lists it for the slot; a new blockhash takes over slot
/// and offset. Nothing else changes.
pub proof fn law_record_adds_one_status<T>(
    before: CacheView<T>,
    blockhash: Seq<u8>,
    slot: Slot,
    sig_index: usize,
    slice: SignatureSlice,
    res: Arc<T>,
)
    ensures
        ({
            let after = before.record_slice(blockhash, slot, sig_index, slice, res);
            let is_new = !before.cache.contains_key(blockhash);
            let entry = before.cache[blockhash];
            let grown = after.cache[blockhash];
            &&& after.max_cache_entries == before.max_cache_entries
            &&& after.roots == before.roots
            &&& after.cache.dom() == before.cache.dom().insert(blockhash)
            &&& forall|other: Seq<u8>|
                other != blockhash && #[trigger] before.cache.contains_key(other)
                    ==> after.cache[other] == before.cache[other]
            &&& grown.sig_index == if is_new {
                sig_index
            } else {
                entry.sig_index
            }
            &&& grown.slot == if is_new || entry.slot < slot {
                slot
            } else {
                entry.slot
            }
            &&& forks_in(grown, slice@) == (if is_new {
                Seq::empty()
            } else {
                forks_in(entry, slice@)
            }).push((slot, res))
            &&& forall|other: Seq<u8>|
                other != slice@ ==> (#[trigger] grown.signatures.contains_key(other) <==> !is_new
                    && entry.signatures.contains_key(other))
            &&& forall|other: Seq<u8>|
                other != slice@ && #[trigger] grown.signatures.contains_key(other)
                    ==> grown.signatures[other] == entry.signatures[other]
            &&& after.slot_deltas.dom() == before.slot_deltas.dom().insert(slot)
            &&& forall|other: Slot|
                other != slot && #[trigger] before.slot_deltas.contains_key(other)
                    ==> after.slot_deltas[other] == before.slot_deltas[other]
            &&& list_in(after.slot_deltas, slot, blockhash) == list_in(
                before.slot_deltas,
                slot,
                blockhash,
            ).push((slice, res))
            &&& after.slot_deltas[slot][blockhash].0 == if before.slot_deltas.contains_key(slot)
                && before.slot_deltas[slot].contains_key(blockhash) {
                before.slot_deltas[slot][blockhash].0
            } else {
                sig_index
            }
            &&& forall|other: Seq<u8>|
                other != blockhash ==> (#[trigger] after.slot_deltas[slot].contains_key(other)
                    <==> before.slot_deltas.contains_key(slot)
                    && before.slot_deltas[slot].contains_key(other))
            &&& forall|other: Seq<u8>|
                other != blockhash && #[trigger] after.slot_deltas[slot].contains_key(other)
                    ==> after.slot_deltas[slot][other] == before.slot_deltas[slot][other]
        }),
{
    let after = before.record_slice(blockhash, slot, sig_index, slice, res);
    assert(after.cache.dom() =~= before.cache.dom().insert(blockhash));
    assert(after.slot_deltas.dom() =~= before.slot_deltas.dom().insert(slot));
}

/// Where there are more roots than the cache may hold, the oldest of them is dropped. With it go
/// exactly the blockhashes that were not observed on a later slot, and the deltas of the slots
/// that are not later; what stays, stays as it is. Otherwise nothing changes.
pub proof fn law_too_many_roots_drop_the_oldest<T>(cache: CacheView<T>)
    requires
        cache.roots.finite(),
    ensures
        cache.purge_roots().max_cache_entries == cache.max_cache_entries,
        cache.roots.len() <= cache.max_cache_entries ==> cache.purge_roots() == cache,
        cache.roots.len() > cache.max_cache_entries ==> exists|oldest: Slot| #[trigger]
            drops_root(cache, oldest, cache.purge_roots()),
{
    if cache.roots.len() > cache.max_cache_entries {
        super::lemma_oldest_exists(cache.roots);
        assert(drops_root(cache, super::oldest_root(cache.roots), cache.purge_roots()));
    }
}

/// `after` is the cache without a root that is older than all the others, and without what was
/// last observed on it or before.
pub open spec fn drops_root<T>(cache: CacheView<T>, oldest: Slot, after: CacheView<T>) -> bool {
    &&& cache.roots.contains(oldest)
    &&& forall|root: Slot| #[trigger] cache.roots.contains(root) ==> oldest <= root
    &&& after.roots == cache.roots.remove(oldest)
    &&& forall|blockhash: Seq<u8>| #[trigger]
        after.cache.contains_key(blockhash) <==> cache.cache.contains_key(blockhash)
            && cache.cache[blockhash].slot > oldest
    &&& forall|blockhash: Seq<u8>| #[trigger]
        after.cache.contains_key(blockhash) ==> after.cache[blockhash] == cache.cache[blockhash]
    &&& forall|slot: Slot| #[trigger]
        after.slot_deltas.contains_key(slot) <==> cache.slot_deltas.contains_key(slot) && slot
            > oldest
    &&& forall|slot: Slot| #[trigger]
        after.slot_deltas.contains_key(slot) ==> after.slot_deltas[slot] == cache.slot_deltas[slot]
}

/// A root that is added is one from then on, and the others stay; where there would be too many,
/// the oldest of them all is dropped.
pub proof fn law_added_root_is_a_root<T>(cache: CacheView<T>, fork: Slot)
    requires
        cache.roots.finite(),
    ensures
        ({
            let after = cache.add_root(fork);
            let roots = cache.roots.insert(fork);
            &&& after.max_cache_entries == cache.max_cache_entries
            &&& roots.len() <= cache.max_cache_entries ==> after.roots == roots && after.cache
                == cache.cache && after.slot_deltas == cache.slot_deltas
            &&& roots.len() > cache.max_cache_entries ==> exists|oldest: Slot| #[trigger]
                drops_root(CacheView { roots, ..cache }, oldest, after)
        }),
{
    let roots = cache.roots.insert(fork);
    let with_root = CacheView { roots, ..cache };
    let after = with_root.purge_roots();
    assert(cache.add_root(fork) == after);
    law_too_many_roots_drop_the_oldest(with_root);
    if roots.len() > cache.max_cache_entries {
        let oldest = choose|oldest: Slot| #[trigger] drops_root(with_root, oldest, after);
        assert(drops_root(CacheView { roots, ..cache }, oldest, after));
    }
}

/// A slot lists a signature slice under a blockhash.
pub open spec fn is_listed<T>(
    cache: CacheView<T>,
    slot: Slot,
    blockhash: Seq<u8>,
    slice: Seq<u8>,
) -> bool {
    exists|i: int|
        0 <= i < list_in(cache.slot_deltas, slot, blockhash).len() && (#[trigger] list_in(
            cache.slot_deltas,
            slot,
            blockhash,
        )[i]).0@ == slice
}

/// A signature slice keeps something when a slot is cleared: the slot does not list it, or it has
/// a fork on another slot.
pub open spec fn outlives<T>(
    cache: CacheView<T>,
    slot: Slot,
    blockhash: Seq<u8>,
    slice: Seq<u8>,
) -> bool {
    &&& cache.cache[blockhash].signatures.contains_key(slice)
    &&& is_listed(cache, slot, blockhash, slice) ==> exists|k: int|
        0 <= k < cache.cache[blockhash].signatures[slice].len() && (
        #[trigger] cache.cache[blockhash].signatures[slice][k]).0 != slot
}

/// Clearing a slot takes away exactly what the slot lists: from each signature slice that it
/// lists, the forks on the slot, and the slice itself where no other fork is left; and each
/// blockhash under which it lists anything and nothing is left. All the rest stays as it is, the
/// roots and the deltas of other slots among it.
pub proof fn law_cleared_slot_leaves_the_rest<T>(before: CacheView<T>, slot: Slot)
    ensures
        ({
            let after = before.clear_slot_signatures(slot);
            &&& after.max_cache_entries == before.max_cache_entries
            &&& after.roots == before.roots
            &&& after.slot_deltas == before.slot_deltas.remove(slot)
            &&& forall|blockhash: Seq<u8>| #[trigger]
                after.cache.contains_key(blockhash) <==> before.cache.contains_key(blockhash) && (
                (before.slot_deltas.contains_key(slot) && before.slot_deltas[slot].contains_key(
                    blockhash,
                )) ==> exists|slice: Seq<u8>| #[trigger] outlives(before, slot, blockhash, slice))
            &&& forall|blockhash: Seq<u8>| #[trigger]
                after.cache.contains_key(blockhash) ==> after.cache[blockhash].slot
                    == before.cache[blockhash].slot && after.cache[blockhash].sig_index
                    == before.cache[blockhash].sig_index
            &&& forall|blockhash: Seq<u8>, slice: Seq<u8>|
                after.cache.contains_key(blockhash) ==> (
                #[trigger] after.cache[blockhash].signatures.contains_key(slice) <==> outlives(
                    before,
                    slot,
                    blockhash,
                    slice,
                ))
            &&& forall|blockhash: Seq<u8>, slice: Seq<u8>|
                after.cache.contains_key(blockhash)
                    && #[trigger] after.cache[blockhash].signatures.contains_key(slice)
                    ==> after.cache[blockhash].signatures[slice] == if is_listed(
                    before,
                    slot,
                    blockhash,
                    slice,
                ) {
                    before.cache[blockhash].signatures[slice].filter(
                        |fork: (Slot, Arc<T>)| fork.0 != slot,
                    )
                } else {
                    before.cache[blockhash].signatures[slice]
                }
        }),
{
    let after = before.clear_slot_signatures(slot);
    assert forall|blockhash: Seq<u8>, slice: Seq<u8>|
        before.cache.contains_key(blockhash) implies #[trigger] before.cleared_entry(
        slot,
        blockhash,
    ).signatures.contains_key(slice) == outlives(before, slot, blockhash, slice) by {
        lemma_cleared(before, slot, blockhash, slice);
    }
    assert forall|blockhash: Seq<u8>, slice: Seq<u8>|
        after.cache.contains_key(blockhash)
            && #[trigger] after.cache[blockhash].signatures.contains_key(
            slice,
        ) implies after.cache[blockhash].signatures[slice] == if is_listed(
        before,
        slot,
        blockhash,
        slice,
    ) {
        before.cache[blockhash].signatures[slice].filter(|fork: (Slot, Arc<T>)| fork.0 != slot)
    } else {
        before.cache[blockhash].signatures[slice]
    } by {
        lemma_cleared(before, slot, blockhash, slice);
    }
    assert forall|blockhash: Seq<u8>| #[trigger]
        after.cache.contains_key(blockhash) <==> before.cache.contains_key(blockhash) && ((
        before.slot_deltas.contains_key(slot) && before.slot_deltas[slot].contains_key(blockhash))
            ==> exists|slice: Seq<u8>| #[trigger] outlives(before, slot, blockhash, slice)) by {
        let cleared = before.cleared_entry(slot, blockhash);
        if before.cache.contains_key(blockhash) {
            if cleared.signatures != Map::<Seq<u8>, Seq<(Slot, Arc<T>)>>::empty() {
                assert(exists|slice: Seq<u8>| #[trigger] cleared.signatures.contains_key(slice)) by {
                    if forall|slice: Seq<u8>| !#[trigger] cleared.signatures.contains_key(slice) {
                        assert(cleared.signatures =~= Map::empty());
                    }
                }
                let slice = choose|slice: Seq<u8>| #[trigger]
                    cleared.signatures.contains_key(slice);
                assert(outlives(before, slot, blockhash, slice));
            }
            if exists|slice: Seq<u8>| #[trigger] outlives(before, slot, blockhash, slice) {
                let slice = choose|slice: Seq<u8>| #[trigger]
                    outlives(before, slot, blockhash, slice);
                assert(cleared.signatures.contains_key(slice));
            }
        }
    }
}

proof fn lemma_other_forks<T>(forks: Seq<(Slot, Arc<T>)>, slot: Slot)
    ensures
        super::other_forks(forks, slot) == forks.filter(|fork: (Slot, Arc<T>)| fork.0 != slot),
    decreases forks.len(),
{
    reveal(Seq::filter);
    if forks.len() > 0 {
        lemma_other_forks(forks.drop_last(), slot);
    }
}

proof fn lemma_cleared<T>(before: CacheView<T>, slot: Slot, blockhash: Seq<u8>, slice: Seq<u8>)
    requires
        before.cache.contains_key(blockhash),
    ensures
        ({
            let cleared = before.cleared_entry(slot, blockhash);
            let forks = before.cache[blockhash].signatures[slice];
            &&& cleared.slot == before.cache[blockhash].slot
            &&& cleared.sig_index == before.cache[blockhash].sig_index
            &&& cleared.signatures.contains_key(slice) <==> outlives(
                before,
                slot,
                blockhash,
                slice,
            )
            &&& cleared.signatures.contains_key(slice) ==> cleared.signatures[slice] == if is_listed(
                before,
                slot,
                blockhash,
                slice,
            ) {
                forks.filter(|fork: (Slot, Arc<T>)| fork.0 != slot)
            } else {
                forks
            }
        }),
{
    let list = list_in(before.slot_deltas, slot, blockhash);
    let forks = before.cache[blockhash].signatures[slice];
    let other = |fork: (Slot, Arc<T>)| fork.0 != slot;
    assert(is_listed(before, slot, blockhash, slice) <==> super::lists_slice(list, slice)) by {
        if super::lists_slice(list, slice) {
            let i = choose|i: int| 0 <= i < list.len() && (#[trigger] list[i]).0@ == slice;
            assert(list_in(before.slot_deltas, slot, blockhash)[i].0@ == slice);
        }
    }
    lemma_other_forks(forks, slot);
    if exists|k: int| 0 <= k < forks.len() && (#[trigger] forks[k]).0 != slot {
        let k = choose|k: int| 0 <= k < forks.len() && (#[trigger] forks[k]).0 != slot;
        super::lemma_other_forks_nonempty(forks, slot, k);
    }
    if forks.filter(other).len() > 0 {
        forks.lemma_filter_pred(other, 0);
        let kept = forks.filter(other)[0];
        assert(forks.filter(other).contains(kept));
        forks.lemma_filter_contains_rev(other, kept);
        let k = choose|k: int| 0 <= k < forks.len() && forks[k] == kept;
        assert(forks[k].0 != slot);
    }
}

/// Clearing all signatures leaves the blockhashes, with their slots and offsets, and the slots
/// that added statuses, but not one status.
pub proof fn law_clear_leaves_no_status<T>(before: CacheView<T>)
    ensures
        ({
            let after = before.clear_signatures();
            &&& after.max_cache_entries == before.max_cache_entries
            &&& after.roots == before.roots
            &&& after.cache.dom() == before.cache.dom()
            &&& after.slot_deltas.dom() == before.slot_deltas.dom()
            &&& forall|blockhash: Seq<u8>| #[trigger]
                after.cache.contains_key(blockhash) ==> after.cache[blockhash].slot
                    == before.cache[blockhash].slot && after.cache[blockhash].sig_index
                    == before.cache[blockhash].sig_index
            &&& forall|blockhash: Seq<u8>, slice: Seq<u8>|
                after.cache.contains_key(blockhash)
                    ==> !#[trigger] after.cache[blockhash].signatures.contains_key(slice)
            &&& forall|slot: Slot, blockhash: Seq<u8>|
                after.slot_deltas.contains_key(slot)
                    ==> !#[trigger] after.slot_deltas[slot].contains_key(blockhash)
            &&& forall|sig: Seq<u8>, blockhash: Seq<u8>, ancestors: Set<Slot>|
                #[trigger] after.status(sig, blockhash, ancestors) is None
        }),
{
    let after = before.clear_signatures();
    assert(after.cache.dom() =~= before.cache.dom());
    assert(after.slot_deltas.dom() =~= before.slot_deltas.dom());
    assert forall|sig: Seq<u8>, blockhash: Seq<u8>, ancestors: Set<Slot>|
        #[trigger] after.status(sig, blockhash, ancestors) is None by {
        law_first_visible_status_is_found(after, sig, blockhash, ancestors);
    }
}

/// A new cache has slot 0 as its only root, and nothing else.
pub proof fn law_new_cache_has_one_root<T>(max_cache_entries: usize, slot: Slot)
    ensures
        CacheView::<T>::empty(max_cache_entries).max_cache_entries == max_cache_entries,
        CacheView::<T>::empty(max_cache_entries).roots.contains(slot) <==> slot == 0,
        CacheView::<T>::empty(max_cache_entries).roots.finite(),
        CacheView::<T>::empty(max_cache_entries).roots.len() == 1,
        !CacheView::<T>::empty(max_cache_entries).slot_deltas.contains_key(slot),
        forall|blockhash: Seq<u8>|
            !#[trigger] CacheView::<T>::empty(max_cache_entries).cache.contains_key(blockhash),
{
}

proof fn lemma_entry_replayed<T>(
    entry: BlockhashView<T>,
    statuses: Seq<(SignatureSlice, Arc<T>)>,
    slot: Slot,
    slice: Seq<u8>,
)
    ensures
        ({
            let after = entry.replay(statuses, slot);
            let added = statuses.filter(
                |status: (SignatureSlice, Arc<T>)| status.0@ == slice,
            ).map_values(|status: (SignatureSlice, Arc<T>)| (slot, status.1));
            &&& after.sig_index == entry.sig_index
            &&& after.slot == if statuses.len() > 0 && entry.slot < slot {
                slot
            } else {
                entry.slot
            }
            &&& forks_in(after, slice) == forks_in(entry, slice) + added
            &&& after.signatures.contains_key(slice) <==> entry.signatures.contains_key(slice)
                || added.len() > 0
        }),
    decreases statuses.len(),
{
    reveal(Seq::filter);
    let own = |status: (SignatureSlice, Arc<T>)| status.0@ == slice;
    let fork = |status: (SignatureSlice, Arc<T>)| (slot, status.1);
    let added = statuses.filter(own).map_values(fork);
    if statuses.len() > 0 {
        let shorter = statuses.drop_last();
        lemma_entry_replayed(entry, shorter, slot, slice);
        let before = shorter.filter(own).map_values(fork);
        if own(statuses.last()) {
            assert(added =~= before.push((slot, statuses.last().1)));
            assert(forks_in(entry, slice) + added =~= (forks_in(entry, slice) + before).push(
                (slot, statuses.last().1),
            ));
        } else {
            assert(added =~= before);
        }
    } else {
        assert(added =~= Seq::empty());
        assert(forks_in(entry, slice) + added =~= forks_in(entry, slice));
    }
}

/// Replaying a delta on a slot adds, under each blockhash, all the statuses that it lists, in
/// their order and behind those that are there, and lists them for the slot. A blockhash under
/// which it lists none is left alone.
pub proof fn law_replay_adds_all_statuses<T>(
    before: CacheView<T>,
    slot: Slot,
    delta: DeltaView<T>,
    blockhash: Seq<u8>,
    slice: Seq<u8>,
)
    ensures
        ({
            let after = before.replay(slot, delta);
            let adds = delta.contains_key(blockhash) && delta[blockhash].1.len() > 0;
            let statuses = delta[blockhash].1;
            let is_new = !before.cache.contains_key(blockhash);
            let entry = before.cache[blockhash];
            let grown = after.cache[blockhash];
            &&& after.max_cache_entries == before.max_cache_entries
            &&& after.roots == before.roots
            &&& after.cache.contains_key(blockhash) <==> !is_new || adds
            &&& !adds && !is_new ==> grown == entry
            &&& adds ==> {
                &&& grown.sig_index == if is_new {
                    delta[blockhash].0
                } else {
                    entry.sig_index
                }
                &&& grown.slot == if is_new || entry.slot < slot {
                    slot
                } else {
                    entry.slot
                }
                &&& forks_in(grown, slice) == (if is_new {
                    Seq::empty()
                } else {
                    forks_in(entry, slice)
                }) + statuses.filter(
                    |status: (SignatureSlice, Arc<T>)| status.0@ == slice,
                ).map_values(|status: (SignatureSlice, Arc<T>)| (slot, status.1))
            }
            &&& list_in(after.slot_deltas, slot, blockhash) == list_in(
                before.slot_deltas,
                slot,
                blockhash,
            ) + if adds {
                statuses
            } else {
                Seq::empty()
            }
            &&& forall|other: Slot|
                other != slot ==> (#[trigger] after.slot_deltas.contains_key(other)
                    <==> before.slot_deltas.contains_key(other))
            &&& forall|other: Slot|
                other != slot && #[trigger] after.slot_deltas.contains_key(other)
                    ==> after.slot_deltas[other] == before.slot_deltas[other]
        }),
{
    let after = before.replay(slot, delta);
    let adds = delta.contains_key(blockhash) && delta[blockhash].1.len() > 0;
    let statuses = delta[blockhash].1;
    assert(super::adds_statuses(delta, blockhash) == adds);
    let entry = before.entry(blockhash, slot, delta[blockhash].0);
    lemma_entry_replayed(entry, statuses, slot, slice);
    let list = list_in(before.slot_deltas, slot, blockhash);
    assert(list + Seq::empty() =~= list);
    if list.len() == 0 {
        assert(list + statuses =~= statuses);
    }
    assert(list_in(after.slot_deltas, slot, blockhash) =~= list + if adds {
        statuses
    } else {
        Seq::empty()
    });
}

/// Deltas are appended one after the other: each is replayed on its slot, which then becomes a
/// root where it is told to be one; and what is appended in two parts is appended as a whole.
pub proof fn law_deltas_are_appended_in_turn<T>(
    before: CacheView<T>,
    slot_deltas: Seq<SlotDelta<T>>,
    more: Seq<SlotDelta<T>>,
    last: SlotDelta<T>,
)
    ensures
        before.append(Seq::empty()) == before,
        before.append(seq![last]) == if last.1 {
            before.replay(last.0, super::delta_of(last.2)).add_root(last.0)
        } else {
            before.replay(last.0, super::delta_of(last.2))
        },
        before.append(slot_deltas + more) == before.append(slot_deltas).append(more),
    decreases more.len(),
{
    assert(seq![last].drop_last() =~= Seq::empty());
    assert(seq![last].last() == last);
    assert(before.append(Seq::empty()) == before);
    if more.len() == 0 {
        assert(slot_deltas + more =~= slot_deltas);
    } else {
        law_deltas_are_appended_in_turn(before, slot_deltas, more.drop_last(), last);
        assert((slot_deltas + more).drop_last() =~= slot_deltas + more.drop_last());
        assert((slot_deltas + more).last() == more.last());
    }
}

/// Two caches are equal exactly where they have the same roots, and each blockhash of the first
/// is in the second with the same slot and offset, and each of its signature slices with an equal
/// status on the same slot as the latest one.
pub proof fn law_equal_caches_agree<T: PartialEq>(cache: StatusCache<T>, other: StatusCache<T>)
    ensures
        cache.eq_spec(&other) <==> {
            &&& cache@.roots == other@.roots
            &&& forall|blockhash: Seq<u8>| #[trigger]
                cache@.cache.contains_key(blockhash) ==> agrees(cache@, other@, blockhash)
        },
{
    assert forall|blockhash: Seq<u8>|
        cache@.cache.contains_key(blockhash) && other@.cache.contains_key(
            blockhash,
        ) implies super::blockhash_matches(cache@.cache[blockhash], other@.cache[blockhash])
        == #[trigger] agrees(cache@, other@, blockhash) by {
        let entry = cache@.cache[blockhash];
        let own = other@.cache[blockhash];
        if super::blockhash_matches(entry, own) {
            assert forall|slice: Seq<u8>| #[trigger]
                entry.signatures.contains_key(slice) implies agrees_on(
                entry,
                own,
                slice,
            ) by {}
        }
        if agrees(cache@, other@, blockhash) {
            assert forall|slice: Seq<u8>| #[trigger]
                entry.signatures.contains_key(slice) implies own.signatures.contains_key(slice)
                && super::same_highest_fork(
                entry.signatures[slice],
                own.signatures[slice],
            ) by {
                assert(agrees_on(entry, own, slice));
            }
        }
    }
}

/// What is known of a signature slice in one entry, as far as its latest fork goes, is known in
/// the other.
pub open spec fn agrees_on<T: PartialEq>(
    entry: BlockhashView<T>,
    other: BlockhashView<T>,
    slice: Seq<u8>,
) -> bool {
    let forks = entry.signatures[slice];
    let own = other.signatures[slice];
    &&& other.signatures.contains_key(slice)
    &&& forks.len() == 0 <==> own.len() == 0
    &&& forks.len() > 0 ==> {
        &&& forks[forks.len() - 1].0 == own[own.len() - 1].0
        &&& (*forks[forks.len() - 1].1).eq_spec(&*own[own.len() - 1].1)
    }
}

/// What is known under a blockhash in one cache is known in the other.
pub open spec fn agrees<T: PartialEq>(
    cache: CacheView<T>,
    other: CacheView<T>,
    blockhash: Seq<u8>,
) -> bool {
    &&& other.cache.contains_key(blockhash)
    &&& cache.cache[blockhash].slot == other.cache[blockhash].slot
    &&& cache.cache[blockhash].sig_index == other.cache[blockhash].sig_index
    &&& forall|slice: Seq<u8>| #[trigger]
        cache.cache[blockhash].signatures.contains_key(slice) ==> agrees_on(
            cache.cache[blockhash],
            other.cache[blockhash],
            slice,
        )
}

} // verus!
