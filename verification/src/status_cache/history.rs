//! What holds of a cache after any number of changes.

use std::sync::Arc;

use vstd::prelude::*;
use vstd::std_specs::cmp::PartialEqSpec;

use super::BlockhashView;
use super::CacheView;
use super::DeltaView;
use super::SignatureSlice;
use super::SlotDelta;
use super::StatusCache;
use super::CACHED_SIGNATURE_SIZE;
use crate::clock::Slot;

verus! {

/// One change of a cache.
pub enum CacheOp<T> {
    /// a status for the cached part of a signature is inserted; the offset is that of a new
    /// blockhash
    Record {
        blockhash: Seq<u8>,
        slot: Slot,
        sig_index: usize,
        slice: SignatureSlice,
        res: Arc<T>,
    },
    /// a root is added
    AddRoot { root: Slot },
}

impl<T> CacheOp<T> {
    /// A blockhash has its length, and an offset leaves room for the cached part of a
    /// signature.
    pub open spec fn wf(self) -> bool {
        self matches CacheOp::Record { blockhash, sig_index, .. } ==> blockhash.len() == 32
            && super::offset_fits(sig_index)
    }

    /// Whether a status is inserted on `slot`.
    pub open spec fn records_on(self, slot: Slot) -> bool {
        self matches CacheOp::Record { slot: own, .. } && own == slot
    }
}

/// Every change is one that can be made.
pub open spec fn ops_wf<T>(ops: Seq<CacheOp<T>>) -> bool {
    forall|i: int| 0 <= i < ops.len() ==> (#[trigger] ops[i]).wf()
}

/// The statuses that were inserted on a slot under a blockhash, in their order.
pub open spec fn recorded<T>(ops: Seq<CacheOp<T>>, slot: Slot, blockhash: Seq<u8>) -> Seq<
    (SignatureSlice, Arc<T>),
>
    decreases ops.len(),
{
    if ops.len() == 0 {
        Seq::empty()
    } else {
        let earlier = recorded(ops.drop_last(), slot, blockhash);
        match ops.last() {
            CacheOp::Record { blockhash: own, slot: own_slot, slice, res, .. } => if own
                == blockhash && own_slot == slot {
                earlier.push((slice, res))
            } else {
                earlier
            },
            CacheOp::AddRoot { .. } => earlier,
        }
    }
}

/// The same cached part of a signature is inserted at most once on `slot` under a blockhash.
pub open spec fn recorded_once<T>(ops: Seq<CacheOp<T>>, slot: Slot) -> bool {
    forall|blockhash: Seq<u8>, i: int, j: int|
        0 <= i < j < recorded(ops, slot, blockhash).len() ==> (#[trigger] recorded(
            ops,
            slot,
            blockhash,
        )[i]).0@ != (#[trigger] recorded(ops, slot, blockhash)[j]).0@
}

/// Statuses are inserted on slots that never go back.
pub open spec fn slots_ascend<T>(ops: Seq<CacheOp<T>>) -> bool {
    forall|i: int, j: int|
        0 <= i < j < ops.len() && (#[trigger] ops[i]) is Record && (#[trigger] ops[j]) is Record
            ==> ops[i]->slot <= ops[j]->slot
}

impl<T> CacheView<T> {
    /// The cache after one change.
    pub open spec fn apply(self, op: CacheOp<T>) -> CacheView<T> {
        match op {
            CacheOp::Record { blockhash, slot, sig_index, slice, res } => self.record_slice(
                blockhash,
                slot,
                self.entry(blockhash, slot, sig_index).sig_index,
                slice,
                res,
            ),
            CacheOp::AddRoot { root } => self.add_root(root),
        }
    }

    /// The cache after changes.
    pub open spec fn run(self, ops: Seq<CacheOp<T>>) -> CacheView<T>
        decreases ops.len(),
    {
        if ops.len() == 0 {
            self
        } else {
            self.run(ops.drop_last()).apply(ops.last())
        }
    }

    /// The lowest slot above all roots that changes made the cache drop.
    pub open spec fn floor(self, ops: Seq<CacheOp<T>>) -> nat
        decreases ops.len(),
    {
        if ops.len() == 0 {
            0
        } else {
            let before = self.run(ops.drop_last());
            let floor = self.floor(ops.drop_last());
            match ops.last() {
                CacheOp::AddRoot { root } if before.roots.insert(root).len()
                    > before.max_cache_entries && floor <= super::oldest_root(
                    before.roots.insert(root),
                ) => (super::oldest_root(before.roots.insert(root)) + 1) as nat,
                _ => floor,
            }
        }
    }

    /// The forks that a signature slice was recorded on under a blockhash.
    pub open spec fn forks(self, blockhash: Seq<u8>, slice: Seq<u8>) -> Seq<(Slot, Arc<T>)> {
        if self.cache.contains_key(blockhash) {
            self.cache[blockhash].forks(slice)
        } else {
            Seq::empty()
        }
    }

    /// Whether a slot's delta lists a signature slice under a blockhash.
    pub open spec fn lists(self, slot: Slot, blockhash: Seq<u8>, slice: Seq<u8>) -> bool {
        self.delta(slot).contains_key(blockhash) && super::lists_slice(
            self.delta(slot)[blockhash].1,
            slice,
        )
    }

    /// Each fork in the cache on `floor` or a later slot is listed in its slot's delta.
    pub open spec fn forks_listed(self, floor: nat) -> bool {
        forall|slot: Slot, blockhash: Seq<u8>, slice: Seq<u8>|
            floor <= slot && #[trigger] super::has_fork(self.forks(blockhash, slice), slot)
                ==> self.lists(slot, blockhash, slice)
    }

    /// No blockhash is without a status, and no signature slice without a fork.
    pub open spec fn no_leftovers(self) -> bool {
        forall|blockhash: Seq<u8>| #[trigger]
            self.cache.contains_key(blockhash) ==> has_statuses(self.cache[blockhash])
    }
}

/// There is a status under the blockhash, and no signature slice without a fork.
pub open spec fn has_statuses<T>(entry: BlockhashView<T>) -> bool {
    &&& exists|slice: Seq<u8>| #[trigger] entry.signatures.contains_key(slice)
    &&& forall|slice: Seq<u8>| #[trigger]
        entry.signatures.contains_key(slice) ==> entry.signatures[slice].len() > 0
}

/// Inserting a status is one change.
pub proof fn law_insert_is_one_change<T>(
    before: CacheView<T>,
    blockhash: Seq<u8>,
    sig: Seq<u8>,
    slot: Slot,
    sig_index: usize,
    res: T,
    after: CacheView<T>,
)
    requires
        before.records(blockhash, sig, slot, sig_index, res, after),
    ensures
        exists|op: CacheOp<T>|
            after == #[trigger] before.apply(op) && (op matches CacheOp::Record {
                blockhash: own,
                slot: own_slot,
                sig_index: own_index,
                slice,
                res: shared,
            } && own == blockhash && own_slot == slot && own_index == sig_index && slice@
                == sig.subrange(
                before.entry(blockhash, slot, sig_index).sig_index as int,
                before.entry(blockhash, slot, sig_index).sig_index + CACHED_SIGNATURE_SIZE,
            ) && *shared == res),
{
    let index = before.entry(blockhash, slot, sig_index).sig_index;
    let (slice, shared) = choose|slice: SignatureSlice, shared: Arc<T>|
        slice@ == sig.subrange(index as int, index + CACHED_SIGNATURE_SIZE) && *shared == res
            && after == #[trigger] before.record_slice(blockhash, slot, index, slice, shared);
    let op = CacheOp::Record { blockhash, slot, sig_index, slice, res: shared };
    assert(after == before.apply(op));
}

proof fn lemma_push_has_fork<T>(forks: Seq<(Slot, Arc<T>)>, fork: (Slot, Arc<T>), slot: Slot)
    ensures
        super::has_fork(forks.push(fork), slot) <==> super::has_fork(forks, slot) || fork.0
            == slot,
{
    let pushed = forks.push(fork);
    if super::has_fork(forks, slot) {
        let k = choose|k: int| 0 <= k < forks.len() && (#[trigger] forks[k]).0 == slot;
        assert(pushed[k].0 == slot);
    }
    if fork.0 == slot {
        assert(pushed[forks.len() as int].0 == slot);
    }
    if super::has_fork(pushed, slot) && fork.0 != slot {
        let k = choose|k: int| 0 <= k < pushed.len() && (#[trigger] pushed[k]).0 == slot;
        assert(forks[k].0 == slot);
    }
}

proof fn lemma_push_lists<T>(
    statuses: Seq<(SignatureSlice, Arc<T>)>,
    status: (SignatureSlice, Arc<T>),
    slice: Seq<u8>,
)
    ensures
        super::lists_slice(statuses.push(status), slice) <==> super::lists_slice(statuses, slice)
            || status.0@ == slice,
{
    let pushed = statuses.push(status);
    if super::lists_slice(statuses, slice) {
        let k = choose|k: int| 0 <= k < statuses.len() && (#[trigger] statuses[k]).0@ == slice;
        assert(pushed[k].0@ == slice);
    }
    if status.0@ == slice {
        assert(pushed[statuses.len() as int].0@ == slice);
    }
    if super::lists_slice(pushed, slice) && status.0@ != slice {
        let k = choose|k: int| 0 <= k < pushed.len() && (#[trigger] pushed[k]).0@ == slice;
        assert(statuses[k].0@ == slice);
    }
}

/// Inserting a status keeps every fork listed.
pub proof fn law_record_keeps_forks_listed<T>(
    before: CacheView<T>,
    blockhash: Seq<u8>,
    slot: Slot,
    sig_index: usize,
    slice: SignatureSlice,
    res: Arc<T>,
    floor: nat,
)
    requires
        before.forks_listed(floor),
    ensures
        before.record_slice(blockhash, slot, sig_index, slice, res).forks_listed(floor),
{
    let after = before.record_slice(blockhash, slot, sig_index, slice, res);
    assert forall|s: Slot, b: Seq<u8>, c: Seq<u8>|
        floor <= s && #[trigger] super::has_fork(after.forks(b, c), s) implies after.lists(
        s,
        b,
        c,
    ) by {
        lemma_push_has_fork(before.forks(b, c), (slot, res), s);
        if super::has_fork(before.forks(b, c), s) {
            assert(before.lists(s, b, c));
        }
        if s == slot && b == blockhash {
            let statuses = if before.delta(slot).contains_key(b) {
                before.delta(slot)[b].1
            } else {
                Seq::empty()
            };
            assert(after.delta(slot)[b].1 == statuses.push((slice, res)));
            lemma_push_lists(statuses, (slice, res), c);
        }
    }
}

/// Adding a root keeps every fork above the roots that were dropped listed.
pub proof fn law_add_root_keeps_forks_listed<T>(before: CacheView<T>, root: Slot, floor: nat)
    requires
        before.forks_listed(floor),
    ensures
        ({
            let roots = before.roots.insert(root);
            let purged = roots.len() > before.max_cache_entries && floor <= super::oldest_root(
                roots,
            );
            before.add_root(root).forks_listed(
                if purged {
                    (super::oldest_root(roots) + 1) as nat
                } else {
                    floor
                },
            )
        }),
{
    let after = before.add_root(root);
    let oldest = super::oldest_root(before.roots.insert(root));
    assert forall|s: Slot, b: Seq<u8>, c: Seq<u8>|
        floor <= s && #[trigger] super::has_fork(after.forks(b, c), s) && (
        before.roots.insert(root).len() > before.max_cache_entries ==> s > oldest)
            implies after.lists(s, b, c) by {
        assert(super::has_fork(before.forks(b, c), s));
        assert(before.lists(s, b, c));
    }
}

/// Clearing the statuses of a slot keeps every fork listed.
pub proof fn law_clear_slot_keeps_forks_listed<T>(before: CacheView<T>, slot: Slot, floor: nat)
    requires
        before.forks_listed(floor),
    ensures
        before.clear_slot_signatures(slot).forks_listed(floor),
{
    let after = before.clear_slot_signatures(slot);
    assert forall|s: Slot, b: Seq<u8>, c: Seq<u8>|
        floor <= s && #[trigger] super::has_fork(after.forks(b, c), s) implies after.lists(
        s,
        b,
        c,
    ) by {
        let forks = before.forks(b, c);
        lemma_kept_fork(forks, slot, s);
        super::lemma_other_forks_differ(forks, slot);
        assert(super::has_fork(forks, s));
        assert(before.lists(s, b, c));
    }
}

/// Forgetting all statuses leaves no fork that is not listed.
pub proof fn law_clear_signatures_keeps_forks_listed<T>(before: CacheView<T>, floor: nat)
    ensures
        before.clear_signatures().forks_listed(floor),
{
}

proof fn lemma_replay_adds_forks<T>(
    before: BlockhashView<T>,
    statuses: Seq<(SignatureSlice, Arc<T>)>,
    slot: Slot,
    slice: Seq<u8>,
    other: Slot,
)
    ensures
        super::has_fork(before.replay(statuses, slot).forks(slice), other) <==> super::has_fork(
            before.forks(slice),
            other,
        ) || other == slot && super::lists_slice(statuses, slice),
    decreases statuses.len(),
{
    if statuses.len() > 0 {
        let earlier = statuses.drop_last();
        let last = statuses.last();
        lemma_replay_adds_forks(before, earlier, slot, slice, other);
        assert(earlier.push(last) =~= statuses);
        lemma_push_lists(earlier, last, slice);
        lemma_push_has_fork(before.replay(earlier, slot).forks(slice), (slot, last.1), other);
    }
}

/// Replaying a delta keeps every fork listed.
pub proof fn law_replay_keeps_forks_listed<T>(
    before: CacheView<T>,
    slot: Slot,
    delta: DeltaView<T>,
    floor: nat,
)
    requires
        before.forks_listed(floor),
    ensures
        before.replay(slot, delta).forks_listed(floor),
{
    let after = before.replay(slot, delta);
    assert forall|s: Slot, b: Seq<u8>, c: Seq<u8>|
        floor <= s && #[trigger] super::has_fork(after.forks(b, c), s) implies after.lists(
        s,
        b,
        c,
    ) by {
        if super::has_fork(before.forks(b, c), s) {
            assert(before.lists(s, b, c));
        }
        if super::adds_statuses(delta, b) {
            let entry = before.entry(b, slot, delta[b].0);
            let statuses = delta[b].1;
            lemma_replay_adds_forks(entry, statuses, slot, c, s);
            assert(entry.forks(c) =~= before.forks(b, c));
            if s == slot {
                let all = after.delta(slot)[b].1;
                if super::lists_slice(statuses, c) {
                    let k = choose|k: int|
                        0 <= k < statuses.len() && (#[trigger] statuses[k]).0@ == c;
                    assert(all[all.len() - statuses.len() + k].0@ == c);
                } else {
                    let listed = before.delta(slot)[b].1;
                    let k = choose|k: int| 0 <= k < listed.len() && (#[trigger] listed[k]).0@ == c;
                    assert(all[k].0@ == c);
                }
            }
        }
    }
}

/// What is left of forks was among them.
proof fn lemma_kept_fork<T>(forks: Seq<(Slot, Arc<T>)>, slot: Slot, other: Slot)
    ensures
        super::has_fork(super::other_forks(forks, slot), other) ==> super::has_fork(forks, other),
    decreases forks.len(),
{
    reveal(Seq::filter);
    if forks.len() > 0 {
        let shorter = forks.drop_last();
        lemma_kept_fork(shorter, slot, other);
        assert(shorter.push(forks.last()) =~= forks);
        lemma_push_has_fork(shorter, forks.last(), other);
        lemma_push_has_fork(super::other_forks(shorter, slot), forks.last(), other);
    }
}

proof fn lemma_apply_keeps_leftovers<T>(before: CacheView<T>, op: CacheOp<T>)
    requires
        before.no_leftovers(),
    ensures
        before.apply(op).no_leftovers(),
{
    if let CacheOp::Record { blockhash, slot, sig_index, slice, res } = op {
        let entry = before.entry(blockhash, slot, sig_index);
        let after = entry.record(slice@, slot, res);
        assert(after.signatures.contains_key(slice@));
        assert(before.cache.contains_key(blockhash) ==> has_statuses(entry));
        assert(has_statuses(after));
    }
}

/// A cache that was built up by changes is well-formed, and its cached parts of signatures lie
/// within the signatures. It lists each fork above the last root that it dropped in the delta of
/// the fork's slot, and holds no blockhash without a status.
pub proof fn law_built_cache_lists_its_forks<T>(max_cache_entries: usize, ops: Seq<CacheOp<T>>)
    requires
        ops_wf(ops),
    ensures
        ({
            let cache = CacheView::<T>::empty(max_cache_entries);
            &&& cache.run(ops).wf()
            &&& cache.run(ops).offsets_fit()
            &&& cache.run(ops).forks_listed(cache.floor(ops))
            &&& cache.run(ops).no_leftovers()
            &&& cache.run(ops).max_cache_entries == max_cache_entries
        }),
    decreases ops.len(),
{
    let cache = CacheView::<T>::empty(max_cache_entries);
    if ops.len() > 0 {
        let earlier = ops.drop_last();
        assert forall|i: int| 0 <= i < earlier.len() implies (#[trigger] earlier[i]).wf() by {
            assert(ops[i].wf());
        }
        law_built_cache_lists_its_forks(max_cache_entries, earlier);
        let before = cache.run(earlier);
        assert(ops[ops.len() - 1].wf());
        lemma_apply_keeps_leftovers(before, ops.last());
        match ops.last() {
            CacheOp::Record { blockhash, slot, sig_index, slice, res } => {
                let index = before.entry(blockhash, slot, sig_index).sig_index;
                super::lemma_record_keeps_wf(before, blockhash, slot, index, slice, res);
                law_record_keeps_forks_listed(
                    before,
                    blockhash,
                    slot,
                    index,
                    slice,
                    res,
                    cache.floor(earlier),
                );
            },
            CacheOp::AddRoot { root } => {
                let rooted = CacheView { roots: before.roots.insert(root), ..before };
                assert(rooted.wf()) by {
                    assert forall|s: Slot, b: Seq<u8>|
                        rooted.slot_deltas.contains_key(s)
                            && #[trigger] rooted.slot_deltas[s].contains_key(b)
                            implies rooted.delta_backed(s, b) by {
                        assert(before.slot_deltas[s].contains_key(b));
                        assert(before.delta_backed(s, b));
                    }
                }
                super::lemma_purge_keeps_wf(rooted);
                law_add_root_keeps_forks_listed(before, root, cache.floor(earlier));
            },
        }
    }
}

/// What a slot's delta lists under a blockhash, in the order in which it was inserted.
pub open spec fn listed<T>(delta: DeltaView<T>, blockhash: Seq<u8>) -> Seq<
    (SignatureSlice, Arc<T>),
> {
    if delta.contains_key(blockhash) {
        delta[blockhash].1
    } else {
        Seq::empty()
    }
}

/// Above the roots that are dropped, a slot's delta goes on listing what it listed before, and
/// behind it what is inserted on the slot, in the order in which it is inserted.
pub proof fn law_delta_grows_by_what_is_recorded<T>(
    cache: CacheView<T>,
    ops: Seq<CacheOp<T>>,
    slot: Slot,
    blockhash: Seq<u8>,
)
    requires
        cache.floor(ops) <= slot,
    ensures
        ({
            let before = cache.delta(slot);
            let after = cache.run(ops).delta(slot);
            let statuses = recorded(ops, slot, blockhash);
            &&& listed(after, blockhash) == listed(before, blockhash) + statuses
            &&& after.contains_key(blockhash) <==> before.contains_key(blockhash)
                || statuses.len() > 0
        }),
    decreases ops.len(),
{
    let before = listed(cache.delta(slot), blockhash);
    if ops.len() == 0 {
        assert(before + recorded(ops, slot, blockhash) =~= before);
    } else {
        let earlier = ops.drop_last();
        law_delta_grows_by_what_is_recorded(cache, earlier, slot, blockhash);
        let middle = cache.run(earlier);
        let after = cache.run(ops);
        match ops.last() {
            CacheOp::Record { slice, res, .. } => {
                let statuses = recorded(earlier, slot, blockhash);
                assert(before + statuses.push((slice, res)) =~= (before + statuses).push(
                    (slice, res),
                ));
            },
            CacheOp::AddRoot { root } => {
                assert(after.delta(slot) == middle.delta(slot));
            },
        }
    }
}

proof fn lemma_first_visible_is_fork<T>(
    forks: Seq<(Slot, Arc<T>)>,
    visible: Set<Slot>,
    slot: Slot,
)
    requires
        !super::has_fork(forks, slot),
    ensures
        super::first_visible(forks, visible) matches Some(fork) ==> fork.0 != slot,
    decreases forks.len(),
{
    if forks.len() > 0 {
        assert(forks[0].0 != slot);
        let rest = forks.drop_first();
        assert forall|k: int| 0 <= k < rest.len() implies (#[trigger] rest[k]).0 != slot by {
            assert(forks[k + 1].0 != slot);
        }
        lemma_first_visible_is_fork(rest, visible, slot);
    }
}

/// No fork in the cache is on `slot`.
pub open spec fn nothing_on<T>(cache: CacheView<T>, slot: Slot) -> bool {
    forall|blockhash: Seq<u8>, slice: Seq<u8>|
        !#[trigger] super::has_fork(cache.forks(blockhash, slice), slot)
}

/// Where no fork is on `slot`, no status of it is found.
pub proof fn law_no_fork_no_status<T>(
    cache: CacheView<T>,
    slot: Slot,
    sig: Seq<u8>,
    blockhash: Seq<u8>,
    ancestors: Set<Slot>,
)
    requires
        nothing_on(cache, slot),
    ensures
        cache.status(sig, blockhash, ancestors) matches Some(fork) ==> fork.0 != slot,
{
    if cache.cache.contains_key(blockhash) {
        let entry = cache.cache[blockhash];
        let slice = sig.subrange(entry.sig_index as int, entry.sig_index + CACHED_SIGNATURE_SIZE);
        assert(!super::has_fork(cache.forks(blockhash, slice), slot));
        lemma_first_visible_is_fork(entry.forks(slice), ancestors.union(cache.roots), slot);
    }
}

/// Nothing comes back on a slot unless it is inserted there.
pub proof fn law_nothing_comes_back<T>(cache: CacheView<T>, slot: Slot, ops: Seq<CacheOp<T>>)
    requires
        nothing_on(cache, slot),
        forall|i: int| 0 <= i < ops.len() ==> !(#[trigger] ops[i]).records_on(slot),
    ensures
        nothing_on(cache.run(ops), slot),
    decreases ops.len(),
{
    if ops.len() > 0 {
        let earlier = ops.drop_last();
        assert forall|i: int| 0 <= i < earlier.len() implies !(#[trigger] earlier[i]).records_on(
            slot,
        ) by {
            assert(!ops[i].records_on(slot));
        }
        law_nothing_comes_back(cache, slot, earlier);
        let before = cache.run(earlier);
        let after = cache.run(ops);
        assert(!ops[ops.len() - 1].records_on(slot));
        assert forall|b: Seq<u8>, c: Seq<u8>| !#[trigger] super::has_fork(
            after.forks(b, c),
            slot,
        ) by {
            assert(!super::has_fork(before.forks(b, c), slot));
            if let CacheOp::Record { blockhash, slot: own, slice, res, .. } = ops.last() {
                lemma_push_has_fork(before.forks(b, c), (own, res), slot);
            }
        }
    }
}

/// Clears the statuses of a slot above the roots that were dropped, on which no cached part of a
/// signature was inserted twice under a blockhash. This can be done, and no signature is found on
/// the slot any more. Every signature keeps its forks on other slots, in their order; a
/// blockhash stays where it has any. The roots stay, and of the deltas that of the slot is gone.
pub proof fn law_clear_forgets_the_slot<T>(
    max_cache_entries: usize,
    ops: Seq<CacheOp<T>>,
    slot: Slot,
)
    requires
        ops_wf(ops),
        CacheView::<T>::empty(max_cache_entries).floor(ops) <= slot,
        recorded_once(ops, slot),
    ensures
        ({
            let before = CacheView::<T>::empty(max_cache_entries).run(ops);
            let after = before.clear_slot_signatures(slot);
            &&& before.wf()
            &&& before.clearable(slot)
            &&& after.wf()
            &&& nothing_on(after, slot)
            &&& forall|sig: Seq<u8>, blockhash: Seq<u8>, ancestors: Set<Slot>|
                (#[trigger] after.status(sig, blockhash, ancestors)) matches Some(fork) ==> fork.0
                    != slot
            &&& forall|blockhash: Seq<u8>, slice: Seq<u8>| #[trigger]
                after.forks(blockhash, slice) == super::other_forks(
                    before.forks(blockhash, slice),
                    slot,
                )
            &&& forall|blockhash: Seq<u8>| #[trigger]
                after.cache.contains_key(blockhash) <==> exists|slice: Seq<u8>|
                    super::other_forks(#[trigger] before.forks(blockhash, slice), slot).len() > 0
            &&& forall|blockhash: Seq<u8>| #[trigger]
                after.cache.contains_key(blockhash) ==> after.cache[blockhash].slot
                    == before.cache[blockhash].slot && after.cache[blockhash].sig_index
                    == before.cache[blockhash].sig_index
            &&& after.roots == before.roots
            &&& after.slot_deltas == before.slot_deltas.remove(slot)
        }),
{
    let cache = CacheView::<T>::empty(max_cache_entries);
    let before = cache.run(ops);
    let after = before.clear_slot_signatures(slot);
    law_built_cache_lists_its_forks(max_cache_entries, ops);
    super::lemma_clear_slot_keeps_wf(before, slot);
    assert forall|b: Seq<u8>| #[trigger]
        before.delta(slot).contains_key(b) implies super::slices_clearable(
        before.cache[b],
        before.delta(slot)[b].1,
        slot,
    ) by {
        law_delta_grows_by_what_is_recorded(cache, ops, slot, b);
        assert(listed(cache.delta(slot), b) + recorded(ops, slot, b) =~= recorded(ops, slot, b));
    }
    assert forall|b: Seq<u8>, c: Seq<u8>| #[trigger]
        after.forks(b, c) == super::other_forks(before.forks(b, c), slot) by {
        let forks = before.forks(b, c);
        reveal(Seq::filter);
        if !before.lists(slot, b, c) {
            assert(!super::has_fork(forks, slot));
            super::lemma_other_forks_same(forks, slot);
        }
        if before.cache.contains_key(b) && !after.cache.contains_key(b) {
            let cleared = before.cleared_entry(slot, b);
            assert(!cleared.signatures.contains_key(c));
            assert(cleared.forks(c) =~= Seq::<(Slot, Arc<T>)>::empty());
        }
        if before.lists(slot, b, c) {
            let left = super::other_forks(forks, slot);
            if left.len() == 0 {
                assert(left =~= Seq::<(Slot, Arc<T>)>::empty());
            }
        }
    }
    assert forall|b: Seq<u8>, c: Seq<u8>| !#[trigger] super::has_fork(
        after.forks(b, c),
        slot,
    ) by {
        super::lemma_other_forks_differ(before.forks(b, c), slot);
        assert(after.forks(b, c) == super::other_forks(before.forks(b, c), slot));
    }
    assert forall|sig: Seq<u8>, b: Seq<u8>, ancestors: Set<Slot>|
        (#[trigger] after.status(sig, b, ancestors)) matches Some(fork) ==> fork.0 != slot by {
        law_no_fork_no_status(after, slot, sig, b, ancestors);
    }
    assert forall|b: Seq<u8>| #[trigger] after.cache.contains_key(b) <==> exists|slice: Seq<u8>|
        super::other_forks(#[trigger] before.forks(b, slice), slot).len() > 0 by {
        if exists|slice: Seq<u8>| super::other_forks(
            #[trigger] before.forks(b, slice),
            slot,
        ).len() > 0 {
            let slice = choose|slice: Seq<u8>| super::other_forks(
                #[trigger] before.forks(b, slice),
                slot,
            ).len() > 0;
            assert(after.forks(b, slice).len() > 0);
        }
        if after.cache.contains_key(b) {
            assert(has_statuses(before.cache[b]));
            let cleared = before.cleared_entry(slot, b);
            if before.delta(slot).contains_key(b) {
                assert(exists|c: Seq<u8>| #[trigger] cleared.signatures.contains_key(c)) by {
                    if forall|c: Seq<u8>| !#[trigger] cleared.signatures.contains_key(c) {
                        assert(cleared.signatures =~= Map::<Seq<u8>, Seq<(Slot, Arc<T>)>>::empty());
                    }
                }
            }
            let c = choose|c: Seq<u8>| #[trigger] cleared.signatures.contains_key(c);
            assert(before.cache[b].signatures.contains_key(c));
            assert(after.forks(b, c).len() > 0);
            assert(super::other_forks(before.forks(b, c), slot).len() > 0);
        }
    }
}

/// What deltas hold for a slot.
pub open spec fn delta_at<T>(deltas: Map<Slot, DeltaView<T>>, slot: Slot) -> DeltaView<T> {
    if deltas.contains_key(slot) {
        deltas[slot]
    } else {
        Map::empty()
    }
}

impl<T> CacheView<T> {
    /// The deltas of slots are replayed one after the other.
    pub open spec fn replay_slots(
        self,
        deltas: Map<Slot, DeltaView<T>>,
        slots: Seq<Slot>,
    ) -> CacheView<T>
        decreases slots.len(),
    {
        if slots.len() == 0 {
            self
        } else {
            self.replay_slots(deltas, slots.drop_last()).replay(
                slots.last(),
                delta_at(deltas, slots.last()),
            )
        }
    }

    /// Under each blockhash the deltas have the same offset as the cache.
    pub open spec fn same_offsets(self) -> bool {
        forall|slot: Slot, blockhash: Seq<u8>|
            self.slot_deltas.contains_key(slot) && #[trigger] self.slot_deltas[slot].contains_key(
                blockhash,
            ) ==> self.cache.contains_key(blockhash) && self.slot_deltas[slot][blockhash].0
                == self.cache[blockhash].sig_index
    }
}

/// Each slot is greater than the one before.
pub open spec fn strictly_ascending(slots: Seq<Slot>) -> bool {
    forall|i: int, j: int| 0 <= i < j < slots.len() ==> slots[i] < slots[j]
}

/// Replaying a delta without statuses changes nothing.
proof fn lemma_replay_nothing<T>(before: CacheView<T>, slot: Slot, delta: DeltaView<T>)
    requires
        forall|blockhash: Seq<u8>| !#[trigger] super::adds_statuses(delta, blockhash),
    ensures
        before.replay(slot, delta) == before,
{
    assert(before.replay(slot, delta).cache =~= before.cache);
    assert(before.replay(slot, delta) =~= before);
}

/// A blockhash without statuses adds nothing to a delta.
proof fn lemma_replay_ignores_empty<T>(
    before: CacheView<T>,
    slot: Slot,
    delta: DeltaView<T>,
    blockhash: Seq<u8>,
    sig_index: usize,
)
    requires
        !delta.contains_key(blockhash),
    ensures
        before.replay(
            slot,
            delta.insert(blockhash, (sig_index, Seq::<(SignatureSlice, Arc<T>)>::empty())),
        ) == before.replay(slot, delta),
{
    let more = delta.insert(blockhash, (sig_index, Seq::<(SignatureSlice, Arc<T>)>::empty()));
    let one = before.replay(slot, more);
    let two = before.replay(slot, delta);
    assert forall|b: Seq<u8>| #[trigger] super::adds_statuses(more, b) == super::adds_statuses(
        delta,
        b,
    ) by {}
    assert((exists|b: Seq<u8>| #[trigger] super::adds_statuses(more, b)) <==> (exists|b: Seq<u8>|
        #[trigger] super::adds_statuses(delta, b))) by {
        if exists|b: Seq<u8>| #[trigger] super::adds_statuses(more, b) {
            let b = choose|b: Seq<u8>| #[trigger] super::adds_statuses(more, b);
            assert(super::adds_statuses(delta, b));
        }
        if exists|b: Seq<u8>| #[trigger] super::adds_statuses(delta, b) {
            let b = choose|b: Seq<u8>| #[trigger] super::adds_statuses(delta, b);
            assert(super::adds_statuses(more, b));
        }
    }
    assert(one.cache =~= two.cache);
    if exists|b: Seq<u8>| #[trigger] super::adds_statuses(delta, b) {
        assert(one.slot_deltas[slot] =~= two.slot_deltas[slot]);
    }
    assert(one.slot_deltas =~= two.slot_deltas);
    assert(one =~= two);
}

/// The deltas of other slots have no part in a replay.
proof fn lemma_replay_slots_same<T>(
    before: CacheView<T>,
    deltas: Map<Slot, DeltaView<T>>,
    slots: Seq<Slot>,
    slot: Slot,
    delta: DeltaView<T>,
)
    requires
        !slots.contains(slot),
    ensures
        before.replay_slots(deltas.insert(slot, delta), slots) == before.replay_slots(
            deltas,
            slots,
        ),
    decreases slots.len(),
{
    if slots.len() > 0 {
        let earlier = slots.drop_last();
        assert(slots[slots.len() - 1] != slot);
        assert(!earlier.contains(slot)) by {
            if earlier.contains(slot) {
                let k = choose|k: int| 0 <= k < earlier.len() && earlier[k] == slot;
                assert(slots[k] == slot);
            }
        }
        lemma_replay_slots_same(before, deltas, earlier, slot, delta);
    }
}

/// Replaying deltas to which a status was added on the last slot that has any is the same as
/// adding the status to what is replayed.
proof fn lemma_replay_slots_extends<T>(
    before: CacheView<T>,
    deltas: Map<Slot, DeltaView<T>>,
    slots: Seq<Slot>,
    blockhash: Seq<u8>,
    slot: Slot,
    sig_index: usize,
    status: (SignatureSlice, Arc<T>),
)
    requires
        strictly_ascending(slots),
        slots.contains(slot),
        forall|s: Slot| #[trigger] deltas.contains_key(s) ==> s <= slot,
        delta_at(deltas, slot).contains_key(blockhash) ==> delta_at(deltas, slot)[blockhash].0
            == sig_index,
    ensures
        ({
            let delta = delta_at(deltas, slot);
            let statuses = if delta.contains_key(blockhash) {
                delta[blockhash].1
            } else {
                Seq::empty()
            };
            let longer = delta.insert(blockhash, (sig_index, statuses.push(status)));
            before.replay_slots(deltas.insert(slot, longer), slots) == before.replay_slots(
                deltas,
                slots,
            ).record_slice(blockhash, slot, sig_index, status.0, status.1)
        }),
    decreases slots.len(),
{
    let delta = delta_at(deltas, slot);
    let statuses = if delta.contains_key(blockhash) {
        delta[blockhash].1
    } else {
        Seq::empty()
    };
    let longer = delta.insert(blockhash, (sig_index, statuses.push(status)));
    let more = deltas.insert(slot, longer);
    let earlier = slots.drop_last();
    let last = slots.last();
    let at = choose|at: int| 0 <= at < slots.len() && slots[at] == slot;
    assert(slots[slots.len() - 1] == last);
    assert(strictly_ascending(earlier));
    if last == slot {
        assert(!earlier.contains(slot)) by {
            if earlier.contains(slot) {
                let k = choose|k: int| 0 <= k < earlier.len() && earlier[k] == slot;
                assert(slots[k] < slots[slots.len() - 1]);
            }
        }
        lemma_replay_slots_same(before, deltas, earlier, slot, longer);
        let middle = before.replay_slots(deltas, earlier);
        let rest = delta.remove(blockhash);
        super::lemma_replay_extends(
            middle,
            slot,
            rest,
            blockhash,
            sig_index,
            statuses,
            status,
        );
        assert(rest.insert(blockhash, (sig_index, statuses.push(status))) =~= longer);
        if delta.contains_key(blockhash) {
            assert(rest.insert(blockhash, (sig_index, statuses)) =~= delta);
        } else {
            assert(rest =~= delta);
            lemma_replay_ignores_empty(middle, slot, delta, blockhash, sig_index);
        }
    } else {
        assert(slots[at] < slots[slots.len() - 1]);
        assert(earlier[at] == slot);
        lemma_replay_slots_extends(before, deltas, earlier, blockhash, slot, sig_index, status);
        assert(!deltas.contains_key(last));
        lemma_replay_nothing(before.replay_slots(deltas, earlier), last, delta_at(deltas, last));
        lemma_replay_nothing(before.replay_slots(more, earlier), last, delta_at(more, last));
    }
}

/// Every slot that a status was inserted on is among `slots`.
pub open spec fn holds_recorded_slots<T>(slots: Seq<Slot>, ops: Seq<CacheOp<T>>) -> bool {
    forall|i: int|
        0 <= i < ops.len() && (#[trigger] ops[i]) is Record ==> slots.contains(ops[i]->slot)
}

/// No delta is of a slot after the last that a status was inserted on.
proof fn lemma_delta_slots<T>(max_cache_entries: usize, ops: Seq<CacheOp<T>>, slot: Slot)
    requires
        forall|i: int|
            0 <= i < ops.len() && (#[trigger] ops[i]) is Record ==> ops[i]->slot <= slot,
    ensures
        forall|s: Slot| #[trigger]
            CacheView::<T>::empty(max_cache_entries).run(ops).slot_deltas.contains_key(s) ==> s
                <= slot,
    decreases ops.len(),
{
    if ops.len() > 0 {
        let earlier = ops.drop_last();
        assert forall|i: int|
            0 <= i < earlier.len() && (#[trigger] earlier[i]) is Record implies earlier[i]->slot
            <= slot by {
            assert(ops[i] is Record);
        }
        lemma_delta_slots(max_cache_entries, earlier, slot);
        let before = CacheView::<T>::empty(max_cache_entries).run(earlier);
        let after = CacheView::<T>::empty(max_cache_entries).run(ops);
        assert(after == before.apply(ops[ops.len() - 1]));
        assert forall|s: Slot| #[trigger] after.slot_deltas.contains_key(s) implies s <= slot by {
            assert(before.slot_deltas.contains_key(s) || ops[ops.len() - 1] is Record
                && ops[ops.len() - 1]->slot == s);
        }
    }
}

/// Where no root was dropped, the cache holds at most as many roots as it may, among them slot 0,
/// and its deltas have the offsets of the cache.
proof fn lemma_unpurged<T>(max_cache_entries: usize, ops: Seq<CacheOp<T>>)
    requires
        max_cache_entries > 0,
        CacheView::<T>::empty(max_cache_entries).floor(ops) == 0,
    ensures
        ({
            let cache = CacheView::<T>::empty(max_cache_entries).run(ops);
            &&& cache.max_cache_entries == max_cache_entries
            &&& cache.roots.finite()
            &&& cache.roots.len() <= max_cache_entries
            &&& cache.roots.contains(0)
            &&& cache.same_offsets()
        }),
    decreases ops.len(),
{
    let empty = CacheView::<T>::empty(max_cache_entries);
    if ops.len() > 0 {
        let earlier = ops.drop_last();
        lemma_unpurged(max_cache_entries, earlier);
        let before = empty.run(earlier);
        let after = empty.run(ops);
        match ops.last() {
            CacheOp::Record { blockhash, slot, sig_index, slice, res } => {
                assert forall|s: Slot, b: Seq<u8>|
                    after.slot_deltas.contains_key(s)
                        && #[trigger] after.slot_deltas[s].contains_key(b)
                        implies after.cache.contains_key(b) && after.slot_deltas[s][b].0
                    == after.cache[b].sig_index by {
                    if before.slot_deltas.contains_key(s) {
                        assert(before.slot_deltas[s].contains_key(b) || (s == slot && b
                            == blockhash));
                    }
                }
            },
            CacheOp::AddRoot { root } => {
                assert(before.roots.insert(root).len() <= max_cache_entries);
                assert(after.cache == before.cache && after.slot_deltas == before.slot_deltas);
                assert forall|s: Slot, b: Seq<u8>|
                    after.slot_deltas.contains_key(s)
                        && #[trigger] after.slot_deltas[s].contains_key(b)
                        implies after.cache.contains_key(b) && after.slot_deltas[s][b].0
                    == after.cache[b].sig_index by {
                    assert(before.slot_deltas[s].contains_key(b));
                }
            },
        }
    }
}

/// Replaying the deltas of a cache into an empty one gives the statuses of the cache.
proof fn lemma_replay_rebuilds<T>(
    max_cache_entries: usize,
    ops: Seq<CacheOp<T>>,
    slots: Seq<Slot>,
)
    requires
        max_cache_entries > 0,
        CacheView::<T>::empty(max_cache_entries).floor(ops) == 0,
        slots_ascend(ops),
        strictly_ascending(slots),
        holds_recorded_slots(slots, ops),
    ensures
        ({
            let empty = CacheView::<T>::empty(max_cache_entries);
            let cache = empty.run(ops);
            let again = empty.replay_slots(cache.slot_deltas, slots);
            &&& again.cache == cache.cache
            &&& again.slot_deltas == cache.slot_deltas
        }),
    decreases ops.len(),
{
    let empty = CacheView::<T>::empty(max_cache_entries);
    if ops.len() == 0 {
        lemma_replay_slots_of_nothing(empty, slots);
    } else {
        let earlier = ops.drop_last();
        assert forall|i: int, j: int|
            0 <= i < j < earlier.len() && (#[trigger] earlier[i]) is Record && (
            #[trigger] earlier[j]) is Record implies earlier[i]->slot <= earlier[j]->slot by {
            assert(ops[i] is Record && ops[j] is Record);
        }
        assert forall|i: int|
            0 <= i < earlier.len() && (#[trigger] earlier[i]) is Record implies slots.contains(
            earlier[i]->slot,
        ) by {
            assert(ops[i] is Record);
        }
        lemma_replay_rebuilds(max_cache_entries, earlier, slots);
        lemma_unpurged(max_cache_entries, earlier);
        let before = empty.run(earlier);
        let after = empty.run(ops);
        assert(ops[ops.len() - 1] == ops.last());
        match ops.last() {
            CacheOp::Record { blockhash, slot, sig_index, slice, res } => {
                let index = before.entry(blockhash, slot, sig_index).sig_index;
                assert forall|i: int|
                    0 <= i < earlier.len() && (#[trigger] earlier[i]) is Record
                        implies earlier[i]->slot <= slot by {
                    assert(ops[i] is Record && ops[ops.len() - 1] is Record);
                }
                lemma_delta_slots(max_cache_entries, earlier, slot);
                let again = empty.replay_slots(before.slot_deltas, slots);
                if delta_at(before.slot_deltas, slot).contains_key(blockhash) {
                    assert(before.slot_deltas[slot].contains_key(blockhash));
                }
                lemma_replay_slots_extends(
                    empty,
                    before.slot_deltas,
                    slots,
                    blockhash,
                    slot,
                    index,
                    (slice, res),
                );
                assert(again.delta(slot) == before.delta(slot));
                let recorded = again.record_slice(blockhash, slot, index, slice, res);
                assert(recorded.cache == after.cache);
                assert(recorded.slot_deltas == after.slot_deltas);
            },
            CacheOp::AddRoot { root } => {
                assert(before.roots.insert(root).len() <= max_cache_entries);
            },
        }
    }
}

proof fn lemma_replay_slots_of_nothing<T>(before: CacheView<T>, slots: Seq<Slot>)
    ensures
        before.replay_slots(Map::empty(), slots) == before,
    decreases slots.len(),
{
    if slots.len() > 0 {
        lemma_replay_slots_of_nothing(before, slots.drop_last());
        lemma_replay_nothing(before, slots.last(), delta_at(Map::empty(), slots.last()));
    }
}

/// `deltas` are what a cache gives for `slots`.
pub open spec fn are_deltas_of<T>(
    deltas: Seq<SlotDelta<T>>,
    cache: CacheView<T>,
    slots: Seq<Slot>,
) -> bool {
    &&& deltas.len() == slots.len()
    &&& forall|i: int|
        0 <= i < slots.len() ==> {
            &&& (#[trigger] deltas[i]).0 == slots[i]
            &&& deltas[i].1 == cache.roots.contains(slots[i])
            &&& super::delta_of(deltas[i].2) == cache.delta(slots[i])
        }
}

/// Appending the deltas of a cache whose roots all fit replays them, and adds the roots.
proof fn lemma_append_replays<T>(
    empty: CacheView<T>,
    cache: CacheView<T>,
    slots: Seq<Slot>,
    deltas: Seq<SlotDelta<T>>,
)
    requires
        cache.roots.finite(),
        cache.roots.len() <= empty.max_cache_entries,
        empty.roots.subset_of(cache.roots),
        are_deltas_of(deltas, cache, slots),
    ensures
        ({
            let appended = empty.append(deltas);
            let replayed = empty.replay_slots(cache.slot_deltas, slots);
            &&& appended.max_cache_entries == empty.max_cache_entries
            &&& appended.cache == replayed.cache
            &&& appended.slot_deltas == replayed.slot_deltas
            &&& appended.roots == empty.roots.union(cache.roots.intersect(slots.to_set()))
        }),
    decreases slots.len(),
{
    if slots.len() == 0 {
        assert(empty.roots =~= empty.roots.union(cache.roots.intersect(slots.to_set())));
    } else {
        let last = slots.last();
        let earlier = slots.drop_last();
        let some = deltas.drop_last();
        assert forall|i: int| 0 <= i < earlier.len() implies {
            &&& (#[trigger] some[i]).0 == earlier[i]
            &&& some[i].1 == cache.roots.contains(earlier[i])
            &&& super::delta_of(some[i].2) == cache.delta(earlier[i])
        } by {
            assert(some[i] == deltas[i]);
        }
        lemma_append_replays(empty, cache, earlier, some);
        let middle = empty.append(some);
        let replayed = empty.replay_slots(cache.slot_deltas, earlier);
        assert(deltas[slots.len() - 1] == deltas.last());
        let delta = cache.delta(last);
        assert(middle.replay(last, delta).cache =~= replayed.replay(last, delta).cache);
        assert(middle.replay(last, delta).slot_deltas =~= replayed.replay(
            last,
            delta,
        ).slot_deltas) by {
            assert(middle.delta(last) == replayed.delta(last));
            if exists|b: Seq<u8>| #[trigger] super::adds_statuses(delta, b) {
                assert(middle.replay(last, delta).slot_deltas[last] =~= replayed.replay(
                    last,
                    delta,
                ).slot_deltas[last]);
            }
        }
        let target = empty.roots.union(cache.roots.intersect(slots.to_set()));
        assert(slots.to_set() =~= earlier.to_set().insert(last)) by {
            assert forall|s: Slot| slots.to_set().contains(s) implies #[trigger]
            earlier.to_set().insert(last).contains(s) by {
                let k = choose|k: int| 0 <= k < slots.len() && slots[k] == s;
                if k < earlier.len() {
                    assert(earlier[k] == s);
                }
            }
            assert forall|s: Slot| #[trigger]
                earlier.to_set().insert(last).contains(s) implies slots.to_set().contains(s) by {
                if s == last {
                    assert(slots[slots.len() - 1] == s);
                } else {
                    let k = choose|k: int| 0 <= k < earlier.len() && earlier[k] == s;
                    assert(slots[k] == s);
                }
            }
        }
        vstd::set_lib::lemma_len_subset(target, cache.roots);
        if deltas.last().1 {
            assert(middle.roots.insert(last) =~= target);
        } else {
            assert(middle.roots =~= target);
        }
    }
}

/// A cache into which statuses were inserted on slots that never go back, and that dropped no
/// root, is the same again when it is rebuilt from its deltas: from those of all its roots and
/// all slots that statuses were inserted on, in ascending order. So is one that is rebuilt from
/// the deltas of the rebuilt one.
pub proof fn law_rebuilt_cache_is_the_same<T>(
    max_cache_entries: usize,
    ops: Seq<CacheOp<T>>,
    slots: Seq<Slot>,
    deltas: Seq<SlotDelta<T>>,
    deltas_again: Seq<SlotDelta<T>>,
)
    requires
        max_cache_entries > 0,
        CacheView::<T>::empty(max_cache_entries).floor(ops) == 0,
        slots_ascend(ops),
        strictly_ascending(slots),
        holds_recorded_slots(slots, ops),
        ({
            let empty = CacheView::<T>::empty(max_cache_entries);
            &&& forall|root: Slot| #[trigger]
                empty.run(ops).roots.contains(root) ==> slots.contains(root)
            &&& are_deltas_of(deltas, empty.run(ops), slots)
            &&& are_deltas_of(deltas_again, empty.append(deltas), slots)
        }),
    ensures
        ({
            let empty = CacheView::<T>::empty(max_cache_entries);
            &&& empty.append(deltas) == empty.run(ops)
            &&& empty.append(deltas_again) == empty.run(ops)
        }),
{
    let empty = CacheView::<T>::empty(max_cache_entries);
    let cache = empty.run(ops);
    lemma_unpurged(max_cache_entries, ops);
    lemma_replay_rebuilds(max_cache_entries, ops, slots);
    lemma_append_replays(empty, cache, slots, deltas);
    assert(empty.roots.union(cache.roots.intersect(slots.to_set())) =~= cache.roots);
    assert(empty.append(deltas) =~= cache);
    lemma_append_replays(empty, cache, slots, deltas_again);
    assert(empty.append(deltas_again) =~= cache);
}

/// Such a cache, the one that is rebuilt from its deltas and the one that is rebuilt from the
/// deltas of that one are equal, each to each, where every status equals itself.
pub proof fn law_rebuilt_cache_is_equal<T: PartialEq>(
    cache: StatusCache<T>,
    rebuilt: StatusCache<T>,
    rebuilt_again: StatusCache<T>,
    ops: Seq<CacheOp<T>>,
    slots: Seq<Slot>,
    deltas: Seq<SlotDelta<T>>,
    deltas_again: Seq<SlotDelta<T>>,
)
    requires
        forall|status: T| #[trigger] status.eq_spec(&status),
        cache@.max_cache_entries > 0,
        ({
            let empty = CacheView::<T>::empty(cache@.max_cache_entries);
            &&& cache@ == empty.run(ops)
            &&& empty.floor(ops) == 0
            &&& rebuilt@ == empty.append(deltas)
            &&& rebuilt_again@ == empty.append(deltas_again)
        }),
        slots_ascend(ops),
        strictly_ascending(slots),
        holds_recorded_slots(slots, ops),
        forall|root: Slot| #[trigger] cache@.roots.contains(root) ==> slots.contains(root),
        are_deltas_of(deltas, cache@, slots),
        are_deltas_of(deltas_again, rebuilt@, slots),
    ensures
        rebuilt.eq_spec(&cache),
        cache.eq_spec(&rebuilt),
        rebuilt_again.eq_spec(&cache),
        cache.eq_spec(&rebuilt_again),
{
    law_rebuilt_cache_is_the_same(
        cache@.max_cache_entries,
        ops,
        slots,
        deltas,
        deltas_again,
    );
}

} // verus!
