//! Walks the forks of a ledger from a root on.

use std::collections::HashMap;
use std::collections::HashSet;
use std::sync::Arc;

use vstd::prelude::*;

use super::BlockstoreProcessorError;
use crate::clock::Slot;
use crate::collections::share;
use crate::collections::slots_of;

verus! {

/// A bank's place in the tree of forks.
pub struct BankInfo {
    pub slot: Slot,
    pub parent_slot: Option<Slot>,
    /// the slots of the bank and of the banks it descends from
    pub ancestors: HashSet<Slot>,
}

impl BankInfo {
    /// The bank stands on `root` or descends from it.
    pub open spec fn descends_from(&self, root: Slot) -> bool {
        self.ancestors@.contains(root)
    }
}

/// A complete slot that waits for its turn.
pub struct PendingSlot {
    pub bank: Arc<BankInfo>,
    /// the slots that follow on this one in the ledger
    pub next_slots: Vec<Slot>,
    /// the last hash of the parent
    pub last_entry_hash: crate::hash::Hash,
}

impl PendingSlot {
    pub open spec fn spec_slot(&self) -> Slot {
        self.bank.slot
    }
}

/// What the ledger holds of a slot.
#[derive(Clone, Copy, Debug, PartialEq, Eq, Structural)]
pub struct SlotMetaInfo {
    pub is_full: bool,
}

/// The ledger holds something of each slot up to the first that could not be loaded; what comes
/// after that one does not matter.
pub open spec fn found_until_failure<L>(metas: Seq<Result<Option<SlotMetaInfo>, L>>) -> bool {
    forall|i: int|
        0 <= i < metas.len() && ((#[trigger] metas[i]) matches Ok(None)) ==> exists|j: int|
            0 <= j < i && (#[trigger] metas[j]) is Err
}

/// The slots, of those that follow on a bank, that can be processed: only full slots are,
/// partials are left for later. `metas` holds what the ledger gave for each of the slots.
pub fn full_next_slots<L, E>(
    next_slots: &[Slot],
    metas: &[Result<Option<SlotMetaInfo>, L>],
) -> (full: Result<Vec<Slot>, BlockstoreProcessorError<L, E>>)
    requires
        metas@.len() == next_slots@.len(),
        found_until_failure(metas@),
    ensures
        match full {
            Ok(slots) => {
                &&& forall|i: int| 0 <= i < metas@.len() ==> (#[trigger] metas@[i]) is Ok
                &&& slots@ == full_among(next_slots@, metas@)
            },
            Err(err) => {
                &&& err == BlockstoreProcessorError::<L, E>::FailedToLoadMeta
                &&& exists|i: int| 0 <= i < metas@.len() && (#[trigger] metas@[i]) is Err
            },
        },
{
    let mut slots: Vec<Slot> = Vec::new();
    let mut i: usize = 0;
    assert(full_among(next_slots@.take(0), metas@.take(0)) =~= Seq::empty());
    while i < next_slots.len()
        invariant
            i <= next_slots@.len(),
            metas@.len() == next_slots@.len(),
            forall|j: int| 0 <= j < i ==> (#[trigger] metas@[j]) is Ok,
            slots@ == full_among(next_slots@.take(i as int), metas@.take(i as int)),
        decreases next_slots@.len() - i,
    {
        proof {
            assert(next_slots@.take(i + 1).drop_last() =~= next_slots@.take(i as int));
            assert(metas@.take(i + 1).drop_last() =~= metas@.take(i as int));
        }
        match &metas[i] {
            Err(_) => {
                assert(metas@[i as int] is Err);
                return Err(BlockstoreProcessorError::FailedToLoadMeta);
            },
            Ok(Some(meta)) => {
                if meta.is_full {
                    slots.push(next_slots[i]);
                }
            },
            Ok(None) => {},
        }
        i += 1;
    }
    proof {
        assert(next_slots@.take(i as int) =~= next_slots@);
        assert(metas@.take(i as int) =~= metas@);
    }
    Ok(slots)
}

/// The slots that the ledger holds in full.
pub open spec fn full_among<L>(
    slots: Seq<Slot>,
    metas: Seq<Result<Option<SlotMetaInfo>, L>>,
) -> Seq<Slot>
    decreases slots.len(),
{
    if slots.len() == 0 {
        Seq::empty()
    } else {
        let rest = full_among(slots.drop_last(), metas.drop_last());
        if metas.last() matches Ok(Some(meta)) && meta.is_full {
            rest.push(slots.last())
        } else {
            rest
        }
    }
}

/// Later slots come first, so that the next slot to be processed is the last one.
pub open spec fn latest_first(pending: Seq<Arc<PendingSlot>>) -> bool {
    forall|i: int, j: int|
        0 <= i < j < pending.len() ==> (#[trigger] pending[i]).spec_slot() >= (
        #[trigger] pending[j]).spec_slot()
}

/// Where a slot goes among pending slots: behind those that are not earlier.
pub open spec fn pending_position(pending: Seq<Arc<PendingSlot>>, slot: Slot) -> nat
    decreases pending.len(),
{
    if pending.len() == 0 || pending[0].spec_slot() < slot {
        0
    } else {
        1 + pending_position(pending.drop_first(), slot)
    }
}

/// A slot is put among pending slots.
pub open spec fn insert_pending(
    pending: Seq<Arc<PendingSlot>>,
    next: Arc<PendingSlot>,
) -> Seq<Arc<PendingSlot>> {
    pending.insert(pending_position(pending, next.spec_slot()) as int, next)
}

/// Slots are put among pending slots, one after the other.
pub open spec fn insert_all_pending(
    pending: Seq<Arc<PendingSlot>>,
    next: Seq<Arc<PendingSlot>>,
) -> Seq<Arc<PendingSlot>>
    decreases next.len(),
{
    if next.len() == 0 {
        pending
    } else {
        insert_pending(insert_all_pending(pending, next.drop_last()), next.last())
    }
}

proof fn lemma_pending_position(pending: Seq<Arc<PendingSlot>>, slot: Slot, position: int)
    requires
        0 <= position <= pending.len(),
        forall|i: int| 0 <= i < position ==> (#[trigger] pending[i]).spec_slot() >= slot,
        position < pending.len() ==> pending[position].spec_slot() < slot,
    ensures
        pending_position(pending, slot) == position,
    decreases pending.len(),
{
    if position > 0 {
        let rest = pending.drop_first();
        assert(pending[0].spec_slot() >= slot);
        assert forall|i: int| 0 <= i < position - 1 implies (#[trigger] rest[i]).spec_slot()
            >= slot by {
            assert(rest[i] == pending[i + 1]);
        }
        if position < pending.len() {
            assert(rest[position - 1] == pending[position]);
        }
        lemma_pending_position(rest, slot, position - 1);
    }
}

/// The pending slots that stand on `root` or descend from it.
pub open spec fn descendants(pending: Seq<Arc<PendingSlot>>, root: Slot) -> Seq<Arc<PendingSlot>> {
    pending.filter(|one: Arc<PendingSlot>| one.bank.descends_from(root))
}

/// The forks as they are being loaded.
#[verifier::ext_equal]
pub struct ForksView {
    pub root: Slot,
    pub max_root: Slot,
    pub halt_at_slot: Slot,
    pub pending: Seq<Arc<PendingSlot>>,
    /// the tips of the forks, by slot
    pub initial_forks: Map<Slot, Arc<BankInfo>>,
    /// the banks that were processed since the root, by slot
    pub all_banks: Map<Slot, Arc<BankInfo>>,
}

impl ForksView {
    pub open spec fn wf(self) -> bool {
        &&& latest_first(self.pending)
        &&& forall|slot: Slot| #[trigger]
            self.initial_forks.contains_key(slot) ==> self.initial_forks[slot].slot == slot
        &&& forall|slot: Slot| #[trigger]
            self.all_banks.contains_key(slot) ==> self.all_banks[slot].slot == slot
    }

    /// A bank becomes the tip of its fork in place of its parent, and the slots that follow on
    /// it wait for their turn.
    pub open spec fn process_next_slots(
        self,
        bank: Arc<BankInfo>,
        next: Seq<Arc<PendingSlot>>,
    ) -> ForksView {
        let others = match bank.parent_slot {
            Some(parent) => self.initial_forks.remove(parent),
            None => self.initial_forks,
        };
        ForksView {
            initial_forks: others.insert(bank.slot, bank),
            pending: insert_all_pending(self.pending, next),
            ..self
        }
    }

    /// The root that a processed bank brings: once the last known root of the ledger is
    /// reached, a root that the cluster confirmed; until then the slot itself, where the
    /// ledger says that it is a root.
    pub open spec fn new_root(
        self,
        slot: Slot,
        supermajority_root: Option<Slot>,
        is_root: bool,
    ) -> Option<Slot> {
        if self.root == self.max_root {
            match supermajority_root {
                Some(root) => if root > self.root {
                    Some(root)
                } else {
                    None
                },
                None => None,
            }
        } else if is_root {
            Some(slot)
        } else {
            None
        }
    }

    /// Everything that does not descend from the new root is dropped.
    pub open spec fn set_root(self, root: Slot) -> ForksView {
        ForksView {
            root,
            pending: descendants(self.pending, root),
            initial_forks: self.initial_forks.restrict(
                Set::new(|slot: Slot| self.initial_forks[slot].descends_from(root)),
            ),
            all_banks: self.all_banks.restrict(
                Set::new(|slot: Slot| self.all_banks[slot].descends_from(root)),
            ),
            ..self
        }
    }

    /// A root that the cluster confirmed was replayed here, as a descendant of the last root.
    pub open spec fn can_be_root(self, root: Slot) -> bool {
        self.all_banks.contains_key(root) && self.all_banks[root].descends_from(self.root)
    }

    /// A bank was processed.
    pub open spec fn processed(
        self,
        bank: Arc<BankInfo>,
        supermajority_root: Option<Slot>,
        is_root: bool,
    ) -> ForksView {
        let with_bank = ForksView { all_banks: self.all_banks.insert(bank.slot, bank), ..self };
        match self.new_root(bank.slot, supermajority_root, is_root) {
            Some(root) => with_bank.set_root(root),
            None => with_bank,
        }
    }
}

/// Walks the forks of a ledger from a root on.
pub struct LoadFrozenForks {
    root: Slot,
    max_root: Slot,
    halt_at_slot: Slot,
    pending_slots: Vec<Arc<PendingSlot>>,
    initial_forks: HashMap<Slot, Arc<BankInfo>>,
    all_banks: HashMap<Slot, Arc<BankInfo>>,
}

impl View for LoadFrozenForks {
    type V = ForksView;

    closed spec fn view(&self) -> ForksView {
        ForksView {
            root: self.root,
            max_root: self.max_root,
            halt_at_slot: self.halt_at_slot,
            pending: self.pending_slots@,
            initial_forks: self.initial_forks@,
            all_banks: self.all_banks@,
        }
    }
}

/// Drops the banks that do not descend from `root`.
fn retain_descendants(banks: &mut HashMap<Slot, Arc<BankInfo>>, root: Slot)
    ensures
        final(banks)@ == old(banks)@.restrict(
            Set::new(|slot: Slot| old(banks)@[slot].descends_from(root)),
        ),
{
    let slots = slots_of(banks);
    let ghost before = banks@;
    let mut i: usize = 0;
    while i < slots.len()
        invariant
            i <= slots@.len(),
            before == old(banks)@,
            slots@.no_duplicates(),
            slots@.to_set() == before.dom(),
            forall|slot: Slot| #[trigger]
                banks@.contains_key(slot) ==> before.contains_key(slot) && banks@[slot]
                    == before[slot],
            forall|j: int|
                0 <= j < i ==> (banks@.contains_key(#[trigger] slots@[j])
                    <==> before[slots@[j]].descends_from(root)),
            forall|j: int| i <= j < slots@.len() ==> banks@.contains_key(#[trigger] slots@[j]),
        decreases slots@.len() - i,
    {
        assert(slots@.to_set().contains(slots@[i as int]));
        let retain = match banks.get(&slots[i]) {
            Some(bank) => bank.ancestors.contains(&root),
            None => true,
        };
        if !retain {
            banks.remove(&slots[i]);
        }
        i += 1;
    }
    proof {
        let kept = before.restrict(Set::new(|slot: Slot| before[slot].descends_from(root)));
        assert forall|slot: Slot| banks@.contains_key(slot) == #[trigger] kept.contains_key(
            slot,
        ) by {
            if before.contains_key(slot) {
                assert(slots@.to_set().contains(slot));
                let j = choose|j: int| 0 <= j < slots@.len() && slots@[j] == slot;
                assert(slots@[j] == slot);
            }
        }
        assert(banks@ =~= kept);
    }
}

/// The pending slots that descend from `root`.
fn pending_descendants(pending_slots: &Vec<Arc<PendingSlot>>, root: Slot) -> (kept: Vec<
    Arc<PendingSlot>,
>)
    ensures
        kept@ == descendants(pending_slots@, root),
{
    let mut kept: Vec<Arc<PendingSlot>> = Vec::new();
    let mut i: usize = 0;
    assert(descendants(pending_slots@.take(0), root) =~= Seq::empty()) by {
        reveal(Seq::filter);
    }
    while i < pending_slots.len()
        invariant
            i <= pending_slots@.len(),
            kept@ == descendants(pending_slots@.take(i as int), root),
        decreases pending_slots@.len() - i,
    {
        proof {
            reveal(Seq::filter);
            assert(pending_slots@.take(i + 1).drop_last() =~= pending_slots@.take(i as int));
        }
        if pending_slots[i].bank.ancestors.contains(&root) {
            kept.push(share(&pending_slots[i]));
        }
        i += 1;
    }
    assert(pending_slots@.take(i as int) =~= pending_slots@);
    kept
}

impl LoadFrozenForks {
    pub open spec fn wf(&self) -> bool {
        self@.wf()
    }

    /// Starts at a root. The ledger's own latest root is `blockstore_max_root`; processing
    /// stops at `dev_halt_at_slot`, if that is given.
    pub fn new(
        root_slot: Slot,
        blockstore_max_root: Slot,
        dev_halt_at_slot: Option<Slot>,
    ) -> (this: Self)
        ensures
            this.wf(),
            this@ == (ForksView {
                root: root_slot,
                max_root: if root_slot > blockstore_max_root {
                    root_slot
                } else {
                    blockstore_max_root
                },
                halt_at_slot: match dev_halt_at_slot {
                    Some(slot) => slot,
                    None => u64::MAX,
                },
                pending: Seq::empty(),
                initial_forks: Map::empty(),
                all_banks: Map::empty(),
            }),
    {
        let max_root = if root_slot > blockstore_max_root {
            root_slot
        } else {
            blockstore_max_root
        };
        let this = LoadFrozenForks {
            root: root_slot,
            max_root,
            halt_at_slot: match dev_halt_at_slot {
                Some(slot) => slot,
                None => u64::MAX,
            },
            pending_slots: Vec::new(),
            initial_forks: HashMap::new(),
            all_banks: HashMap::new(),
        };
        assert(this@.pending =~= Seq::empty());
        assert(this@.initial_forks =~= Map::empty());
        assert(this@.all_banks =~= Map::empty());
        this
    }

    pub fn root(&self) -> (root: Slot)
        ensures
            root == self@.root,
    {
        self.root
    }

    /// Whether the root depends on the cluster: the last known root of the ledger is reached.
    pub fn follows_cluster_root(&self) -> (follows: bool)
        ensures
            follows == (self@.root == self@.max_root),
    {
        self.root == self.max_root
    }

    fn insert_pending(&mut self, next: Arc<PendingSlot>)
        requires
            old(self).wf(),
        ensures
            final(self).wf(),
            final(self)@ == (ForksView {
                pending: insert_pending(old(self)@.pending, next),
                ..old(self)@
            }),
    {
        let slot = next.bank.slot;
        let mut i: usize = 0;
        while i < self.pending_slots.len() && self.pending_slots[i].bank.slot >= slot
            invariant
                i <= self.pending_slots@.len(),
                self == old(self),
                forall|j: int| 0 <= j < i ==> (#[trigger] self.pending_slots@[j]).spec_slot() >= slot,
            decreases self.pending_slots@.len() - i,
        {
            i += 1;
        }
        proof {
            lemma_pending_position(self.pending_slots@, slot, i as int);
        }
        self.pending_slots.insert(i, next);
    }

    /// Given a bank, add its children to the pending slots queue if those children slots are
    /// complete: `next` holds a slot for each of the complete ones.
    pub fn process_next_slots(&mut self, bank: Arc<BankInfo>, next: Vec<Arc<PendingSlot>>)
        requires
            old(self).wf(),
        ensures
            final(self).wf(),
            final(self)@ == old(self)@.process_next_slots(bank, next@),
    {
        let slot = bank.slot;
        let ghost before = self@;
        match bank.parent_slot {
            Some(parent_slot) => {
                self.initial_forks.remove(&parent_slot);
            },
            None => {},
        }
        self.initial_forks.insert(slot, bank);
        let ghost with_fork = self@;
        let mut i: usize = 0;
        assert(next@.take(0) =~= Seq::empty());
        while i < next.len()
            invariant
                i <= next@.len(),
                self.wf(),
                self@ == (ForksView {
                    pending: insert_all_pending(before.pending, next@.take(i as int)),
                    ..with_fork
                }),
            decreases next@.len() - i,
        {
            assert(next@.take(i + 1).drop_last() =~= next@.take(i as int));
            self.insert_pending(share(&next[i]));
            i += 1;
        }
        assert(next@.take(i as int) =~= next@);
    }

    /// The next slot to process: the earliest of those that wait.
    pub fn pop_pending(&mut self) -> (next: Option<Arc<PendingSlot>>)
        requires
            old(self).wf(),
        ensures
            final(self).wf(),
            match next {
                Some(next) => {
                    &&& old(self)@.pending.len() > 0
                    &&& next == old(self)@.pending.last()
                    &&& final(self)@ == (ForksView {
                        pending: old(self)@.pending.drop_last(),
                        ..old(self)@
                    })
                },
                None => old(self)@.pending.len() == 0 && final(self)@ == old(self)@,
            },
    {
        self.pending_slots.pop()
    }

    /// Whether a root that the cluster confirmed was replayed here, as a descendant of the
    /// last root. Anything else means that something is drastically wrong.
    pub fn can_be_root(&self, bank: &BankInfo, root: Slot) -> (possible: bool)
        ensures
            possible == (if bank.slot == root {
                bank.descends_from(self@.root)
            } else {
                self@.can_be_root(root)
            }),
    {
        if bank.slot == root {
            return bank.ancestors.contains(&self.root);
        }
        match self.all_banks.get(&root) {
            Some(root_bank) => root_bank.ancestors.contains(&self.root),
            None => false,
        }
    }

    /// A bank was processed. Returns the new root, if there is one now.
    pub fn slot_processed(
        &mut self,
        bank: Arc<BankInfo>,
        supermajority_root: Option<Slot>,
        is_root: bool,
    ) -> (new_root: Option<Slot>)
        requires
            old(self).wf(),
            old(self)@.root == old(self)@.max_root ==> (supermajority_root matches Some(root)
                ==> root > old(self)@.root ==> (ForksView {
                all_banks: old(self)@.all_banks.insert(bank.slot, bank),
                ..old(self)@
            }).can_be_root(root)),
        ensures
            final(self).wf(),
            new_root == old(self)@.new_root(bank.slot, supermajority_root, is_root),
            final(self)@ == old(self)@.processed(bank, supermajority_root, is_root),
    {
        let slot = bank.slot;
        self.all_banks.insert(slot, bank);
        let new_root: Option<Slot> = if self.root == self.max_root {
            match supermajority_root {
                Some(root) => {
                    if root > self.root {
                        Some(root)
                    } else {
                        None
                    }
                },
                None => None,
            }
        } else if is_root {
            Some(slot)
        } else {
            None
        };
        match new_root {
            Some(root) => {
                self.root = root;
                let ghost before = self@.pending;
                // Filter out all non descendants of the new root
                self.pending_slots = pending_descendants(&self.pending_slots, root);
                retain_descendants(&mut self.initial_forks, root);
                retain_descendants(&mut self.all_banks, root);
                proof {
                    lemma_filter_keeps_order(before, root);
                }
            },
            None => {},
        }
        new_root
    }

    /// Whether to stop after a slot.
    pub fn halts_after(&self, slot: Slot) -> (halts: bool)
        ensures
            halts == (slot >= self@.halt_at_slot),
    {
        slot >= self.halt_at_slot
    }

    /// The slots of the tips of the forks, in no particular order.
    pub fn fork_slots(&self) -> (slots: Vec<Slot>)
        ensures
            slots@.no_duplicates(),
            slots@.to_set() == self@.initial_forks.dom(),
    {
        slots_of(&self.initial_forks)
    }
}

/// Dropping pending slots keeps the others in order.
proof fn lemma_filter_keeps_order(pending: Seq<Arc<PendingSlot>>, root: Slot)
    requires
        latest_first(pending),
    ensures
        latest_first(descendants(pending, root)),
        forall|kept: Arc<PendingSlot>| #[trigger]
            descendants(pending, root).contains(kept) ==> pending.contains(kept) && kept.bank.descends_from(root),
    decreases pending.len(),
{
    reveal(Seq::filter);
    let all = descendants(pending, root);
    if pending.len() > 0 {
        let shorter = pending.drop_last();
        assert forall|i: int, j: int| 0 <= i < j < shorter.len() implies (
        #[trigger] shorter[i]).spec_slot() >= (#[trigger] shorter[j]).spec_slot() by {
            assert(shorter[i] == pending[i] && shorter[j] == pending[j]);
        }
        lemma_filter_keeps_order(shorter, root);
        let kept = descendants(shorter, root);
        assert forall|i: int, j: int| 0 <= i < j < all.len() implies (
        #[trigger] all[i]).spec_slot() >= (#[trigger] all[j]).spec_slot() by {
            if j < kept.len() {
                assert(kept[i] == all[i] && kept[j] == all[j]);
            } else {
                assert(kept.contains(kept[i]));
                assert(shorter.contains(kept[i]));
                let k = choose|k: int| 0 <= k < shorter.len() && shorter[k] == kept[i];
                assert(pending[k].spec_slot() >= pending[pending.len() - 1].spec_slot());
            }
        }
        assert forall|one: Arc<PendingSlot>| #[trigger] all.contains(one) implies pending.contains(
            one,
        ) && one.bank.descends_from(root) by {
            let k = choose|k: int| 0 <= k < all.len() && all[k] == one;
            if k < kept.len() {
                assert(kept[k] == one);
                assert(kept.contains(one));
                let m = choose|m: int| 0 <= m < shorter.len() && shorter[m] == one;
                assert(pending[m] == one);
            } else {
                assert(pending[pending.len() - 1] == one);
            }
        }
    }
}

/// Putting slots among pending ones keeps them in order.
proof fn lemma_insert_all_keeps_order(
    pending: Seq<Arc<PendingSlot>>,
    next: Seq<Arc<PendingSlot>>,
)
    requires
        latest_first(pending),
    ensures
        latest_first(insert_all_pending(pending, next)),
    decreases next.len(),
{
    if next.len() > 0 {
        let front = insert_all_pending(pending, next.drop_last());
        lemma_insert_all_keeps_order(pending, next.drop_last());
        lemma_position_bounds(front, next.last().spec_slot());
    }
}

/// A slot goes behind those that are not earlier, and in front of an earlier one.
pub proof fn lemma_position_bounds(pending: Seq<Arc<PendingSlot>>, slot: Slot)
    ensures
        pending_position(pending, slot) <= pending.len(),
        forall|i: int|
            0 <= i < pending_position(pending, slot) ==> (#[trigger] pending[i]).spec_slot()
                >= slot,
        pending_position(pending, slot) < pending.len() ==> pending[pending_position(
            pending,
            slot,
        ) as int].spec_slot() < slot,
    decreases pending.len(),
{
    if pending.len() > 0 && pending[0].spec_slot() >= slot {
        let rest = pending.drop_first();
        lemma_position_bounds(rest, slot);
        assert forall|i: int| 0 <= i < pending_position(pending, slot) implies (
        #[trigger] pending[i]).spec_slot() >= slot by {
            if i > 0 {
                assert(rest[i - 1] == pending[i]);
            }
        }
    }
}

pub proof fn lemma_process_next_slots_keeps_wf(
    forks: ForksView,
    bank: Arc<BankInfo>,
    next: Seq<Arc<PendingSlot>>,
)
    requires
        forks.wf(),
    ensures
        forks.process_next_slots(bank, next).wf(),
{
    lemma_insert_all_keeps_order(forks.pending, next);
}

pub proof fn lemma_set_root_keeps_wf(forks: ForksView, root: Slot)
    requires
        forks.wf(),
    ensures
        forks.set_root(root).wf(),
{
    lemma_filter_keeps_order(forks.pending, root);
}

pub proof fn lemma_processed_keeps_wf(
    forks: ForksView,
    bank: Arc<BankInfo>,
    supermajority_root: Option<Slot>,
    is_root: bool,
)
    requires
        forks.wf(),
    ensures
        forks.processed(bank, supermajority_root, is_root).wf(),
{
    match forks.new_root(bank.slot, supermajority_root, is_root) {
        Some(root) => {
            let with_bank = ForksView {
                all_banks: forks.all_banks.insert(bank.slot, bank),
                ..forks
            };
            lemma_set_root_keeps_wf(with_bank, root);
        },
        None => {},
    }
}

/// The slot that is processed next is the earliest of those that wait.
pub proof fn law_earliest_slot_is_next(forks: ForksView, i: int)
    requires
        forks.wf(),
        0 <= i < forks.pending.len(),
    ensures
        forks.pending.last().spec_slot() <= forks.pending[i].spec_slot(),
{
}

/// Once there is a new root, every fork, every bank and every slot that waits stands on it or
/// descends from it.
pub proof fn law_all_descend_from_new_root(
    forks: ForksView,
    bank: Arc<BankInfo>,
    supermajority_root: Option<Slot>,
    is_root: bool,
    root: Slot,
)
    requires
        forks.wf(),
        forks.new_root(bank.slot, supermajority_root, is_root) == Some(root),
    ensures
        ({
            let after = forks.processed(bank, supermajority_root, is_root);
            &&& after.root == root
            &&& forall|i: int|
                0 <= i < after.pending.len() ==> (
                #[trigger] after.pending[i]).bank.descends_from(root)
            &&& forall|slot: Slot| #[trigger]
                after.initial_forks.contains_key(slot) ==> after.initial_forks[slot].descends_from(
                    root,
                )
            &&& forall|slot: Slot| #[trigger]
                after.all_banks.contains_key(slot) ==> after.all_banks[slot].descends_from(root)
        }),
{
    let after = forks.processed(bank, supermajority_root, is_root);
    lemma_filter_keeps_order(forks.pending, root);
    assert forall|i: int| 0 <= i < after.pending.len() implies (
    #[trigger] after.pending[i]).bank.descends_from(root) by {
        assert(after.pending.contains(after.pending[i]));
    }
}

/// A root that the cluster confirmed is later than the one before.
pub proof fn law_cluster_root_advances(
    forks: ForksView,
    slot: Slot,
    supermajority_root: Option<Slot>,
    is_root: bool,
)
    requires
        forks.root == forks.max_root,
        forks.new_root(slot, supermajority_root, is_root) is Some,
    ensures
        forks.new_root(slot, supermajority_root, is_root) == supermajority_root,
        forks.new_root(slot, supermajority_root, is_root)->Some_0 > forks.root,
{
}

/// A bank that was processed is the tip of its fork, and its parent no longer is.
pub proof fn law_fork_tip_replaces_parent(
    forks: ForksView,
    bank: Arc<BankInfo>,
    next: Seq<Arc<PendingSlot>>,
    parent: Slot,
)
    requires
        bank.parent_slot == Some(parent),
        parent != bank.slot,
    ensures
        forks.process_next_slots(bank, next).initial_forks.contains_key(bank.slot),
        !forks.process_next_slots(bank, next).initial_forks.contains_key(parent),
        forall|slot: Slot|
            slot != parent && slot != bank.slot ==> (#[trigger] forks.process_next_slots(
                bank,
                next,
            ).initial_forks.contains_key(slot) == forks.initial_forks.contains_key(slot)),
{
}

/// Setting a root keeps what stands on it or descends from it, at whatever distance, and drops
/// the rest: of the slots that wait, as often as they wait and in the same order; of the tips and
/// of the banks, each with what is known of it.
pub proof fn law_new_root_keeps_all_descendants(forks: ForksView, root: Slot)
    ensures
        ({
            let after = forks.set_root(root);
            &&& after.root == root
            &&& after.max_root == forks.max_root
            &&& after.halt_at_slot == forks.halt_at_slot
            &&& forall|i: int|
                0 <= i < forks.pending.len() && (
                #[trigger] forks.pending[i]).bank.ancestors@.contains(root)
                    ==> after.pending.contains(forks.pending[i])
            &&& forall|one: Arc<PendingSlot>| #[trigger]
                after.pending.to_multiset().count(one) == if one.bank.ancestors@.contains(root) {
                    forks.pending.to_multiset().count(one)
                } else {
                    0
                }
            &&& after.pending == forks.pending.filter(
                |one: Arc<PendingSlot>| one.bank.ancestors@.contains(root),
            )
            &&& forall|slot: Slot| #[trigger]
                after.initial_forks.contains_key(slot) <==> forks.initial_forks.contains_key(slot)
                    && forks.initial_forks[slot].ancestors@.contains(root)
            &&& forall|slot: Slot| #[trigger]
                after.initial_forks.contains_key(slot) ==> after.initial_forks[slot]
                    == forks.initial_forks[slot]
            &&& forall|slot: Slot| #[trigger]
                after.all_banks.contains_key(slot) <==> forks.all_banks.contains_key(slot)
                    && forks.all_banks[slot].ancestors@.contains(root)
            &&& forall|slot: Slot| #[trigger]
                after.all_banks.contains_key(slot) ==> after.all_banks[slot]
                    == forks.all_banks[slot]
        }),
{
    broadcast use vstd::seq_lib::group_to_multiset_ensures;

    let after = forks.set_root(root);
    assert forall|one: Arc<PendingSlot>| #[trigger]
        after.pending.to_multiset().count(one) == if one.bank.ancestors@.contains(root) {
            forks.pending.to_multiset().count(one)
        } else {
            0
        } by {
        lemma_descendants_counted(forks.pending, root, one);
    }
    assert forall|i: int|
        0 <= i < forks.pending.len() && (#[trigger] forks.pending[i]).bank.ancestors@.contains(
            root,
        ) implies after.pending.contains(forks.pending[i]) by {
        assert(forks.pending.contains(forks.pending[i]));
        assert(forks.pending.to_multiset().count(forks.pending[i]) > 0);
        assert(after.pending.to_multiset().count(forks.pending[i]) > 0);
    }
    let raw = |one: Arc<PendingSlot>| one.bank.ancestors@.contains(root);
    lemma_same_filter(
        forks.pending,
        |one: Arc<PendingSlot>| one.bank.descends_from(root),
        raw,
    );
}

proof fn lemma_same_filter<T>(items: Seq<T>, one: spec_fn(T) -> bool, other: spec_fn(T) -> bool)
    requires
        forall|item: T| #[trigger] one(item) == other(item),
    ensures
        items.filter(one) == items.filter(other),
    decreases items.len(),
{
    reveal(Seq::filter);
    if items.len() > 0 {
        lemma_same_filter(items.drop_last(), one, other);
        assert(one(items.last()) == other(items.last()));
    }
}

proof fn lemma_descendants_counted(
    pending: Seq<Arc<PendingSlot>>,
    root: Slot,
    one: Arc<PendingSlot>,
)
    ensures
        descendants(pending, root).to_multiset().count(one) == if one.bank.ancestors@.contains(
            root,
        ) {
            pending.to_multiset().count(one)
        } else {
            0
        },
    decreases pending.len(),
{
    broadcast use vstd::seq_lib::group_to_multiset_ensures;

    reveal(Seq::filter);
    if pending.len() > 0 {
        lemma_descendants_counted(pending.drop_last(), root, one);
        assert(pending =~= pending.drop_last().push(pending.last()));
    } else {
        assert(descendants(pending, root) =~= Seq::empty());
        assert(pending =~= Seq::empty());
    }
}

/// A replayed bank is known from then on. Once the ledger's latest root is reached, a later root
/// that the cluster confirmed becomes the root; until then the bank itself does where the ledger
/// holds it as a root. With a new root what descends from it is kept, and without one everything
/// is.
pub proof fn law_processed_bank_brings_root(
    forks: ForksView,
    bank: Arc<BankInfo>,
    supermajority_root: Option<Slot>,
    is_root: bool,
)
    ensures
        ({
            let after = forks.processed(bank, supermajority_root, is_root);
            let found = forks.new_root(bank.slot, supermajority_root, is_root);
            &&& forks.root == forks.max_root ==> {
                &&& found is Some <==> supermajority_root is Some && supermajority_root->Some_0
                    > forks.root
                &&& found is Some ==> found == supermajority_root
            }
            &&& forks.root != forks.max_root ==> {
                &&& found is Some <==> is_root
                &&& found is Some ==> found == Some(bank.slot)
            }
            &&& after.max_root == forks.max_root
            &&& after.halt_at_slot == forks.halt_at_slot
            &&& found is None ==> {
                &&& after.root == forks.root
                &&& after.pending == forks.pending
                &&& after.initial_forks == forks.initial_forks
                &&& after.all_banks == forks.all_banks.insert(bank.slot, bank)
            }
            &&& found matches Some(root) ==> {
                &&& after.root == root
                &&& after.pending == forks.pending.filter(
                    |one: Arc<PendingSlot>| one.bank.ancestors@.contains(root),
                )
                &&& forall|slot: Slot| #[trigger]
                    after.initial_forks.contains_key(slot) <==> forks.initial_forks.contains_key(
                        slot,
                    ) && forks.initial_forks[slot].ancestors@.contains(root)
                &&& forall|slot: Slot| #[trigger]
                    after.initial_forks.contains_key(slot) ==> after.initial_forks[slot]
                        == forks.initial_forks[slot]
                &&& forall|slot: Slot|
                    slot != bank.slot ==> (#[trigger] after.all_banks.contains_key(slot)
                        <==> forks.all_banks.contains_key(slot)
                        && forks.all_banks[slot].ancestors@.contains(root))
                &&& after.all_banks.contains_key(bank.slot) <==> bank.ancestors@.contains(root)
                &&& forall|slot: Slot| #[trigger]
                    after.all_banks.contains_key(slot) ==> after.all_banks[slot] == if slot
                        == bank.slot {
                        bank
                    } else {
                        forks.all_banks[slot]
                    }
            }
        }),
{
    if let Some(root) = forks.new_root(bank.slot, supermajority_root, is_root) {
        let with_bank = ForksView { all_banks: forks.all_banks.insert(bank.slot, bank), ..forks };
        law_new_root_keeps_all_descendants(with_bank, root);
    }
}

/// Every slot that waited still waits when slots that follow on a bank are added, and all of
/// these wait too; those of one slot in the order in which they came. The root and the banks
/// that were processed stay as they are.
pub proof fn law_added_slots_wait(
    forks: ForksView,
    bank: Arc<BankInfo>,
    next: Seq<Arc<PendingSlot>>,
    slot: Slot,
)
    requires
        forks.wf(),
    ensures
        ({
            let after = forks.process_next_slots(bank, next);
            let of_slot = |one: Arc<PendingSlot>| one.bank.slot == slot;
            &&& after.root == forks.root
            &&& after.max_root == forks.max_root
            &&& after.halt_at_slot == forks.halt_at_slot
            &&& after.all_banks == forks.all_banks
            &&& after.initial_forks.contains_key(bank.slot)
            &&& after.initial_forks[bank.slot] == bank
            &&& after.pending.to_multiset() == forks.pending.to_multiset().add(next.to_multiset())
            &&& after.pending.filter(of_slot) == forks.pending.filter(of_slot) + next.filter(
                of_slot,
            )
        }),
{
    lemma_insert_all_counted(forks.pending, next);
    lemma_insert_all_of_slot(forks.pending, next, slot);
}

pub proof fn lemma_insert_all_counted(
    pending: Seq<Arc<PendingSlot>>,
    next: Seq<Arc<PendingSlot>>,
)
    ensures
        insert_all_pending(pending, next).to_multiset() == pending.to_multiset().add(
            next.to_multiset(),
        ),
    decreases next.len(),
{
    broadcast use vstd::seq_lib::group_to_multiset_ensures;

    if next.len() > 0 {
        let front = insert_all_pending(pending, next.drop_last());
        lemma_insert_all_counted(pending, next.drop_last());
        lemma_position_bounds(front, next.last().spec_slot());
        vstd::seq_lib::to_multiset_insert(
            front,
            pending_position(front, next.last().spec_slot()) as int,
            next.last(),
        );
        assert(next =~= next.drop_last().push(next.last()));
        assert(insert_all_pending(pending, next).to_multiset() =~= pending.to_multiset().add(
            next.to_multiset(),
        ));
    } else {
        assert(next =~= Seq::empty());
        assert(pending.to_multiset().add(next.to_multiset()) =~= pending.to_multiset());
    }
}

proof fn lemma_insert_all_of_slot(
    pending: Seq<Arc<PendingSlot>>,
    next: Seq<Arc<PendingSlot>>,
    slot: Slot,
)
    requires
        latest_first(pending),
    ensures
        insert_all_pending(pending, next).filter(|one: Arc<PendingSlot>| one.bank.slot == slot)
            == pending.filter(|one: Arc<PendingSlot>| one.bank.slot == slot) + next.filter(
            |one: Arc<PendingSlot>| one.bank.slot == slot,
        ),
    decreases next.len(),
{
    reveal(Seq::filter);
    let of_slot = |one: Arc<PendingSlot>| one.bank.slot == slot;
    if next.len() > 0 {
        let shorter = next.drop_last();
        let last = next.last();
        let front = insert_all_pending(pending, shorter);
        lemma_insert_all_of_slot(pending, shorter, slot);
        lemma_insert_all_keeps_order(pending, shorter);
        lemma_position_bounds(front, last.spec_slot());
        let at = pending_position(front, last.spec_slot()) as int;
        let before = front.take(at);
        let after = front.skip(at);
        assert(front =~= before + after);
        assert(front.insert(at, last) =~= before.push(last) + after);
        Seq::filter_distributes_over_add(before, after, of_slot);
        Seq::filter_distributes_over_add(before.push(last), after, of_slot);
        assert(before.push(last).drop_last() =~= before);
        if of_slot(last) {
            assert forall|i: int| 0 <= i < after.len() implies !of_slot(#[trigger] after[i]) by {
                assert(after[i] == front[at + i]);
                if i > 0 {
                    assert(front[at].spec_slot() >= front[at + i].spec_slot());
                }
            }
            lemma_none_kept(after, of_slot);
            assert(front.insert(at, last).filter(of_slot) =~= front.filter(of_slot).push(last));
            assert(pending.filter(of_slot) + next.filter(of_slot) =~= (pending.filter(of_slot)
                + shorter.filter(of_slot)).push(last));
        }
    } else {
        assert(next.filter(of_slot) =~= Seq::empty());
        assert(pending.filter(of_slot) + next.filter(of_slot) =~= pending.filter(of_slot));
    }
}

proof fn lemma_none_kept(items: Seq<Arc<PendingSlot>>, keep: spec_fn(Arc<PendingSlot>) -> bool)
    requires
        forall|i: int| 0 <= i < items.len() ==> !keep(#[trigger] items[i]),
    ensures
        items.filter(keep) == Seq::<Arc<PendingSlot>>::empty(),
    decreases items.len(),
{
    reveal(Seq::filter);
    if items.len() > 0 {
        let shorter = items.drop_last();
        assert forall|i: int| 0 <= i < shorter.len() implies !keep(#[trigger] shorter[i]) by {
            assert(shorter[i] == items[i]);
        }
        lemma_none_kept(shorter, keep);
        assert(items.last() == items[items.len() - 1]);
    }
}

/// Of slots that are looked up, those are full that the ledger says are, each by itself and in
/// order.
pub proof fn law_full_slots_are_found<L>(
    slots: Seq<Slot>,
    metas: Seq<Result<Option<SlotMetaInfo>, L>>,
    more: Seq<Slot>,
    more_metas: Seq<Result<Option<SlotMetaInfo>, L>>,
    slot: Slot,
    meta: Result<Option<SlotMetaInfo>, L>,
)
    requires
        slots.len() == metas.len(),
        more.len() == more_metas.len(),
    ensures
        full_among(seq![slot], seq![meta]) == if meta matches Ok(Some(info)) && info.is_full {
            seq![slot]
        } else {
            Seq::<Slot>::empty()
        },
        full_among(slots + more, metas + more_metas) == full_among(slots, metas) + full_among(
            more,
            more_metas,
        ),
        forall|i: int|
            0 <= i < slots.len() && (metas[i] matches Ok(Some(info)) && info.is_full)
                ==> full_among(slots, metas).contains(#[trigger] slots[i]),
    decreases more.len(), slots.len(),
{
    assert(seq![slot].drop_last() =~= Seq::empty());
    assert(full_among(Seq::<Slot>::empty(), seq![meta].drop_last()) =~= Seq::empty());
    assert(full_among(seq![slot], seq![meta]) =~= if meta matches Ok(Some(info)) && info.is_full {
        seq![slot]
    } else {
        Seq::<Slot>::empty()
    });
    if more.len() == 0 {
        assert(slots + more =~= slots);
        assert(metas + more_metas =~= metas);
        assert(full_among(slots, metas) + full_among(more, more_metas) =~= full_among(
            slots,
            metas,
        ));
        if slots.len() > 0 {
            law_full_slots_are_found(
                slots.drop_last(),
                metas.drop_last(),
                more,
                more_metas,
                slot,
                meta,
            );
            let rest = full_among(slots.drop_last(), metas.drop_last());
            let all = full_among(slots, metas);
            assert forall|i: int|
                0 <= i < slots.len() && (metas[i] matches Ok(Some(info))
                    && info.is_full) implies all.contains(#[trigger] slots[i]) by {
                if i < slots.len() - 1 {
                    assert(slots.drop_last()[i] == slots[i]);
                    assert(metas.drop_last()[i] == metas[i]);
                    let k = choose|k: int| 0 <= k < rest.len() && rest[k] == slots[i];
                    assert(all[k] == slots[i]);
                } else {
                    assert(all[all.len() - 1] == slots[i]);
                }
            }
        }
    } else {
        law_full_slots_are_found(
            slots,
            metas,
            more.drop_last(),
            more_metas.drop_last(),
            slot,
            meta,
        );
        assert((slots + more).drop_last() =~= slots + more.drop_last());
        assert((metas + more_metas).drop_last() =~= metas + more_metas.drop_last());
        assert((metas + more_metas).last() == more_metas.last());
        assert((slots + more).last() == more.last());
        assert(full_among(slots + more, metas + more_metas) =~= full_among(slots, metas)
            + full_among(more, more_metas));
    }
}

/// A root that the cluster confirmed can be the root exactly where its bank was replayed here and
/// has the last root among its ancestors.
pub proof fn law_only_replayed_descendants_can_be_root(forks: ForksView, root: Slot)
    ensures
        forks.can_be_root(root) <==> forks.all_banks.contains_key(root)
            && forks.all_banks[root].ancestors@.contains(forks.root),
{
}

} // verus!
