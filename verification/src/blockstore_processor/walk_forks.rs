//! Replays the slots of a ledger fork by fork, from a root on.

use std::sync::Arc;

use vstd::prelude::*;

use super::load_frozen_forks::found_until_failure;
use super::load_frozen_forks::full_among;
use super::load_frozen_forks::full_next_slots;
use super::load_frozen_forks::law_processed_bank_brings_root;
use super::load_frozen_forks::lemma_insert_all_counted;
use super::load_frozen_forks::lemma_process_next_slots_keeps_wf;
use super::load_frozen_forks::lemma_processed_keeps_wf;
use super::load_frozen_forks::BankInfo;
use super::load_frozen_forks::ForksView;
use super::load_frozen_forks::LoadFrozenForks;
use super::load_frozen_forks::PendingSlot;
use super::load_frozen_forks::SlotMetaInfo;
use super::BlockstoreProcessorError;
use crate::clock::Slot;
use crate::collections::share;

verus! {

/// What is being waited for.
#[derive(Clone, Copy, Debug, PartialEq, Eq, Structural)]
pub enum WalkPhase {
    Start,
    /// what the ledger holds of the slots that follow on the bank at hand
    Metas,
    /// banks for those of them that are full
    Banks,
    /// the replay of the bank at hand
    Process,
    /// what the root depends on
    Root,
    /// the change of the root
    SetRoot,
    Finished,
}

/// What happened outside.
pub enum WalkEvent<L> {
    Started,
    /// what the ledger gave for each of the slots
    Metas(Vec<Result<Option<SlotMetaInfo>, L>>),
    /// a bank for each of the slots
    Banks(Vec<Arc<PendingSlot>>),
    /// whether the replay succeeded
    Processed(bool),
    /// the root that a supermajority has reached, and whether the ledger holds the slot at hand
    /// as a root
    RootFound { supermajority_root: Option<Slot>, is_root: bool },
    RootSet,
}

/// What to do outside.
pub enum WalkAction<L, E> {
    /// load what the ledger holds of the slots
    LoadMetas { slots: Vec<Slot> },
    /// create a bank for each of the slots, on top of the bank at hand
    CreateBanks { slots: Vec<Slot> },
    /// replay a slot
    Process(Arc<PendingSlot>),
    /// find the root that a supermajority has reached, where that is followed, and whether the
    /// ledger holds the slot at hand as a root
    FindRoot { follows_cluster_root: bool },
    /// make the bank of the slot the root
    SetRoot(Slot),
    /// the slots of the tips of the forks, in no particular order
    Done(Result<Vec<Slot>, BlockstoreProcessorError<L, E>>),
}

/// The meaning of a `WalkAction`.
pub enum WalkActionView<L, E> {
    LoadMetas { slots: Seq<Slot> },
    CreateBanks { slots: Seq<Slot> },
    Process(Arc<PendingSlot>),
    FindRoot { follows_cluster_root: bool },
    SetRoot(Slot),
    Done(Result<Set<Slot>, BlockstoreProcessorError<L, E>>),
}

impl<L, E> View for WalkAction<L, E> {
    type V = WalkActionView<L, E>;

    open spec fn view(&self) -> WalkActionView<L, E> {
        match *self {
            WalkAction::LoadMetas { slots } => WalkActionView::LoadMetas { slots: slots@ },
            WalkAction::CreateBanks { slots } => WalkActionView::CreateBanks { slots: slots@ },
            WalkAction::Process(pending) => WalkActionView::Process(pending),
            WalkAction::FindRoot { follows_cluster_root } => WalkActionView::FindRoot {
                follows_cluster_root,
            },
            WalkAction::SetRoot(root) => WalkActionView::SetRoot(root),
            WalkAction::Done(Ok(slots)) => WalkActionView::Done(Ok(slots@.to_set())),
            WalkAction::Done(Err(err)) => WalkActionView::Done(Err(err)),
        }
    }
}

/// The state of a walk.
#[verifier::ext_equal]
pub struct WalkView {
    pub forks: ForksView,
    /// the bank at hand
    pub bank: Arc<BankInfo>,
    /// the slots that follow on it
    pub next_slots: Seq<Slot>,
    /// those that banks are being created for
    pub full_slots: Seq<Slot>,
    /// whether the bank at hand was replayed here, which the first one was before
    pub replayed: bool,
    pub phase: WalkPhase,
}

impl WalkView {
    pub open spec fn wf(self) -> bool {
        self.forks.wf()
    }

    /// An event can be the answer to what is being waited for.
    pub open spec fn expects<L>(self, event: WalkEvent<L>) -> bool {
        match event {
            WalkEvent::Started => self.phase is Start,
            WalkEvent::Metas(metas) => {
                &&& self.phase is Metas
                &&& metas@.len() == self.next_slots.len()
                &&& found_until_failure(metas@)
            },
            WalkEvent::Banks(banks) => {
                &&& self.phase is Banks
                &&& banks@.len() == self.full_slots.len()
                &&& forall|i: int|
                    0 <= i < banks@.len() ==> (#[trigger] banks@[i]).spec_slot()
                        == self.full_slots[i]
            },
            WalkEvent::Processed(_) => self.phase is Process,
            WalkEvent::RootFound { supermajority_root, .. } => {
                &&& self.phase is Root
                &&& self.forks.root == self.forks.max_root ==> (supermajority_root matches Some(
                    root,
                ) ==> root > self.forks.root ==> (ForksView {
                    all_banks: self.forks.all_banks.insert(self.bank.slot, self.bank),
                    ..self.forks
                }).can_be_root(root))
            },
            WalkEvent::RootSet => self.phase is SetRoot,
        }
    }

    pub open spec fn to_phase(self, phase: WalkPhase) -> WalkView {
        WalkView { phase, ..self }
    }

    /// The earliest slot that waits is replayed next; where none waits, the walk is over.
    pub open spec fn process_next<L, E>(self) -> (WalkView, WalkActionView<L, E>) {
        if self.forks.pending.len() == 0 {
            (
                self.to_phase(WalkPhase::Finished),
                WalkActionView::Done(Ok(self.forks.initial_forks.dom())),
            )
        } else {
            let next = self.forks.pending.last();
            (
                WalkView {
                    forks: ForksView { pending: self.forks.pending.drop_last(), ..self.forks },
                    bank: next.bank,
                    next_slots: next.next_slots@,
                    replayed: true,
                    phase: WalkPhase::Process,
                    ..self
                },
                WalkActionView::Process(next),
            )
        }
    }

    /// Slots that follow on the bank at hand wait for their turn, and the bank becomes the tip
    /// of its fork. After the slot at which to halt, the walk is over.
    pub open spec fn add_next<L, E>(self, next: Seq<Arc<PendingSlot>>) -> (
        WalkView,
        WalkActionView<L, E>,
    ) {
        let added = WalkView { forks: self.forks.process_next_slots(self.bank, next), ..self };
        if self.replayed && self.bank.slot >= self.forks.halt_at_slot {
            (
                added.to_phase(WalkPhase::Finished),
                WalkActionView::Done(Ok(added.forks.initial_forks.dom())),
            )
        } else {
            added.process_next()
        }
    }

    /// The slots that follow on the bank at hand are looked up.
    pub open spec fn look_up<L, E>(self) -> (WalkView, WalkActionView<L, E>) {
        if self.next_slots.len() == 0 {
            self.add_next(Seq::empty())
        } else {
            (
                self.to_phase(WalkPhase::Metas),
                WalkActionView::LoadMetas { slots: self.next_slots },
            )
        }
    }

    /// What follows an event.
    pub open spec fn step<L, E>(self, event: WalkEvent<L>) -> (WalkView, WalkActionView<L, E>) {
        match event {
            WalkEvent::Started => self.look_up(),
            WalkEvent::Metas(metas) => if exists|i: int|
                0 <= i < metas@.len() && (#[trigger] metas@[i]) is Err {
                (
                    self.to_phase(WalkPhase::Finished),
                    WalkActionView::Done(Err(BlockstoreProcessorError::FailedToLoadMeta)),
                )
            } else {
                // Only full slots are replayed here, partials are left for later
                let full = full_among(self.next_slots, metas@);
                (
                    WalkView { full_slots: full, phase: WalkPhase::Banks, ..self },
                    WalkActionView::CreateBanks { slots: full },
                )
            },
            WalkEvent::Banks(banks) => self.add_next(banks@),
            WalkEvent::Processed(succeeded) => if succeeded {
                (
                    self.to_phase(WalkPhase::Root),
                    WalkActionView::FindRoot {
                        follows_cluster_root: self.forks.root == self.forks.max_root,
                    },
                )
            } else {
                self.process_next()
            },
            WalkEvent::RootFound { supermajority_root, is_root } => {
                let next = WalkView {
                    forks: self.forks.processed(self.bank, supermajority_root, is_root),
                    ..self
                };
                match self.forks.new_root(self.bank.slot, supermajority_root, is_root) {
                    Some(root) => (
                        next.to_phase(WalkPhase::SetRoot),
                        WalkActionView::SetRoot(root),
                    ),
                    None => next.look_up(),
                }
            },
            WalkEvent::RootSet => self.look_up(),
        }
    }
}

/// Replays the slots of a ledger fork by fork, from a root on.
pub struct WalkForks {
    forks: LoadFrozenForks,
    bank: Arc<BankInfo>,
    next_slots: Vec<Slot>,
    full_slots: Vec<Slot>,
    replayed: bool,
    phase: WalkPhase,
}

impl View for WalkForks {
    type V = WalkView;

    closed spec fn view(&self) -> WalkView {
        WalkView {
            forks: self.forks@,
            bank: self.bank,
            next_slots: self.next_slots@,
            full_slots: self.full_slots@,
            replayed: self.replayed,
            phase: self.phase,
        }
    }
}

fn copy_slots(slots: &Vec<Slot>) -> (copy: Vec<Slot>)
    ensures
        copy@ == slots@,
{
    let mut copy: Vec<Slot> = Vec::new();
    let mut i: usize = 0;
    while i < slots.len()
        invariant
            i <= slots@.len(),
            copy@ == slots@.take(i as int),
        decreases slots@.len() - i,
    {
        copy.push(slots[i]);
        i += 1;
        assert(copy@ =~= slots@.take(i as int));
    }
    assert(copy@ =~= slots@);
    copy
}

impl WalkForks {
    pub open spec fn wf(&self) -> bool {
        self@.wf()
    }

    /// Starts at the bank of a root, on which slots follow. The ledger's own latest root is
    /// `blockstore_max_root`; the walk ends at `dev_halt_at_slot`, if that is given.
    pub fn new(
        root_bank: Arc<BankInfo>,
        next_slots: Vec<Slot>,
        blockstore_max_root: Slot,
        dev_halt_at_slot: Option<Slot>,
    ) -> (this: Self)
        ensures
            this.wf(),
            this@ == (WalkView {
                forks: ForksView {
                    root: root_bank.slot,
                    max_root: if root_bank.slot > blockstore_max_root {
                        root_bank.slot
                    } else {
                        blockstore_max_root
                    },
                    halt_at_slot: match dev_halt_at_slot {
                        Some(slot) => slot,
                        None => u64::MAX,
                    },
                    pending: Seq::empty(),
                    initial_forks: Map::empty(),
                    all_banks: Map::empty(),
                },
                bank: root_bank,
                next_slots: next_slots@,
                full_slots: Seq::empty(),
                replayed: false,
                phase: WalkPhase::Start,
            }),
    {
        let this = WalkForks {
            forks: LoadFrozenForks::new(root_bank.slot, blockstore_max_root, dev_halt_at_slot),
            bank: root_bank,
            next_slots,
            full_slots: Vec::new(),
            replayed: false,
            phase: WalkPhase::Start,
        };
        assert(this@.full_slots =~= Seq::empty());
        this
    }

    /// The root so far.
    pub fn root(&self) -> (root: Slot)
        ensures
            root == self@.forks.root,
    {
        self.forks.root()
    }

    /// Whether a root that the cluster confirmed was replayed here, as a descendant of the
    /// last root. Anything else means that something is drastically wrong.
    pub fn can_be_root(&self, root: Slot) -> (possible: bool)
        ensures
            possible == (ForksView {
                all_banks: self@.forks.all_banks.insert(self@.bank.slot, self@.bank),
                ..self@.forks
            }).can_be_root(root),
    {
        self.forks.can_be_root(&self.bank, root)
    }

    fn finish<L, E>(&mut self) -> (action: WalkAction<L, E>)
        ensures
            final(self)@ == old(self)@.to_phase(WalkPhase::Finished),
            action@ == WalkActionView::<L, E>::Done(Ok(old(self)@.forks.initial_forks.dom())),
            action matches WalkAction::Done(Ok(slots)) && slots@.no_duplicates(),
    {
        self.phase = WalkPhase::Finished;
        WalkAction::Done(Ok(self.forks.fork_slots()))
    }

    fn process_next<L, E>(&mut self) -> (action: WalkAction<L, E>)
        requires
            old(self).wf(),
        ensures
            final(self).wf(),
            (final(self)@, action@) == old(self)@.process_next::<L, E>(),
            action matches WalkAction::Done(Ok(slots)) ==> slots@.no_duplicates(),
    {
        match self.forks.pop_pending() {
            None => self.finish(),
            Some(pending) => {
                self.bank = share(&pending.bank);
                self.next_slots = copy_slots(&pending.next_slots);
                self.replayed = true;
                self.phase = WalkPhase::Process;
                WalkAction::Process(pending)
            },
        }
    }

    fn add_next<L, E>(&mut self, next: Vec<Arc<PendingSlot>>) -> (action: WalkAction<L, E>)
        requires
            old(self).wf(),
        ensures
            final(self).wf(),
            (final(self)@, action@) == old(self)@.add_next::<L, E>(next@),
            action matches WalkAction::Done(Ok(slots)) ==> slots@.no_duplicates(),
    {
        let halts = self.replayed && self.forks.halts_after(self.bank.slot);
        self.forks.process_next_slots(share(&self.bank), next);
        if halts {
            self.finish()
        } else {
            self.process_next()
        }
    }

    fn look_up<L, E>(&mut self) -> (action: WalkAction<L, E>)
        requires
            old(self).wf(),
        ensures
            final(self).wf(),
            (final(self)@, action@) == old(self)@.look_up::<L, E>(),
            action matches WalkAction::Done(Ok(slots)) ==> slots@.no_duplicates(),
    {
        if self.next_slots.len() == 0 {
            let none: Vec<Arc<PendingSlot>> = Vec::new();
            assert(none@ =~= Seq::empty());
            self.add_next(none)
        } else {
            self.phase = WalkPhase::Metas;
            WalkAction::LoadMetas { slots: copy_slots(&self.next_slots) }
        }
    }

    /// Takes in what happened outside and says what to do next.
    pub fn step<L, E>(&mut self, event: WalkEvent<L>) -> (action: WalkAction<L, E>)
        requires
            old(self).wf(),
            old(self)@.expects(event),
        ensures
            final(self).wf(),
            (final(self)@, action@) == old(self)@.step::<L, E>(event),
            action matches WalkAction::Done(Ok(slots)) ==> slots@.no_duplicates(),
    {
        match event {
            WalkEvent::Started => self.look_up(),
            WalkEvent::Metas(metas) => {
                match full_next_slots(self.next_slots.as_slice(), metas.as_slice()) {
                    Err(err) => {
                        self.phase = WalkPhase::Finished;
                        WalkAction::Done(Err(err))
                    },
                    Ok(full) => {
                        self.full_slots = copy_slots(&full);
                        self.phase = WalkPhase::Banks;
                        WalkAction::CreateBanks { slots: full }
                    },
                }
            },
            WalkEvent::Banks(banks) => self.add_next(banks),
            WalkEvent::Processed(succeeded) => {
                if succeeded {
                    self.phase = WalkPhase::Root;
                    WalkAction::FindRoot {
                        follows_cluster_root: self.forks.follows_cluster_root(),
                    }
                } else {
                    self.process_next()
                }
            },
            WalkEvent::RootFound { supermajority_root, is_root } => {
                match self.forks.slot_processed(share(&self.bank), supermajority_root, is_root) {
                    Some(root) => {
                        self.phase = WalkPhase::SetRoot;
                        WalkAction::SetRoot(root)
                    },
                    None => self.look_up(),
                }
            },
            WalkEvent::RootSet => self.look_up(),
        }
    }
}

/// Every step keeps the slots that wait in order, and the forks and banks under their slots.
pub proof fn law_walk_keeps_order<L, E>(walk: WalkView, event: WalkEvent<L>)
    requires
        walk.wf(),
        walk.expects(event),
    ensures
        walk.step::<L, E>(event).0.wf(),
        walk.step::<L, E>(event).0.forks.max_root == walk.forks.max_root,
        walk.step::<L, E>(event).0.forks.halt_at_slot == walk.forks.halt_at_slot,
{
    match event {
        WalkEvent::Banks(banks) => {
            lemma_process_next_slots_keeps_wf(walk.forks, walk.bank, banks@);
        },
        WalkEvent::Started | WalkEvent::RootSet => {
            lemma_process_next_slots_keeps_wf(walk.forks, walk.bank, Seq::empty());
        },
        WalkEvent::RootFound { supermajority_root, is_root } => {
            let forks = walk.forks.processed(walk.bank, supermajority_root, is_root);
            lemma_processed_keeps_wf(walk.forks, walk.bank, supermajority_root, is_root);
            lemma_process_next_slots_keeps_wf(forks, walk.bank, Seq::empty());
        },
        _ => {},
    }
}

/// The slot that is replayed next is the earliest of those that wait.
pub proof fn law_earliest_slot_is_replayed<L, E>(walk: WalkView, event: WalkEvent<L>, i: int)
    requires
        walk.wf(),
        walk.expects(event),
        walk.step::<L, E>(event).1 is Process,
        0 <= i < walk.step::<L, E>(event).0.forks.pending.len(),
    ensures
        walk.step::<L, E>(event).1->Process_0.spec_slot() <= walk.step::<L, E>(
            event,
        ).0.forks.pending[i].spec_slot(),
{
    match event {
        WalkEvent::Banks(banks) => {
            lemma_earliest_is_next::<L, E>(walk, banks@, i);
        },
        WalkEvent::Started | WalkEvent::RootSet => {
            lemma_earliest_is_next::<L, E>(walk, Seq::empty(), i);
        },
        WalkEvent::RootFound { supermajority_root, is_root } => {
            let next = WalkView {
                forks: walk.forks.processed(walk.bank, supermajority_root, is_root),
                ..walk
            };
            lemma_processed_keeps_wf(
                walk.forks,
                walk.bank,
                supermajority_root,
                is_root,
            );
            lemma_earliest_is_next::<L, E>(next, Seq::empty(), i);
        },
        _ => {},
    }
}

proof fn lemma_earliest_is_next<L, E>(walk: WalkView, next: Seq<Arc<PendingSlot>>, i: int)
    requires
        walk.wf(),
        walk.add_next::<L, E>(next).1 is Process,
        0 <= i < walk.add_next::<L, E>(next).0.forks.pending.len(),
    ensures
        walk.add_next::<L, E>(next).1->Process_0.spec_slot() <= walk.add_next::<L, E>(
            next,
        ).0.forks.pending[i].spec_slot(),
{
    lemma_process_next_slots_keeps_wf(walk.forks, walk.bank, next);
}

/// A slot whose replay failed leaves no trace: neither it nor what follows on it becomes part
/// of a fork, and the root stays.
pub proof fn law_failed_slots_are_dropped<L, E>(walk: WalkView)
    requires
        walk.wf(),
        walk.phase is Process,
    ensures
        ({
            let after = walk.step::<L, E>(WalkEvent::Processed(false)).0.forks;
            &&& after.root == walk.forks.root
            &&& after.initial_forks == walk.forks.initial_forks
            &&& after.all_banks == walk.forks.all_banks
            &&& after.pending.is_prefix_of(walk.forks.pending)
        }),
{
}

/// A walk ends well only where no slot waits, or after a replayed slot at which to halt.
pub proof fn law_walk_ends_when_done<L, E>(walk: WalkView, event: WalkEvent<L>)
    requires
        walk.wf(),
        walk.expects(event),
        walk.step::<L, E>(event).1 matches WalkActionView::Done(Ok(_)),
    ensures
        ({
            let after = walk.step::<L, E>(event).0;
            &&& after.phase is Finished
            &&& after.forks.pending.len() == 0 || after.replayed && after.bank.slot
                >= after.forks.halt_at_slot
            &&& walk.step::<L, E>(event).1->Done_0->Ok_0 == after.forks.initial_forks.dom()
        }),
{
}

/// Banks are created only for slots that follow on the bank at hand and are full.
pub proof fn law_only_full_slots_are_replayed<L, E>(
    walk: WalkView,
    metas: Vec<Result<Option<SlotMetaInfo>, L>>,
    slot: Slot,
)
    requires
        walk.expects(WalkEvent::Metas(metas)),
        walk.step::<L, E>(WalkEvent::Metas(metas)).1 is CreateBanks,
        walk.step::<L, E>(WalkEvent::Metas(metas)).1->CreateBanks_slots.contains(slot),
    ensures
        exists|i: int|
            {
                &&& 0 <= i < walk.next_slots.len()
                &&& #[trigger] walk.next_slots[i] == slot
                &&& metas@[i] matches Ok(Some(meta)) && meta.is_full
            },
{
    lemma_full_among(walk.next_slots, metas@, slot);
}

proof fn lemma_full_among<L>(
    slots: Seq<Slot>,
    metas: Seq<Result<Option<SlotMetaInfo>, L>>,
    slot: Slot,
)
    requires
        slots.len() == metas.len(),
        full_among(slots, metas).contains(slot),
    ensures
        exists|i: int|
            {
                &&& 0 <= i < slots.len()
                &&& #[trigger] slots[i] == slot
                &&& metas[i] matches Ok(Some(meta)) && meta.is_full
            },
    decreases slots.len(),
{
    if slots.len() > 0 {
        let rest = full_among(slots.drop_last(), metas.drop_last());
        let all = full_among(slots, metas);
        let k = choose|k: int| 0 <= k < all.len() && all[k] == slot;
        if k < rest.len() {
            assert(rest[k] == slot);
            lemma_full_among(slots.drop_last(), metas.drop_last(), slot);
            let i = choose|i: int|
                {
                    &&& 0 <= i < slots.drop_last().len()
                    &&& #[trigger] slots.drop_last()[i] == slot
                    &&& metas.drop_last()[i] matches Ok(Some(meta)) && meta.is_full
                };
            assert(slots[i] == slot);
        } else {
            assert(slots[slots.len() - 1] == slot);
        }
    }
}

/// An event with which the bank at hand is done: banks were created for the slots that follow on
/// it, or there are no such slots and no root is to be set any more.
pub open spec fn closes_bank<L>(walk: WalkView, event: WalkEvent<L>) -> bool {
    match event {
        WalkEvent::Banks(_) => true,
        WalkEvent::Started | WalkEvent::RootSet => walk.next_slots.len() == 0,
        WalkEvent::RootFound { supermajority_root, is_root } => walk.next_slots.len() == 0 && if walk.forks.root
            == walk.forks.max_root {
            supermajority_root is None || supermajority_root->Some_0 <= walk.forks.root
        } else {
            !is_root
        },
        _ => false,
    }
}

/// The slots that are new with an event.
pub open spec fn new_slots<L>(event: WalkEvent<L>) -> Seq<Arc<PendingSlot>> {
    match event {
        WalkEvent::Banks(banks) => banks@,
        _ => Seq::empty(),
    }
}

/// A bank that is done becomes the tip of its fork in place of its parent, and the slots that
/// follow on it wait with the others. The walk ends with the tips where the bank was replayed
/// and its slot is not before the one at which to halt, or where nothing waits; otherwise one of
/// those that wait is replayed, and waits no longer.
pub proof fn law_walk_goes_on_from_bank<L, E>(walk: WalkView, event: WalkEvent<L>)
    requires
        walk.wf(),
        walk.expects(event),
        closes_bank(walk, event),
    ensures
        ({
            let (after, action) = walk.step::<L, E>(event);
            let waiting = walk.forks.pending.to_multiset().add(new_slots(event).to_multiset());
            let halts = walk.replayed && walk.bank.slot >= walk.forks.halt_at_slot;
            &&& after.forks.root == walk.forks.root
            &&& after.forks.initial_forks.contains_key(walk.bank.slot)
            &&& after.forks.initial_forks[walk.bank.slot] == walk.bank
            &&& forall|slot: Slot|
                slot != walk.bank.slot ==> (#[trigger] after.forks.initial_forks.contains_key(slot)
                    <==> walk.forks.initial_forks.contains_key(slot) && walk.bank.parent_slot
                    != Some(slot))
            &&& forall|slot: Slot|
                slot != walk.bank.slot && #[trigger] after.forks.initial_forks.contains_key(slot)
                    ==> after.forks.initial_forks[slot] == walk.forks.initial_forks[slot]
            &&& after.forks.all_banks == if event is RootFound {
                walk.forks.all_banks.insert(walk.bank.slot, walk.bank)
            } else {
                walk.forks.all_banks
            }
            &&& action is Done <==> halts || waiting.len() == 0
            &&& action is Done ==> {
                &&& action == WalkActionView::<L, E>::Done(Ok(after.forks.initial_forks.dom()))
                &&& after.phase == WalkPhase::Finished
                &&& after.forks.pending.to_multiset() == waiting
            }
            &&& !(action is Done) ==> {
                &&& action is Process
                &&& after.phase == WalkPhase::Process
                &&& waiting.count(action->Process_0) > 0
                &&& after.forks.pending.to_multiset() == waiting.remove(action->Process_0)
                &&& after.bank == action->Process_0.bank
                &&& after.next_slots == action->Process_0.next_slots@
                &&& after.replayed
            }
        }),
{
    broadcast use vstd::seq_lib::group_to_multiset_ensures;

    let (after, action) = walk.step::<L, E>(event);
    let forks = match event {
        WalkEvent::RootFound { supermajority_root, is_root } => {
            law_processed_bank_brings_root(walk.forks, walk.bank, supermajority_root, is_root);
            walk.forks.processed(walk.bank, supermajority_root, is_root)
        },
        _ => walk.forks,
    };
    let next = new_slots(event);
    let added = forks.process_next_slots(walk.bank, next);
    lemma_insert_all_counted(walk.forks.pending, next);
    assert(added.pending.to_multiset() == walk.forks.pending.to_multiset().add(
        next.to_multiset(),
    ));
    if added.pending.len() > 0 {
        assert(added.pending =~= added.pending.drop_last().push(added.pending.last()));
        assert(added.pending.contains(added.pending[added.pending.len() - 1]));
        assert(added.pending.drop_last().to_multiset() =~= added.pending.to_multiset().remove(
            added.pending.last(),
        ));
    }
}

/// What the walk asks for. The slots that follow on a bank are looked up before they are
/// replayed, banks are created for those that are full, and a slot that could not be looked up
/// ends the walk. After a successful replay the root is looked for, the cluster's where the
/// ledger's latest root is reached; where a new one is found it is set. After a failed one the
/// next slot that waits is replayed.
pub proof fn law_walk_asks<L, E>(walk: WalkView, event: WalkEvent<L>)
    requires
        walk.wf(),
        walk.expects(event),
        !closes_bank(walk, event),
    ensures
        ({
            let (after, action) = walk.step::<L, E>(event);
            match event {
                WalkEvent::Started | WalkEvent::RootSet => {
                    &&& action == WalkActionView::<L, E>::LoadMetas { slots: walk.next_slots }
                    &&& after == (WalkView { phase: WalkPhase::Metas, ..walk })
                },
                WalkEvent::Metas(metas) => {
                    let fails = exists|i: int| 0 <= i < metas@.len() && (#[trigger] metas@[i]) is Err;
                    &&& after.forks == walk.forks
                    &&& after.bank == walk.bank
                    &&& after.next_slots == walk.next_slots
                    &&& after.replayed == walk.replayed
                    &&& fails ==> (action matches WalkActionView::Done(Err(err)) && err
                        is FailedToLoadMeta) && after.phase == WalkPhase::Finished
                    &&& !fails ==> {
                        &&& action == WalkActionView::<L, E>::CreateBanks {
                            slots: after.full_slots,
                        }
                        &&& after.phase == WalkPhase::Banks
                        &&& after.full_slots == full_among(walk.next_slots, metas@)
                    }
                },
                WalkEvent::Processed(succeeded) => {
                    let waiting = walk.forks.pending.to_multiset();
                    &&& after.forks == (ForksView { pending: after.forks.pending, ..walk.forks })
                    &&& succeeded ==> {
                        &&& action == WalkActionView::<L, E>::FindRoot {
                            follows_cluster_root: walk.forks.root == walk.forks.max_root,
                        }
                        &&& after == (WalkView { phase: WalkPhase::Root, ..walk })
                    }
                    &&& !succeeded && waiting.len() == 0 ==> action == WalkActionView::<L, E>::Done(
                        Ok(walk.forks.initial_forks.dom()),
                    ) && after.phase == WalkPhase::Finished
                    &&& !succeeded && waiting.len() > 0 ==> {
                        &&& action is Process
                        &&& after.phase == WalkPhase::Process
                        &&& waiting.count(action->Process_0) > 0
                        &&& after.forks.pending.to_multiset() == waiting.remove(action->Process_0)
                        &&& after.bank == action->Process_0.bank
                        &&& after.next_slots == action->Process_0.next_slots@
                        &&& after.replayed
                    }
                },
                WalkEvent::RootFound { supermajority_root, is_root } => {
                    let found = if walk.forks.root == walk.forks.max_root {
                        supermajority_root is Some && supermajority_root->Some_0 > walk.forks.root
                    } else {
                        is_root
                    };
                    &&& after.bank == walk.bank
                    &&& after.next_slots == walk.next_slots
                    &&& after.replayed == walk.replayed
                    &&& found ==> {
                        &&& after.phase == WalkPhase::SetRoot
                        &&& action == WalkActionView::<L, E>::SetRoot(after.forks.root)
                        &&& after.forks.root == if walk.forks.root == walk.forks.max_root {
                            supermajority_root->Some_0
                        } else {
                            walk.bank.slot
                        }
                        &&& after.forks.pending == walk.forks.pending.filter(
                            |one: Arc<PendingSlot>|
                                one.bank.ancestors@.contains(after.forks.root),
                        )
                    }
                    &&& !found ==> {
                        &&& after.phase == WalkPhase::Metas
                        &&& action == WalkActionView::<L, E>::LoadMetas { slots: walk.next_slots }
                        &&& after.forks == (ForksView {
                            all_banks: walk.forks.all_banks.insert(walk.bank.slot, walk.bank),
                            ..walk.forks
                        })
                    }
                },
                WalkEvent::Banks(_) => false,
            }
        }),
{
    broadcast use vstd::seq_lib::group_to_multiset_ensures;

    if let WalkEvent::RootFound { supermajority_root, is_root } = event {
        law_processed_bank_brings_root(walk.forks, walk.bank, supermajority_root, is_root);
    }
    let pending = walk.forks.pending;
    if pending.len() > 0 {
        assert(pending =~= pending.drop_last().push(pending.last()));
        assert(pending.contains(pending[pending.len() - 1]));
        assert(pending.drop_last().to_multiset() =~= pending.to_multiset().remove(
            pending.last(),
        ));
    }
}

} // verus!
