//! Processes an ordered list of entries in parallel groups.
//!
//! 1. In order lock accounts for each entry while the lock succeeds, up to a Tick entry
//! 2. Process the locked group in parallel
//! 3. Register the `Tick` if it's available
//! 4. Update the leader scheduler, goto 1

use vstd::prelude::*;

use crate::signature::Signature;

verus! {

/// What the processing of an entry depends on.
#[derive(Clone, Copy, Debug)]
pub struct EntryInfo {
    pub hash: crate::hash::Hash,
    pub num_hashes: u64,
    pub num_transactions: usize,
}

impl EntryInfo {
    pub open spec fn spec_is_tick(&self) -> bool {
        self.num_transactions == 0
    }

    /// An entry without transactions is a tick.
    #[verifier::when_used_as_spec(spec_is_tick)]
    pub fn is_tick(&self) -> (tick: bool)
        ensures
            tick == self.is_tick(),
    {
        self.num_transactions == 0
    }
}

/// The first error among results, if there is one.
pub fn first_err<E: Clone>(results: &[Result<(), E>]) -> (first: Result<(), E>)
    ensures
        match first {
            Ok(()) => forall|i: int| 0 <= i < results@.len() ==> (#[trigger] results@[i]) is Ok,
            Err(err) => exists|i: int|
                0 <= i < results@.len() && (#[trigger] results@[i]) is Err && cloned(
                    results@[i]->Err_0,
                    err,
                ) && forall|j: int| 0 <= j < i ==> (#[trigger] results@[j]) is Ok,
        },
{
    let mut i: usize = 0;
    while i < results.len()
        invariant
            i <= results@.len(),
            forall|j: int| 0 <= j < i ==> (#[trigger] results@[j]) is Ok,
        decreases results@.len() - i,
    {
        match &results[i] {
            Err(err) => {
                assert(results@[i as int] is Err);
                return Err(err.clone());
            },
            Ok(()) => {},
        }
        i += 1;
    }
    Ok(())
}

/// The index of the transaction that comes at a position of an iteration order.
pub open spec fn ordered_index(iteration_order: Option<Vec<usize>>, position: int) -> int {
    match iteration_order {
        Some(order) => order@[position] as int,
        None => position,
    }
}

/// The first failed fee collection along with the first signature of its transaction.
/// The results stand in the order in which the transactions of the batch were processed.
pub fn get_first_error<E: Clone>(
    signatures: &[Signature],
    iteration_order: &Option<Vec<usize>>,
    fee_collection_results: &[Result<(), E>],
) -> (first: Option<(Result<(), E>, Signature)>)
    requires
        iteration_order matches Some(order) ==> {
            &&& order@.len() == signatures@.len()
            &&& forall|i: int| 0 <= i < order@.len() ==> (#[trigger] order@[i]) < signatures@.len()
        },
    ensures
        match first {
            None => forall|i: int|
                0 <= i < fee_collection_results@.len() && i < signatures@.len() ==> (
                #[trigger] fee_collection_results@[i]) is Ok,
            Some((result, signature)) => exists|i: int|
                {
                    &&& 0 <= i < fee_collection_results@.len()
                    &&& i < signatures@.len()
                    &&& (#[trigger] fee_collection_results@[i]) is Err
                    &&& result is Err
                    &&& cloned(fee_collection_results@[i]->Err_0, result->Err_0)
                    &&& signature == signatures@[ordered_index(*iteration_order, i)]
                    &&& forall|j: int|
                        0 <= j < i ==> (#[trigger] fee_collection_results@[j]) is Ok
                },
        },
{
    let mut i: usize = 0;
    while i < fee_collection_results.len() && i < signatures.len()
        invariant
            i <= fee_collection_results@.len(),
            i <= signatures@.len(),
            iteration_order matches Some(order) ==> {
                &&& order@.len() == signatures@.len()
                &&& forall|i: int|
                    0 <= i < order@.len() ==> (#[trigger] order@[i]) < signatures@.len()
            },
            forall|j: int| 0 <= j < i ==> (#[trigger] fee_collection_results@[j]) is Ok,
        decreases fee_collection_results@.len() - i,
    {
        match &fee_collection_results[i] {
            Err(err) => {
                assert(fee_collection_results@[i as int] is Err);
                let index: usize = match iteration_order {
                    Some(order) => order[i],
                    None => i,
                };
                return Some((Err(err.clone()), signatures[index]));
            },
            Ok(()) => {},
        }
        i += 1;
    }
    None
}

/// `rand::seq::SliceRandom::shuffle` with the thread's generator: the same items in some
/// order.
#[verifier::external_body]
fn shuffle(items: &mut Vec<usize>)
    ensures
        final(items)@.to_multiset() == old(items)@.to_multiset(),
{
    rand::seq::SliceRandom::shuffle(items.as_mut_slice(), &mut rand::thread_rng())
}

/// The order in which the transactions of an entry are processed: their own one, or a random
/// one.
pub fn iteration_order(randomize: bool, num_transactions: usize) -> (order: Option<Vec<usize>>)
    ensures
        order is Some == randomize,
        order matches Some(order) ==> order@.to_multiset() == Seq::new(
            num_transactions as nat,
            |i: int| i as usize,
        ).to_multiset(),
{
    if randomize {
        let mut order: Vec<usize> = Vec::new();
        let mut i: usize = 0;
        while i < num_transactions
            invariant
                i <= num_transactions,
                order@.len() == i,
                forall|j: int| 0 <= j < i ==> order@[j] == j,
            decreases num_transactions - i,
        {
            order.push(i);
            i += 1;
        }
        assert(order@ =~= Seq::new(num_transactions as nat, |i: int| i as usize));
        shuffle(&mut order);
        Some(order)
    } else {
        None
    }
}

/// What to do once the locked group is executed.
#[derive(Clone, Copy, Debug, PartialEq, Eq, Structural)]
pub enum Resume {
    /// register the ticks up to the block boundary
    RegisterTicks,
    /// lock the entry that was in conflict with the group
    RetryLock,
    /// register the remaining ticks and end
    Finish,
}

/// What is being waited for.
#[derive(Clone, Copy, Debug, PartialEq, Eq, Structural)]
pub enum Phase {
    Start,
    /// whether the tick at hand ends a block
    Boundary,
    /// the outcome of locking the accounts of the entry at hand
    Lock,
    /// the outcome of executing the locked group
    Execute(Resume),
    /// the registration of ticks; `true` after the last entry
    Register(bool),
    Finished,
}

/// What happened outside.
pub enum ReplayEvent<E> {
    Started,
    /// whether the bank's tick height plus the ticks asked for is a block boundary
    Boundary(bool),
    /// the first error among the lock results of the entry's transactions
    Locked(Result<(), E>),
    /// the first error among the results of the executed batches
    Executed(Result<(), E>),
    TicksRegistered,
}

/// What to do outside.
pub enum ReplayAction<E> {
    /// find out if the bank's tick height plus this many ticks is a block boundary
    CheckBoundary { ticks: usize },
    /// lock the accounts of the transactions of the entry
    Lock { entry: usize },
    /// execute the locked batches of these entries, and forget them
    Execute { entries: Vec<usize> },
    /// register ticks with these hashes, in order
    RegisterTicks { hashes: Vec<crate::hash::Hash> },
    /// the entries are processed, or one could not be
    Done(Result<(), E>),
}

/// The meaning of a `ReplayAction`.
pub enum ActionView<E> {
    CheckBoundary { ticks: nat },
    Lock { entry: nat },
    Execute { entries: Seq<usize> },
    RegisterTicks { hashes: Seq<crate::hash::Hash> },
    Done(Result<(), E>),
}

impl<E> View for ReplayAction<E> {
    type V = ActionView<E>;

    open spec fn view(&self) -> ActionView<E> {
        match *self {
            ReplayAction::CheckBoundary { ticks } => ActionView::CheckBoundary {
                ticks: ticks as nat,
            },
            ReplayAction::Lock { entry } => ActionView::Lock { entry: entry as nat },
            ReplayAction::Execute { entries } => ActionView::Execute { entries: entries@ },
            ReplayAction::RegisterTicks { hashes } => ActionView::RegisterTicks {
                hashes: hashes@,
            },
            ReplayAction::Done(result) => ActionView::Done(result),
        }
    }
}

/// The positions of the entries with transactions in `from..to`.
pub open spec fn transaction_entries(entries: Seq<EntryInfo>, from: nat, to: nat) -> Seq<usize>
    decreases to,
{
    if to <= from {
        Seq::empty()
    } else {
        let rest = transaction_entries(entries, from, (to - 1) as nat);
        if entries[to - 1].is_tick() {
            rest
        } else {
            rest.push((to - 1) as usize)
        }
    }
}

/// The hashes of the ticks in `from..to`.
pub open spec fn tick_hashes(entries: Seq<EntryInfo>, from: nat, to: nat) -> Seq<crate::hash::Hash>
    decreases to,
{
    if to <= from {
        Seq::empty()
    } else {
        let rest = tick_hashes(entries, from, (to - 1) as nat);
        if entries[to - 1].is_tick() {
            rest.push(entries[to - 1].hash)
        } else {
            rest
        }
    }
}

/// How far the processing of entries has come.
#[verifier::ext_equal]
pub struct ReplayView {
    pub entries: Seq<EntryInfo>,
    /// the entry at hand
    pub next: nat,
    /// the entries before this one are executed
    pub executed: nat,
    /// the ticks before this entry are registered
    pub registered: nat,
    pub phase: Phase,
}

impl ReplayView {
    /// Ticks are registered no sooner than the transactions before them are executed, and
    /// transactions are executed no sooner than their accounts are locked.
    pub open spec fn wf(self) -> bool {
        &&& self.registered <= self.executed <= self.next <= self.entries.len() <= usize::MAX
        &&& match self.phase {
            Phase::Start => self.next == 0,
            Phase::Boundary | Phase::Execute(Resume::RegisterTicks) => self.next
                < self.entries.len() && self.entries[self.next as int].is_tick(),
            Phase::Lock | Phase::Execute(Resume::RetryLock) => self.next < self.entries.len()
                && !self.entries[self.next as int].is_tick(),
            Phase::Execute(Resume::Finish) => self.next == self.entries.len(),
            Phase::Register(last) => {
                &&& self.executed == self.next
                &&& last ==> self.next == self.entries.len()
                &&& !last ==> self.next < self.entries.len()
                    && self.entries[self.next as int].is_tick()
            },
            Phase::Finished => true,
        }
    }

    /// The end of the ticks that are noted, and to be registered once all before is executed.
    pub open spec fn noted(self) -> nat {
        match self.phase {
            Phase::Boundary | Phase::Execute(Resume::RegisterTicks) | Phase::Register(
                false,
            ) => self.next + 1,
            _ => self.next,
        }
    }

    pub open spec fn to_phase(self, phase: Phase) -> ReplayView {
        ReplayView { phase, ..self }
    }

    /// The entry at hand is dealt with by its kind; after the last one the rest is executed.
    pub open spec fn advance<E>(self) -> (ReplayView, ActionView<E>) {
        if self.next == self.entries.len() {
            self.execute(Resume::Finish)
        } else if self.entries[self.next as int].is_tick() {
            (
                self.to_phase(Phase::Boundary),
                ActionView::CheckBoundary {
                    ticks: tick_hashes(self.entries, self.registered, self.next + 1).len(),
                },
            )
        } else {
            (self.to_phase(Phase::Lock), ActionView::Lock { entry: self.next })
        }
    }

    /// The entries that were locked since the last execution are executed.
    pub open spec fn execute<E>(self, resume: Resume) -> (ReplayView, ActionView<E>) {
        (
            self.to_phase(Phase::Execute(resume)),
            ActionView::Execute {
                entries: transaction_entries(self.entries, self.executed, self.next),
            },
        )
    }

    pub open spec fn fail<E>(self, err: E) -> (ReplayView, ActionView<E>) {
        (self.to_phase(Phase::Finished), ActionView::Done(Err(err)))
    }

    /// An event can be the answer to what is being waited for.
    pub open spec fn expects<E>(self, event: ReplayEvent<E>) -> bool {
        match (self.phase, event) {
            (Phase::Start, ReplayEvent::Started) => true,
            (Phase::Boundary, ReplayEvent::Boundary(_)) => true,
            (Phase::Lock, ReplayEvent::Locked(_)) => true,
            (Phase::Execute(_), ReplayEvent::Executed(_)) => true,
            (Phase::Register(_), ReplayEvent::TicksRegistered) => true,
            _ => false,
        }
    }

    /// What follows an event.
    pub open spec fn step<E>(self, event: ReplayEvent<E>) -> (ReplayView, ActionView<E>) {
        match (self.phase, event) {
            (Phase::Start, _) => self.advance(),
            (Phase::Boundary, ReplayEvent::Boundary(ends_block)) => if ends_block {
                // If it's a tick that will cause a new blockhash to be created,
                // execute the group and register the tick
                self.execute(Resume::RegisterTicks)
            } else {
                ReplayView { next: self.next + 1, ..self }.advance()
            },
            (Phase::Lock, ReplayEvent::Locked(Ok(()))) => ReplayView {
                next: self.next + 1,
                ..self
            }.advance(),
            (Phase::Lock, ReplayEvent::Locked(Err(err))) => if transaction_entries(
                self.entries,
                self.executed,
                self.next,
            ).len() == 0 {
                // the entry conflicts with itself
                self.fail(err)
            } else {
                // the entry conflicts with a prior entry
                self.execute(Resume::RetryLock)
            },
            (Phase::Execute(_), ReplayEvent::Executed(Err(err))) => self.fail(err),
            (Phase::Execute(Resume::RetryLock), ReplayEvent::Executed(Ok(()))) => (
                ReplayView { executed: self.next, phase: Phase::Lock, ..self },
                ActionView::Lock { entry: self.next },
            ),
            (Phase::Execute(resume), ReplayEvent::Executed(Ok(()))) => (
                ReplayView {
                    executed: self.next,
                    phase: Phase::Register(resume is Finish),
                    ..self
                },
                ActionView::RegisterTicks {
                    hashes: tick_hashes(self.entries, self.registered, self.noted()),
                },
            ),
            (Phase::Register(false), _) => ReplayView {
                next: self.next + 1,
                executed: self.next + 1,
                registered: self.next + 1,
                ..self
            }.advance(),
            (_, _) => (
                ReplayView {
                    registered: self.entries.len(),
                    phase: Phase::Finished,
                    ..self
                },
                ActionView::Done(Ok(())),
            ),
        }
    }
}

/// Processes an ordered list of entries.
pub struct ProcessEntries {
    entries: Vec<EntryInfo>,
    next: usize,
    executed: usize,
    registered: usize,
    /// accumulator for entries that can be processed in parallel
    batches: Vec<usize>,
    tick_hashes: Vec<crate::hash::Hash>,
    phase: Phase,
}

impl View for ProcessEntries {
    type V = ReplayView;

    closed spec fn view(&self) -> ReplayView {
        ReplayView {
            entries: self.entries@,
            next: self.next as nat,
            executed: self.executed as nat,
            registered: self.registered as nat,
            phase: self.phase,
        }
    }
}

fn copy_positions(positions: &Vec<usize>) -> (copy: Vec<usize>)
    ensures
        copy@ == positions@,
{
    let mut copy: Vec<usize> = Vec::new();
    let mut i: usize = 0;
    while i < positions.len()
        invariant
            i <= positions@.len(),
            copy@ == positions@.take(i as int),
        decreases positions@.len() - i,
    {
        copy.push(positions[i]);
        i += 1;
        assert(copy@ =~= positions@.take(i as int));
    }
    assert(copy@ =~= positions@);
    copy
}

fn copy_hashes(hashes: &Vec<crate::hash::Hash>) -> (copy: Vec<crate::hash::Hash>)
    ensures
        copy@ == hashes@,
{
    let mut copy: Vec<crate::hash::Hash> = Vec::new();
    let mut i: usize = 0;
    while i < hashes.len()
        invariant
            i <= hashes@.len(),
            copy@ == hashes@.take(i as int),
        decreases hashes@.len() - i,
    {
        copy.push(hashes[i]);
        i += 1;
        assert(copy@ =~= hashes@.take(i as int));
    }
    assert(copy@ =~= hashes@);
    copy
}

impl ProcessEntries {
    /// The accumulators hold what was locked and noted since it was last executed and
    /// registered.
    pub closed spec fn wf(&self) -> bool {
        &&& self@.wf()
        &&& !(self.phase is Finished) && !(self.phase is Register) ==> self.batches@
            == transaction_entries(self.entries@, self.executed as nat, self.next as nat)
        &&& self.phase is Register ==> self.batches@.len() == 0
        &&& !(self.phase is Finished) ==> self.tick_hashes@ == tick_hashes(
            self.entries@,
            self.registered as nat,
            self@.noted(),
        )
    }

    pub fn new(entries: Vec<EntryInfo>) -> (this: Self)
        ensures
            this.wf(),
            this@ == (ReplayView {
                entries: entries@,
                next: 0,
                executed: 0,
                registered: 0,
                phase: Phase::Start,
            }),
    {
        assert(entries.len() == entries@.len());
        ProcessEntries {
            entries,
            next: 0,
            executed: 0,
            registered: 0,
            batches: Vec::new(),
            tick_hashes: Vec::new(),
            phase: Phase::Start,
        }
    }

    fn execute<E>(&mut self, resume: Resume) -> (action: ReplayAction<E>)
        requires
            old(self).batches@ == transaction_entries(
                old(self).entries@,
                old(self).executed as nat,
                old(self).next as nat,
            ),
        ensures
            (final(self)@, action@) == old(self)@.execute::<E>(resume),
            final(self).batches == old(self).batches,
            final(self).tick_hashes == old(self).tick_hashes,
    {
        self.phase = Phase::Execute(resume);
        ReplayAction::Execute { entries: copy_positions(&self.batches) }
    }

    fn advance<E>(&mut self) -> (action: ReplayAction<E>)
        requires
            old(self).registered <= old(self).executed <= old(self).next,
            old(self).next <= old(self).entries@.len(),
            old(self).batches@ == transaction_entries(
                old(self).entries@,
                old(self).executed as nat,
                old(self).next as nat,
            ),
            old(self).tick_hashes@ == tick_hashes(
                old(self).entries@,
                old(self).registered as nat,
                old(self).next as nat,
            ),
        ensures
            (final(self)@, action@) == old(self)@.advance::<E>(),
            final(self).wf(),
    {
        if self.next == self.entries.len() {
            self.execute(Resume::Finish)
        } else if self.entries[self.next].is_tick() {
            // If it's a tick, save it for later
            self.tick_hashes.push(self.entries[self.next].hash);
            self.phase = Phase::Boundary;
            ReplayAction::CheckBoundary { ticks: self.tick_hashes.len() }
        } else {
            self.phase = Phase::Lock;
            ReplayAction::Lock { entry: self.next }
        }
    }

    fn register<E>(&mut self, last: bool) -> (action: ReplayAction<E>)
        ensures
            final(self)@ == old(self)@.to_phase(Phase::Register(last)),
            final(self).batches == old(self).batches,
            final(self).tick_hashes == old(self).tick_hashes,
            action@ == (ActionView::<E>::RegisterTicks { hashes: old(self).tick_hashes@ }),
    {
        self.phase = Phase::Register(last);
        ReplayAction::RegisterTicks { hashes: copy_hashes(&self.tick_hashes) }
    }

    /// Takes in what happened outside and says what to do next.
    pub fn step<E>(&mut self, event: ReplayEvent<E>) -> (action: ReplayAction<E>)
        requires
            old(self).wf(),
            old(self)@.expects(event),
        ensures
            final(self).wf(),
            (final(self)@, action@) == old(self)@.step(event),
    {
        match (self.phase, event) {
            (Phase::Boundary, ReplayEvent::Boundary(ends_block)) => {
                if ends_block {
                    self.execute(Resume::RegisterTicks)
                } else {
                    self.next += 1;
                    self.advance()
                }
            },
            (Phase::Lock, ReplayEvent::Locked(Ok(()))) => {
                self.batches.push(self.next);
                self.next += 1;
                self.advance()
            },
            (Phase::Lock, ReplayEvent::Locked(Err(err))) => {
                if self.batches.len() == 0 {
                    self.phase = Phase::Finished;
                    ReplayAction::Done(Err(err))
                } else {
                    self.execute(Resume::RetryLock)
                }
            },
            (Phase::Execute(_), ReplayEvent::Executed(Err(err))) => {
                self.phase = Phase::Finished;
                ReplayAction::Done(Err(err))
            },
            (Phase::Execute(resume), ReplayEvent::Executed(Ok(()))) => {
                self.batches.clear();
                self.executed = self.next;
                match resume {
                    Resume::RetryLock => {
                        self.phase = Phase::Lock;
                        ReplayAction::Lock { entry: self.next }
                    },
                    Resume::RegisterTicks => self.register(false),
                    Resume::Finish => self.register(true),
                }
            },
            (Phase::Register(false), _) => {
                self.tick_hashes.clear();
                self.next += 1;
                self.executed = self.next;
                self.registered = self.next;
                assert(self.batches@ =~= Seq::empty());
                self.advance()
            },
            (Phase::Register(true), _) => {
                self.tick_hashes.clear();
                self.registered = self.entries.len();
                self.phase = Phase::Finished;
                ReplayAction::Done(Ok(()))
            },
            (_, _) => self.advance(),
        }
    }
}

/// The state of a replay keeps the order of the work.
pub proof fn law_replay_keeps_order(replay: ProcessEntries)
    requires
        replay.wf(),
    ensures
        replay@.wf(),
{
}

/// Every step keeps the order of the work: ticks are registered no sooner than the
/// transactions before them are executed, and transactions no sooner than they are locked.
pub proof fn law_step_keeps_order<E>(replay: ReplayView, event: ReplayEvent<E>)
    requires
        replay.wf(),
        replay.expects(event),
    ensures
        replay.step(event).0.wf(),
        replay.step(event).0.entries == replay.entries,
        replay.step(event).0.next >= replay.next,
        replay.step(event).0.executed >= replay.executed,
        replay.step(event).0.registered >= replay.registered,
{
}

/// When ticks are to be registered, all entries before them are executed, and they are the
/// ticks among the entries since the last registration.
pub proof fn law_registered_ticks_follow_execution<E>(replay: ReplayView, event: ReplayEvent<E>)
    requires
        replay.wf(),
        replay.expects(event),
        replay.step(event).1 is RegisterTicks,
    ensures
        replay.step(event).0.executed == replay.next,
        replay.step(event).0.noted() <= replay.next + 1,
        replay.step(event).1->RegisterTicks_hashes == tick_hashes(
            replay.entries,
            replay.registered,
            replay.step(event).0.noted(),
        ),
{
}

/// When the processing ends well, every entry was executed and every tick registered.
pub proof fn law_success_means_all_processed<E>(replay: ReplayView, event: ReplayEvent<E>)
    requires
        replay.wf(),
        replay.expects(event),
        replay.step(event).1 == ActionView::<E>::Done(Ok(())),
    ensures
        replay.step(event).0.executed == replay.entries.len(),
        replay.step(event).0.registered == replay.entries.len(),
{
}

/// A bound on the number of steps that are left.
pub open spec fn steps_left(replay: ReplayView) -> nat {
    let locked = transaction_entries(replay.entries, replay.executed, replay.next).len() > 0;
    let rank: nat = match replay.phase {
        Phase::Start => 6,
        Phase::Lock => if locked {
            5
        } else {
            3
        },
        Phase::Boundary | Phase::Execute(Resume::Finish) => 5,
        Phase::Execute(_) => 4,
        Phase::Register(false) => 3,
        Phase::Register(true) => 4,
        Phase::Finished => 0,
    };
    ((replay.entries.len() - replay.next) * 7 + rank) as nat
}

/// Whatever happens outside, the processing ends: every step brings it closer to the end.
pub proof fn law_processing_ends<E>(replay: ReplayView, event: ReplayEvent<E>)
    requires
        replay.wf(),
        replay.expects(event),
    ensures
        steps_left(replay.step(event).0) < steps_left(replay),
{
}

/// The positions of entries with transactions are in order, and are all those in the range; and
/// what is in a range is what is in its two parts.
pub proof fn law_transaction_entries(entries: Seq<EntryInfo>, from: nat, middle: nat, to: nat)
    requires
        from <= middle <= to <= entries.len() <= usize::MAX,
    ensures
        forall|position: usize| #[trigger]
            transaction_entries(entries, from, to).contains(position) <==> from <= position < to
                && entries[position as int].num_transactions > 0,
        forall|i: int, j: int|
            0 <= i < j < transaction_entries(entries, from, to).len() ==> (
            #[trigger] transaction_entries(entries, from, to)[i]) < (#[trigger] transaction_entries(
                entries,
                from,
                to,
            )[j]),
        transaction_entries(entries, from, to) == transaction_entries(entries, from, middle)
            + transaction_entries(entries, middle, to),
    decreases to,
{
    let all = transaction_entries(entries, from, to);
    if to > from {
        let last = (to - 1) as nat;
        let rest = transaction_entries(entries, from, last);
        if middle < to {
            law_transaction_entries(entries, from, middle, last);
        } else {
            law_transaction_entries(entries, from, last, last);
        }
        assert forall|i: int| 0 <= i < rest.len() implies (#[trigger] rest[i]) < last by {
            assert(rest.contains(rest[i]));
        }
        assert forall|position: usize| #[trigger]
            all.contains(position) <==> from <= position < to
                && entries[position as int].num_transactions > 0 by {
            if rest.contains(position) {
                let i = choose|i: int| 0 <= i < rest.len() && rest[i] == position;
                assert(all[i] == position);
            }
            if position == last && entries[position as int].num_transactions > 0 {
                assert(all[rest.len() as int] == position);
            }
            if all.contains(position) {
                let i = choose|i: int| 0 <= i < all.len() && all[i] == position;
                if i < rest.len() {
                    assert(rest[i] == position);
                }
            }
        }
    }
    assert(all =~= transaction_entries(entries, from, middle) + transaction_entries(
        entries,
        middle,
        to,
    ));
}

/// The hashes of ticks are those of the entries without transactions, in order; and what is in a
/// range is what is in its two parts.
pub proof fn law_tick_hashes(entries: Seq<EntryInfo>, from: nat, middle: nat, to: nat)
    requires
        from <= middle <= to <= entries.len(),
    ensures
        tick_hashes(entries, from, to) == entries.subrange(from as int, to as int).filter(
            |entry: EntryInfo| entry.num_transactions == 0,
        ).map_values(|entry: EntryInfo| entry.hash),
        tick_hashes(entries, from, to) == tick_hashes(entries, from, middle) + tick_hashes(
            entries,
            middle,
            to,
        ),
    decreases to,
{
    reveal(Seq::filter);
    let all = tick_hashes(entries, from, to);
    let range = entries.subrange(from as int, to as int);
    let is_tick = |entry: EntryInfo| entry.num_transactions == 0;
    let hash = |entry: EntryInfo| entry.hash;
    if to > from {
        let last = (to - 1) as nat;
        if middle < to {
            law_tick_hashes(entries, from, middle, last);
        } else {
            law_tick_hashes(entries, from, last, last);
        }
        assert(range.drop_last() =~= entries.subrange(from as int, last as int));
        assert(range.last() == entries[last as int]);
    }
    assert(all =~= range.filter(is_tick).map_values(hash));
    assert(all =~= tick_hashes(entries, from, middle) + tick_hashes(entries, middle, to));
}

/// What follows each event. An entry that is dealt with makes way for the next one: a tick is
/// held against the block boundary, counting the ticks that are not registered yet; the accounts
/// of any other are locked; and after the last one what is locked is executed. At a boundary what
/// is locked is executed and the ticks are registered. An entry that cannot be locked makes the
/// locked ones be executed first and is then tried again; where none are locked, it fails.
pub proof fn law_replay_goes_on<E>(replay: ReplayView, event: ReplayEvent<E>)
    requires
        replay.wf(),
        replay.expects(event),
    ensures
        ({
            let (after, action) = replay.step(event);
            let locked = exists|i: int|
                replay.executed <= i < replay.next && (
                #[trigger] replay.entries[i]).num_transactions > 0;
            let moves_on = event is Started || (event matches ReplayEvent::Boundary(ends) && !ends)
                || (event matches ReplayEvent::Locked(Ok(_))) || replay.phase
                == Phase::Register(false);
            &&& moves_on ==> {
                &&& after.next == if event is Started {
                    0
                } else {
                    replay.next + 1
                }
                &&& after.executed == if event is TicksRegistered {
                    after.next
                } else {
                    replay.executed
                }
                &&& after.registered == if event is TicksRegistered {
                    after.next
                } else {
                    replay.registered
                }
                &&& if after.next == replay.entries.len() {
                    action is Execute && after.phase == Phase::Execute(Resume::Finish)
                } else if replay.entries[after.next as int].num_transactions == 0 {
                    after.phase == Phase::Boundary && action == ActionView::<E>::CheckBoundary {
                        ticks: tick_hashes(
                            replay.entries,
                            after.registered,
                            after.next + 1,
                        ).len(),
                    }
                } else {
                    after.phase == Phase::Lock && action == ActionView::<E>::Lock {
                        entry: after.next,
                    }
                }
            }
            &&& !moves_on ==> after.next == replay.next
            &&& !moves_on && !(event is TicksRegistered) ==> after.registered == replay.registered
            &&& !moves_on && !(event matches ReplayEvent::Executed(Ok(_))) ==> after.executed
                == replay.executed
            &&& after.entries == replay.entries
            &&& event matches ReplayEvent::Boundary(ends) ==> ends ==> action is Execute
                && after.phase == Phase::Execute(Resume::RegisterTicks)
            &&& event matches ReplayEvent::Locked(Err(err)) ==> {
                &&& locked ==> action is Execute && after.phase == Phase::Execute(
                    Resume::RetryLock,
                )
                &&& !locked ==> action == ActionView::<E>::Done(Err(err)) && after.phase
                    == Phase::Finished
            }
            &&& event matches ReplayEvent::Executed(Err(err)) ==> action == ActionView::<E>::Done(
                Err(err),
            ) && after.phase == Phase::Finished
            &&& event matches ReplayEvent::Executed(Ok(_)) ==> {
                &&& after.executed == replay.next
                &&& replay.phase == Phase::Execute(Resume::RetryLock) ==> after.phase == Phase::Lock
                    && action == ActionView::<E>::Lock { entry: replay.next }
                &&& replay.phase == Phase::Execute(Resume::RegisterTicks) ==> after.phase
                    == Phase::Register(false) && action is RegisterTicks
                &&& replay.phase == Phase::Execute(Resume::Finish) ==> after.phase
                    == Phase::Register(true) && action is RegisterTicks
            }
            &&& replay.phase == Phase::Register(true) ==> action is Done && (
            action matches ActionView::Done(Ok(_))) && after.phase == Phase::Finished
        }),
{
    law_transaction_entries(replay.entries, replay.executed, replay.next, replay.next);
    let pending = transaction_entries(replay.entries, replay.executed, replay.next);
    if pending.len() > 0 {
        assert(pending.contains(pending[0]));
        assert(replay.entries[pending[0] as int].num_transactions > 0);
    }
    if exists|i: int|
        replay.executed <= i < replay.next && (#[trigger] replay.entries[i]).num_transactions > 0 {
        let i = choose|i: int|
            replay.executed <= i < replay.next && (#[trigger] replay.entries[i]).num_transactions
                > 0;
        assert(pending.contains(i as usize));
    }
}

/// The state after events.
pub open spec fn replayed<E>(replay: ReplayView, events: Seq<ReplayEvent<E>>) -> ReplayView
    decreases events.len(),
{
    if events.len() == 0 {
        replay
    } else {
        replayed(replay, events.drop_last()).step(events.last()).0
    }
}

/// Each event answers what was being waited for.
pub open spec fn all_answer<E>(replay: ReplayView, events: Seq<ReplayEvent<E>>) -> bool
    decreases events.len(),
{
    events.len() > 0 ==> all_answer(replay, events.drop_last()) && replayed(
        replay,
        events.drop_last(),
    ).expects(events.last())
}

/// The entries that were to be executed during a replay, in the order of the executions.
pub open spec fn executions<E>(replay: ReplayView, events: Seq<ReplayEvent<E>>) -> Seq<usize>
    decreases events.len(),
{
    if events.len() == 0 {
        Seq::empty()
    } else {
        let rest = executions(replay, events.drop_last());
        match replayed(replay, events.drop_last()).step(events.last()).1 {
            ActionView::Execute { entries } => rest + entries,
            _ => rest,
        }
    }
}

/// The ticks that were to be registered during a replay, in order.
pub open spec fn registrations<E>(replay: ReplayView, events: Seq<ReplayEvent<E>>) -> Seq<
    crate::hash::Hash,
>
    decreases events.len(),
{
    if events.len() == 0 {
        Seq::empty()
    } else {
        let rest = registrations(replay, events.drop_last());
        match replayed(replay, events.drop_last()).step(events.last()).1 {
            ActionView::RegisterTicks { hashes } => rest + hashes,
            _ => rest,
        }
    }
}

/// A replay that has not started.
pub open spec fn replay_of(entries: Seq<EntryInfo>) -> ReplayView {
    ReplayView { entries, next: 0, executed: 0, registered: 0, phase: Phase::Start }
}

/// A replay ended because something failed.
pub open spec fn has_failed<E>(replay: ReplayView, events: Seq<ReplayEvent<E>>) -> bool {
    events.len() > 0 && (replayed(replay, events.drop_last()).step(
        events.last(),
    ).1 matches ActionView::Done(Err(_)))
}

/// The end of the entries that were given out to be executed.
spec fn executed_end(replay: ReplayView) -> nat {
    if replay.phase is Execute {
        replay.next
    } else {
        replay.executed
    }
}

/// The end of the ticks that were given out to be registered.
spec fn registered_end(replay: ReplayView) -> nat {
    if replay.phase is Register {
        replay.noted()
    } else {
        replay.registered
    }
}

proof fn lemma_step_executes<E>(replay: ReplayView, event: ReplayEvent<E>)
    requires
        replay.wf(),
        replay.expects(event),
        !(replay.step(event).1 matches ActionView::Done(Err(_))),
    ensures
        ({
            let (after, action) = replay.step(event);
            let entries = replay.entries;
            transaction_entries(entries, 0, executed_end(after)) == transaction_entries(
                entries,
                0,
                executed_end(replay),
            ) + match action {
                ActionView::Execute { entries: positions } => positions,
                _ => Seq::empty(),
            }
        }),
{
    let (after, action) = replay.step(event);
    let entries = replay.entries;
    let done = transaction_entries(entries, 0, executed_end(replay));
    assert(done + Seq::empty() =~= done);
    law_step_keeps_order(replay, event);
    if action is Execute {
        law_transaction_entries(entries, 0, after.executed, after.next);
    }
    if replay.phase == Phase::Register(false) {
        law_transaction_entries(entries, 0, replay.next, replay.next + 1);
    }
}

proof fn lemma_step_registers<E>(replay: ReplayView, event: ReplayEvent<E>)
    requires
        replay.wf(),
        replay.expects(event),
        !(replay.step(event).1 matches ActionView::Done(Err(_))),
    ensures
        ({
            let (after, action) = replay.step(event);
            let entries = replay.entries;
            tick_hashes(entries, 0, registered_end(after)) == tick_hashes(
                entries,
                0,
                registered_end(replay),
            ) + match action {
                ActionView::RegisterTicks { hashes } => hashes,
                _ => Seq::empty(),
            }
        }),
{
    let (after, action) = replay.step(event);
    let entries = replay.entries;
    let done = tick_hashes(entries, 0, registered_end(replay));
    assert(done + Seq::empty() =~= done);
    law_step_keeps_order(replay, event);
    if action is RegisterTicks {
        law_tick_hashes(entries, 0, replay.registered, replay.noted());
    }
}

proof fn lemma_replayed<E>(entries: Seq<EntryInfo>, events: Seq<ReplayEvent<E>>)
    requires
        entries.len() <= usize::MAX,
        all_answer(replay_of(entries), events),
        !has_failed(replay_of(entries), events),
    ensures
        ({
            let after = replayed(replay_of(entries), events);
            &&& after.wf()
            &&& after.entries == entries
            &&& executions(replay_of(entries), events) == transaction_entries(
                entries,
                0,
                executed_end(after),
            )
            &&& registrations(replay_of(entries), events) == tick_hashes(
                entries,
                0,
                registered_end(after),
            )
            &&& after.phase is Finished ==> after.executed == entries.len() && after.registered
                == entries.len()
        }),
    decreases events.len(),
{
    let start = replay_of(entries);
    if events.len() > 0 {
        let front = events.drop_last();
        let before = replayed(start, front);
        let event = events.last();
        assert(!has_failed(start, front)) by {
            if front.len() > 0 {
                assert(!(before.phase is Finished));
            }
        }
        lemma_replayed(entries, front);
        law_step_keeps_order(before, event);
        lemma_step_executes(before, event);
        lemma_step_registers(before, event);
        let executed = executions(start, front);
        let registered = registrations(start, front);
        assert(executed + Seq::empty() =~= executed);
        assert(registered + Seq::empty() =~= registered);
        if replayed(start, events).phase is Finished {
            assert(before.phase == Phase::Register(true));
        }
    } else {
        assert(transaction_entries(entries, 0, 0) =~= Seq::empty());
        assert(tick_hashes(entries, 0, 0) =~= Seq::empty());
    }
}

/// A replay that ends well has executed every entry with transactions once and in order, and
/// registered every tick once and in order, and nothing else.
pub proof fn law_everything_is_replayed_once<E>(
    entries: Seq<EntryInfo>,
    events: Seq<ReplayEvent<E>>,
)
    requires
        entries.len() <= usize::MAX,
        all_answer(replay_of(entries), events),
        replayed(replay_of(entries), events).phase is Finished,
        !has_failed(replay_of(entries), events),
    ensures
        forall|position: usize| #[trigger]
            executions(replay_of(entries), events).contains(position) <==> position < entries.len()
                && entries[position as int].num_transactions > 0,
        forall|i: int, j: int|
            0 <= i < j < executions(replay_of(entries), events).len() ==> (#[trigger] executions(
                replay_of(entries),
                events,
            )[i]) < (#[trigger] executions(replay_of(entries), events)[j]),
        registrations(replay_of(entries), events) == entries.filter(
            |entry: EntryInfo| entry.num_transactions == 0,
        ).map_values(|entry: EntryInfo| entry.hash),
{
    lemma_replayed(entries, events);
    law_transaction_entries(entries, 0, 0, entries.len());
    law_tick_hashes(entries, 0, 0, entries.len());
    assert(entries.subrange(0, entries.len() as int) =~= entries);
}

/// At any time of a replay that has not failed: no entry is executed before those in front of it,
/// and no tick is registered before the entries in front of it are executed.
pub proof fn law_replay_is_in_order<E>(entries: Seq<EntryInfo>, events: Seq<ReplayEvent<E>>)
    requires
        entries.len() <= usize::MAX,
        all_answer(replay_of(entries), events),
        !has_failed(replay_of(entries), events),
    ensures
        exists|executed: int, registered: int|
            {
                &&& 0 <= executed <= entries.len()
                &&& 0 <= registered <= entries.len()
                &&& registered <= executed + 1
                &&& registered == executed + 1 ==> entries[executed].num_transactions == 0
                &&& #[trigger] executed_before(
                    entries,
                    executed,
                    executions(replay_of(entries), events),
                )
                &&& #[trigger] registered_before(
                    entries,
                    registered,
                    registrations(replay_of(entries), events),
                )
            },
{
    let after = replayed(replay_of(entries), events);
    lemma_replayed(entries, events);
    let executed = executed_end(after);
    let registered = registered_end(after);
    law_transaction_entries(entries, 0, 0, executed);
    law_tick_hashes(entries, 0, 0, registered);
    assert(executed_before(
        entries,
        executed as int,
        executions(replay_of(entries), events),
    ));
    assert(registered_before(
        entries,
        registered as int,
        registrations(replay_of(entries), events),
    ));
}

/// The hashes are those of all the ticks in front of an entry, in order.
pub open spec fn registered_before(
    entries: Seq<EntryInfo>,
    end: int,
    hashes: Seq<crate::hash::Hash>,
) -> bool {
    hashes == entries.subrange(0, end).filter(
        |entry: EntryInfo| entry.num_transactions == 0,
    ).map_values(|entry: EntryInfo| entry.hash)
}

/// The positions are those of all the entries with transactions in front of one, in order.
pub open spec fn executed_before(entries: Seq<EntryInfo>, end: int, positions: Seq<usize>) -> bool {
    &&& forall|position: usize| #[trigger]
        positions.contains(position) <==> position < end
            && entries[position as int].num_transactions > 0
    &&& forall|i: int, j: int|
        0 <= i < j < positions.len() ==> (#[trigger] positions[i]) < (#[trigger] positions[j])
}

/// After each action its answer is waited for, whatever it is, and nothing else; and after the
/// end nothing is.
pub proof fn law_replay_waits_for_the_answer<E>(
    replay: ReplayView,
    event: ReplayEvent<E>,
    answer: ReplayEvent<E>,
)
    requires
        replay.wf(),
        replay.expects(event),
    ensures
        replay.step(event).0.expects(answer) <==> match replay.step(event).1 {
            ActionView::CheckBoundary { .. } => answer is Boundary,
            ActionView::Lock { .. } => answer is Locked,
            ActionView::Execute { .. } => answer is Executed,
            ActionView::RegisterTicks { .. } => answer is TicksRegistered,
            ActionView::Done(_) => false,
        },
{
}

} // verus!
