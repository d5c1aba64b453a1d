//! Confirms the entries of a slot.

use vstd::prelude::*;

use super::process_entries::EntryInfo;
use super::BlockError;
use super::BlockstoreProcessorError;

verus! {

/// The bank's place within its slot.
#[derive(Clone, Copy, Debug, PartialEq, Eq, Structural)]
pub struct BankTicks {
    pub tick_height: u64,
    pub max_tick_height: u64,
}

/// The number of ticks among entries.
pub open spec fn spec_tick_count(entries: Seq<EntryInfo>) -> nat
    decreases entries.len(),
{
    if entries.len() == 0 {
        0
    } else {
        spec_tick_count(entries.drop_last()) + if entries.last().is_tick() {
            1nat
        } else {
            0
        }
    }
}

/// The number of ticks among entries.
pub fn tick_count(entries: &[EntryInfo]) -> (count: u64)
    requires
        entries@.len() <= u64::MAX,
    ensures
        count == spec_tick_count(entries@),
        count <= entries@.len(),
{
    let mut count: u64 = 0;
    let mut i: usize = 0;
    assert(entries@.take(0) =~= Seq::empty());
    while i < entries.len()
        invariant
            i <= entries@.len(),
            entries@.len() <= u64::MAX,
            count == spec_tick_count(entries@.take(i as int)),
            count <= i,
        decreases entries@.len() - i,
    {
        assert(entries@.take(i + 1).drop_last() =~= entries@.take(i as int));
        if entries[i].is_tick() {
            count += 1;
        }
        i += 1;
    }
    assert(entries@.take(i as int) =~= entries@);
    count
}

/// What is wrong with the number and the place of the ticks of a segment of entries.
pub open spec fn tick_count_error(
    bank: BankTicks,
    entries: Seq<EntryInfo>,
    slot_full: bool,
) -> Option<BlockError> {
    let next_tick_height = bank.tick_height + spec_tick_count(entries);
    if next_tick_height > bank.max_tick_height {
        // too many ticks
        Some(BlockError::InvalidTickCount)
    } else if next_tick_height < bank.max_tick_height {
        // too few ticks, unless more are to come
        if slot_full {
            Some(BlockError::InvalidTickCount)
        } else {
            None
        }
    } else if entries.len() > 0 && !entries.last().is_tick() {
        Some(BlockError::TrailingEntry)
    } else if !slot_full {
        Some(BlockError::InvalidLastTick)
    } else {
        None
    }
}

/// Verify that a segment of entries has the correct number of ticks.
pub fn verify_tick_count(bank: &BankTicks, entries: &[EntryInfo], slot_full: bool) -> (result:
    Result<(), BlockError>)
    requires
        bank.tick_height + entries@.len() <= u64::MAX,
    ensures
        match result {
            Ok(()) => tick_count_error(*bank, entries@, slot_full) is None,
            Err(err) => tick_count_error(*bank, entries@, slot_full) == Some(err),
        },
{
    let next_bank_tick_height: u64 = bank.tick_height + tick_count(entries);
    if next_bank_tick_height > bank.max_tick_height {
        return Err(BlockError::InvalidTickCount);
    }
    if next_bank_tick_height < bank.max_tick_height && slot_full {
        return Err(BlockError::InvalidTickCount);
    }
    if next_bank_tick_height == bank.max_tick_height {
        let has_trailing_entry = entries.len() > 0 && !entries[entries.len() - 1].is_tick();
        if has_trailing_entry {
            return Err(BlockError::TrailingEntry);
        }
        if !slot_full {
            return Err(BlockError::InvalidLastTick);
        }
    }
    Ok(())
}

/// What counting the hashes of a segment's ticks came to: whether every tick has the right
/// number of them, and the hashes since the last tick.
#[derive(Clone, Copy, Debug, PartialEq, Eq, Structural)]
pub struct TickHashCount {
    pub verified: bool,
    pub tick_hash_count: u64,
}

/// Verify that a segment of entries has the correct number of ticks and hashes. The count of
/// hashes is taken over only where the number of ticks is right.
pub fn verify_ticks(
    bank: &BankTicks,
    entries: &[EntryInfo],
    slot_full: bool,
    counted: TickHashCount,
    tick_hash_count: &mut u64,
) -> (result: Result<(), BlockError>)
    requires
        bank.tick_height + entries@.len() <= u64::MAX,
    ensures
        match tick_count_error(*bank, entries@, slot_full) {
            Some(err) => result == Err::<(), BlockError>(err) && *final(tick_hash_count) == *old(
                tick_hash_count,
            ),
            None => {
                &&& *final(tick_hash_count) == counted.tick_hash_count
                &&& result == (if counted.verified {
                    Ok(())
                } else {
                    Err(BlockError::InvalidTickHashCount)
                })
            },
        },
{
    match verify_tick_count(bank, entries, slot_full) {
        Err(err) => Err(err),
        Ok(()) => {
            *tick_hash_count = counted.tick_hash_count;
            if !counted.verified {
                return Err(BlockError::InvalidTickHashCount);
            }
            Ok(())
        },
    }
}

/// The time spent on confirming a slot, in microseconds.
#[derive(Clone, Copy, Debug, PartialEq, Eq, Structural)]
pub struct ConfirmationTiming {
    pub replay_elapsed: u64,
    pub poh_verify_elapsed: u64,
    pub transaction_verify_elapsed: u64,
    pub fetch_elapsed: u64,
    pub fetch_fail_elapsed: u64,
}

impl Default for ConfirmationTiming {
    fn default() -> (timing: Self)
        ensures
            timing == (ConfirmationTiming {
                replay_elapsed: 0,
                poh_verify_elapsed: 0,
                transaction_verify_elapsed: 0,
                fetch_elapsed: 0,
                fetch_fail_elapsed: 0,
            }),
    {
        ConfirmationTiming {
            replay_elapsed: 0,
            poh_verify_elapsed: 0,
            transaction_verify_elapsed: 0,
            fetch_elapsed: 0,
            fetch_fail_elapsed: 0,
        }
    }
}

impl ConfirmationTiming {
    /// Adds the time of a fetch of entries to those that failed or to those that did not.
    pub fn add_fetch(&mut self, failed: bool, elapsed: u64)
        requires
            failed ==> old(self).fetch_fail_elapsed + elapsed <= u64::MAX,
            !failed ==> old(self).fetch_elapsed + elapsed <= u64::MAX,
        ensures
            *final(self) == (if failed {
                ConfirmationTiming {
                    fetch_fail_elapsed: (old(self).fetch_fail_elapsed + elapsed) as u64,
                    ..*old(self)
                }
            } else {
                ConfirmationTiming {
                    fetch_elapsed: (old(self).fetch_elapsed + elapsed) as u64,
                    ..*old(self)
                }
            }),
    {
        if failed {
            self.fetch_fail_elapsed += elapsed;
        } else {
            self.fetch_elapsed += elapsed;
        }
    }
}

/// How much of a slot is confirmed.
#[derive(Clone, Copy, Debug)]
pub struct ConfirmationProgress {
    pub last_entry: crate::hash::Hash,
    pub tick_hash_count: u64,
    pub num_shreds: u64,
    pub num_entries: usize,
    pub num_txs: usize,
}

impl ConfirmationProgress {
    pub fn new(last_entry: crate::hash::Hash) -> (progress: Self)
        ensures
            progress == (ConfirmationProgress {
                last_entry,
                tick_hash_count: 0,
                num_shreds: 0,
                num_entries: 0,
                num_txs: 0,
            }),
    {
        ConfirmationProgress {
            last_entry,
            tick_hash_count: 0,
            num_shreds: 0,
            num_entries: 0,
            num_txs: 0,
        }
    }
}

impl Default for ConfirmationProgress {
    fn default() -> (progress: Self)
        ensures
            progress.last_entry@ == Seq::new(32, |i: int| 0u8),
            progress.tick_hash_count == 0,
            progress.num_shreds == 0,
            progress.num_entries == 0,
            progress.num_txs == 0,
    {
        ConfirmationProgress::new(crate::hash::Hash::default())
    }
}

/// Entries of a slot as they came out of the ledger.
#[derive(Debug)]
pub struct LoadedEntries {
    pub entries: Vec<EntryInfo>,
    pub num_shreds: u64,
    pub slot_full: bool,
}

/// The number of transactions in entries.
pub open spec fn spec_num_txs(entries: Seq<EntryInfo>) -> nat
    decreases entries.len(),
{
    if entries.len() == 0 {
        0
    } else {
        spec_num_txs(entries.drop_last()) + entries.last().num_transactions as nat
    }
}

proof fn lemma_num_txs_monotonic(entries: Seq<EntryInfo>, i: int)
    requires
        0 <= i <= entries.len(),
    ensures
        spec_num_txs(entries.take(i)) <= spec_num_txs(entries),
    decreases entries.len() - i,
{
    if i < entries.len() {
        assert(entries.take(i + 1).drop_last() =~= entries.take(i));
        lemma_num_txs_monotonic(entries, i + 1);
    } else {
        assert(entries.take(i) =~= entries);
    }
}

fn count_txs(entries: &Vec<EntryInfo>) -> (num_txs: usize)
    requires
        spec_num_txs(entries@) <= usize::MAX,
    ensures
        num_txs == spec_num_txs(entries@),
{
    let mut num_txs: usize = 0;
    let mut i: usize = 0;
    assert(entries@.take(0) =~= Seq::empty());
    while i < entries.len()
        invariant
            i <= entries@.len(),
            spec_num_txs(entries@) <= usize::MAX,
            num_txs == spec_num_txs(entries@.take(i as int)),
        decreases entries@.len() - i,
    {
        proof {
            assert(entries@.take(i + 1).drop_last() =~= entries@.take(i as int));
            lemma_num_txs_monotonic(entries@, i + 1);
        }
        num_txs += entries[i].num_transactions;
        i += 1;
    }
    assert(entries@.take(i as int) =~= entries@);
    num_txs
}

/// What is being waited for.
#[derive(Clone, Copy, Debug, PartialEq, Eq, Structural)]
pub enum ConfirmPhase {
    Load,
    CountTickHashes,
    StartVerify,
    Process,
    FinishVerify,
    Finished,
}

/// What happened outside.
pub enum ConfirmEvent<L, E> {
    Loaded(Result<LoadedEntries, L>),
    TickHashesCounted(TickHashCount),
    /// whether the verification of the entries' hashes failed at once
    VerifyStarted { failed: bool },
    Processed(Result<(), E>),
    /// whether the entries' hashes are right
    VerifyFinished { verified: bool },
}

/// What to do outside.
pub enum ConfirmAction<L, E> {
    /// count the hashes of the ticks, going on from the hashes since the last one
    CountTickHashes { tick_hash_count: u64 },
    /// start to verify the hashes of the entries, which follow on the last entry
    StartVerify { last_entry: crate::hash::Hash },
    /// process the entries, those with transactions in random order
    Process { randomize: bool },
    FinishVerify,
    Done(Result<(), BlockstoreProcessorError<L, E>>),
}

/// The state of a confirmation.
pub struct ConfirmView<E> {
    pub bank: BankTicks,
    pub skip_verification: bool,
    pub progress: ConfirmationProgress,
    pub entries: Seq<EntryInfo>,
    pub num_shreds: u64,
    pub slot_full: bool,
    /// the transaction error that processing the entries came to
    pub transaction_error: Option<E>,
    pub phase: ConfirmPhase,
}

impl<E> ConfirmView<E> {
    /// The new entries can be counted.
    pub open spec fn fits(self, entries: Seq<EntryInfo>, num_shreds: u64) -> bool {
        &&& self.bank.tick_height + entries.len() <= u64::MAX
        &&& self.progress.num_shreds + num_shreds <= u64::MAX
        &&& self.progress.num_entries + entries.len() <= usize::MAX
        &&& self.progress.num_txs + spec_num_txs(entries) <= usize::MAX
    }

    pub open spec fn wf(self) -> bool {
        &&& !(self.phase is Load) ==> self.fits(self.entries, self.num_shreds)
        &&& self.phase is CountTickHashes || self.phase is StartVerify || self.phase is FinishVerify
            ==> !self.skip_verification
    }

    /// An event can be the answer to what is being waited for.
    pub open spec fn expects<L>(self, event: ConfirmEvent<L, E>) -> bool {
        match (self.phase, event) {
            (ConfirmPhase::Load, ConfirmEvent::Loaded(Ok(loaded))) => self.fits(
                loaded.entries@,
                loaded.num_shreds,
            ),
            (ConfirmPhase::Load, ConfirmEvent::Loaded(Err(_))) => true,
            (ConfirmPhase::CountTickHashes, ConfirmEvent::TickHashesCounted(_)) => true,
            (ConfirmPhase::StartVerify, ConfirmEvent::VerifyStarted { .. }) => true,
            (ConfirmPhase::Process, ConfirmEvent::Processed(_)) => true,
            (ConfirmPhase::FinishVerify, ConfirmEvent::VerifyFinished { .. }) => true,
            _ => false,
        }
    }

    pub open spec fn to_phase(self, phase: ConfirmPhase) -> ConfirmView<E> {
        ConfirmView { phase, ..self }
    }

    pub open spec fn invalid_block<L>(self, err: BlockError) -> (
        ConfirmView<E>,
        ConfirmAction<L, E>,
    ) {
        (
            self.to_phase(ConfirmPhase::Finished),
            ConfirmAction::Done(Err(BlockstoreProcessorError::InvalidBlock(err))),
        )
    }

    /// The progress once the entries at hand are confirmed.
    pub open spec fn advanced(self) -> ConfirmationProgress {
        ConfirmationProgress {
            last_entry: if self.entries.len() > 0 {
                self.entries.last().hash
            } else {
                self.progress.last_entry
            },
            tick_hash_count: self.progress.tick_hash_count,
            num_shreds: (self.progress.num_shreds + self.num_shreds) as u64,
            num_entries: (self.progress.num_entries + self.entries.len()) as usize,
            num_txs: (self.progress.num_txs + spec_num_txs(self.entries)) as usize,
        }
    }

    /// The outcome of the processing decides.
    pub open spec fn conclude<L>(self) -> (ConfirmView<E>, ConfirmAction<L, E>) {
        match self.transaction_error {
            Some(err) => (
                ConfirmView { transaction_error: None, phase: ConfirmPhase::Finished, ..self },
                ConfirmAction::Done(Err(BlockstoreProcessorError::InvalidTransaction(err))),
            ),
            None => (
                ConfirmView {
                    progress: self.advanced(),
                    phase: ConfirmPhase::Finished,
                    entries: Seq::empty(),
                    num_shreds: 0,
                    ..self
                },
                ConfirmAction::Done(Ok(())),
            ),
        }
    }

    /// What follows an event.
    pub open spec fn step<L>(self, event: ConfirmEvent<L, E>) -> (
        ConfirmView<E>,
        ConfirmAction<L, E>,
    ) {
        match event {
            ConfirmEvent::Loaded(Err(err)) => (
                ConfirmView {
                    phase: ConfirmPhase::Finished,
                    entries: Seq::empty(),
                    num_shreds: 0,
                    ..self
                },
                ConfirmAction::Done(Err(BlockstoreProcessorError::FailedToLoadEntries(err))),
            ),
            ConfirmEvent::Loaded(Ok(loaded)) => {
                let next = ConfirmView {
                    entries: loaded.entries@,
                    num_shreds: loaded.num_shreds,
                    slot_full: loaded.slot_full,
                    ..self
                };
                if self.skip_verification {
                    (
                        next.to_phase(ConfirmPhase::Process),
                        ConfirmAction::Process { randomize: true },
                    )
                } else {
                    match tick_count_error(self.bank, loaded.entries@, loaded.slot_full) {
                        Some(err) => next.invalid_block(err),
                        None => (
                            next.to_phase(ConfirmPhase::CountTickHashes),
                            ConfirmAction::CountTickHashes {
                                tick_hash_count: self.progress.tick_hash_count,
                            },
                        ),
                    }
                }
            },
            ConfirmEvent::TickHashesCounted(counted) => {
                let next = ConfirmView {
                    progress: ConfirmationProgress {
                        tick_hash_count: counted.tick_hash_count,
                        ..self.progress
                    },
                    ..self
                };
                if !counted.verified {
                    next.invalid_block(BlockError::InvalidTickHashCount)
                } else {
                    (
                        next.to_phase(ConfirmPhase::StartVerify),
                        ConfirmAction::StartVerify { last_entry: self.progress.last_entry },
                    )
                }
            },
            ConfirmEvent::VerifyStarted { failed } => if failed {
                self.invalid_block(BlockError::InvalidEntryHash)
            } else {
                (
                    self.to_phase(ConfirmPhase::Process),
                    ConfirmAction::Process { randomize: true },
                )
            },
            ConfirmEvent::Processed(processed) => {
                let next = ConfirmView { transaction_error: processed.err(), ..self };
                if self.skip_verification {
                    next.conclude()
                } else {
                    (next.to_phase(ConfirmPhase::FinishVerify), ConfirmAction::FinishVerify)
                }
            },
            ConfirmEvent::VerifyFinished { verified } => if !verified {
                self.invalid_block(BlockError::InvalidEntryHash)
            } else {
                self.conclude()
            },
        }
    }
}

/// Confirms the entries of a slot: fetched entries are checked for their ticks and hashes,
/// unless that is skipped, and processed.
pub struct ConfirmSlot<E> {
    bank: BankTicks,
    skip_verification: bool,
    progress: ConfirmationProgress,
    entries: Vec<EntryInfo>,
    num_shreds: u64,
    slot_full: bool,
    transaction_error: Option<E>,
    phase: ConfirmPhase,
}

impl<E> View for ConfirmSlot<E> {
    type V = ConfirmView<E>;

    closed spec fn view(&self) -> ConfirmView<E> {
        ConfirmView {
            bank: self.bank,
            skip_verification: self.skip_verification,
            progress: self.progress,
            entries: self.entries@,
            num_shreds: self.num_shreds,
            slot_full: self.slot_full,
            transaction_error: self.transaction_error,
            phase: self.phase,
        }
    }
}

impl<E> ConfirmSlot<E> {
    pub open spec fn wf(&self) -> bool {
        self@.wf()
    }

    /// A confirmation that goes on from some progress. The entries are to be fetched from the
    /// shred on that `start_shred` gives.
    pub fn new(
        bank: BankTicks,
        skip_verification: bool,
        progress: ConfirmationProgress,
    ) -> (this: Self)
        ensures
            this.wf(),
            this@ == (ConfirmView::<E> {
                bank,
                skip_verification,
                progress,
                entries: Seq::empty(),
                num_shreds: 0,
                slot_full: false,
                transaction_error: None,
                phase: ConfirmPhase::Load,
            }),
    {
        let this = ConfirmSlot {
            bank,
            skip_verification,
            progress,
            entries: Vec::new(),
            num_shreds: 0,
            slot_full: false,
            transaction_error: None,
            phase: ConfirmPhase::Load,
        };
        assert(this@.entries =~= Seq::empty());
        this
    }

    /// The shred from which on entries are to be fetched.
    pub fn start_shred(&self) -> (index: u64)
        ensures
            index == self@.progress.num_shreds,
    {
        self.progress.num_shreds
    }

    pub fn progress(&self) -> (progress: &ConfirmationProgress)
        ensures
            *progress == self@.progress,
    {
        &self.progress
    }

    fn invalid_block<L>(&mut self, err: BlockError) -> (action: ConfirmAction<L, E>)
        ensures
            (final(self)@, action) == old(self)@.invalid_block::<L>(err),
    {
        self.phase = ConfirmPhase::Finished;
        ConfirmAction::Done(Err(BlockstoreProcessorError::InvalidBlock(err)))
    }

    fn conclude<L>(&mut self) -> (action: ConfirmAction<L, E>)
        requires
            old(self)@.fits(old(self)@.entries, old(self)@.num_shreds),
        ensures
            final(self)@ == old(self)@.conclude::<L>().0,
            action == old(self)@.conclude::<L>().1,
    {
        self.phase = ConfirmPhase::Finished;
        match self.transaction_error.take() {
            Some(err) => {
                ConfirmAction::Done(Err(BlockstoreProcessorError::InvalidTransaction(err)))
            },
            None => {
                self.progress.num_shreds += self.num_shreds;
                self.progress.num_entries += self.entries.len();
                self.progress.num_txs += count_txs(&self.entries);
                if self.entries.len() > 0 {
                    self.progress.last_entry = self.entries[self.entries.len() - 1].hash;
                }
                self.entries.clear();
                assert(self.entries@ =~= Seq::empty());
                self.num_shreds = 0;
                ConfirmAction::Done(Ok(()))
            },
        }
    }

    /// Takes in what happened outside and says what to do next.
    pub fn step<L>(&mut self, event: ConfirmEvent<L, E>) -> (action: ConfirmAction<L, E>)
        requires
            old(self).wf(),
            old(self)@.expects(event),
        ensures
            final(self).wf(),
            (final(self)@, action) == old(self)@.step(event),
    {
        match event {
            ConfirmEvent::Loaded(Err(err)) => {
                self.entries.clear();
                assert(self.entries@ =~= Seq::empty());
                self.num_shreds = 0;
                self.phase = ConfirmPhase::Finished;
                ConfirmAction::Done(Err(BlockstoreProcessorError::FailedToLoadEntries(err)))
            },
            ConfirmEvent::Loaded(Ok(loaded)) => {
                self.entries = loaded.entries;
                self.num_shreds = loaded.num_shreds;
                self.slot_full = loaded.slot_full;
                if self.skip_verification {
                    self.phase = ConfirmPhase::Process;
                    ConfirmAction::Process { randomize: true }
                } else {
                    match verify_tick_count(&self.bank, self.entries.as_slice(), self.slot_full) {
                        Err(err) => self.invalid_block(err),
                        Ok(()) => {
                            self.phase = ConfirmPhase::CountTickHashes;
                            ConfirmAction::CountTickHashes {
                                tick_hash_count: self.progress.tick_hash_count,
                            }
                        },
                    }
                }
            },
            ConfirmEvent::TickHashesCounted(counted) => {
                self.progress.tick_hash_count = counted.tick_hash_count;
                if !counted.verified {
                    self.invalid_block(BlockError::InvalidTickHashCount)
                } else {
                    self.phase = ConfirmPhase::StartVerify;
                    ConfirmAction::StartVerify { last_entry: self.progress.last_entry }
                }
            },
            ConfirmEvent::VerifyStarted { failed } => {
                if failed {
                    self.invalid_block(BlockError::InvalidEntryHash)
                } else {
                    self.phase = ConfirmPhase::Process;
                    ConfirmAction::Process { randomize: true }
                }
            },
            ConfirmEvent::Processed(processed) => {
                self.transaction_error = match processed {
                    Ok(()) => None,
                    Err(err) => Some(err),
                };
                if self.skip_verification {
                    self.conclude()
                } else {
                    self.phase = ConfirmPhase::FinishVerify;
                    ConfirmAction::FinishVerify
                }
            },
            ConfirmEvent::VerifyFinished { verified } => {
                if !verified {
                    self.invalid_block(BlockError::InvalidEntryHash)
                } else {
                    self.conclude()
                }
            },
        }
    }
}

/// Only confirmed entries count as progress: until a confirmation ends well, nothing but the
/// count of hashes since the last tick changes.
pub proof fn law_only_success_is_progress<L, E>(confirm: ConfirmView<E>, event: ConfirmEvent<L, E>)
    requires
        confirm.wf(),
        confirm.expects(event),
    ensures
        confirm.step(event).0.wf(),
        confirm.step(event).1 != ConfirmAction::<L, E>::Done(Ok(())) ==> {
            let (before, after) = (confirm.progress, confirm.step(event).0.progress);
            &&& after.last_entry == before.last_entry
            &&& after.num_shreds == before.num_shreds
            &&& after.num_entries == before.num_entries
            &&& after.num_txs == before.num_txs
        },
        confirm.step(event).1 == ConfirmAction::<L, E>::Done(Ok(())) ==> confirm.step(
            event,
        ).0.progress == confirm.advanced(),
{
}

/// A confirmation without verification is decided by loading and processing alone.
pub proof fn law_skipped_verification_is_not_asked_for<L, E>(
    confirm: ConfirmView<E>,
    event: ConfirmEvent<L, E>,
)
    requires
        confirm.wf(),
        confirm.expects(event),
        confirm.skip_verification,
    ensures
        confirm.step(event).0.skip_verification,
        match confirm.step(event).1 {
            ConfirmAction::Process { .. } => event is Loaded,
            ConfirmAction::Done(Err(BlockstoreProcessorError::FailedToLoadEntries(_))) => event
                is Loaded,
            ConfirmAction::Done(Err(BlockstoreProcessorError::InvalidTransaction(_))) => event
                is Processed,
            ConfirmAction::Done(Ok(())) => event is Processed,
            _ => false,
        },
{
}

/// Wrong hashes are reported even where processing the entries failed too.
pub proof fn law_wrong_hashes_come_first<L, E>(confirm: ConfirmView<E>)
    requires
        confirm.phase is FinishVerify,
    ensures
        confirm.step(ConfirmEvent::<L, E>::VerifyFinished { verified: false }).1 == ConfirmAction::<
            L,
            E,
        >::Done(Err(BlockstoreProcessorError::InvalidBlock(BlockError::InvalidEntryHash))),
{
}

/// Ticks and transactions are counted entry by entry: an entry counts as a tick where it holds no
/// transactions, and with all the transactions that it holds; and two lists of entries hold what
/// both hold.
pub proof fn law_entries_are_counted(entries: Seq<EntryInfo>, more: Seq<EntryInfo>, entry: EntryInfo)
    ensures
        spec_tick_count(Seq::empty()) == 0,
        spec_num_txs(Seq::empty()) == 0,
        spec_tick_count(seq![entry]) == if entry.num_transactions == 0 {
            1nat
        } else {
            0
        },
        spec_num_txs(seq![entry]) == entry.num_transactions,
        spec_tick_count(entries + more) == spec_tick_count(entries) + spec_tick_count(more),
        spec_num_txs(entries + more) == spec_num_txs(entries) + spec_num_txs(more),
    decreases more.len(),
{
    assert(seq![entry].drop_last() =~= Seq::empty());
    assert(spec_tick_count(Seq::empty()) == 0);
    assert(spec_num_txs(Seq::empty()) == 0);
    if more.len() == 0 {
        assert(entries + more =~= entries);
        assert(more =~= Seq::empty());
    } else {
        law_entries_are_counted(entries, more.drop_last(), entry);
        assert((entries + more).drop_last() =~= entries + more.drop_last());
        assert((entries + more).last() == more.last());
    }
}

/// The ticks of a segment are right exactly where they do not reach the end of the slot and more
/// is to come, or where they reach it exactly, with the slot full and a tick as the last entry.
/// Too many or too few of them come first, then an entry behind the last tick, and then a last
/// tick in a slot that is not full.
pub proof fn law_ticks_fill_the_slot(bank: BankTicks, entries: Seq<EntryInfo>, slot_full: bool)
    ensures
        ({
            let missing = bank.max_tick_height - bank.tick_height - spec_tick_count(entries);
            let trailing = entries.len() > 0 && entries[entries.len() - 1].num_transactions > 0;
            let error = tick_count_error(bank, entries, slot_full);
            &&& error is None <==> (missing > 0 && !slot_full) || (missing == 0 && slot_full
                && !trailing)
            &&& error == Some(BlockError::InvalidTickCount) <==> missing < 0 || (missing > 0
                && slot_full)
            &&& error == Some(BlockError::TrailingEntry) <==> missing == 0 && trailing
            &&& error == Some(BlockError::InvalidLastTick) <==> missing == 0 && !trailing
                && !slot_full
        }),
{
}

/// A confirmation that has not loaded anything yet.
pub open spec fn confirmation_of<E>(
    bank: BankTicks,
    skip_verification: bool,
    progress: ConfirmationProgress,
) -> ConfirmView<E> {
    ConfirmView {
        bank,
        skip_verification,
        progress,
        entries: Seq::empty(),
        num_shreds: 0,
        slot_full: false,
        transaction_error: None,
        phase: ConfirmPhase::Load,
    }
}

/// The state after events, and the last action.
pub open spec fn confirmed<L, E>(confirm: ConfirmView<E>, events: Seq<ConfirmEvent<L, E>>) -> (
    ConfirmView<E>,
    Option<ConfirmAction<L, E>>,
)
    decreases events.len(),
{
    if events.len() == 0 {
        (confirm, None)
    } else {
        let (after, action) = confirmed(confirm, events.drop_last()).0.step(events.last());
        (after, Some(action))
    }
}

/// Each event answers what was being waited for.
pub open spec fn all_expected<L, E>(confirm: ConfirmView<E>, events: Seq<ConfirmEvent<L, E>>) -> bool
    decreases events.len(),
{
    events.len() > 0 ==> all_expected(confirm, events.drop_last()) && confirmed(
        confirm,
        events.drop_last(),
    ).0.expects(events.last())
}

/// A confirmation of loaded entries that went all the way and ended well.
pub open spec fn ends_well<L, E>(
    bank: BankTicks,
    skip_verification: bool,
    progress: ConfirmationProgress,
    loaded: LoadedEntries,
    events: Seq<ConfirmEvent<L, E>>,
) -> bool {
    let start = confirmation_of::<E>(bank, skip_verification, progress);
    &&& events.len() > 0
    &&& (events[0] matches ConfirmEvent::Loaded(Ok(first)) && first == loaded)
    &&& all_expected(start, events)
    &&& (confirmed(start, events).1 matches Some(ConfirmAction::Done(Ok(_))))
}

proof fn lemma_confirmed<L, E>(
    bank: BankTicks,
    skip_verification: bool,
    progress: ConfirmationProgress,
    loaded: LoadedEntries,
    events: Seq<ConfirmEvent<L, E>>,
)
    requires
        events.len() > 0,
        (events[0] matches ConfirmEvent::Loaded(Ok(first)) && first == loaded),
        all_expected(confirmation_of::<E>(bank, skip_verification, progress), events),
    ensures
        ({
            let start = confirmation_of::<E>(bank, skip_verification, progress);
            let (after, action) = confirmed(start, events);
            let done = action matches Some(ConfirmAction::Done(Ok(_)));
            &&& after.wf()
            &&& !(after.phase is Load)
            &&& (action matches Some(ConfirmAction::Done(_))) <==> after.phase is Finished
            &&& after.skip_verification == skip_verification
            &&& !done ==> {
                &&& after.entries == loaded.entries@
                &&& after.num_shreds == loaded.num_shreds
                &&& after.progress.last_entry == progress.last_entry
                &&& after.progress.num_shreds == progress.num_shreds
                &&& after.progress.num_entries == progress.num_entries
                &&& after.progress.num_txs == progress.num_txs
            }
            &&& done ==> {
                &&& after.progress.num_shreds == progress.num_shreds + loaded.num_shreds
                &&& after.progress.num_entries == progress.num_entries + loaded.entries@.len()
                &&& after.progress.num_txs == progress.num_txs + spec_num_txs(loaded.entries@)
                &&& after.progress.last_entry == if loaded.entries@.len() > 0 {
                    loaded.entries@[loaded.entries@.len() - 1].hash
                } else {
                    progress.last_entry
                }
            }
        }),
    decreases events.len(),
{
    let start = confirmation_of::<E>(bank, skip_verification, progress);
    let front = events.drop_last();
    if front.len() > 0 {
        assert(front[0] == events[0]);
        lemma_confirmed(bank, skip_verification, progress, loaded, front);
    } else {
        assert(events.last() == events[0]);
        assert(confirmed(start, front).0 == start);
        assert(start.expects(events.last()));
    }
}

/// What a confirmation that ends well adds to the progress is what was loaded: its shreds, its
/// entries and their transactions; and the last of its entries is the last one from then on.
pub proof fn law_confirmed_segment_is_counted<L, E>(
    bank: BankTicks,
    skip_verification: bool,
    progress: ConfirmationProgress,
    loaded: LoadedEntries,
    events: Seq<ConfirmEvent<L, E>>,
)
    requires
        ends_well(bank, skip_verification, progress, loaded, events),
    ensures
        ({
            let start = confirmation_of::<E>(bank, skip_verification, progress);
            let after = confirmed(start, events).0.progress;
            &&& after.num_shreds == progress.num_shreds + loaded.num_shreds
            &&& after.num_entries == progress.num_entries + loaded.entries@.len()
            &&& after.num_txs == progress.num_txs + spec_num_txs(loaded.entries@)
            &&& loaded.entries@.len() == 0 ==> after.last_entry == progress.last_entry
            &&& loaded.entries@.len() > 0 ==> after.last_entry
                == loaded.entries@[loaded.entries@.len() - 1].hash
        }),
{
    lemma_confirmed(bank, skip_verification, progress, loaded, events);
}

/// Until a confirmation has ended well nothing that was loaded counts.
pub proof fn law_unconfirmed_segment_is_not_counted<L, E>(
    bank: BankTicks,
    skip_verification: bool,
    progress: ConfirmationProgress,
    events: Seq<ConfirmEvent<L, E>>,
)
    requires
        all_expected(confirmation_of::<E>(bank, skip_verification, progress), events),
        !(confirmed(confirmation_of::<E>(bank, skip_verification, progress), events).1 matches Some(
            ConfirmAction::Done(Ok(_)),
        )),
    ensures
        ({
            let start = confirmation_of::<E>(bank, skip_verification, progress);
            let after = confirmed(start, events).0.progress;
            &&& after.num_shreds == progress.num_shreds
            &&& after.num_entries == progress.num_entries
            &&& after.num_txs == progress.num_txs
            &&& after.last_entry == progress.last_entry
        }),
    decreases events.len(),
{
    let start = confirmation_of::<E>(bank, skip_verification, progress);
    if events.len() > 0 {
        lemma_expected_front(start, events, 1);
        assert(events.take(1).drop_last() =~= Seq::empty());
        assert(events.take(1).last() == events[0]);
        assert(start.expects(events[0]));
        match events[0] {
            ConfirmEvent::Loaded(Ok(loaded)) => {
                lemma_confirmed(bank, skip_verification, progress, loaded, events);
            },
            _ => {
                if events.len() > 1 {
                    lemma_expected_front(start, events, 2);
                    assert(events.take(2).drop_last() =~= events.take(1));
                    assert(confirmed(start, events.take(1)).0 == start.step(events[0]).0);
                    assert(confirmed(start, events.take(1)).0.phase is Finished);
                }
                assert(events =~= events.take(1));
            },
        }
    }
}

proof fn lemma_expected_front<L, E>(
    start: ConfirmView<E>,
    events: Seq<ConfirmEvent<L, E>>,
    count: int,
)
    requires
        0 < count <= events.len(),
        all_expected(start, events),
    ensures
        all_expected(start, events.take(count)),
    decreases events.len(),
{
    if count < events.len() {
        lemma_expected_front(start, events.drop_last(), count);
        assert(events.drop_last().take(count) =~= events.take(count));
    } else {
        assert(events.take(count) =~= events);
    }
}

/// A segment of a slot: where the bank stands, what was loaded, and how the confirmation went.
pub struct ConfirmedSegment<L, E> {
    pub bank: BankTicks,
    pub loaded: LoadedEntries,
    pub events: Seq<ConfirmEvent<L, E>>,
}

/// The progress after segments, each of which goes on from the progress of those before it.
pub open spec fn progress_after<L, E>(
    skip_verification: bool,
    progress: ConfirmationProgress,
    segments: Seq<ConfirmedSegment<L, E>>,
) -> ConfirmationProgress
    decreases segments.len(),
{
    if segments.len() == 0 {
        progress
    } else {
        let before = progress_after(skip_verification, progress, segments.drop_last());
        confirmed(
            confirmation_of::<E>(segments.last().bank, skip_verification, before),
            segments.last().events,
        ).0.progress
    }
}

/// Each of the segments was confirmed.
pub open spec fn all_end_well<L, E>(
    skip_verification: bool,
    progress: ConfirmationProgress,
    segments: Seq<ConfirmedSegment<L, E>>,
) -> bool
    decreases segments.len(),
{
    segments.len() > 0 ==> all_end_well(skip_verification, progress, segments.drop_last())
        && ends_well(
        segments.last().bank,
        skip_verification,
        progress_after(skip_verification, progress, segments.drop_last()),
        segments.last().loaded,
        segments.last().events,
    )
}

/// The entries of all segments, in order.
pub open spec fn entries_of_all<L, E>(segments: Seq<ConfirmedSegment<L, E>>) -> Seq<EntryInfo>
    decreases segments.len(),
{
    if segments.len() == 0 {
        Seq::empty()
    } else {
        entries_of_all(segments.drop_last()) + segments.last().loaded.entries@
    }
}

/// The shreds of all segments.
pub open spec fn shreds_of_all<L, E>(segments: Seq<ConfirmedSegment<L, E>>) -> nat
    decreases segments.len(),
{
    if segments.len() == 0 {
        0
    } else {
        shreds_of_all(segments.drop_last()) + segments.last().loaded.num_shreds as nat
    }
}

/// Over segments that are confirmed one after the other the counts add up: the progress is that
/// of all the shreds and all the entries taken together.
pub proof fn law_segments_add_up<L, E>(
    skip_verification: bool,
    progress: ConfirmationProgress,
    segments: Seq<ConfirmedSegment<L, E>>,
)
    requires
        all_end_well(skip_verification, progress, segments),
    ensures
        ({
            let after = progress_after(skip_verification, progress, segments);
            let entries = entries_of_all(segments);
            &&& after.num_shreds == progress.num_shreds + shreds_of_all(segments)
            &&& after.num_entries == progress.num_entries + entries.len()
            &&& after.num_txs == progress.num_txs + spec_num_txs(entries)
            &&& after.last_entry == if entries.len() > 0 {
                entries[entries.len() - 1].hash
            } else {
                progress.last_entry
            }
        }),
    decreases segments.len(),
{
    if segments.len() > 0 {
        let front = segments.drop_last();
        let last = segments.last();
        law_segments_add_up(skip_verification, progress, front);
        let before = progress_after(skip_verification, progress, front);
        lemma_confirmed(last.bank, skip_verification, before, last.loaded, last.events);
        if last.loaded.entries@.len() > 0 {
            law_entries_are_counted(
                entries_of_all(front),
                last.loaded.entries@,
                last.loaded.entries@[0],
            );
        } else {
            assert(entries_of_all(segments) =~= entries_of_all(front));
            assert(spec_num_txs(last.loaded.entries@) == 0);
        }
    }
}

/// What is asked for next follows from what came back. Entries that are loaded are checked for
/// their ticks, unless that is skipped; then the hashes of the ticks are counted, going on from
/// those since the last tick; then the hashes of the entries are checked, which follow on the
/// last entry; the entries are processed in random order meanwhile.
pub proof fn law_confirmation_goes_on<L, E>(confirm: ConfirmView<E>, event: ConfirmEvent<L, E>)
    requires
        confirm.wf(),
        confirm.expects(event),
    ensures
        ({
            let (after, action) = confirm.step(event);
            let skip = confirm.skip_verification;
            &&& action is CountTickHashes <==> (event matches ConfirmEvent::Loaded(Ok(loaded))
                && !skip && tick_count_error(
                confirm.bank,
                loaded.entries@,
                loaded.slot_full,
            ) is None)
            &&& action matches ConfirmAction::CountTickHashes { tick_hash_count }
                ==> tick_hash_count == confirm.progress.tick_hash_count && after.phase
                == ConfirmPhase::CountTickHashes
            &&& action is StartVerify <==> (event matches ConfirmEvent::TickHashesCounted(counted)
                && counted.verified)
            &&& action matches ConfirmAction::StartVerify { last_entry } ==> last_entry
                == confirm.progress.last_entry && after.phase == ConfirmPhase::StartVerify
            &&& action is Process <==> (event matches ConfirmEvent::VerifyStarted { failed }
                && !failed) || (event matches ConfirmEvent::Loaded(Ok(_)) && skip)
            &&& action matches ConfirmAction::Process { randomize } ==> randomize && after.phase
                == ConfirmPhase::Process
            &&& action is FinishVerify <==> event is Processed && !skip
            &&& action is FinishVerify ==> after.phase == ConfirmPhase::FinishVerify
            &&& event matches ConfirmEvent::Processed(Ok(_)) ==> after.transaction_error is None
            &&& event matches ConfirmEvent::Processed(Err(err)) ==> skip
                || after.transaction_error == Some(err)
            &&& !(event is Processed) && !(action is Done) ==> after.transaction_error
                == confirm.transaction_error
            &&& after.progress.tick_hash_count == match event {
                ConfirmEvent::TickHashesCounted(counted) => counted.tick_hash_count,
                _ => confirm.progress.tick_hash_count,
            }
            &&& after.bank == confirm.bank
            &&& after.skip_verification == confirm.skip_verification
            &&& event matches ConfirmEvent::Loaded(Ok(loaded)) ==> after.entries
                == loaded.entries@ && after.num_shreds == loaded.num_shreds && after.slot_full
                == loaded.slot_full
            &&& !(event is Loaded) && !(action is Done) ==> after.entries == confirm.entries
                && after.num_shreds == confirm.num_shreds && after.slot_full == confirm.slot_full
        }),
{
}

/// A confirmation ends well exactly where the entries were processed without an error and their
/// hashes are right, or are not asked for. It ends with an error exactly where the entries could
/// not be loaded; where their ticks, or the hashes of these, are wrong; where a hash of an entry
/// is found to be wrong at once or in the end; or else where a transaction failed.
pub proof fn law_confirmation_ends<L, E>(confirm: ConfirmView<E>, event: ConfirmEvent<L, E>)
    requires
        confirm.wf(),
        confirm.expects(event),
    ensures
        ({
            let (after, action) = confirm.step(event);
            let skip = confirm.skip_verification;
            &&& action is Done <==> after.phase is Finished
            &&& action matches ConfirmAction::Done(result) ==> match result {
                Ok(_) => (event matches ConfirmEvent::Processed(Ok(_)) && skip) || (
                event matches ConfirmEvent::VerifyFinished { verified } && verified
                    && confirm.transaction_error is None),
                Err(BlockstoreProcessorError::FailedToLoadEntries(err)) => event
                    matches ConfirmEvent::Loaded(Err(reason)) && reason == err,
                Err(BlockstoreProcessorError::InvalidTransaction(err)) => (
                event matches ConfirmEvent::Processed(Err(reason)) && skip && reason == err) || (
                event matches ConfirmEvent::VerifyFinished { verified } && verified
                    && confirm.transaction_error == Some(err)),
                Err(BlockstoreProcessorError::InvalidBlock(err)) => match event {
                    ConfirmEvent::Loaded(Ok(loaded)) => !skip && tick_count_error(
                        confirm.bank,
                        loaded.entries@,
                        loaded.slot_full,
                    ) == Some(err),
                    ConfirmEvent::TickHashesCounted(counted) => !counted.verified && err
                        == BlockError::InvalidTickHashCount,
                    ConfirmEvent::VerifyStarted { failed } => failed && err
                        == BlockError::InvalidEntryHash,
                    ConfirmEvent::VerifyFinished { verified } => !verified && err
                        == BlockError::InvalidEntryHash,
                    _ => false,
                },
                _ => false,
            }
            &&& event matches ConfirmEvent::Loaded(Err(_)) ==> action is Done
            &&& event matches ConfirmEvent::VerifyFinished { .. } ==> action is Done
            &&& event is Processed && skip ==> action is Done
        }),
{
}

/// After each action its answer is waited for, whatever it is, and nothing else; and after the
/// end nothing is.
pub proof fn law_confirmation_waits_for_the_answer<L, E>(
    confirm: ConfirmView<E>,
    event: ConfirmEvent<L, E>,
    answer: ConfirmEvent<L, E>,
)
    requires
        confirm.wf(),
        confirm.expects(event),
    ensures
        confirm.step(event).0.expects(answer) <==> match confirm.step(event).1 {
            ConfirmAction::CountTickHashes { .. } => answer is TickHashesCounted,
            ConfirmAction::StartVerify { .. } => answer is VerifyStarted,
            ConfirmAction::Process { .. } => answer is Processed,
            ConfirmAction::FinishVerify => answer is VerifyFinished,
            ConfirmAction::Done(_) => false,
        },
{
}

} // verus!
