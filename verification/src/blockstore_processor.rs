//! Replays the blocks of a ledger.

pub mod confirm_slot;
pub mod fork_tree;
pub mod load_frozen_forks;
pub mod process_entries;
pub mod replayed_slots;
pub mod supermajority_root;
pub mod walk_forks;

use vstd::prelude::*;

use crate::clock::Slot;

verus! {

/// Why a block is not valid.
#[derive(Clone, Copy, Debug, PartialEq, Eq, Structural)]
pub enum BlockError {
    /// Block did not have enough ticks was not marked full and no more shreds can be inserted
    Incomplete,
    /// Block entries hashes must all be valid
    InvalidEntryHash,
    /// Blocks must end in a tick that has been marked as the last tick.
    InvalidLastTick,
    /// Blocks can not have extra ticks or missing ticks
    InvalidTickCount,
    /// All ticks must contain the same number of hashes within a block
    InvalidTickHashCount,
    /// Blocks must end in a tick entry, trailing transaction entries are not allowed to guarantee
    /// that each block has the same number of hashes
    TrailingEntry,
}

/// Why the ledger could not be processed: `L` is what a failed load of entries gives, and `E`
/// what a failed transaction does.
#[derive(Debug)]
pub enum BlockstoreProcessorError<L, E> {
    FailedToLoadEntries(L),
    FailedToLoadMeta,
    InvalidBlock(BlockError),
    InvalidTransaction(E),
    NoValidForksFound,
    InvalidHardFork(Slot),
    RootBankWithMismatchedCapitalization(Slot),
}

/// The new hard forks to register before replay starts: those after the starting slot.
pub fn hard_forks_to_register(new_hard_forks: &Vec<Slot>, start_slot: Slot) -> (slots: Vec<Slot>)
    ensures
        slots@ == new_hard_forks@.filter(|slot: Slot| slot > start_slot),
{
    let mut slots: Vec<Slot> = Vec::new();
    let mut i: usize = 0;
    let ghost later = |slot: Slot| slot > start_slot;
    assert(new_hard_forks@.take(0).filter(later) =~= Seq::<Slot>::empty()) by {
        reveal(Seq::filter);
    }
    while i < new_hard_forks.len()
        invariant
            i <= new_hard_forks@.len(),
            later == (|slot: Slot| slot > start_slot),
            slots@ == new_hard_forks@.take(i as int).filter(later),
        decreases new_hard_forks@.len() - i,
    {
        proof {
            reveal(Seq::filter);
            assert(new_hard_forks@.take(i + 1).drop_last() =~= new_hard_forks@.take(i as int));
        }
        if new_hard_forks[i] > start_slot {
            slots.push(new_hard_forks[i]);
        }
        i += 1;
    }
    assert(new_hard_forks@.take(i as int) =~= new_hard_forks@);
    slots
}

/// How a mark on a slot gets into the ledger.
#[derive(Clone, Copy, Debug, PartialEq, Eq, Structural)]
pub enum LedgerMark {
    /// write it
    Write,
    /// the ledger cannot be written to, but holds the mark already
    Present,
    /// the ledger cannot be written to, and lacks the mark
    Missing,
}

/// How to make sure that a slot is marked in the ledger, as a root where replay starts or as
/// dead where it failed to verify. Only primary access can write to the ledger.
pub fn ledger_mark(primary_access: bool, is_marked: bool) -> (mark: LedgerMark)
    ensures
        mark == LedgerMark::Write <==> primary_access,
        mark == LedgerMark::Present <==> !primary_access && is_marked,
        mark == LedgerMark::Missing <==> !primary_access && !is_marked,
{
    if primary_access {
        LedgerMark::Write
    } else if is_marked {
        LedgerMark::Present
    } else {
        LedgerMark::Missing
    }
}

/// What there is to replay of a ledger from a slot on, `M` being what the ledger holds of the
/// slot.
#[derive(Debug)]
pub enum LedgerReplay<M> {
    /// the forks that follow on the slot
    Forks(M),
    /// nothing: these are the tips of the forks, and this is the root
    Nothing { tips: Vec<Slot>, root: Slot },
}

/// What to replay of a ledger. Where it holds nothing of the slot at which to start, that slot
/// comes from a snapshot, and there is no point in processing the rest of the ledger, which
/// should be empty past it.
pub fn ledger_replay<M>(start_slot: Slot, meta: Option<M>) -> (replay: LedgerReplay<M>)
    ensures
        match meta {
            Some(meta) => replay == LedgerReplay::Forks(meta),
            None => replay matches LedgerReplay::Nothing { tips, root } && tips@ == seq![start_slot]
                && root == start_slot,
        },
{
    match meta {
        Some(meta) => LedgerReplay::Forks(meta),
        None => {
            let mut tips: Vec<Slot> = Vec::new();
            tips.push(start_slot);
            assert(tips@ =~= seq![start_slot]);
            LedgerReplay::Nothing { tips, root: start_slot }
        },
    }
}

/// A slot is confirmed in full once its entries are confirmed and its bank is complete.
pub fn confirm_full_slot<L, E>(
    confirmed: Result<(), BlockstoreProcessorError<L, E>>,
    bank_is_complete: bool,
) -> (result: Result<(), BlockstoreProcessorError<L, E>>)
    ensures
        confirmed is Err ==> result == confirmed,
        confirmed is Ok && bank_is_complete ==> result is Ok,
        confirmed is Ok && !bank_is_complete ==> result == Err::<
            (),
            BlockstoreProcessorError<L, E>,
        >(BlockstoreProcessorError::InvalidBlock(BlockError::Incomplete)),
{
    match confirmed {
        Err(err) => Err(err),
        Ok(()) => {
            if !bank_is_complete {
                Err(BlockstoreProcessorError::InvalidBlock(BlockError::Incomplete))
            } else {
                Ok(())
            }
        },
    }
}

/// The outcome of processing the ledger from a root: there has to be a fork to go on from, and
/// the capitalization of the root bank has to match.
pub fn replayed_ledger<L, E>(
    num_forks: usize,
    root: Slot,
    root_capitalization_matches: bool,
) -> (result: Result<(), BlockstoreProcessorError<L, E>>)
    ensures
        result == (if num_forks == 0 {
            Err(BlockstoreProcessorError::<L, E>::NoValidForksFound)
        } else if !root_capitalization_matches {
            Err(BlockstoreProcessorError::RootBankWithMismatchedCapitalization(root))
        } else {
            Ok(())
        }),
{
    if num_forks == 0 {
        return Err(BlockstoreProcessorError::NoValidForksFound);
    }
    if !root_capitalization_matches {
        return Err(BlockstoreProcessorError::RootBankWithMismatchedCapitalization(root));
    }
    Ok(())
}

/// The number of ticks that fill a slot up from its parent on. Only slot 0 can be its own
/// parent, and then has as many ticks as any slot.
pub fn ticks_to_fill(slot: Slot, parent_slot: Slot, ticks_per_slot: u64) -> (num_ticks: u64)
    requires
        parent_slot < slot || slot == 0 && parent_slot == 0,
        (if slot == 0 {
            1
        } else {
            slot - parent_slot
        }) * ticks_per_slot <= u64::MAX,
    ensures
        num_ticks == (if slot == 0 {
            1
        } else {
            slot - parent_slot
        }) * ticks_per_slot,
{
    let num_slots: u64 = if slot == 0 {
        1
    } else {
        slot - parent_slot
    };
    num_slots * ticks_per_slot
}

} // verus!
