use std::collections::BTreeMap;
use std::collections::HashMap;
use std::collections::HashSet;
use std::sync::Arc;

use sha2::Digest;
use solana_validator::blockstore_processor::confirm_full_slot as confirmed_in_full;
use solana_validator::blockstore_processor::confirm_slot::tick_count;
use solana_validator::blockstore_processor::confirm_slot::verify_tick_count;
use solana_validator::blockstore_processor::confirm_slot::verify_ticks;
use solana_validator::blockstore_processor::confirm_slot::BankTicks;
use solana_validator::blockstore_processor::confirm_slot::ConfirmAction;
use solana_validator::blockstore_processor::confirm_slot::ConfirmEvent;
use solana_validator::blockstore_processor::confirm_slot::ConfirmSlot;
use solana_validator::blockstore_processor::confirm_slot::ConfirmationProgress;
use solana_validator::blockstore_processor::confirm_slot::ConfirmationTiming;
use solana_validator::blockstore_processor::confirm_slot::LoadedEntries;
use solana_validator::blockstore_processor::confirm_slot::TickHashCount;
use solana_validator::blockstore_processor::hard_forks_to_register;
use solana_validator::blockstore_processor::ledger_mark;
use solana_validator::blockstore_processor::ledger_replay;
use solana_validator::blockstore_processor::load_frozen_forks::full_next_slots;
use solana_validator::blockstore_processor::load_frozen_forks::BankInfo;
use solana_validator::blockstore_processor::load_frozen_forks::PendingSlot;
use solana_validator::blockstore_processor::load_frozen_forks::SlotMetaInfo;
use solana_validator::blockstore_processor::process_entries::first_err;
use solana_validator::blockstore_processor::process_entries::get_first_error;
use solana_validator::blockstore_processor::process_entries::iteration_order;
use solana_validator::blockstore_processor::process_entries::EntryInfo;
use solana_validator::blockstore_processor::process_entries::ProcessEntries;
use solana_validator::blockstore_processor::process_entries::ReplayAction;
use solana_validator::blockstore_processor::process_entries::ReplayEvent;
use solana_validator::blockstore_processor::replayed_ledger;
use solana_validator::blockstore_processor::supermajority_root::supermajority_root;
use solana_validator::blockstore_processor::supermajority_root::supermajority_root_from_vote_accounts;
use solana_validator::blockstore_processor::supermajority_root::VoteAccountInfo;
use solana_validator::blockstore_processor::supermajority_root::VoteStateInfo;
use solana_validator::blockstore_processor::ticks_to_fill;
use solana_validator::blockstore_processor::walk_forks::WalkAction;
use solana_validator::blockstore_processor::walk_forks::WalkEvent;
use solana_validator::blockstore_processor::walk_forks::WalkForks;
use solana_validator::blockstore_processor::BlockError;
use solana_validator::blockstore_processor::BlockstoreProcessorError;
use solana_validator::blockstore_processor::LedgerMark;
use solana_validator::blockstore_processor::LedgerReplay;
use solana_validator::clock::Slot;
use solana_validator::signature::Signature;

const DEFAULT_TICKS_PER_SLOT: u64 = 64;
const MAX_LOCKOUT_HISTORY: u64 = 31;
const VOTE_THRESHOLD_SIZE: f64 = 2f64 / 3f64;

type Digest32 = solana_validator::hash::Hash;

fn sha256(parts: &[&[u8]]) -> Digest32 {
    let mut hasher = sha2::Sha256::new();
    for part in parts {
        hasher.input(part);
    }
    Digest32::new(hasher.result().as_slice())
}

#[derive(Clone, Copy, Debug, PartialEq)]
enum TransactionError {
    AccountInUse,
    AccountNotFound,
    BlockhashNotFound,
    DuplicateSignature,
}

type TransactionResult = Result<(), TransactionError>;

/// A transfer, or the vote of all of the stake for a root.
#[derive(Clone)]
struct Transaction {
    from: u64,
    to: u64,
    lamports: u64,
    vote_root: Option<Slot>,
    blockhash: Digest32,
    signature: Signature,
}

impl Transaction {
    fn new(from: u64, to: u64, lamports: u64, vote_root: Option<Slot>, hash: Digest32) -> Self {
        let first = sha256(&[&from.to_le_bytes(), &to.to_le_bytes(), &hash.0]);
        let second = sha256(&[&lamports.to_le_bytes(), &first.0]);
        let mut signature = [0; 64];
        signature[..32].copy_from_slice(&first.0);
        signature[32..].copy_from_slice(&second.0);
        Transaction {
            from,
            to,
            lamports,
            vote_root,
            blockhash: hash,
            signature: Signature(signature),
        }
    }
}

fn transfer(from: u64, to: u64, lamports: u64, blockhash: Digest32) -> Transaction {
    Transaction::new(from, to, lamports, None, blockhash)
}

#[derive(Clone)]
struct Entry {
    hash: Digest32,
    num_hashes: u64,
    transactions: Vec<Transaction>,
}

impl Entry {
    fn info(&self) -> EntryInfo {
        EntryInfo {
            hash: self.hash,
            num_hashes: self.num_hashes,
            num_transactions: self.transactions.len(),
        }
    }
}

fn next_hash(start: &Digest32, num_hashes: u64, transactions: &[Transaction]) -> Digest32 {
    if num_hashes == 0 && transactions.is_empty() {
        return *start;
    }
    let mut hash = *start;
    for _ in 1..num_hashes {
        hash = sha256(&[&hash.0]);
    }
    let mut parts: Vec<&[u8]> = vec![&hash.0];
    for transaction in transactions {
        parts.push(&transaction.signature.0);
    }
    sha256(&parts)
}

fn next_entry(start: &Digest32, num_hashes: u64, transactions: Vec<Transaction>) -> Entry {
    Entry {
        hash: next_hash(start, num_hashes, &transactions),
        num_hashes,
        transactions,
    }
}

fn next_entry_mut(start: &mut Digest32, num_hashes: u64, transactions: Vec<Transaction>) -> Entry {
    let entry = next_entry(start, num_hashes, transactions);
    *start = entry.hash;
    entry
}

fn create_ticks(num_ticks: u64, hashes_per_tick: u64, mut hash: Digest32) -> Vec<Entry> {
    (0..num_ticks)
        .map(|_| next_entry_mut(&mut hash, hashes_per_tick, vec![]))
        .collect()
}

const MINT: u64 = 0;

#[derive(Clone)]
struct GenesisConfig {
    mint: u64,
    ticks_per_slot: u64,
    hashes_per_tick: Option<u64>,
}

fn create_genesis_config(mint: u64) -> GenesisConfig {
    GenesisConfig {
        mint,
        ticks_per_slot: DEFAULT_TICKS_PER_SLOT,
        hashes_per_tick: None,
    }
}

impl GenesisConfig {
    fn hash(&self) -> Digest32 {
        sha256(&[b"genesis", &self.mint.to_le_bytes()])
    }
}

#[derive(Clone)]
struct Bank {
    slot: Slot,
    ticks_per_slot: u64,
    hashes_per_tick: Option<u64>,
    tick_height: u64,
    balances: HashMap<u64, u64>,
    locked: HashSet<u64>,
    blockhashes: Vec<Digest32>,
    processed: HashSet<Vec<u8>>,
    vote_root: Option<Slot>,
}

impl Bank {
    fn new(genesis_config: &GenesisConfig) -> Self {
        let mut balances = HashMap::new();
        balances.insert(MINT, genesis_config.mint);
        Bank {
            slot: 0,
            ticks_per_slot: genesis_config.ticks_per_slot,
            hashes_per_tick: genesis_config.hashes_per_tick,
            tick_height: 0,
            balances,
            locked: HashSet::new(),
            blockhashes: vec![genesis_config.hash()],
            processed: HashSet::new(),
            vote_root: None,
        }
    }

    fn new_from_parent(parent: &Bank, slot: Slot) -> Self {
        let mut bank = parent.clone();
        bank.slot = slot;
        bank
    }

    fn max_tick_height(&self) -> u64 {
        (self.slot + 1) * self.ticks_per_slot
    }

    fn is_complete(&self) -> bool {
        self.tick_height == self.max_tick_height()
    }

    fn is_block_boundary(&self, tick_height: u64) -> bool {
        tick_height % self.ticks_per_slot == 0
    }

    fn last_blockhash(&self) -> Digest32 {
        *self.blockhashes.last().unwrap()
    }

    fn register_tick(&mut self, hash: &Digest32) {
        self.tick_height += 1;
        if self.is_block_boundary(self.tick_height) {
            self.blockhashes.push(*hash);
        }
    }

    fn get_balance(&self, account: u64) -> u64 {
        self.balances.get(&account).cloned().unwrap_or(0)
    }

    fn set_balance(&mut self, account: u64, lamports: u64) {
        if lamports == 0 {
            self.balances.remove(&account);
        } else {
            self.balances.insert(account, lamports);
        }
    }

    /// Tries to lock the accounts of each transaction, in the given order.
    fn lock(&mut self, entry: &Entry, order: &Option<Vec<usize>>) -> Vec<TransactionResult> {
        let mut results = Vec::new();
        let mut locked = Vec::new();
        for position in 0..entry.transactions.len() {
            let index = order.as_ref().map_or(position, |order| order[position]);
            let transaction = &entry.transactions[index];
            let accounts = [transaction.from, transaction.to];
            if accounts.iter().any(|account| self.locked.contains(account)) {
                results.push(Err(TransactionError::AccountInUse));
            } else {
                self.locked.extend(accounts.iter());
                locked.extend(accounts.iter().cloned());
                results.push(Ok(()));
            }
        }
        if results.iter().any(|result| result.is_err()) {
            for account in locked {
                self.locked.remove(&account);
            }
        }
        results
    }

    fn unlock(&mut self, entry: &Entry) {
        for transaction in &entry.transactions {
            self.locked.remove(&transaction.from);
            self.locked.remove(&transaction.to);
        }
    }

    fn process_transaction(&mut self, transaction: &Transaction) -> TransactionResult {
        if !self.blockhashes.contains(&transaction.blockhash) {
            return Err(TransactionError::BlockhashNotFound);
        }
        if self.processed.contains(&transaction.signature.0.to_vec()) {
            return Err(TransactionError::DuplicateSignature);
        }
        let available = self.get_balance(transaction.from);
        if available == 0 {
            return Err(TransactionError::AccountNotFound);
        }
        self.processed.insert(transaction.signature.0.to_vec());
        if transaction.vote_root.is_some() {
            self.vote_root = transaction.vote_root;
        }
        // a transfer of more than there is fails after the fee was collected
        if transaction.lamports <= available && transaction.from != transaction.to {
            let received = self.get_balance(transaction.to);
            self.set_balance(transaction.from, available - transaction.lamports);
            self.set_balance(transaction.to, received + transaction.lamports);
        }
        Ok(())
    }

    fn transfer(&mut self, lamports: u64, from: u64, to: u64) -> TransactionResult {
        self.process_transaction(&transfer(from, to, lamports, self.last_blockhash()))
    }

    fn execute_batch(&mut self, entry: &Entry, order: &Option<Vec<usize>>) -> TransactionResult {
        let mut results = Vec::new();
        for position in 0..entry.transactions.len() {
            let index = order.as_ref().map_or(position, |order| order[position]);
            results.push(self.process_transaction(&entry.transactions[index]));
        }
        let signatures: Vec<Signature> = entry
            .transactions
            .iter()
            .map(|transaction| transaction.signature)
            .collect();
        get_first_error(&signatures, order, &results).map_or(Ok(()), |(result, _)| result)
    }
}

fn process_entries_with_callback(
    bank: &mut Bank,
    entries: &[Entry],
    randomize: bool,
    callback: &mut dyn FnMut(&Bank),
) -> TransactionResult {
    let mut replay = ProcessEntries::new(entries.iter().map(|entry| entry.info()).collect());
    let mut orders: HashMap<usize, Option<Vec<usize>>> = HashMap::new();
    let mut event = ReplayEvent::Started;
    loop {
        event = match replay.step(event) {
            ReplayAction::CheckBoundary { ticks } => {
                ReplayEvent::Boundary(bank.is_block_boundary(bank.tick_height + ticks as u64))
            }
            ReplayAction::Lock { entry } => {
                let order = iteration_order(randomize, entries[entry].transactions.len());
                let result = first_err(&bank.lock(&entries[entry], &order));
                if result.is_ok() {
                    orders.insert(entry, order);
                }
                ReplayEvent::Locked(result)
            }
            ReplayAction::Execute { entries: group } => {
                let mut results = Vec::new();
                for entry in &group {
                    results.push(bank.execute_batch(&entries[*entry], &orders[entry]));
                    callback(bank);
                }
                for entry in &group {
                    bank.unlock(&entries[*entry]);
                }
                ReplayEvent::Executed(first_err(&results))
            }
            ReplayAction::RegisterTicks { hashes } => {
                for hash in &hashes {
                    bank.register_tick(hash);
                }
                ReplayEvent::TicksRegistered
            }
            ReplayAction::Done(result) => return result,
        };
    }
}

fn process_entries(bank: &mut Bank, entries: &[Entry], randomize: bool) -> TransactionResult {
    process_entries_with_callback(bank, entries, randomize, &mut |_| ())
}

#[derive(Clone, Copy, Debug, PartialEq)]
enum BlockstoreError {
    DeadSlot,
}

struct SlotData {
    parent: Option<Slot>,
    entries: Vec<Entry>,
    is_full: bool,
}

struct Blockstore {
    slots: BTreeMap<Slot, SlotData>,
    dead: HashSet<Slot>,
    roots: HashSet<Slot>,
}

impl Blockstore {
    fn write_entries(
        &mut self,
        slot: Slot,
        parent: Option<Slot>,
        is_full: bool,
        entries: Vec<Entry>,
    ) {
        let data = SlotData {
            parent,
            entries,
            is_full,
        };
        self.slots.insert(slot, data);
    }

    fn next_slots(&self, slot: Slot) -> Vec<Slot> {
        self.slots
            .iter()
            .filter(|(next, data)| **next != slot && data.parent == Some(slot))
            .map(|(next, _)| *next)
            .collect()
    }

    fn meta(&self, slot: Slot) -> Result<Option<SlotMetaInfo>, BlockstoreError> {
        Ok(self.slots.get(&slot).map(|data| SlotMetaInfo {
            is_full: data.is_full,
        }))
    }

    fn get_slot_entries(&self, slot: Slot, start: u64) -> Result<(Vec<Entry>, bool), BlockstoreError> {
        if self.dead.contains(&slot) {
            return Err(BlockstoreError::DeadSlot);
        }
        let data = &self.slots[&slot];
        Ok((data.entries[start as usize..].to_vec(), data.is_full))
    }

    fn set_roots(&mut self, slots: &[Slot]) {
        self.roots.extend(slots);
    }

    fn max_root(&self) -> Slot {
        self.roots.iter().cloned().max().unwrap_or(0)
    }
}

/// A ledger with slot 0 full of ticks, and the last hash in it.
fn create_new_ledger(genesis_config: &GenesisConfig) -> (Blockstore, Digest32) {
    let mut blockstore = Blockstore {
        slots: BTreeMap::new(),
        dead: HashSet::new(),
        roots: HashSet::new(),
    };
    let entries = create_ticks(
        genesis_config.ticks_per_slot,
        genesis_config.hashes_per_tick.unwrap_or(0),
        genesis_config.hash(),
    );
    let last_hash = entries.last().unwrap().hash;
    blockstore.write_entries(0, None, true, entries);
    (blockstore, last_hash)
}

fn fill_blockstore_slot_with_ticks(
    blockstore: &mut Blockstore,
    ticks_per_slot: u64,
    slot: Slot,
    parent_slot: Slot,
    last_entry_hash: Digest32,
) -> Digest32 {
    // Only slot 0 can be equal to the parent_slot
    assert!(slot.saturating_sub(1) >= parent_slot);
    let num_ticks = ticks_to_fill(slot, parent_slot, ticks_per_slot);
    let entries = create_ticks(num_ticks, 0, last_entry_hash);
    let last_entry_hash = entries.last().unwrap().hash;
    blockstore.write_entries(slot, Some(parent_slot), true, entries);
    last_entry_hash
}

fn verify_tick_hash_count(
    entries: &[Entry],
    mut tick_hash_count: u64,
    hashes_per_tick: u64,
) -> TickHashCount {
    let mut verified = true;
    if hashes_per_tick > 0 {
        for entry in entries {
            tick_hash_count += entry.num_hashes;
            if entry.transactions.is_empty() {
                if tick_hash_count != hashes_per_tick {
                    verified = false;
                    break;
                }
                tick_hash_count = 0;
            }
        }
        verified = verified && tick_hash_count < hashes_per_tick;
    }
    TickHashCount {
        verified,
        tick_hash_count,
    }
}

fn verify_hashes(entries: &[Entry], start: &Digest32) -> bool {
    let mut hash = *start;
    entries.iter().all(|entry| {
        let expected = next_hash(&hash, entry.num_hashes, &entry.transactions);
        hash = entry.hash;
        expected == entry.hash
    })
}

type ProcessorError = BlockstoreProcessorError<BlockstoreError, TransactionError>;

#[derive(Clone, Default)]
struct ProcessOptions {
    poh_verify: bool,
    dev_halt_at_slot: Option<Slot>,
}

fn confirm_slot(
    blockstore: &Blockstore,
    bank: &mut Bank,
    progress: &mut ConfirmationProgress,
    skip_verification: bool,
    callback: &mut dyn FnMut(&Bank),
) -> Result<(), ProcessorError> {
    let ticks = BankTicks {
        tick_height: bank.tick_height,
        max_tick_height: bank.max_tick_height(),
    };
    let mut confirm = ConfirmSlot::new(ticks, skip_verification, *progress);
    let loaded = blockstore.get_slot_entries(bank.slot, confirm.start_shred());
    let entries = loaded.clone().map_or(Vec::new(), |(entries, _)| entries);
    let mut event = ConfirmEvent::Loaded(loaded.map(|(entries, slot_full)| LoadedEntries {
        entries: entries.iter().map(|entry| entry.info()).collect(),
        num_shreds: entries.len() as u64,
        slot_full,
    }));
    let mut verified = true;
    loop {
        event = match confirm.step(event) {
            ConfirmAction::CountTickHashes { tick_hash_count } => {
                ConfirmEvent::TickHashesCounted(verify_tick_hash_count(
                    &entries,
                    tick_hash_count,
                    bank.hashes_per_tick.unwrap_or(0),
                ))
            }
            ConfirmAction::StartVerify { last_entry } => {
                verified = verify_hashes(&entries, &last_entry);
                ConfirmEvent::VerifyStarted { failed: false }
            }
            ConfirmAction::Process { randomize } => ConfirmEvent::Processed(
                process_entries_with_callback(bank, &entries, randomize, callback),
            ),
            ConfirmAction::FinishVerify => ConfirmEvent::VerifyFinished { verified },
            ConfirmAction::Done(result) => {
                *progress = *confirm.progress();
                return result;
            }
        };
    }
}

fn confirm_full_slot(
    blockstore: &Blockstore,
    bank: &mut Bank,
    opts: &ProcessOptions,
    progress: &mut ConfirmationProgress,
    callback: &mut dyn FnMut(&Bank),
) -> Result<(), ProcessorError> {
    let confirmed = confirm_slot(blockstore, bank, progress, !opts.poh_verify, callback);
    confirmed_in_full(confirmed, bank.is_complete())
}

fn process_single_slot(
    blockstore: &mut Blockstore,
    bank: &mut Bank,
    opts: &ProcessOptions,
    last_entry_hash: Digest32,
    callback: &mut dyn FnMut(&Bank),
) -> Result<(), ProcessorError> {
    let mut progress = ConfirmationProgress::new(last_entry_hash);
    let result = confirm_full_slot(blockstore, bank, opts, &mut progress, callback);
    if result.is_err() {
        assert_eq!(ledger_mark(true, false), LedgerMark::Write);
        blockstore.dead.insert(bank.slot);
    }
    result
}

#[derive(Debug)]
struct BankForks {
    tips: Vec<Slot>,
    root: Slot,
    parents: HashMap<Slot, Slot>,
    tick_heights: HashMap<Slot, u64>,
    balances: HashMap<Slot, HashMap<u64, u64>>,
    blockhashes: HashMap<Slot, Digest32>,
}

impl BankForks {
    /// The parents of a bank up to the root.
    fn parents(&self, slot: Slot) -> Vec<Slot> {
        let mut parents = Vec::new();
        let mut slot = slot;
        while slot != self.root {
            slot = self.parents[&slot];
            parents.push(slot);
        }
        parents
    }

    fn frozen_bank_slots(&self) -> Vec<Slot> {
        let mut slots: Vec<Slot> = self.tips.clone();
        for tip in &self.tips {
            slots.extend(self.parents(*tip));
        }
        slots.sort();
        slots.dedup();
        slots
    }

    fn working_bank(&self) -> Slot {
        *self.frozen_bank_slots().last().unwrap()
    }
}

struct Processor<'a> {
    blockstore: &'a mut Blockstore,
    banks: HashMap<Slot, Bank>,
    infos: HashMap<Slot, Arc<BankInfo>>,
    parents: HashMap<Slot, Slot>,
}

impl<'a> Processor<'a> {
    /// A bank for each of the slots, on top of a bank.
    fn create_banks(&mut self, slot: Slot, slots: &[Slot]) -> Vec<Arc<PendingSlot>> {
        let bank = self.banks[&slot].clone();
        let info = self.infos[&slot].clone();
        let mut pending = Vec::new();
        for next in slots {
            let mut ancestors = info.ancestors.clone();
            ancestors.insert(*next);
            let next_info = Arc::new(BankInfo {
                slot: *next,
                parent_slot: Some(slot),
                ancestors,
            });
            self.banks.insert(*next, Bank::new_from_parent(&bank, *next));
            self.infos.insert(*next, next_info.clone());
            self.parents.insert(*next, slot);
            pending.push(Arc::new(PendingSlot {
                bank: next_info,
                next_slots: self.blockstore.next_slots(*next),
                last_entry_hash: bank.last_blockhash(),
            }));
        }
        pending
    }

    fn process(
        &mut self,
        pending: &PendingSlot,
        opts: &ProcessOptions,
        callback: &mut dyn FnMut(&Bank),
    ) -> bool {
        let slot = pending.bank.slot;
        let mut bank = self.banks.remove(&slot).unwrap();
        let result = process_single_slot(
            self.blockstore,
            &mut bank,
            opts,
            pending.last_entry_hash,
            callback,
        );
        if result.is_ok() {
            self.banks.insert(slot, bank);
        }
        result.is_ok()
    }

    /// Returns the tips of the forks, and the root.
    fn load_frozen_forks(
        &mut self,
        root_slot: Slot,
        opts: &ProcessOptions,
        callback: &mut dyn FnMut(&Bank),
    ) -> Result<(Vec<Slot>, Slot), ProcessorError> {
        let mut walk = WalkForks::new(
            self.infos[&root_slot].clone(),
            self.blockstore.next_slots(root_slot),
            self.blockstore.max_root(),
            opts.dev_halt_at_slot,
        );
        let mut slot = root_slot;
        let mut event = WalkEvent::Started;
        loop {
            event = match walk.step(event) {
                WalkAction::LoadMetas { slots } => WalkEvent::Metas(
                    slots.iter().map(|next| self.blockstore.meta(*next)).collect(),
                ),
                WalkAction::CreateBanks { slots } => {
                    WalkEvent::Banks(self.create_banks(slot, &slots))
                }
                WalkAction::Process(pending) => {
                    slot = pending.bank.slot;
                    WalkEvent::Processed(self.process(&pending, opts, callback))
                }
                WalkAction::FindRoot {
                    follows_cluster_root,
                } => {
                    let supermajority_root = supermajority_root_from_vote_accounts(
                        &[VoteAccountInfo {
                            stake: 100,
                            vote_state: Some(VoteStateInfo {
                                root_slot: self.banks[&slot].vote_root,
                            }),
                        }],
                        |total| total as f64 / 100f64 > VOTE_THRESHOLD_SIZE,
                    );
                    if follows_cluster_root {
                        if let Some(root) = supermajority_root {
                            assert!(root <= walk.root() || walk.can_be_root(root));
                        }
                    }
                    WalkEvent::RootFound {
                        supermajority_root,
                        is_root: self.blockstore.roots.contains(&slot),
                    }
                }
                WalkAction::SetRoot(root) => {
                    assert_eq!(root, walk.root());
                    WalkEvent::RootSet
                }
                WalkAction::Done(result) => return result.map(|tips| (tips, walk.root())),
            };
        }
    }
}

fn process_blockstore_from_root(
    blockstore: &mut Blockstore,
    bank: Bank,
    opts: &ProcessOptions,
    callback: &mut dyn FnMut(&Bank),
) -> Result<BankForks, ProcessorError> {
    let root_slot = bank.slot;
    blockstore.set_roots(&[root_slot]);
    let info = BankInfo {
        slot: root_slot,
        parent_slot: None,
        ancestors: vec![root_slot].into_iter().collect(),
    };
    let mut processor = Processor {
        blockstore,
        banks: vec![(root_slot, bank)].into_iter().collect(),
        infos: vec![(root_slot, Arc::new(info))].into_iter().collect(),
        parents: HashMap::new(),
    };
    let (tips, root) = processor.load_frozen_forks(root_slot, opts, callback)?;
    replayed_ledger(tips.len(), root, true)?;
    let banks = processor.banks;
    Ok(BankForks {
        tips,
        root,
        parents: processor.parents,
        tick_heights: banks.iter().map(|(slot, bank)| (*slot, bank.tick_height)).collect(),
        balances: banks.iter().map(|(slot, bank)| (*slot, bank.balances.clone())).collect(),
        blockhashes: banks.iter().map(|(slot, bank)| (*slot, bank.last_blockhash())).collect(),
    })
}

fn process_blockstore_with_callback(
    genesis_config: &GenesisConfig,
    blockstore: &mut Blockstore,
    opts: &ProcessOptions,
    callback: &mut dyn FnMut(&Bank),
) -> Result<BankForks, ProcessorError> {
    let mut bank0 = Bank::new(genesis_config);
    let mut progress = ConfirmationProgress::new(bank0.last_blockhash());
    confirm_full_slot(blockstore, &mut bank0, opts, &mut progress, &mut |_| ())
        .expect("processing for bank 0 must succeed");
    process_blockstore_from_root(blockstore, bank0, opts, callback)
}

fn process_blockstore(
    genesis_config: &GenesisConfig,
    blockstore: &mut Blockstore,
    opts: &ProcessOptions,
) -> BankForks {
    process_blockstore_with_callback(genesis_config, blockstore, opts, &mut |_| ()).unwrap()
}

fn with_poh_verify() -> ProcessOptions {
    ProcessOptions {
        poh_verify: true,
        ..ProcessOptions::default()
    }
}

#[test]
fn test_process_blockstore_with_missing_hashes() {
    let hashes_per_tick = 2;
    let mut genesis_config = create_genesis_config(10_000);
    genesis_config.hashes_per_tick = Some(hashes_per_tick);
    let ticks_per_slot = genesis_config.ticks_per_slot;

    let (mut blockstore, blockhash) = create_new_ledger(&genesis_config);

    let parent_slot = 0;
    let slot = 1;
    let entries = create_ticks(ticks_per_slot, hashes_per_tick - 1, blockhash);
    blockstore.write_entries(slot, Some(parent_slot), true, entries);

    let bank_forks = process_blockstore(&genesis_config, &mut blockstore, &with_poh_verify());
    assert_eq!(bank_forks.frozen_bank_slots(), vec![0]);
}

#[test]
fn test_process_blockstore_with_invalid_slot_tick_count() {
    let genesis_config = create_genesis_config(10_000);
    let ticks_per_slot = genesis_config.ticks_per_slot;

    // Create a new ledger with slot 0 full of ticks
    let (mut blockstore, blockhash) = create_new_ledger(&genesis_config);

    // Write slot 1 with one tick missing
    let parent_slot = 0;
    let slot = 1;
    let entries = create_ticks(ticks_per_slot - 1, 0, blockhash);
    blockstore.write_entries(slot, Some(parent_slot), true, entries);

    // Should return slot 0, the last slot on the fork that is valid
    let bank_forks = process_blockstore(&genesis_config, &mut blockstore, &with_poh_verify());
    assert_eq!(bank_forks.frozen_bank_slots(), vec![0]);

    // Write slot 2 fully
    fill_blockstore_slot_with_ticks(&mut blockstore, ticks_per_slot, 2, 0, blockhash);

    let bank_forks = process_blockstore(&genesis_config, &mut blockstore, &with_poh_verify());

    // One valid fork, one bad fork.  process_blockstore() should only return the valid fork
    assert_eq!(bank_forks.frozen_bank_slots(), vec![0, 2]);
    assert_eq!(bank_forks.working_bank(), 2);
    assert_eq!(bank_forks.root, 0);
}

#[test]
fn test_process_blockstore_with_slot_with_trailing_entry() {
    let genesis_config = create_genesis_config(10_000);
    let ticks_per_slot = genesis_config.ticks_per_slot;

    let (mut blockstore, blockhash) = create_new_ledger(&genesis_config);

    let mut entries = create_ticks(ticks_per_slot, 0, blockhash);
    let trailing_entry = next_entry(&blockhash, 1, vec![transfer(MINT, 1, 1, blockhash)]);
    entries.push(trailing_entry);

    let parent_slot = 0;
    let slot = 1;
    blockstore.write_entries(slot, Some(parent_slot), true, entries);

    let bank_forks = process_blockstore(&genesis_config, &mut blockstore, &with_poh_verify());
    assert_eq!(bank_forks.frozen_bank_slots(), vec![0]);
}

#[test]
fn test_process_blockstore_with_incomplete_slot() {
    let genesis_config = create_genesis_config(10_000);
    let ticks_per_slot = genesis_config.ticks_per_slot;

    /*
      Build a blockstore in the ledger with the following fork structure:

           slot 0 (all ticks)
             |
           slot 1 (all ticks but one)
             |
           slot 2 (all ticks)

       where slot 1 is incomplete (missing 1 tick at the end)
    */

    // Create a new ledger with slot 0 full of ticks
    let (mut blockstore, mut blockhash) = create_new_ledger(&genesis_config);

    // Write slot 1
    // slot 1, points at slot 0.  Missing one tick
    {
        let parent_slot = 0;
        let slot = 1;
        let mut entries = create_ticks(ticks_per_slot, 0, blockhash);
        blockhash = entries.last().unwrap().hash;

        // throw away last one
        entries.pop();

        blockstore.write_entries(slot, Some(parent_slot), false, entries);
    }

    // slot 2, points at slot 1
    fill_blockstore_slot_with_ticks(&mut blockstore, ticks_per_slot, 2, 1, blockhash);

    let bank_forks = process_blockstore(&genesis_config, &mut blockstore, &with_poh_verify());

    assert_eq!(bank_forks.frozen_bank_slots(), vec![0]); // slot 1 isn't "full", we stop at slot zero

    /* Add a complete slot such that the store looks like:

                             slot 0 (all ticks)
                           /                  \
           slot 1 (all ticks but one)        slot 3 (all ticks)
                  |
           slot 2 (all ticks)
    */
    fill_blockstore_slot_with_ticks(&mut blockstore, ticks_per_slot, 3, 0, blockhash);
    // Slot 0 should not show up in the ending bank_forks_info
    let bank_forks = process_blockstore(&genesis_config, &mut blockstore, &with_poh_verify());

    // slot 1 isn't "full", we stop at slot zero
    assert_eq!(bank_forks.frozen_bank_slots(), vec![0, 3]);
}

/// A ledger with slots 1, 2 and 3 in a row on slot 0, and slot 4 on slot 1.
fn create_two_forks(genesis_config: &GenesisConfig) -> Blockstore {
    let ticks_per_slot = genesis_config.ticks_per_slot;
    let (mut blockstore, blockhash) = create_new_ledger(genesis_config);
    let last_slot1_entry_hash =
        fill_blockstore_slot_with_ticks(&mut blockstore, ticks_per_slot, 1, 0, blockhash);
    let last_entry_hash = fill_blockstore_slot_with_ticks(
        &mut blockstore,
        ticks_per_slot,
        2,
        1,
        last_slot1_entry_hash,
    );
    fill_blockstore_slot_with_ticks(&mut blockstore, ticks_per_slot, 3, 2, last_entry_hash);
    fill_blockstore_slot_with_ticks(
        &mut blockstore,
        ticks_per_slot,
        4,
        1,
        last_slot1_entry_hash,
    );
    blockstore
}

#[test]
fn test_process_blockstore_with_two_forks_and_squash() {
    let genesis_config = create_genesis_config(10_000);

    /*
             slot 0
               |
             slot 1
             /   \
        slot 2   |
           /     |
        slot 3   |
                 |
               slot 4 <-- set_root(true)
    */
    let mut blockstore = create_two_forks(&genesis_config);
    blockstore.set_roots(&[0, 1, 4]);

    let bank_forks = process_blockstore(&genesis_config, &mut blockstore, &with_poh_verify());

    // One fork, other one is ignored b/c not a descendant of the root
    assert_eq!(bank_forks.frozen_bank_slots(), vec![4]);
    assert!(bank_forks.parents(4).is_empty());
    assert_eq!(bank_forks.root, 4);
}

#[test]
fn test_process_blockstore_with_two_forks() {
    let genesis_config = create_genesis_config(10_000);

    /*
             slot 0
               |
             slot 1  <-- set_root(true)
             /   \
        slot 2   |
           /     |
        slot 3   |
                 |
               slot 4
    */
    let mut blockstore = create_two_forks(&genesis_config);
    blockstore.set_roots(&[0, 1]);

    let bank_forks = process_blockstore(&genesis_config, &mut blockstore, &with_poh_verify());

    assert_eq!(bank_forks.frozen_bank_slots(), vec![1, 2, 3, 4]);
    assert_eq!(bank_forks.working_bank(), 4);
    assert_eq!(bank_forks.root, 1);
    assert_eq!(bank_forks.parents(3), vec![2, 1]);
    assert_eq!(bank_forks.parents(4), vec![1]);
}

#[test]
fn test_process_blockstore_with_dead_slot() {
    let genesis_config = create_genesis_config(10_000);
    let ticks_per_slot = genesis_config.ticks_per_slot;
    let (mut blockstore, blockhash) = create_new_ledger(&genesis_config);

    /*
               slot 0
                 |
               slot 1
              /     \
             /       \
       slot 2 (dead)  \
                       \
                    slot 3
    */
    let slot1_blockhash =
        fill_blockstore_slot_with_ticks(&mut blockstore, ticks_per_slot, 1, 0, blockhash);
    fill_blockstore_slot_with_ticks(&mut blockstore, ticks_per_slot, 2, 1, slot1_blockhash);
    blockstore.dead.insert(2);
    fill_blockstore_slot_with_ticks(&mut blockstore, ticks_per_slot, 3, 1, slot1_blockhash);

    let bank_forks = process_blockstore(
        &genesis_config,
        &mut blockstore,
        &ProcessOptions::default(),
    );

    assert_eq!(bank_forks.frozen_bank_slots(), vec![0, 1, 3]);
    assert_eq!(bank_forks.working_bank(), 3);
    assert_eq!(bank_forks.parents(3), vec![1, 0]);
}

#[test]
fn test_process_blockstore_with_dead_child() {
    let genesis_config = create_genesis_config(10_000);
    let ticks_per_slot = genesis_config.ticks_per_slot;
    let (mut blockstore, blockhash) = create_new_ledger(&genesis_config);

    /*
               slot 0
                 |
               slot 1
              /     \
             /       \
          slot 2      \
           /           \
       slot 4 (dead)   slot 3
    */
    let slot1_blockhash =
        fill_blockstore_slot_with_ticks(&mut blockstore, ticks_per_slot, 1, 0, blockhash);
    let slot2_blockhash =
        fill_blockstore_slot_with_ticks(&mut blockstore, ticks_per_slot, 2, 1, slot1_blockhash);
    fill_blockstore_slot_with_ticks(&mut blockstore, ticks_per_slot, 4, 2, slot2_blockhash);
    blockstore.dead.insert(4);
    fill_blockstore_slot_with_ticks(&mut blockstore, ticks_per_slot, 3, 1, slot1_blockhash);

    let bank_forks = process_blockstore(
        &genesis_config,
        &mut blockstore,
        &ProcessOptions::default(),
    );

    // Should see the parent of the dead child
    assert_eq!(bank_forks.frozen_bank_slots(), vec![0, 1, 2, 3]);
    assert_eq!(bank_forks.working_bank(), 3);
    assert_eq!(bank_forks.parents(3), vec![1, 0]);
    assert_eq!(bank_forks.parents(2), vec![1, 0]);
}

#[test]
fn test_root_with_all_dead_children() {
    let genesis_config = create_genesis_config(10_000);
    let ticks_per_slot = genesis_config.ticks_per_slot;
    let (mut blockstore, blockhash) = create_new_ledger(&genesis_config);

    /*
               slot 0
             /        \
            /          \
       slot 1 (dead)  slot 2 (dead)
    */
    fill_blockstore_slot_with_ticks(&mut blockstore, ticks_per_slot, 1, 0, blockhash);
    fill_blockstore_slot_with_ticks(&mut blockstore, ticks_per_slot, 2, 0, blockhash);
    blockstore.dead.insert(1);
    blockstore.dead.insert(2);
    let bank_forks = process_blockstore(
        &genesis_config,
        &mut blockstore,
        &ProcessOptions::default(),
    );

    // Should see only the parent of the dead children
    assert_eq!(bank_forks.frozen_bank_slots(), vec![0]);
}

#[test]
fn test_process_blockstore_epoch_boundary_root() {
    let genesis_config = create_genesis_config(10_000);
    let ticks_per_slot = genesis_config.ticks_per_slot;

    // Create a new ledger with slot 0 full of ticks
    let (mut blockstore, blockhash) = create_new_ledger(&genesis_config);
    let mut last_entry_hash = blockhash;

    // Let `last_slot` be the number of slots in the first two epochs
    let last_slot = 95;

    // Create a single chain of slots with all indexes in the range [0, v + 1]
    for i in 1..=last_slot + 1 {
        last_entry_hash = fill_blockstore_slot_with_ticks(
            &mut blockstore,
            ticks_per_slot,
            i,
            i - 1,
            last_entry_hash,
        );
    }

    // Set a root on the last slot of the last confirmed epoch
    let rooted_slots: Vec<Slot> = (0..=last_slot).collect();
    blockstore.set_roots(&rooted_slots);

    // Set a root on the next slot of the confirmed epoch
    blockstore.set_roots(&[last_slot + 1]);

    let bank_forks = process_blockstore(&genesis_config, &mut blockstore, &with_poh_verify());

    // There is one fork, head is last_slot + 1
    assert_eq!(bank_forks.frozen_bank_slots(), vec![last_slot + 1]);

    // The latest root should have purged all its parents
    assert!(bank_forks.parents(last_slot + 1).is_empty());
}

#[test]
fn test_first_err() {
    assert_eq!(first_err::<TransactionError>(&[Ok(())]), Ok(()));
    assert_eq!(
        first_err(&[Ok(()), Err(TransactionError::DuplicateSignature)]),
        Err(TransactionError::DuplicateSignature)
    );
    assert_eq!(
        first_err(&[
            Ok(()),
            Err(TransactionError::DuplicateSignature),
            Err(TransactionError::AccountInUse)
        ]),
        Err(TransactionError::DuplicateSignature)
    );
    assert_eq!(
        first_err(&[
            Ok(()),
            Err(TransactionError::AccountInUse),
            Err(TransactionError::DuplicateSignature)
        ]),
        Err(TransactionError::AccountInUse)
    );
    assert_eq!(
        first_err(&[
            Err(TransactionError::AccountInUse),
            Ok(()),
            Err(TransactionError::DuplicateSignature)
        ]),
        Err(TransactionError::AccountInUse)
    );
}

#[test]
fn test_process_empty_entry_is_registered() {
    let genesis_config = create_genesis_config(2);
    let mut bank = Bank::new(&genesis_config);
    let slot_entries = create_ticks(genesis_config.ticks_per_slot, 1, genesis_config.hash());
    let tx = transfer(MINT, 1, 1, slot_entries.last().unwrap().hash);

    // First, ensure the TX is rejected because of the unregistered last ID
    assert_eq!(
        bank.process_transaction(&tx),
        Err(TransactionError::BlockhashNotFound)
    );

    // Now ensure the TX is accepted despite pointing to the ID of an empty entry.
    process_entries(&mut bank, &slot_entries, true).unwrap();
    assert_eq!(bank.process_transaction(&tx), Ok(()));
}

#[test]
fn test_process_ledger_simple() {
    let mint = 100;
    let hashes_per_tick = 10;
    let mut genesis_config = create_genesis_config(mint);
    genesis_config.hashes_per_tick = Some(hashes_per_tick);
    let (mut blockstore, mut last_entry_hash) = create_new_ledger(&genesis_config);

    let deducted_from_mint = 3;
    let mut entries = vec![];
    let blockhash = genesis_config.hash();
    for i in 0..deducted_from_mint {
        // Transfer one token from the mint to a random account
        let tx = transfer(MINT, 1 + 2 * i, 1, blockhash);
        let entry = next_entry_mut(&mut last_entry_hash, 1, vec![tx]);
        entries.push(entry);

        // Add a second Transaction that will fail when processed
        let tx = transfer(MINT, 2 + 2 * i, 101, blockhash);
        let entry = next_entry_mut(&mut last_entry_hash, 1, vec![tx]);
        entries.push(entry);
    }

    let remaining_hashes = hashes_per_tick - entries.len() as u64;
    let tick_entry = next_entry_mut(&mut last_entry_hash, remaining_hashes, vec![]);
    entries.push(tick_entry);

    // Fill up the rest of slot 1 with ticks
    entries.extend(create_ticks(
        genesis_config.ticks_per_slot - 1,
        hashes_per_tick,
        last_entry_hash,
    ));
    let last_blockhash = entries.last().unwrap().hash;

    blockstore.write_entries(1, Some(0), true, entries);
    let bank_forks = process_blockstore(&genesis_config, &mut blockstore, &with_poh_verify());

    assert_eq!(bank_forks.frozen_bank_slots(), vec![0, 1]);
    assert_eq!(bank_forks.root, 0);
    assert_eq!(bank_forks.working_bank(), 1);

    assert_eq!(bank_forks.balances[&1][&MINT], mint - deducted_from_mint);
    assert_eq!(bank_forks.tick_heights[&1], 2 * genesis_config.ticks_per_slot);
    assert_eq!(bank_forks.blockhashes[&1], last_blockhash);
}

#[test]
fn test_process_ledger_with_one_tick_per_slot() {
    let mut genesis_config = create_genesis_config(123);
    genesis_config.ticks_per_slot = 1;
    let (mut blockstore, _blockhash) = create_new_ledger(&genesis_config);

    let bank_forks = process_blockstore(&genesis_config, &mut blockstore, &with_poh_verify());

    assert_eq!(bank_forks.frozen_bank_slots(), vec![0]);
    assert_eq!(bank_forks.tick_heights[&0], 1);
}

#[test]
fn test_process_ledger_options_entry_callback() {
    let genesis_config = create_genesis_config(100);
    let (mut blockstore, last_entry_hash) = create_new_ledger(&genesis_config);
    let blockhash = genesis_config.hash();
    let accounts = [1, 2, 3];

    let tx = transfer(MINT, accounts[0], 1, blockhash);
    let entry_1 = next_entry(&last_entry_hash, 1, vec![tx]);

    let tx = transfer(MINT, accounts[1], 1, blockhash);
    let entry_2 = next_entry(&entry_1.hash, 1, vec![tx]);

    let mut entries = vec![entry_1, entry_2];
    entries.extend(create_ticks(
        genesis_config.ticks_per_slot,
        0,
        last_entry_hash,
    ));
    blockstore.write_entries(1, Some(0), true, entries);

    let mut counter = 0;
    let mut callback = |bank: &Bank| {
        assert_eq!(bank.get_balance(accounts[counter]), 1);
        assert_eq!(bank.get_balance(accounts[counter + 1]), 0);
        counter += 1;
    };
    process_blockstore_with_callback(
        &genesis_config,
        &mut blockstore,
        &ProcessOptions::default(),
        &mut callback,
    )
    .unwrap();
    assert_eq!(counter, 2);
}

#[test]
fn test_process_entries_tick() {
    let genesis_config = create_genesis_config(1000);
    let mut bank = Bank::new(&genesis_config);

    // ensure bank can process a tick
    assert_eq!(bank.tick_height, 0);
    let tick = next_entry(&genesis_config.hash(), 1, vec![]);
    assert_eq!(process_entries(&mut bank, &[tick], true), Ok(()));
    assert_eq!(bank.tick_height, 1);
}

#[test]
fn test_process_entries_2_entries_collision() {
    let mut bank = Bank::new(&create_genesis_config(1000));
    let (keypair1, keypair2) = (1, 2);

    let blockhash = bank.last_blockhash();

    // ensure bank can process 2 entries that have a common account and no tick is registered
    let tx = transfer(MINT, keypair1, 2, bank.last_blockhash());
    let entry_1 = next_entry(&blockhash, 1, vec![tx]);
    let tx = transfer(MINT, keypair2, 2, bank.last_blockhash());
    let entry_2 = next_entry(&entry_1.hash, 1, vec![tx]);
    assert_eq!(process_entries(&mut bank, &[entry_1, entry_2], true), Ok(()));
    assert_eq!(bank.get_balance(keypair1), 2);
    assert_eq!(bank.get_balance(keypair2), 2);
    assert_eq!(bank.last_blockhash(), blockhash);
}

#[test]
fn test_process_entries_2_txes_collision() {
    let mut bank = Bank::new(&create_genesis_config(1000));
    let (keypair1, keypair2, keypair3) = (1, 2, 3);

    // fund: put 4 in each of 1 and 2
    assert_eq!(bank.transfer(4, MINT, keypair1), Ok(()));
    assert_eq!(bank.transfer(4, MINT, keypair2), Ok(()));

    // construct an Entry whose 2nd transaction would cause a lock conflict with previous entry
    let blockhash = bank.last_blockhash();
    let entry_1_to_mint = next_entry(&blockhash, 1, vec![transfer(keypair1, MINT, 1, blockhash)]);

    let entry_2_to_3_mint_to_1 = next_entry(
        &entry_1_to_mint.hash,
        1,
        vec![
            transfer(keypair2, keypair3, 2, blockhash), // should be fine
            transfer(keypair1, MINT, 2, blockhash),     // will collide
        ],
    );

    assert_eq!(
        process_entries(
            &mut bank,
            &[entry_1_to_mint, entry_2_to_3_mint_to_1],
            false
        ),
        Ok(())
    );

    assert_eq!(bank.get_balance(keypair1), 1);
    assert_eq!(bank.get_balance(keypair2), 2);
    assert_eq!(bank.get_balance(keypair3), 2);
}

#[test]
fn test_process_entries_2_txes_collision_and_error() {
    let mut bank = Bank::new(&create_genesis_config(1000));
    let (keypair1, keypair2, keypair3, keypair4) = (1, 2, 3, 4);

    // fund: put 4 in each of 1 and 2
    assert_eq!(bank.transfer(4, MINT, keypair1), Ok(()));
    assert_eq!(bank.transfer(4, MINT, keypair2), Ok(()));
    assert_eq!(bank.transfer(4, MINT, keypair4), Ok(()));

    // construct an Entry whose 2nd transaction would cause a lock conflict with previous entry
    let blockhash = bank.last_blockhash();
    let entry_1_to_mint = next_entry(
        &blockhash,
        1,
        vec![
            transfer(keypair1, MINT, 1, blockhash),
            // Should cause a transaction failure with BlockhashNotFound
            transfer(keypair4, keypair4, 1, Digest32::default()),
        ],
    );

    let entry_2_to_3_mint_to_1 = next_entry(
        &entry_1_to_mint.hash,
        1,
        vec![
            transfer(keypair2, keypair3, 2, blockhash), // should be fine
            transfer(keypair1, MINT, 2, blockhash),     // will collide
        ],
    );

    assert!(process_entries(
        &mut bank,
        &[entry_1_to_mint.clone(), entry_2_to_3_mint_to_1.clone()],
        false,
    )
    .is_err());

    // First transaction in first entry succeeded, so keypair1 lost 1 lamport
    assert_eq!(bank.get_balance(keypair1), 3);
    assert_eq!(bank.get_balance(keypair2), 4);

    // Check all accounts are unlocked
    for result in bank.lock(&entry_1_to_mint, &None) {
        assert!(result.is_ok());
    }
    // the entries have accounts that conflict, so we must unlock the first one
    bank.unlock(&entry_1_to_mint);
    for result in bank.lock(&entry_2_to_3_mint_to_1, &None) {
        assert!(result.is_ok());
    }
}

#[test]
fn test_process_entries_2nd_entry_collision_with_self_and_error() {
    let mut bank = Bank::new(&create_genesis_config(1000));
    let (keypair1, keypair2, keypair3) = (1, 2, 3);

    // fund: put some money in each of 1 and 2
    assert_eq!(bank.transfer(5, MINT, keypair1), Ok(()));
    assert_eq!(bank.transfer(4, MINT, keypair2), Ok(()));

    // 3 entries: first has a transfer, 2nd has a conflict with 1st, 3rd has a conflict with itself
    let blockhash = bank.last_blockhash();
    let entry_1_to_mint = next_entry(&blockhash, 1, vec![transfer(keypair1, MINT, 1, blockhash)]);
    // should now be:
    // keypair1=4
    // keypair2=4
    // keypair3=0

    let entry_2_to_3_and_1_to_mint = next_entry(
        &entry_1_to_mint.hash,
        1,
        vec![
            transfer(keypair2, keypair3, 2, blockhash), // should be fine
            transfer(keypair1, MINT, 2, blockhash),     // will collide with predecessor
        ],
    );
    // should now be:
    // keypair1=2
    // keypair2=2
    // keypair3=2

    let entry_conflict_itself = next_entry(
        &entry_2_to_3_and_1_to_mint.hash,
        1,
        vec![
            transfer(keypair1, keypair3, 1, blockhash),
            transfer(keypair1, keypair2, 1, blockhash), // should be fine
        ],
    );
    // would now be:
    // keypair1=0
    // keypair2=3
    // keypair3=3

    assert!(process_entries(
        &mut bank,
        &[
            entry_1_to_mint,
            entry_2_to_3_and_1_to_mint,
            entry_conflict_itself,
        ],
        false,
    )
    .is_err());

    // last entry should have been aborted before par_execute_entries
    assert_eq!(bank.get_balance(keypair1), 2);
    assert_eq!(bank.get_balance(keypair2), 2);
    assert_eq!(bank.get_balance(keypair3), 2);
}

#[test]
fn test_process_entries_2_entries_par() {
    let mut bank = Bank::new(&create_genesis_config(1000));
    let (keypair1, keypair2, keypair3, keypair4) = (1, 2, 3, 4);

    //load accounts
    let tx = transfer(MINT, keypair1, 1, bank.last_blockhash());
    assert_eq!(bank.process_transaction(&tx), Ok(()));
    let tx = transfer(MINT, keypair2, 1, bank.last_blockhash());
    assert_eq!(bank.process_transaction(&tx), Ok(()));

    // ensure bank can process 2 entries that do not have a common account and no tick is registered
    let blockhash = bank.last_blockhash();
    let tx = transfer(keypair1, keypair3, 1, bank.last_blockhash());
    let entry_1 = next_entry(&blockhash, 1, vec![tx]);
    let tx = transfer(keypair2, keypair4, 1, bank.last_blockhash());
    let entry_2 = next_entry(&entry_1.hash, 1, vec![tx]);
    assert_eq!(process_entries(&mut bank, &[entry_1, entry_2], true), Ok(()));
    assert_eq!(bank.get_balance(keypair3), 1);
    assert_eq!(bank.get_balance(keypair4), 1);
    assert_eq!(bank.last_blockhash(), blockhash);
}

#[test]
fn test_process_entry_tx_random_execution_with_error() {
    let mut bank = Bank::new(&create_genesis_config(1_000_000_000));

    const NUM_TRANSFERS_PER_ENTRY: usize = 8;
    const NUM_TRANSFERS: usize = NUM_TRANSFERS_PER_ENTRY * 32;
    // large enough to scramble locks and results

    let keypairs: Vec<u64> = (0..NUM_TRANSFERS * 2).map(|i| 1 + i as u64).collect();

    // give everybody one lamport
    for keypair in &keypairs {
        bank.transfer(1, MINT, *keypair).expect("funding failed");
    }
    let mut hash = bank.last_blockhash();

    let present_account_key = 1_000_000;
    bank.set_balance(present_account_key, 1);

    let entries: Vec<Entry> = (0..NUM_TRANSFERS)
        .step_by(NUM_TRANSFERS_PER_ENTRY)
        .map(|i| {
            let mut transactions = (0..NUM_TRANSFERS_PER_ENTRY)
                .map(|j| {
                    transfer(
                        keypairs[i + j],
                        keypairs[i + j + NUM_TRANSFERS],
                        1,
                        bank.last_blockhash(),
                    )
                })
                .collect::<Vec<Transaction>>();

            // puts a TX error in results
            transactions.push(transfer(
                MINT,
                present_account_key,
                2_000_000_000 + i as u64,
                bank.last_blockhash(),
            ));

            next_entry_mut(&mut hash, 0, transactions)
        })
        .collect();
    assert_eq!(process_entries(&mut bank, &entries, true), Ok(()));
}

#[test]
fn test_process_entry_tx_random_execution_no_error() {
    // entropy multiplier should be big enough to provide sufficient entropy
    // but small enough to not take too much time while executing the test.
    let entropy_multiplier: usize = 25;
    let initial_lamports = 100;

    // number of accounts need to be in multiple of 4 for correct
    // execution of the test.
    let num_accounts = entropy_multiplier * 4;
    let genesis_config = create_genesis_config((num_accounts + 1) as u64 * initial_lamports);

    let mut bank = Bank::new(&genesis_config);

    let keypairs: Vec<u64> = (0..num_accounts).map(|i| 1 + i as u64).collect();
    for keypair in &keypairs {
        let create_account_tx = transfer(MINT, *keypair, 0, bank.last_blockhash());
        assert_eq!(bank.process_transaction(&create_account_tx), Ok(()));
        assert_eq!(bank.transfer(initial_lamports, MINT, *keypair), Ok(()));
    }

    let mut tx_vector: Vec<Transaction> = vec![];

    for i in (0..num_accounts).step_by(4) {
        tx_vector.append(&mut vec![
            transfer(
                keypairs[i + 1],
                keypairs[i],
                initial_lamports,
                bank.last_blockhash(),
            ),
            transfer(
                keypairs[i + 3],
                keypairs[i + 2],
                initial_lamports,
                bank.last_blockhash(),
            ),
        ]);
    }

    // Transfer lamports to each other
    let entry = next_entry(&bank.last_blockhash(), 1, tx_vector);
    assert_eq!(process_entries(&mut bank, &[entry], true), Ok(()));

    // Even number keypair should have balance of 2 * initial_lamports and
    // odd number keypair should have balance of 0, which proves
    // that even in case of random order of execution, overall state remains
    // consistent.
    for (i, keypair) in keypairs.iter().enumerate() {
        if i % 2 == 0 {
            assert_eq!(bank.get_balance(*keypair), 2 * initial_lamports);
        } else {
            assert_eq!(bank.get_balance(*keypair), 0);
        }
    }
}

#[test]
fn test_process_entries_2_entries_tick() {
    let mut bank = Bank::new(&create_genesis_config(1000));
    let (keypair1, keypair2, keypair3, keypair4) = (1, 2, 3, 4);

    //load accounts
    let tx = transfer(MINT, keypair1, 1, bank.last_blockhash());
    assert_eq!(bank.process_transaction(&tx), Ok(()));
    let tx = transfer(MINT, keypair2, 1, bank.last_blockhash());
    assert_eq!(bank.process_transaction(&tx), Ok(()));

    let blockhash = bank.last_blockhash();
    while blockhash == bank.last_blockhash() {
        bank.register_tick(&Digest32::default());
    }

    // ensure bank can process 2 entries that do not have a common account and tick is registered
    let tx = transfer(keypair2, keypair3, 1, blockhash);
    let entry_1 = next_entry(&blockhash, 1, vec![tx]);
    let tick = next_entry(&entry_1.hash, 1, vec![]);
    let tx = transfer(keypair1, keypair4, 1, bank.last_blockhash());
    let entry_2 = next_entry(&tick.hash, 1, vec![tx]);
    assert_eq!(
        process_entries(&mut bank, &[entry_1, tick, entry_2.clone()], true),
        Ok(())
    );
    assert_eq!(bank.get_balance(keypair3), 1);
    assert_eq!(bank.get_balance(keypair4), 1);

    // ensure that an error is returned for an empty account (keypair2)
    let tx = transfer(keypair2, keypair3, 1, bank.last_blockhash());
    let entry_3 = next_entry(&entry_2.hash, 1, vec![tx]);
    assert_eq!(
        process_entries(&mut bank, &[entry_3], true),
        Err(TransactionError::AccountNotFound)
    );
}

#[test]
fn test_update_transaction_statuses_fail() {
    let mut bank = Bank::new(&create_genesis_config(11_000));
    let (keypair1, keypair2) = (1, 2);
    let success_tx = transfer(MINT, keypair1, 1, bank.last_blockhash());
    let fail_tx = transfer(MINT, keypair2, 2, bank.last_blockhash());

    let entry_1_to_mint = next_entry(
        &bank.last_blockhash(),
        1,
        vec![
            success_tx,
            fail_tx.clone(), // will collide
        ],
    );

    assert_eq!(
        process_entries(&mut bank, &[entry_1_to_mint], false),
        Err(TransactionError::AccountInUse)
    );

    // Should not see duplicate signature error
    assert_eq!(bank.process_transaction(&fail_tx), Ok(()));
}

#[test]
fn test_process_blockstore_from_root() {
    let mut genesis_config = create_genesis_config(123);

    let ticks_per_slot = 1;
    genesis_config.ticks_per_slot = ticks_per_slot;
    let (mut blockstore, blockhash) = create_new_ledger(&genesis_config);

    /*
      Build a blockstore in the ledger with the following fork structure:

           slot 0 (all ticks)
             |
           slot 1 (all ticks)
             |
           slot 2 (all ticks)
             |
           slot 3 (all ticks) -> root
             |
           slot 4 (all ticks)
             |
           slot 5 (all ticks) -> root
             |
           slot 6 (all ticks)
    */

    let mut last_hash = blockhash;
    for i in 0..6 {
        last_hash =
            fill_blockstore_slot_with_ticks(&mut blockstore, ticks_per_slot, i + 1, i, last_hash);
    }
    blockstore.set_roots(&[3, 5]);

    // Set up bank1
    let opts = with_poh_verify();
    let mut bank0 = Bank::new(&genesis_config);
    let mut progress = ConfirmationProgress::new(bank0.last_blockhash());
    confirm_full_slot(&blockstore, &mut bank0, &opts, &mut progress, &mut |_| ()).unwrap();
    let mut bank1 = Bank::new_from_parent(&bank0, 1);
    let mut progress = ConfirmationProgress::new(bank0.last_blockhash());
    confirm_full_slot(&blockstore, &mut bank1, &opts, &mut progress, &mut |_| ()).unwrap();

    // Test process_blockstore_from_root() from slot 1 onwards
    let bank_forks =
        process_blockstore_from_root(&mut blockstore, bank1, &opts, &mut |_| ()).unwrap();

    assert_eq!(bank_forks.frozen_bank_slots(), vec![5, 6]);
    assert_eq!(bank_forks.working_bank(), 6);
    assert_eq!(bank_forks.root, 5);

    // Verify the parents of the head of the fork
    assert_eq!(bank_forks.parents(6), vec![5]);
}

#[test]
fn test_process_ledger_ticks_ordering() {
    let genesis_config = create_genesis_config(100);
    let mut bank0 = Bank::new(&genesis_config);
    let genesis_hash = genesis_config.hash();
    let keypair = 1;

    // Simulate a slot of virtual ticks, creates a new blockhash
    let mut entries = create_ticks(genesis_config.ticks_per_slot, 1, genesis_hash);

    // The new blockhash is going to be the hash of the last tick in the block
    let new_blockhash = entries.last().unwrap().hash;
    // Create an transaction that references the new blockhash, should still
    // be able to find the blockhash if we process transactions all in the same
    // batch
    let tx = transfer(MINT, keypair, 1, new_blockhash);
    let entry = next_entry(&new_blockhash, 1, vec![tx]);
    entries.push(entry);

    process_entries(&mut bank0, &entries, true).unwrap();
    assert_eq!(bank0.get_balance(keypair), 1)
}

#[test]
fn test_get_first_error() {
    let mut bank = Bank::new(&create_genesis_config(1_000_000_000));
    let blockhash = bank.last_blockhash();

    // Create array of two transactions which throw different errors
    let account_not_found_tx = transfer(7, 8, 42, blockhash);
    let account_not_found_sig = account_not_found_tx.signature;
    let blockhash_not_found_tx = transfer(MINT, 9, 42, Digest32::default());
    let transactions = [blockhash_not_found_tx, account_not_found_tx];

    // Use inverted iteration_order
    let iteration_order: Vec<usize> = vec![1, 0];

    let results: Vec<TransactionResult> = iteration_order
        .iter()
        .map(|index| bank.process_transaction(&transactions[*index]))
        .collect();
    let signatures: Vec<Signature> = transactions.iter().map(|tx| tx.signature).collect();
    let (err, signature) =
        get_first_error(&signatures, &Some(iteration_order), &results).unwrap();
    // First error found should be for the 2nd transaction, due to iteration_order
    assert_eq!(err.unwrap_err(), TransactionError::AccountNotFound);
    assert!(signature == account_not_found_sig);
}

fn run_test_process_blockstore_with_supermajority_root(blockstore_root: Option<Slot>) {
    /*
        Build fork structure:
             slot 0
               |
             slot 1 <- (blockstore root)
             /    \
        slot 2    |
           |      |
        slot 4    |
                slot 5
                  |
            `expected_root_slot`
                 /    \
              ...    minor fork
              /
        `last_slot`
    */
    let starting_fork_slot = 5;

    // Make enough slots to make a root slot > blockstore_root
    let expected_root_slot = starting_fork_slot + blockstore_root.unwrap_or(0);
    let last_main_fork_slot = expected_root_slot + MAX_LOCKOUT_HISTORY + 1;
    let last_minor_fork_slot = last_main_fork_slot + 1;

    let genesis_config = create_genesis_config(10_000);
    let ticks_per_slot = genesis_config.ticks_per_slot;
    let (mut blockstore, blockhash) = create_new_ledger(&genesis_config);
    let mut tree = vec![(1, 0), (2, 1), (4, 2), (starting_fork_slot, 1)];
    for slot in starting_fork_slot + 1..last_main_fork_slot {
        tree.push((slot, slot - 1));
    }
    tree.push((last_minor_fork_slot, expected_root_slot));
    for (slot, parent) in tree {
        fill_blockstore_slot_with_ticks(&mut blockstore, ticks_per_slot, slot, parent, blockhash);
    }

    if let Some(blockstore_root) = blockstore_root {
        blockstore.set_roots(&[blockstore_root]);
    }

    let opts = with_poh_verify();
    let bank_forks = process_blockstore(&genesis_config, &mut blockstore, &opts);
    assert_eq!(bank_forks.root, blockstore_root.unwrap_or(0));

    // Add votes to `last_slot` so that `root` will be confirmed
    let vote_blockhash = bank_forks.blockhashes[&(last_main_fork_slot - 1)];
    let vote_tx = Transaction::new(MINT, 1, 0, Some(expected_root_slot), vote_blockhash);
    let vote_entry = next_entry(&vote_blockhash, 1, vec![vote_tx]);
    let mut entries = create_ticks(ticks_per_slot, 0, vote_entry.hash);
    entries.insert(0, vote_entry);
    blockstore.write_entries(
        last_main_fork_slot,
        Some(last_main_fork_slot - 1),
        true,
        entries,
    );

    let bank_forks = process_blockstore(&genesis_config, &mut blockstore, &opts);

    assert_eq!(bank_forks.root, expected_root_slot);
    assert_eq!(
        bank_forks.frozen_bank_slots().len() as u64,
        last_minor_fork_slot - expected_root_slot + 1
    );

    // Minor fork at `last_main_fork_slot + 1` was above the `expected_root_slot`
    // so should not have been purged
    //
    // Fork at slot 2 was purged because it was below the `expected_root_slot`
    for slot in 0..=last_minor_fork_slot {
        assert_eq!(
            bank_forks.frozen_bank_slots().contains(&slot),
            slot >= expected_root_slot
        );
    }
}

#[test]
fn test_process_blockstore_with_supermajority_root() {
    run_test_process_blockstore_with_supermajority_root(None);
    run_test_process_blockstore_with_supermajority_root(Some(1))
}

#[test]
fn test_supermajority_root_from_vote_accounts() {
    let convert_to_vote_accounts = |roots_stakes: Vec<(Slot, u64)>| -> Vec<VoteAccountInfo> {
        roots_stakes
            .into_iter()
            .map(|(root, stake)| VoteAccountInfo {
                stake,
                vote_state: Some(VoteStateInfo {
                    root_slot: Some(root),
                }),
            })
            .collect()
    };

    let total_stake = 10;
    let is_supermajority = |total: u64| total as f64 / total_stake as f64 > VOTE_THRESHOLD_SIZE;

    // Supermajority root should be None
    assert!(supermajority_root_from_vote_accounts(&[], is_supermajority).is_none());

    // Supermajority root should be None
    let roots_stakes = vec![(8, 1), (3, 1), (4, 1), (8, 1)];
    let accounts = convert_to_vote_accounts(roots_stakes);
    assert!(supermajority_root_from_vote_accounts(&accounts, is_supermajority).is_none());

    // Supermajority root should be 4, has 7/10 of the stake
    let roots_stakes = vec![(8, 1), (3, 1), (4, 1), (8, 5)];
    let accounts = convert_to_vote_accounts(roots_stakes);
    assert_eq!(
        supermajority_root_from_vote_accounts(&accounts, is_supermajority).unwrap(),
        4
    );

    // Supermajority root should be 8, it has 7/10 of the stake
    let roots_stakes = vec![(8, 1), (3, 1), (4, 1), (8, 6)];
    let accounts = convert_to_vote_accounts(roots_stakes);
    assert_eq!(
        supermajority_root_from_vote_accounts(&accounts, is_supermajority).unwrap(),
        8
    );
}

#[test]
fn votes_without_stake_or_root_do_not_count() {
    let account = |stake, root_slot| VoteAccountInfo {
        stake,
        vote_state: Some(VoteStateInfo { root_slot }),
    };
    let lost = VoteAccountInfo {
        stake: 100,
        vote_state: None,
    };
    let accounts = [account(0, Some(9)), account(100, None), lost, account(7, Some(3))];
    assert_eq!(
        supermajority_root_from_vote_accounts(&accounts, |total| total >= 7),
        Some(3)
    );
    assert_eq!(
        supermajority_root_from_vote_accounts(&accounts, |total| total > 7),
        None
    );
    assert_eq!(
        supermajority_root(&[(9, 1), (5, 2), (5, 3), (2, 4)], |total| total >= 6),
        Some(5)
    );
}

#[test]
fn random_orders_hold_every_transaction_once() {
    assert_eq!(iteration_order(false, 5), None);
    assert_eq!(iteration_order(true, 0), Some(vec![]));
    let mut moved = false;
    for _ in 0..20 {
        let order = iteration_order(true, 10).unwrap();
        let mut sorted = order.clone();
        sorted.sort();
        assert_eq!(sorted, (0..10).collect::<Vec<usize>>());
        moved = moved || sorted != order;
    }
    assert!(moved);
}

fn entry(num_transactions: usize) -> EntryInfo {
    EntryInfo {
        hash: Digest32::default(),
        num_hashes: 1,
        num_transactions,
    }
}

#[test]
fn ticks_are_counted() {
    let bank = BankTicks {
        tick_height: 10,
        max_tick_height: 12,
    };
    let entries = [entry(1), entry(0), entry(0)];
    assert!(entries[1].is_tick());
    assert_eq!(tick_count(&entries), 2);
    assert_eq!(verify_tick_count(&bank, &entries, true), Ok(()));
    assert_eq!(
        verify_tick_count(&bank, &entries, false),
        Err(BlockError::InvalidLastTick)
    );
    assert_eq!(
        verify_tick_count(&bank, &entries[..2], true),
        Err(BlockError::InvalidTickCount)
    );
    assert_eq!(verify_tick_count(&bank, &entries[..2], false), Ok(()));
    let too_many = [entry(0), entry(0), entry(0)];
    assert_eq!(
        verify_tick_count(&bank, &too_many, false),
        Err(BlockError::InvalidTickCount)
    );
    let trailing = [entry(0), entry(0), entry(1)];
    assert_eq!(
        verify_tick_count(&bank, &trailing, true),
        Err(BlockError::TrailingEntry)
    );

    let counted = |verified| TickHashCount {
        verified,
        tick_hash_count: 4,
    };
    let mut tick_hash_count = 1;
    assert_eq!(
        verify_ticks(&bank, &trailing, true, counted(true), &mut tick_hash_count),
        Err(BlockError::TrailingEntry)
    );
    assert_eq!(tick_hash_count, 1);
    assert_eq!(
        verify_ticks(&bank, &entries, true, counted(true), &mut tick_hash_count),
        Ok(())
    );
    assert_eq!(tick_hash_count, 4);
    assert_eq!(
        verify_ticks(&bank, &entries, true, counted(false), &mut tick_hash_count),
        Err(BlockError::InvalidTickHashCount)
    );
}

fn confirm(
    skip_verification: bool,
    answers: Vec<ConfirmEvent<BlockstoreError, TransactionError>>,
) -> (Result<(), ProcessorError>, ConfirmationProgress) {
    let ticks = BankTicks {
        tick_height: 0,
        max_tick_height: 1,
    };
    let progress = ConfirmationProgress::default();
    let mut confirm = ConfirmSlot::new(ticks, skip_verification, progress);
    for answer in answers {
        if let ConfirmAction::Done(result) = confirm.step(answer) {
            return (result, *confirm.progress());
        }
    }
    panic!("the confirmation goes on");
}

fn loaded() -> ConfirmEvent<BlockstoreError, TransactionError> {
    let mut tick = entry(0);
    tick.hash = Digest32::new(&[1; 32]);
    ConfirmEvent::Loaded(Ok(LoadedEntries {
        entries: vec![entry(2), tick],
        num_shreds: 3,
        slot_full: true,
    }))
}

fn tick_hashes(verified: bool) -> ConfirmEvent<BlockstoreError, TransactionError> {
    ConfirmEvent::TickHashesCounted(TickHashCount {
        verified,
        tick_hash_count: 5,
    })
}

#[test]
fn confirmed_entries_are_progress() {
    let (result, progress) = confirm(
        false,
        vec![
            loaded(),
            tick_hashes(true),
            ConfirmEvent::VerifyStarted { failed: false },
            ConfirmEvent::Processed(Ok(())),
            ConfirmEvent::VerifyFinished { verified: true },
        ],
    );
    assert!(result.is_ok());
    assert_eq!(progress.last_entry, Digest32::new(&[1; 32]));
    assert_eq!(progress.tick_hash_count, 5);
    assert_eq!(progress.num_shreds, 3);
    assert_eq!(progress.num_entries, 2);
    assert_eq!(progress.num_txs, 2);

    let (result, progress) = confirm(true, vec![loaded(), ConfirmEvent::Processed(Ok(()))]);
    assert!(result.is_ok());
    assert_eq!(progress.tick_hash_count, 0);
    assert_eq!(progress.num_txs, 2);
}

#[test]
fn failed_confirmations() {
    let (result, progress) = confirm(
        false,
        vec![ConfirmEvent::Loaded(Err(BlockstoreError::DeadSlot))],
    );
    assert!(matches!(
        result,
        Err(BlockstoreProcessorError::FailedToLoadEntries(
            BlockstoreError::DeadSlot
        ))
    ));
    assert_eq!(progress.num_entries, 0);

    let (result, progress) = confirm(false, vec![loaded(), tick_hashes(false)]);
    assert!(matches!(
        result,
        Err(BlockstoreProcessorError::InvalidBlock(
            BlockError::InvalidTickHashCount
        ))
    ));
    assert_eq!(progress.num_shreds, 0);

    let (result, _) = confirm(
        false,
        vec![
            loaded(),
            tick_hashes(true),
            ConfirmEvent::VerifyStarted { failed: true },
        ],
    );
    assert!(matches!(
        result,
        Err(BlockstoreProcessorError::InvalidBlock(
            BlockError::InvalidEntryHash
        ))
    ));

    // wrong hashes are reported even where a transaction failed too
    let failed = |verified| {
        confirm(
            false,
            vec![
                loaded(),
                tick_hashes(true),
                ConfirmEvent::VerifyStarted { failed: false },
                ConfirmEvent::Processed(Err(TransactionError::AccountInUse)),
                ConfirmEvent::VerifyFinished { verified },
            ],
        )
        .0
    };
    assert!(matches!(
        failed(false),
        Err(BlockstoreProcessorError::InvalidBlock(
            BlockError::InvalidEntryHash
        ))
    ));
    assert!(matches!(
        failed(true),
        Err(BlockstoreProcessorError::InvalidTransaction(
            TransactionError::AccountInUse
        ))
    ));
}

#[test]
fn slots_are_confirmed_in_full() {
    let confirmed: Result<(), ProcessorError> = Ok(());
    assert!(confirmed_in_full(confirmed, true).is_ok());
    let confirmed: Result<(), ProcessorError> = Ok(());
    assert!(matches!(
        confirmed_in_full(confirmed, false),
        Err(BlockstoreProcessorError::InvalidBlock(
            BlockError::Incomplete
        ))
    ));
    let failed: Result<(), ProcessorError> = Err(BlockstoreProcessorError::FailedToLoadMeta);
    assert!(matches!(
        confirmed_in_full(failed, true),
        Err(BlockstoreProcessorError::FailedToLoadMeta)
    ));
}

#[test]
fn replayed_ledgers_have_forks_and_the_right_capitalization() {
    let result: Result<(), ProcessorError> = replayed_ledger(1, 7, true);
    assert!(result.is_ok());
    let result: Result<(), ProcessorError> = replayed_ledger(0, 7, false);
    assert!(matches!(
        result,
        Err(BlockstoreProcessorError::NoValidForksFound)
    ));
    let result: Result<(), ProcessorError> = replayed_ledger(1, 7, false);
    assert!(matches!(
        result,
        Err(BlockstoreProcessorError::RootBankWithMismatchedCapitalization(7))
    ));
}

#[test]
fn marks_in_the_ledger() {
    assert_eq!(ledger_mark(true, true), LedgerMark::Write);
    assert_eq!(ledger_mark(true, false), LedgerMark::Write);
    assert_eq!(ledger_mark(false, true), LedgerMark::Present);
    assert_eq!(ledger_mark(false, false), LedgerMark::Missing);
    assert_eq!(hard_forks_to_register(&vec![5, 3, 4, 9], 4), vec![5, 9]);
    assert_eq!(hard_forks_to_register(&vec![], 0), Vec::<Slot>::new());
}

#[test]
fn only_full_slots_are_next() {
    let meta = |is_full| Ok(Some(SlotMetaInfo { is_full }));
    let full: Result<Vec<Slot>, ProcessorError> =
        full_next_slots(&[4, 5, 6], &[meta(true), meta(false), meta(true)]);
    assert_eq!(full.unwrap(), vec![4, 6]);
    let failed: Result<Vec<Slot>, ProcessorError> =
        full_next_slots(&[4, 5], &[meta(true), Err(BlockstoreError::DeadSlot)]);
    assert!(matches!(
        failed,
        Err(BlockstoreProcessorError::FailedToLoadMeta)
    ));
    // what comes behind a slot that could not be loaded does not matter
    let failed: Result<Vec<Slot>, ProcessorError> = full_next_slots(
        &[4, 5, 6],
        &[meta(true), Err(BlockstoreError::DeadSlot), Ok(None)],
    );
    assert!(matches!(
        failed,
        Err(BlockstoreProcessorError::FailedToLoadMeta)
    ));
}

/// The parents of slots in a small tree: 0 - 1 - 2 and 1 - 3 - 4.
const PARENTS: [Slot; 5] = [0, 0, 1, 1, 3];

fn tree_bank(slot: Slot) -> Arc<BankInfo> {
    let mut ancestors = HashSet::new();
    let mut ancestor = slot;
    ancestors.insert(ancestor);
    while ancestor > 0 {
        ancestor = PARENTS[ancestor as usize];
        ancestors.insert(ancestor);
    }
    Arc::new(BankInfo {
        slot,
        parent_slot: if slot > 0 {
            Some(PARENTS[slot as usize])
        } else {
            None
        },
        ancestors,
    })
}

fn tree_children(slot: Slot) -> Vec<Slot> {
    (1..5)
        .filter(|child| PARENTS[*child as usize] == slot)
        .collect()
}

/// Walks the small tree, with a cluster root that is found at some slots.
fn walk_tree(cluster_roots: &[(Slot, Slot)]) -> (Vec<Slot>, Slot) {
    let mut walk = WalkForks::new(tree_bank(0), tree_children(0), 0, None);
    let mut slot = 0;
    let mut event: WalkEvent<BlockstoreError> = WalkEvent::Started;
    loop {
        let root = walk.root();
        let action: WalkAction<BlockstoreError, TransactionError> = walk.step(event);
        assert!(root <= walk.root());
        event = match action {
            WalkAction::LoadMetas { slots } => {
                assert_eq!(slots, tree_children(slot));
                WalkEvent::Metas(
                    slots
                        .iter()
                        .map(|_| Ok(Some(SlotMetaInfo { is_full: true })))
                        .collect(),
                )
            }
            WalkAction::CreateBanks { slots } => WalkEvent::Banks(
                slots
                    .iter()
                    .map(|child| {
                        Arc::new(PendingSlot {
                            bank: tree_bank(*child),
                            next_slots: tree_children(*child),
                            last_entry_hash: Digest32::default(),
                        })
                    })
                    .collect(),
            ),
            WalkAction::Process(pending) => {
                slot = pending.bank.slot;
                WalkEvent::Processed(true)
            }
            WalkAction::FindRoot { .. } => WalkEvent::RootFound {
                supermajority_root: cluster_roots
                    .iter()
                    .find(|found| found.0 == slot)
                    .map(|found| found.1),
                is_root: false,
            },
            WalkAction::SetRoot(root) => {
                assert_eq!(root, walk.root());
                WalkEvent::RootSet
            }
            WalkAction::Done(tips) => {
                let mut tips = tips.ok().unwrap();
                tips.sort();
                return (tips, walk.root());
            }
        };
    }
}

#[test]
fn tips_descend_from_the_root() {
    assert_eq!(walk_tree(&[]), (vec![2, 4], 0));
    assert_eq!(walk_tree(&[(3, 1)]), (vec![2, 4], 1));
    assert_eq!(walk_tree(&[(4, 3)]), (vec![4], 3));
    // only up to the first root after that of the ledger is the cluster followed
    assert_eq!(walk_tree(&[(3, 1), (4, 3)]), (vec![2, 4], 1));
    assert_eq!(walk_tree(&[(2, 2)]), (vec![2], 2));
    // an earlier root is no news
    assert_eq!(walk_tree(&[(2, 0)]), (vec![2, 4], 0));
}

#[test]
fn earliest_slots_come_first_until_the_halt() {
    let genesis_config = create_genesis_config(10_000);
    let mut blockstore = create_two_forks(&genesis_config);
    let opts = ProcessOptions {
        poh_verify: true,
        dev_halt_at_slot: Some(2),
    };
    let bank_forks = process_blockstore(&genesis_config, &mut blockstore, &opts);
    assert_eq!(bank_forks.frozen_bank_slots(), vec![0, 1, 2]);
}

#[test]
fn fetch_times_add_up() {
    let mut timing = ConfirmationTiming::default();
    timing.add_fetch(false, 5);
    timing.add_fetch(true, 7);
    timing.add_fetch(false, 1);
    assert_eq!(timing.fetch_elapsed, 6);
    assert_eq!(timing.fetch_fail_elapsed, 7);
    assert_eq!(timing.replay_elapsed, 0);
    // only the time that is added to has to have room
    timing.add_fetch(true, u64::MAX - 7);
    timing.add_fetch(false, 3);
    assert_eq!(timing.fetch_elapsed, 9);
    assert_eq!(timing.fetch_fail_elapsed, u64::MAX);
}

#[test]
fn ledger_without_the_start_slot_is_not_replayed() {
    match ledger_replay(7, Some("meta")) {
        LedgerReplay::Forks(meta) => assert_eq!(meta, "meta"),
        LedgerReplay::Nothing { .. } => panic!("nothing to replay"),
    }
    let meta: Option<()> = None;
    match ledger_replay(7, meta) {
        LedgerReplay::Forks(_) => panic!("something to replay"),
        LedgerReplay::Nothing { tips, root } => {
            assert_eq!(tips, vec![7]);
            assert_eq!(root, 7);
        }
    }
}

#[test]
fn slots_are_filled_up_from_their_parents_on() {
    assert_eq!(ticks_to_fill(0, 0, 64), 64);
    assert_eq!(ticks_to_fill(1, 0, 64), 64);
    assert_eq!(ticks_to_fill(5, 2, 64), 192);
}
