//! Provides information about the network's clock which is made up of ticks, slots, etc...

use vstd::prelude::*;

verus! {

pub const SECONDS_PER_DAY: u64 = 24 * 60 * 60;

/// Slot is a unit of time given to a leader for encoding,
///  is some some number of Ticks long.
pub type Slot = u64;

/// Epoch is a unit of time a given leader schedule is honored,
///  some number of Slots.
pub type Epoch = u64;

pub const GENESIS_EPOCH: Epoch = 0;

/// SlotIndex is an index to the slots of a epoch
pub type SlotIndex = u64;

/// SlotCount is the number of slots in a epoch
pub type SlotCount = u64;

/// UnixTimestamp is an approximate measure of real-world time,
/// expressed as Unix time (ie. seconds since the Unix epoch)
pub type UnixTimestamp = i64;

/// Clock represents network time.  Members of Clock start from 0 upon
///  network boot.  The best way to map Clock to wallclock time is to use
///  current Slot, as Epochs vary in duration (they start short and grow
///  as the network progresses).
#[derive(Debug, PartialEq, Eq, Structural)]
pub struct Clock {
    /// the current network/bank Slot
    pub slot: Slot,
    /// unused
    pub unused: u64,
    /// the bank Epoch
    pub epoch: Epoch,
    /// the future Epoch for which the leader schedule has
    ///  most recently been calculated
    pub leader_schedule_epoch: Epoch,
    /// computed from genesis creation time and network time
    ///  in slots, drifts!
    pub unix_timestamp: UnixTimestamp,
}

impl Default for Clock {
    fn default() -> (clock: Self)
        ensures
            clock == (Clock {
                slot: 0,
                unused: 0,
                epoch: 0,
                leader_schedule_epoch: 0,
                unix_timestamp: 0,
            }),
    {
        Clock { slot: 0, unused: 0, epoch: 0, leader_schedule_epoch: 0, unix_timestamp: 0 }
    }
}

/// Cluster-wide timing parameters, read from the package configuration.
#[derive(Clone, Copy, Debug, PartialEq, Eq, Structural)]
pub struct ClockConfig {
    pub default_ticks_per_second: u64,
    pub default_ticks_per_slot: u64,
    pub default_hashes_per_second: u64,
    pub default_dev_slots_per_epoch: u64,
    pub num_consecutive_leader_slots: u64,
    pub max_hash_age_in_seconds: usize,
    pub max_transaction_forwarding_delay_gpu: usize,
    pub max_transaction_forwarding_delay: usize,
}

impl ClockConfig {
    /// Milliseconds of one tick.
    pub fn ms_per_tick(&self) -> (ms: u64)
        requires
            self.default_ticks_per_second > 0,
        ensures
            ms == 1000int / (self.default_ticks_per_second as int),
    {
        1000 / self.default_ticks_per_second
    }

    /// Number of ticks in a day.
    pub fn ticks_per_day(&self) -> (ticks: u64)
        requires
            self.default_ticks_per_second * SECONDS_PER_DAY <= u64::MAX,
        ensures
            ticks == self.default_ticks_per_second * SECONDS_PER_DAY,
            ticks == self.default_ticks_per_second * 86_400,
    {
        self.default_ticks_per_second * SECONDS_PER_DAY
    }

    /// Number of slots in an epoch: two days' worth of ticks.
    pub fn default_slots_per_epoch(&self) -> (slots: u64)
        requires
            self.default_ticks_per_slot > 0,
            2 * (self.default_ticks_per_second * SECONDS_PER_DAY) <= u64::MAX,
        ensures
            slots == (2 * (self.default_ticks_per_second * SECONDS_PER_DAY)) / (
            self.default_ticks_per_slot as int),
    {
        2 * self.ticks_per_day() / self.default_ticks_per_slot
    }

    /// Milliseconds of one slot.
    pub fn default_ms_per_slot(&self) -> (ms: u64)
        requires
            self.default_ticks_per_second > 0,
            1000 * self.default_ticks_per_slot <= u64::MAX,
        ensures
            ms == (1000 * self.default_ticks_per_slot) / (self.default_ticks_per_second as int),
    {
        1_000 * self.default_ticks_per_slot / self.default_ticks_per_second
    }

    /// Number of blockhashes that are recent enough to be referred to by a transaction: the
    /// slots that start within the maximum age of a hash.
    pub fn max_recent_blockhashes(&self) -> (count: usize)
        requires
            0 < self.default_ticks_per_slot <= usize::MAX,
            self.default_ticks_per_second <= usize::MAX,
            self.max_hash_age_in_seconds * self.default_ticks_per_second <= usize::MAX,
        ensures
            count == self.spec_max_recent_blockhashes(),
    {
        self.max_hash_age_in_seconds * self.default_ticks_per_second as usize
            / self.default_ticks_per_slot as usize
    }

    pub open spec fn spec_max_recent_blockhashes(&self) -> int {
        (self.max_hash_age_in_seconds * self.default_ticks_per_second) / (
        self.default_ticks_per_slot as int)
    }

    /// Number of slots after which a blockhash no longer makes a transaction processable.
    pub fn max_processing_age(&self) -> (age: usize)
        requires
            0 < self.default_ticks_per_slot <= usize::MAX,
            self.default_ticks_per_second <= usize::MAX,
            self.max_hash_age_in_seconds * self.default_ticks_per_second <= usize::MAX,
        ensures
            age == self.spec_max_recent_blockhashes() / 2,
    {
        self.max_recent_blockhashes() / 2
    }
}

/// The processing age never exceeds the number of recent blockhashes.
pub proof fn law_processing_age_within_recent_blockhashes(config: ClockConfig)
    requires
        config.default_ticks_per_slot > 0,
    ensures
        0 <= config.spec_max_recent_blockhashes() / 2 <= config.spec_max_recent_blockhashes(),
{
    let age: int = config.max_hash_age_in_seconds * config.default_ticks_per_second;
    assert(age >= 0) by (nonlinear_arith)
        requires
            age == config.max_hash_age_in_seconds * config.default_ticks_per_second,
    ;
    vstd::arithmetic::div_mod::lemma_div_pos_is_pos(age, config.default_ticks_per_slot as int);
}

/// The recent blockhashes are as many as whole slots fit into the maximum age of a hash.
pub proof fn law_recent_blockhashes_fill_the_age(config: ClockConfig)
    requires
        config.default_ticks_per_slot > 0,
    ensures
        ({
            let count = config.spec_max_recent_blockhashes();
            let ticks = config.max_hash_age_in_seconds * config.default_ticks_per_second;
            &&& count * config.default_ticks_per_slot <= ticks
            &&& ticks < (count + 1) * config.default_ticks_per_slot
        }),
{
    let ticks: int = config.max_hash_age_in_seconds * config.default_ticks_per_second;
    let slot: int = config.default_ticks_per_slot as int;
    let count = config.spec_max_recent_blockhashes();
    vstd::arithmetic::div_mod::lemma_fundamental_div_mod(ticks, slot);
    vstd::arithmetic::div_mod::lemma_mod_bound(ticks, slot);
    assert(slot * count == count * slot) by (nonlinear_arith);
    assert((count + 1) * slot == count * slot + slot) by (nonlinear_arith);
}

} // verus!
