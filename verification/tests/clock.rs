use solana_validator::clock::Clock;
use solana_validator::clock::ClockConfig;
use solana_validator::clock::SECONDS_PER_DAY;

const CONFIG: ClockConfig = ClockConfig {
    default_ticks_per_second: 160,
    default_ticks_per_slot: 64,
    default_hashes_per_second: 2_000_000,
    default_dev_slots_per_epoch: 8192,
    num_consecutive_leader_slots: 4,
    max_hash_age_in_seconds: 120,
    max_transaction_forwarding_delay_gpu: 2,
    max_transaction_forwarding_delay: 6,
};

#[test]
fn derived_parameters() {
    assert_eq!(SECONDS_PER_DAY, 86_400);
    assert_eq!(CONFIG.ms_per_tick(), 6);
    assert_eq!(CONFIG.ticks_per_day(), 13_824_000);
    assert_eq!(CONFIG.default_slots_per_epoch(), 432_000);
    assert_eq!(CONFIG.default_ms_per_slot(), 400);
    assert_eq!(CONFIG.max_recent_blockhashes(), 300);
    assert_eq!(CONFIG.max_processing_age(), 150);
}

#[test]
fn processing_age_is_within_recent_blockhashes() {
    assert!(CONFIG.max_processing_age() <= CONFIG.max_recent_blockhashes());
}

#[test]
fn clock_starts_at_zero() {
    assert_eq!(
        Clock::default(),
        Clock {
            slot: 0,
            unused: 0,
            epoch: 0,
            leader_schedule_epoch: 0,
            unix_timestamp: 0
        }
    );
}
