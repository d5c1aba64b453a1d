use solana_validator::slot_history::Check;
use solana_validator::slot_history::SlotHistory;

const SLOT_HISTORY_MAX_ENTRIES: u64 = 1024 * 1024;

fn default_history() -> SlotHistory {
    SlotHistory::new(SLOT_HISTORY_MAX_ENTRIES)
}

#[test]
fn slot_history_test1() {
    // should be divisible by 64 since the clear logic works on blocks
    assert_eq!(SLOT_HISTORY_MAX_ENTRIES % 64, 0);
    let mut slot_history = default_history();
    slot_history.add(2);
    assert_eq!(slot_history.check(0), Check::Found);
    assert_eq!(slot_history.check(1), Check::NotFound);
    for i in 3..SLOT_HISTORY_MAX_ENTRIES {
        assert_eq!(slot_history.check(i), Check::Future);
    }
    slot_history.add(20);
    slot_history.add(SLOT_HISTORY_MAX_ENTRIES);
    assert_eq!(slot_history.check(0), Check::TooOld);
    assert_eq!(slot_history.check(1), Check::NotFound);
    for i in &[2, 20, SLOT_HISTORY_MAX_ENTRIES] {
        assert_eq!(slot_history.check(*i), Check::Found);
    }
    for i in 3..20 {
        assert_eq!(slot_history.check(i), Check::NotFound, "i: {}", i);
    }
    for i in 21..SLOT_HISTORY_MAX_ENTRIES {
        assert_eq!(slot_history.check(i), Check::NotFound, "i: {}", i);
    }
    assert_eq!(
        slot_history.check(SLOT_HISTORY_MAX_ENTRIES + 1),
        Check::Future
    );

    let slot = 3 * SLOT_HISTORY_MAX_ENTRIES + 3;
    slot_history.add(slot);
    for i in &[0, 1, 2, 20, 21, SLOT_HISTORY_MAX_ENTRIES] {
        assert_eq!(slot_history.check(*i), Check::TooOld);
    }
    let start = slot - SLOT_HISTORY_MAX_ENTRIES + 1;
    let end = slot;
    for i in start..end {
        assert_eq!(slot_history.check(i), Check::NotFound, "i: {}", i);
    }
    assert_eq!(slot_history.check(slot), Check::Found);
}

#[test]
fn slot_history_test_wrap() {
    let mut slot_history = default_history();
    slot_history.add(2);
    assert_eq!(slot_history.check(0), Check::Found);
    assert_eq!(slot_history.check(1), Check::NotFound);
    for i in 3..SLOT_HISTORY_MAX_ENTRIES {
        assert_eq!(slot_history.check(i), Check::Future);
    }
    slot_history.add(20);
    slot_history.add(SLOT_HISTORY_MAX_ENTRIES + 19);
    for i in 0..19 {
        assert_eq!(slot_history.check(i), Check::TooOld);
    }
    assert_eq!(
        slot_history.check(SLOT_HISTORY_MAX_ENTRIES),
        Check::NotFound
    );
    assert_eq!(slot_history.check(20), Check::Found);
    assert_eq!(
        slot_history.check(SLOT_HISTORY_MAX_ENTRIES + 19),
        Check::Found
    );
    assert_eq!(slot_history.check(20), Check::Found);
    for i in 21..SLOT_HISTORY_MAX_ENTRIES + 19 {
        assert_eq!(slot_history.check(i), Check::NotFound, "found: {}", i);
    }
    assert_eq!(
        slot_history.check(SLOT_HISTORY_MAX_ENTRIES + 20),
        Check::Future
    );
}

#[test]
fn slot_history_test_same_index() {
    let mut slot_history = default_history();
    slot_history.add(3);
    slot_history.add(4);
    assert_eq!(slot_history.check(1), Check::NotFound);
    assert_eq!(slot_history.check(2), Check::NotFound);
    assert_eq!(slot_history.check(3), Check::Found);
    assert_eq!(slot_history.check(4), Check::Found);
    slot_history.add(SLOT_HISTORY_MAX_ENTRIES + 5);
    assert_eq!(slot_history.check(5), Check::TooOld);
    for i in 6..SLOT_HISTORY_MAX_ENTRIES + 5 {
        assert_eq!(slot_history.check(i), Check::NotFound, "i: {}", i);
    }
    assert_eq!(
        slot_history.check(SLOT_HISTORY_MAX_ENTRIES + 5),
        Check::Found
    );
}

#[test]
fn test_older_slot() {
    let mut slot_history = default_history();
    slot_history.add(10);
    slot_history.add(5);
    assert_eq!(slot_history.check(0), Check::Found);
    assert_eq!(slot_history.check(5), Check::Found);
    // If we go backwards we reset?
    assert_eq!(slot_history.check(10), Check::Future);
    assert_eq!(slot_history.check(6), Check::Future);
    assert_eq!(slot_history.check(11), Check::Future);
}

#[test]
fn test_oldest() {
    let mut slot_history = default_history();
    assert_eq!(slot_history.oldest(), 0);
    slot_history.add(10);
    assert_eq!(slot_history.oldest(), 0);
    slot_history.add(SLOT_HISTORY_MAX_ENTRIES - 1);
    assert_eq!(slot_history.oldest(), 0);
    slot_history.add(SLOT_HISTORY_MAX_ENTRIES);
    assert_eq!(slot_history.oldest(), 1);
}

#[test]
fn window_moves_forward() {
    let mut history = SlotHistory::new(64);
    assert_eq!(history.max_entries(), 64);
    assert_eq!(history.newest(), 0);
    history.add(10);
    history.add(70);
    assert_eq!(history.newest(), 70);
    assert_eq!(history.oldest(), 7);
    assert_eq!(history.check(6), Check::TooOld);
    assert_eq!(history.check(9), Check::NotFound);
    assert_eq!(history.check(10), Check::Found);
    assert_eq!(history.check(69), Check::NotFound);
    assert_eq!(history.check(70), Check::Found);
    assert_eq!(history.check(71), Check::Future);
    // far past the window everything is cleared
    history.add(1000);
    assert_eq!(history.oldest(), 937);
    for slot in 937..1000 {
        assert_eq!(history.check(slot), Check::NotFound);
    }
    assert_eq!(history.check(1000), Check::Found);
}

#[test]
fn copies_are_equal_until_they_change() {
    let mut history = SlotHistory::new(128);
    history.add(5);
    let copy = history.clone();
    assert!(copy == history);
    history.add(6);
    assert!(copy != history);
    assert_eq!(copy.check(6), Check::Future);
    assert!(SlotHistory::new(64) != SlotHistory::new(128));
}

#[test]
fn history_in_words() {
    let mut history = SlotHistory::new(64);
    history.add(3);
    history.add(12);
    let mut flags = vec!["0"; 64];
    flags[0] = "1";
    flags[3] = "1";
    flags[12] = "1";
    assert_eq!(
        history.debug_text(),
        format!("SlotHistory {{ slot: 13 bits:{}", flags.concat())
    );
}
