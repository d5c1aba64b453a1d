//! slot history

use vstd::arithmetic::div_mod::lemma_add_mod_noop_right;
use vstd::arithmetic::div_mod::lemma_mod_bound;
use vstd::arithmetic::div_mod::lemma_mod_equivalence;
use vstd::arithmetic::div_mod::lemma_small_mod;
use vstd::prelude::*;
use vstd::std_specs::cmp::PartialEqSpec;
use vstd::std_specs::cmp::PartialEqSpecImpl;

use crate::clock::Slot;
use crate::text::decimal;
use crate::text::decimal_text;

verus! {

/// A bit vector of the `bv` crate, stored in blocks of 64 bits.
#[verifier::external_body]
pub struct BitVec {
    bits: bv::BitVec<u64>,
}

/// The bits that a bit vector holds, in order.
pub uninterp spec fn bits_of(bits: BitVec) -> Seq<bool>;

/// Number of bits in one block of a bit vector.
pub const BLOCK_BITS: u64 = 64;

/// `bv::BitVec::new_fill`: a bit vector of `len` bits, each of them `value`. The bits are
/// allocated in blocks of 64, whose bytes have to be addressable and whose bits have to be
/// countable.
#[verifier::external_body]
fn new_fill(value: bool, len: u64) -> (bits: BitVec)
    requires
        len + 63 <= u64::MAX,
        (len + 63) / 64 * 8 <= isize::MAX,
    ensures
        bits_of(bits) == Seq::new(len as nat, |i: int| value),
{
    BitVec { bits: bv::BitVec::new_fill(value, len) }
}

/// `bv::BitVec::len`: the number of bits.
#[verifier::external_body]
fn bit_len(bits: &BitVec) -> (len: u64)
    ensures
        len == bits_of(*bits).len(),
{
    bits.bits.len()
}

/// `bv::BitVec::get`: the bit at a position. An out-of-bounds position panics.
#[verifier::external_body]
fn get_bit(bits: &BitVec, position: u64) -> (value: bool)
    requires
        position < bits_of(*bits).len(),
    ensures
        value == bits_of(*bits)[position as int],
{
    bits.bits.get(position)
}

/// `bv::BitVec::set`: replaces the bit at a position. An out-of-bounds position panics.
#[verifier::external_body]
fn set_bit(bits: &mut BitVec, position: u64, value: bool)
    requires
        position < bits_of(*old(bits)).len(),
    ensures
        bits_of(*final(bits)) == bits_of(*old(bits)).update(position as int, value),
{
    bits.bits.set(position, value)
}

/// `bv::BitsMut::set_block`: replaces the 64 bits of a block by those of `value`, the least
/// significant first; bits of `value` past the end of the vector are dropped. An out-of-bounds
/// block position panics.
#[verifier::external_body]
fn set_block(bits: &mut BitVec, position: usize, value: u64)
    requires
        position * 64 < bits_of(*old(bits)).len(),
    ensures
        bits_of(*final(bits)) == Seq::new(
            bits_of(*old(bits)).len(),
            |i: int|
                if position * 64 <= i < position * 64 + 64 {
                    (value >> ((i - position * 64) as u64)) & 1 == 1
                } else {
                    bits_of(*old(bits))[i]
                },
        ),
{
    bv::BitsMut::set_block(&mut bits.bits, position, value)
}

/// What the history knows of a slot.
#[derive(Clone, Copy, Debug, PartialEq, Eq, Structural)]
pub enum Check {
    /// newer than every slot the history covers
    Future,
    /// older than every slot the history covers
    TooOld,
    /// covered and added
    Found,
    /// covered and skipped
    NotFound,
}

/// The slots seen recently: one bit for each of the last slots up to the newest one.
pub struct SlotHistory {
    pub bits: BitVec,
    pub next_slot: Slot,
}

/// The state of a slot history: a ring of flags, and the slot after the newest one.
#[verifier::ext_equal]
pub struct History {
    pub ring: Seq<bool>,
    pub next_slot: nat,
}

impl History {
    /// The ring covers whole blocks, which are addressable, and there is a newest slot.
    pub open spec fn wf(self) -> bool {
        &&& self.ring.len() > 0
        &&& self.ring.len() % 64 == 0
        &&& self.ring.len() / 64 * 8 <= isize::MAX
        &&& self.next_slot > 0
    }

    /// The flag of a slot.
    pub open spec fn flag(self, slot: nat) -> bool {
        self.ring[(slot % self.ring.len()) as int]
    }

    pub open spec fn newest(self) -> nat {
        (self.next_slot - 1) as nat
    }

    pub open spec fn oldest(self) -> nat {
        if self.next_slot >= self.ring.len() {
            (self.next_slot - self.ring.len()) as nat
        } else {
            0
        }
    }

    /// What is known of a slot: its flag, where the history covers it.
    pub open spec fn check(self, slot: nat) -> Check {
        if slot > self.newest() {
            Check::Future
        } else if slot < self.oldest() {
            Check::TooOld
        } else if self.flag(slot) {
            Check::Found
        } else {
            Check::NotFound
        }
    }

    /// `index` is the position of a slot of `from..to`.
    pub open spec fn position_in_range(self, index: int, from: nat, to: nat) -> bool {
        exists|slot: nat| from <= slot < to && #[trigger] (slot % self.ring.len()) == index
    }

    /// The history after `slot` was added: the slot's flag is set, those of the slots that
    /// were skipped since the newest one are cleared, and `slot` is the newest one now.
    pub open spec fn add(self, slot: nat) -> History {
        History {
            ring: Seq::new(
                self.ring.len(),
                |i: int|
                    if i == slot % self.ring.len() {
                        true
                    } else if self.position_in_range(i, self.next_slot, slot) {
                        false
                    } else {
                        self.ring[i]
                    },
            ),
            next_slot: slot + 1,
        }
    }
}

impl View for SlotHistory {
    type V = History;

    open spec fn view(&self) -> History {
        History { ring: bits_of(self.bits), next_slot: self.next_slot as nat }
    }
}

proof fn lemma_every_position_in_range(history: History, index: int, from: nat, to: nat)
    requires
        0 <= index < history.ring.len(),
        to - from >= history.ring.len(),
    ensures
        history.position_in_range(index, from, to),
{
    let len = history.ring.len() as int;
    let offset = (index - from) % len;
    let slot = (from + offset) as nat;
    lemma_mod_bound(index - from, len);
    lemma_add_mod_noop_right(from as int, index - from, len);
    lemma_small_mod(index as nat, len as nat);
    assert(slot % history.ring.len() == index);
}

/// Two slots less than a ring apart have different positions.
proof fn lemma_positions_differ(len: nat, lower: nat, upper: nat)
    requires
        lower < upper,
        upper - lower < len,
    ensures
        lower % len != upper % len,
{
    if lower % len == upper % len {
        lemma_mod_equivalence(upper as int, lower as int, len as int);
        lemma_small_mod((upper - lower) as nat, len);
    }
}

/// A slot that was just added is found.
pub proof fn law_added_slot_is_found(history: History, slot: nat)
    requires
        history.wf(),
    ensures
        history.add(slot).wf(),
        history.add(slot).newest() == slot,
        history.add(slot).check(slot) == Check::Found,
{
    lemma_mod_bound(slot as int, history.ring.len() as int);
}

/// Adding a slot past the newest one moves the window: slots before it are too old, slots
/// after it lie in the future, skipped slots are not found, and what was known of the slots
/// that stay in the window is still known.
pub proof fn law_add_moves_window_forward(history: History, slot: nat, other: nat)
    requires
        history.wf(),
        slot >= history.next_slot,
    ensures
        other > slot ==> history.add(slot).check(other) == Check::Future,
        other + history.ring.len() <= slot ==> history.add(slot).check(other) == Check::TooOld,
        other + history.ring.len() > slot && history.next_slot <= other < slot ==> history.add(
            slot,
        ).check(other) == Check::NotFound,
        other + history.ring.len() > slot && other < history.next_slot ==> history.add(slot).check(
            other,
        ) == history.check(other),
{
    let len = history.ring.len();
    let next = history.next_slot;
    lemma_mod_bound(other as int, len as int);
    lemma_mod_bound(slot as int, len as int);
    if other < slot && other + len > slot {
        lemma_positions_differ(len, other, slot);
        let index = (other % len) as int;
        if other >= next {
            assert(history.position_in_range(index, next, slot));
        } else if history.position_in_range(index, next, slot) {
            let skipped = choose|s: nat| next <= s < slot && #[trigger] (s % len) == index;
            lemma_positions_differ(len, other, skipped);
        }
    }
}

/// Adding a slot older than the newest one forgets the slots after it, and keeps what was
/// known of the covered slots before it.
pub proof fn law_add_older_slot_resets_newest(history: History, slot: nat, other: nat)
    requires
        history.wf(),
        slot < history.next_slot,
    ensures
        other > slot ==> history.add(slot).check(other) == Check::Future,
        history.oldest() <= other < slot ==> history.add(slot).check(other) == history.check(
            other,
        ),
{
    let len = history.ring.len();
    lemma_mod_bound(other as int, len as int);
    lemma_mod_bound(slot as int, len as int);
    if history.oldest() <= other < slot {
        lemma_positions_differ(len, other, slot);
    }
}

/// `bv::BitVec::clone`: a bit vector that holds the same bits.
#[verifier::external_body]
fn clone_bits(bits: &BitVec) -> (copy: BitVec)
    ensures
        bits_of(copy) == bits_of(*bits),
{
    BitVec { bits: bits.bits.clone() }
}

/// `==` of `bv::BitVec`: whether two bit vectors have the same length and the same bits.
#[verifier::external_body]
fn equal_bits(bits: &BitVec, other: &BitVec) -> (equal: bool)
    ensures
        equal == (bits_of(*bits) == bits_of(*other)),
{
    bits.bits == other.bits
}

impl Clone for SlotHistory {
    fn clone(&self) -> (copy: Self)
        ensures
            copy@ == self@,
    {
        SlotHistory { bits: clone_bits(&self.bits), next_slot: self.next_slot }
    }
}

impl PartialEq for SlotHistory {
    fn eq(&self, other: &Self) -> (equal: bool) {
        equal_bits(&self.bits, &other.bits) && self.next_slot == other.next_slot
    }
}

impl PartialEqSpecImpl for SlotHistory {
    open spec fn obeys_eq_spec() -> bool {
        true
    }

    open spec fn eq_spec(&self, other: &Self) -> bool {
        self@ == other@
    }
}

/// A flag as a digit.
pub open spec fn flag_char(flag: bool) -> char {
    if flag {
        '1'
    } else {
        '0'
    }
}

/// Flags as digits.
pub open spec fn flags_text(flags: Seq<bool>) -> Seq<char> {
    flags.map_values(|flag: bool| flag_char(flag))
}

impl SlotHistory {
    pub open spec fn wf(&self) -> bool {
        self@.wf()
    }

    /// A history of `max_entries` slots that holds slot 0.
    pub fn new(max_entries: u64) -> (history: Self)
        requires
            max_entries > 0,
            max_entries % 64 == 0,
            max_entries / 64 * 8 <= isize::MAX,
        ensures
            history.wf(),
            history@.ring == Seq::new(max_entries as nat, |i: int| i == 0),
            history.next_slot == 1,
    {
        let mut bits = new_fill(false, max_entries);
        set_bit(&mut bits, 0, true);
        SlotHistory { bits, next_slot: 1 }
    }

    /// The history in words: the slot after the newest one, and the flags in the order in which
    /// they are stored, which is the text that a debugger shows.
    pub fn debug_text(&self) -> (text: String)
        ensures
            text@ == "SlotHistory { slot: "@ + decimal(self.next_slot as nat) + " bits:"@
                + flags_text(self@.ring),
    {
        let mut text = "SlotHistory { slot: ".to_owned();
        text.append(decimal_text(self.next_slot).as_str());
        text.append(" bits:");
        let ghost start = text@;
        let max_entries = self.max_entries();
        let mut i: u64 = 0;
        assert(start + flags_text(self@.ring.take(0)) =~= start);
        while i < max_entries
            invariant
                i <= max_entries,
                max_entries == self@.ring.len(),
                text@ == start + flags_text(self@.ring.take(i as int)),
            decreases max_entries - i,
        {
            proof {
                reveal_strlit("1");
                reveal_strlit("0");
                assert("1"@ =~= seq!['1']);
                assert("0"@ =~= seq!['0']);
            }
            let ghost before = text@;
            if get_bit(&self.bits, i) {
                text.append("1");
            } else {
                text.append("0");
            }
            assert(text@ =~= before.push(flag_char(self@.ring[i as int])));
            assert(flags_text(self@.ring.take(i + 1)) =~= flags_text(
                self@.ring.take(i as int),
            ).push(flag_char(self@.ring[i as int])));
            i += 1;
            assert(text@ =~= start + flags_text(self@.ring.take(i as int)));
        }
        assert(self@.ring.take(i as int) =~= self@.ring);
        text
    }

    /// Number of slots that the history covers.
    pub fn max_entries(&self) -> (max_entries: u64)
        ensures
            max_entries == self@.ring.len(),
    {
        bit_len(&self.bits)
    }

    pub fn add(&mut self, slot: Slot)
        requires
            old(self).wf(),
            slot < u64::MAX,
        ensures
            final(self).wf(),
            final(self)@ == old(self)@.add(slot as nat),
    {
        let max_entries = self.max_entries();
        let ghost len = max_entries as nat;
        if slot > self.next_slot && slot - self.next_slot >= max_entries {
            // Wrapped past current history,
            // clear entire bitvec.
            let full_blocks = max_entries / BLOCK_BITS;
            let mut i: u64 = 0;
            while i < full_blocks
                invariant
                    i <= full_blocks,
                    full_blocks == len / 64,
                    len % 64 == 0,
                    len / 64 * 8 <= isize::MAX,
                    self.next_slot == old(self).next_slot,
                    bits_of(self.bits).len() == len,
                    forall|j: int| 0 <= j < 64 * i && j < len ==> !bits_of(self.bits)[j],
                decreases full_blocks - i,
            {
                assert(forall|k: u64| k < 64 ==> #[trigger] (0u64 >> k) & 1 == 0) by (bit_vector);
                set_block(&mut self.bits, i as usize, 0);
                i += 1;
            }
            proof {
                assert forall|j: int| 0 <= j < len implies old(self)@.position_in_range(
                    j,
                    old(self)@.next_slot,
                    slot as nat,
                ) by {
                    lemma_every_position_in_range(
                        old(self)@,
                        j,
                        old(self)@.next_slot,
                        slot as nat,
                    );
                }
            }
        } else {
            let mut skipped: u64 = self.next_slot;
            while skipped < slot
                invariant
                    max_entries == len,
                    len > 0,
                    self.next_slot == old(self).next_slot,
                    old(self).next_slot <= skipped,
                    skipped <= slot || skipped == old(self).next_slot,
                    bits_of(self.bits).len() == len,
                    old(self)@.ring.len() == len,
                    forall|j: int|
                        0 <= j < len ==> #[trigger] bits_of(self.bits)[j] == (if old(
                            self,
                        )@.position_in_range(j, old(self)@.next_slot, skipped as nat) {
                            false
                        } else {
                            old(self)@.ring[j]
                        }),
                decreases slot - skipped,
            {
                let ghost before = bits_of(self.bits);
                set_bit(&mut self.bits, skipped % max_entries, false);
                proof {
                    let next = old(self)@.next_slot;
                    assert forall|j: int| 0 <= j < len implies #[trigger] bits_of(self.bits)[j] == (
                    if old(self)@.position_in_range(j, next, (skipped + 1) as nat) {
                        false
                    } else {
                        old(self)@.ring[j]
                    }) by {
                        assert(before[j] == before[j]);
                        if j == skipped as nat % len {
                            assert(old(self)@.position_in_range(j, next, (skipped + 1) as nat));
                        } else {
                            if old(self)@.position_in_range(j, next, (skipped + 1) as nat) {
                                let s = choose|s: nat|
                                    next <= s < skipped + 1 && #[trigger] (s % len) == j;
                                assert(s < skipped);
                            } else if old(self)@.position_in_range(j, next, skipped as nat) {
                                let s = choose|s: nat|
                                    next <= s < skipped && #[trigger] (s % len) == j;
                            }
                        }
                    }
                }
                skipped += 1;
            }
            proof {
                assert forall|j: int| 0 <= j < len implies old(self)@.position_in_range(
                    j,
                    old(self)@.next_slot,
                    skipped as nat,
                ) == old(self)@.position_in_range(j, old(self)@.next_slot, slot as nat) by {}
            }
        }
        set_bit(&mut self.bits, slot % max_entries, true);
        self.next_slot = slot + 1;
        assert(self@ =~= old(self)@.add(slot as nat));
    }

    pub fn check(&self, slot: Slot) -> (check: Check)
        requires
            self.wf(),
        ensures
            check == self@.check(slot as nat),
    {
        if slot > self.newest() {
            Check::Future
        } else if slot < self.oldest() {
            Check::TooOld
        } else if get_bit(&self.bits, slot % self.max_entries()) {
            Check::Found
        } else {
            Check::NotFound
        }
    }

    pub fn oldest(&self) -> (slot: Slot)
        ensures
            slot == self@.oldest(),
    {
        self.next_slot.saturating_sub(self.max_entries())
    }

    pub fn newest(&self) -> (slot: Slot)
        requires
            self.wf(),
        ensures
            slot == self@.newest(),
    {
        self.next_slot - 1
    }
}

/// What is known of a slot: one from the next slot on lies in the future, one that is more than a
/// ring before it is too old, and any other is found exactly where its flag is set.
pub proof fn law_check_tells_window(history: History, slot: nat)
    requires
        history.wf(),
    ensures
        history.check(slot) == Check::Future <==> slot >= history.next_slot,
        history.check(slot) == Check::TooOld <==> slot + history.ring.len() < history.next_slot,
        history.check(slot) == Check::Found <==> slot < history.next_slot && slot
            + history.ring.len() >= history.next_slot && history.ring[(slot
            % history.ring.len()) as int],
        history.check(slot) == Check::NotFound <==> slot < history.next_slot && slot
            + history.ring.len() >= history.next_slot && !history.ring[(slot
            % history.ring.len()) as int],
        history.oldest() <= history.newest(),
        history.newest() + 1 == history.next_slot,
        history.newest() < history.ring.len() ==> history.oldest() == 0,
        history.newest() >= history.ring.len() ==> history.newest() - history.oldest() + 1
            == history.ring.len(),
{
}

/// Adding a slot that is not past the newest one changes no flag but its own.
pub proof fn law_older_slot_only_sets_its_flag(history: History, slot: nat)
    requires
        history.wf(),
        slot < history.next_slot,
    ensures
        history.add(slot).ring == history.ring.update((slot % history.ring.len()) as int, true),
        history.add(slot).next_slot == slot + 1,
{
    lemma_mod_bound(slot as int, history.ring.len() as int);
    assert(history.add(slot).ring =~= history.ring.update(
        (slot % history.ring.len()) as int,
        true,
    ));
}

/// The history after slots were added, one after the other.
pub open spec fn with_slots(history: History, slots: Seq<nat>) -> History
    decreases slots.len(),
{
    if slots.len() == 0 {
        history
    } else {
        with_slots(history, slots.drop_last()).add(slots.last())
    }
}

/// Slots that are added in order, from a new history on, are found as long as the history covers
/// them, and no other slot is but the one that it starts with.
pub proof fn law_history_finds_what_was_added(history: History, slots: Seq<nat>, slot: nat)
    requires
        history.wf(),
        history.next_slot == 1,
        history.ring == Seq::new(history.ring.len(), |i: int| i == 0),
        forall|i: int| 0 <= i < slots.len() ==> #[trigger] slots[i] > 0,
        forall|i: int, j: int|
            0 <= i < j < slots.len() ==> #[trigger] slots[i] < #[trigger] slots[j],
    ensures
        with_slots(history, slots).wf(),
        with_slots(history, slots).ring.len() == history.ring.len(),
        with_slots(history, slots).newest() == if slots.len() == 0 {
            0
        } else {
            slots[slots.len() - 1]
        },
        with_slots(history, slots).check(slot) == Check::Found <==> (slot == 0 || slots.contains(
            slot,
        )) && slot + history.ring.len() > with_slots(history, slots).newest(),
    decreases slots.len(),
{
    let after = with_slots(history, slots);
    let len = history.ring.len();
    if slots.len() == 0 {
        lemma_small_mod(0, len);
    } else {
        let shorter = slots.drop_last();
        let last = slots.last();
        assert(last == slots[slots.len() - 1]);
        assert forall|i: int, j: int| 0 <= i < j < shorter.len() implies #[trigger] shorter[i]
            < #[trigger] shorter[j] by {
            assert(slots[i] < slots[j]);
        }
        assert forall|i: int| 0 <= i < shorter.len() implies #[trigger] shorter[i] > 0 by {
            assert(slots[i] > 0);
        }
        law_history_finds_what_was_added(history, shorter, slot);
        let before = with_slots(history, shorter);
        if shorter.len() > 0 {
            assert(slots[slots.len() - 2] < slots[slots.len() - 1]);
            assert(shorter[shorter.len() - 1] == slots[slots.len() - 2]);
        }
        assert(last >= before.next_slot);
        law_added_slot_is_found(before, last);
        law_add_moves_window_forward(before, last, slot);
        assert(slots.contains(slot) <==> shorter.contains(slot) || slot == last) by {
            if shorter.contains(slot) {
                let i = choose|i: int| 0 <= i < shorter.len() && shorter[i] == slot;
                assert(slots[i] == slot);
            }
            if slots.contains(slot) {
                let i = choose|i: int| 0 <= i < slots.len() && slots[i] == slot;
                if i < shorter.len() {
                    assert(shorter[i] == slot);
                }
            }
        }
        if shorter.contains(slot) {
            let i = choose|i: int| 0 <= i < shorter.len() && shorter[i] == slot;
            if i < shorter.len() - 1 {
                assert(shorter[i] < shorter[shorter.len() - 1]);
            }
        }
    }
}

/// The text of flags holds a digit for each: a one for a flag that is set, and else a zero.
pub proof fn law_flags_as_digits(flags: Seq<bool>)
    ensures
        flags_text(flags).len() == flags.len(),
        forall|i: int|
            0 <= i < flags.len() ==> (#[trigger] flags_text(flags)[i] == '1' <==> flags[i]),
        forall|i: int|
            0 <= i < flags.len() ==> (#[trigger] flags_text(flags)[i] == '0' <==> !flags[i]),
{
}

/// Histories are equal exactly where they have the same flags and the same next slot.
pub proof fn law_equal_histories_tell_the_same(history: SlotHistory, other: SlotHistory)
    ensures
        PartialEqSpec::eq_spec(&history, &other) <==> bits_of(history.bits) == bits_of(other.bits)
            && history.next_slot == other.next_slot,
        PartialEqSpec::eq_spec(&history, &other) ==> forall|slot: nat| #[trigger]
            history@.check(slot) == other@.check(slot),
{
}

} // verus!
