//! Which slots a whole walk over the tree of forks replays.

use std::sync::Arc;

use vstd::prelude::*;

use super::fork_tree::events_tell_truly;
use super::fork_tree::lemma_ancestor_is_earlier;
use super::fork_tree::lemma_stands_on_transitive;
use super::fork_tree::lemma_walk_on_tree;
use super::fork_tree::stands_on;
use super::fork_tree::starts_on_tree;
use super::fork_tree::tells_truly;
use super::fork_tree::walk_on_tree;
use super::fork_tree::walked;
use super::load_frozen_forks::full_among;
use super::load_frozen_forks::law_full_slots_are_found;
use super::load_frozen_forks::law_processed_bank_brings_root;
use super::load_frozen_forks::lemma_insert_all_counted;
use super::load_frozen_forks::ForksView;
use super::load_frozen_forks::PendingSlot;
use super::walk_forks::law_walk_ends_when_done;
use super::walk_forks::WalkActionView;
use super::walk_forks::WalkEvent;
use super::walk_forks::WalkPhase;
use super::walk_forks::WalkView;
use crate::clock::Slot;

verus! {

/// Every full slot of the ledger that has `slot` as its parent is among those that follow on it.
pub open spec fn knows_children(
    parent: spec_fn(Slot) -> Slot,
    full: spec_fn(Slot) -> bool,
    slot: Slot,
    next_slots: Seq<Slot>,
) -> bool {
    forall|child: Slot| #[trigger]
        full(child) && parent(child) == slot && slot < child ==> next_slots.contains(child)
}

/// An event leaves out nothing of what the ledger holds in full.
pub open spec fn tells_fully<L>(
    parent: spec_fn(Slot) -> Slot,
    full: spec_fn(Slot) -> bool,
    walk: WalkView,
    event: WalkEvent<L>,
) -> bool {
    match event {
        WalkEvent::Metas(metas) => forall|i: int|
            0 <= i < walk.next_slots.len() && full(#[trigger] walk.next_slots[i]) ==> (
            metas@[i] matches Ok(found) ==> (found matches Some(meta) && meta.is_full)),
        WalkEvent::Banks(banks) => forall|i: int|
            0 <= i < banks@.len() ==> knows_children(
                parent,
                full,
                (#[trigger] banks@[i]).bank.slot,
                banks@[i].next_slots@,
            ),
        _ => true,
    }
}

/// No event leaves out anything of what the ledger holds in full.
pub open spec fn events_tell_fully<L, E>(
    parent: spec_fn(Slot) -> Slot,
    full: spec_fn(Slot) -> bool,
    walk: WalkView,
    events: Seq<WalkEvent<L>>,
) -> bool
    decreases events.len(),
{
    events.len() > 0 ==> {
        &&& events_tell_fully::<L, E>(parent, full, walk, events.drop_last())
        &&& tells_fully(
            parent,
            full,
            walked::<L, E>(walk, events.drop_last()),
            events.last(),
        )
    }
}

/// The slots whose replay ended in a certain way during a walk.
pub open spec fn replays<L, E>(walk: WalkView, events: Seq<WalkEvent<L>>, succeeded: bool) -> Set<
    Slot,
>
    decreases events.len(),
{
    if events.len() == 0 {
        Set::empty()
    } else {
        let rest = replays::<L, E>(walk, events.drop_last(), succeeded);
        if events.last() matches WalkEvent::Processed(outcome) && outcome == succeeded {
            rest.insert(walked::<L, E>(walk, events.drop_last()).bank.slot)
        } else {
            rest
        }
    }
}

/// A slot is among those that wait.
spec fn waits(pending: Seq<Arc<PendingSlot>>, slot: Slot) -> bool {
    exists|i: int| 0 <= i < pending.len() && (#[trigger] pending[i]).bank.slot == slot
}

/// Of every slot that was replayed, but for the one that is `open`, all full slots that follow on
/// it and descend from the root are accounted for: they wait, are at hand, or were replayed.
spec fn children_covered(
    parent: spec_fn(Slot) -> Slot,
    full: spec_fn(Slot) -> bool,
    start: Slot,
    forks: ForksView,
    done: Set<Slot>,
    failed: Set<Slot>,
    at_hand: Option<Slot>,
    open: Option<Slot>,
) -> bool {
    forall|child: Slot| #[trigger]
        full(child) && parent(child) < child && (parent(child) == start || done.contains(
            parent(child),
        )) && stands_on(parent, child, forks.root) && open != Some(parent(child)) ==> waits(
            forks.pending,
            child,
        ) || at_hand == Some(child) || done.contains(child) || failed.contains(child)
}

/// Everything that a walk has come to is accounted for.
spec fn accounted(
    parent: spec_fn(Slot) -> Slot,
    full: spec_fn(Slot) -> bool,
    start: Slot,
    walk: WalkView,
    done: Set<Slot>,
    failed: Set<Slot>,
) -> bool {
    let own = Some(walk.bank.slot);
    &&& forall|slot: Slot| #[trigger]
        walk.forks.all_banks.contains_key(slot) ==> done.contains(slot)
    &&& walk.forks.root == start || done.contains(walk.forks.root)
    &&& pending_knows(parent, full, walk.forks.pending)
    &&& match walk.phase {
        WalkPhase::Start => walk.bank.slot == start,
        WalkPhase::Root | WalkPhase::SetRoot => done.contains(walk.bank.slot),
        WalkPhase::Metas | WalkPhase::Banks => walk.bank.slot == start || done.contains(
            walk.bank.slot,
        ),
        _ => true,
    }
    &&& walk.phase is Finished || knows_children(parent, full, walk.bank.slot, walk.next_slots)
    &&& walk.phase is Banks ==> knows_children(parent, full, walk.bank.slot, walk.full_slots)
    &&& match walk.phase {
        WalkPhase::Finished => children_covered(
            parent,
            full,
            start,
            walk.forks,
            done,
            failed,
            None,
            None,
        ),
        WalkPhase::Process => children_covered(
            parent,
            full,
            start,
            walk.forks,
            done,
            failed,
            own,
            None,
        ),
        _ => children_covered(parent, full, start, walk.forks, done, failed, None, own),
    }
}

spec fn pending_knows(
    parent: spec_fn(Slot) -> Slot,
    full: spec_fn(Slot) -> bool,
    pending: Seq<Arc<PendingSlot>>,
) -> bool {
    forall|i: int|
        0 <= i < pending.len() ==> knows_children(
            parent,
            full,
            (#[trigger] pending[i]).bank.slot,
            pending[i].next_slots@,
        )
}

proof fn lemma_process_next<L, E>(
    parent: spec_fn(Slot) -> Slot,
    full: spec_fn(Slot) -> bool,
    start: Slot,
    walk: WalkView,
    done: Set<Slot>,
    failed: Set<Slot>,
)
    requires
        forall|slot: Slot| #[trigger]
            walk.forks.all_banks.contains_key(slot) ==> done.contains(slot),
        walk.forks.root == start || done.contains(walk.forks.root),
        pending_knows(parent, full, walk.forks.pending),
        children_covered(parent, full, start, walk.forks, done, failed, None, None),
    ensures
        accounted(parent, full, start, walk.process_next::<L, E>().0, done, failed),
{
    let pending = walk.forks.pending;
    let after = walk.process_next::<L, E>().0;
    if pending.len() > 0 {
        let last = pending[pending.len() - 1];
        assert(knows_children(parent, full, last.bank.slot, last.next_slots@));
        assert forall|i: int| 0 <= i < after.forks.pending.len() implies knows_children(
            parent,
            full,
            (#[trigger] after.forks.pending[i]).bank.slot,
            after.forks.pending[i].next_slots@,
        ) by {
            assert(after.forks.pending[i] == pending[i]);
        }
        assert forall|child: Slot| #[trigger]
            full(child) && parent(child) < child && (parent(child) == start || done.contains(
                parent(child),
            )) && stands_on(parent, child, after.forks.root) implies waits(
            after.forks.pending,
            child,
        ) || last.bank.slot == child || done.contains(child) || failed.contains(child) by {
            if waits(pending, child) {
                let i = choose|i: int|
                    0 <= i < pending.len() && (#[trigger] pending[i]).bank.slot == child;
                if i < pending.len() - 1 {
                    assert(after.forks.pending[i] == pending[i]);
                }
            }
        }
    }
}

proof fn lemma_add_next<L, E>(
    parent: spec_fn(Slot) -> Slot,
    full: spec_fn(Slot) -> bool,
    start: Slot,
    walk: WalkView,
    next: Seq<Arc<PendingSlot>>,
    done: Set<Slot>,
    failed: Set<Slot>,
)
    requires
        forall|slot: Slot| #[trigger]
            walk.forks.all_banks.contains_key(slot) ==> done.contains(slot),
        walk.forks.root == start || done.contains(walk.forks.root),
        pending_knows(parent, full, walk.forks.pending),
        pending_knows(parent, full, next),
        knows_children(
            parent,
            full,
            walk.bank.slot,
            next.map_values(|one: Arc<PendingSlot>| one.bank.slot),
        ),
        children_covered(
            parent,
            full,
            start,
            walk.forks,
            done,
            failed,
            None,
            Some(walk.bank.slot),
        ),
    ensures
        accounted(parent, full, start, walk.add_next::<L, E>(next).0, done, failed),
{
    broadcast use vstd::seq_lib::group_to_multiset_ensures;

    let added = WalkView { forks: walk.forks.process_next_slots(walk.bank, next), ..walk };
    let before = walk.forks.pending;
    let pending = added.forks.pending;
    let slots = next.map_values(|one: Arc<PendingSlot>| one.bank.slot);
    lemma_insert_all_counted(before, next);
    assert forall|i: int| 0 <= i < pending.len() implies knows_children(
        parent,
        full,
        (#[trigger] pending[i]).bank.slot,
        pending[i].next_slots@,
    ) by {
        assert(pending.contains(pending[i]));
        assert(pending.to_multiset().count(pending[i]) > 0);
        if before.to_multiset().count(pending[i]) > 0 {
            assert(before.contains(pending[i]));
            let k = choose|k: int| 0 <= k < before.len() && before[k] == pending[i];
            assert(before[k] == pending[i]);
        } else {
            assert(next.to_multiset().count(pending[i]) > 0);
            assert(next.contains(pending[i]));
            let k = choose|k: int| 0 <= k < next.len() && next[k] == pending[i];
            assert(next[k] == pending[i]);
        }
    }
    assert forall|child: Slot| #[trigger]
        full(child) && parent(child) < child && (parent(child) == start || done.contains(
            parent(child),
        )) && stands_on(parent, child, added.forks.root) implies waits(pending, child)
        || done.contains(child) || failed.contains(child) by {
        if parent(child) == walk.bank.slot {
            assert(slots.contains(child));
            let k = choose|k: int| 0 <= k < slots.len() && slots[k] == child;
            assert(next.contains(next[k]));
            assert(next.to_multiset().count(next[k]) > 0);
            assert(pending.to_multiset().count(next[k]) > 0);
            assert(pending.contains(next[k]));
            let i = choose|i: int| 0 <= i < pending.len() && pending[i] == next[k];
            assert(pending[i].bank.slot == child);
        } else if waits(before, child) {
            let k = choose|k: int|
                0 <= k < before.len() && (#[trigger] before[k]).bank.slot == child;
            assert(before.contains(before[k]));
            assert(before.to_multiset().count(before[k]) > 0);
            assert(pending.to_multiset().count(before[k]) > 0);
            assert(pending.contains(before[k]));
            let i = choose|i: int| 0 <= i < pending.len() && pending[i] == before[k];
            assert(pending[i].bank.slot == child);
        }
    }
    lemma_process_next::<L, E>(parent, full, start, added, done, failed);
}

proof fn lemma_look_up<L, E>(
    parent: spec_fn(Slot) -> Slot,
    full: spec_fn(Slot) -> bool,
    start: Slot,
    walk: WalkView,
    done: Set<Slot>,
    failed: Set<Slot>,
)
    requires
        forall|slot: Slot| #[trigger]
            walk.forks.all_banks.contains_key(slot) ==> done.contains(slot),
        walk.forks.root == start || done.contains(walk.forks.root),
        pending_knows(parent, full, walk.forks.pending),
        walk.bank.slot == start || done.contains(walk.bank.slot),
        knows_children(parent, full, walk.bank.slot, walk.next_slots),
        children_covered(
            parent,
            full,
            start,
            walk.forks,
            done,
            failed,
            None,
            Some(walk.bank.slot),
        ),
    ensures
        accounted(parent, full, start, walk.look_up::<L, E>().0, done, failed),
{
    if walk.next_slots.len() == 0 {
        let none = Seq::<Arc<PendingSlot>>::empty();
        assert forall|child: Slot| #[trigger]
            full(child) && parent(child) == walk.bank.slot && walk.bank.slot
                < child implies none.map_values(
            |one: Arc<PendingSlot>| one.bank.slot,
        ).contains(child) by {
            assert(walk.next_slots.contains(child));
        }
        lemma_add_next::<L, E>(parent, full, start, walk, none, done, failed);
    }
}

/// Two ancestors of a slot: the later one descends from the earlier one.
proof fn lemma_ancestors_in_line(
    parent: spec_fn(Slot) -> Slot,
    slot: Slot,
    later: Slot,
    earlier: Slot,
)
    requires
        stands_on(parent, slot, later),
        stands_on(parent, slot, earlier),
        earlier <= later,
    ensures
        stands_on(parent, later, earlier),
    decreases slot,
{
    if slot != later {
        lemma_ancestor_is_earlier(parent, parent(slot), later);
        lemma_ancestors_in_line(parent, parent(slot), later, earlier);
    }
}

proof fn lemma_root_found<L, E>(
    parent: spec_fn(Slot) -> Slot,
    full: spec_fn(Slot) -> bool,
    start: Slot,
    walk: WalkView,
    supermajority_root: Option<Slot>,
    is_root: bool,
    done: Set<Slot>,
    failed: Set<Slot>,
)
    requires
        walk_on_tree(parent, walk),
        walk.expects(WalkEvent::<L>::RootFound { supermajority_root, is_root }),
        tells_truly(
            parent,
            walk,
            WalkEvent::<L>::RootFound { supermajority_root, is_root },
        ),
        accounted(parent, full, start, walk, done, failed),
    ensures
        accounted(
            parent,
            full,
            start,
            walk.step::<L, E>(WalkEvent::RootFound { supermajority_root, is_root }).0,
            done,
            failed,
        ),
{
    broadcast use vstd::seq_lib::group_to_multiset_ensures;

    let bank = walk.bank;
    let after = walk.forks.processed(bank, supermajority_root, is_root);
    let next = WalkView { forks: after, ..walk };
    law_processed_bank_brings_root(walk.forks, bank, supermajority_root, is_root);
    match walk.forks.new_root(bank.slot, supermajority_root, is_root) {
        Some(root) => {
            let kept = |one: Arc<PendingSlot>| one.bank.ancestors@.contains(root);
            lemma_ancestor_is_earlier(parent, bank.slot, walk.forks.root);
            if walk.forks.root == walk.forks.max_root {
                assert(bank.ancestors@.contains(root));
            }
            assert(stands_on(parent, bank.slot, root));
            assert(walk.forks.root <= root);
            lemma_ancestors_in_line(parent, bank.slot, root, walk.forks.root);
            let before = walk.forks.pending;
            assert(pending_knows(parent, full, after.pending)) by {
                assert forall|i: int| 0 <= i < after.pending.len() implies knows_children(
                    parent,
                    full,
                    (#[trigger] after.pending[i]).bank.slot,
                    after.pending[i].next_slots@,
                ) by {
                    assert(after.pending.contains(after.pending[i]));
                    before.lemma_filter_contains_rev(kept, after.pending[i]);
                    let k = choose|k: int| 0 <= k < before.len() && before[k] == after.pending[i];
                    assert(before[k] == after.pending[i]);
                }
            }
            assert forall|child: Slot| #[trigger]
                full(child) && parent(child) < child && (parent(child) == start || done.contains(
                    parent(child),
                )) && stands_on(parent, child, root) && bank.slot != parent(child) implies waits(
                after.pending,
                child,
            ) || done.contains(child) || failed.contains(child) by {
                lemma_stands_on_transitive(parent, child, root, walk.forks.root);
                if waits(before, child) {
                    let k = choose|k: int|
                        0 <= k < before.len() && (#[trigger] before[k]).bank.slot == child;
                    assert(before[k].bank.ancestors@.contains(root) <==> stands_on(
                        parent,
                        before[k].bank.slot,
                        root,
                    ));
                    assert(kept(before[k]));
                    before.lemma_filter_contains(kept, k);
                    let i = choose|i: int|
                        0 <= i < after.pending.len() && after.pending[i] == before[k];
                    assert(after.pending[i].bank.slot == child);
                }
            }
        },
        None => {
            lemma_look_up::<L, E>(parent, full, start, next, done, failed);
        },
    }
}

proof fn lemma_step<L, E>(
    parent: spec_fn(Slot) -> Slot,
    full: spec_fn(Slot) -> bool,
    start: Slot,
    walk: WalkView,
    event: WalkEvent<L>,
    done: Set<Slot>,
    failed: Set<Slot>,
)
    requires
        walk_on_tree(parent, walk),
        walk.expects(event),
        tells_truly(parent, walk, event),
        tells_fully(parent, full, walk, event),
        accounted(parent, full, start, walk, done, failed),
        !(walk.step::<L, E>(event).1 matches WalkActionView::Done(Err(_))),
    ensures
        accounted(
            parent,
            full,
            start,
            walk.step::<L, E>(event).0,
            if event matches WalkEvent::Processed(succeeded) && succeeded {
                done.insert(walk.bank.slot)
            } else {
                done
            },
            if event matches WalkEvent::Processed(succeeded) && !succeeded {
                failed.insert(walk.bank.slot)
            } else {
                failed
            },
        ),
{
    match event {
        WalkEvent::Started | WalkEvent::RootSet => {
            lemma_look_up::<L, E>(parent, full, start, walk, done, failed);
        },
        WalkEvent::Metas(metas) => {
            let full_slots = full_among(walk.next_slots, metas@);
            if walk.next_slots.len() > 0 {
                law_full_slots_are_found(
                    walk.next_slots,
                    metas@,
                    Seq::empty(),
                    Seq::empty(),
                    walk.next_slots[0],
                    metas@[0],
                );
            }
            assert(walk.step::<L, E>(event).1 is CreateBanks);
            assert forall|child: Slot| #[trigger]
                full(child) && parent(child) == walk.bank.slot && walk.bank.slot
                    < child implies full_slots.contains(child) by {
                assert(walk.next_slots.contains(child));
                let i = choose|i: int|
                    0 <= i < walk.next_slots.len() && walk.next_slots[i] == child;
                assert(metas@[i] is Ok);
                assert(full_slots.contains(walk.next_slots[i]));
            }
        },
        WalkEvent::Banks(banks) => {
            let slots = banks@.map_values(|one: Arc<PendingSlot>| one.bank.slot);
            assert forall|i: int| 0 <= i < slots.len() implies slots[i] == walk.full_slots[i] by {
                assert(banks@[i].spec_slot() == walk.full_slots[i]);
            }
            assert(slots =~= walk.full_slots);
            lemma_add_next::<L, E>(parent, full, start, walk, banks@, done, failed);
        },
        WalkEvent::Processed(succeeded) => {
            if !succeeded {
                lemma_process_next::<L, E>(
                    parent,
                    full,
                    start,
                    walk,
                    done,
                    failed.insert(walk.bank.slot),
                );
            }
        },
        WalkEvent::RootFound { supermajority_root, is_root } => {
            lemma_root_found::<L, E>(
                parent,
                full,
                start,
                walk,
                supermajority_root,
                is_root,
                done,
                failed,
            );
        },
    }
}

proof fn lemma_walk_accounted<L, E>(
    parent: spec_fn(Slot) -> Slot,
    full: spec_fn(Slot) -> bool,
    walk: WalkView,
    events: Seq<WalkEvent<L>>,
)
    requires
        starts_on_tree(parent, walk),
        knows_children(parent, full, walk.bank.slot, walk.next_slots),
        events_tell_truly::<L, E>(parent, walk, events),
        events_tell_fully::<L, E>(parent, full, walk, events),
        events.len() > 0 ==> !(walked::<L, E>(walk, events.drop_last()).step::<L, E>(
            events.last(),
        ).1 matches WalkActionView::Done(Err(_))),
    ensures
        accounted(
            parent,
            full,
            walk.bank.slot,
            walked::<L, E>(walk, events),
            replays::<L, E>(walk, events, true),
            replays::<L, E>(walk, events, false),
        ),
    decreases events.len(),
{
    assert(stands_on(parent, walk.bank.slot, walk.forks.root));
    if events.len() > 0 {
        let front = events.drop_last();
        let before = walked::<L, E>(walk, front);
        assert(!(before.phase is Finished));
        lemma_walk_on_tree::<L, E>(parent, walk, front);
        if front.len() > 0 {
            lemma_error_finishes::<L, E>(
                walked::<L, E>(walk, front.drop_last()),
                front.last(),
            );
        }
        lemma_walk_accounted::<L, E>(parent, full, walk, front);
        lemma_step::<L, E>(
            parent,
            full,
            walk.bank.slot,
            before,
            events.last(),
            replays::<L, E>(walk, front, true),
            replays::<L, E>(walk, front, false),
        );
    } else {
        assert forall|child: Slot| #[trigger]
            full(child) && parent(child) < child && (parent(child) == walk.bank.slot
                || Set::<Slot>::empty().contains(parent(child))) && Some(walk.bank.slot) != Some(
                parent(child),
            ) implies false by {}
    }
}

proof fn lemma_error_finishes<L, E>(walk: WalkView, event: WalkEvent<L>)
    ensures
        walk.step::<L, E>(event).1 matches WalkActionView::Done(Err(_)) ==> walk.step::<L, E>(
            event,
        ).0.phase is Finished,
{
}

/// Of a whole walk that is not halted: every slot of the tree that the ledger holds in full and
/// that descends from the root in the end is replayed, where the slots between the root and it
/// were full too and their replay did not fail. The root itself is the one that the walk started
/// at, or was replayed without failure.
pub proof fn law_every_full_slot_is_replayed<L, E>(
    parent: spec_fn(Slot) -> Slot,
    full: spec_fn(Slot) -> bool,
    walk: WalkView,
    events: Seq<WalkEvent<L>>,
    slot: Slot,
)
    requires
        starts_on_tree(parent, walk),
        knows_children(parent, full, walk.bank.slot, walk.next_slots),
        events_tell_truly::<L, E>(parent, walk, events),
        events_tell_fully::<L, E>(parent, full, walk, events),
        events.len() > 0,
        (walked::<L, E>(walk, events.drop_last()).step::<L, E>(
            events.last(),
        ).1 matches WalkActionView::Done(Ok(_))),
        walked::<L, E>(walk, events).bank.slot < walked::<L, E>(walk, events).forks.halt_at_slot,
        stands_on(parent, slot, walked::<L, E>(walk, events).forks.root),
        full(slot),
        forall|between: Slot|
            between != slot && #[trigger] stands_on(parent, slot, between) && stands_on(
                parent,
                between,
                walked::<L, E>(walk, events).forks.root,
            ) && between != walked::<L, E>(walk, events).forks.root ==> full(between) && !replays::<
                L,
                E,
            >(walk, events, false).contains(between),
    ensures
        slot == walked::<L, E>(walk, events).forks.root ==> slot == walk.bank.slot || replays::<
            L,
            E,
        >(walk, events, true).contains(slot),
        slot != walked::<L, E>(walk, events).forks.root ==> replays::<L, E>(
            walk,
            events,
            true,
        ).contains(slot) || replays::<L, E>(walk, events, false).contains(slot),
    decreases slot,
{
    let after = walked::<L, E>(walk, events);
    let before = walked::<L, E>(walk, events.drop_last());
    let root = after.forks.root;
    let done = replays::<L, E>(walk, events, true);
    assert(stands_on(parent, walk.bank.slot, walk.forks.root));
    lemma_walk_accounted::<L, E>(parent, full, walk, events);
    lemma_walk_on_tree::<L, E>(parent, walk, events.drop_last());
    law_walk_ends_when_done::<L, E>(before, events.last());
    assert(after.forks.pending.len() == 0);
    if slot != root {
        let above = parent(slot);
        assert(stands_on(parent, above, root));
        assert(stands_on(parent, above, above));
        assert(stands_on(parent, slot, above));
        assert(above == walk.bank.slot || done.contains(above)) by {
            if above != root {
                assert(full(above) && !replays::<L, E>(walk, events, false).contains(above));
                assert forall|between: Slot|
                    between != above && #[trigger] stands_on(parent, above, between) && stands_on(
                        parent,
                        between,
                        root,
                    ) && between != root implies full(between) && !replays::<L, E>(
                    walk,
                    events,
                    false,
                ).contains(between) by {
                    assert(stands_on(parent, slot, between));
                    lemma_ancestor_is_earlier(parent, above, between);
                }
                law_every_full_slot_is_replayed::<L, E>(parent, full, walk, events, above);
            }
        }
    }
}

} // verus!
