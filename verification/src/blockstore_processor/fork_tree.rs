//! What holds of a whole walk over the tree of forks that a ledger holds.

use std::sync::Arc;

use vstd::prelude::*;

use super::load_frozen_forks::descendants;
use super::load_frozen_forks::full_among;
use super::load_frozen_forks::insert_all_pending;
use super::load_frozen_forks::insert_pending;
use super::load_frozen_forks::lemma_position_bounds;
use super::load_frozen_forks::lemma_process_next_slots_keeps_wf;
use super::load_frozen_forks::lemma_set_root_keeps_wf;
use super::load_frozen_forks::pending_position;
use super::load_frozen_forks::BankInfo;
use super::load_frozen_forks::ForksView;
use super::load_frozen_forks::PendingSlot;
use super::load_frozen_forks::SlotMetaInfo;
use super::walk_forks::law_walk_ends_when_done;
use super::walk_forks::WalkActionView;
use super::walk_forks::WalkEvent;
use super::walk_forks::WalkView;
use crate::clock::Slot;

verus! {

/// The slot is `ancestor`, or descends from it. Each slot has one parent, which is earlier; a
/// slot whose parent is not has none.
pub open spec fn stands_on(parent: spec_fn(Slot) -> Slot, slot: Slot, ancestor: Slot) -> bool
    decreases slot,
{
    slot == ancestor || (parent(slot) < slot && stands_on(parent, parent(slot), ancestor))
}

/// Neither slot descends from the other.
pub open spec fn apart(parent: spec_fn(Slot) -> Slot, slot: Slot, other: Slot) -> bool {
    !stands_on(parent, slot, other) && !stands_on(parent, other, slot)
}

/// A bank tells truly which slots from the root on it descends from.
pub open spec fn tells_ancestry(
    parent: spec_fn(Slot) -> Slot,
    root: Slot,
    bank: BankInfo,
) -> bool {
    forall|ancestor: Slot|
        root <= ancestor ==> (#[trigger] bank.ancestors@.contains(ancestor) <==> stands_on(
            parent,
            bank.slot,
            ancestor,
        ))
}

/// Slots are different children of `slot`.
pub open spec fn are_children(
    parent: spec_fn(Slot) -> Slot,
    slot: Slot,
    children: Seq<Slot>,
) -> bool {
    &&& children.no_duplicates()
    &&& forall|i: int|
        0 <= i < children.len() ==> parent(#[trigger] children[i]) == slot && slot < children[i]
}

/// A bank of the tree, from the root on, that no tip descends from. It descends from no tip but
/// its parent.
pub open spec fn can_come_next(
    parent: spec_fn(Slot) -> Slot,
    forks: ForksView,
    bank: BankInfo,
    next_slots: Seq<Slot>,
) -> bool {
    &&& tells_ancestry(parent, forks.root, bank)
    &&& stands_on(parent, bank.slot, forks.root)
    &&& are_children(parent, bank.slot, next_slots)
    &&& forall|tip: Slot| #[trigger]
        forks.initial_forks.contains_key(tip) ==> !stands_on(parent, tip, bank.slot) && (
        stands_on(parent, bank.slot, tip) ==> bank.parent_slot == Some(tip))
}

/// No two of the slots descend from each other.
pub open spec fn all_apart(
    parent: spec_fn(Slot) -> Slot,
    pending: Seq<Arc<PendingSlot>>,
) -> bool {
    forall|i: int, j: int|
        0 <= i < pending.len() && 0 <= j < pending.len() && i != j ==> !stands_on(
            parent,
            (#[trigger] pending[i]).spec_slot(),
            (#[trigger] pending[j]).spec_slot(),
        )
}

/// A slot is apart from all of the others.
pub open spec fn apart_from_all(
    parent: spec_fn(Slot) -> Slot,
    slot: Slot,
    pending: Seq<Arc<PendingSlot>>,
) -> bool {
    forall|i: int|
        0 <= i < pending.len() ==> apart(parent, slot, (#[trigger] pending[i]).spec_slot())
}

/// Every tip descends from the root and tells so, and none from another.
pub open spec fn tips_on_tree(parent: spec_fn(Slot) -> Slot, forks: ForksView) -> bool {
    &&& forall|tip: Slot| #[trigger]
        forks.initial_forks.contains_key(tip) ==> tells_ancestry(
            parent,
            forks.root,
            *forks.initial_forks[tip],
        ) && stands_on(parent, tip, forks.root)
    &&& forall|tip: Slot, other: Slot| #[trigger]
        forks.initial_forks.contains_key(tip) && #[trigger] forks.initial_forks.contains_key(
            other,
        ) && tip != other ==> !stands_on(parent, tip, other)
}

/// The tips are on the tree, and every slot that waits can come next.
pub open spec fn forks_on_tree(parent: spec_fn(Slot) -> Slot, forks: ForksView) -> bool {
    &&& forks.wf()
    &&& tips_on_tree(parent, forks)
    &&& forall|i: int|
        0 <= i < forks.pending.len() ==> can_come_next(
            parent,
            forks,
            *(#[trigger] forks.pending[i]).bank,
            forks.pending[i].next_slots@,
        )
    &&& all_apart(parent, forks.pending)
}

/// The bank at hand can come next, and is apart from the slots that wait.
pub open spec fn bank_on_tree(parent: spec_fn(Slot) -> Slot, walk: WalkView) -> bool {
    &&& can_come_next(parent, walk.forks, *walk.bank, walk.next_slots)
    &&& apart_from_all(parent, walk.bank.slot, walk.forks.pending)
    &&& walk.phase is Banks ==> are_children(parent, walk.bank.slot, walk.full_slots)
}

/// A walk on the tree.
pub open spec fn walk_on_tree(parent: spec_fn(Slot) -> Slot, walk: WalkView) -> bool {
    &&& forks_on_tree(parent, walk.forks)
    &&& !(walk.phase is Finished) ==> bank_on_tree(parent, walk)
}

/// A walk that starts at the bank of a root, on which slots of the tree follow.
pub open spec fn starts_on_tree(parent: spec_fn(Slot) -> Slot, walk: WalkView) -> bool {
    &&& walk.phase is Start
    &&& walk.bank.slot == walk.forks.root
    &&& walk.forks.pending.len() == 0
    &&& walk.forks.initial_forks == Map::<Slot, Arc<BankInfo>>::empty()
    &&& walk.forks.all_banks == Map::<Slot, Arc<BankInfo>>::empty()
    &&& tells_ancestry(parent, walk.forks.root, *walk.bank)
    &&& are_children(parent, walk.bank.slot, walk.next_slots)
}

/// An event tells truly what the tree is like: new banks stand on the bank at hand and know
/// their ancestors and children, and a root that the cluster confirmed is an ancestor of the
/// bank at hand.
pub open spec fn tells_truly<L>(
    parent: spec_fn(Slot) -> Slot,
    walk: WalkView,
    event: WalkEvent<L>,
) -> bool {
    match event {
        WalkEvent::Banks(banks) => forall|i: int|
            0 <= i < banks@.len() ==> {
                &&& tells_ancestry(parent, walk.forks.root, *(#[trigger] banks@[i]).bank)
                &&& banks@[i].bank.parent_slot == Some(walk.bank.slot)
                &&& are_children(parent, banks@[i].spec_slot(), banks@[i].next_slots@)
            },
        WalkEvent::RootFound { supermajority_root, .. } => {
            walk.forks.root == walk.forks.max_root ==> (supermajority_root matches Some(root)
                ==> root > walk.forks.root ==> walk.bank.descends_from(root))
        },
        _ => true,
    }
}

/// The walk after events.
pub open spec fn walked<L, E>(walk: WalkView, events: Seq<WalkEvent<L>>) -> WalkView
    decreases events.len(),
{
    if events.len() == 0 {
        walk
    } else {
        walked::<L, E>(walk, events.drop_last()).step::<L, E>(events.last()).0
    }
}

/// Each event is one that is being waited for, and tells truly what the tree is like.
pub open spec fn events_tell_truly<L, E>(
    parent: spec_fn(Slot) -> Slot,
    walk: WalkView,
    events: Seq<WalkEvent<L>>,
) -> bool
    decreases events.len(),
{
    events.len() > 0 ==> {
        let before = walked::<L, E>(walk, events.drop_last());
        &&& events_tell_truly::<L, E>(parent, walk, events.drop_last())
        &&& before.expects(events.last())
        &&& tells_truly(parent, before, events.last())
    }
}

pub(crate) proof fn lemma_ancestor_is_earlier(parent: spec_fn(Slot) -> Slot, slot: Slot, ancestor: Slot)
    requires
        stands_on(parent, slot, ancestor),
    ensures
        ancestor <= slot,
    decreases slot,
{
    if slot != ancestor {
        lemma_ancestor_is_earlier(parent, parent(slot), ancestor);
    }
}

pub(crate) proof fn lemma_stands_on_transitive(
    parent: spec_fn(Slot) -> Slot,
    slot: Slot,
    middle: Slot,
    ancestor: Slot,
)
    requires
        stands_on(parent, slot, middle),
        stands_on(parent, middle, ancestor),
    ensures
        stands_on(parent, slot, ancestor),
    decreases slot,
{
    if slot != middle {
        lemma_stands_on_transitive(parent, parent(slot), middle, ancestor);
    }
}

proof fn lemma_full_are_children<L>(
    parent: spec_fn(Slot) -> Slot,
    slot: Slot,
    slots: Seq<Slot>,
    metas: Seq<Result<Option<SlotMetaInfo>, L>>,
)
    requires
        slots.len() == metas.len(),
        are_children(parent, slot, slots),
    ensures
        are_children(parent, slot, full_among(slots, metas)),
        forall|k: int|
            0 <= k < full_among(slots, metas).len() ==> slots.contains(
                #[trigger] full_among(slots, metas)[k],
            ),
    decreases slots.len(),
{
    if slots.len() > 0 {
        let shorter = slots.drop_last();
        let rest = full_among(shorter, metas.drop_last());
        let all = full_among(slots, metas);
        assert(shorter.no_duplicates());
        lemma_full_are_children(parent, slot, shorter, metas.drop_last());
        assert(slots[slots.len() - 1] == slots.last());
        assert forall|k: int| 0 <= k < all.len() implies slots.contains(#[trigger] all[k]) by {
            if k < rest.len() {
                assert(shorter.contains(rest[k]));
                let i = choose|i: int| 0 <= i < shorter.len() && shorter[i] == rest[k];
                assert(slots[i] == all[k]);
            }
        }
        assert forall|i: int, j: int|
            0 <= i < all.len() && 0 <= j < all.len() && i != j implies all[i] != all[j] by {
            let low = if i < j {
                i
            } else {
                j
            };
            assert(shorter.contains(rest[low]));
            let k = choose|k: int| 0 <= k < shorter.len() && shorter[k] == rest[low];
            assert(slots[k] == all[low]);
        }
    }
}

/// Putting a slot among others that it is apart from.
proof fn lemma_insert_apart(
    parent: spec_fn(Slot) -> Slot,
    pending: Seq<Arc<PendingSlot>>,
    next: Arc<PendingSlot>,
)
    requires
        all_apart(parent, pending),
        apart_from_all(parent, next.spec_slot(), pending),
    ensures
        all_apart(parent, insert_pending(pending, next)),
        forall|k: int|
            0 <= k < insert_pending(pending, next).len() ==> (#[trigger] insert_pending(
                pending,
                next,
            )[k]) == next || pending.contains(insert_pending(pending, next)[k]),
{
    let position = pending_position(pending, next.spec_slot()) as int;
    lemma_position_bounds(pending, next.spec_slot());
    let inserted = insert_pending(pending, next);
    assert forall|k: int| 0 <= k < inserted.len() implies (#[trigger] inserted[k]) == next
        || pending.contains(inserted[k]) by {
        if k < position {
            assert(inserted[k] == pending[k]);
        } else if k > position {
            assert(inserted[k] == pending[k - 1]);
        }
    }
    assert forall|i: int, j: int|
        0 <= i < inserted.len() && 0 <= j < inserted.len() && i != j implies !stands_on(
        parent,
        (#[trigger] inserted[i]).spec_slot(),
        (#[trigger] inserted[j]).spec_slot(),
    ) by {
        let from_i = if i < position {
            i
        } else {
            i - 1
        };
        let from_j = if j < position {
            j
        } else {
            j - 1
        };
        if i != position {
            assert(inserted[i] == pending[from_i]);
        }
        if j != position {
            assert(inserted[j] == pending[from_j]);
        }
    }
}

/// Putting slots that are apart among others that they are apart from.
proof fn lemma_insert_all_apart(
    parent: spec_fn(Slot) -> Slot,
    pending: Seq<Arc<PendingSlot>>,
    next: Seq<Arc<PendingSlot>>,
)
    requires
        all_apart(parent, pending),
        all_apart(parent, next),
        forall|k: int|
            0 <= k < next.len() ==> apart_from_all(
                parent,
                (#[trigger] next[k]).spec_slot(),
                pending,
            ),
    ensures
        all_apart(parent, insert_all_pending(pending, next)),
        forall|k: int|
            0 <= k < insert_all_pending(pending, next).len() ==> pending.contains(
                #[trigger] insert_all_pending(pending, next)[k],
            ) || next.contains(insert_all_pending(pending, next)[k]),
    decreases next.len(),
{
    if next.len() > 0 {
        let earlier = next.drop_last();
        let last = next.last();
        assert forall|k: int| 0 <= k < earlier.len() implies apart_from_all(
            parent,
            (#[trigger] earlier[k]).spec_slot(),
            pending,
        ) by {
            assert(earlier[k] == next[k]);
        }
        assert(all_apart(parent, earlier)) by {
            assert forall|i: int, j: int|
                0 <= i < earlier.len() && 0 <= j < earlier.len() && i != j implies !stands_on(
                parent,
                (#[trigger] earlier[i]).spec_slot(),
                (#[trigger] earlier[j]).spec_slot(),
            ) by {
                assert(earlier[i] == next[i] && earlier[j] == next[j]);
            }
        }
        lemma_insert_all_apart(parent, pending, earlier);
        let middle = insert_all_pending(pending, earlier);
        assert(next[next.len() - 1] == last);
        assert forall|k: int| 0 <= k < middle.len() implies apart(
            parent,
            last.spec_slot(),
            (#[trigger] middle[k]).spec_slot(),
        ) by {
            if pending.contains(middle[k]) {
                let i = choose|i: int| 0 <= i < pending.len() && pending[i] == middle[k];
                assert(apart(parent, last.spec_slot(), pending[i].spec_slot()));
            } else {
                let i = choose|i: int| 0 <= i < earlier.len() && earlier[i] == middle[k];
                assert(next[i] == middle[k]);
                assert(next[next.len() - 1].spec_slot() == last.spec_slot());
            }
        }
        lemma_insert_apart(parent, middle, last);
        let all = insert_all_pending(pending, next);
        assert forall|k: int| 0 <= k < all.len() implies pending.contains(#[trigger] all[k])
            || next.contains(all[k]) by {
            if all[k] != last {
                let m = choose|m: int| 0 <= m < middle.len() && middle[m] == all[k];
                if !pending.contains(middle[m]) {
                    let i = choose|i: int| 0 <= i < earlier.len() && earlier[i] == middle[m];
                    assert(next[i] == all[k]);
                }
            }
        }
    }
}

/// What is left of slots that are apart is apart.
proof fn lemma_descendants_apart(
    parent: spec_fn(Slot) -> Slot,
    pending: Seq<Arc<PendingSlot>>,
    root: Slot,
)
    requires
        all_apart(parent, pending),
    ensures
        all_apart(parent, descendants(pending, root)),
        forall|k: int|
            0 <= k < descendants(pending, root).len() ==> pending.contains(
                #[trigger] descendants(pending, root)[k],
            ) && descendants(pending, root)[k].bank.descends_from(root),
    decreases pending.len(),
{
    reveal(Seq::filter);
    if pending.len() > 0 {
        let shorter = pending.drop_last();
        let last = pending.last();
        let kept = descendants(shorter, root);
        let all = descendants(pending, root);
        assert(pending[pending.len() - 1] == last);
        assert(all_apart(parent, shorter)) by {
            assert forall|i: int, j: int|
                0 <= i < shorter.len() && 0 <= j < shorter.len() && i != j implies !stands_on(
                parent,
                (#[trigger] shorter[i]).spec_slot(),
                (#[trigger] shorter[j]).spec_slot(),
            ) by {
                assert(shorter[i] == pending[i] && shorter[j] == pending[j]);
            }
        }
        lemma_descendants_apart(parent, shorter, root);
        assert forall|k: int| 0 <= k < kept.len() implies pending.contains(#[trigger] kept[k])
            && apart(parent, last.spec_slot(), kept[k].spec_slot()) by {
            assert(shorter.contains(kept[k]));
            let i = choose|i: int| 0 <= i < shorter.len() && shorter[i] == kept[k];
            assert(pending[i] == kept[k]);
            assert(pending[pending.len() - 1].spec_slot() == last.spec_slot());
        }
        if last.bank.descends_from(root) {
            assert(all =~= kept.push(last));
            assert forall|i: int, j: int|
                0 <= i < all.len() && 0 <= j < all.len() && i != j implies !stands_on(
                parent,
                (#[trigger] all[i]).spec_slot(),
                (#[trigger] all[j]).spec_slot(),
            ) by {
                if i < kept.len() {
                    assert(all[i] == kept[i]);
                }
                if j < kept.len() {
                    assert(all[j] == kept[j]);
                }
            }
            assert forall|k: int| 0 <= k < all.len() implies pending.contains(#[trigger] all[k])
                && all[k].bank.descends_from(root) by {
                if k < kept.len() {
                    assert(all[k] == kept[k]);
                }
            }
        } else {
            assert(all =~= kept);
        }
    }
}

proof fn lemma_process_next_on_tree<L, E>(parent: spec_fn(Slot) -> Slot, walk: WalkView)
    requires
        forks_on_tree(parent, walk.forks),
    ensures
        walk_on_tree(parent, walk.process_next::<L, E>().0),
{
    let after = walk.process_next::<L, E>().0;
    let pending = walk.forks.pending;
    if pending.len() > 0 {
        let last = pending[pending.len() - 1];
        let rest = pending.drop_last();
        assert(can_come_next(parent, walk.forks, *last.bank, last.next_slots@));
        assert(can_come_next(parent, after.forks, *last.bank, last.next_slots@));
        assert forall|i: int| 0 <= i < rest.len() implies apart(
            parent,
            last.spec_slot(),
            (#[trigger] rest[i]).spec_slot(),
        ) by {
            assert(rest[i] == pending[i]);
        }
        assert forall|i: int| 0 <= i < rest.len() implies can_come_next(
            parent,
            after.forks,
            *(#[trigger] rest[i]).bank,
            rest[i].next_slots@,
        ) by {
            assert(can_come_next(parent, walk.forks, *pending[i].bank, pending[i].next_slots@));
        }
        assert(all_apart(parent, rest)) by {
            assert forall|i: int, j: int|
                0 <= i < rest.len() && 0 <= j < rest.len() && i != j implies !stands_on(
                parent,
                (#[trigger] rest[i]).spec_slot(),
                (#[trigger] rest[j]).spec_slot(),
            ) by {
                assert(rest[i] == pending[i] && rest[j] == pending[j]);
            }
        }
        assert(after.forks.wf()) by {
            assert forall|i: int, j: int| 0 <= i < j < rest.len() implies (
            #[trigger] rest[i]).spec_slot() >= (#[trigger] rest[j]).spec_slot() by {
                assert(rest[i] == pending[i] && rest[j] == pending[j]);
            }
        }
    }
}

/// What the bank at hand needs in order to become the tip of its fork.
proof fn lemma_new_tip_on_tree(
    parent: spec_fn(Slot) -> Slot,
    walk: WalkView,
    next: Seq<Arc<PendingSlot>>,
)
    requires
        forks_on_tree(parent, walk.forks),
        bank_on_tree(parent, walk),
        are_children(parent, walk.bank.slot, next.map_values(|one: Arc<PendingSlot>| one.bank.slot)),
        forall|i: int|
            0 <= i < next.len() ==> {
                &&& tells_ancestry(parent, walk.forks.root, *(#[trigger] next[i]).bank)
                &&& next[i].bank.parent_slot == Some(walk.bank.slot)
                &&& are_children(parent, next[i].spec_slot(), next[i].next_slots@)
            },
    ensures
        forks_on_tree(parent, walk.forks.process_next_slots(walk.bank, next)),
{
    let before = walk.forks;
    let after = before.process_next_slots(walk.bank, next);
    let own = walk.bank.slot;
    let slots = next.map_values(|one: Arc<PendingSlot>| one.bank.slot);
    lemma_process_next_slots_keeps_wf(before, walk.bank, next);
    assert(stands_on(parent, own, own));
    assert forall|i: int| 0 <= i < next.len() implies {
        &&& parent((#[trigger] next[i]).spec_slot()) == own
        &&& own < next[i].spec_slot()
        &&& stands_on(parent, next[i].spec_slot(), own)
    } by {
        assert(slots[i] == next[i].spec_slot());
    }
    // tips
    assert forall|tip: Slot, other: Slot| #[trigger]
        after.initial_forks.contains_key(tip) && #[trigger] after.initial_forks.contains_key(
            other,
        ) && tip != other implies !stands_on(parent, tip, other) by {
        if tip != own {
            assert(before.initial_forks.contains_key(tip));
        }
        if other != own {
            assert(before.initial_forks.contains_key(other));
        }
    }
    assert(tips_on_tree(parent, after)) by {
        assert forall|tip: Slot| #[trigger] after.initial_forks.contains_key(
            tip,
        ) implies tells_ancestry(parent, after.root, *after.initial_forks[tip]) && stands_on(
            parent,
            tip,
            after.root,
        ) by {
            if tip != own {
                assert(before.initial_forks.contains_key(tip));
            }
        }
    }
    // those that wait already
    assert forall|i: int| 0 <= i < before.pending.len() implies can_come_next(
        parent,
        after,
        *(#[trigger] before.pending[i]).bank,
        before.pending[i].next_slots@,
    ) by {
        let one = before.pending[i];
        assert(can_come_next(parent, before, *one.bank, one.next_slots@));
        assert(apart(parent, own, one.spec_slot()));
        assert forall|tip: Slot| #[trigger] after.initial_forks.contains_key(tip) implies !stands_on(
            parent,
            tip,
            one.bank.slot,
        ) && (stands_on(parent, one.bank.slot, tip) ==> one.bank.parent_slot == Some(tip)) by {
            if tip != own {
                assert(before.initial_forks.contains_key(tip));
            }
        }
    }
    // the new ones
    assert forall|i: int| 0 <= i < next.len() implies can_come_next(
        parent,
        after,
        *(#[trigger] next[i]).bank,
        next[i].next_slots@,
    ) by {
        let one = next[i].bank;
        assert(parent(next[i].spec_slot()) == own);
        assert forall|tip: Slot| #[trigger] after.initial_forks.contains_key(tip) implies !stands_on(
            parent,
            tip,
            one.slot,
        ) && (stands_on(parent, one.slot, tip) ==> one.parent_slot == Some(tip)) by {
            if tip != own {
                assert(before.initial_forks.contains_key(tip));
                if stands_on(parent, tip, one.slot) {
                    lemma_stands_on_transitive(parent, tip, one.slot, own);
                }
            } else if stands_on(parent, tip, one.slot) {
                lemma_ancestor_is_earlier(parent, tip, one.slot);
            }
        }
    }
    assert forall|k: int| 0 <= k < next.len() implies apart_from_all(
        parent,
        (#[trigger] next[k]).spec_slot(),
        before.pending,
    ) by {
        let child = next[k].spec_slot();
        assert(parent(child) == own);
        assert forall|i: int| 0 <= i < before.pending.len() implies apart(
            parent,
            child,
            (#[trigger] before.pending[i]).spec_slot(),
        ) by {
            let other = before.pending[i].spec_slot();
            assert(apart(parent, own, other));
            if stands_on(parent, other, child) {
                lemma_stands_on_transitive(parent, other, child, own);
            }
        }
    }
    assert forall|i: int, j: int|
        0 <= i < next.len() && 0 <= j < next.len() && i != j implies !stands_on(
        parent,
        (#[trigger] next[i]).spec_slot(),
        (#[trigger] next[j]).spec_slot(),
    ) by {
        assert(slots[i] != slots[j]);
        assert(parent(next[i].spec_slot()) == own);
        if stands_on(parent, own, next[j].spec_slot()) {
            lemma_ancestor_is_earlier(parent, own, next[j].spec_slot());
        }
    }
    lemma_insert_all_apart(parent, before.pending, next);
    assert forall|k: int| 0 <= k < after.pending.len() implies can_come_next(
        parent,
        after,
        *(#[trigger] after.pending[k]).bank,
        after.pending[k].next_slots@,
    ) by {
        let one = after.pending[k];
        if before.pending.contains(one) {
            let i = choose|i: int| 0 <= i < before.pending.len() && before.pending[i] == one;
            assert(can_come_next(
                parent,
                after,
                *before.pending[i].bank,
                before.pending[i].next_slots@,
            ));
        } else {
            let i = choose|i: int| 0 <= i < next.len() && next[i] == one;
            assert(can_come_next(parent, after, *next[i].bank, next[i].next_slots@));
        }
    }
}

proof fn lemma_add_next_on_tree<L, E>(
    parent: spec_fn(Slot) -> Slot,
    walk: WalkView,
    next: Seq<Arc<PendingSlot>>,
)
    requires
        forks_on_tree(parent, walk.forks),
        bank_on_tree(parent, walk),
        are_children(parent, walk.bank.slot, next.map_values(|one: Arc<PendingSlot>| one.bank.slot)),
        forall|i: int|
            0 <= i < next.len() ==> {
                &&& tells_ancestry(parent, walk.forks.root, *(#[trigger] next[i]).bank)
                &&& next[i].bank.parent_slot == Some(walk.bank.slot)
                &&& are_children(parent, next[i].spec_slot(), next[i].next_slots@)
            },
    ensures
        walk_on_tree(parent, walk.add_next::<L, E>(next).0),
        walk.add_next::<L, E>(next).0.forks.root == walk.forks.root,
{
    lemma_new_tip_on_tree(parent, walk, next);
    let added = WalkView { forks: walk.forks.process_next_slots(walk.bank, next), ..walk };
    lemma_process_next_on_tree::<L, E>(parent, added);
}

proof fn lemma_look_up_on_tree<L, E>(parent: spec_fn(Slot) -> Slot, walk: WalkView)
    requires
        forks_on_tree(parent, walk.forks),
        bank_on_tree(parent, walk),
    ensures
        walk_on_tree(parent, walk.look_up::<L, E>().0),
        walk.look_up::<L, E>().0.forks.root == walk.forks.root,
{
    if walk.next_slots.len() == 0 {
        let none = Seq::<Arc<PendingSlot>>::empty();
        lemma_add_next_on_tree::<L, E>(parent, walk, none);
    }
}

/// A later root of the tree leaves what descends from it.
proof fn lemma_set_root_on_tree(
    parent: spec_fn(Slot) -> Slot,
    forks: ForksView,
    root: Slot,
    bank: Arc<BankInfo>,
    next_slots: Seq<Slot>,
)
    requires
        forks_on_tree(parent, forks),
        forks.root <= root,
        can_come_next(parent, forks, *bank, next_slots),
        stands_on(parent, bank.slot, root),
        apart_from_all(parent, bank.slot, forks.pending),
    ensures
        forks_on_tree(parent, forks.set_root(root)),
        can_come_next(parent, forks.set_root(root), *bank, next_slots),
        apart_from_all(parent, bank.slot, forks.set_root(root).pending),
{
    let after = forks.set_root(root);
    lemma_descendants_apart(parent, forks.pending, root);
    lemma_set_root_keeps_wf(forks, root);
    assert forall|tip: Slot| #[trigger] after.initial_forks.contains_key(
        tip,
    ) implies forks.initial_forks.contains_key(tip) && tells_ancestry(
        parent,
        root,
        *after.initial_forks[tip],
    ) && stands_on(parent, tip, root) by {
        assert(forks.initial_forks[tip].ancestors@.contains(root));
    }
    assert(tips_on_tree(parent, after)) by {
        assert forall|tip: Slot, other: Slot| #[trigger]
            after.initial_forks.contains_key(tip) && #[trigger] after.initial_forks.contains_key(
                other,
            ) && tip != other implies !stands_on(parent, tip, other) by {
            assert(forks.initial_forks.contains_key(tip));
            assert(forks.initial_forks.contains_key(other));
        }
    }
    assert forall|k: int| 0 <= k < after.pending.len() implies can_come_next(
        parent,
        after,
        *(#[trigger] after.pending[k]).bank,
        after.pending[k].next_slots@,
    ) && apart(parent, bank.slot, after.pending[k].spec_slot()) by {
        let one = after.pending[k];
        assert(one == descendants(forks.pending, root)[k]);
        assert(forks.pending.contains(one));
        let i = choose|i: int| 0 <= i < forks.pending.len() && forks.pending[i] == one;
        assert(can_come_next(
            parent,
            forks,
            *forks.pending[i].bank,
            forks.pending[i].next_slots@,
        ));
        assert(one.bank.ancestors@.contains(root));
        assert(apart(parent, bank.slot, forks.pending[i].spec_slot()));
    }
}

/// One step of a walk on the tree.
proof fn lemma_step_on_tree<L, E>(
    parent: spec_fn(Slot) -> Slot,
    walk: WalkView,
    event: WalkEvent<L>,
)
    requires
        walk_on_tree(parent, walk),
        walk.expects(event),
        tells_truly(parent, walk, event),
    ensures
        walk_on_tree(parent, walk.step::<L, E>(event).0),
        walk.forks.root <= walk.step::<L, E>(event).0.forks.root,
{
    match event {
        WalkEvent::Started | WalkEvent::RootSet => {
            lemma_look_up_on_tree::<L, E>(parent, walk);
        },
        WalkEvent::Metas(metas) => {
            lemma_full_are_children(parent, walk.bank.slot, walk.next_slots, metas@);
        },
        WalkEvent::Banks(banks) => {
            let slots = banks@.map_values(|one: Arc<PendingSlot>| one.bank.slot);
            assert forall|i: int| 0 <= i < slots.len() implies slots[i] == walk.full_slots[i] by {
                assert(banks@[i].spec_slot() == walk.full_slots[i]);
            }
            assert(slots =~= walk.full_slots);
            lemma_add_next_on_tree::<L, E>(parent, walk, banks@);
        },
        WalkEvent::Processed(succeeded) => {
            lemma_process_next_on_tree::<L, E>(parent, walk);
        },
        WalkEvent::RootFound { supermajority_root, is_root } => {
            let with_bank = ForksView {
                all_banks: walk.forks.all_banks.insert(walk.bank.slot, walk.bank),
                ..walk.forks
            };
            let next = WalkView {
                forks: walk.forks.processed(walk.bank, supermajority_root, is_root),
                ..walk
            };
            assert(forks_on_tree(parent, with_bank)) by {
                assert forall|i: int| 0 <= i < with_bank.pending.len() implies can_come_next(
                    parent,
                    with_bank,
                    *(#[trigger] with_bank.pending[i]).bank,
                    with_bank.pending[i].next_slots@,
                ) by {
                    assert(can_come_next(
                        parent,
                        walk.forks,
                        *walk.forks.pending[i].bank,
                        walk.forks.pending[i].next_slots@,
                    ));
                }
            }
            match walk.forks.new_root(walk.bank.slot, supermajority_root, is_root) {
                Some(root) => {
                    lemma_ancestor_is_earlier(parent, walk.bank.slot, walk.forks.root);
                    if walk.forks.root == walk.forks.max_root {
                        assert(walk.bank.ancestors@.contains(root));
                    }
                    lemma_set_root_on_tree(
                        parent,
                        with_bank,
                        root,
                        walk.bank,
                        walk.next_slots,
                    );
                },
                None => {
                    lemma_look_up_on_tree::<L, E>(parent, next);
                },
            }
        },
    }
}

pub(crate) proof fn lemma_walk_on_tree<L, E>(
    parent: spec_fn(Slot) -> Slot,
    walk: WalkView,
    events: Seq<WalkEvent<L>>,
)
    requires
        walk_on_tree(parent, walk),
        events_tell_truly::<L, E>(parent, walk, events),
    ensures
        walk_on_tree(parent, walked::<L, E>(walk, events)),
        walk.forks.root <= walked::<L, E>(walk, events).forks.root,
    decreases events.len(),
{
    if events.len() > 0 {
        lemma_walk_on_tree::<L, E>(parent, walk, events.drop_last());
        lemma_step_on_tree::<L, E>(
            parent,
            walked::<L, E>(walk, events.drop_last()),
            events.last(),
        );
    }
}

/// Of a whole walk over a tree of forks, from the bank of a root on, during which the banks tell
/// truly what they descend from: the root never goes back; every tip, and so every slot that the
/// walk ends with, descends from the root; and no tip is an ancestor of another.
pub proof fn law_tips_of_a_walk<L, E>(
    parent: spec_fn(Slot) -> Slot,
    walk: WalkView,
    events: Seq<WalkEvent<L>>,
)
    requires
        starts_on_tree(parent, walk),
        events_tell_truly::<L, E>(parent, walk, events),
    ensures
        ({
            let after = walked::<L, E>(walk, events);
            let tips = after.forks.initial_forks;
            &&& walk.forks.root <= after.forks.root
            &&& events.len() > 0 ==> walked::<L, E>(walk, events.drop_last()).forks.root
                <= after.forks.root
            &&& forall|tip: Slot| #[trigger]
                tips.contains_key(tip) ==> stands_on(parent, tip, after.forks.root)
                    && tips[tip].slot == tip && tips[tip].descends_from(after.forks.root)
            &&& forall|tip: Slot, other: Slot| #[trigger]
                tips.contains_key(tip) && #[trigger] tips.contains_key(other) && tip != other
                    ==> !stands_on(parent, tip, other) && !tips[tip].descends_from(other)
            &&& events.len() > 0 ==> (walked::<L, E>(walk, events.drop_last()).step::<L, E>(
                events.last(),
            ).1 matches WalkActionView::Done(Ok(slots)) ==> slots == tips.dom())
        }),
{
    let after = walked::<L, E>(walk, events);
    let tips = after.forks.initial_forks;
    assert(stands_on(parent, walk.bank.slot, walk.forks.root));
    lemma_walk_on_tree::<L, E>(parent, walk, events);
    if events.len() > 0 {
        let before = walked::<L, E>(walk, events.drop_last());
        lemma_walk_on_tree::<L, E>(parent, walk, events.drop_last());
        lemma_step_on_tree::<L, E>(parent, before, events.last());
        if before.step::<L, E>(events.last()).1 matches WalkActionView::Done(Ok(_)) {
            law_walk_ends_when_done::<L, E>(before, events.last());
        }
    }
    assert forall|tip: Slot| #[trigger] tips.contains_key(tip) implies tips[tip].slot == tip
        && tips[tip].descends_from(after.forks.root) by {
        assert(tips[tip].ancestors@.contains(after.forks.root) <==> stands_on(
            parent,
            tips[tip].slot,
            after.forks.root,
        ));
    }
    assert forall|tip: Slot, other: Slot| #[trigger]
        tips.contains_key(tip) && #[trigger] tips.contains_key(other) && tip
            != other implies !tips[tip].descends_from(other) by {
        lemma_ancestor_is_earlier(parent, other, after.forks.root);
        assert(tips[tip].ancestors@.contains(other) <==> stands_on(
            parent,
            tips[tip].slot,
            other,
        ));
    }
}

} // verus!
