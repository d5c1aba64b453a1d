//! Finds the latest root that a supermajority of the stake agrees on.

use vstd::prelude::*;

use crate::clock::Slot;

verus! {

/// What the vote of an account says: its stake, and its vote state, which tells the account's
/// root if it has one.
#[derive(Clone, Copy, Debug, PartialEq, Eq, Structural)]
pub struct VoteAccountInfo {
    pub stake: u64,
    pub vote_state: Option<VoteStateInfo>,
}

#[derive(Clone, Copy, Debug, PartialEq, Eq, Structural)]
pub struct VoteStateInfo {
    pub root_slot: Option<Slot>,
}

impl VoteAccountInfo {
    /// The root that the account votes for, with its stake.
    pub open spec fn root_stake(self) -> Option<(Slot, u64)> {
        match self.vote_state {
            Some(VoteStateInfo { root_slot: Some(root) }) => if self.stake == 0 {
                None
            } else {
                Some((root, self.stake))
            },
            _ => None,
        }
    }
}

/// The stake of all of the roots.
pub open spec fn total_stake(roots: Seq<(Slot, u64)>) -> nat
    decreases roots.len(),
{
    if roots.len() == 0 {
        0
    } else {
        total_stake(roots.drop_last()) + roots.last().1 as nat
    }
}

/// From the largest root to the smallest.
pub open spec fn descending(roots: Seq<(Slot, u64)>) -> bool {
    forall|i: int, j: int| 0 <= i < j < roots.len() ==> (#[trigger] roots[i]).0 >= (
    #[trigger] roots[j]).0
}

/// The root is the first at which the stake added up so far is a supermajority.
pub open spec fn is_supermajority_root<F: Fn(u64) -> bool>(
    roots: Seq<(Slot, u64)>,
    is_supermajority: F,
    root: Option<Slot>,
) -> bool {
    match root {
        Some(root) => exists|i: int|
            {
                &&& 0 <= i < roots.len()
                &&& (#[trigger] roots[i]).0 == root
                &&& is_supermajority.ensures((total_stake(roots.take(i + 1)) as u64,), true)
                &&& no_supermajority(roots.take(i), is_supermajority)
            },
        None => no_supermajority(roots, is_supermajority),
    }
}

/// The stake added up is no supermajority at any of the roots.
pub open spec fn no_supermajority<F: Fn(u64) -> bool>(
    roots: Seq<(Slot, u64)>,
    is_supermajority: F,
) -> bool {
    forall|i: int|
        0 < i <= roots.len() ==> is_supermajority.ensures(
            (#[trigger] total_stake(roots.take(i)) as u64,),
            false,
        )
}

proof fn lemma_total_stake_monotonic(roots: Seq<(Slot, u64)>, i: int)
    requires
        0 <= i <= roots.len(),
    ensures
        total_stake(roots.take(i)) <= total_stake(roots),
    decreases roots.len() - i,
{
    if i < roots.len() {
        assert(roots.take(i + 1).drop_last() =~= roots.take(i));
        lemma_total_stake_monotonic(roots, i + 1);
    } else {
        assert(roots.take(i) =~= roots);
    }
}

/// The latest root that a supermajority of the stake has reached; `roots` is sorted largest to
/// smallest by root slot.
pub fn supermajority_root<F: Fn(u64) -> bool>(
    roots: &[(Slot, u64)],
    is_supermajority: F,
) -> (root: Option<Slot>)
    requires
        descending(roots@),
        total_stake(roots@) <= u64::MAX,
        forall|total: u64| is_supermajority.requires((total,)),
    ensures
        is_supermajority_root(roots@, is_supermajority, root),
{
    let mut total: u64 = 0;
    let mut i: usize = 0;
    while i < roots.len()
        invariant
            i <= roots@.len(),
            total_stake(roots@) <= u64::MAX,
            forall|total: u64| is_supermajority.requires((total,)),
            total == total_stake(roots@.take(i as int)),
            no_supermajority(roots@.take(i as int), is_supermajority),
        decreases roots@.len() - i,
    {
        proof {
            assert(roots@.take(i + 1).drop_last() =~= roots@.take(i as int));
            lemma_total_stake_monotonic(roots@, i + 1);
        }
        total = total + roots[i].1;
        if is_supermajority(total) {
            assert(roots@[i as int].0 == roots@[i as int].0);
            return Some(roots[i].0);
        }
        proof {
            assert forall|j: int| 0 < j <= i + 1 implies is_supermajority.ensures(
                (#[trigger] total_stake(roots@.take(i + 1).take(j)) as u64,),
                false,
            ) by {
                if j <= i {
                    assert(roots@.take(i + 1).take(j) =~= roots@.take(i as int).take(j));
                } else {
                    assert(roots@.take(i + 1).take(j) =~= roots@.take(i + 1));
                }
            }
        }
        i += 1;
    }
    assert(roots@.take(i as int) =~= roots@);
    None
}

/// The roots, with their stakes, of the accounts that vote for one.
pub open spec fn roots_stakes(accounts: Seq<VoteAccountInfo>) -> Seq<(Slot, u64)>
    decreases accounts.len(),
{
    if accounts.len() == 0 {
        Seq::empty()
    } else {
        let rest = roots_stakes(accounts.drop_last());
        match accounts.last().root_stake() {
            Some(root_stake) => rest.push(root_stake),
            None => rest,
        }
    }
}

/// Puts a root behind those that are not smaller.
fn insert_root(roots: &mut Vec<(Slot, u64)>, root: (Slot, u64))
    requires
        descending(old(roots)@),
    ensures
        descending(final(roots)@),
        final(roots)@.to_multiset() == old(roots)@.to_multiset().insert(root),
        total_stake(final(roots)@) == total_stake(old(roots)@) + root.1,
{
    let mut i: usize = 0;
    while i < roots.len() && roots[i].0 >= root.0
        invariant
            i <= roots@.len(),
            roots@ == old(roots)@,
            forall|j: int| 0 <= j < i ==> (#[trigger] roots@[j]).0 >= root.0,
        decreases roots@.len() - i,
    {
        i += 1;
    }
    let ghost before = roots@;
    roots.insert(i, root);
    proof {
        lemma_insert(before, i as int, root);
    }
}

proof fn lemma_insert(roots: Seq<(Slot, u64)>, i: int, root: (Slot, u64))
    requires
        0 <= i <= roots.len(),
    ensures
        roots.insert(i, root).to_multiset() == roots.to_multiset().insert(root),
        total_stake(roots.insert(i, root)) == total_stake(roots) + root.1,
    decreases roots.len(),
{
    broadcast use vstd::seq_lib::group_to_multiset_ensures;

    if i == roots.len() {
        assert(roots.insert(i, root) =~= roots.push(root));
        assert(roots.push(root).drop_last() =~= roots);
    } else {
        let shorter = roots.drop_last();
        lemma_insert(shorter, i, root);
        assert(roots.insert(i, root).drop_last() =~= shorter.insert(i, root));
        assert(roots.insert(i, root) =~= shorter.insert(i, root).push(roots.last()));
        assert(roots =~= shorter.push(roots.last()));
    }
}

/// The latest root that a supermajority of the stake has reached, by the votes of accounts.
pub fn supermajority_root_from_vote_accounts<F: Fn(u64) -> bool>(
    accounts: &[VoteAccountInfo],
    is_supermajority: F,
) -> (root: Option<Slot>)
    requires
        total_stake(roots_stakes(accounts@)) <= u64::MAX,
        forall|total: u64| is_supermajority.requires((total,)),
    ensures
        exists|roots: Seq<(Slot, u64)>|
            {
                &&& #[trigger] descending(roots)
                &&& roots.to_multiset() == roots_stakes(accounts@).to_multiset()
                &&& is_supermajority_root(roots, is_supermajority, root)
            },
{
    let mut roots: Vec<(Slot, u64)> = Vec::new();
    let mut i: usize = 0;
    assert(accounts@.take(0) =~= Seq::empty());
    while i < accounts.len()
        invariant
            i <= accounts@.len(),
            descending(roots@),
            roots@.to_multiset() == roots_stakes(accounts@.take(i as int)).to_multiset(),
            total_stake(roots@) == total_stake(roots_stakes(accounts@.take(i as int))),
        decreases accounts@.len() - i,
    {
        broadcast use vstd::seq_lib::group_to_multiset_ensures;

        assert(accounts@.take(i + 1).drop_last() =~= accounts@.take(i as int));
        let account = accounts[i];
        if account.stake != 0 {
            match account.vote_state {
                Some(vote_state) => {
                    match vote_state.root_slot {
                        Some(root_slot) => {
                            let ghost rest = roots_stakes(accounts@.take(i as int));
                            assert(rest.push((root_slot, account.stake)).drop_last() =~= rest);
                            insert_root(&mut roots, (root_slot, account.stake));
                        },
                        None => {},
                    }
                },
                None => {},
            }
        }
        i += 1;
    }
    assert(accounts@.take(i as int) =~= accounts@);
    supermajority_root(roots.as_slice(), is_supermajority)
}

/// The stake that has reached a root: that of all roots that are not smaller.
pub open spec fn stake_at(roots: Seq<(Slot, u64)>, root: Slot) -> nat
    decreases roots.len(),
{
    if roots.len() == 0 {
        0
    } else {
        stake_at(roots.drop_last(), root) + if roots.last().0 >= root {
            roots.last().1 as nat
        } else {
            0
        }
    }
}

/// Among roots from the largest to the smallest, those that are not smaller than one come
/// first.
proof fn lemma_stake_at_prefix(roots: Seq<(Slot, u64)>, root: Slot, reached: int)
    requires
        0 <= reached <= roots.len(),
        forall|i: int| 0 <= i < reached ==> (#[trigger] roots[i]).0 >= root,
        forall|i: int| reached <= i < roots.len() ==> (#[trigger] roots[i]).0 < root,
    ensures
        stake_at(roots, root) == total_stake(roots.take(reached)),
    decreases roots.len(),
{
    if roots.len() > 0 {
        let shorter = roots.drop_last();
        if reached == roots.len() {
            assert forall|i: int| 0 <= i < reached - 1 implies (#[trigger] shorter[i]).0 >= root by {
                assert(roots[i].0 >= root);
            }
            assert(roots[roots.len() - 1].0 >= root);
            lemma_stake_at_prefix(shorter, root, reached - 1);
            assert(shorter.take(reached - 1) =~= roots.take(reached).drop_last());
            assert(roots.take(reached) =~= roots);
        } else {
            assert forall|i: int| 0 <= i < reached implies (#[trigger] shorter[i]).0 >= root by {
                assert(roots[i].0 >= root);
            }
            assert forall|i: int| reached <= i < shorter.len() implies (#[trigger] shorter[i]).0
                < root by {
                assert(roots[i].0 < root);
            }
            assert(roots[roots.len() - 1].0 < root);
            lemma_stake_at_prefix(shorter, root, reached);
            assert(shorter.take(reached) =~= roots.take(reached));
        }
    }
}

/// The number of roots, from the largest to the smallest, that are not smaller than the one at
/// a position.
proof fn lemma_reached(roots: Seq<(Slot, u64)>, at: int) -> (reached: int)
    requires
        descending(roots),
        0 <= at < roots.len(),
    ensures
        at < reached <= roots.len(),
        forall|i: int| 0 <= i < reached ==> (#[trigger] roots[i]).0 >= roots[at].0,
        forall|i: int| reached <= i < roots.len() ==> (#[trigger] roots[i]).0 < roots[at].0,
    decreases roots.len() - at,
{
    if at + 1 < roots.len() && roots[at + 1].0 == roots[at].0 {
        lemma_reached(roots, at + 1)
    } else {
        assert forall|i: int| at + 1 <= i < roots.len() implies (#[trigger] roots[i]).0
            < roots[at].0 by {
            assert(roots[at].0 >= roots[at + 1].0);
            if i > at + 1 {
                assert(roots[at + 1].0 >= roots[i].0);
            }
        }
        at + 1
    }
}

/// Whether a root is the latest one that a majority of the stake has reached.
pub open spec fn is_latest_root(
    roots: Seq<(Slot, u64)>,
    majority: spec_fn(nat) -> bool,
    root: Option<Slot>,
) -> bool {
    match root {
        Some(root) => {
            &&& majority(stake_at(roots, root))
            &&& exists|i: int| 0 <= i < roots.len() && (#[trigger] roots[i]).0 == root
            &&& forall|i: int|
                0 <= i < roots.len() && (#[trigger] roots[i]).0 > root ==> !majority(
                    stake_at(roots, roots[i].0),
                )
        },
        None => forall|i: int|
            0 <= i < roots.len() ==> !majority(stake_at(roots, (#[trigger] roots[i]).0)),
    }
}

/// Where more stake makes no less of a majority, the supermajority root is the latest one that
/// a supermajority of the stake has reached.
pub proof fn law_supermajority_root_is_latest<F: Fn(u64) -> bool>(
    roots: Seq<(Slot, u64)>,
    is_supermajority: F,
    majority: spec_fn(nat) -> bool,
    root: Option<Slot>,
)
    requires
        descending(roots),
        total_stake(roots) <= u64::MAX,
        forall|total: u64, is: bool|
            is_supermajority.ensures((total,), is) ==> is == majority(total as nat),
        forall|less: nat, more: nat| less <= more && #[trigger] majority(less) ==> #[trigger]
            majority(more),
        is_supermajority_root(roots, is_supermajority, root),
    ensures
        is_latest_root(roots, majority, root),
{
    let end = match root {
        Some(root) => {
            let at = choose|i: int|
                {
                    &&& 0 <= i < roots.len()
                    &&& (#[trigger] roots[i]).0 == root
                    &&& is_supermajority.ensures((total_stake(roots.take(i + 1)) as u64,), true)
                    &&& no_supermajority(roots.take(i), is_supermajority)
                };
            let reached = lemma_reached(roots, at);
            lemma_stake_at_prefix(roots, root, reached);
            lemma_total_stake_monotonic(roots, at + 1);
            lemma_total_stake_monotonic(roots.take(reached), at + 1);
            assert(roots.take(reached).take(at + 1) =~= roots.take(at + 1));
            assert(majority(total_stake(roots.take(at + 1))));
            at
        },
        None => {
            assert(roots.take(roots.len() as int) =~= roots);
            roots.len() as int
        },
    };
    assert forall|i: int| 0 <= i < end && (root matches Some(root) ==> roots[i].0 > root)
        implies !majority(stake_at(roots, (#[trigger] roots[i]).0)) by {
        let reached = lemma_reached(roots, i);
        if reached > end {
            assert(roots[end].0 >= roots[i].0);
        }
        lemma_stake_at_prefix(roots, roots[i].0, reached);
        lemma_total_stake_monotonic(roots, reached);
        assert(roots.take(end).take(reached) =~= roots.take(reached));
        assert(is_supermajority.ensures((total_stake(roots.take(end).take(reached)) as u64,), false));
    }
    assert forall|i: int|
        0 <= i < roots.len() && (root matches Some(root) ==> (#[trigger] roots[i]).0 > root)
        implies i < end by {
        if i >= end && root is Some {
            assert(roots[end].0 >= roots[i].0);
        }
    }
}

proof fn lemma_stake_at_insert(roots: Seq<(Slot, u64)>, i: int, one: (Slot, u64), root: Slot)
    requires
        0 <= i <= roots.len(),
    ensures
        stake_at(roots.insert(i, one), root) == stake_at(roots, root) + if one.0 >= root {
            one.1 as nat
        } else {
            0
        },
    decreases roots.len(),
{
    if i == roots.len() {
        assert(roots.insert(i, one).drop_last() =~= roots);
    } else {
        lemma_stake_at_insert(roots.drop_last(), i, one, root);
        assert(roots.insert(i, one).drop_last() =~= roots.drop_last().insert(i, one));
        assert(roots.insert(i, one).last() == roots.last());
    }
}

/// The stake that has reached a root does not depend on the order in which votes are listed.
pub proof fn law_stake_is_independent_of_order(
    roots: Seq<(Slot, u64)>,
    others: Seq<(Slot, u64)>,
    root: Slot,
)
    requires
        roots.to_multiset() == others.to_multiset(),
    ensures
        stake_at(roots, root) == stake_at(others, root),
    decreases roots.len(),
{
    broadcast use vstd::seq_lib::group_to_multiset_ensures;

    assert(roots.len() == roots.to_multiset().len());
    assert(others.len() == others.to_multiset().len());
    if roots.len() > 0 {
        let one = roots.last();
        let shorter = roots.drop_last();
        assert(roots =~= shorter.push(one));
        assert(roots.to_multiset().count(one) > 0) by {
            assert(roots.contains(one));
        }
        assert(others.contains(one));
        let k = choose|k: int| 0 <= k < others.len() && others[k] == one;
        let rest = others.remove(k);
        assert(rest.insert(k, one) =~= others);
        lemma_insert(rest, k, one);
        assert(shorter.to_multiset() =~= rest.to_multiset()) by {
            assert(shorter.to_multiset().insert(one) == rest.to_multiset().insert(one));
            assert forall|other: (Slot, u64)| shorter.to_multiset().count(other)
                == rest.to_multiset().count(other) by {
                assert(shorter.to_multiset().insert(one).count(other)
                    == rest.to_multiset().insert(one).count(other));
            }
        }
        law_stake_is_independent_of_order(shorter, rest, root);
        lemma_stake_at_insert(rest, k, one, root);
    }
}

/// The stake of the accounts whose root is not smaller than one.
pub open spec fn accounts_stake_at(accounts: Seq<VoteAccountInfo>, root: Slot) -> nat
    decreases accounts.len(),
{
    if accounts.len() == 0 {
        0
    } else {
        let account = accounts.last();
        accounts_stake_at(accounts.drop_last(), root) + if account.vote_state is Some
            && account.vote_state->Some_0.root_slot is Some
            && account.vote_state->Some_0.root_slot->Some_0 >= root {
            account.stake as nat
        } else {
            0
        }
    }
}

/// An account with stake votes for its root, where it has one, with all of its stake; no other
/// account votes. So the stake that has reached a root is that of the accounts that have.
pub proof fn law_accounts_vote_with_their_stake(accounts: Seq<VoteAccountInfo>, root: Slot)
    ensures
        stake_at(roots_stakes(accounts), root) == accounts_stake_at(accounts, root),
        forall|voted: Slot, stake: u64| #[trigger]
            roots_stakes(accounts).contains((voted, stake)) <==> exists|i: int|
                0 <= i < accounts.len() && (#[trigger] accounts[i]).stake == stake && stake > 0
                    && accounts[i].vote_state == Some(VoteStateInfo { root_slot: Some(voted) }),
    decreases accounts.len(),
{
    if accounts.len() > 0 {
        let shorter = accounts.drop_last();
        let last = accounts.last();
        let rest = roots_stakes(shorter);
        let all = roots_stakes(accounts);
        law_accounts_vote_with_their_stake(shorter, root);
        if all.len() > rest.len() {
            assert(all.drop_last() =~= rest);
        }
        assert forall|voted: Slot, stake: u64| #[trigger]
            all.contains((voted, stake)) <==> exists|i: int|
                0 <= i < accounts.len() && (#[trigger] accounts[i]).stake == stake && stake > 0
                    && accounts[i].vote_state == Some(VoteStateInfo { root_slot: Some(voted) }) by {
            if all.contains((voted, stake)) {
                let k = choose|k: int| 0 <= k < all.len() && all[k] == (voted, stake);
                if k < rest.len() {
                    assert(rest[k] == (voted, stake));
                    assert(rest.contains((voted, stake)));
                    let i = choose|i: int|
                        0 <= i < shorter.len() && (#[trigger] shorter[i]).stake == stake && stake
                            > 0 && shorter[i].vote_state == Some(
                            VoteStateInfo { root_slot: Some(voted) },
                        );
                    assert(accounts[i] == shorter[i]);
                } else {
                    assert(accounts[accounts.len() - 1] == last);
                }
            }
            if exists|i: int|
                0 <= i < accounts.len() && (#[trigger] accounts[i]).stake == stake && stake > 0
                    && accounts[i].vote_state == Some(VoteStateInfo { root_slot: Some(voted) }) {
                let i = choose|i: int|
                    0 <= i < accounts.len() && (#[trigger] accounts[i]).stake == stake && stake > 0
                        && accounts[i].vote_state == Some(VoteStateInfo { root_slot: Some(voted) });
                if i < shorter.len() {
                    assert(shorter[i] == accounts[i]);
                    assert(rest.contains((voted, stake)));
                    let k = choose|k: int| 0 <= k < rest.len() && rest[k] == (voted, stake);
                    assert(all[k] == (voted, stake));
                } else {
                    assert(all[all.len() - 1] == (voted, stake));
                }
            }
        }
    }
}

/// By the votes of accounts, too, the supermajority root is the latest root of an account that a
/// supermajority of the stake has reached, in whatever order the votes are listed; and there is
/// none exactly where no root of an account has a supermajority.
pub proof fn law_accounts_supermajority_root_is_latest<F: Fn(u64) -> bool>(
    accounts: Seq<VoteAccountInfo>,
    roots: Seq<(Slot, u64)>,
    is_supermajority: F,
    majority: spec_fn(nat) -> bool,
    root: Option<Slot>,
)
    requires
        descending(roots),
        roots.to_multiset() == roots_stakes(accounts).to_multiset(),
        total_stake(roots) <= u64::MAX,
        forall|total: u64, is: bool|
            is_supermajority.ensures((total,), is) ==> is == majority(total as nat),
        forall|less: nat, more: nat| less <= more && #[trigger] majority(less) ==> #[trigger]
            majority(more),
        is_supermajority_root(roots, is_supermajority, root),
    ensures
        root matches Some(found) ==> {
            &&& majority(accounts_stake_at(accounts, found))
            &&& exists|i: int|
                0 <= i < accounts.len() && (#[trigger] accounts[i]).stake > 0
                    && accounts[i].vote_state == Some(VoteStateInfo { root_slot: Some(found) })
        },
        forall|i: int, voted: Slot|
            0 <= i < accounts.len() && (#[trigger] accounts[i]).stake > 0
                && accounts[i].vote_state == Some(VoteStateInfo { root_slot: Some(voted) }) && (
            root is None || voted > root->Some_0) ==> !majority(
                #[trigger] accounts_stake_at(accounts, voted),
            ),
{
    broadcast use vstd::seq_lib::group_to_multiset_ensures;

    let all = roots_stakes(accounts);
    law_supermajority_root_is_latest(roots, is_supermajority, majority, root);
    if let Some(found) = root {
        law_stake_is_independent_of_order(roots, all, found);
        law_accounts_vote_with_their_stake(accounts, found);
        let k = choose|k: int| 0 <= k < roots.len() && (#[trigger] roots[k]).0 == found;
        assert(roots.contains(roots[k]));
        assert(all.to_multiset().count(roots[k]) > 0);
        assert(all.contains((found, roots[k].1)));
    }
    assert forall|i: int, voted: Slot|
        0 <= i < accounts.len() && (#[trigger] accounts[i]).stake > 0 && accounts[i].vote_state
            == Some(VoteStateInfo { root_slot: Some(voted) }) && (root is None || voted
            > root->Some_0) implies !majority(#[trigger] accounts_stake_at(accounts, voted)) by {
        law_stake_is_independent_of_order(roots, all, voted);
        law_accounts_vote_with_their_stake(accounts, voted);
        assert(all.contains((voted, accounts[i].stake)));
        assert(roots.to_multiset().count((voted, accounts[i].stake)) > 0);
        assert(roots.contains((voted, accounts[i].stake)));
        let k = choose|k: int| 0 <= k < roots.len() && roots[k] == (voted, accounts[i].stake);
        assert(roots[k].0 == voted);
    }
}

} // verus!
