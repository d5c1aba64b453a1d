//! Looks for a node to get the genesis and a snapshot from.

use vstd::prelude::*;

use crate::base58::base58_text;
use crate::clock::Slot;
use crate::pubkey::Pubkey;
use crate::pubkey_set::PubkeySet;
use crate::random::random_below;
use crate::text::decimal;
use crate::text::decimal_text;

verus! {

/// Seconds without any node that is not blacklisted after which the blacklist is emptied.
pub const BLACKLIST_TIMEOUT_SECS: u64 = 60;

/// Seconds without a newer snapshot than the local one after which the search ends.
pub const NEWER_SNAPSHOT_TIMEOUT_SECS: u64 = 180;

/// A snapshot: its slot and its hash.
#[derive(Clone, Copy, Debug)]
pub struct SnapshotHash {
    pub slot: Slot,
    pub hash: crate::hash::Hash,
}

impl SnapshotHash {
    fn same(&self, other: &SnapshotHash) -> (same: bool)
        ensures
            same == (*self == *other),
    {
        self.slot == other.slot && self.hash == other.hash
    }
}

/// A node that offers an RPC service.
#[derive(Debug)]
pub struct RpcPeer {
    pub id: Pubkey,
    pub shred_version: u16,
    /// the snapshots that the node says it has
    pub snapshot_hashes: Vec<SnapshotHash>,
}

/// Whether a validator is among the trusted ones.
pub fn is_trusted_validator(id: &Pubkey, trusted_validators: &Option<PubkeySet>) -> (trusted: bool)
    ensures
        trusted == is_trusted(id@, *trusted_validators),
{
    match trusted_validators {
        Some(trusted_validators) => trusted_validators.contains(id),
        None => false,
    }
}

pub open spec fn is_trusted(id: Seq<u8>, trusted_validators: Option<PubkeySet>) -> bool {
    trusted_validators matches Some(validators) && validators@.contains(id)
}

/// The snapshots that trusted validators have, if there are trusted validators at all. The
/// argument holds the snapshots of each of them.
pub fn get_trusted_snapshot_hashes(hashes_by_validator: &Option<Vec<Vec<SnapshotHash>>>) -> (hashes:
    Option<Vec<SnapshotHash>>)
    ensures
        match (*hashes_by_validator, hashes) {
            (None, None) => true,
            (Some(by_validator), Some(hashes)) => forall|hash: SnapshotHash| #[trigger]
                hashes@.contains(hash) <==> exists|i: int|
                    0 <= i < by_validator@.len() && (#[trigger] by_validator@[i])@.contains(hash),
            _ => false,
        },
{
    match hashes_by_validator {
        None => None,
        Some(by_validator) => {
            let mut hashes: Vec<SnapshotHash> = Vec::new();
            let mut i: usize = 0;
            while i < by_validator.len()
                invariant
                    i <= by_validator@.len(),
                    forall|hash: SnapshotHash| #[trigger]
                        hashes@.contains(hash) <==> exists|k: int|
                            0 <= k < i && (#[trigger] by_validator@[k])@.contains(hash),
                decreases by_validator@.len() - i,
            {
                let ghost before = hashes@;
                let mut j: usize = 0;
                while j < by_validator[i].len()
                    invariant
                        i < by_validator@.len(),
                        j <= by_validator@[i as int]@.len(),
                        hashes@ == before + by_validator@[i as int]@.take(j as int),
                    decreases by_validator@[i as int]@.len() - j,
                {
                    hashes.push(by_validator[i][j]);
                    j += 1;
                    assert(hashes@ =~= before + by_validator@[i as int]@.take(j as int));
                }
                proof {
                    let list = by_validator@[i as int]@;
                    assert(list.take(j as int) =~= list);
                    assert forall|hash: SnapshotHash| #[trigger]
                        hashes@.contains(hash) <==> exists|k: int|
                            0 <= k < i + 1 && (#[trigger] by_validator@[k])@.contains(hash) by {
                        if before.contains(hash) {
                            let k = choose|k: int|
                                0 <= k < i && (#[trigger] by_validator@[k])@.contains(hash);
                            assert(by_validator@[k]@.contains(hash));
                            let m = choose|m: int| 0 <= m < before.len() && before[m] == hash;
                            assert(hashes@[m] == hash);
                        } else if list.contains(hash) {
                            let m = choose|m: int| 0 <= m < list.len() && list[m] == hash;
                            assert(hashes@[before.len() + m] == hash);
                            assert(by_validator@[i as int]@.contains(hash));
                        } else if hashes@.contains(hash) {
                            let m = choose|m: int| 0 <= m < hashes@.len() && hashes@[m] == hash;
                            if m < before.len() {
                                assert(before[m] == hash);
                            } else {
                                assert(list[m - before.len()] == hash);
                            }
                        } else {
                            assert forall|k: int| 0 <= k < i + 1 implies !(
                            #[trigger] by_validator@[k])@.contains(hash) by {
                                if k < i && by_validator@[k]@.contains(hash) {
                                    assert(before.contains(hash));
                                }
                            }
                        }
                    }
                }
                i += 1;
            }
            Some(hashes)
        },
    }
}

/// The positions of the nodes that satisfy a condition, of the first `end`.
pub open spec fn positions(
    peers: Seq<RpcPeer>,
    end: nat,
    condition: spec_fn(RpcPeer) -> bool,
) -> Seq<usize>
    decreases end,
{
    if end == 0 {
        Seq::empty()
    } else {
        let rest = positions(peers, (end - 1) as nat, condition);
        if condition(peers[end - 1]) {
            rest.push((end - 1) as usize)
        } else {
            rest
        }
    }
}

/// The node runs the given shred version and is not blacklisted.
pub open spec fn is_usable(shred_version: u16, blacklist: Set<Seq<u8>>) -> spec_fn(RpcPeer) -> bool {
    |peer: RpcPeer| peer.shred_version == shred_version && !blacklist.contains(peer.id@)
}

/// The snapshots in a list, if there is one.
pub open spec fn list_view(hashes: Option<Vec<SnapshotHash>>) -> Option<Seq<SnapshotHash>> {
    match hashes {
        Some(hashes) => Some(hashes@),
        None => None,
    }
}

/// What can be had from where: the snapshots that count, with the positions of the nodes that
/// have them.
pub open spec fn offers_of(
    position: usize,
    hashes: Seq<SnapshotHash>,
    trusted_hashes: Option<Seq<SnapshotHash>>,
) -> Seq<(usize, SnapshotHash)>
    decreases hashes.len(),
{
    if hashes.len() == 0 {
        Seq::empty()
    } else {
        let rest = offers_of(position, hashes.drop_last(), trusted_hashes);
        if trusted_hashes matches Some(trusted) && !trusted.contains(hashes.last()) {
            // Ignore all untrusted snapshot hashes
            rest
        } else {
            rest.push((position, hashes.last()))
        }
    }
}

/// The offers of the nodes at the given positions.
pub open spec fn offers(
    peers: Seq<RpcPeer>,
    usable: Seq<usize>,
    no_untrusted_rpc: bool,
    trusted_validators: Option<PubkeySet>,
    trusted_hashes: Option<Seq<SnapshotHash>>,
) -> Seq<(usize, SnapshotHash)>
    decreases usable.len(),
{
    if usable.len() == 0 {
        Seq::empty()
    } else {
        let rest = offers(
            peers,
            usable.drop_last(),
            no_untrusted_rpc,
            trusted_validators,
            trusted_hashes,
        );
        let peer = peers[usable.last() as int];
        if no_untrusted_rpc && !is_trusted(peer.id@, trusted_validators) {
            rest
        } else {
            rest + offers_of(usable.last(), peer.snapshot_hashes@, trusted_hashes)
        }
    }
}

/// The snapshot with the highest slot: the local one, unless a higher one is offered; of
/// offers with the same slot the first one.
pub open spec fn highest(
    local: Option<SnapshotHash>,
    offers: Seq<(usize, SnapshotHash)>,
) -> Option<SnapshotHash>
    decreases offers.len(),
{
    if offers.len() == 0 {
        local
    } else {
        let known = highest(local, offers.drop_last());
        let offered = offers.last().1;
        match known {
            Some(known) => if offered.slot > known.slot {
                Some(offered)
            } else {
                Some(known)
            },
            None => Some(offered),
        }
    }
}

/// The nodes that offer a snapshot.
pub open spec fn offering(offers: Seq<(usize, SnapshotHash)>, snapshot: SnapshotHash) -> Seq<usize>
    decreases offers.len(),
{
    if offers.len() == 0 {
        Seq::empty()
    } else {
        let rest = offering(offers.drop_last(), snapshot);
        if offers.last().1 == snapshot {
            rest.push(offers.last().0)
        } else {
            rest
        }
    }
}

/// Why the search goes on.
#[derive(Clone, Copy, Debug)]
pub enum RetryReason {
    WaitForShredVersion,
    BlacklistTimeoutExpired,
    WaitForTrustedPeers,
    WaitForNewerSnapshot(SnapshotHash),
    NoSnapshots,
}

impl RetryReason {
    /// The reason in words. A missing shred version is not told as one.
    pub open spec fn spec_message(self) -> Option<Seq<char>> {
        match self {
            RetryReason::WaitForShredVersion => None,
            RetryReason::BlacklistTimeoutExpired => Some("Blacklist timeout expired"@),
            RetryReason::WaitForTrustedPeers => Some("Wait for trusted rpc peers"@),
            RetryReason::WaitForNewerSnapshot(snapshot) => Some(
                "Wait for newer snapshot than local: ("@ + decimal(snapshot.slot as nat) + ", "@
                    + base58_text(snapshot.hash@) + ")"@,
            ),
            RetryReason::NoSnapshots => Some("No snapshots available"@),
        }
    }

    pub fn message(&self) -> (message: Option<String>)
        ensures
            match (message, self.spec_message()) {
                (Some(message), Some(words)) => message@ == words,
                (None, None) => true,
                _ => false,
            },
    {
        match self {
            RetryReason::WaitForShredVersion => None,
            RetryReason::BlacklistTimeoutExpired => Some("Blacklist timeout expired".to_owned()),
            RetryReason::WaitForTrustedPeers => Some("Wait for trusted rpc peers".to_owned()),
            RetryReason::WaitForNewerSnapshot(snapshot) => {
                let mut message = "Wait for newer snapshot than local: (".to_owned();
                message.append(decimal_text(snapshot.slot).as_str());
                message.append(", ");
                message.append(snapshot.hash.to_base58().as_str());
                message.append(")");
                Some(message)
            },
            RetryReason::NoSnapshots => Some("No snapshots available".to_owned()),
        }
    }
}

/// What a look at the cluster came to.
#[derive(Debug)]
pub enum SearchOutcome {
    /// look again after a while
    Retry(RetryReason),
    /// the entrypoint's shred version is zero: the expected one has to be given
    EntrypointWithoutShredVersion,
    /// no newer snapshot than the local one came up
    GiveUp,
    /// any of the nodes at these positions will do for the snapshot
    Eligible { peers: Vec<usize>, snapshot: Option<SnapshotHash> },
}

/// The meaning of a `SearchOutcome`.
pub enum OutcomeView {
    Retry(RetryReason),
    EntrypointWithoutShredVersion,
    GiveUp,
    Eligible { peers: Seq<usize>, snapshot: Option<SnapshotHash> },
}

impl View for SearchOutcome {
    type V = OutcomeView;

    open spec fn view(&self) -> OutcomeView {
        match *self {
            SearchOutcome::Retry(reason) => OutcomeView::Retry(reason),
            SearchOutcome::EntrypointWithoutShredVersion =>
                OutcomeView::EntrypointWithoutShredVersion,
            SearchOutcome::GiveUp => OutcomeView::GiveUp,
            SearchOutcome::Eligible { peers, snapshot } => OutcomeView::Eligible {
                peers: peers@,
                snapshot,
            },
        }
    }
}

/// What the search asks for.
pub struct SearchConfig {
    pub snapshot_not_required: bool,
    pub no_untrusted_rpc: bool,
    pub trusted_validators: Option<PubkeySet>,
}

/// What the cluster looks like at a time, in milliseconds.
pub struct ClusterSight {
    pub now_ms: u64,
    /// the expected shred version, or else one's own
    pub shred_version: u16,
    /// the entrypoint's shred version, where its contact info is known
    pub entrypoint_shred_version: Option<u16>,
    pub rpc_peers: Vec<RpcPeer>,
    /// the snapshots of the trusted validators
    pub trusted_snapshot_hashes: Option<Vec<SnapshotHash>>,
    /// the highest snapshot in the local ledger
    pub local_snapshot: Option<SnapshotHash>,
}

/// A search for a node, and since when it waits for what.
#[derive(Clone, Copy, Debug, PartialEq, Eq, Structural)]
pub struct RpcNodeSearch {
    /// when there was last a node that is not blacklisted, or the search began
    pub blacklist_since_ms: u64,
    /// when there was first no newer snapshot than the local one
    pub newer_snapshot_since_ms: Option<u64>,
}

impl ClusterSight {
    /// The nodes that run the shred version and are not blacklisted.
    pub open spec fn usable(self, blacklist: Set<Seq<u8>>) -> Seq<usize> {
        positions(
            self.rpc_peers@,
            self.rpc_peers@.len(),
            is_usable(self.shred_version, blacklist),
        )
    }

    /// The offers of the usable nodes.
    pub open spec fn offers(self, config: SearchConfig, blacklist: Set<Seq<u8>>) -> Seq<
        (usize, SnapshotHash),
    > {
        offers(
            self.rpc_peers@,
            self.usable(blacklist),
            config.no_untrusted_rpc,
            config.trusted_validators,
            list_view(self.trusted_snapshot_hashes),
        )
    }
}

/// Whole seconds from one time to another, both in milliseconds.
pub open spec fn elapsed_secs(since_ms: u64, now_ms: u64) -> int {
    (now_ms - since_ms) / 1000
}

impl RpcNodeSearch {
    /// The search after a look at the cluster, the blacklist after it, and what it came to.
    pub open spec fn look(
        self,
        config: SearchConfig,
        sight: ClusterSight,
        blacklist: Set<Seq<u8>>,
    ) -> (RpcNodeSearch, Set<Seq<u8>>, OutcomeView) {
        if sight.shred_version == 0 {
            if sight.entrypoint_shred_version == Some(0u16) {
                (self, blacklist, OutcomeView::EntrypointWithoutShredVersion)
            } else {
                (self, blacklist, OutcomeView::Retry(RetryReason::WaitForShredVersion))
            }
        } else if sight.usable(blacklist).len() == 0 {
            if elapsed_secs(self.blacklist_since_ms, sight.now_ms) > BLACKLIST_TIMEOUT_SECS {
                (self, Set::empty(), OutcomeView::Retry(RetryReason::BlacklistTimeoutExpired))
            } else {
                (self, blacklist, OutcomeView::Retry(RetryReason::WaitForTrustedPeers))
            }
        } else {
            let search = RpcNodeSearch { blacklist_since_ms: sight.now_ms, ..self };
            if config.snapshot_not_required {
                (
                    search,
                    blacklist,
                    OutcomeView::Eligible {
                        peers: sight.usable(blacklist),
                        snapshot: sight.local_snapshot,
                    },
                )
            } else {
                let offered = sight.offers(config, blacklist);
                match highest(sight.local_snapshot, offered) {
                    None => (search, blacklist, OutcomeView::Retry(RetryReason::NoSnapshots)),
                    Some(snapshot) => {
                        let peers = offering(offered, snapshot);
                        if peers.len() > 0 {
                            (
                                search,
                                blacklist,
                                OutcomeView::Eligible { peers, snapshot: Some(snapshot) },
                            )
                        } else {
                            let wait = OutcomeView::Retry(
                                RetryReason::WaitForNewerSnapshot(snapshot),
                            );
                            match self.newer_snapshot_since_ms {
                                None => (
                                    RpcNodeSearch {
                                        newer_snapshot_since_ms: Some(sight.now_ms),
                                        ..search
                                    },
                                    blacklist,
                                    wait,
                                ),
                                Some(since) => if elapsed_secs(since, sight.now_ms)
                                    > NEWER_SNAPSHOT_TIMEOUT_SECS {
                                    (search, blacklist, OutcomeView::GiveUp)
                                } else {
                                    (search, blacklist, wait)
                                },
                            }
                        }
                    },
                }
            }
        }
    }
}

fn contains_hash(hashes: &Vec<SnapshotHash>, hash: &SnapshotHash) -> (contained: bool)
    ensures
        contained == hashes@.contains(*hash),
{
    let mut i: usize = 0;
    while i < hashes.len()
        invariant
            i <= hashes@.len(),
            forall|j: int| 0 <= j < i ==> hashes@[j] != *hash,
        decreases hashes@.len() - i,
    {
        if hashes[i].same(hash) {
            return true;
        }
        i += 1;
    }
    false
}

fn usable_peers(peers: &Vec<RpcPeer>, shred_version: u16, blacklist: &PubkeySet) -> (usable: Vec<
    usize,
>)
    ensures
        usable@ == positions(peers@, peers@.len(), is_usable(shred_version, blacklist@)),
        forall|i: int| 0 <= i < usable@.len() ==> (#[trigger] usable@[i]) < peers@.len(),
{
    let mut usable: Vec<usize> = Vec::new();
    let mut i: usize = 0;
    while i < peers.len()
        invariant
            i <= peers@.len(),
            usable@ == positions(peers@, i as nat, is_usable(shred_version, blacklist@)),
            forall|j: int| 0 <= j < usable@.len() ==> (#[trigger] usable@[j]) < i,
        decreases peers@.len() - i,
    {
        if peers[i].shred_version == shred_version && !blacklist.contains(&peers[i].id) {
            usable.push(i);
        }
        i += 1;
    }
    usable
}

fn collect_offers(
    peers: &Vec<RpcPeer>,
    usable: &Vec<usize>,
    config: &SearchConfig,
    trusted_hashes: &Option<Vec<SnapshotHash>>,
) -> (all: Vec<(usize, SnapshotHash)>)
    requires
        forall|i: int| 0 <= i < usable@.len() ==> (#[trigger] usable@[i]) < peers@.len(),
    ensures
        all@ == offers(
            peers@,
            usable@,
            config.no_untrusted_rpc,
            config.trusted_validators,
            list_view(*trusted_hashes),
        ),
{
    let ghost trusted = list_view(*trusted_hashes);
    let mut all: Vec<(usize, SnapshotHash)> = Vec::new();
    let mut i: usize = 0;
    assert(usable@.take(0) =~= Seq::empty());
    while i < usable.len()
        invariant
            i <= usable@.len(),
            forall|i: int| 0 <= i < usable@.len() ==> (#[trigger] usable@[i]) < peers@.len(),
            trusted == list_view(*trusted_hashes),
            all@ == offers(
                peers@,
                usable@.take(i as int),
                config.no_untrusted_rpc,
                config.trusted_validators,
                trusted,
            ),
        decreases usable@.len() - i,
    {
        assert(usable@.take(i + 1).drop_last() =~= usable@.take(i as int));
        let position = usable[i];
        let peer = &peers[position];
        if !(config.no_untrusted_rpc && !is_trusted_validator(
            &peer.id,
            &config.trusted_validators,
        )) {
            let ghost before = all@;
            let ghost hashes = peer.snapshot_hashes@;
            let mut j: usize = 0;
            assert(hashes.take(0) =~= Seq::empty());
            assert(before + offers_of(position, hashes.take(0), trusted) =~= before);
            while j < peer.snapshot_hashes.len()
                invariant
                    j <= hashes.len(),
                    hashes == peer.snapshot_hashes@,
                    trusted == list_view(*trusted_hashes),
                    all@ == before + offers_of(position, hashes.take(j as int), trusted),
                decreases hashes.len() - j,
            {
                let ghost current = all@;
                assert(hashes.take(j + 1).drop_last() =~= hashes.take(j as int));
                let counts = match trusted_hashes {
                    Some(trusted_hashes) => contains_hash(trusted_hashes, &peer.snapshot_hashes[j]),
                    None => true,
                };
                if counts {
                    all.push((position, peer.snapshot_hashes[j]));
                }
                j += 1;
                assert(all@ =~= before + offers_of(position, hashes.take(j as int), trusted));
            }
            assert(hashes.take(j as int) =~= hashes);
        }
        i += 1;
    }
    assert(usable@.take(i as int) =~= usable@);
    all
}

fn highest_snapshot(local: Option<SnapshotHash>, all: &Vec<(usize, SnapshotHash)>) -> (snapshot:
    Option<SnapshotHash>)
    ensures
        snapshot == highest(local, all@),
{
    let mut snapshot: Option<SnapshotHash> = local;
    let mut i: usize = 0;
    assert(all@.take(0) =~= Seq::empty());
    while i < all.len()
        invariant
            i <= all@.len(),
            snapshot == highest(local, all@.take(i as int)),
        decreases all@.len() - i,
    {
        assert(all@.take(i + 1).drop_last() =~= all@.take(i as int));
        match snapshot {
            Some(known) => {
                if all[i].1.slot > known.slot {
                    snapshot = Some(all[i].1);
                }
            },
            None => {
                snapshot = Some(all[i].1);
            },
        }
        i += 1;
    }
    assert(all@.take(i as int) =~= all@);
    snapshot
}

fn offering_peers(all: &Vec<(usize, SnapshotHash)>, snapshot: &SnapshotHash) -> (peers: Vec<usize>)
    ensures
        peers@ == offering(all@, *snapshot),
{
    let mut peers: Vec<usize> = Vec::new();
    let mut i: usize = 0;
    assert(all@.take(0) =~= Seq::empty());
    while i < all.len()
        invariant
            i <= all@.len(),
            peers@ == offering(all@.take(i as int), *snapshot),
        decreases all@.len() - i,
    {
        assert(all@.take(i + 1).drop_last() =~= all@.take(i as int));
        if all[i].1.same(snapshot) {
            peers.push(all[i].0);
        }
        i += 1;
    }
    assert(all@.take(i as int) =~= all@);
    peers
}

impl RpcNodeSearch {
    pub open spec fn wf(self, now_ms: u64) -> bool {
        &&& self.blacklist_since_ms <= now_ms
        &&& self.newer_snapshot_since_ms matches Some(since) ==> since <= now_ms
    }

    pub fn new(now_ms: u64) -> (search: Self)
        ensures
            search.wf(now_ms),
            search == (RpcNodeSearch {
                blacklist_since_ms: now_ms,
                newer_snapshot_since_ms: None,
            }),
    {
        RpcNodeSearch { blacklist_since_ms: now_ms, newer_snapshot_since_ms: None }
    }

    /// Looks at the cluster once: finds the nodes that can be used, or tells why to go on, to
    /// give up or to end.
    pub fn get_rpc_node(
        &mut self,
        config: &SearchConfig,
        sight: &ClusterSight,
        blacklisted_rpc_nodes: &mut PubkeySet,
    ) -> (outcome: SearchOutcome)
        requires
            old(self).wf(sight.now_ms),
        ensures
            (*final(self), final(blacklisted_rpc_nodes)@, outcome@) == old(self).look(
                *config,
                *sight,
                old(blacklisted_rpc_nodes)@,
            ),
            final(self).wf(sight.now_ms),
    {
        if sight.shred_version == 0 {
            match sight.entrypoint_shred_version {
                Some(version) => {
                    if version == 0 {
                        return SearchOutcome::EntrypointWithoutShredVersion;
                    }
                },
                None => {},
            }
            return SearchOutcome::Retry(RetryReason::WaitForShredVersion);
        }
        let usable = usable_peers(
            &sight.rpc_peers,
            sight.shred_version,
            blacklisted_rpc_nodes,
        );
        if usable.len() == 0 {
            if (sight.now_ms - self.blacklist_since_ms) / 1000 > BLACKLIST_TIMEOUT_SECS {
                // If all nodes are blacklisted and no additional nodes are discovered for that
                // long, remove the blacklist and try them all again
                blacklisted_rpc_nodes.clear();
                return SearchOutcome::Retry(RetryReason::BlacklistTimeoutExpired);
            }
            return SearchOutcome::Retry(RetryReason::WaitForTrustedPeers);
        }
        self.blacklist_since_ms = sight.now_ms;
        if config.snapshot_not_required {
            return SearchOutcome::Eligible { peers: usable, snapshot: sight.local_snapshot };
        }
        let all = collect_offers(
            &sight.rpc_peers,
            &usable,
            config,
            &sight.trusted_snapshot_hashes,
        );
        match highest_snapshot(sight.local_snapshot, &all) {
            None => SearchOutcome::Retry(RetryReason::NoSnapshots),
            Some(snapshot) => {
                let peers = offering_peers(&all, &snapshot);
                if peers.len() > 0 {
                    return SearchOutcome::Eligible { peers, snapshot: Some(snapshot) };
                }
                match self.newer_snapshot_since_ms {
                    None => {
                        self.newer_snapshot_since_ms = Some(sight.now_ms);
                    },
                    Some(since) => {
                        if (sight.now_ms - since) / 1000 > NEWER_SNAPSHOT_TIMEOUT_SECS {
                            return SearchOutcome::GiveUp;
                        }
                    },
                }
                SearchOutcome::Retry(RetryReason::WaitForNewerSnapshot(snapshot))
            },
        }
    }
}

/// One of the eligible nodes, by its number among them.
pub fn peer_at(eligible: &Vec<usize>, index: usize) -> (peer: usize)
    requires
        index < eligible@.len(),
    ensures
        peer == eligible@[index as int],
{
    eligible[index]
}

/// Takes one of the eligible nodes at random.
pub fn choose_peer(eligible: &Vec<usize>) -> (peer: usize)
    requires
        eligible@.len() > 0,
    ensures
        eligible@.contains(peer),
{
    peer_at(eligible, random_below(eligible.len()))
}

proof fn lemma_positions(
    peers: Seq<RpcPeer>,
    end: nat,
    condition: spec_fn(RpcPeer) -> bool,
    i: int,
)
    requires
        end <= peers.len() <= usize::MAX,
        0 <= i < positions(peers, end, condition).len(),
    ensures
        positions(peers, end, condition)[i] < end,
        condition(peers[positions(peers, end, condition)[i] as int]),
    decreases end,
{
    if end > 0 {
        let rest = positions(peers, (end - 1) as nat, condition);
        if i < rest.len() {
            lemma_positions(peers, (end - 1) as nat, condition, i);
        }
    }
}

proof fn lemma_offers_of(
    position: usize,
    hashes: Seq<SnapshotHash>,
    trusted: Option<Seq<SnapshotHash>>,
    i: int,
)
    requires
        0 <= i < offers_of(position, hashes, trusted).len(),
    ensures
        offers_of(position, hashes, trusted)[i].0 == position,
        hashes.contains(offers_of(position, hashes, trusted)[i].1),
        trusted matches Some(trusted_hashes) ==> trusted_hashes.contains(
            offers_of(position, hashes, trusted)[i].1,
        ),
    decreases hashes.len(),
{
    if hashes.len() > 0 {
        let rest = offers_of(position, hashes.drop_last(), trusted);
        if i < rest.len() {
            lemma_offers_of(position, hashes.drop_last(), trusted, i);
            let j = choose|j: int|
                0 <= j < hashes.drop_last().len() && hashes.drop_last()[j] == rest[i].1;
            assert(hashes[j] == rest[i].1);
        } else {
            assert(hashes[hashes.len() - 1] == hashes.last());
        }
    }
}

proof fn lemma_offers(
    peers: Seq<RpcPeer>,
    usable: Seq<usize>,
    no_untrusted: bool,
    validators: Option<PubkeySet>,
    trusted: Option<Seq<SnapshotHash>>,
    i: int,
)
    requires
        0 <= i < offers(peers, usable, no_untrusted, validators, trusted).len(),
    ensures
        ({
            let (position, hash) = offers(peers, usable, no_untrusted, validators, trusted)[i];
            &&& usable.contains(position)
            &&& peers[position as int].snapshot_hashes@.contains(hash)
            &&& no_untrusted ==> is_trusted(peers[position as int].id@, validators)
            &&& trusted matches Some(trusted_hashes) ==> trusted_hashes.contains(hash)
        }),
    decreases usable.len(),
{
    if usable.len() > 0 {
        let shorter = usable.drop_last();
        let rest = offers(peers, shorter, no_untrusted, validators, trusted);
        let peer = peers[usable.last() as int];
        if i < rest.len() {
            lemma_offers(peers, shorter, no_untrusted, validators, trusted, i);
            let j = choose|j: int| 0 <= j < shorter.len() && shorter[j] == rest[i].0;
            assert(usable[j] == rest[i].0);
        } else {
            lemma_offers_of(usable.last(), peer.snapshot_hashes@, trusted, i - rest.len());
            assert(usable[usable.len() - 1] == usable.last());
        }
    }
}

proof fn lemma_offering(all: Seq<(usize, SnapshotHash)>, snapshot: SnapshotHash, i: int)
    requires
        0 <= i < offering(all, snapshot).len(),
    ensures
        all.contains((offering(all, snapshot)[i], snapshot)),
    decreases all.len(),
{
    if all.len() > 0 {
        let shorter = all.drop_last();
        let rest = offering(shorter, snapshot);
        if i < rest.len() {
            lemma_offering(shorter, snapshot, i);
            let j = choose|j: int| 0 <= j < shorter.len() && shorter[j] == (rest[i], snapshot);
            assert(all[j] == (rest[i], snapshot));
        } else {
            assert(all[all.len() - 1] == (all.last().0, snapshot));
        }
    }
}

proof fn lemma_highest(local: Option<SnapshotHash>, all: Seq<(usize, SnapshotHash)>)
    ensures
        highest(local, all) is None <==> local is None && all.len() == 0,
        highest(local, all) matches Some(snapshot) ==> {
            &&& local matches Some(known) ==> snapshot.slot >= known.slot
            &&& forall|i: int| 0 <= i < all.len() ==> snapshot.slot >= (#[trigger] all[i]).1.slot
        },
    decreases all.len(),
{
    if all.len() > 0 {
        let shorter = all.drop_last();
        lemma_highest(local, shorter);
        assert forall|i: int| 0 <= i < all.len() implies highest(local, all)->Some_0.slot >= (
        #[trigger] all[i]).1.slot by {
            if i < shorter.len() {
                assert(shorter[i] == all[i]);
            }
        }
    }
}

/// A node that is eligible runs the right shred version and is not blacklisted.
pub proof fn law_eligible_peers_are_usable(
    search: RpcNodeSearch,
    config: SearchConfig,
    sight: ClusterSight,
    blacklist: Set<Seq<u8>>,
    i: int,
)
    requires
        sight.rpc_peers@.len() <= usize::MAX,
        search.look(config, sight, blacklist).2 is Eligible,
        0 <= i < search.look(config, sight, blacklist).2->peers.len(),
    ensures
        ({
            let position = search.look(config, sight, blacklist).2->peers[i];
            &&& position < sight.rpc_peers@.len()
            &&& sight.rpc_peers@[position as int].shred_version == sight.shred_version
            &&& !blacklist.contains(sight.rpc_peers@[position as int].id@)
        }),
{
    let condition = is_usable(sight.shred_version, blacklist);
    let usable = sight.usable(blacklist);
    let peers = search.look(config, sight, blacklist).2->peers;
    if config.snapshot_not_required {
        lemma_positions(sight.rpc_peers@, sight.rpc_peers@.len(), condition, i);
    } else {
        let offered = sight.offers(config, blacklist);
        let snapshot = highest(sight.local_snapshot, offered)->Some_0;
        lemma_offering(offered, snapshot, i);
        let k = choose|k: int| 0 <= k < offered.len() && offered[k] == (peers[i], snapshot);
        lemma_offers(
            sight.rpc_peers@,
            usable,
            config.no_untrusted_rpc,
            config.trusted_validators,
            list_view(sight.trusted_snapshot_hashes),
            k,
        );
        let j = choose|j: int| 0 <= j < usable.len() && usable[j] == peers[i];
        lemma_positions(sight.rpc_peers@, sight.rpc_peers@.len(), condition, j);
    }
}

/// Where a snapshot is required, an eligible node has it; the snapshot is one that trusted
/// validators have, where there are trusted validators; and without untrusted nodes the node
/// is a trusted one itself.
pub proof fn law_eligible_peers_offer_trusted_snapshot(
    search: RpcNodeSearch,
    config: SearchConfig,
    sight: ClusterSight,
    blacklist: Set<Seq<u8>>,
    i: int,
)
    requires
        !config.snapshot_not_required,
        search.look(config, sight, blacklist).2 is Eligible,
        0 <= i < search.look(config, sight, blacklist).2->peers.len(),
    ensures
        search.look(config, sight, blacklist).2->snapshot is Some,
        ({
            let outcome = search.look(config, sight, blacklist).2;
            let peer = sight.rpc_peers@[outcome->peers[i] as int];
            let snapshot = outcome->snapshot->Some_0;
            &&& peer.snapshot_hashes@.contains(snapshot)
            &&& sight.trusted_snapshot_hashes matches Some(hashes) ==> hashes@.contains(snapshot)
            &&& config.no_untrusted_rpc ==> is_trusted(peer.id@, config.trusted_validators)
        }),
{
    let peers = search.look(config, sight, blacklist).2->peers;
    let offered = sight.offers(config, blacklist);
    let snapshot = highest(sight.local_snapshot, offered)->Some_0;
    lemma_offering(offered, snapshot, i);
    let k = choose|k: int| 0 <= k < offered.len() && offered[k] == (peers[i], snapshot);
    lemma_offers(
        sight.rpc_peers@,
        sight.usable(blacklist),
        config.no_untrusted_rpc,
        config.trusted_validators,
        list_view(sight.trusted_snapshot_hashes),
        k,
    );
}

/// The snapshot is the highest one: nothing that is offered, and nothing local, has a higher
/// slot.
pub proof fn law_snapshot_is_highest(
    search: RpcNodeSearch,
    config: SearchConfig,
    sight: ClusterSight,
    blacklist: Set<Seq<u8>>,
)
    requires
        !config.snapshot_not_required,
        search.look(config, sight, blacklist).2 is Eligible,
    ensures
        ({
            let snapshot = search.look(config, sight, blacklist).2->snapshot->Some_0;
            let offered = sight.offers(config, blacklist);
            &&& sight.local_snapshot matches Some(local) ==> snapshot.slot >= local.slot
            &&& forall|i: int|
                0 <= i < offered.len() ==> snapshot.slot >= (#[trigger] offered[i]).1.slot
        }),
{
    lemma_highest(sight.local_snapshot, sight.offers(config, blacklist));
}

impl ClusterSight {
    /// The node at a position runs the shred version that is asked for, and was not given up.
    pub open spec fn may_ask(self, blacklist: Set<Seq<u8>>, position: int) -> bool {
        &&& 0 <= position < self.rpc_peers@.len()
        &&& self.rpc_peers@[position].shred_version == self.shred_version
        &&& !blacklist.contains(self.rpc_peers@[position].id@)
    }

    /// What stands at a place of the list of the node at a position can be had from it: the node
    /// may be asked, and is a trusted one where only those will do; and a trusted validator has
    /// that snapshot too, where there are any.
    pub open spec fn counts_at(
        self,
        config: SearchConfig,
        blacklist: Set<Seq<u8>>,
        position: int,
        place: int,
    ) -> bool {
        let peer = self.rpc_peers@[position];
        &&& self.may_ask(blacklist, position)
        &&& config.no_untrusted_rpc ==> (config.trusted_validators matches Some(validators)
            && validators@.contains(peer.id@))
        &&& 0 <= place < peer.snapshot_hashes@.len()
        &&& self.trusted_snapshot_hashes matches Some(hashes) ==> hashes@.contains(
            peer.snapshot_hashes@[place],
        )
    }

    pub open spec fn hash_at(self, position: int, place: int) -> SnapshotHash {
        self.rpc_peers@[position].snapshot_hashes@[place]
    }

    /// A snapshot can be had from the node at a position.
    pub open spec fn can_give(
        self,
        config: SearchConfig,
        blacklist: Set<Seq<u8>>,
        position: int,
        snapshot: SnapshotHash,
    ) -> bool {
        exists|place: int| #[trigger]
            self.counts_at(config, blacklist, position, place) && self.hash_at(position, place)
                == snapshot
    }

    /// A snapshot can be had that has a higher slot than the local one, or any where there is no
    /// local one.
    pub open spec fn newer_can_be_had(self, config: SearchConfig, blacklist: Set<Seq<u8>>) -> bool {
        exists|position: int, place: int| #[trigger]
            self.counts_at(config, blacklist, position, place) && (
            self.local_snapshot matches Some(local) ==> self.hash_at(position, place).slot
                > local.slot)
    }
}

/// Of two places in the lists of two nodes, the first one comes first.
pub open spec fn comes_before(position: int, place: int, other: int, other_place: int) -> bool {
    position < other || (position == other && place < other_place)
}

/// Among what stands before a place in the lists, `best` is the snapshot to take: nothing has a
/// higher slot, and it is the local one or else has a higher slot than the local one and than
/// all that comes before it.
spec fn best_before(
    sight: ClusterSight,
    config: SearchConfig,
    blacklist: Set<Seq<u8>>,
    best: Option<SnapshotHash>,
    end: int,
    end_place: int,
) -> bool {
    &&& forall|i: int, k: int| #[trigger]
        sight.counts_at(config, blacklist, i, k) && comes_before(i, k, end, end_place) ==> best
            is Some && sight.hash_at(i, k).slot <= best->Some_0.slot
    &&& best == sight.local_snapshot || exists|i: int, k: int| #[trigger]
        is_best_at(sight, config, blacklist, best, end, end_place, i, k)
}

spec fn is_best_at(
    sight: ClusterSight,
    config: SearchConfig,
    blacklist: Set<Seq<u8>>,
    best: Option<SnapshotHash>,
    end: int,
    end_place: int,
    i: int,
    k: int,
) -> bool {
    &&& sight.counts_at(config, blacklist, i, k)
    &&& comes_before(i, k, end, end_place)
    &&& best == Some(sight.hash_at(i, k))
    &&& sight.local_snapshot matches Some(local) ==> sight.hash_at(i, k).slot > local.slot
    &&& forall|j: int, m: int| #[trigger]
        sight.counts_at(config, blacklist, j, m) && comes_before(j, m, i, k) ==> sight.hash_at(
            j,
            m,
        ).slot < sight.hash_at(i, k).slot
}

/// The offers of the nodes before a position, and those among the first places of its own list.
spec fn offers_before(
    sight: ClusterSight,
    config: SearchConfig,
    blacklist: Set<Seq<u8>>,
    end: int,
    end_place: int,
) -> Seq<(usize, SnapshotHash)> {
    let peer = sight.rpc_peers@[end];
    let trusted = list_view(sight.trusted_snapshot_hashes);
    let rest = offers(
        sight.rpc_peers@,
        positions(sight.rpc_peers@, end as nat, is_usable(sight.shred_version, blacklist)),
        config.no_untrusted_rpc,
        config.trusted_validators,
        trusted,
    );
    if end_place > 0 && sight.may_ask(blacklist, end) && (config.no_untrusted_rpc ==> is_trusted(
        peer.id@,
        config.trusted_validators,
    )) {
        rest + offers_of(end as usize, peer.snapshot_hashes@.take(end_place), trusted)
    } else {
        rest
    }
}

proof fn lemma_next_place(
    sight: ClusterSight,
    config: SearchConfig,
    blacklist: Set<Seq<u8>>,
    end: int,
    end_place: int,
)
    requires
        0 <= end < sight.rpc_peers@.len(),
        0 <= end_place < sight.rpc_peers@[end].snapshot_hashes@.len(),
    ensures
        offers_before(sight, config, blacklist, end, end_place + 1) == if sight.counts_at(
            config,
            blacklist,
            end,
            end_place,
        ) {
            offers_before(sight, config, blacklist, end, end_place).push(
                (end as usize, sight.hash_at(end, end_place)),
            )
        } else {
            offers_before(sight, config, blacklist, end, end_place)
        },
{
    let hashes = sight.rpc_peers@[end].snapshot_hashes@;
    assert(hashes.take(end_place + 1).drop_last() =~= hashes.take(end_place));
    assert(hashes.take(end_place + 1).last() == hashes[end_place]);
    if end_place == 0 {
        assert(hashes.take(0) =~= Seq::empty());
        assert(offers_of(
            end as usize,
            hashes.take(0),
            list_view(sight.trusted_snapshot_hashes),
        ) =~= Seq::empty());
    }
    assert(offers_before(sight, config, blacklist, end, end_place + 1) =~= if sight.counts_at(
        config,
        blacklist,
        end,
        end_place,
    ) {
        offers_before(sight, config, blacklist, end, end_place).push(
            (end as usize, sight.hash_at(end, end_place)),
        )
    } else {
        offers_before(sight, config, blacklist, end, end_place)
    });
}

proof fn lemma_next_position(
    sight: ClusterSight,
    config: SearchConfig,
    blacklist: Set<Seq<u8>>,
    end: int,
)
    requires
        0 <= end < sight.rpc_peers@.len(),
    ensures
        offers_before(sight, config, blacklist, end + 1, 0) == offers_before(
            sight,
            config,
            blacklist,
            end,
            sight.rpc_peers@[end].snapshot_hashes@.len() as int,
        ),
{
    let condition = is_usable(sight.shred_version, blacklist);
    let peers = sight.rpc_peers@;
    let hashes = peers[end].snapshot_hashes@;
    let trusted = list_view(sight.trusted_snapshot_hashes);
    assert(sight.rpc_peers.len() == peers.len());
    assert(hashes.take(hashes.len() as int) =~= hashes);
    let rest = positions(peers, end as nat, condition);
    let all = positions(peers, (end + 1) as nat, condition);
    if condition(peers[end]) {
        assert(all == rest.push(end as usize));
        assert(all.drop_last() =~= rest);
        if hashes.len() == 0 {
            assert(offers_of(end as usize, hashes, trusted) =~= Seq::empty());
        }
    }
    assert(offers_before(sight, config, blacklist, end + 1, 0) =~= offers_before(
        sight,
        config,
        blacklist,
        end,
        hashes.len() as int,
    ));
}

proof fn lemma_best_before(
    sight: ClusterSight,
    config: SearchConfig,
    blacklist: Set<Seq<u8>>,
    end: int,
    end_place: int,
)
    requires
        0 <= end <= sight.rpc_peers@.len(),
        0 <= end_place,
        end < sight.rpc_peers@.len() ==> end_place <= sight.rpc_peers@[end].snapshot_hashes@.len(),
        end == sight.rpc_peers@.len() ==> end_place == 0,
    ensures
        best_before(
            sight,
            config,
            blacklist,
            highest(
                sight.local_snapshot,
                offers_before(sight, config, blacklist, end, end_place),
            ),
            end,
            end_place,
        ),
    decreases end, end_place,
{
    let all = offers_before(sight, config, blacklist, end, end_place);
    let best = highest(sight.local_snapshot, all);
    if end_place > 0 {
        let m = end_place - 1;
        lemma_best_before(sight, config, blacklist, end, m);
        lemma_next_place(sight, config, blacklist, end, m);
        let before = offers_before(sight, config, blacklist, end, m);
        let known = highest(sight.local_snapshot, before);
        if sight.counts_at(config, blacklist, end, m) {
            assert(all.drop_last() =~= before);
            assert(all.last() == (end as usize, sight.hash_at(end, m)));
            if best != known {
                assert(is_best_at(sight, config, blacklist, best, end, end_place, end, m));
            }
        }
        assert forall|i: int, k: int| #[trigger]
            sight.counts_at(config, blacklist, i, k) && comes_before(
                i,
                k,
                end,
                end_place,
            ) implies best is Some && sight.hash_at(i, k).slot <= best->Some_0.slot by {
            if !(i == end && k == m) {
                assert(comes_before(i, k, end, m));
            }
        }
        if best == known && best != sight.local_snapshot {
            let (i, k) = choose|i: int, k: int| #[trigger]
                is_best_at(sight, config, blacklist, known, end, m, i, k);
            assert(is_best_at(sight, config, blacklist, best, end, end_place, i, k));
        }
    } else if end > 0 {
        let hashes = sight.rpc_peers@[end - 1].snapshot_hashes@;
        lemma_best_before(sight, config, blacklist, end - 1, hashes.len() as int);
        lemma_next_position(sight, config, blacklist, end - 1);
        assert forall|i: int, k: int| #[trigger]
            sight.counts_at(config, blacklist, i, k) && comes_before(
                i,
                k,
                end,
                0,
            ) implies comes_before(i, k, end - 1, hashes.len() as int) by {
        }
        if best != sight.local_snapshot {
            let (i, k) = choose|i: int, k: int| #[trigger]
                is_best_at(
                    sight,
                    config,
                    blacklist,
                    best,
                    end - 1,
                    hashes.len() as int,
                    i,
                    k,
                );
            assert(is_best_at(sight, config, blacklist, best, end, 0, i, k));
        }
    } else {
        assert(all =~= Seq::empty());
    }
}

/// How often the node at a position is to be named for a snapshot, among what stands before a
/// place in the lists.
spec fn times_before(
    sight: ClusterSight,
    config: SearchConfig,
    blacklist: Set<Seq<u8>>,
    snapshot: SnapshotHash,
    position: int,
    end: int,
    end_place: int,
) -> nat {
    let hashes = sight.rpc_peers@[position].snapshot_hashes@;
    if !sight.can_give(config, blacklist, position, snapshot) || position > end {
        0
    } else if position == end {
        hashes.take(end_place).to_multiset().count(snapshot)
    } else {
        hashes.to_multiset().count(snapshot)
    }
}

proof fn lemma_offering_before(
    sight: ClusterSight,
    config: SearchConfig,
    blacklist: Set<Seq<u8>>,
    snapshot: SnapshotHash,
    end: int,
    end_place: int,
)
    requires
        0 <= end <= sight.rpc_peers@.len(),
        0 <= end_place,
        end < sight.rpc_peers@.len() ==> end_place <= sight.rpc_peers@[end].snapshot_hashes@.len(),
        end == sight.rpc_peers@.len() ==> end_place == 0,
    ensures
        ({
            let peers = offering(
                offers_before(sight, config, blacklist, end, end_place),
                snapshot,
            );
            &&& forall|i: int, j: int|
                0 <= i < j < peers.len() ==> (#[trigger] peers[i]) <= (#[trigger] peers[j])
            &&& forall|i: int|
                0 <= i < peers.len() ==> comes_before((#[trigger] peers[i]) as int, 0, end, end_place)
            &&& forall|position: usize|
                position < sight.rpc_peers@.len() ==> #[trigger] peers.to_multiset().count(position)
                    == times_before(
                    sight,
                    config,
                    blacklist,
                    snapshot,
                    position as int,
                    end,
                    end_place,
                )
        }),
    decreases end, end_place,
{
    broadcast use vstd::seq_lib::group_to_multiset_ensures;

    let all = offers_before(sight, config, blacklist, end, end_place);
    let peers = offering(all, snapshot);
    assert(sight.rpc_peers.len() == sight.rpc_peers@.len());
    if end_place > 0 {
        let m = end_place - 1;
        let hashes = sight.rpc_peers@[end].snapshot_hashes@;
        lemma_offering_before(sight, config, blacklist, snapshot, end, m);
        lemma_next_place(sight, config, blacklist, end, m);
        let before = offers_before(sight, config, blacklist, end, m);
        let known = offering(before, snapshot);
        assert(hashes.take(end_place) =~= hashes.take(m).push(hashes[m]));
        if sight.counts_at(config, blacklist, end, m) {
            assert(all.drop_last() =~= before);
            assert(all.last() == (end as usize, sight.hash_at(end, m)));
            if sight.hash_at(end, m) == snapshot {
                assert(sight.can_give(config, blacklist, end, snapshot));
                assert(peers == known.push(end as usize));
            }
        } else if hashes[m] == snapshot && sight.can_give(config, blacklist, end, snapshot) {
            let place = choose|place: int| #[trigger]
                sight.counts_at(config, blacklist, end, place) && sight.hash_at(end, place)
                    == snapshot;
            assert(sight.counts_at(config, blacklist, end, m));
        }
        assert forall|position: usize|
            position < sight.rpc_peers@.len() implies #[trigger] peers.to_multiset().count(position)
            == times_before(
            sight,
            config,
            blacklist,
            snapshot,
            position as int,
            end,
            end_place,
        ) by {
            assert(known.to_multiset().count(position) == times_before(
                sight,
                config,
                blacklist,
                snapshot,
                position as int,
                end,
                m,
            ));
        }
    } else if end > 0 {
        let hashes = sight.rpc_peers@[end - 1].snapshot_hashes@;
        lemma_offering_before(sight, config, blacklist, snapshot, end - 1, hashes.len() as int);
        lemma_next_position(sight, config, blacklist, end - 1);
        assert(hashes.take(hashes.len() as int) =~= hashes);
        assert forall|position: usize|
            position < sight.rpc_peers@.len() implies #[trigger] peers.to_multiset().count(position)
            == times_before(
            sight,
            config,
            blacklist,
            snapshot,
            position as int,
            end,
            end_place,
        ) by {
            assert(sight.rpc_peers@[position as int].snapshot_hashes@.take(0) =~= Seq::empty());
        }
    } else {
        assert(all =~= Seq::empty());
        assert(peers =~= Seq::empty());
        assert forall|position: usize|
            position < sight.rpc_peers@.len() implies #[trigger] peers.to_multiset().count(position)
            == times_before(
            sight,
            config,
            blacklist,
            snapshot,
            position as int,
            end,
            end_place,
        ) by {
            assert(sight.rpc_peers@[position as int].snapshot_hashes@.take(0) =~= Seq::empty());
        }
    }
}

proof fn lemma_all_positions(peers: Seq<RpcPeer>, end: nat, condition: spec_fn(RpcPeer) -> bool)
    requires
        end <= peers.len() <= usize::MAX,
    ensures
        ({
            let found = positions(peers, end, condition);
            &&& forall|i: int, j: int|
                0 <= i < j < found.len() ==> (#[trigger] found[i]) < (#[trigger] found[j])
            &&& forall|position: usize| #[trigger]
                found.contains(position) <==> position < end && condition(peers[position as int])
        }),
    decreases end,
{
    if end > 0 {
        let last = (end - 1) as nat;
        lemma_all_positions(peers, last, condition);
        let rest = positions(peers, last, condition);
        let found = positions(peers, end, condition);
        assert forall|i: int| 0 <= i < rest.len() implies (#[trigger] rest[i]) < last by {
            assert(rest.contains(rest[i]));
        }
        assert forall|position: usize| #[trigger]
            found.contains(position) <==> position < end && condition(peers[position as int]) by {
            if rest.contains(position) {
                let i = choose|i: int| 0 <= i < rest.len() && rest[i] == position;
                assert(found[i] == position);
            }
            if position == last && condition(peers[position as int]) {
                assert(found[rest.len() as int] == position);
            }
            if found.contains(position) {
                let i = choose|i: int| 0 <= i < found.len() && found[i] == position;
                if i < rest.len() {
                    assert(rest[i] == position);
                }
            }
        }
    }
}

proof fn lemma_usable(sight: ClusterSight, blacklist: Set<Seq<u8>>)
    ensures
        ({
            let found = sight.usable(blacklist);
            &&& forall|i: int, j: int|
                0 <= i < j < found.len() ==> (#[trigger] found[i]) < (#[trigger] found[j])
            &&& forall|position: usize| #[trigger]
                found.contains(position) <==> sight.may_ask(blacklist, position as int)
            &&& found.len() > 0 <==> exists|position: int| #[trigger]
                sight.may_ask(blacklist, position)
        }),
{
    let condition = is_usable(sight.shred_version, blacklist);
    let found = sight.usable(blacklist);
    assert(sight.rpc_peers.len() == sight.rpc_peers@.len());
    lemma_all_positions(sight.rpc_peers@, sight.rpc_peers@.len(), condition);
    if found.len() > 0 {
        assert(found.contains(found[0]));
        assert(sight.may_ask(blacklist, found[0] as int));
    }
    if exists|position: int| #[trigger] sight.may_ask(blacklist, position) {
        let position = choose|position: int| #[trigger] sight.may_ask(blacklist, position);
        assert(found.contains(position as usize));
    }
}

proof fn lemma_offering_all(
    sight: ClusterSight,
    config: SearchConfig,
    blacklist: Set<Seq<u8>>,
    snapshot: SnapshotHash,
)
    ensures
        ({
            let peers = offering(sight.offers(config, blacklist), snapshot);
            &&& forall|i: int, j: int|
                0 <= i < j < peers.len() ==> (#[trigger] peers[i]) <= (#[trigger] peers[j])
            &&& forall|i: int|
                0 <= i < peers.len() ==> (#[trigger] peers[i]) < sight.rpc_peers@.len()
            &&& forall|position: usize|
                sight.can_give(config, blacklist, position as int, snapshot)
                    ==> #[trigger] peers.to_multiset().count(position)
                    == sight.rpc_peers@[position as int].snapshot_hashes@.to_multiset().count(
                    snapshot,
                )
            &&& forall|position: usize| #[trigger]
                peers.contains(position) <==> sight.can_give(
                    config,
                    blacklist,
                    position as int,
                    snapshot,
                )
        }),
{
    broadcast use vstd::seq_lib::group_to_multiset_ensures;

    let end = sight.rpc_peers@.len() as int;
    let peers = offering(sight.offers(config, blacklist), snapshot);
    lemma_offering_before(sight, config, blacklist, snapshot, end, 0);
    assert(offers_before(sight, config, blacklist, end, 0) == sight.offers(config, blacklist));
    assert forall|position: usize| #[trigger]
        peers.contains(position) <==> sight.can_give(
            config,
            blacklist,
            position as int,
            snapshot,
        ) by {
        let count = peers.to_multiset().count(position);
        if sight.can_give(config, blacklist, position as int, snapshot) {
            let place = choose|place: int| #[trigger]
                sight.counts_at(config, blacklist, position as int, place) && sight.hash_at(
                    position as int,
                    place,
                ) == snapshot;
            let hashes = sight.rpc_peers@[position as int].snapshot_hashes@;
            assert(hashes[place] == snapshot);
            assert(hashes.contains(snapshot));
            assert(hashes.to_multiset().count(snapshot) > 0);
        }
        if peers.contains(position) {
            let i = choose|i: int| 0 <= i < peers.len() && peers[i] == position;
            assert(comes_before(peers[i] as int, 0, end, 0));
        }
    }
}

/// Where a snapshot is required and one can be had that is newer than the local one, nodes are
/// eligible: it is the first of those with the highest slot that is taken, and the nodes are all
/// those that have it, in the order of the nodes and as often as they name it.
pub proof fn law_newer_snapshot_is_taken(
    search: RpcNodeSearch,
    config: SearchConfig,
    sight: ClusterSight,
    blacklist: Set<Seq<u8>>,
)
    requires
        sight.shred_version != 0,
        !config.snapshot_not_required,
        sight.newer_can_be_had(config, blacklist),
    ensures
        search.look(config, sight, blacklist).2 is Eligible,
        search.look(config, sight, blacklist).2->snapshot is Some,
        search.look(config, sight, blacklist).1 == blacklist,
        search.look(config, sight, blacklist).0.blacklist_since_ms == sight.now_ms,
        search.look(config, sight, blacklist).0.newer_snapshot_since_ms
            == search.newer_snapshot_since_ms,
        ({
            let peers = search.look(config, sight, blacklist).2->peers;
            let snapshot = search.look(config, sight, blacklist).2->snapshot->Some_0;
            &&& sight.local_snapshot matches Some(local) ==> snapshot.slot > local.slot
            &&& forall|i: int, k: int| #[trigger]
                sight.counts_at(config, blacklist, i, k) ==> sight.hash_at(i, k).slot
                    <= snapshot.slot
            &&& exists|i: int, k: int| #[trigger]
                sight.counts_at(config, blacklist, i, k) && sight.hash_at(i, k) == snapshot
                    && forall|j: int, m: int| #[trigger]
                    sight.counts_at(config, blacklist, j, m) && comes_before(j, m, i, k)
                        ==> sight.hash_at(j, m).slot < snapshot.slot
            &&& forall|position: usize| #[trigger]
                peers.contains(position) <==> sight.can_give(
                    config,
                    blacklist,
                    position as int,
                    snapshot,
                )
            &&& forall|i: int| 0 <= i < peers.len() ==> (#[trigger] peers[i])
                < sight.rpc_peers@.len()
            &&& forall|position: usize|
                sight.can_give(config, blacklist, position as int, snapshot)
                    ==> #[trigger] peers.to_multiset().count(position)
                    == sight.rpc_peers@[position as int].snapshot_hashes@.to_multiset().count(
                    snapshot,
                )
            &&& forall|i: int, j: int|
                0 <= i < j < peers.len() ==> (#[trigger] peers[i]) <= (#[trigger] peers[j])
        }),
{
    let (i, k) = choose|i: int, k: int| #[trigger]
        sight.counts_at(config, blacklist, i, k) && (
        sight.local_snapshot matches Some(local) ==> sight.hash_at(i, k).slot > local.slot);
    lemma_usable(sight, blacklist);
    assert(sight.may_ask(blacklist, i));
    let all = sight.offers(config, blacklist);
    let best = highest(sight.local_snapshot, all);
    let end = sight.rpc_peers@.len() as int;
    assert(offers_before(sight, config, blacklist, end, 0) == all);
    lemma_best_before(sight, config, blacklist, end, 0);
    assert(comes_before(i, k, end, 0));
    assert(best != sight.local_snapshot);
    let snapshot = best->Some_0;
    let (p, q) = choose|p: int, q: int| #[trigger]
        is_best_at(sight, config, blacklist, best, end, 0, p, q);
    assert(sight.counts_at(config, blacklist, p, q) && sight.hash_at(p, q) == snapshot);
    assert(sight.can_give(config, blacklist, p, snapshot));
    assert(sight.rpc_peers.len() == sight.rpc_peers@.len());
    let peers = offering(all, snapshot);
    lemma_offering_all(sight, config, blacklist, snapshot);
    assert(peers.contains(p as usize));
    assert(peers.len() > 0);
    assert forall|a: int, b: int| #[trigger]
        sight.counts_at(config, blacklist, a, b) implies sight.hash_at(a, b).slot
        <= snapshot.slot by {
        assert(comes_before(a, b, end, 0));
    }
}

/// Where a snapshot is required and none can be had that is newer than the local one, the local
/// one is as good as any: the nodes that have it are eligible. Where no node has it, a newer one
/// is waited for, and given up once more than 180 seconds have passed since there was none; and
/// without a local one there is nothing to go by.
pub proof fn law_local_snapshot_without_newer(
    search: RpcNodeSearch,
    config: SearchConfig,
    sight: ClusterSight,
    blacklist: Set<Seq<u8>>,
)
    requires
        sight.shred_version != 0,
        !config.snapshot_not_required,
        exists|position: int| #[trigger] sight.may_ask(blacklist, position),
        !sight.newer_can_be_had(config, blacklist),
    ensures
        ({
            let (after, listed, outcome) = search.look(config, sight, blacklist);
            &&& listed == blacklist
            &&& after.blacklist_since_ms == sight.now_ms
            &&& match sight.local_snapshot {
                None => outcome == OutcomeView::Retry(RetryReason::NoSnapshots)
                    && after.newer_snapshot_since_ms == search.newer_snapshot_since_ms,
                Some(local) => {
                    &&& outcome is Eligible <==> exists|position: int| #[trigger]
                        sight.can_give(config, blacklist, position, local)
                    &&& outcome matches OutcomeView::Eligible { peers, snapshot } ==> {
                        &&& snapshot == Some(local)
                        &&& forall|position: usize| #[trigger]
                            peers.contains(position) <==> sight.can_give(
                                config,
                                blacklist,
                                position as int,
                                local,
                            )
                        &&& forall|position: usize|
                            sight.can_give(config, blacklist, position as int, local)
                                ==> #[trigger] peers.to_multiset().count(position)
                                == sight.rpc_peers@[position as int].snapshot_hashes@.to_multiset().count(
                            local)
                        &&& forall|i: int, j: int|
                            0 <= i < j < peers.len() ==> (#[trigger] peers[i]) <= (
                            #[trigger] peers[j])
                        &&& after.newer_snapshot_since_ms == search.newer_snapshot_since_ms
                    }
                    &&& outcome is Eligible || match search.newer_snapshot_since_ms {
                        None => outcome == OutcomeView::Retry(
                            RetryReason::WaitForNewerSnapshot(local),
                        ) && after.newer_snapshot_since_ms == Some(sight.now_ms),
                        Some(since) => {
                            &&& after.newer_snapshot_since_ms == Some(since)
                            &&& outcome is GiveUp <==> sight.now_ms - since >= 181_000
                            &&& outcome is GiveUp || outcome == OutcomeView::Retry(
                                RetryReason::WaitForNewerSnapshot(local),
                            )
                        },
                    }
                },
            }
        }),
{
    lemma_usable(sight, blacklist);
    let all = sight.offers(config, blacklist);
    let best = highest(sight.local_snapshot, all);
    let end = sight.rpc_peers@.len() as int;
    assert(offers_before(sight, config, blacklist, end, 0) == all);
    lemma_best_before(sight, config, blacklist, end, 0);
    if best != sight.local_snapshot {
        let (p, q) = choose|p: int, q: int| #[trigger]
            is_best_at(sight, config, blacklist, best, end, 0, p, q);
        assert(sight.counts_at(config, blacklist, p, q));
    }
    if let Some(local) = sight.local_snapshot {
        lemma_offering_all(sight, config, blacklist, local);
        let peers = offering(all, local);
        if peers.len() > 0 {
            assert(peers.contains(peers[0]));
            assert(sight.can_give(config, blacklist, peers[0] as int, local));
        }
        if exists|position: int| #[trigger] sight.can_give(config, blacklist, position, local) {
            let position = choose|position: int| #[trigger]
                sight.can_give(config, blacklist, position, local);
            assert(sight.rpc_peers.len() == sight.rpc_peers@.len());
            let place = choose|place: int| #[trigger]
                sight.counts_at(config, blacklist, position, place) && sight.hash_at(
                    position,
                    place,
                ) == local;
            assert(peers.contains(position as usize));
        }
    }
}

/// Where no snapshot is required, any node that may be asked will do, and the local snapshot is
/// what there is.
pub proof fn law_any_node_will_do_without_snapshot(
    search: RpcNodeSearch,
    config: SearchConfig,
    sight: ClusterSight,
    blacklist: Set<Seq<u8>>,
)
    requires
        sight.shred_version != 0,
        config.snapshot_not_required,
        exists|position: int| #[trigger] sight.may_ask(blacklist, position),
    ensures
        ({
            let (after, listed, outcome) = search.look(config, sight, blacklist);
            &&& listed == blacklist
            &&& after.blacklist_since_ms == sight.now_ms
            &&& after.newer_snapshot_since_ms == search.newer_snapshot_since_ms
            &&& outcome matches OutcomeView::Eligible { peers, snapshot } && snapshot
                == sight.local_snapshot && (forall|position: usize| #[trigger]
                peers.contains(position) <==> sight.may_ask(blacklist, position as int)) && (forall|
                i: int,
                j: int,
            |
                0 <= i < j < peers.len() ==> (#[trigger] peers[i]) < (#[trigger] peers[j]))
        }),
{
    lemma_usable(sight, blacklist);
}

/// Without a shred version the search waits for one, or ends where the entrypoint has none
/// either. Where no node may be asked it waits, and once more than 60 seconds have passed since
/// one might be, all that were given up may be asked again.
pub proof fn law_search_without_nodes(
    search: RpcNodeSearch,
    config: SearchConfig,
    sight: ClusterSight,
    blacklist: Set<Seq<u8>>,
)
    requires
        sight.shred_version == 0 || forall|position: int| !#[trigger] sight.may_ask(
            blacklist,
            position,
        ),
    ensures
        ({
            let (after, listed, outcome) = search.look(config, sight, blacklist);
            &&& after == search
            &&& sight.shred_version == 0 ==> {
                &&& listed == blacklist
                &&& outcome is EntrypointWithoutShredVersion <==> (
                sight.entrypoint_shred_version matches Some(version) && version == 0)
                &&& outcome is EntrypointWithoutShredVersion || outcome == OutcomeView::Retry(
                    RetryReason::WaitForShredVersion,
                )
            }
            &&& sight.shred_version != 0 ==> {
                let expired = sight.now_ms - search.blacklist_since_ms >= 61_000;
                &&& expired ==> outcome == OutcomeView::Retry(
                    RetryReason::BlacklistTimeoutExpired,
                ) && listed == Set::<Seq<u8>>::empty()
                &&& !expired ==> outcome == OutcomeView::Retry(RetryReason::WaitForTrustedPeers)
                    && listed == blacklist
            }
        }),
{
    lemma_usable(sight, blacklist);
}

} // verus!
