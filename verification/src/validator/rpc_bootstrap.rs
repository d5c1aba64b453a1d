//! Fetches what is needed to start from the cluster.

use vstd::prelude::*;

use super::rpc_node::is_trusted;
use super::rpc_node::is_trusted_validator;
use super::rpc_node::SnapshotHash;
use crate::base58::base58_text;
use crate::clock::Slot;
use crate::pubkey::Pubkey;
use crate::pubkey_set::PubkeySet;

verus! {

#[derive(Clone, Copy, Debug, PartialEq, Eq, Structural)]
pub struct RpcBootstrapConfig {
    pub no_genesis_fetch: bool,
    pub no_snapshot_fetch: bool,
    pub no_untrusted_rpc: bool,
    pub max_genesis_archive_unpacked_size: u64,
    pub no_check_vote_account: bool,
}

impl RpcBootstrapConfig {
    /// Nothing is fetched or checked.
    pub fn new(max_genesis_archive_unpacked_size: u64) -> (config: Self)
        ensures
            config == (RpcBootstrapConfig {
                no_genesis_fetch: true,
                no_snapshot_fetch: true,
                no_untrusted_rpc: true,
                max_genesis_archive_unpacked_size,
                no_check_vote_account: true,
            }),
    {
        RpcBootstrapConfig {
            no_genesis_fetch: true,
            no_snapshot_fetch: true,
            no_untrusted_rpc: true,
            max_genesis_archive_unpacked_size,
            no_check_vote_account: true,
        }
    }
}

/// The genesis has another hash than the expected one.
#[derive(Clone, Copy, Debug)]
pub struct GenesisHashMismatch {
    pub expected: crate::hash::Hash,
    pub actual: crate::hash::Hash,
}

impl GenesisHashMismatch {
    /// The text of the mismatch; `source` tells whose the other hash is.
    pub open spec fn spec_message(self, source: Seq<char>) -> Seq<char> {
        "Genesis hash mismatch: expected "@ + base58_text(self.expected@) + " but "@ + source
            + " genesis hash is "@ + base58_text(self.actual@)
    }

    pub fn message(&self, source: &str) -> (message: String)
        ensures
            message@ == self.spec_message(source@),
    {
        let mut message = "Genesis hash mismatch: expected ".to_owned();
        message.append(self.expected.to_base58().as_str());
        message.append(" but ");
        message.append(source);
        message.append(" genesis hash is ");
        message.append(self.actual.to_base58().as_str());
        message
    }
}

/// The genesis hash has to be the expected one, where there is one.
pub fn check_genesis_hash(
    genesis_hash: crate::hash::Hash,
    expected_genesis_hash: Option<crate::hash::Hash>,
) -> (result: Result<(), GenesisHashMismatch>)
    ensures
        result == (match expected_genesis_hash {
            Some(expected) => if expected == genesis_hash {
                Ok(())
            } else {
                Err(GenesisHashMismatch { expected, actual: genesis_hash })
            },
            None => Ok(()),
        }),
{
    match expected_genesis_hash {
        Some(expected) => {
            if expected != genesis_hash {
                return Err(GenesisHashMismatch { expected, actual: genesis_hash });
            }
        },
        None => {},
    }
    Ok(())
}

/// Why a node could not be used, `M` being what the failed request told.
#[derive(Debug)]
pub enum BootstrapFailure<M> {
    Version(M),
    GenesisHash(M),
    GenesisMismatch(GenesisHashMismatch),
    RootSlot(M),
    Snapshot(M),
}

impl BootstrapFailure<String> {
    pub open spec fn spec_message(self) -> Seq<char> {
        match self {
            BootstrapFailure::Version(reason) => "Failed to get RPC node version: "@ + reason@,
            BootstrapFailure::GenesisHash(reason) => "Failed to get genesis hash: "@ + reason@,
            BootstrapFailure::GenesisMismatch(mismatch) => mismatch.spec_message("RPC node"@),
            BootstrapFailure::RootSlot(reason) => "Failed to get RPC node slot: "@ + reason@,
            BootstrapFailure::Snapshot(reason) => reason@,
        }
    }

    /// The failure in words.
    pub fn message(&self) -> (message: String)
        ensures
            message@ == self.spec_message(),
    {
        match self {
            BootstrapFailure::Version(reason) => {
                "Failed to get RPC node version: ".to_owned().concat(reason.as_str())
            },
            BootstrapFailure::GenesisHash(reason) => {
                "Failed to get genesis hash: ".to_owned().concat(reason.as_str())
            },
            BootstrapFailure::GenesisMismatch(mismatch) => mismatch.message("RPC node"),
            BootstrapFailure::RootSlot(reason) => {
                "Failed to get RPC node slot: ".to_owned().concat(reason.as_str())
            },
            BootstrapFailure::Snapshot(reason) => reason.clone(),
        }
    }
}

/// A node to fetch from, and the snapshot that it has.
#[derive(Clone, Copy, Debug)]
pub struct RpcNode {
    pub id: Pubkey,
    pub snapshot: Option<SnapshotHash>,
}

/// What is being waited for.
#[derive(Clone, Copy, Debug, PartialEq, Eq, Structural)]
pub enum BootstrapPhase {
    Start,
    Ports,
    Gossip,
    Node,
    Version,
    Genesis,
    GenesisHash,
    RootSlot,
    Snapshot,
    VoteAccount,
    Finished,
}

/// What happened outside.
pub enum BootstrapEvent<M> {
    Started,
    PortsVerified,
    GossipStarted,
    /// the search for a node found one, or gave up
    NodeFound(Option<RpcNode>),
    Version(Result<(), M>),
    /// the hash of the genesis that was fetched and checked, or loaded and checked
    Genesis(Result<crate::hash::Hash, M>),
    /// the genesis hash that the node goes by
    GenesisHash(Result<crate::hash::Hash, M>),
    RootSlot(Result<Slot, M>),
    Snapshot(Result<(), M>),
    VoteAccount(Result<(), M>),
}

/// What to do outside.
#[derive(Clone, Copy, Debug)]
pub enum BootstrapAction {
    VerifyPorts,
    StartGossip,
    FindNode,
    GetVersion,
    /// fetch the genesis, where it is fetched, and check it
    FetchGenesis { expected_genesis_hash: Option<crate::hash::Hash> },
    GetGenesisHash,
    GetRootSlot,
    /// end gossip, and download the snapshot
    DownloadSnapshot(SnapshotHash),
    CheckVoteAccount,
    /// the validator can start; where gossip still runs for its sake, end it
    Finish { stop_gossip: bool },
    /// the vote account does not fit: end
    Abort,
}

/// The state of a bootstrap.
pub struct BootstrapView<M> {
    pub config: RpcBootstrapConfig,
    pub no_port_check: bool,
    pub voting_disabled: bool,
    pub trusted_validators: Option<PubkeySet>,
    pub expected_genesis_hash: Option<crate::hash::Hash>,
    pub blacklist: Set<Seq<u8>>,
    pub gossip_runs: bool,
    pub node: Option<RpcNode>,
    pub last_failure: Option<BootstrapFailure<M>>,
    pub phase: BootstrapPhase,
}

impl<M> BootstrapView<M> {
    pub open spec fn wf(self) -> bool {
        &&& self.phase is Version || self.phase is Genesis || self.phase is GenesisHash
            || self.phase is RootSlot || self.phase is Snapshot ==> self.node is Some
        &&& self.phase is GenesisHash ==> self.expected_genesis_hash is Some
        &&& self.phase is RootSlot ==> self.node->Some_0.snapshot is Some
    }

    pub open spec fn to(self, phase: BootstrapPhase, action: BootstrapAction) -> (
        BootstrapView<M>,
        BootstrapAction,
    ) {
        (BootstrapView { phase, ..self }, action)
    }

    /// An event can be the answer to what is being waited for.
    pub open spec fn expects(self, event: BootstrapEvent<M>) -> bool {
        match event {
            BootstrapEvent::Started => self.phase is Start,
            BootstrapEvent::PortsVerified => self.phase is Ports,
            BootstrapEvent::GossipStarted => self.phase is Gossip,
            BootstrapEvent::NodeFound(_) => self.phase is Node,
            BootstrapEvent::Version(_) => self.phase is Version,
            BootstrapEvent::Genesis(_) => self.phase is Genesis,
            BootstrapEvent::GenesisHash(_) => self.phase is GenesisHash,
            BootstrapEvent::RootSlot(_) => self.phase is RootSlot,
            BootstrapEvent::Snapshot(_) => self.phase is Snapshot,
            BootstrapEvent::VoteAccount(_) => self.phase is VoteAccount,
        }
    }

    /// Looks for a node, with gossip running.
    pub open spec fn find_node(self) -> (BootstrapView<M>, BootstrapAction) {
        if self.gossip_runs {
            self.to(BootstrapPhase::Node, BootstrapAction::FindNode)
        } else {
            self.to(BootstrapPhase::Gossip, BootstrapAction::StartGossip)
        }
    }

    /// Where anything is to be fetched, a node is looked for.
    pub open spec fn begin(self) -> (BootstrapView<M>, BootstrapAction) {
        if self.config.no_genesis_fetch && self.config.no_snapshot_fetch {
            self.to(BootstrapPhase::Finished, BootstrapAction::Finish { stop_gossip: false })
        } else {
            self.find_node()
        }
    }

    /// The node could not be used: unless it is a trusted one it is not to be used again, and
    /// another one is looked for.
    pub open spec fn fail(self, failure: BootstrapFailure<M>) -> (
        BootstrapView<M>,
        BootstrapAction,
    ) {
        let id = self.node->Some_0.id@;
        BootstrapView {
            blacklist: if is_trusted(id, self.trusted_validators) {
                self.blacklist
            } else {
                self.blacklist.insert(id)
            },
            node: None,
            last_failure: Some(failure),
            ..self
        }.find_node()
    }

    /// The genesis is settled: the snapshot is next.
    pub open spec fn after_genesis(self) -> (BootstrapView<M>, BootstrapAction) {
        if self.node->Some_0.snapshot is Some {
            self.to(BootstrapPhase::RootSlot, BootstrapAction::GetRootSlot)
        } else {
            self.after_snapshot()
        }
    }

    /// All is fetched: the vote account is next.
    pub open spec fn after_snapshot(self) -> (BootstrapView<M>, BootstrapAction) {
        if !self.voting_disabled && !self.config.no_check_vote_account {
            self.to(BootstrapPhase::VoteAccount, BootstrapAction::CheckVoteAccount)
        } else {
            self.finish()
        }
    }

    pub open spec fn finish(self) -> (BootstrapView<M>, BootstrapAction) {
        (
            BootstrapView { phase: BootstrapPhase::Finished, gossip_runs: false, ..self },
            BootstrapAction::Finish { stop_gossip: self.gossip_runs },
        )
    }

    /// What follows an event.
    pub open spec fn step(self, event: BootstrapEvent<M>) -> (BootstrapView<M>, BootstrapAction) {
        match event {
            BootstrapEvent::Started => if !self.no_port_check {
                self.to(BootstrapPhase::Ports, BootstrapAction::VerifyPorts)
            } else {
                self.begin()
            },
            BootstrapEvent::PortsVerified => self.begin(),
            BootstrapEvent::GossipStarted => BootstrapView {
                gossip_runs: true,
                ..self
            }.find_node(),
            BootstrapEvent::NodeFound(None) => self.to(
                BootstrapPhase::Finished,
                BootstrapAction::Finish { stop_gossip: false },
            ),
            BootstrapEvent::NodeFound(Some(node)) => BootstrapView {
                node: Some(node),
                ..self
            }.to(BootstrapPhase::Version, BootstrapAction::GetVersion),
            BootstrapEvent::Version(Err(message)) => self.fail(BootstrapFailure::Version(message)),
            BootstrapEvent::Version(Ok(())) => self.to(
                BootstrapPhase::Genesis,
                BootstrapAction::FetchGenesis {
                    expected_genesis_hash: self.expected_genesis_hash,
                },
            ),
            BootstrapEvent::Genesis(genesis) => {
                // the first genesis that is fetched sets what is expected from then on
                let next = BootstrapView {
                    expected_genesis_hash: if self.expected_genesis_hash is None {
                        genesis.ok()
                    } else {
                        self.expected_genesis_hash
                    },
                    ..self
                };
                if next.expected_genesis_hash is Some {
                    next.to(BootstrapPhase::GenesisHash, BootstrapAction::GetGenesisHash)
                } else {
                    next.after_genesis()
                }
            },
            BootstrapEvent::GenesisHash(Err(message)) => self.fail(
                BootstrapFailure::GenesisHash(message),
            ),
            BootstrapEvent::GenesisHash(Ok(actual)) => {
                let expected = self.expected_genesis_hash->Some_0;
                if expected == actual {
                    self.after_genesis()
                } else {
                    self.fail(
                        BootstrapFailure::GenesisMismatch(
                            GenesisHashMismatch { expected, actual },
                        ),
                    )
                }
            },
            BootstrapEvent::RootSlot(Err(message)) => self.fail(
                BootstrapFailure::RootSlot(message),
            ),
            BootstrapEvent::RootSlot(Ok(_)) => BootstrapView { gossip_runs: false, ..self }.to(
                BootstrapPhase::Snapshot,
                BootstrapAction::DownloadSnapshot(self.node->Some_0.snapshot->Some_0),
            ),
            BootstrapEvent::Snapshot(Err(message)) => self.fail(
                BootstrapFailure::Snapshot(message),
            ),
            BootstrapEvent::Snapshot(Ok(())) => self.after_snapshot(),
            BootstrapEvent::VoteAccount(Err(_)) => self.to(
                BootstrapPhase::Finished,
                BootstrapAction::Abort,
            ),
            BootstrapEvent::VoteAccount(Ok(())) => self.finish(),
        }
    }
}

/// Fetches what is needed to start from the cluster, trying one node after the other.
pub struct RpcBootstrap<M> {
    pub config: RpcBootstrapConfig,
    pub no_port_check: bool,
    pub voting_disabled: bool,
    pub trusted_validators: Option<PubkeySet>,
    pub expected_genesis_hash: Option<crate::hash::Hash>,
    pub blacklisted_rpc_nodes: PubkeySet,
    pub gossip_runs: bool,
    pub node: Option<RpcNode>,
    pub last_failure: Option<BootstrapFailure<M>>,
    pub phase: BootstrapPhase,
}

impl<M> View for RpcBootstrap<M> {
    type V = BootstrapView<M>;

    open spec fn view(&self) -> BootstrapView<M> {
        BootstrapView {
            config: self.config,
            no_port_check: self.no_port_check,
            voting_disabled: self.voting_disabled,
            trusted_validators: self.trusted_validators,
            expected_genesis_hash: self.expected_genesis_hash,
            blacklist: self.blacklisted_rpc_nodes@,
            gossip_runs: self.gossip_runs,
            node: self.node,
            last_failure: self.last_failure,
            phase: self.phase,
        }
    }
}

impl<M> RpcBootstrap<M> {
    pub open spec fn wf(&self) -> bool {
        self@.wf()
    }

    pub fn new(
        config: RpcBootstrapConfig,
        no_port_check: bool,
        voting_disabled: bool,
        trusted_validators: Option<PubkeySet>,
        expected_genesis_hash: Option<crate::hash::Hash>,
    ) -> (this: Self)
        ensures
            this.wf(),
            this@ == (BootstrapView::<M> {
                config,
                no_port_check,
                voting_disabled,
                trusted_validators,
                expected_genesis_hash,
                blacklist: Set::empty(),
                gossip_runs: false,
                node: None,
                last_failure: None,
                phase: BootstrapPhase::Start,
            }),
    {
        RpcBootstrap {
            config,
            no_port_check,
            voting_disabled,
            trusted_validators,
            expected_genesis_hash,
            blacklisted_rpc_nodes: PubkeySet::new(),
            gossip_runs: false,
            node: None,
            last_failure: None,
            phase: BootstrapPhase::Start,
        }
    }

    fn find_node(&mut self) -> (action: BootstrapAction)
        ensures
            (final(self)@, action) == old(self)@.find_node(),
    {
        if self.gossip_runs {
            self.phase = BootstrapPhase::Node;
            BootstrapAction::FindNode
        } else {
            self.phase = BootstrapPhase::Gossip;
            BootstrapAction::StartGossip
        }
    }

    fn begin(&mut self) -> (action: BootstrapAction)
        ensures
            (final(self)@, action) == old(self)@.begin(),
    {
        if self.config.no_genesis_fetch && self.config.no_snapshot_fetch {
            self.phase = BootstrapPhase::Finished;
            BootstrapAction::Finish { stop_gossip: false }
        } else {
            self.find_node()
        }
    }

    fn fail(&mut self, failure: BootstrapFailure<M>) -> (action: BootstrapAction)
        requires
            old(self).node is Some,
        ensures
            (final(self)@, action) == old(self)@.fail(failure),
    {
        match self.node {
            Some(node) => {
                // Never blacklist a trusted node
                if !is_trusted_validator(&node.id, &self.trusted_validators) {
                    self.blacklisted_rpc_nodes.insert(&node.id);
                }
            },
            None => {},
        }
        self.node = None;
        self.last_failure = Some(failure);
        self.find_node()
    }

    fn after_snapshot(&mut self) -> (action: BootstrapAction)
        ensures
            (final(self)@, action) == old(self)@.after_snapshot(),
    {
        if !self.voting_disabled && !self.config.no_check_vote_account {
            self.phase = BootstrapPhase::VoteAccount;
            BootstrapAction::CheckVoteAccount
        } else {
            self.finish()
        }
    }

    fn after_genesis(&mut self) -> (action: BootstrapAction)
        requires
            old(self).node is Some,
        ensures
            (final(self)@, action) == old(self)@.after_genesis(),
    {
        match self.node {
            Some(RpcNode { snapshot: Some(_), .. }) => {
                self.phase = BootstrapPhase::RootSlot;
                BootstrapAction::GetRootSlot
            },
            _ => self.after_snapshot(),
        }
    }

    fn finish(&mut self) -> (action: BootstrapAction)
        ensures
            (final(self)@, action) == old(self)@.finish(),
    {
        let stop_gossip = self.gossip_runs;
        self.gossip_runs = false;
        self.phase = BootstrapPhase::Finished;
        BootstrapAction::Finish { stop_gossip }
    }

    /// Takes in what happened outside and says what to do next.
    pub fn step(&mut self, event: BootstrapEvent<M>) -> (action: BootstrapAction)
        requires
            old(self).wf(),
            old(self)@.expects(event),
        ensures
            final(self).wf(),
            (final(self)@, action) == old(self)@.step(event),
    {
        match event {
            BootstrapEvent::Started => {
                if !self.no_port_check {
                    self.phase = BootstrapPhase::Ports;
                    BootstrapAction::VerifyPorts
                } else {
                    self.begin()
                }
            },
            BootstrapEvent::PortsVerified => self.begin(),
            BootstrapEvent::GossipStarted => {
                self.gossip_runs = true;
                self.find_node()
            },
            BootstrapEvent::NodeFound(None) => {
                self.phase = BootstrapPhase::Finished;
                BootstrapAction::Finish { stop_gossip: false }
            },
            BootstrapEvent::NodeFound(Some(node)) => {
                self.node = Some(node);
                self.phase = BootstrapPhase::Version;
                BootstrapAction::GetVersion
            },
            BootstrapEvent::Version(Err(message)) => self.fail(BootstrapFailure::Version(message)),
            BootstrapEvent::Version(Ok(())) => {
                self.phase = BootstrapPhase::Genesis;
                BootstrapAction::FetchGenesis {
                    expected_genesis_hash: self.expected_genesis_hash,
                }
            },
            BootstrapEvent::Genesis(genesis) => {
                match genesis {
                    Ok(genesis_hash) => {
                        if self.expected_genesis_hash.is_none() {
                            self.expected_genesis_hash = Some(genesis_hash);
                        }
                    },
                    Err(_) => {},
                }
                if self.expected_genesis_hash.is_some() {
                    // Sanity check that the node is using the expected genesis hash before
                    // downloading a snapshot from it
                    self.phase = BootstrapPhase::GenesisHash;
                    BootstrapAction::GetGenesisHash
                } else {
                    self.after_genesis()
                }
            },
            BootstrapEvent::GenesisHash(Err(message)) => {
                self.fail(BootstrapFailure::GenesisHash(message))
            },
            BootstrapEvent::GenesisHash(Ok(actual)) => {
                match check_genesis_hash(actual, self.expected_genesis_hash) {
                    Ok(()) => self.after_genesis(),
                    Err(mismatch) => self.fail(BootstrapFailure::GenesisMismatch(mismatch)),
                }
            },
            BootstrapEvent::RootSlot(Err(message)) => self.fail(BootstrapFailure::RootSlot(message)),
            BootstrapEvent::RootSlot(Ok(_)) => {
                self.gossip_runs = false;
                self.phase = BootstrapPhase::Snapshot;
                match self.node {
                    Some(RpcNode { snapshot: Some(snapshot), .. }) => {
                        BootstrapAction::DownloadSnapshot(snapshot)
                    },
                    _ => BootstrapAction::Abort,
                }
            },
            BootstrapEvent::Snapshot(Err(message)) => self.fail(BootstrapFailure::Snapshot(message)),
            BootstrapEvent::Snapshot(Ok(())) => self.after_snapshot(),
            BootstrapEvent::VoteAccount(Err(_)) => {
                self.phase = BootstrapPhase::Finished;
                BootstrapAction::Abort
            },
            BootstrapEvent::VoteAccount(Ok(())) => self.finish(),
        }
    }
}

/// A node that could not be used is blacklisted, unless it is a trusted one.
pub proof fn law_failed_nodes_are_blacklisted<M>(
    bootstrap: BootstrapView<M>,
    event: BootstrapEvent<M>,
)
    requires
        bootstrap.wf(),
        bootstrap.expects(event),
        bootstrap.node is Some,
        bootstrap.step(event).0.node is None,
    ensures
        bootstrap.step(event).0.last_failure is Some,
        bootstrap.step(event).0.blacklist.contains(bootstrap.node->Some_0.id@)
            || is_trusted(bootstrap.node->Some_0.id@, bootstrap.trusted_validators),
{
}

/// A trusted node is never blacklisted.
pub proof fn law_trusted_nodes_are_never_blacklisted<M>(
    bootstrap: BootstrapView<M>,
    event: BootstrapEvent<M>,
    id: Seq<u8>,
)
    requires
        bootstrap.wf(),
        bootstrap.expects(event),
        is_trusted(id, bootstrap.trusted_validators),
        !bootstrap.blacklist.contains(id),
    ensures
        !bootstrap.step(event).0.blacklist.contains(id),
{
}

/// An expected genesis hash stays the same from the moment it is known.
pub proof fn law_expected_genesis_hash_is_kept<M>(
    bootstrap: BootstrapView<M>,
    event: BootstrapEvent<M>,
)
    requires
        bootstrap.wf(),
        bootstrap.expects(event),
        bootstrap.expected_genesis_hash is Some,
    ensures
        bootstrap.step(event).0.wf(),
        bootstrap.step(event).0.expected_genesis_hash == bootstrap.expected_genesis_hash,
{
}

/// A snapshot is downloaded only from a node that goes by the expected genesis hash, where
/// there is one: a node with another one fails.
pub proof fn law_snapshot_only_with_expected_genesis<M>(
    bootstrap: BootstrapView<M>,
    actual: crate::hash::Hash,
)
    requires
        bootstrap.wf(),
        bootstrap.phase is GenesisHash,
        bootstrap.expected_genesis_hash != Some(actual),
    ensures
        bootstrap.step(BootstrapEvent::GenesisHash(Ok(actual))).0.node is None,
        bootstrap.step(BootstrapEvent::GenesisHash(Ok(actual))).1 == BootstrapAction::FindNode
            || bootstrap.step(BootstrapEvent::GenesisHash(Ok(actual))).1
            == BootstrapAction::StartGossip,
{
}

/// A root slot is asked for, and thus a snapshot downloaded, with an expected genesis hash
/// only after the node's hash was found to be the same.
pub proof fn law_root_slot_follows_genesis_check<M>(
    bootstrap: BootstrapView<M>,
    event: BootstrapEvent<M>,
)
    requires
        bootstrap.wf(),
        bootstrap.expects(event),
        bootstrap.step(event).1 == BootstrapAction::GetRootSlot,
        bootstrap.step(event).0.expected_genesis_hash is Some,
    ensures
        event == BootstrapEvent::<M>::GenesisHash(
            Ok(bootstrap.step(event).0.expected_genesis_hash->Some_0),
        ),
{
}

/// An event after which nothing stands in the way of a node's search but what the configuration
/// says: the bootstrap starts without a port check, or the ports were found to be reachable.
pub open spec fn lets_begin<M>(no_port_check: bool, event: BootstrapEvent<M>) -> bool {
    match event {
        BootstrapEvent::Started => no_port_check,
        BootstrapEvent::PortsVerified => true,
        _ => false,
    }
}

/// An event that tells that the node cannot be used.
pub open spec fn tells_failure<M>(
    expected_genesis_hash: Option<crate::hash::Hash>,
    event: BootstrapEvent<M>,
) -> bool {
    match event {
        BootstrapEvent::Version(result) => result is Err,
        BootstrapEvent::GenesisHash(Ok(hash)) => expected_genesis_hash != Some(hash),
        BootstrapEvent::GenesisHash(Err(_)) => true,
        BootstrapEvent::RootSlot(result) => result is Err,
        BootstrapEvent::Snapshot(result) => result is Err,
        _ => false,
    }
}

/// An event after which nothing more is to be learnt of the genesis: the node goes by the
/// expected one, or no genesis was had and none is expected.
pub open spec fn settles_genesis<M>(
    expected_genesis_hash: Option<crate::hash::Hash>,
    event: BootstrapEvent<M>,
) -> bool {
    match event {
        BootstrapEvent::Genesis(result) => expected_genesis_hash is None && result is Err,
        BootstrapEvent::GenesisHash(Ok(hash)) => expected_genesis_hash == Some(hash),
        _ => false,
    }
}

/// An event after which nothing more is to be fetched from a node.
pub open spec fn completes_fetch<M>(
    expected_genesis_hash: Option<crate::hash::Hash>,
    node: Option<RpcNode>,
    event: BootstrapEvent<M>,
) -> bool {
    ||| event matches BootstrapEvent::Snapshot(Ok(_))
    ||| settles_genesis(expected_genesis_hash, event) && node->Some_0.snapshot is None
}

/// Unless they are not to be checked the ports are checked first, and nothing else happens. From
/// then on the bootstrap ends at once exactly where neither the genesis nor a snapshot is to be
/// fetched; otherwise gossip is started, or a node looked for where gossip runs.
pub proof fn law_bootstrap_begins_where_anything_is_fetched<M>(
    bootstrap: BootstrapView<M>,
    event: BootstrapEvent<M>,
)
    requires
        event is Started || event is PortsVerified,
    ensures
        ({
            let (after, action) = bootstrap.step(event);
            let begins = lets_begin(bootstrap.no_port_check, event);
            let nothing = bootstrap.config.no_genesis_fetch && bootstrap.config.no_snapshot_fetch;
            &&& action is VerifyPorts <==> event is Started && !bootstrap.no_port_check
            &&& action is Finish <==> begins && nothing
            &&& action is StartGossip <==> begins && !nothing && !bootstrap.gossip_runs
            &&& action is FindNode <==> begins && !nothing && bootstrap.gossip_runs
            &&& action matches BootstrapAction::Finish { stop_gossip } ==> !stop_gossip
            &&& after == (BootstrapView { phase: after.phase, ..bootstrap })
            &&& after.phase == match action {
                BootstrapAction::VerifyPorts => BootstrapPhase::Ports,
                BootstrapAction::Finish { .. } => BootstrapPhase::Finished,
                BootstrapAction::StartGossip => BootstrapPhase::Gossip,
                _ => BootstrapPhase::Node,
            }
        }),
{
}

/// A search with gossip running leads to a node or to the end: with gossip started a node is
/// looked for; a node that is found is asked for its version; and where the search gave up, the
/// bootstrap ends with gossip left to itself.
pub proof fn law_node_is_searched_and_used<M>(
    bootstrap: BootstrapView<M>,
    event: BootstrapEvent<M>,
)
    requires
        event is GossipStarted || event is NodeFound,
    ensures
        ({
            let (after, action) = bootstrap.step(event);
            &&& event is GossipStarted ==> {
                &&& action == BootstrapAction::FindNode
                &&& after == (BootstrapView {
                    gossip_runs: true,
                    phase: BootstrapPhase::Node,
                    ..bootstrap
                })
            }
            &&& event matches BootstrapEvent::NodeFound(found) ==> {
                &&& after.expected_genesis_hash == bootstrap.expected_genesis_hash
                &&& after.blacklist == bootstrap.blacklist
                &&& after.gossip_runs == bootstrap.gossip_runs
                &&& after.last_failure == bootstrap.last_failure
                &&& found is Some ==> action == BootstrapAction::GetVersion && after.phase
                    == BootstrapPhase::Version && after.node == found
                &&& found is None ==> action == (BootstrapAction::Finish { stop_gossip: false })
                    && after.phase == BootstrapPhase::Finished && after.node == bootstrap.node
            }
        }),
{
}

/// The genesis comes after the version and before anything else. It is held against the expected
/// one; the first genesis that is had becomes the expected one; and the node's own is asked for
/// exactly where one is expected then.
pub proof fn law_genesis_is_checked_first<M>(bootstrap: BootstrapView<M>, event: BootstrapEvent<M>)
    requires
        bootstrap.expects(event),
    ensures
        ({
            let (after, action) = bootstrap.step(event);
            let expected = bootstrap.expected_genesis_hash;
            &&& action is FetchGenesis <==> (event matches BootstrapEvent::Version(Ok(_)))
            &&& action matches BootstrapAction::FetchGenesis { expected_genesis_hash }
                ==> expected_genesis_hash == expected && after.phase == BootstrapPhase::Genesis
            &&& action is GetGenesisHash <==> (event matches BootstrapEvent::Genesis(result) && (
            expected is Some || result is Ok))
            &&& action is GetGenesisHash ==> after.phase == BootstrapPhase::GenesisHash
            &&& after.expected_genesis_hash == match event {
                BootstrapEvent::Genesis(Ok(hash)) => if expected is Some {
                    expected
                } else {
                    Some(hash)
                },
                _ => expected,
            }
        }),
{
}

/// With the genesis settled the snapshot comes next, where the node has one: its root slot is
/// asked for, and with the answer gossip ends and that very snapshot is downloaded.
pub proof fn law_snapshot_is_downloaded<M>(bootstrap: BootstrapView<M>, event: BootstrapEvent<M>)
    requires
        bootstrap.wf(),
        bootstrap.expects(event),
    ensures
        ({
            let (after, action) = bootstrap.step(event);
            &&& action is GetRootSlot <==> settles_genesis(bootstrap.expected_genesis_hash, event)
                && bootstrap.node->Some_0.snapshot is Some
            &&& action is GetRootSlot ==> after.phase == BootstrapPhase::RootSlot && after.node
                == bootstrap.node && after.gossip_runs == bootstrap.gossip_runs
            &&& action is DownloadSnapshot <==> (event matches BootstrapEvent::RootSlot(Ok(_)))
            &&& action matches BootstrapAction::DownloadSnapshot(snapshot)
                ==> bootstrap.node->Some_0.snapshot == Some(snapshot) && !after.gossip_runs
                && after.phase == BootstrapPhase::Snapshot && after.node == bootstrap.node
        }),
{
}

/// With all fetched the vote account is checked exactly where the validator votes and the check
/// is not turned off. A vote account that does not fit ends everything, and nothing else does.
pub proof fn law_vote_account_is_checked_last<M>(
    bootstrap: BootstrapView<M>,
    event: BootstrapEvent<M>,
)
    requires
        bootstrap.wf(),
        bootstrap.expects(event),
    ensures
        ({
            let (after, action) = bootstrap.step(event);
            let completes = completes_fetch(
                bootstrap.expected_genesis_hash,
                bootstrap.node,
                event,
            );
            let checks = !bootstrap.voting_disabled && !bootstrap.config.no_check_vote_account;
            &&& action is CheckVoteAccount <==> completes && checks
            &&& action is CheckVoteAccount ==> after.phase == BootstrapPhase::VoteAccount
                && after.gossip_runs == bootstrap.gossip_runs
            &&& action is Abort <==> (event matches BootstrapEvent::VoteAccount(Err(_)))
            &&& action is Abort ==> after.phase == BootstrapPhase::Finished
        }),
{
}

/// The bootstrap ends well exactly where nothing is to be fetched, the search gave up, all is
/// fetched and no vote account is to be checked, or the vote account fits. Where a node was
/// used, gossip that still runs is stopped with it.
pub proof fn law_bootstrap_finishes<M>(bootstrap: BootstrapView<M>, event: BootstrapEvent<M>)
    requires
        bootstrap.wf(),
        bootstrap.expects(event),
    ensures
        ({
            let (after, action) = bootstrap.step(event);
            let config = bootstrap.config;
            let used = (event matches BootstrapEvent::VoteAccount(Ok(_))) || (completes_fetch(
                bootstrap.expected_genesis_hash,
                bootstrap.node,
                event,
            ) && (bootstrap.voting_disabled || config.no_check_vote_account));
            &&& action is Finish <==> used || (event matches BootstrapEvent::NodeFound(None)) || (
            lets_begin(bootstrap.no_port_check, event) && config.no_genesis_fetch
                && config.no_snapshot_fetch)
            &&& action matches BootstrapAction::Finish { stop_gossip } ==> stop_gossip == (used
                && bootstrap.gossip_runs) && after.phase == BootstrapPhase::Finished
            &&& used ==> !after.gossip_runs
        }),
{
}

/// A node that fails is let go of and noted with the reason, and another one is looked for. Of
/// all nodes only that one is given up, and only where no trusted validator is behind it. No
/// other event lets go of a node or gives one up.
pub proof fn law_next_node_after_failure<M>(bootstrap: BootstrapView<M>, event: BootstrapEvent<M>)
    requires
        bootstrap.wf(),
        bootstrap.expects(event),
    ensures
        ({
            let (after, action) = bootstrap.step(event);
            let fails = tells_failure(bootstrap.expected_genesis_hash, event);
            let id = bootstrap.node->Some_0.id@;
            let trusted = bootstrap.trusted_validators matches Some(validators)
                && validators@.contains(id);
            &&& fails ==> {
                &&& after.node is None
                &&& after.gossip_runs == bootstrap.gossip_runs
                &&& action is FindNode <==> bootstrap.gossip_runs
                &&& action is StartGossip <==> !bootstrap.gossip_runs
                &&& after.phase == if bootstrap.gossip_runs {
                    BootstrapPhase::Node
                } else {
                    BootstrapPhase::Gossip
                }
                &&& after.last_failure == Some(
                    match event {
                        BootstrapEvent::Version(Err(message)) => BootstrapFailure::Version(message),
                        BootstrapEvent::GenesisHash(Err(message)) => BootstrapFailure::GenesisHash(
                            message,
                        ),
                        BootstrapEvent::GenesisHash(Ok(actual)) =>
                            BootstrapFailure::GenesisMismatch(
                            GenesisHashMismatch {
                                expected: bootstrap.expected_genesis_hash->Some_0,
                                actual,
                            },
                        ),
                        BootstrapEvent::RootSlot(Err(message)) => BootstrapFailure::RootSlot(
                            message,
                        ),
                        BootstrapEvent::Snapshot(Err(message)) => BootstrapFailure::Snapshot(
                            message,
                        ),
                        _ => bootstrap.last_failure->Some_0,
                    },
                )
            }
            &&& forall|other: Seq<u8>| #[trigger]
                after.blacklist.contains(other) <==> bootstrap.blacklist.contains(other) || (fails
                    && !trusted && other == id)
            &&& !fails ==> {
                &&& after.last_failure == bootstrap.last_failure
                &&& event is NodeFound || after.node == bootstrap.node
            }
            &&& after.config == bootstrap.config
            &&& after.no_port_check == bootstrap.no_port_check
            &&& after.voting_disabled == bootstrap.voting_disabled
            &&& after.trusted_validators == bootstrap.trusted_validators
        }),
{
}

/// A bootstrap without gossip, whether or not the ports are checked, ends before it looks for a
/// node exactly where neither the genesis nor a snapshot is to be fetched, and otherwise starts
/// gossip and then looks for a node.
pub proof fn law_new_bootstrap_starts_gossip<M>(bootstrap: BootstrapView<M>)
    requires
        bootstrap.phase is Start,
        !bootstrap.gossip_runs,
    ensures
        ({
            let started = bootstrap.step(BootstrapEvent::Started);
            let begun = if bootstrap.no_port_check {
                started
            } else {
                started.0.step(BootstrapEvent::PortsVerified)
            };
            let fetches = !bootstrap.config.no_genesis_fetch || !bootstrap.config.no_snapshot_fetch;
            &&& begun.1 == BootstrapAction::StartGossip <==> fetches
            &&& begun.1 == (BootstrapAction::Finish { stop_gossip: false }) <==> !fetches
            &&& fetches ==> begun.0.step(BootstrapEvent::GossipStarted).1
                == BootstrapAction::FindNode
            &&& !bootstrap.no_port_check ==> started.1 == BootstrapAction::VerifyPorts
        }),
{
}

/// After each action its answer is waited for, whatever it is, and nothing else; and after the
/// end nothing is.
pub proof fn law_bootstrap_waits_for_the_answer<M>(
    bootstrap: BootstrapView<M>,
    event: BootstrapEvent<M>,
    answer: BootstrapEvent<M>,
)
    requires
        bootstrap.wf(),
        bootstrap.expects(event),
    ensures
        bootstrap.step(event).0.wf(),
        bootstrap.step(event).0.expects(answer) <==> match bootstrap.step(event).1 {
            BootstrapAction::VerifyPorts => answer is PortsVerified,
            BootstrapAction::StartGossip => answer is GossipStarted,
            BootstrapAction::FindNode => answer is NodeFound,
            BootstrapAction::GetVersion => answer is Version,
            BootstrapAction::FetchGenesis { .. } => answer is Genesis,
            BootstrapAction::GetGenesisHash => answer is GenesisHash,
            BootstrapAction::GetRootSlot => answer is RootSlot,
            BootstrapAction::DownloadSnapshot(_) => answer is Snapshot,
            BootstrapAction::CheckVoteAccount => answer is VoteAccount,
            BootstrapAction::Finish { .. } | BootstrapAction::Abort => false,
        },
{
}

/// Gossip runs from when it was started until a snapshot is downloaded or the bootstrap ends with
/// a node that was used.
pub proof fn law_gossip_runs_while_it_is_needed<M>(
    bootstrap: BootstrapView<M>,
    event: BootstrapEvent<M>,
)
    requires
        bootstrap.wf(),
        bootstrap.expects(event),
    ensures
        ({
            let (after, action) = bootstrap.step(event);
            let ends_use = action is Finish && !(event is NodeFound) && !(event is Started) && !(
            event is PortsVerified);
            after.gossip_runs == if event is GossipStarted {
                true
            } else if action is DownloadSnapshot || ends_use {
                false
            } else {
                bootstrap.gossip_runs
            }
        }),
{
}

} // verus!
