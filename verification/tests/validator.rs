use solana_validator::net::Address;
use solana_validator::net::AddressV6;
use solana_validator::net::IpAddress;
use solana_validator::pubkey::Pubkey;
use solana_validator::pubkey_set::PubkeySet;
use solana_validator::snapshot_utils::CompressionType;
use solana_validator::validator::genesis::GenesisAction;
use solana_validator::validator::genesis::GenesisEvent;
use solana_validator::validator::genesis::GenesisFetch;
use solana_validator::validator::rpc_bootstrap::check_genesis_hash;
use solana_validator::validator::rpc_bootstrap::BootstrapAction;
use solana_validator::validator::rpc_bootstrap::BootstrapEvent;
use solana_validator::validator::rpc_bootstrap::BootstrapFailure;
use solana_validator::validator::rpc_bootstrap::RpcBootstrap;
use solana_validator::validator::rpc_bootstrap::RpcBootstrapConfig;
use solana_validator::validator::rpc_bootstrap::RpcNode;
use solana_validator::validator::rpc_node::choose_peer;
use solana_validator::validator::rpc_node::peer_at;
use solana_validator::validator::rpc_node::get_trusted_snapshot_hashes;
use solana_validator::validator::rpc_node::is_trusted_validator;
use solana_validator::validator::rpc_node::ClusterSight;
use solana_validator::validator::rpc_node::RetryReason;
use solana_validator::validator::rpc_node::RpcNodeSearch;
use solana_validator::validator::rpc_node::RpcPeer;
use solana_validator::validator::rpc_node::SearchConfig;
use solana_validator::validator::rpc_node::SearchOutcome;
use solana_validator::validator::rpc_node::SnapshotHash;
use solana_validator::validator::settings::advertised_rpc_addresses;
use solana_validator::validator::settings::hash_validator;
use solana_validator::validator::settings::is_snapshot_config_invalid;
use solana_validator::validator::settings::log_file;
use solana_validator::validator::settings::max_ledger_shreds;
use solana_validator::validator::settings::port_range_validator;
use solana_validator::validator::settings::port_validator;
use solana_validator::validator::settings::reachable_udp_sockets;
use solana_validator::validator::settings::rpc_addresses;
use solana_validator::validator::settings::rpc_listeners;
use solana_validator::validator::settings::snapshot_compression;
use solana_validator::validator::settings::snapshot_interval;
use solana_validator::validator::settings::validators_set;
use solana_validator::validator::settings::voting_disabled;
use solana_validator::validator::settings::IntervalError;
use solana_validator::validator::settings::UdpSockets;
use solana_validator::validator::settings::ValidAddresses;
use solana_validator::validator::vote_account::check_vote_account;
use solana_validator::validator::vote_account::check_vote_account_owner;
use solana_validator::validator::vote_account::VoteAccount;
use solana_validator::validator::vote_account::VoteAccountError;
use solana_validator::validator::vote_account::VoteState;

type Digest32 = solana_validator::hash::Hash;

#[test]
fn test_interval_check() {
    assert!(!is_snapshot_config_invalid(0, 100));
    assert!(is_snapshot_config_invalid(1, 100));
    assert!(is_snapshot_config_invalid(230, 100));
    assert!(!is_snapshot_config_invalid(500, 100));
    assert!(!is_snapshot_config_invalid(5, 5));
}

#[test]
fn snapshot_intervals() {
    assert_eq!(snapshot_interval(100, 0), Err(IntervalError::NoHashInterval));
    assert_eq!(snapshot_interval(230, 100), Err(IntervalError::NotAMultiple));
    assert_eq!(snapshot_interval(0, 100), Ok(u64::MAX));
    assert_eq!(snapshot_interval(500, 100), Ok(500));
}

#[test]
fn ports_and_hashes_are_validated() {
    let text = |text: &str| text.to_string();
    assert_eq!(port_validator(text("8001")), Ok(()));
    assert_eq!(
        port_validator(text("65536")),
        Err(text("ParseIntError { kind: PosOverflow }"))
    );
    assert_eq!(
        port_validator(text("x")),
        Err(text("ParseIntError { kind: InvalidDigit }"))
    );
    assert_eq!(port_range_validator(Some((8000, 8010)), 10), Ok(()));
    assert_eq!(
        port_range_validator(Some((8000, 8009)), 10),
        Err(text(
            "Port range is too small.  Try --dynamic-port-range 8000-8010"
        ))
    );
    assert_eq!(
        port_range_validator(None, 10),
        Err(text("Invalid port range"))
    );
    assert_eq!(hash_validator(Digest32::default().to_base58()), Ok(()));
    assert_eq!(hash_validator(text("11")), Err(text("WrongSize")));
    assert_eq!(hash_validator(text("0")), Err(text("Invalid")));
}

#[test]
fn named_settings() {
    assert_eq!(snapshot_compression("bz2"), Some(CompressionType::Bzip2));
    assert_eq!(snapshot_compression("gzip"), Some(CompressionType::Gzip));
    assert_eq!(snapshot_compression("zstd"), Some(CompressionType::Zstd));
    assert_eq!(
        snapshot_compression("none"),
        Some(CompressionType::NoCompression)
    );
    assert_eq!(snapshot_compression("gz"), None);
    assert_eq!(max_ledger_shreds(None, 200, 50), Ok(200));
    assert_eq!(max_ledger_shreds(Some(50), 200, 50), Ok(50));
    assert_eq!(max_ledger_shreds(Some(49), 200, 50), Err(50));
    assert_eq!(
        log_file(None, "me"),
        Some("solana-validator-me.log".to_string())
    );
    assert_eq!(log_file(Some("-".to_string()), "me"), None);
    assert_eq!(
        log_file(Some("x.log".to_string()), "me"),
        Some("x.log".to_string())
    );
    assert!(voting_disabled(true, false, true));
    assert!(voting_disabled(false, true, true));
    assert!(voting_disabled(false, false, false));
    assert!(!voting_disabled(false, false, true));
}

#[test]
fn validator_sets_do_not_hold_the_validator_itself() {
    let me = Pubkey([1; 32]);
    let others = vec![Pubkey([2; 32]), Pubkey([3; 32])];
    let set = validators_set(&me, &others).unwrap();
    assert!(set.contains(&Pubkey([3; 32])));
    assert!(!set.contains(&me));
    assert!(validators_set(&me, &vec![Pubkey([2; 32]), me]).is_none());
}

fn address(ip: u32, port: u16) -> Address {
    Address::new(IpAddress::V4(ip), port)
}

#[test]
fn rpc_services_have_ports_in_a_row() {
    let bound = rpc_addresses(IpAddress::V4(1), 8899);
    assert_eq!(bound.rpc, address(1, 8899));
    assert_eq!(bound.rpc_pubsub, address(1, 8900));
    assert_eq!(bound.rpc_banks, address(1, 8902));

    let gossip = address(7, 8001);
    let advertised = advertised_rpc_addresses(false, None, Some(bound), gossip).unwrap();
    assert_eq!(advertised.rpc, address(7, 8899));
    assert_eq!(advertised.rpc_pubsub, address(7, 8900));
    assert_eq!(advertised.rpc_banks, address(7, 8902));
    let public = address(9, 80);
    let advertised = advertised_rpc_addresses(false, Some(public), Some(bound), gossip).unwrap();
    assert_eq!(advertised.rpc, public);
    assert_eq!(advertised.rpc_pubsub, public);
    assert_eq!(advertised.rpc_banks, public);
    assert!(advertised_rpc_addresses(true, Some(public), Some(bound), gossip).is_none());
    assert!(advertised_rpc_addresses(false, None, None, gossip).is_none());

    assert_eq!(
        rpc_listeners(Some(bound), true, false, true),
        vec![bound.rpc, bound.rpc_banks]
    );
    assert_eq!(rpc_listeners(Some(bound), false, true, false), vec![bound.rpc_pubsub]);
    assert!(rpc_listeners(None, true, true, true).is_empty());
}

#[test]
fn sockets_with_valid_addresses_are_checked() {
    let mut valid = ValidAddresses {
        serve_repair: false,
        tpu: false,
        tpu_forwards: false,
        tvu: false,
        tvu_forwards: false,
    };
    assert_eq!(
        reachable_udp_sockets(&valid),
        vec![UdpSockets::Gossip, UdpSockets::Repair]
    );
    valid.tvu = true;
    valid.serve_repair = true;
    assert_eq!(
        reachable_udp_sockets(&valid),
        vec![
            UdpSockets::Gossip,
            UdpSockets::Repair,
            UdpSockets::ServeRepair,
            UdpSockets::Tvu,
            UdpSockets::Broadcast,
            UdpSockets::Retransmit
        ]
    );
}

fn vote_account() -> VoteAccount {
    VoteAccount {
        owner: Pubkey([8; 32]),
        vote_state: Some(VoteState {
            node_pubkey: Pubkey([1; 32]),
            authorized_voters: vec![Pubkey([2; 32]), Pubkey([3; 32])],
        }),
    }
}

#[test]
fn vote_accounts_are_owned_by_the_vote_program() {
    let program = Pubkey([8; 32]);
    let (account, identity) = (Pubkey::default(), Pubkey::default());
    let zeroes = "11111111111111111111111111111111";
    let fetched: Result<Option<VoteAccount>, String> = Ok(Some(vote_account()));
    assert!(check_vote_account_owner(fetched, &program).is_ok());
    let fetched: Result<Option<VoteAccount>, String> = Err("no route".to_string());
    let error = check_vote_account_owner(fetched, &program).unwrap_err();
    assert_eq!(
        error.message(&account, &identity),
        "failed to fetch vote account: no route"
    );
    let fetched: Result<Option<VoteAccount>, String> = Ok(None);
    let error = check_vote_account_owner(fetched, &program).unwrap_err();
    assert_eq!(
        error.message(&account, &identity),
        format!("vote account does not exist: {}", zeroes)
    );
    let fetched: Result<Option<VoteAccount>, String> = Ok(Some(VoteAccount {
        owner: Pubkey::default(),
        vote_state: None,
    }));
    let error = check_vote_account_owner(fetched, &program).unwrap_err();
    assert_eq!(
        error.message(&account, &identity),
        format!("not a vote account (owned by {}): {}", zeroes, zeroes)
    );
}

fn vote_account_error(
    account: &VoteAccount,
    balance: Result<Option<u64>, String>,
    available: &[Pubkey],
) -> String {
    let identity = Pubkey([1; 32]);
    check_vote_account(account, balance, &identity, available)
        .unwrap_err()
        .message(&Pubkey::default(), &identity)
}

#[test]
fn vote_accounts_have_to_fit() {
    let identity = Pubkey([1; 32]);
    let identity_text = identity.to_base58();
    let voters = [Pubkey([3; 32]), Pubkey([2; 32])];
    let funded: Result<Option<u64>, String> = Ok(Some(2));
    assert!(check_vote_account(&vote_account(), funded.clone(), &identity, &voters).is_ok());

    assert_eq!(
        vote_account_error(&vote_account(), Err("no route".to_string()), &voters),
        "failed to fetch identity account: no route"
    );
    assert_eq!(
        vote_account_error(&vote_account(), Ok(None), &voters),
        format!("identity account does not exist: {}", identity_text)
    );
    assert_eq!(
        vote_account_error(&vote_account(), Ok(Some(1)), &voters),
        format!(
            "underfunded identity account ({}): only 1 lamports available",
            identity_text
        )
    );
    assert_eq!(
        vote_account_error(&vote_account(), funded.clone(), &voters[1..]),
        format!(
            "authorized voter {} not available",
            Pubkey([3; 32]).to_base58()
        )
    );
    let mut account = vote_account();
    account.vote_state.as_mut().unwrap().authorized_voters.clear();
    assert_eq!(
        vote_account_error(&account, funded.clone(), &voters),
        "Vote account not yet initialized"
    );
    let mut account = vote_account();
    account.vote_state.as_mut().unwrap().node_pubkey = Pubkey([5; 32]);
    assert_eq!(
        vote_account_error(&account, funded.clone(), &voters),
        format!(
            "vote account's identity ({}) does not match the validator's identity {}).",
            Pubkey([5; 32]).to_base58(),
            identity_text
        )
    );
    let mut account = vote_account();
    account.vote_state = None;
    assert_eq!(
        vote_account_error(&account, funded, &voters),
        "invalid vote account data for 11111111111111111111111111111111"
    );
    let fetched: Result<Option<u64>, String> = Ok(Some(0));
    assert!(matches!(
        check_vote_account(&vote_account(), fetched, &identity, &voters),
        Err(VoteAccountError::UnderfundedIdentity { lamports: 0 })
    ));
}

fn snapshot(slot: u64, byte: u8) -> SnapshotHash {
    SnapshotHash {
        slot,
        hash: Digest32::new(&[byte; 32]),
    }
}

fn peer(id: u8, snapshots: Vec<SnapshotHash>) -> RpcPeer {
    RpcPeer {
        id: Pubkey([id; 32]),
        shred_version: 5,
        snapshot_hashes: snapshots,
    }
}

fn sight(now_ms: u64, rpc_peers: Vec<RpcPeer>) -> ClusterSight {
    ClusterSight {
        now_ms,
        shred_version: 5,
        entrypoint_shred_version: None,
        rpc_peers,
        trusted_snapshot_hashes: None,
        local_snapshot: None,
    }
}

fn config() -> SearchConfig {
    SearchConfig {
        snapshot_not_required: false,
        no_untrusted_rpc: false,
        trusted_validators: None,
    }
}

fn eligible(outcome: SearchOutcome) -> (Vec<usize>, Option<u64>) {
    match outcome {
        SearchOutcome::Eligible { peers, snapshot } => {
            (peers, snapshot.map(|snapshot| snapshot.slot))
        }
        other => panic!("{:?}", other),
    }
}

#[test]
fn nodes_with_the_highest_snapshot_are_eligible() {
    let mut search = RpcNodeSearch::new(0);
    let mut blacklist = PubkeySet::new();
    let peers = || {
        vec![
            peer(1, vec![snapshot(10, 1)]),
            peer(2, vec![snapshot(20, 2), snapshot(10, 1)]),
            peer(3, vec![snapshot(20, 3)]),
            peer(4, vec![snapshot(20, 2)]),
        ]
    };
    let outcome = search.get_rpc_node(&config(), &sight(1, peers()), &mut blacklist);
    assert_eq!(eligible(outcome), (vec![1, 3], Some(20)));

    // the blacklist and the shred version rule nodes out
    blacklist.insert(&Pubkey([2; 32]));
    let mut seen = sight(2, peers());
    seen.rpc_peers[3].shred_version = 6;
    let outcome = search.get_rpc_node(&config(), &seen, &mut blacklist);
    assert_eq!(eligible(outcome), (vec![2], Some(20)));

    // untrusted snapshots do not count
    let mut seen = sight(3, peers());
    seen.trusted_snapshot_hashes = Some(vec![snapshot(10, 1)]);
    let outcome = search.get_rpc_node(&config(), &seen, &mut PubkeySet::new());
    assert_eq!(eligible(outcome), (vec![0, 1], Some(10)));

    // nor do those of untrusted nodes, where only trusted ones will do
    let trusted = SearchConfig {
        snapshot_not_required: false,
        no_untrusted_rpc: true,
        trusted_validators: Some(PubkeySet::from_keys(&vec![Pubkey([3; 32])])),
    };
    let outcome = search.get_rpc_node(&trusted, &sight(4, peers()), &mut PubkeySet::new());
    assert_eq!(eligible(outcome), (vec![2], Some(20)));

    // without the need for a snapshot any node will do
    let any = SearchConfig {
        snapshot_not_required: true,
        ..config()
    };
    let mut seen = sight(5, peers());
    seen.local_snapshot = Some(snapshot(7, 7));
    let outcome = search.get_rpc_node(&any, &seen, &mut PubkeySet::new());
    assert_eq!(eligible(outcome), (vec![0, 1, 2, 3], Some(7)));
}

#[test]
fn searches_go_on() {
    let mut blacklist = PubkeySet::new();
    let mut search = RpcNodeSearch::new(0);

    let mut seen = sight(0, vec![]);
    seen.shred_version = 0;
    assert!(matches!(
        search.get_rpc_node(&config(), &seen, &mut blacklist),
        SearchOutcome::Retry(RetryReason::WaitForShredVersion)
    ));
    seen.entrypoint_shred_version = Some(0);
    assert!(matches!(
        search.get_rpc_node(&config(), &seen, &mut blacklist),
        SearchOutcome::EntrypointWithoutShredVersion
    ));
    seen.entrypoint_shred_version = Some(5);
    assert!(matches!(
        search.get_rpc_node(&config(), &seen, &mut blacklist),
        SearchOutcome::Retry(RetryReason::WaitForShredVersion)
    ));

    assert!(matches!(
        search.get_rpc_node(&config(), &sight(1, vec![peer(1, vec![])]), &mut blacklist),
        SearchOutcome::Retry(RetryReason::NoSnapshots)
    ));

    blacklist.insert(&Pubkey([1; 32]));
    assert!(matches!(
        search.get_rpc_node(&config(), &sight(61_000, vec![peer(1, vec![])]), &mut blacklist),
        SearchOutcome::Retry(RetryReason::WaitForTrustedPeers)
    ));
    assert!(blacklist.contains(&Pubkey([1; 32])));
    assert!(matches!(
        search.get_rpc_node(&config(), &sight(61_001, vec![peer(1, vec![])]), &mut blacklist),
        SearchOutcome::Retry(RetryReason::BlacklistTimeoutExpired)
    ));
    assert!(!blacklist.contains(&Pubkey([1; 32])));
}

#[test]
fn searches_give_up_on_newer_snapshots() {
    let mut search = RpcNodeSearch::new(0);
    let mut blacklist = PubkeySet::new();
    let at = |now_ms| {
        let mut seen = sight(now_ms, vec![peer(1, vec![snapshot(10, 1)])]);
        seen.local_snapshot = Some(snapshot(30, 3));
        seen
    };
    for now_ms in [1_000, 60_000, 181_999].iter() {
        assert!(matches!(
            search.get_rpc_node(&config(), &at(*now_ms), &mut blacklist),
            SearchOutcome::Retry(RetryReason::WaitForNewerSnapshot(SnapshotHash {
                slot: 30,
                ..
            }))
        ));
    }
    assert!(matches!(
        search.get_rpc_node(&config(), &at(182_000), &mut blacklist),
        SearchOutcome::GiveUp
    ));
}

#[test]
fn trusted_validators() {
    let trusted = Some(PubkeySet::from_keys(&vec![Pubkey([1; 32])]));
    assert!(is_trusted_validator(&Pubkey([1; 32]), &trusted));
    assert!(!is_trusted_validator(&Pubkey([2; 32]), &trusted));
    assert!(!is_trusted_validator(&Pubkey([1; 32]), &None));

    assert!(get_trusted_snapshot_hashes(&None).is_none());
    let hashes = get_trusted_snapshot_hashes(&Some(vec![
        vec![snapshot(1, 1), snapshot(2, 2)],
        vec![],
        vec![snapshot(2, 2)],
    ]))
    .unwrap();
    assert!(hashes.iter().any(|hash| hash.slot == 1));
    assert!(hashes.iter().any(|hash| hash.slot == 2));
    assert!(hashes.iter().all(|hash| hash.slot < 3));
}

#[test]
fn any_eligible_node_is_chosen() {
    let mut chosen = Vec::new();
    for _ in 0..100 {
        let peer = choose_peer(&vec![4, 7]);
        assert!(peer == 4 || peer == 7);
        if !chosen.contains(&peer) {
            chosen.push(peer);
        }
    }
    assert_eq!(chosen.len(), 2);
}

fn bootstrap(expected_genesis_hash: Option<Digest32>) -> RpcBootstrap<String> {
    let mut config = RpcBootstrapConfig::new(10);
    assert!(config.no_genesis_fetch && config.no_snapshot_fetch && config.no_untrusted_rpc);
    assert!(config.no_check_vote_account);
    assert_eq!(config.max_genesis_archive_unpacked_size, 10);
    config.no_genesis_fetch = false;
    config.no_snapshot_fetch = false;
    config.no_check_vote_account = false;
    let trusted = PubkeySet::from_keys(&vec![Pubkey([9; 32])]);
    RpcBootstrap::new(config, false, false, Some(trusted), expected_genesis_hash)
}

fn node(id: u8) -> BootstrapEvent<String> {
    BootstrapEvent::NodeFound(Some(RpcNode {
        id: Pubkey([id; 32]),
        snapshot: Some(snapshot(10, 1)),
    }))
}

/// Goes on up to the moment at which a node was found.
fn with_node(expected_genesis_hash: Option<Digest32>, id: u8) -> RpcBootstrap<String> {
    let mut bootstrap = bootstrap(expected_genesis_hash);
    assert!(matches!(
        bootstrap.step(BootstrapEvent::Started),
        BootstrapAction::VerifyPorts
    ));
    assert!(matches!(
        bootstrap.step(BootstrapEvent::PortsVerified),
        BootstrapAction::StartGossip
    ));
    assert!(matches!(
        bootstrap.step(BootstrapEvent::GossipStarted),
        BootstrapAction::FindNode
    ));
    assert!(matches!(
        bootstrap.step(node(id)),
        BootstrapAction::GetVersion
    ));
    bootstrap
}

#[test]
fn bootstraps_fetch_a_genesis_and_a_snapshot() {
    let genesis_hash = Digest32::new(&[4; 32]);
    let mut bootstrap = with_node(None, 1);
    assert!(matches!(
        bootstrap.step(BootstrapEvent::Version(Ok(()))),
        BootstrapAction::FetchGenesis {
            expected_genesis_hash: None
        }
    ));
    assert!(matches!(
        bootstrap.step(BootstrapEvent::Genesis(Ok(genesis_hash))),
        BootstrapAction::GetGenesisHash
    ));
    assert_eq!(bootstrap.expected_genesis_hash, Some(genesis_hash));
    assert!(matches!(
        bootstrap.step(BootstrapEvent::GenesisHash(Ok(genesis_hash))),
        BootstrapAction::GetRootSlot
    ));
    assert!(matches!(
        bootstrap.step(BootstrapEvent::RootSlot(Ok(12))),
        BootstrapAction::DownloadSnapshot(SnapshotHash { slot: 10, .. })
    ));
    assert!(matches!(
        bootstrap.step(BootstrapEvent::Snapshot(Ok(()))),
        BootstrapAction::CheckVoteAccount
    ));
    assert!(matches!(
        bootstrap.step(BootstrapEvent::VoteAccount(Ok(()))),
        BootstrapAction::Finish { stop_gossip: false }
    ));
}

#[test]
fn bootstraps_without_anything_to_fetch_end_at_once() {
    let config = RpcBootstrapConfig::new(10);
    let mut bootstrap: RpcBootstrap<String> = RpcBootstrap::new(config, true, true, None, None);
    assert!(matches!(
        bootstrap.step(BootstrapEvent::Started),
        BootstrapAction::Finish { stop_gossip: false }
    ));
}

#[test]
fn bootstraps_without_a_snapshot_stop_gossip() {
    let mut bootstrap = bootstrap(None);
    bootstrap.voting_disabled = true;
    bootstrap.step(BootstrapEvent::Started);
    bootstrap.step(BootstrapEvent::PortsVerified);
    bootstrap.step(BootstrapEvent::GossipStarted);
    bootstrap.step(BootstrapEvent::NodeFound(Some(RpcNode {
        id: Pubkey([1; 32]),
        snapshot: None,
    })));
    bootstrap.step(BootstrapEvent::Version(Ok(())));
    assert!(matches!(
        bootstrap.step(BootstrapEvent::Genesis(Err("lost".to_string()))),
        BootstrapAction::Finish { stop_gossip: true }
    ));
}

#[test]
fn bootstraps_end_where_the_search_or_the_vote_account_fails() {
    let mut bootstrap = bootstrap(None);
    bootstrap.step(BootstrapEvent::Started);
    bootstrap.step(BootstrapEvent::PortsVerified);
    bootstrap.step(BootstrapEvent::GossipStarted);
    assert!(matches!(
        bootstrap.step(BootstrapEvent::NodeFound(None)),
        BootstrapAction::Finish { stop_gossip: false }
    ));

    let mut bootstrap = with_node(None, 1);
    bootstrap.step(BootstrapEvent::Version(Ok(())));
    bootstrap.step(BootstrapEvent::Genesis(Err("lost".to_string())));
    bootstrap.step(BootstrapEvent::RootSlot(Ok(12)));
    bootstrap.step(BootstrapEvent::Snapshot(Ok(())));
    assert!(matches!(
        bootstrap.step(BootstrapEvent::VoteAccount(Err("bad".to_string()))),
        BootstrapAction::Abort
    ));
}

fn failure_message(bootstrap: &RpcBootstrap<String>) -> String {
    bootstrap.last_failure.as_ref().unwrap().message()
}

#[test]
fn failed_nodes_are_blacklisted_unless_trusted() {
    let lost = || "lost".to_string();
    let expected = Digest32::new(&[4; 32]);

    let mut bootstrap = with_node(Some(expected), 1);
    assert!(matches!(
        bootstrap.step(BootstrapEvent::Version(Err(lost()))),
        BootstrapAction::FindNode
    ));
    assert!(bootstrap.blacklisted_rpc_nodes.contains(&Pubkey([1; 32])));
    assert_eq!(
        failure_message(&bootstrap),
        "Failed to get RPC node version: lost"
    );

    let mut bootstrap = with_node(Some(expected), 9);
    assert!(matches!(
        bootstrap.step(BootstrapEvent::Version(Err(lost()))),
        BootstrapAction::FindNode
    ));
    assert!(!bootstrap.blacklisted_rpc_nodes.contains(&Pubkey([9; 32])));

    let mut bootstrap = with_node(Some(expected), 1);
    bootstrap.step(BootstrapEvent::Version(Ok(())));
    bootstrap.step(BootstrapEvent::Genesis(Ok(expected)));
    assert!(matches!(
        bootstrap.step(BootstrapEvent::GenesisHash(Ok(Digest32::default()))),
        BootstrapAction::FindNode
    ));
    assert!(matches!(
        bootstrap.last_failure,
        Some(BootstrapFailure::GenesisMismatch(_))
    ));
    assert_eq!(
        failure_message(&bootstrap),
        format!(
            "Genesis hash mismatch: expected {} but RPC node genesis hash is {}",
            expected.to_base58(),
            Digest32::default().to_base58()
        )
    );
    assert_eq!(bootstrap.expected_genesis_hash, Some(expected));

    bootstrap.step(node(2));
    bootstrap.step(BootstrapEvent::Version(Ok(())));
    bootstrap.step(BootstrapEvent::Genesis(Ok(expected)));
    bootstrap.step(BootstrapEvent::GenesisHash(Err(lost())));
    assert_eq!(failure_message(&bootstrap), "Failed to get genesis hash: lost");

    bootstrap.step(node(3));
    bootstrap.step(BootstrapEvent::Version(Ok(())));
    bootstrap.step(BootstrapEvent::Genesis(Ok(expected)));
    bootstrap.step(BootstrapEvent::GenesisHash(Ok(expected)));
    bootstrap.step(BootstrapEvent::RootSlot(Err(lost())));
    assert_eq!(failure_message(&bootstrap), "Failed to get RPC node slot: lost");

    bootstrap.step(node(4));
    bootstrap.step(BootstrapEvent::Version(Ok(())));
    bootstrap.step(BootstrapEvent::Genesis(Ok(expected)));
    bootstrap.step(BootstrapEvent::GenesisHash(Ok(expected)));
    bootstrap.step(BootstrapEvent::RootSlot(Ok(12)));
    // gossip was ended for the download
    assert!(matches!(
        bootstrap.step(BootstrapEvent::Snapshot(Err(lost()))),
        BootstrapAction::StartGossip
    ));
    assert_eq!(failure_message(&bootstrap), "lost");
    for id in 1..5 {
        assert!(bootstrap.blacklisted_rpc_nodes.contains(&Pubkey([id; 32])));
    }
}

#[test]
fn genesis_hashes_are_compared() {
    let hash = Digest32::new(&[4; 32]);
    assert!(check_genesis_hash(hash, None).is_ok());
    assert!(check_genesis_hash(hash, Some(hash)).is_ok());
    let mismatch = check_genesis_hash(hash, Some(Digest32::default())).unwrap_err();
    assert_eq!(
        mismatch.message("downloaded"),
        format!(
            "Genesis hash mismatch: expected {} but downloaded genesis hash is {}",
            Digest32::default().to_base58(),
            hash.to_base58()
        )
    );
}

fn genesis_error(action: GenesisAction<String>) -> String {
    match action {
        GenesisAction::Done(Err(err)) => err.message(),
        _ => panic!("no error"),
    }
}

fn lost<T>() -> Result<T, String> {
    Err("lost".to_string())
}

#[test]
fn genesis_is_downloaded_and_checked() {
    let hash = Digest32::new(&[4; 32]);
    let mut fetch = GenesisFetch::new(false, Some(hash));
    let started: GenesisEvent<String> = GenesisEvent::Started;
    assert!(matches!(fetch.step(started), GenesisAction::Download));
    let downloaded: GenesisEvent<String> = GenesisEvent::Downloaded(true);
    assert!(matches!(fetch.step(downloaded), GenesisAction::Unpack));
    let unpacked = fetch;
    let event: GenesisEvent<String> = GenesisEvent::Unpacked(Ok(()));
    assert!(matches!(fetch.step(event), GenesisAction::Load));
    let loading = fetch;
    let event: GenesisEvent<String> = GenesisEvent::Loaded(Ok(hash));
    assert!(matches!(fetch.step(event), GenesisAction::Rename));
    let renaming = fetch;
    let event: GenesisEvent<String> = GenesisEvent::Renamed(Ok(()));
    match fetch.step(event) {
        GenesisAction::Done(Ok(found)) => assert_eq!(found, hash),
        _ => panic!("no genesis"),
    }

    let mut fetch = unpacked;
    assert_eq!(
        genesis_error(fetch.step(GenesisEvent::Unpacked(lost()))),
        "Failed to unpack downloaded genesis config: lost"
    );
    let mut fetch = loading;
    assert_eq!(
        genesis_error(fetch.step(GenesisEvent::Loaded(lost()))),
        "Failed to load downloaded genesis config: lost"
    );
    let mut fetch = loading;
    assert_eq!(
        genesis_error(fetch.step(GenesisEvent::Loaded(Ok(Digest32::default())))),
        format!(
            "Genesis hash mismatch: expected {} but downloaded genesis hash is {}",
            hash.to_base58(),
            Digest32::default().to_base58()
        )
    );
    let mut fetch = renaming;
    assert_eq!(
        genesis_error(fetch.step(GenesisEvent::Renamed(lost()))),
        "Unable to rename: lost"
    );
}

#[test]
fn local_genesis_is_loaded_and_checked() {
    let hash = Digest32::new(&[4; 32]);
    // nothing is fetched, or nothing could be
    let mut without_fetch = GenesisFetch::new(true, None);
    let started: GenesisEvent<String> = GenesisEvent::Started;
    assert!(matches!(without_fetch.step(started), GenesisAction::Load));
    let mut without_package = GenesisFetch::new(false, None);
    let started: GenesisEvent<String> = GenesisEvent::Started;
    assert!(matches!(without_package.step(started), GenesisAction::Download));
    let downloaded: GenesisEvent<String> = GenesisEvent::Downloaded(false);
    assert!(matches!(without_package.step(downloaded), GenesisAction::Load));
    for fetch in [without_fetch, without_package].iter() {
        let mut loaded = *fetch;
        let event: GenesisEvent<String> = GenesisEvent::Loaded(Ok(hash));
        match loaded.step(event) {
            GenesisAction::Done(Ok(found)) => assert_eq!(found, hash),
            _ => panic!("no genesis"),
        }
        let mut failed = *fetch;
        assert_eq!(
            genesis_error(failed.step(GenesisEvent::Loaded(lost()))),
            "Failed to load genesis config: lost"
        );
    }
}

#[test]
fn reasons_to_go_on_in_words() {
    let text = |reason: RetryReason| reason.message();
    assert_eq!(text(RetryReason::WaitForShredVersion), None);
    assert_eq!(
        text(RetryReason::BlacklistTimeoutExpired),
        Some("Blacklist timeout expired".to_string())
    );
    assert_eq!(
        text(RetryReason::WaitForTrustedPeers),
        Some("Wait for trusted rpc peers".to_string())
    );
    assert_eq!(
        text(RetryReason::NoSnapshots),
        Some("No snapshots available".to_string())
    );
    let newer = RetryReason::WaitForNewerSnapshot(SnapshotHash {
        slot: 30,
        hash: Digest32::default(),
    });
    assert_eq!(
        text(newer),
        Some(
            "Wait for newer snapshot than local: (30, 11111111111111111111111111111111)"
                .to_string()
        )
    );
}

#[test]
fn peers_are_taken_by_number() {
    let eligible = vec![4, 7, 2];
    assert_eq!(peer_at(&eligible, 0), 4);
    assert_eq!(peer_at(&eligible, 1), 7);
    assert_eq!(peer_at(&eligible, 2), 2);
}

#[test]
fn advertised_addresses_have_no_scope() {
    let gossip = Address::V6(AddressV6 {
        ip: 7,
        port: 8001,
        flowinfo: 3,
        scope_id: 5,
    });
    let bound = rpc_addresses(IpAddress::V4(1), 8899);
    let advertised = advertised_rpc_addresses(false, None, Some(bound), gossip).unwrap();
    assert_eq!(advertised.rpc, Address::new(IpAddress::V6(7), 8899));
}
