use solana_validator::gossip_service::client_at;
use solana_validator::gossip_service::discovery;
use solana_validator::gossip_service::get_client;
use solana_validator::gossip_service::get_clients;
use solana_validator::gossip_service::get_multi_client;
use solana_validator::gossip_service::spy_step;
use solana_validator::gossip_service::ContactInfo;
use solana_validator::gossip_service::Discovery;
use solana_validator::gossip_service::SpyCriteria;
use solana_validator::gossip_service::SpyStep;
use solana_validator::net::Address;
use solana_validator::net::AddressV6;
use solana_validator::net::IpAddress;
use solana_validator::pubkey::Pubkey;
use solana_validator::signature::Keypair;
use solana_validator::signature::Signer;

const GOSSIP_SLEEP_MILLIS: u64 = 100;

fn localhost(port: u16) -> Address {
    Address::new(IpAddress::V4(0x7f00_0001), port)
}

fn contact_info(id: &Pubkey, port: u16) -> ContactInfo {
    ContactInfo {
        id: *id,
        gossip: localhost(port),
        client_facing: Some((localhost(port + 1), localhost(port + 2))),
    }
}

fn new_rand() -> Pubkey {
    Keypair::new().pubkey()
}

struct Cluster {
    all_peers: Vec<ContactInfo>,
    tvu_peers: Vec<ContactInfo>,
}

/// Looks at the cluster until the criteria are met or the time, which each look takes some of,
/// is up.
fn spy(
    cluster: &Cluster,
    num_nodes: Option<usize>,
    timeout: Option<u64>,
    find_node_by_pubkey: Option<Pubkey>,
    find_node_by_gossip_addr: Option<&Address>,
) -> (bool, u64, Vec<ContactInfo>, Vec<ContactInfo>) {
    let criteria = SpyCriteria {
        num_nodes,
        find_node_by_pubkey,
        find_node_by_gossip_addr: find_node_by_gossip_addr.cloned(),
    };
    let mut elapsed_ms = 0;
    let mut met_criteria = false;
    let mut all_peers = Vec::new();
    let mut tvu_peers = Vec::new();
    while spy_step(met_criteria, timeout, elapsed_ms) == SpyStep::Look {
        all_peers = cluster.all_peers.clone();
        tvu_peers = cluster.tvu_peers.clone();
        met_criteria = criteria.is_met(&all_peers, &tvu_peers);
        elapsed_ms += GOSSIP_SLEEP_MILLIS;
    }
    (met_criteria, elapsed_ms / 1000, all_peers, tvu_peers)
}

fn ids(nodes: &[ContactInfo]) -> Vec<Pubkey> {
    nodes.iter().map(|node| node.id).collect()
}

#[test]
fn test_gossip_services_spy() {
    let keypair = Keypair::new();
    let peer0 = new_rand();
    let peer1 = new_rand();
    let own_info = contact_info(&keypair.pubkey(), 8000);
    let peer0_info = contact_info(&peer0, 8010);
    let peer1_info = contact_info(&peer1, 8020);
    let spy_ref = Cluster {
        all_peers: vec![own_info, peer0_info, peer1_info],
        tvu_peers: vec![peer0_info, peer1_info],
    };

    let (met_criteria, secs, _, tvu_peers) = spy(&spy_ref, None, Some(1), None, None);
    assert_eq!(met_criteria, false);
    assert_eq!(secs, 1);
    assert_eq!(ids(&tvu_peers), ids(&spy_ref.tvu_peers));

    // Find num_nodes
    let (met_criteria, _, _, _) = spy(&spy_ref, Some(1), None, None, None);
    assert_eq!(met_criteria, true);
    let (met_criteria, _, _, _) = spy(&spy_ref, Some(2), None, None, None);
    assert_eq!(met_criteria, true);

    // Find specific node by pubkey
    let (met_criteria, _, _, _) = spy(&spy_ref, None, None, Some(peer0), None);
    assert_eq!(met_criteria, true);
    let (met_criteria, _, _, _) = spy(&spy_ref, None, Some(0), Some(new_rand()), None);
    assert_eq!(met_criteria, false);

    // Find num_nodes *and* specific node by pubkey
    let (met_criteria, _, _, _) = spy(&spy_ref, Some(1), None, Some(peer0), None);
    assert_eq!(met_criteria, true);
    let (met_criteria, _, _, _) = spy(&spy_ref, Some(3), Some(0), Some(peer0), None);
    assert_eq!(met_criteria, false);
    let (met_criteria, _, _, _) = spy(&spy_ref, Some(1), Some(0), Some(new_rand()), None);
    assert_eq!(met_criteria, false);

    // Find specific node by gossip address
    let (met_criteria, _, _, _) = spy(&spy_ref, None, None, None, Some(&peer0_info.gossip));
    assert_eq!(met_criteria, true);

    let (met_criteria, _, _, _) = spy(
        &spy_ref,
        None,
        Some(0),
        None,
        Some(&Address::new(IpAddress::V4(0x0101_0101), 1234)),
    );
    assert_eq!(met_criteria, false);
}

#[test]
fn criteria_count_different_nodes() {
    let peer = contact_info(&Pubkey([1; 32]), 8000);
    let moved = contact_info(&Pubkey([1; 32]), 9000);
    let other = contact_info(&Pubkey([2; 32]), 8000);
    let criteria = |num_nodes, key| SpyCriteria {
        num_nodes,
        find_node_by_pubkey: key,
        find_node_by_gossip_addr: None,
    };
    let peers = vec![peer, moved, peer];
    assert!(criteria(Some(1), None).is_met(&peers, &peers));
    assert!(!criteria(Some(2), None).is_met(&peers, &peers));
    let peers = vec![peer, moved, peer, other];
    assert!(criteria(Some(2), None).is_met(&peers, &peers));
    assert!(criteria(Some(0), None).is_met(&vec![], &vec![]));
    assert!(!criteria(None, None).is_met(&peers, &peers));
    // enough validators do not stand in for the node to find
    assert!(!criteria(Some(2), Some(Pubkey([3; 32]))).is_met(&peers, &peers));
    assert!(!criteria(Some(3), Some(Pubkey([2; 32]))).is_met(&peers, &peers));
    assert!(criteria(Some(2), Some(Pubkey([2; 32]))).is_met(&peers, &peers));
    // criteria that are met stay met as peers join
    let more = vec![peer, moved, peer, other, contact_info(&Pubkey([4; 32]), 1)];
    assert!(criteria(Some(2), Some(Pubkey([2; 32]))).is_met(&more, &more));
}

#[test]
fn spies_stop_in_time() {
    assert_eq!(spy_step(true, None, 0), SpyStep::Stop);
    assert_eq!(spy_step(false, None, u64::MAX), SpyStep::Look);
    assert_eq!(spy_step(false, Some(30), 29_999), SpyStep::Look);
    assert_eq!(spy_step(false, Some(30), 30_000), SpyStep::Stop);
    assert_eq!(spy_step(false, Some(0), 0), SpyStep::Stop);
    assert_eq!(spy_step(false, Some(u64::MAX), u64::MAX), SpyStep::Look);
}

#[test]
fn discovery_counts_with_any_validator() {
    assert_eq!(discovery(true, 0), Discovery::Success);
    assert_eq!(discovery(false, 2), Discovery::Partial);
    assert_eq!(discovery(false, 0), Discovery::Failed);
}

#[test]
fn clients_of_valid_nodes() {
    let valid = contact_info(&Pubkey([1; 32]), 8000);
    let mut hidden = contact_info(&Pubkey([2; 32]), 8010);
    hidden.client_facing = None;
    let second = contact_info(&Pubkey([3; 32]), 8020);
    let nodes = [valid, hidden, second];
    assert_eq!(
        get_clients(&nodes),
        vec![
            (localhost(8001), localhost(8002)),
            (localhost(8021), localhost(8022))
        ]
    );
    assert_eq!(
        get_multi_client(&nodes),
        (
            vec![localhost(8001), localhost(8021)],
            vec![localhost(8002), localhost(8022)]
        )
    );
    let mut chosen = Vec::new();
    for _ in 0..100 {
        let client = get_client(&nodes);
        assert!(get_clients(&nodes).contains(&client));
        if !chosen.contains(&client) {
            chosen.push(client);
        }
    }
    assert_eq!(chosen.len(), 2);
    for select in 0..2 {
        assert_eq!(client_at(&nodes, select), get_clients(&nodes)[select]);
    }
    assert!(client_at(&nodes, 0) != client_at(&nodes, 1));
    assert!(get_clients(&[hidden]).is_empty());
    assert_eq!(Address::unspecified(), Address::new(IpAddress::V4(0), 0));
}

#[test]
fn addresses_differ_by_flow_and_scope() {
    let plain = Address::new(IpAddress::V6(1), 8001);
    let of = |flowinfo, scope_id| {
        Address::V6(AddressV6 {
            ip: 1,
            port: 8001,
            flowinfo,
            scope_id,
        })
    };
    assert_eq!(plain, of(0, 0));
    for other in [of(1, 0), of(0, 1)].iter() {
        assert!(plain != *other);
        assert_eq!(other.ip(), IpAddress::V6(1));
        assert_eq!(other.port(), 8001);
        let id = new_rand();
        let mut node = contact_info(&id, 8001);
        node.gossip = *other;
        let criteria = SpyCriteria {
            num_nodes: None,
            find_node_by_pubkey: None,
            find_node_by_gossip_addr: Some(plain),
        };
        assert!(!criteria.is_met(&vec![node], &vec![]));
        node.gossip = plain;
        assert!(criteria.is_met(&vec![node], &vec![]));
    }
}
