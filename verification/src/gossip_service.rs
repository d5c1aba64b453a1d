//! The `gossip_service` module implements the network control plane.

use vstd::prelude::*;

use crate::net::Address;
use crate::pubkey::Pubkey;
use crate::random::random_below;

verus! {

/// A node of the cluster.
#[derive(Clone, Copy, Debug)]
pub struct ContactInfo {
    pub id: Pubkey,
    pub gossip: Address,
    /// the addresses of the RPC and the transaction service, where clients can use them
    pub client_facing: Option<(Address, Address)>,
}

/// The ids of nodes. Two contact infos with the same id stand for the same node.
pub open spec fn node_ids(nodes: Seq<ContactInfo>) -> Seq<Pubkey> {
    nodes.map_values(|node: ContactInfo| node.id)
}

/// What a spy is to find.
#[derive(Clone, Copy, Debug)]
pub struct SpyCriteria {
    /// number of validators, excludes spy nodes
    pub num_nodes: Option<usize>,
    pub find_node_by_pubkey: Option<Pubkey>,
    pub find_node_by_gossip_addr: Option<Address>,
}

impl SpyCriteria {
    /// Whether one of the peers is the node to find.
    pub open spec fn finds_node(self, all_peers: Seq<ContactInfo>) -> bool {
        ||| self.find_node_by_pubkey matches Some(pubkey) && exists|i: int|
            0 <= i < all_peers.len() && (#[trigger] all_peers[i]).id == pubkey
        ||| self.find_node_by_gossip_addr matches Some(address) && exists|i: int|
            0 <= i < all_peers.len() && (#[trigger] all_peers[i]).gossip == address
    }

    /// Whether there is no particular node to find.
    pub open spec fn finds_any_node(self) -> bool {
        self.find_node_by_pubkey is None && self.find_node_by_gossip_addr is None
    }

    /// Whether what was found is enough: with a number of nodes, as many different validators
    /// and the node to find, if there is one; without, the node to find.
    pub open spec fn met(self, all_peers: Seq<ContactInfo>, tvu_peers: Seq<ContactInfo>) -> bool {
        match self.num_nodes {
            Some(num) => node_ids(tvu_peers).to_set().len() >= num && (self.finds_node(all_peers)
                || self.finds_any_node()),
            None => self.finds_node(all_peers),
        }
    }

    fn find_node(&self, all_peers: &Vec<ContactInfo>) -> (found: bool)
        ensures
            found == self.finds_node(all_peers@),
    {
        let mut i: usize = 0;
        while i < all_peers.len()
            invariant
                i <= all_peers@.len(),
                self.find_node_by_pubkey matches Some(pubkey) ==> forall|j: int|
                    0 <= j < i ==> (#[trigger] all_peers@[j]).id != pubkey,
                self.find_node_by_gossip_addr matches Some(address) ==> forall|j: int|
                    0 <= j < i ==> (#[trigger] all_peers@[j]).gossip != address,
            decreases all_peers@.len() - i,
        {
            match self.find_node_by_pubkey {
                Some(pubkey) => {
                    if all_peers[i].id == pubkey {
                        return true;
                    }
                },
                None => {},
            }
            match self.find_node_by_gossip_addr {
                Some(address) => {
                    if all_peers[i].gossip == address {
                        return true;
                    }
                },
                None => {},
            }
            i += 1;
        }
        false
    }

    /// Whether what was found is enough.
    pub fn is_met(&self, all_peers: &Vec<ContactInfo>, tvu_peers: &Vec<ContactInfo>) -> (met: bool)
        ensures
            met == self.met(all_peers@, tvu_peers@),
    {
        let found_node = self.find_node(all_peers);
        match self.num_nodes {
            Some(num) => {
                if count_distinct(tvu_peers) < num {
                    return false;
                }
                found_node || (self.find_node_by_pubkey.is_none()
                    && self.find_node_by_gossip_addr.is_none())
            },
            None => found_node,
        }
    }
}

/// The number of different nodes.
fn count_distinct(nodes: &Vec<ContactInfo>) -> (count: usize)
    ensures
        count == node_ids(nodes@).to_set().len(),
{
    let ghost ids = node_ids(nodes@);
    let mut count: usize = 0;
    let mut i: usize = 0;
    assert(ids.take(0).to_set() =~= Set::empty());
    while i < nodes.len()
        invariant
            i <= nodes@.len(),
            count <= i,
            ids == node_ids(nodes@),
            count == ids.take(i as int).to_set().len(),
        decreases nodes@.len() - i,
    {
        let ghost front = ids.take(i as int);
        let ghost id = ids[i as int];
        let mut seen = false;
        let mut j: usize = 0;
        while j < i
            invariant
                j <= i < nodes@.len(),
                ids == node_ids(nodes@),
                front == ids.take(i as int),
                id == ids[i as int],
                seen ==> front.to_set().contains(id),
                !seen ==> forall|k: int| 0 <= k < j ==> (#[trigger] front[k]) != id,
            decreases i - j,
        {
            assert(front[j as int] == nodes@[j as int].id);
            if nodes[j].id == nodes[i].id {
                assert(front[j as int] == id);
                seen = true;
            }
            j += 1;
        }
        proof {
            assert(ids.take(i + 1) =~= front.push(id));
            vstd::seq_lib::seq_to_set_is_finite(front);
            assert(front.push(id).to_set() =~= front.to_set().insert(id)) by {
                assert forall|other: Pubkey| front.push(id).to_set().contains(other)
                    == front.to_set().insert(id).contains(other) by {
                    if front.to_set().contains(other) {
                        let k = choose|k: int| 0 <= k < front.len() && front[k] == other;
                        assert(front.push(id)[k] == other);
                    }
                    if other == id {
                        assert(front.push(id)[front.len() as int] == other);
                    }
                    if front.push(id).to_set().contains(other) {
                        let k = choose|k: int|
                            0 <= k < front.push(id).len() && front.push(id)[k] == other;
                        if k < front.len() {
                            assert(front[k] == other);
                        }
                    }
                }
            }
        }
        if !seen {
            count += 1;
        }
        i += 1;
    }
    assert(ids.take(i as int) =~= ids);
    count
}

/// What a spy does next.
#[derive(Clone, Copy, Debug, PartialEq, Eq, Structural)]
pub enum SpyStep {
    /// the criteria are met, or the time is up
    Stop,
    /// look at the peers, and again after a while
    Look,
}

/// Whether a spy that has or has not met its criteria goes on after some milliseconds. The
/// criteria count first, then the time.
pub fn spy_step(met_criteria: bool, timeout_secs: Option<u64>, elapsed_ms: u64) -> (step: SpyStep)
    ensures
        step == SpyStep::Stop <==> met_criteria || (timeout_secs matches Some(secs)
            && elapsed_ms >= secs * 1000),
{
    if met_criteria {
        return SpyStep::Stop;
    }
    match timeout_secs {
        Some(secs) => {
            if elapsed_ms as u128 >= secs as u128 * 1000 {
                return SpyStep::Stop;
            }
        },
        None => {},
    }
    SpyStep::Look
}

/// What a discovery came to.
#[derive(Clone, Copy, Debug, PartialEq, Eq, Structural)]
pub enum Discovery {
    /// the criteria are met
    Success,
    /// the criteria are not met in time, but there are validators
    Partial,
    /// there are no validators
    Failed,
}

/// A discovery that found any validator counts, whether or not it met the criteria.
pub fn discovery(met_criteria: bool, num_validators: usize) -> (outcome: Discovery)
    ensures
        outcome == Discovery::Success <==> met_criteria,
        outcome == Discovery::Partial <==> !met_criteria && num_validators > 0,
        outcome == Discovery::Failed <==> !met_criteria && num_validators == 0,
{
    if met_criteria {
        Discovery::Success
    } else if num_validators > 0 {
        Discovery::Partial
    } else {
        Discovery::Failed
    }
}

/// The addresses of the nodes that clients can use.
pub open spec fn client_addresses(nodes: Seq<ContactInfo>) -> Seq<(Address, Address)>
    decreases nodes.len(),
{
    if nodes.len() == 0 {
        Seq::empty()
    } else {
        let rest = client_addresses(nodes.drop_last());
        match nodes.last().client_facing {
            Some(addresses) => rest.push(addresses),
            None => rest,
        }
    }
}

/// The addresses to create a client for each valid node with.
pub fn get_clients(nodes: &[ContactInfo]) -> (addresses: Vec<(Address, Address)>)
    ensures
        addresses@ == client_addresses(nodes@),
{
    let mut addresses: Vec<(Address, Address)> = Vec::new();
    let mut i: usize = 0;
    assert(nodes@.take(0) =~= Seq::empty());
    while i < nodes.len()
        invariant
            i <= nodes@.len(),
            addresses@ == client_addresses(nodes@.take(i as int)),
        decreases nodes@.len() - i,
    {
        assert(nodes@.take(i + 1).drop_last() =~= nodes@.take(i as int));
        match nodes[i].client_facing {
            Some(client_facing) => {
                addresses.push(client_facing);
            },
            None => {},
        }
        i += 1;
    }
    assert(nodes@.take(i as int) =~= nodes@);
    addresses
}

/// The addresses of one of the valid nodes, by its number among them.
pub fn client_at(nodes: &[ContactInfo], select: usize) -> (addresses: (Address, Address))
    requires
        select < client_addresses(nodes@).len(),
    ensures
        addresses == client_addresses(nodes@)[select as int],
{
    let valid = get_clients(nodes);
    valid[select]
}

/// The addresses of a valid node, chosen at random. There has to be one.
pub fn get_client(nodes: &[ContactInfo]) -> (addresses: (Address, Address))
    requires
        client_addresses(nodes@).len() > 0,
    ensures
        exists|select: usize|
            select < client_addresses(nodes@).len() && addresses
                == #[trigger] client_addresses(nodes@)[select as int],
{
    let select = random_below(get_clients(nodes).len());
    let addresses = client_at(nodes, select);
    assert(addresses == client_addresses(nodes@)[select as int]);
    addresses
}

/// The addresses of all valid nodes: those of the RPC services, and those of the transaction
/// services.
pub fn get_multi_client(nodes: &[ContactInfo]) -> (addresses: (Vec<Address>, Vec<Address>))
    ensures
        addresses.0@ == client_addresses(nodes@).map_values(|pair: (Address, Address)| pair.0),
        addresses.1@ == client_addresses(nodes@).map_values(|pair: (Address, Address)| pair.1),
{
    let valid = get_clients(nodes);
    let mut rpc_addrs: Vec<Address> = Vec::new();
    let mut tpu_addrs: Vec<Address> = Vec::new();
    let mut i: usize = 0;
    while i < valid.len()
        invariant
            i <= valid@.len(),
            rpc_addrs@ == valid@.take(i as int).map_values(|pair: (Address, Address)| pair.0),
            tpu_addrs@ == valid@.take(i as int).map_values(|pair: (Address, Address)| pair.1),
        decreases valid@.len() - i,
    {
        rpc_addrs.push(valid[i].0);
        tpu_addrs.push(valid[i].1);
        i += 1;
        assert(rpc_addrs@ =~= valid@.take(i as int).map_values(
            |pair: (Address, Address)| pair.0,
        ));
        assert(tpu_addrs@ =~= valid@.take(i as int).map_values(
            |pair: (Address, Address)| pair.1,
        ));
    }
    assert(valid@.take(i as int) =~= valid@);
    (rpc_addrs, tpu_addrs)
}

/// More peers do not undo what was found: criteria that are met stay met as peers join.
pub proof fn law_criteria_stay_met(
    criteria: SpyCriteria,
    all_peers: Seq<ContactInfo>,
    tvu_peers: Seq<ContactInfo>,
    more_peers: Seq<ContactInfo>,
    more_tvu_peers: Seq<ContactInfo>,
)
    requires
        criteria.met(all_peers, tvu_peers),
    ensures
        criteria.met(all_peers + more_peers, tvu_peers + more_tvu_peers),
{
    let all = all_peers + more_peers;
    if criteria.finds_node(all_peers) {
        if let Some(pubkey) = criteria.find_node_by_pubkey {
            if exists|i: int| 0 <= i < all_peers.len() && (#[trigger] all_peers[i]).id == pubkey {
                let i = choose|i: int|
                    0 <= i < all_peers.len() && (#[trigger] all_peers[i]).id == pubkey;
                assert(all[i].id == pubkey);
            }
        }
        if let Some(address) = criteria.find_node_by_gossip_addr {
            if exists|i: int|
                0 <= i < all_peers.len() && (#[trigger] all_peers[i]).gossip == address {
                let i = choose|i: int|
                    0 <= i < all_peers.len() && (#[trigger] all_peers[i]).gossip == address;
                assert(all[i].gossip == address);
            }
        }
    }
    let known = node_ids(tvu_peers);
    let validators = node_ids(tvu_peers + more_tvu_peers);
    vstd::seq_lib::seq_to_set_is_finite(validators);
    assert forall|id: Pubkey| known.to_set().contains(id) implies #[trigger] validators.to_set().contains(
        id,
    ) by {
        let i = choose|i: int| 0 <= i < known.len() && known[i] == id;
        assert(validators[i] == id);
    }
    vstd::set_lib::lemma_len_subset(known.to_set(), validators.to_set());
}

/// A node that joins counts exactly where no node with its id is there yet; and of no nodes there
/// are none.
pub proof fn law_nodes_count_once(nodes: Seq<ContactInfo>, node: ContactInfo)
    ensures
        node_ids(Seq::empty()).to_set().len() == 0,
        node_ids(nodes.push(node)).to_set().len() == node_ids(nodes).to_set().len() + if exists|
            i: int,
        |
            0 <= i < nodes.len() && (#[trigger] nodes[i]).id == node.id {
            0nat
        } else {
            1
        },
{
    let ids = node_ids(nodes);
    let more = node_ids(nodes.push(node));
    assert(node_ids(Seq::empty()).to_set() =~= Set::empty());
    assert(more =~= ids.push(node.id));
    vstd::seq_lib::seq_to_set_is_finite(ids);
    assert(more.to_set() =~= ids.to_set().insert(node.id)) by {
        assert forall|id: Pubkey| more.to_set().contains(id) == ids.to_set().insert(
            node.id,
        ).contains(id) by {
            if ids.to_set().contains(id) {
                let k = choose|k: int| 0 <= k < ids.len() && ids[k] == id;
                assert(more[k] == id);
            }
            if id == node.id {
                assert(more[ids.len() as int] == id);
            }
            if more.to_set().contains(id) {
                let k = choose|k: int| 0 <= k < more.len() && more[k] == id;
                if k < ids.len() {
                    assert(ids[k] == id);
                }
            }
        }
    }
    if exists|i: int| 0 <= i < nodes.len() && (#[trigger] nodes[i]).id == node.id {
        let i = choose|i: int| 0 <= i < nodes.len() && (#[trigger] nodes[i]).id == node.id;
        assert(ids[i] == node.id);
        assert(ids.to_set().contains(node.id));
    } else {
        assert(!ids.to_set().contains(node.id)) by {
            if ids.contains(node.id) {
                let k = choose|k: int| 0 <= k < ids.len() && ids[k] == node.id;
                assert(nodes[k].id == node.id);
            }
        }
    }
}

/// A spy has found enough exactly where a peer with the id or at the address that it looks for is
/// there, or it looks for neither but for a number of nodes; and where it looks for a number of
/// nodes, no fewer validators with different ids are there.
pub proof fn law_criteria_are_met(
    criteria: SpyCriteria,
    all_peers: Seq<ContactInfo>,
    tvu_peers: Seq<ContactInfo>,
)
    ensures
        ({
            let id = criteria.find_node_by_pubkey;
            let address = criteria.find_node_by_gossip_addr;
            let ids = tvu_peers.map_values(|node: ContactInfo| node.id);
            let found = exists|i: int|
                0 <= i < all_peers.len() && (id == Some((#[trigger] all_peers[i]).id) || address
                    == Some(all_peers[i].gossip));
            &&& criteria.num_nodes is None ==> (criteria.met(all_peers, tvu_peers) <==> found)
            &&& criteria.num_nodes matches Some(num) ==> (criteria.met(all_peers, tvu_peers)
                <==> ids.to_set().len() >= num && (found || (id is None && address is None)))
        }),
{
    let id = criteria.find_node_by_pubkey;
    let address = criteria.find_node_by_gossip_addr;
    if exists|i: int|
        0 <= i < all_peers.len() && (id == Some((#[trigger] all_peers[i]).id) || address == Some(
            all_peers[i].gossip,
        )) {
        let i = choose|i: int|
            0 <= i < all_peers.len() && (id == Some((#[trigger] all_peers[i]).id) || address
                == Some(all_peers[i].gossip));
        assert(all_peers[i].id == all_peers[i].id);
        assert(criteria.finds_node(all_peers));
    }
    assert(node_ids(tvu_peers) =~= tvu_peers.map_values(|node: ContactInfo| node.id));
}

/// Clients are offered the addresses of each node that they can use, and of no other, in the
/// order of the nodes.
pub proof fn law_clients_use_valid_nodes(
    nodes: Seq<ContactInfo>,
    more: Seq<ContactInfo>,
    node: ContactInfo,
)
    ensures
        client_addresses(Seq::empty()) == Seq::<(Address, Address)>::empty(),
        client_addresses(seq![node]) == match node.client_facing {
            Some(addresses) => seq![addresses],
            None => Seq::empty(),
        },
        client_addresses(nodes + more) == client_addresses(nodes) + client_addresses(more),
    decreases more.len(),
{
    assert(seq![node].drop_last() =~= Seq::empty());
    assert(client_addresses(Seq::empty()) =~= Seq::empty());
    assert(seq![node].last() == node);
    assert(client_addresses(seq![node]) =~= match node.client_facing {
        Some(addresses) => seq![addresses],
        None => Seq::empty(),
    });
    if more.len() == 0 {
        assert(nodes + more =~= nodes);
        assert(client_addresses(nodes) + client_addresses(more) =~= client_addresses(nodes));
    } else {
        law_clients_use_valid_nodes(nodes, more.drop_last(), node);
        assert((nodes + more).drop_last() =~= nodes + more.drop_last());
        assert((nodes + more).last() == more.last());
        assert(client_addresses(nodes + more) =~= client_addresses(nodes) + client_addresses(more));
    }
}

} // verus!
