//! Settings of a validator.

use vstd::prelude::*;

use crate::hash::parse_hash;
use crate::hash::ParseHashError;
use crate::net::Address;
use crate::net::IpAddress;
use crate::pubkey::Pubkey;
use crate::pubkey_set::PubkeySet;
use crate::snapshot_utils::CompressionType;
use crate::text::decimal;
use crate::text::decimal_text;
use crate::text::parse_number;
use crate::text::parse_unsigned;
use crate::text::same_text;

verus! {

/// A port is a number that fits in 16 bits.
pub fn port_validator(port: String) -> (result: Result<(), String>)
    ensures
        match parse_number(port@, u16::MAX as nat) {
            Ok(_) => result is Ok,
            Err(err) => result matches Err(message) && message@ == err.spec_message(),
        },
{
    match parse_unsigned(port.as_str(), u16::MAX as u64) {
        Ok(_) => Ok(()),
        Err(err) => Err(err.message().to_owned()),
    }
}

/// What is reported of a range of ports that is too small.
pub open spec fn too_small_message(start: u16, width: u16) -> Seq<char> {
    "Port range is too small.  Try --dynamic-port-range "@ + decimal(start as nat) + "-"@ + decimal(
        (start + width) as nat,
    )
}

/// A range of ports, if it could be read, has to have a minimum width.
pub fn port_range_validator(port_range: Option<(u16, u16)>, minimum_width: u16) -> (result: Result<
    (),
    String,
>)
    requires
        port_range matches Some((start, end)) ==> start <= end && (end - start < minimum_width
            ==> start + minimum_width <= u16::MAX),
    ensures
        match port_range {
            None => result matches Err(message) && message@ == "Invalid port range"@,
            Some((start, end)) => if end - start < minimum_width {
                result matches Err(message) && message@ == too_small_message(start, minimum_width)
            } else {
                result is Ok
            },
        },
{
    match port_range {
        Some((start, end)) => {
            if end - start < minimum_width {
                let mut message =
                    "Port range is too small.  Try --dynamic-port-range ".to_owned();
                message.append(decimal_text(start as u64).as_str());
                message.append("-");
                message.append(decimal_text((start + minimum_width) as u64).as_str());
                Err(message)
            } else {
                Ok(())
            }
        },
        None => Err("Invalid port range".to_owned()),
    }
}

/// A hash is given as the base58 text of 32 bytes.
pub fn hash_validator(hash: String) -> (result: Result<(), String>)
    ensures
        match parse_hash(hash@) {
            Ok(_) => result is Ok,
            Err(ParseHashError::WrongSize) => result matches Err(message) && message@
                == "WrongSize"@,
            Err(ParseHashError::Invalid) => result matches Err(message) && message@ == "Invalid"@,
        },
{
    match crate::hash::Hash::parse(hash.as_str()) {
        Ok(_) => Ok(()),
        Err(ParseHashError::WrongSize) => Err("WrongSize".to_owned()),
        Err(ParseHashError::Invalid) => Err("Invalid".to_owned()),
    }
}

/// Snapshots, unless there are none, have to be taken at slots at which accounts are hashed.
pub fn is_snapshot_config_invalid(
    snapshot_interval_slots: u64,
    accounts_hash_interval_slots: u64,
) -> (invalid: bool)
    requires
        accounts_hash_interval_slots > 0 || snapshot_interval_slots == 0,
    ensures
        invalid == (snapshot_interval_slots != 0 && (snapshot_interval_slots
            < accounts_hash_interval_slots || snapshot_interval_slots % accounts_hash_interval_slots
            != 0)),
{
    snapshot_interval_slots != 0 && (snapshot_interval_slots < accounts_hash_interval_slots
        || snapshot_interval_slots % accounts_hash_interval_slots != 0)
}

/// A snapshot interval is valid exactly where it is a multiple of the hash interval, zero
/// among the multiples.
pub proof fn law_valid_intervals_are_multiples(snapshot_interval: u64, hash_interval: u64)
    requires
        hash_interval > 0,
    ensures
        !(snapshot_interval != 0 && (snapshot_interval < hash_interval || snapshot_interval
            % hash_interval != 0)) <==> snapshot_interval % hash_interval == 0,
{
    if 0 < snapshot_interval < hash_interval {
        vstd::arithmetic::div_mod::lemma_small_mod(
            snapshot_interval as nat,
            hash_interval as nat,
        );
    }
    if snapshot_interval == 0 {
        vstd::arithmetic::div_mod::lemma_small_mod(0, hash_interval as nat);
    }
}

/// Why snapshots cannot be taken as asked for.
#[derive(Clone, Copy, Debug, PartialEq, Eq, Structural)]
pub enum IntervalError {
    /// accounts hash interval should not be 0
    NoHashInterval,
    /// the snapshot interval is not a multiple of the hash interval
    NotAMultiple,
}

/// The slots between snapshots, given how they were asked for; without snapshots there is no
/// end to wait for.
pub fn snapshot_interval(
    snapshot_interval_slots: u64,
    accounts_hash_interval_slots: u64,
) -> (interval: Result<u64, IntervalError>)
    ensures
        interval == (if accounts_hash_interval_slots == 0 {
            Err(IntervalError::NoHashInterval)
        } else if snapshot_interval_slots % accounts_hash_interval_slots != 0 {
            Err(IntervalError::NotAMultiple)
        } else if snapshot_interval_slots == 0 {
            Ok(u64::MAX)
        } else {
            Ok(snapshot_interval_slots)
        }),
{
    if accounts_hash_interval_slots == 0 {
        return Err(IntervalError::NoHashInterval);
    }
    proof {
        law_valid_intervals_are_multiples(snapshot_interval_slots, accounts_hash_interval_slots);
    }
    if is_snapshot_config_invalid(snapshot_interval_slots, accounts_hash_interval_slots) {
        return Err(IntervalError::NotAMultiple);
    }
    if snapshot_interval_slots > 0 {
        Ok(snapshot_interval_slots)
    } else {
        Ok(u64::MAX)
    }
}

/// The compression that is asked for by name.
pub fn snapshot_compression(name: &str) -> (compression: Option<CompressionType>)
    ensures
        compression == (if name@ == "bz2"@ {
            Some(CompressionType::Bzip2)
        } else if name@ == "gzip"@ {
            Some(CompressionType::Gzip)
        } else if name@ == "zstd"@ {
            Some(CompressionType::Zstd)
        } else if name@ == "none"@ {
            Some(CompressionType::NoCompression)
        } else {
            None
        }),
{
    if same_text(name, "bz2") {
        Some(CompressionType::Bzip2)
    } else if same_text(name, "gzip") {
        Some(CompressionType::Gzip)
    } else if same_text(name, "zstd") {
        Some(CompressionType::Zstd)
    } else if same_text(name, "none") {
        Some(CompressionType::NoCompression)
    } else {
        None
    }
}

/// The number of shreds to keep, where the ledger's size is limited: the given one or else the
/// default, which must not be smaller than the minimum.
pub fn max_ledger_shreds(given: Option<u64>, default_max: u64, minimum: u64) -> (limit: Result<
    u64,
    u64,
>)
    ensures
        ({
            let wanted = match given {
                Some(given) => given,
                None => default_max,
            };
            limit == (if wanted < minimum {
                Err(minimum)
            } else {
                Ok(wanted)
            })
        }),
{
    let wanted: u64 = match given {
        Some(given) => given,
        None => default_max,
    };
    if wanted < minimum {
        return Err(minimum);
    }
    Ok(wanted)
}

/// A set of validators must not hold the validator itself.
pub fn validators_set(identity_pubkey: &Pubkey, validators: &Vec<Pubkey>) -> (set: Option<PubkeySet>)
    ensures
        set is None <==> exists|i: int|
            0 <= i < validators@.len() && (#[trigger] validators@[i])@ == identity_pubkey@,
        set matches Some(set) ==> forall|bytes: Seq<u8>| #[trigger]
            set@.contains(bytes) <==> exists|i: int|
                0 <= i < validators@.len() && (#[trigger] validators@[i])@ == bytes,
{
    let set = PubkeySet::from_keys(validators);
    if set.contains(identity_pubkey) {
        None
    } else {
        Some(set)
    }
}

/// Addresses of the RPC services of a node.
#[derive(Clone, Copy, Debug, PartialEq, Eq, Structural)]
pub struct RpcAddresses {
    pub rpc: Address,
    pub rpc_pubsub: Address,
    pub rpc_banks: Address,
}

/// The RPC services take ports from a given one on. The one after the next is skipped to avoid
/// a conflict with the port that clients take for websockets.
pub fn rpc_addresses(rpc_bind_address: IpAddress, rpc_port: u16) -> (addresses: RpcAddresses)
    requires
        rpc_port + 3 <= u16::MAX,
    ensures
        addresses == (RpcAddresses {
            rpc: Address::new(rpc_bind_address, rpc_port),
            rpc_pubsub: Address::new(rpc_bind_address, (rpc_port + 1) as u16),
            rpc_banks: Address::new(rpc_bind_address, (rpc_port + 3) as u16),
        }),
{
    RpcAddresses {
        rpc: Address::new(rpc_bind_address, rpc_port),
        rpc_pubsub: Address::new(rpc_bind_address, rpc_port + 1),
        rpc_banks: Address::new(rpc_bind_address, rpc_port + 3),
    }
}

/// The RPC addresses that a node makes known, unless its RPC services are private: a public
/// address for all of them where there is one, or else the ports of the services at the
/// address of gossip.
pub fn advertised_rpc_addresses(
    private_rpc: bool,
    public_rpc_addr: Option<Address>,
    bound: Option<RpcAddresses>,
    gossip: Address,
) -> (advertised: Option<RpcAddresses>)
    ensures
        advertised == (if private_rpc {
            None
        } else {
            match (public_rpc_addr, bound) {
                (Some(address), _) => Some(
                    RpcAddresses { rpc: address, rpc_pubsub: address, rpc_banks: address },
                ),
                (None, Some(bound)) => Some(
                    RpcAddresses {
                        rpc: Address::new(gossip.ip(), bound.rpc.port()),
                        rpc_pubsub: Address::new(gossip.ip(), bound.rpc_pubsub.port()),
                        rpc_banks: Address::new(gossip.ip(), bound.rpc_banks.port()),
                    },
                ),
                (None, None) => None,
            }
        }),
{
    if private_rpc {
        return None;
    }
    match (public_rpc_addr, bound) {
        (Some(address), _) => Some(
            RpcAddresses { rpc: address, rpc_pubsub: address, rpc_banks: address },
        ),
        (None, Some(bound)) => Some(
            RpcAddresses {
                rpc: Address::new(gossip.ip(), bound.rpc.port()),
                rpc_pubsub: Address::new(gossip.ip(), bound.rpc_pubsub.port()),
                rpc_banks: Address::new(gossip.ip(), bound.rpc_banks.port()),
            },
        ),
        (None, None) => None,
    }
}

/// Whether voting is disabled: on request, for a node that only repairs, and without a vote
/// account.
pub fn voting_disabled(
    no_voting: bool,
    restricted_repair_only_mode: bool,
    has_vote_account: bool,
) -> (disabled: bool)
    ensures
        disabled == (no_voting || restricted_repair_only_mode || !has_vote_account),
{
    no_voting || restricted_repair_only_mode || !has_vote_account
}

/// The file to log to, of which a hyphen stands for none.
pub fn log_file(given: Option<String>, identity: &str) -> (file: Option<String>)
    ensures
        match given {
            Some(given) => if given@ == "-"@ {
                file is None
            } else {
                file matches Some(file) && file@ == given@
            },
            None => file matches Some(file) && file@ == "solana-validator-"@ + identity@ + ".log"@,
        },
{
    match given {
        Some(given) => {
            if same_text(given.as_str(), "-") {
                None
            } else {
                Some(given)
            }
        },
        None => {
            let name = "solana-validator-".to_owned().concat(identity).concat(".log");
            Some(name)
        },
    }
}

/// Which services of a node have valid addresses.
#[derive(Clone, Copy, Debug, PartialEq, Eq, Structural)]
pub struct ValidAddresses {
    pub serve_repair: bool,
    pub tpu: bool,
    pub tpu_forwards: bool,
    pub tvu: bool,
    pub tvu_forwards: bool,
}

/// Sockets of a node.
#[derive(Clone, Copy, Debug, PartialEq, Eq, Structural)]
pub enum UdpSockets {
    Gossip,
    Repair,
    ServeRepair,
    Tpu,
    TpuForwards,
    Tvu,
    Broadcast,
    Retransmit,
    TvuForwards,
}

/// Whether sockets have to be reachable: those of gossip and repair always, others where the
/// service that they belong to has a valid address.
pub open spec fn must_be_reachable(sockets: UdpSockets, valid: ValidAddresses) -> bool {
    match sockets {
        UdpSockets::Gossip | UdpSockets::Repair => true,
        UdpSockets::ServeRepair => valid.serve_repair,
        UdpSockets::Tpu => valid.tpu,
        UdpSockets::TpuForwards => valid.tpu_forwards,
        UdpSockets::Tvu | UdpSockets::Broadcast | UdpSockets::Retransmit => valid.tvu,
        UdpSockets::TvuForwards => valid.tvu_forwards,
    }
}

/// All sockets, in the order in which they are checked.
pub open spec fn all_udp_sockets() -> Seq<UdpSockets> {
    seq![
        UdpSockets::Gossip,
        UdpSockets::Repair,
        UdpSockets::ServeRepair,
        UdpSockets::Tpu,
        UdpSockets::TpuForwards,
        UdpSockets::Tvu,
        UdpSockets::Broadcast,
        UdpSockets::Retransmit,
        UdpSockets::TvuForwards,
    ]
}

fn is_checked(sockets: UdpSockets, valid: &ValidAddresses) -> (checked: bool)
    ensures
        checked == must_be_reachable(sockets, *valid),
{
    match sockets {
        UdpSockets::Gossip | UdpSockets::Repair => true,
        UdpSockets::ServeRepair => valid.serve_repair,
        UdpSockets::Tpu => valid.tpu,
        UdpSockets::TpuForwards => valid.tpu_forwards,
        UdpSockets::Tvu | UdpSockets::Broadcast | UdpSockets::Retransmit => valid.tvu,
        UdpSockets::TvuForwards => valid.tvu_forwards,
    }
}

/// The sockets that have to be reachable from the entrypoint.
pub fn reachable_udp_sockets(valid: &ValidAddresses) -> (checked: Vec<UdpSockets>)
    ensures
        checked@ == all_udp_sockets().filter(
            |sockets: UdpSockets| must_be_reachable(sockets, *valid),
        ),
{
    let all: [UdpSockets; 9] = [
        UdpSockets::Gossip,
        UdpSockets::Repair,
        UdpSockets::ServeRepair,
        UdpSockets::Tpu,
        UdpSockets::TpuForwards,
        UdpSockets::Tvu,
        UdpSockets::Broadcast,
        UdpSockets::Retransmit,
        UdpSockets::TvuForwards,
    ];
    assert(all@ =~= all_udp_sockets());
    let ghost condition = |sockets: UdpSockets| must_be_reachable(sockets, *valid);
    let mut checked: Vec<UdpSockets> = Vec::new();
    let mut i: usize = 0;
    assert(all@.take(0).filter(condition) =~= Seq::empty()) by {
        reveal(Seq::filter);
    }
    while i < 9
        invariant
            i <= 9,
            condition == (|sockets: UdpSockets| must_be_reachable(sockets, *valid)),
            checked@ == all@.take(i as int).filter(condition),
        decreases 9 - i,
    {
        proof {
            reveal(Seq::filter);
            assert(all@.take(i + 1).drop_last() =~= all@.take(i as int));
        }
        if is_checked(all[i], valid) {
            checked.push(all[i]);
        }
        i += 1;
    }
    assert(all@.take(9) =~= all@);
    checked
}

/// The RPC services to listen for, where a node has RPC services: those with a valid public
/// address.
pub fn rpc_listeners(
    bound: Option<RpcAddresses>,
    rpc_is_public: bool,
    pubsub_is_public: bool,
    banks_is_public: bool,
) -> (listeners: Vec<Address>)
    ensures
        match bound {
            None => listeners@.len() == 0,
            Some(bound) => listeners@ == (if rpc_is_public {
                seq![bound.rpc]
            } else {
                Seq::empty()
            }) + (if pubsub_is_public {
                seq![bound.rpc_pubsub]
            } else {
                Seq::empty()
            }) + (if banks_is_public {
                seq![bound.rpc_banks]
            } else {
                Seq::empty()
            }),
        },
{
    let mut listeners: Vec<Address> = Vec::new();
    match bound {
        Some(bound) => {
            if rpc_is_public {
                listeners.push(bound.rpc);
            }
            if pubsub_is_public {
                listeners.push(bound.rpc_pubsub);
            }
            if banks_is_public {
                listeners.push(bound.rpc_banks);
            }
        },
        None => {},
    }
    listeners
}

/// Which sockets have to be reachable: those of gossip and repair in any case, and each of the
/// others exactly where its service has a valid address, with those that broadcast and retransmit
/// going by the service that takes in shreds. None is checked twice.
pub proof fn law_sockets_of_valid_services_are_checked(valid: ValidAddresses)
    ensures
        ({
            let checked = all_udp_sockets().filter(
                |sockets: UdpSockets| must_be_reachable(sockets, valid),
            );
            &&& checked.contains(UdpSockets::Gossip)
            &&& checked.contains(UdpSockets::Repair)
            &&& checked.contains(UdpSockets::ServeRepair) <==> valid.serve_repair
            &&& checked.contains(UdpSockets::Tpu) <==> valid.tpu
            &&& checked.contains(UdpSockets::TpuForwards) <==> valid.tpu_forwards
            &&& checked.contains(UdpSockets::Tvu) <==> valid.tvu
            &&& checked.contains(UdpSockets::Broadcast) <==> valid.tvu
            &&& checked.contains(UdpSockets::Retransmit) <==> valid.tvu
            &&& checked.contains(UdpSockets::TvuForwards) <==> valid.tvu_forwards
            &&& checked.len() == 2 + (if valid.serve_repair {
                1int
            } else {
                0
            }) + (if valid.tpu {
                1int
            } else {
                0
            }) + (if valid.tpu_forwards {
                1int
            } else {
                0
            }) + (if valid.tvu {
                3int
            } else {
                0
            }) + (if valid.tvu_forwards {
                1int
            } else {
                0
            })
        }),
{
    let all = all_udp_sockets();
    let condition = |sockets: UdpSockets| must_be_reachable(sockets, valid);
    let checked = all.filter(condition);
    assert forall|sockets: UdpSockets| #[trigger] checked.contains(sockets) <==> condition(
        sockets,
    ) by {
        let i: int = match sockets {
            UdpSockets::Gossip => 0,
            UdpSockets::Repair => 1,
            UdpSockets::ServeRepair => 2,
            UdpSockets::Tpu => 3,
            UdpSockets::TpuForwards => 4,
            UdpSockets::Tvu => 5,
            UdpSockets::Broadcast => 6,
            UdpSockets::Retransmit => 7,
            UdpSockets::TvuForwards => 8,
        };
        assert(all[i] == sockets);
        if condition(sockets) {
            all.lemma_filter_contains(condition, i);
        }
        if checked.contains(sockets) {
            let k = choose|k: int| 0 <= k < checked.len() && checked[k] == sockets;
            all.lemma_filter_pred(condition, k);
        }
    }
    reveal_with_fuel(Seq::filter, 10);
    let a1 = seq![UdpSockets::Gossip];
    let a2 = a1.push(UdpSockets::Repair);
    let a3 = a2.push(UdpSockets::ServeRepair);
    let a4 = a3.push(UdpSockets::Tpu);
    let a5 = a4.push(UdpSockets::TpuForwards);
    let a6 = a5.push(UdpSockets::Tvu);
    let a7 = a6.push(UdpSockets::Broadcast);
    let a8 = a7.push(UdpSockets::Retransmit);
    let a9 = a8.push(UdpSockets::TvuForwards);
    assert(all =~= a9);
    assert(a9.drop_last() =~= a8);
    assert(a8.drop_last() =~= a7);
    assert(a7.drop_last() =~= a6);
    assert(a6.drop_last() =~= a5);
    assert(a5.drop_last() =~= a4);
    assert(a4.drop_last() =~= a3);
    assert(a3.drop_last() =~= a2);
    assert(a2.drop_last() =~= a1);
    assert(a1.drop_last() =~= Seq::empty());
}

} // verus!
