use std::sync::Arc;

use solana_validator::pubkey::Pubkey;
use solana_validator::retransmit_stage::after_round;
use solana_validator::retransmit_stage::other_peer_indexes;
use solana_validator::retransmit_stage::peers_are_outdated;
use solana_validator::retransmit_stage::retransmits_shred;
use solana_validator::retransmit_stage::source_counts::SourceCounts;
use solana_validator::retransmit_stage::stats::top_sources;
use solana_validator::retransmit_stage::stats::RetransmitStats;
use solana_validator::retransmit_stage::stats::RoundTimes;
use solana_validator::retransmit_stage::takes_more_packets;
use solana_validator::retransmit_stage::transmissions;
use solana_validator::retransmit_stage::AfterRound;
use solana_validator::retransmit_stage::EpochStakesCache;
use solana_validator::retransmit_stage::PacketMeta;
use solana_validator::retransmit_stage::RetransmitError;
use solana_validator::retransmit_stage::RetransmitRound;
use solana_validator::retransmit_stage::RoundTotals;

fn packet(slot: u64, source: &str) -> PacketMeta {
    PacketMeta {
        discard: false,
        repair: false,
        forward: false,
        slot,
        source: source.to_string(),
    }
}

/// Runs a round and returns the packets that were sent on.
fn run_round(packets: Vec<PacketMeta>) -> (Vec<usize>, RoundTotals) {
    let mut round = RetransmitRound::new(packets);
    let mut sent = Vec::new();
    while let Some(index) = round.next_packet() {
        sent.push(index);
        round.packet_sent(10 - index, 2, 3);
    }
    (sent, round.finish())
}

#[test]
fn test_skip_repair() {
    let (sent, _) = run_round(vec![packet(0, "")]);
    assert_eq!(sent, vec![0]);

    let mut repair = packet(0, "");
    repair.repair = true;

    // 1 repair and 1 "regular" packet
    let (sent, totals) = run_round(vec![repair, packet(0, "")]);
    assert_eq!(sent, vec![1]);
    assert_eq!(totals.repair_total, 1);
}

#[test]
fn every_packet_is_accounted_for() {
    let mut discarded = packet(1, "a");
    discarded.discard = true;
    let mut both = packet(1, "a");
    both.discard = true;
    both.repair = true;
    let mut repair = packet(2, "b");
    repair.repair = true;
    let (sent, totals) = run_round(vec![
        packet(5, "b"),
        discarded,
        packet(6, "a"),
        both,
        repair,
        packet(5, "a"),
    ]);
    assert_eq!(sent, vec![0, 2, 5]);
    assert_eq!(totals.total_packets, 3);
    assert_eq!(totals.discard_total, 2);
    assert_eq!(totals.repair_total, 1);
    assert_eq!(totals.peers_len, 10);
    assert_eq!(totals.compute_turbine_peers_total, 6);
    assert_eq!(totals.retransmit_total, 9);
    assert_eq!(totals.packets_by_slot.len(), 2);
    assert_eq!(totals.packets_by_slot[&5], 2);
    assert_eq!(totals.packets_by_slot[&6], 1);
    assert_eq!(totals.packets_by_source.len(), 2);
    assert_eq!(totals.packets_by_source.entry(0), ("a", 2));
    assert_eq!(totals.packets_by_source.entry(1), ("b", 1));
}

#[test]
fn batches_are_taken_in_up_to_a_limit() {
    assert!(takes_more_packets(1, 1));
    assert!(takes_more_packets(1, 1000));
    assert!(takes_more_packets(2, 99));
    assert!(!takes_more_packets(2, 100));
}

#[test]
fn packets_go_to_neighbors_and_children() {
    let sends = transmissions(false, vec![1, 2], vec![3]);
    assert_eq!(sends.len(), 2);
    assert_eq!(sends[0].peers, vec![1, 2]);
    assert!(sends[0].forwarded);
    assert_eq!(sends[1].peers, vec![3]);
    assert!(!sends[1].forwarded);

    let sends = transmissions(true, vec![1, 2], vec![3]);
    assert_eq!(sends.len(), 1);
    assert_eq!(sends[0].peers, vec![3]);
    assert!(sends[0].forwarded);

    let shuffled = vec![(7, 4), (0, 2), (9, 1)];
    assert_eq!(other_peer_indexes(0, &shuffled), vec![2, 1]);
    assert_eq!(other_peer_indexes(1, &shuffled), vec![4, 1]);
    assert_eq!(other_peer_indexes(2, &shuffled), vec![4, 2]);
}

#[test]
fn stakes_are_those_of_the_epoch() {
    let mut cache: EpochStakesCache<&str> = EpochStakesCache::new();
    assert!(!cache.is_outdated(0));
    assert!(cache.is_outdated(3));
    cache.update_stakes(3, Some(Arc::new(vec![(Pubkey([1; 32]), 5)])));
    assert_eq!(cache.epoch, 3);
    assert_eq!(cache.stakes.as_ref().unwrap()[0].1, 5);
    cache.update_stakes(3, None);
    assert!(cache.stakes.is_some());
    cache.update_peers(vec!["a", "b"], vec![(5, 1), (0, 0)]);
    assert_eq!(cache.peers, vec!["a", "b"]);
    assert_eq!(cache.stakes_and_index, vec![(5, 1), (0, 0)]);
    assert_eq!(cache.epoch, 3);

    assert!(!peers_are_outdated(1000, 0));
    assert!(peers_are_outdated(1001, 0));
}

#[test]
fn threads_end_when_no_more_packets_can_come() {
    assert_eq!(after_round(Ok(())), AfterRound::Continue);
    assert_eq!(
        after_round(Err(RetransmitError::Disconnected)),
        AfterRound::Exit
    );
    assert_eq!(
        after_round(Err(RetransmitError::Timeout)),
        AfterRound::Continue
    );
    assert_eq!(
        after_round(Err(RetransmitError::Other)),
        AfterRound::CountError
    );
    assert!(retransmits_shred(true, None));
    assert!(retransmits_shred(true, Some(true)));
    assert!(!retransmits_shred(true, Some(false)));
    assert!(!retransmits_shred(false, Some(true)));
}

fn counts(entries: &[(&str, usize)]) -> SourceCounts {
    let mut counts = SourceCounts::new();
    for (source, count) in entries {
        counts.count(source, *count);
    }
    counts
}

#[test]
fn sources_are_kept_in_order() {
    let counts = counts(&[("b", 1), ("a", 2), ("ab", 3), ("b", 4), ("", 5)]);
    assert_eq!(counts.len(), 4);
    assert_eq!(counts.entry(0), ("", 5));
    assert_eq!(counts.entry(1), ("a", 2));
    assert_eq!(counts.entry(2), ("ab", 3));
    assert_eq!(counts.entry(3), ("b", 5));
}

#[test]
fn top_sources_are_named() {
    let top = top_sources(&counts(&[
        ("a", 1),
        ("b", 2),
        ("c", 3),
        ("d", 4),
        ("e", 5),
        ("f", 6),
        ("g", 2),
    ]));
    let named: Vec<(usize, &str)> = top
        .iter()
        .map(|(count, source)| (*count, source.as_str()))
        .collect();
    assert_eq!(named, vec![(2, "b"), (3, "c"), (4, "d"), (5, "e"), (6, "f")]);
    // a smaller count than the smallest one that is named does not come in
    let top = top_sources(&counts(&[("a", 5), ("b", 3), ("c", 5), ("d", 9)]));
    let named: Vec<(usize, &str)> = top
        .iter()
        .map(|(count, source)| (*count, source.as_str()))
        .collect();
    assert_eq!(named, vec![(5, "a"), (9, "d")]);
    assert!(top_sources(&SourceCounts::new()).is_empty());
}

#[test]
fn statistics_are_reported_and_start_over() {
    let mut stats = RetransmitStats::new();
    let times = RoundTimes {
        total_time: 7,
        epoch_fetch: 1,
        epoch_cache_update: 2,
    };
    let (_, round) = run_round(vec![packet(5, "a"), packet(6, "b")]);
    assert!(stats.update_retransmit_stats(&round, &times, 2000).is_none());
    assert_eq!(stats.totals.total_packets, 2);
    let (_, round) = run_round(vec![packet(5, "a")]);
    let report = stats.update_retransmit_stats(&round, &times, 2001).unwrap();
    assert_eq!(report.num_nodes, 10);
    assert_eq!(report.totals.total_packets, 3);
    assert_eq!(report.totals.total_batches, 2);
    assert_eq!(report.totals.total_time, 14);
    assert_eq!(report.totals.epoch_fetch, 2);
    assert_eq!(report.totals.epoch_cache_update, 4);
    assert_eq!(report.totals.retransmit_total, 9);
    assert_eq!(report.totals.compute_turbine_peers_total, 6);
    assert_eq!(report.totals.repair_total, 0);
    assert_eq!(report.totals.discard_total, 0);
    // earlier slots come first
    assert_eq!(format!("{:?}", report.packets_by_slot), "{5: 2, 6: 1}");
    assert_eq!(report.num_sources, 2);
    // "b" was looked at after "a", with fewer packets
    assert_eq!(report.top_sources.len(), 1);
    assert_eq!(report.top_sources[&2], "a");

    assert_eq!(stats.last_ts, 2001);
    assert_eq!(stats.totals.total_batches, 0);
    assert!(stats.packets_by_slot.is_empty());
    assert_eq!(stats.packets_by_source.len(), 0);
    assert!(stats.update_retransmit_stats(&round, &times, 4001).is_none());
}
