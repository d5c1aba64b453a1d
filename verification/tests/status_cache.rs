use std::collections::HashMap;
use std::sync::Arc;

use sha2::Digest;
use solana_validator::byte_map::ByteMap;
use solana_validator::signature::Signature;
use solana_validator::status_cache::Ancestors;
use solana_validator::status_cache::SignatureStatus;
use solana_validator::status_cache::StatusCache;
use solana_validator::status_cache::CACHED_SIGNATURE_SIZE;
use solana_validator::status_cache::SIGNATURE_INDEX_BOUND;

const MAX_RECENT_BLOCKHASHES: usize = 300;
const MAX_CACHE_ENTRIES: usize = MAX_RECENT_BLOCKHASHES;

type BankStatusCache = StatusCache<()>;

fn hash(bytes: &[u8]) -> solana_validator::hash::Hash {
    solana_validator::hash::Hash::new(sha2::Sha256::digest(bytes).as_slice())
}

fn first_blockhash() -> solana_validator::hash::Hash {
    hash(&solana_validator::hash::Hash::default().0)
}

fn signature(first: u8) -> Signature {
    let mut bytes = [0u8; 64];
    for (i, byte) in bytes.iter_mut().enumerate() {
        *byte = first.wrapping_add(i as u8);
    }
    Signature(bytes)
}

#[test]
fn test_empty_has_no_sigs() {
    let sig = Signature::default();
    let blockhash = first_blockhash();
    let status_cache = BankStatusCache::new(MAX_CACHE_ENTRIES);
    assert_eq!(
        status_cache.get_signature_status(&sig, &blockhash, &HashMap::new()),
        None
    );
    assert_eq!(status_cache.get_signature_slot(&sig, &HashMap::new()), None);
}

#[test]
fn test_find_sig_with_ancestor_fork() {
    let sig = Signature::default();
    let mut status_cache = BankStatusCache::new(MAX_CACHE_ENTRIES);
    let blockhash = first_blockhash();
    let ancestors: Ancestors = vec![(0, 1)].into_iter().collect();
    status_cache.insert(&blockhash, &sig, 0, ());
    assert_eq!(
        status_cache.get_signature_status(&sig, &blockhash, &ancestors),
        Some((0, ()))
    );
    assert_eq!(
        status_cache.get_signature_slot(&sig, &ancestors),
        Some((0, ()))
    );
}

#[test]
fn test_find_sig_without_ancestor_fork() {
    let sig = Signature::default();
    let mut status_cache = BankStatusCache::new(MAX_CACHE_ENTRIES);
    let blockhash = first_blockhash();
    let ancestors = HashMap::new();
    status_cache.insert(&blockhash, &sig, 1, ());
    assert_eq!(
        status_cache.get_signature_status(&sig, &blockhash, &ancestors),
        None
    );
    assert_eq!(status_cache.get_signature_slot(&sig, &ancestors), None);
}

#[test]
fn test_find_sig_with_root_ancestor_fork() {
    let sig = Signature::default();
    let mut status_cache = BankStatusCache::new(MAX_CACHE_ENTRIES);
    let blockhash = first_blockhash();
    let ancestors = HashMap::new();
    status_cache.insert(&blockhash, &sig, 0, ());
    status_cache.add_root(0);
    assert_eq!(
        status_cache.get_signature_status(&sig, &blockhash, &ancestors),
        Some((0, ()))
    );
}

#[test]
fn test_insert_picks_latest_blockhash_fork() {
    let sig = Signature::default();
    let mut status_cache = BankStatusCache::new(MAX_CACHE_ENTRIES);
    let blockhash = first_blockhash();
    let ancestors: Ancestors = vec![(0, 0)].into_iter().collect();
    status_cache.insert(&blockhash, &sig, 0, ());
    status_cache.insert(&blockhash, &sig, 1, ());
    for i in 0..(MAX_CACHE_ENTRIES + 1) {
        status_cache.add_root(i as u64);
    }
    assert!(status_cache
        .get_signature_status(&sig, &blockhash, &ancestors)
        .is_some());
}

#[test]
fn test_root_expires() {
    let sig = Signature::default();
    let mut status_cache = BankStatusCache::new(MAX_CACHE_ENTRIES);
    let blockhash = first_blockhash();
    let ancestors = HashMap::new();
    status_cache.insert(&blockhash, &sig, 0, ());
    for i in 0..(MAX_CACHE_ENTRIES + 1) {
        status_cache.add_root(i as u64);
    }
    assert_eq!(
        status_cache.get_signature_status(&sig, &blockhash, &ancestors),
        None
    );
}

#[test]
fn test_clear_signatures_sigs_are_gone() {
    let sig = Signature::default();
    let mut status_cache = BankStatusCache::new(MAX_CACHE_ENTRIES);
    let blockhash = first_blockhash();
    let ancestors = HashMap::new();
    status_cache.insert(&blockhash, &sig, 0, ());
    status_cache.add_root(0);
    status_cache.clear_signatures();
    assert_eq!(
        status_cache.get_signature_status(&sig, &blockhash, &ancestors),
        None
    );
}

#[test]
fn test_clear_signatures_insert_works() {
    let sig = Signature::default();
    let mut status_cache = BankStatusCache::new(MAX_CACHE_ENTRIES);
    let blockhash = first_blockhash();
    let ancestors = HashMap::new();
    status_cache.add_root(0);
    status_cache.clear_signatures();
    status_cache.insert(&blockhash, &sig, 0, ());
    assert!(status_cache
        .get_signature_status(&sig, &blockhash, &ancestors)
        .is_some());
}

#[test]
fn test_signatures_slice() {
    let sig = Signature::default();
    let mut status_cache = BankStatusCache::new(MAX_CACHE_ENTRIES);
    let blockhash = first_blockhash();
    status_cache.clear_signatures();
    status_cache.insert(&blockhash, &sig, 0, ());
    let index = status_cache.signature_offset(&blockhash).unwrap();
    let mut sig_slice = [0u8; CACHED_SIGNATURE_SIZE];
    sig_slice.clone_from_slice(&sig.0[index..index + CACHED_SIGNATURE_SIZE]);
    assert!(status_cache.contains_slice(&blockhash, &sig_slice));
}

#[test]
fn test_slot_deltas() {
    let sig = Signature::default();
    let mut status_cache = BankStatusCache::new(MAX_CACHE_ENTRIES);
    let blockhash = first_blockhash();
    status_cache.clear_signatures();
    status_cache.insert(&blockhash, &sig, 0, ());
    let slot_deltas = status_cache.slot_deltas(&[0]);
    let cache = StatusCache::from_slot_deltas(MAX_CACHE_ENTRIES, &slot_deltas);
    assert_eq!(cache, status_cache);
    let slot_deltas = cache.slot_deltas(&[0]);
    let cache = StatusCache::from_slot_deltas(MAX_CACHE_ENTRIES, &slot_deltas);
    assert_eq!(cache, status_cache);
}

#[test]
fn test_roots_deltas() {
    let sig = Signature::default();
    let mut status_cache = BankStatusCache::new(MAX_CACHE_ENTRIES);
    let blockhash = first_blockhash();
    let blockhash2 = hash(&blockhash.0);
    status_cache.insert(&blockhash, &sig, 0, ());
    status_cache.insert(&blockhash, &sig, 1, ());
    status_cache.insert(&blockhash2, &sig, 1, ());
    for i in 0..(MAX_CACHE_ENTRIES + 1) {
        status_cache.add_root(i as u64);
    }
    let slots: Vec<u64> = (0_u64..MAX_CACHE_ENTRIES as u64 + 1).collect();
    assert_eq!(status_cache.num_slot_deltas(), 1);
    assert!(status_cache.has_slot_delta(1));
    let slot_deltas = status_cache.slot_deltas(&slots);
    let cache = StatusCache::from_slot_deltas(MAX_CACHE_ENTRIES, &slot_deltas);
    assert_eq!(cache, status_cache);
}

#[test]
fn test_age_sanity() {
    assert!(MAX_CACHE_ENTRIES <= MAX_RECENT_BLOCKHASHES);
}

#[test]
fn test_clear_slot_signatures() {
    let sig = Signature::default();
    let mut status_cache = BankStatusCache::new(MAX_CACHE_ENTRIES);
    let blockhash = first_blockhash();
    let blockhash2 = hash(&blockhash.0);
    status_cache.insert(&blockhash, &sig, 0, ());
    status_cache.insert(&blockhash, &sig, 1, ());
    status_cache.insert(&blockhash2, &sig, 1, ());

    let mut ancestors0 = HashMap::new();
    ancestors0.insert(0, 0);
    let mut ancestors1 = HashMap::new();
    ancestors1.insert(1, 0);

    // Clear slot 0 related data
    assert!(status_cache
        .get_signature_status(&sig, &blockhash, &ancestors0)
        .is_some());
    status_cache.clear_slot_signatures(0);
    assert!(status_cache
        .get_signature_status(&sig, &blockhash, &ancestors0)
        .is_none());
    assert!(status_cache
        .get_signature_status(&sig, &blockhash, &ancestors1)
        .is_some());
    assert!(status_cache
        .get_signature_status(&sig, &blockhash2, &ancestors1)
        .is_some());

    // Check that the slot delta for slot 0 is gone, but slot 1 still
    // exists
    assert!(!status_cache.has_slot_delta(0));
    assert!(status_cache.has_slot_delta(1));

    // Clear slot 1 related data
    status_cache.clear_slot_signatures(1);
    assert_eq!(status_cache.num_slot_deltas(), 0);
    assert!(status_cache
        .get_signature_status(&sig, &blockhash, &ancestors1)
        .is_none());
    assert!(status_cache
        .get_signature_status(&sig, &blockhash2, &ancestors1)
        .is_none());
    assert!(status_cache.is_empty());
}

#[test]
fn first_visible_fork_gives_the_status() {
    let mut cache: StatusCache<u32> = StatusCache::new(10);
    let blockhash = first_blockhash();
    let sig = signature(7);
    cache.insert_at(&blockhash, &sig, 5, 3, 50);
    cache.insert_at(&blockhash, &sig, 6, 9, 60);
    assert_eq!(cache.signature_offset(&blockhash), Some(3));
    let ancestors: Ancestors = vec![(6, 0)].into_iter().collect();
    assert_eq!(
        cache.get_signature_status(&sig, &blockhash, &ancestors),
        Some((6, 60))
    );
    let ancestors: Ancestors = vec![(6, 0), (5, 0)].into_iter().collect();
    assert_eq!(
        cache.get_signature_status(&sig, &blockhash, &ancestors),
        Some((5, 50))
    );
    assert_eq!(
        cache.get_signature_status(&signature(8), &blockhash, &ancestors),
        None
    );
    assert_eq!(
        cache.get_signature_status(&sig, &hash(&blockhash.0), &ancestors),
        None
    );
    assert_eq!(cache.get_signature_slot(&sig, &ancestors), Some((5, 50)));
}

#[test]
fn drawn_offset_stays_below_the_bound() {
    let mut offsets = Vec::new();
    for i in 0..64u8 {
        let mut cache = BankStatusCache::new(10);
        let blockhash = hash(&[i]);
        cache.insert(&blockhash, &signature(i), 1, ());
        let offset = cache.signature_offset(&blockhash).unwrap();
        assert!(offset < SIGNATURE_INDEX_BOUND);
        if !offsets.contains(&offset) {
            offsets.push(offset);
        }
    }
    assert!(offsets.len() > 1);
}

#[test]
fn roots_stay_bounded() {
    let mut cache = BankStatusCache::new(3);
    for slot in 1..=10 {
        cache.add_root(slot);
        assert!(cache.roots().len() <= 3);
    }
    let mut roots: Vec<u64> = cache.roots().iter().cloned().collect();
    roots.sort();
    assert_eq!(roots, vec![8, 9, 10]);
}

#[test]
fn clearing_a_slot_undoes_its_record() {
    let mut cache: StatusCache<u32> = StatusCache::new(10);
    let blockhash = first_blockhash();
    let other = hash(&blockhash.0);
    cache.insert_at(&blockhash, &signature(1), 1, 0, 10);
    cache.insert_at(&blockhash, &signature(2), 2, 0, 20);
    cache.insert_at(&other, &signature(3), 2, 0, 30);
    cache.clear_slot_signatures(2);
    let ancestors: Ancestors = vec![(1, 0), (2, 0)].into_iter().collect();
    assert_eq!(
        cache.get_signature_status(&signature(1), &blockhash, &ancestors),
        Some((1, 10))
    );
    assert_eq!(cache.get_signature_slot(&signature(2), &ancestors), None);
    assert_eq!(cache.signature_offset(&other), None);
    assert_eq!(cache.num_slot_deltas(), 1);
}

#[test]
fn appended_deltas_come_back() {
    let mut cache: StatusCache<u32> = StatusCache::new(10);
    let blockhash = first_blockhash();
    cache.insert_at(&blockhash, &signature(1), 1, 4, 10);
    cache.insert_at(&blockhash, &signature(2), 2, 4, 20);
    cache.add_root(1);
    let deltas = cache.slot_deltas(&[1, 2, 3]);
    assert_eq!(deltas.len(), 3);
    assert!(deltas[0].1);
    assert!(!deltas[1].1);
    assert!(deltas[2].2.is_none());

    let mut restored: StatusCache<u32> = StatusCache::new(10);
    restored.append(&deltas);
    assert_eq!(restored, cache);
    assert_eq!(restored.num_slot_deltas(), 2);
    let again = restored.slot_deltas(&[2]);
    let (offset, statuses) = again[0].2.unwrap().get(&blockhash.0).unwrap();
    assert_eq!(*offset, 4);
    assert_eq!(statuses.len(), 1);
    assert_eq!(statuses[0].0[..], signature(2).0[4..24]);
    assert_eq!(*statuses[0].1, 20);
    let ancestors: Ancestors = vec![(2, 0)].into_iter().collect();
    assert_eq!(
        restored.get_signature_status(&signature(2), &blockhash, &ancestors),
        Some((2, 20))
    );
    assert_eq!(
        restored.get_signature_status(&signature(1), &blockhash, &HashMap::new()),
        Some((1, 10))
    );
}

#[test]
fn caches_differ_by_status_slot_offset_or_roots() {
    let blockhash = first_blockhash();
    let sig = signature(1);
    let build = |slot: u64, offset: usize, res: u32| {
        let mut cache: StatusCache<u32> = StatusCache::new(10);
        cache.insert_at(&blockhash, &sig, slot, offset, res);
        cache
    };
    assert_eq!(build(1, 0, 1), build(1, 0, 1));
    assert_ne!(build(1, 0, 1), build(1, 0, 2));
    assert_ne!(build(1, 0, 1), build(2, 0, 1));
    assert_ne!(build(1, 0, 1), build(1, 1, 1));
    let mut rooted = build(1, 0, 1);
    rooted.add_root(1);
    assert_ne!(build(1, 0, 1), rooted);
    // blockhashes that only the other cache holds do not matter
    assert_eq!(StatusCache::new(10), build(1, 0, 1));
    assert_ne!(build(1, 0, 1), StatusCache::new(10));
}

#[test]
fn cleared_slots_are_found_nowhere() {
    let mut cache: StatusCache<u32> = StatusCache::new(2);
    let blockhash = first_blockhash();
    let other = hash(&blockhash.0);
    cache.insert_at(&blockhash, &signature(1), 1, 0, 10);
    cache.add_root(1);
    // drops root 0
    cache.add_root(2);
    cache.insert_at(&blockhash, &signature(1), 3, 0, 11);
    cache.insert_at(&blockhash, &signature(1), 4, 0, 12);
    cache.insert_at(&blockhash, &signature(2), 3, 0, 20);
    cache.insert_at(&other, &signature(3), 3, 0, 30);
    cache.insert_at(&blockhash, &signature(1), 5, 0, 13);
    cache.clear_slot_signatures(3);
    let on_cleared: Ancestors = vec![(3, 0)].into_iter().collect();
    let status = |first, hash: &solana_validator::hash::Hash, ancestors: &Ancestors| {
        cache.get_signature_status(&signature(first), hash, ancestors)
    };
    // what is a root is still found
    assert_eq!(status(1, &blockhash, &on_cleared), Some((1, 10)));
    assert_eq!(status(2, &blockhash, &on_cleared), None);
    assert_eq!(status(3, &other, &on_cleared), None);
    assert_eq!(cache.signature_offset(&other), None);
    assert_eq!(cache.signature_offset(&blockhash), Some(0));
    assert!(cache.roots().contains(&1) && cache.roots().contains(&2));
    assert_eq!(cache.roots().len(), 2);
    let deltas = cache.slot_deltas(&[1, 3, 4, 5]);
    assert!(deltas[1].2.is_none());
    for slot in [0, 2, 3].iter() {
        assert!(deltas[*slot].2.unwrap().get(&blockhash.0).is_some());
    }
    // nothing comes back
    cache.insert_at(&other, &signature(3), 6, 0, 31);
    cache.add_root(6);
    assert_eq!(
        cache.get_signature_status(&signature(3), &other, &on_cleared),
        Some((6, 31))
    );
    assert_eq!(
        cache.get_signature_status(&signature(2), &blockhash, &on_cleared),
        None
    );
}

#[test]
fn rebuilt_caches_are_equal() {
    let mut cache: StatusCache<u32> = StatusCache::new(3);
    let blockhash = first_blockhash();
    let other = hash(&blockhash.0);
    cache.insert_at(&blockhash, &signature(1), 1, 3, 10);
    cache.insert_at(&other, &signature(2), 1, 7, 20);
    cache.add_root(1);
    cache.insert_at(&other, &signature(2), 4, 7, 21);
    cache.insert_at(&blockhash, &signature(1), 4, 3, 11);
    cache.insert_at(&blockhash, &signature(1), 4, 3, 12);
    cache.add_root(6);
    let slots = [0, 1, 4, 6];
    let rebuilt = StatusCache::from_slot_deltas(3, &cache.slot_deltas(&slots));
    assert_eq!(rebuilt, cache);
    assert_eq!(cache, rebuilt);
    let again = StatusCache::from_slot_deltas(3, &rebuilt.slot_deltas(&slots));
    assert_eq!(again, cache);
    assert_eq!(cache, again);
    assert_eq!(again.num_slot_deltas(), cache.num_slot_deltas());
    // one that is rebuilt without some of the slots is another
    let part = StatusCache::from_slot_deltas(3, &cache.slot_deltas(&[0, 1, 4]));
    assert_ne!(part, cache);
}

#[test]
fn deltas_go_on_from_what_they_listed() {
    let mut cache: StatusCache<u32> = StatusCache::new(3);
    let blockhash = first_blockhash();
    cache.insert_at(&blockhash, &signature(1), 1, 3, 10);
    cache.add_root(1);
    let before: Vec<_> = {
        let deltas = cache.slot_deltas(&[1, 2]);
        assert!(deltas[0].1 && deltas[0].2.is_some());
        assert!(!deltas[1].1 && deltas[1].2.is_none());
        deltas[0].2.unwrap().get(&blockhash.0).unwrap().1.clone()
    };
    cache.insert_at(&blockhash, &signature(2), 1, 3, 20);
    let deltas = cache.slot_deltas(&[1]);
    let (offset, after) = deltas[0].2.unwrap().get(&blockhash.0).unwrap();
    assert_eq!(*offset, 3);
    assert_eq!(before.len(), 1);
    assert_eq!(after.len(), 2);
    assert_eq!(after[0], before[0]);
    assert_eq!(*after[1].1, 20);
}

#[test]
fn deltas_with_large_offsets_can_be_appended() {
    let blockhash = first_blockhash();
    let other = hash(&blockhash.0);
    let mut statuses: SignatureStatus<u32> = ByteMap::new();
    statuses.insert(&blockhash.0, (1000, vec![([1; 20], Arc::new(10))]));
    statuses.insert(&other.0, (44, vec![([2; 20], Arc::new(20))]));
    let cache = StatusCache::from_slot_deltas(3, &[(5, true, Some(&statuses)), (6, true, None)]);
    assert_eq!(cache.signature_offset(&blockhash), Some(1000));
    assert_eq!(cache.num_slot_deltas(), 1);
    assert!(cache.roots().contains(&5) && cache.roots().contains(&6));
    // the last offset at which a part fits
    let mut bytes = [0; 64];
    for byte in bytes[44..].iter_mut() {
        *byte = 2;
    }
    assert_eq!(
        cache.get_signature_status(&Signature(bytes), &other, &HashMap::new()),
        Some((5, 20))
    );
}
