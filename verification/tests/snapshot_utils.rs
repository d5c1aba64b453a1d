use std::io::Cursor;
use std::mem::size_of;

use bincode::deserialize_from;
use bincode::serialize_into;
use solana_validator::snapshot_utils::archive::new_archive_name;
use solana_validator::snapshot_utils::archive::ArchiveAction;
use solana_validator::snapshot_utils::archive::ArchiveError;
use solana_validator::snapshot_utils::archive::ArchiveEvent;
use solana_validator::snapshot_utils::archive::ArchiveSnapshot;
use solana_validator::snapshot_utils::archive::TarOutcome;
use solana_validator::snapshot_utils::archives_to_remove;
use solana_validator::snapshot_utils::check_fully_consumed;
use solana_validator::snapshot_utils::check_serialized_size;
use solana_validator::snapshot_utils::check_size_to_deserialize;
use solana_validator::snapshot_utils::compression_type_from_str;
use solana_validator::snapshot_utils::get_compression_ext;
use solana_validator::snapshot_utils::get_highest_snapshot_archive_path;
use solana_validator::snapshot_utils::get_snapshot_archives;
use solana_validator::snapshot_utils::get_snapshot_file_name;
use solana_validator::snapshot_utils::get_snapshot_paths;
use solana_validator::snapshot_utils::purge_old_snapshots;
use solana_validator::snapshot_utils::snapshot_archive_name;
use solana_validator::snapshot_utils::snapshot_hash_of;
use solana_validator::snapshot_utils::snapshot_to_load;
use solana_validator::snapshot_utils::CompressionType;
use solana_validator::snapshot_utils::SlotSnapshotPaths;
use solana_validator::snapshot_utils::SnapshotDataError;
use solana_validator::snapshot_utils::SnapshotFormatError;
use solana_validator::snapshot_utils::SnapshotVersion;
use solana_validator::snapshot_utils::MAX_SNAPSHOT_DATA_FILE_SIZE;

fn default_hash() -> solana_validator::hash::Hash {
    solana_validator::hash::Hash::default()
}

fn serialize_capped(
    maximum_size: u64,
    values: &[u32],
) -> Result<(Vec<u8>, u64), SnapshotDataError> {
    let mut stream = Vec::new();
    for value in values {
        serialize_into(&mut stream, value).unwrap();
    }
    let consumed_size = check_serialized_size(stream.len() as u64, maximum_size)?;
    Ok((stream, consumed_size))
}

fn deserialize_capped(data: &[u8], maximum_size: u64) -> Result<u32, SnapshotDataError> {
    let size = data.len() as u64;
    check_size_to_deserialize(size, maximum_size)?;
    let mut stream = Cursor::new(data);
    let value: u32 = deserialize_from(&mut stream).unwrap();
    check_fully_consumed(size, stream.position())?;
    Ok(value)
}

#[test]
fn test_serialize_snapshot_data_file_under_limit() {
    let expected_consumed_size = size_of::<u32>() as u64;
    let (_, consumed_size) = serialize_capped(expected_consumed_size, &[2323_u32]).unwrap();
    assert_eq!(consumed_size, expected_consumed_size);
}

#[test]
fn test_serialize_snapshot_data_file_over_limit() {
    let expected_consumed_size = size_of::<u32>() as u64;
    let result = serialize_capped(expected_consumed_size - 1, &[2323_u32]);
    assert!(result
        .unwrap_err()
        .message("data-file")
        .starts_with("too large snapshot data file to serialize"));
}

#[test]
fn test_deserialize_snapshot_data_file_under_limit() {
    let expected_data = 2323_u32;
    let expected_consumed_size = size_of::<u32>() as u64;
    let (data, _) = serialize_capped(expected_consumed_size, &[expected_data]).unwrap();
    let actual_data = deserialize_capped(&data, expected_consumed_size).unwrap();
    assert_eq!(actual_data, expected_data);
}

#[test]
fn test_deserialize_snapshot_data_file_over_limit() {
    let expected_data = 2323_u32;
    let expected_consumed_size = size_of::<u32>() as u64;
    let (data, _) = serialize_capped(expected_consumed_size, &[expected_data]).unwrap();
    let result = deserialize_capped(&data, expected_consumed_size - 1);
    assert!(result
        .unwrap_err()
        .message("data-file")
        .starts_with("too large snapshot data file to deserialize"));
}

#[test]
fn test_deserialize_snapshot_data_file_extra_data() {
    let expected_data = 2323_u32;
    let expected_consumed_size = size_of::<u32>() as u64;
    let (data, _) = serialize_capped(
        expected_consumed_size * 2,
        &[expected_data, expected_data],
    )
    .unwrap();
    let result = deserialize_capped(&data, expected_consumed_size * 2);
    assert!(result
        .unwrap_err()
        .message("data-file")
        .starts_with("invalid snapshot data file"));
}

#[test]
fn test_snapshot_hash_of() {
    assert_eq!(
        snapshot_hash_of(&format!(
            "snapshot-42-{}.tar.bz2",
            default_hash().to_base58()
        )),
        Some((42, default_hash(), CompressionType::Bzip2))
    );
    assert_eq!(
        snapshot_hash_of(&format!(
            "snapshot-43-{}.tar.zst",
            default_hash().to_base58()
        )),
        Some((43, default_hash(), CompressionType::Zstd))
    );

    assert!(snapshot_hash_of("invalid").is_none());
}

#[test]
fn archive_names_that_are_not_recognized() {
    let hash = default_hash().to_base58();
    for name in [
        format!("snapshot-42-{}.tar", hash),
        format!("snapshot-42-{}.tar.gz.part", hash),
        format!("snapshot-{}.tar.gz", hash),
        format!("snapshot-99999999999999999999-{}.tar.gz", hash),
        "snapshot-42-111.tar.gz".to_string(),
        "snapshot-42-0OIl.tar.gz".to_string(),
        // a digit, but not one that a number is read from
        format!("snapshot-\u{664}2-{}.tar.gz", hash),
    ]
    .iter()
    {
        assert!(snapshot_hash_of(name).is_none(), "{}", name);
    }
    assert_eq!(
        snapshot_hash_of(&format!("old-snapshot-7-{}.tar.gz", hash)),
        Some((7, default_hash(), CompressionType::Gzip))
    );
}

#[test]
fn archive_names_are_read_back() {
    let hash = solana_validator::hash::Hash::new(&[7u8; 32]);
    for compression in [
        CompressionType::Bzip2,
        CompressionType::Gzip,
        CompressionType::Zstd,
    ]
    .iter()
    {
        let name = snapshot_archive_name(1234, &hash, compression);
        assert_eq!(snapshot_hash_of(&name), Some((1234, hash, *compression)));
    }
    let name = snapshot_archive_name(5, &default_hash(), &CompressionType::NoCompression);
    assert_eq!(name, "snapshot-5-11111111111111111111111111111111.tar");
    assert!(snapshot_hash_of(&name).is_none());
}

#[test]
fn compression_names() {
    assert_eq!(get_compression_ext(&CompressionType::Bzip2), ".tar.bz2");
    assert_eq!(get_compression_ext(&CompressionType::Gzip), ".tar.gz");
    assert_eq!(get_compression_ext(&CompressionType::Zstd), ".tar.zst");
    assert_eq!(get_compression_ext(&CompressionType::NoCompression), ".tar");
    assert_eq!(
        compression_type_from_str("bz2"),
        Some(CompressionType::Bzip2)
    );
    assert_eq!(compression_type_from_str("gz"), Some(CompressionType::Gzip));
    assert_eq!(compression_type_from_str("zst"), Some(CompressionType::Zstd));
    assert_eq!(compression_type_from_str("tar"), None);
}

#[test]
fn versions_are_read_back() {
    let version = SnapshotVersion::default();
    assert_eq!(version, SnapshotVersion::V1_2_0);
    assert_eq!(version.as_str(), "1.2.0");
    assert_eq!("1.2.0".parse(), Ok(version));
    assert_eq!("v1.2.0".parse(), Ok(version));
    assert_eq!("V1.2.0".parse(), Ok(version));
    assert_eq!(
        SnapshotVersion::parse("1.1.0"),
        Err("unsupported snapshot version")
    );
    assert_eq!(SnapshotVersion::maybe_from_string("vv1.2.0"), None);
    assert_eq!(SnapshotVersion::maybe_from_string(""), None);
    assert_eq!(SnapshotVersion::maybe_from_string("v1.2.0"), Some(version));
}

fn names(names: &[&str]) -> Vec<String> {
    names.iter().map(|name| name.to_string()).collect()
}

#[test]
fn snapshot_paths_are_sorted_by_slot() {
    let paths = get_snapshot_paths(&names(&["10", "status_cache", "9", "+3", "-1", ""]));
    let slots: Vec<u64> = paths.iter().map(|path| path.slot).collect();
    assert_eq!(slots, vec![3, 9, 10]);
    assert_eq!(paths[1], SlotSnapshotPaths::new(9));
    assert_eq!(paths[1].snapshot_file_path, "9/9");
    assert_eq!(get_snapshot_file_name(18_446_744_073_709_551_615), "18446744073709551615");
}

#[test]
fn oldest_snapshots_are_purged() {
    let paths = get_snapshot_paths(&names(&["4", "2", "1", "3"]));
    assert_eq!(purge_old_snapshots(&paths, 300), Vec::<u64>::new());
    assert_eq!(purge_old_snapshots(&paths, 4), Vec::<u64>::new());
    assert_eq!(purge_old_snapshots(&paths, 3), vec![1]);
    assert_eq!(purge_old_snapshots(&paths, 0), vec![1, 2, 3, 4]);
}

fn archive(slot: u64) -> String {
    snapshot_archive_name(slot, &default_hash(), &CompressionType::Gzip)
}

#[test]
fn archives_are_listed_from_the_newest() {
    let files = vec![archive(3), "genesis.bin".to_string(), archive(20), archive(7)];
    let archives = get_snapshot_archives(&files);
    let slots: Vec<u64> = archives.iter().map(|archive| archive.slot).collect();
    assert_eq!(slots, vec![20, 7, 3]);
    let highest = get_highest_snapshot_archive_path(&files).unwrap();
    assert_eq!(highest.file_name, archive(20));
    assert_eq!(highest.slot, 20);
    assert_eq!(highest.hash, default_hash());
    assert_eq!(highest.compression, CompressionType::Gzip);
    assert!(get_highest_snapshot_archive_path(&names(&["genesis.bin"])).is_none());
}

#[test]
fn newest_archives_and_the_oldest_are_kept() {
    let outdated = |slots: &[u64]| {
        let files: Vec<String> = slots.iter().map(|slot| archive(*slot)).collect();
        archives_to_remove(get_snapshot_archives(&files))
            .iter()
            .map(|archive| archive.slot)
            .collect::<Vec<u64>>()
    };
    assert_eq!(outdated(&[]), Vec::<u64>::new());
    assert_eq!(outdated(&[1]), Vec::<u64>::new());
    assert_eq!(outdated(&[1, 2, 3]), Vec::<u64>::new());
    assert_eq!(outdated(&[1, 2, 3, 4]), vec![2]);
    assert_eq!(outdated(&[5, 1, 2, 3, 4]), vec![3, 2]);
}

#[test]
fn data_errors_tell_the_sizes() {
    assert_eq!(MAX_SNAPSHOT_DATA_FILE_SIZE, 34_359_738_368);
    let error = check_serialized_size(5, 4).unwrap_err();
    assert_eq!(error, SnapshotDataError::TooLargeToSerialize { size: 5 });
    assert_eq!(
        error.message("f"),
        "too large snapshot data file to serialize: f has 5 bytes"
    );
    let error = check_size_to_deserialize(5, 4).unwrap_err();
    assert_eq!(error, SnapshotDataError::TooLargeToDeserialize { size: 5 });
    assert_eq!(
        error.message("f"),
        "too large snapshot data file to deserialize: f has 5 bytes"
    );
    let error = check_fully_consumed(8, 4).unwrap_err();
    assert_eq!(
        error,
        SnapshotDataError::NotFullyConsumed {
            size: 8,
            consumed: 4
        }
    );
    assert_eq!(
        error.message("f"),
        "invalid snapshot data file: f has 8 bytes, however consumed 4 bytes to deserialize"
    );
    assert_eq!(check_fully_consumed(8, 8), Ok(()));
}

#[test]
fn a_single_snapshot_is_loaded() {
    let loaded = snapshot_to_load("v1.2.0", &names(&["status_cache", "12"]));
    assert_eq!(
        loaded,
        Ok((SnapshotVersion::V1_2_0, SlotSnapshotPaths::new(12)))
    );
    let error = snapshot_to_load("1.3.0", &names(&["12"])).unwrap_err();
    assert_eq!(error, SnapshotFormatError::UnsupportedVersion);
    assert_eq!(error.message("1.3.0"), "unsupported snapshot version: 1.3.0");
    let error = snapshot_to_load("1.2.0", &names(&["12", "13"])).unwrap_err();
    assert_eq!(error, SnapshotFormatError::MoreThanOneSnapshot);
    assert_eq!(error.message("1.2.0"), "invalid snapshot format");
    let error = snapshot_to_load("1.2.0", &names(&["status_cache"])).unwrap_err();
    assert_eq!(error, SnapshotFormatError::NoSnapshots);
    assert_eq!(
        error.message("1.2.0"),
        "No snapshots found in snapshots directory"
    );
}

/// Goes on up to the moment at which the staged files are put together.
fn staged_archive(num_storages: usize) -> ArchiveSnapshot {
    let mut archive = ArchiveSnapshot::new(num_storages);
    let event: ArchiveEvent<(), i32> = ArchiveEvent::Started;
    assert!(matches!(
        archive.step(event),
        ArchiveAction::SerializeStatusCache
    ));
    let event: ArchiveEvent<(), i32> = ArchiveEvent::StatusCacheSerialized(Ok(()));
    assert!(matches!(archive.step(event), ArchiveAction::Stage));
    let mut event: ArchiveEvent<(), i32> = ArchiveEvent::Staged(Ok(()));
    for storage in 0..num_storages {
        match archive.step(event) {
            ArchiveAction::LinkStorage(index) => assert_eq!(index, storage),
            _ => panic!("no storage"),
        }
        event = ArchiveEvent::StorageLinked(Ok(true));
    }
    assert!(matches!(archive.step(event), ArchiveAction::WriteVersion));
    let event: ArchiveEvent<(), i32> = ArchiveEvent::VersionWritten(Ok(()));
    assert!(matches!(archive.step(event), ArchiveAction::Archive));
    archive
}

#[test]
fn archives_are_moved_once_they_are_made() {
    for num_storages in 0..3 {
        let mut archive = staged_archive(num_storages);
        let made: ArchiveEvent<(), i32> =
            ArchiveEvent::Archived(Ok(TarOutcome::Exited { success: true, status: 0 }));
        assert!(matches!(archive.step(made), ArchiveAction::Move));
        let moved: ArchiveEvent<(), i32> = ArchiveEvent::Moved(Ok(()));
        assert!(matches!(
            archive.step(moved),
            ArchiveAction::RemoveOldArchives
        ));
        let removed: ArchiveEvent<(), i32> = ArchiveEvent::OldArchivesRemoved;
        assert!(matches!(archive.step(removed), ArchiveAction::Done(Ok(()))));
    }
}

#[test]
fn archives_that_cannot_be_made() {
    let mut archive = staged_archive(1);
    let event: ArchiveEvent<(), i32> = ArchiveEvent::Archived(Ok(TarOutcome::NoOutput));
    assert!(matches!(
        archive.step(event),
        ArchiveAction::Done(Err(ArchiveError::TarOutputUnavailable))
    ));
    let mut archive = staged_archive(1);
    let event: ArchiveEvent<(), i32> =
        ArchiveEvent::Archived(Ok(TarOutcome::Exited { success: false, status: 2 }));
    assert!(matches!(
        archive.step(event),
        ArchiveAction::Done(Err(ArchiveError::ArchiveGenerationFailure(2)))
    ));
    let mut archive = staged_archive(1);
    let event: ArchiveEvent<u8, i32> = ArchiveEvent::Archived(Err(7));
    assert!(matches!(
        archive.step(event),
        ArchiveAction::Done(Err(ArchiveError::Failed(7)))
    ));

    let mut archive = ArchiveSnapshot::new(2);
    let event: ArchiveEvent<u8, i32> = ArchiveEvent::Started;
    archive.step(event);
    let mut failed = archive;
    assert!(matches!(
        failed.step(ArchiveEvent::<u8, i32>::StatusCacheSerialized(Err(1u8))),
        ArchiveAction::Done(Err(ArchiveError::Failed(1)))
    ));
    let event: ArchiveEvent<u8, i32> = ArchiveEvent::StatusCacheSerialized(Ok(()));
    archive.step(event);
    let mut failed = archive;
    assert!(matches!(
        failed.step(ArchiveEvent::<u8, i32>::Staged(Err(2u8))),
        ArchiveAction::Done(Err(ArchiveError::Failed(2)))
    ));
    let event: ArchiveEvent<u8, i32> = ArchiveEvent::Staged(Ok(()));
    archive.step(event);
    let mut failed = archive;
    assert!(matches!(
        failed.step(ArchiveEvent::<u8, i32>::StorageLinked(Err(3u8))),
        ArchiveAction::Done(Err(ArchiveError::Failed(3)))
    ));
    let event: ArchiveEvent<u8, i32> = ArchiveEvent::StorageLinked(Ok(false));
    assert!(matches!(
        archive.step(event),
        ArchiveAction::Done(Err(ArchiveError::StoragePathSymlinkInvalid))
    ));
}

#[test]
fn archives_in_the_making_have_names_of_their_own() {
    assert_eq!(
        new_archive_name(&CompressionType::Zstd),
        "new_state.tar.zst"
    );
    assert_eq!(
        new_archive_name(&CompressionType::NoCompression),
        "new_state.tar"
    );
    assert!(snapshot_hash_of(&new_archive_name(&CompressionType::Bzip2)).is_none());
}
