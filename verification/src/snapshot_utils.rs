//! Names, versions and selection of snapshots.

pub mod archive;

use std::str::FromStr;

use vstd::prelude::*;

use crate::base58::base58_text;
use crate::base58::is_base58;
use crate::clock::Slot;
use crate::hash::parse_hash;
use crate::hash::ParseHashError;
use crate::text::decimal;
use crate::text::decimal_text;
use crate::text::is_digit;
use crate::text::law_decimal_round_trip;
use crate::text::parse_number;
use crate::text::parse_unsigned;
use crate::text::same_text;
use crate::text::ParseIntError;

verus! {

pub const SNAPSHOT_STATUS_CACHE_FILE_NAME: &'static str = "status_cache";

pub const TAR_SNAPSHOTS_DIR: &'static str = "snapshots";

pub const TAR_ACCOUNTS_DIR: &'static str = "accounts";

pub const TAR_VERSION_FILE: &'static str = "version";

pub const MAX_SNAPSHOT_DATA_FILE_SIZE: u64 = 32 * 1024 * 1024 * 1024;

/// Number of the newest archives that are kept besides the oldest one.
pub const MAX_NEWEST_ARCHIVES: usize = 2;

/// The format of a snapshot.
#[derive(Clone, Copy, Debug, PartialEq, Eq, Structural)]
pub enum SnapshotVersion {
    V1_2_0,
}

impl Default for SnapshotVersion {
    fn default() -> (version: Self)
        ensures
            version == SnapshotVersion::V1_2_0,
    {
        SnapshotVersion::V1_2_0
    }
}

/// A text without a leading 'v' or 'V'.
pub open spec fn without_v(text: Seq<char>) -> Seq<char> {
    if text.len() > 0 && (text[0] == 'v' || text[0] == 'V') {
        text.drop_first()
    } else {
        text
    }
}

impl SnapshotVersion {
    pub open spec fn spec_as_str(self) -> Seq<char> {
        match self {
            SnapshotVersion::V1_2_0 => "1.2.0"@,
        }
    }

    pub fn as_str(self) -> (text: &'static str)
        ensures
            text@ == self.spec_as_str(),
    {
        match self {
            SnapshotVersion::V1_2_0 => "1.2.0",
        }
    }

    /// The version that a text names, with a leading 'v' or 'V' or without.
    pub fn parse(version_string: &str) -> (version: Result<SnapshotVersion, &'static str>)
        ensures
            match version {
                Ok(version) => without_v(version_string@) == version.spec_as_str(),
                Err(message) => {
                    &&& message@ == "unsupported snapshot version"@
                    &&& forall|version: SnapshotVersion|
                        without_v(version_string@) != #[trigger] version.spec_as_str()
                },
            },
    {
        let len = version_string.unicode_len();
        // Remove leading 'v' or 'V' from slice
        let version_string = if len > 0 && (version_string.get_char(0) == 'v'
            || version_string.get_char(0) == 'V') {
            version_string.substring_char(1, len)
        } else {
            version_string
        };
        if same_text(version_string, SnapshotVersion::V1_2_0.as_str()) {
            Ok(SnapshotVersion::V1_2_0)
        } else {
            assert forall|version: SnapshotVersion| version_string@ != #[trigger] version.spec_as_str() by {
                match version {
                    SnapshotVersion::V1_2_0 => {},
                }
            }
            Err("unsupported snapshot version")
        }
    }

    pub fn maybe_from_string(version_string: &str) -> (version: Option<SnapshotVersion>)
        ensures
            match version {
                Some(version) => without_v(version_string@) == version.spec_as_str(),
                None => forall|version: SnapshotVersion|
                    without_v(version_string@) != #[trigger] version.spec_as_str(),
            },
    {
        match SnapshotVersion::parse(version_string) {
            Ok(version) => Some(version),
            Err(_) => None,
        }
    }
}

impl FromStr for SnapshotVersion {
    type Err = &'static str;

    fn from_str(version_string: &str) -> (version: Result<Self, &'static str>)
        ensures
            match version {
                Ok(version) => without_v(version_string@) == version.spec_as_str(),
                Err(message) => {
                    &&& message@ == "unsupported snapshot version"@
                    &&& forall|version: SnapshotVersion|
                        without_v(version_string@) != #[trigger] version.spec_as_str()
                },
            },
    {
        SnapshotVersion::parse(version_string)
    }
}

/// A version is read back from its own text, and from its text with a 'v' in front.
pub proof fn law_version_round_trip(version: SnapshotVersion)
    ensures
        without_v(version.spec_as_str()) == version.spec_as_str(),
        without_v(seq!['v'] + version.spec_as_str()) == version.spec_as_str(),
        without_v(seq!['V'] + version.spec_as_str()) == version.spec_as_str(),
{
    reveal_strlit("1.2.0");
    assert((seq!['v'] + version.spec_as_str()).drop_first() =~= version.spec_as_str());
    assert((seq!['V'] + version.spec_as_str()).drop_first() =~= version.spec_as_str());
}

/// One 'v' or 'V' in front of a text is dropped, and nothing else.
pub proof fn law_only_a_leading_v_is_dropped(text: Seq<char>)
    ensures
        without_v(seq!['v'] + text) == text,
        without_v(seq!['V'] + text) == text,
        text.len() == 0 || (text[0] != 'v' && text[0] != 'V') ==> without_v(text) == text,
{
    assert((seq!['v'] + text).drop_first() =~= text);
    assert((seq!['V'] + text).drop_first() =~= text);
}

/// How a snapshot archive is compressed.
#[derive(Clone, Copy, Debug, PartialEq, Eq, Structural)]
pub enum CompressionType {
    Bzip2,
    Gzip,
    Zstd,
    NoCompression,
}

/// The ending of the name of a tar archive.
pub open spec fn compression_ext(compression: CompressionType) -> Seq<char> {
    match compression {
        CompressionType::Bzip2 => ".tar.bz2"@,
        CompressionType::Gzip => ".tar.gz"@,
        CompressionType::Zstd => ".tar.zst"@,
        CompressionType::NoCompression => ".tar"@,
    }
}

pub fn get_compression_ext(compression: &CompressionType) -> (ext: &'static str)
    ensures
        ext@ == compression_ext(*compression),
{
    match compression {
        CompressionType::Bzip2 => ".tar.bz2",
        CompressionType::Gzip => ".tar.gz",
        CompressionType::Zstd => ".tar.zst",
        CompressionType::NoCompression => ".tar",
    }
}

/// The compression that a file extension stands for.
pub open spec fn compression_of(ext: Seq<char>) -> Option<CompressionType> {
    if ext == "bz2"@ {
        Some(CompressionType::Bzip2)
    } else if ext == "gz"@ {
        Some(CompressionType::Gzip)
    } else if ext == "zst"@ {
        Some(CompressionType::Zstd)
    } else {
        None
    }
}

pub fn compression_type_from_str(compress: &str) -> (compression: Option<CompressionType>)
    ensures
        compression == compression_of(compress@),
{
    if same_text(compress, "bz2") {
        Some(CompressionType::Bzip2)
    } else if same_text(compress, "gz") {
        Some(CompressionType::Gzip)
    } else if same_text(compress, "zst") {
        Some(CompressionType::Zstd)
    } else {
        None
    }
}

pub open spec fn is_alphanumeric(c: char) -> bool {
    '0' <= c <= '9' || 'A' <= c <= 'Z' || 'a' <= c <= 'z'
}

/// What is found in the name of a snapshot archive.
pub struct ArchiveNameParts {
    pub slot: String,
    pub hash: String,
    pub ext: String,
}

/// A name ends in the words of an archive's name: "snapshot-", a slot, a hyphen, a hash,
/// ".tar." and an extension. The slot is not empty and holds no other ASCII characters than
/// digits; the hash is not empty and alphanumeric.
pub open spec fn has_parts(
    name: Seq<char>,
    slot: Seq<char>,
    hash: Seq<char>,
    ext: Seq<char>,
) -> bool {
    let ending = "snapshot-"@ + slot + "-"@ + hash + ".tar."@ + ext;
    &&& name.len() >= ending.len()
    &&& name.skip(name.len() - ending.len()) == ending
    &&& slot.len() > 0
    &&& forall|i: int| 0 <= i < slot.len() && (#[trigger] slot[i]) < '\u{80}' ==> is_digit(slot[i])
    &&& hash.len() > 0
    &&& forall|i: int| 0 <= i < hash.len() ==> is_alphanumeric(#[trigger] hash[i])
    &&& compression_of(ext) is Some
}

pub open spec fn all_digits(text: Seq<char>) -> bool {
    forall|i: int| 0 <= i < text.len() ==> is_digit(#[trigger] text[i])
}

/// The pattern of archive names: a slot, a hash and a compression, at the end of a name.
pub const ARCHIVE_NAME_PATTERN: &'static str = r"snapshot-(\d+)-([[:alnum:]]+)\.tar\.(bz2|zst|gz)$";

/// `regex::Regex::captures` for the pattern of archive names: the parts of a name that ends in
/// them. The pattern takes any Unicode digit in the slot; nothing is found only where the name
/// has no such ending with ASCII digits.
#[verifier::external_body]
fn archive_name_captures(pattern: &str, name: &str) -> (parts: Option<ArchiveNameParts>)
    requires
        pattern@ == ARCHIVE_NAME_PATTERN@,
    ensures
        match parts {
            Some(parts) => has_parts(name@, parts.slot@, parts.hash@, parts.ext@),
            None => forall|slot: Seq<char>, hash: Seq<char>, ext: Seq<char>|
                all_digits(slot) ==> !#[trigger] has_parts(name@, slot, hash, ext),
        },
{
    regex::Regex::new(pattern).unwrap().captures(name).map(|captures| ArchiveNameParts {
        slot: captures[1].to_string(),
        hash: captures[2].to_string(),
        ext: captures[3].to_string(),
    })
}

/// A name is that of an archive of the snapshot, with the compression.
pub open spec fn names_snapshot(
    name: Seq<char>,
    slot_text: Seq<char>,
    hash_text: Seq<char>,
    ext: Seq<char>,
    slot: Slot,
    hash: Seq<u8>,
    compression: CompressionType,
) -> bool {
    &&& has_parts(name, slot_text, hash_text, ext)
    &&& parse_number(slot_text, u64::MAX as nat) == Ok::<nat, ParseIntError>(slot as nat)
    &&& parse_hash(hash_text) == Ok::<Seq<u8>, ParseHashError>(hash)
    &&& compression_of(ext) == Some(compression)
}

/// What snapshot an archive's name stands for, if it stands for one.
pub open spec fn snapshot_of(name: Seq<char>, slot: Slot, hash: Seq<u8>, compression: CompressionType)
    -> bool {
    exists|slot_text: Seq<char>, hash_text: Seq<char>, ext: Seq<char>| #[trigger]
        names_snapshot(name, slot_text, hash_text, ext, slot, hash, compression)
}

proof fn lemma_ext(ext: Seq<char>)
    requires
        compression_of(ext) is Some,
    ensures
        2 <= ext.len() <= 3,
        ext.last() == '2' <==> ext == "bz2"@,
        ext.last() == 'z' <==> ext == "gz"@,
        ext.last() == 't' <==> ext == "zst"@,
{
    reveal_strlit("bz2");
    reveal_strlit("gz");
    reveal_strlit("zst");
}

/// Where the hyphen in front of the slot is.
spec fn first_hyphen(name: Seq<char>, slot: Seq<char>, hash: Seq<char>, ext: Seq<char>) -> int {
    second_hyphen(name, hash, ext) - 1 - slot.len()
}

/// Where the hyphen in front of the hash is.
spec fn second_hyphen(name: Seq<char>, hash: Seq<char>, ext: Seq<char>) -> int {
    name.len() - ext.len() - 6 - hash.len()
}

/// What stands where in a name.
proof fn lemma_parts(name: Seq<char>, slot: Seq<char>, hash: Seq<char>, ext: Seq<char>)
    requires
        has_parts(name, slot, hash, ext),
    ensures
        0 <= first_hyphen(name, slot, hash, ext),
        name[first_hyphen(name, slot, hash, ext)] == '-',
        name[second_hyphen(name, hash, ext)] == '-',
        name.last() == ext.last(),
        forall|i: int|
            0 <= i < slot.len() ==> #[trigger] slot[i] == name[first_hyphen(name, slot, hash, ext)
                + 1 + i] && slot[i] != '-',
        forall|i: int|
            0 <= i < hash.len() ==> #[trigger] hash[i] == name[second_hyphen(name, hash, ext) + 1
                + i] && hash[i] != '-',
{
    reveal_strlit("snapshot-");
    reveal_strlit("-");
    reveal_strlit(".tar.");
    lemma_ext(ext);
    let front = "snapshot-"@ + slot;
    let middle = front + "-"@;
    let back = middle + hash;
    let ending = back + ".tar."@ + ext;
    let start = name.len() - ending.len();
    assert(ending.len() == 15 + slot.len() + hash.len() + ext.len());
    assert(start + 8 == first_hyphen(name, slot, hash, ext));
    assert(start + 9 + slot.len() == second_hyphen(name, hash, ext));
    assert(forall|i: int| 0 <= i < ending.len() ==> #[trigger] ending[i] == name[start + i]) by {
        assert forall|i: int| 0 <= i < ending.len() implies #[trigger] ending[i] == name[start
            + i] by {
            assert(name.skip(start)[i] == name[start + i]);
        }
    }
    assert(ending[8] == "snapshot-"@[8]);
    assert(ending[9 + slot.len() as int] == "-"@[0]);
    assert(ending[ending.len() - 1] == ext.last());
    assert forall|i: int| 0 <= i < slot.len() implies #[trigger] slot[i] == name[first_hyphen(
        name,
        slot,
        hash,
        ext,
    ) + 1 + i] && slot[i] != '-' by {
        assert(ending[9 + i] == slot[i]);
    }
    assert forall|i: int| 0 <= i < hash.len() implies #[trigger] hash[i] == name[second_hyphen(
        name,
        hash,
        ext,
    ) + 1 + i] && hash[i] != '-' by {
        assert(ending[10 + slot.len() + i] == hash[i]);
        assert(is_alphanumeric(hash[i]));
    }
}

/// A name has its parts in one way only.
proof fn lemma_parts_unique(
    name: Seq<char>,
    slot1: Seq<char>,
    hash1: Seq<char>,
    ext1: Seq<char>,
    slot2: Seq<char>,
    hash2: Seq<char>,
    ext2: Seq<char>,
)
    requires
        has_parts(name, slot1, hash1, ext1),
        has_parts(name, slot2, hash2, ext2),
    ensures
        slot1 == slot2,
        hash1 == hash2,
        ext1 == ext2,
{
    lemma_parts(name, slot1, hash1, ext1);
    lemma_parts(name, slot2, hash2, ext2);
    lemma_ext(ext1);
    lemma_ext(ext2);
    assert(ext1 == ext2);
    let second1 = second_hyphen(name, hash1, ext1);
    let second2 = second_hyphen(name, hash2, ext2);
    // the hash reaches back to the last hyphen
    if second1 < second2 {
        assert(hash1[second2 - second1 - 1] != '-');
    } else if second2 < second1 {
        assert(hash2[second1 - second2 - 1] != '-');
    }
    assert(hash1 =~= hash2);
    let first1 = first_hyphen(name, slot1, hash1, ext1);
    let first2 = first_hyphen(name, slot2, hash2, ext2);
    // the slot reaches back to the hyphen before
    if first1 < first2 {
        assert(slot1[first2 - first1 - 1] != '-');
    } else if first2 < first1 {
        assert(slot2[first1 - first2 - 1] != '-');
    }
    assert(slot1 =~= slot2);
}

/// A number's text with no other ASCII characters than digits holds nothing but digits.
proof fn lemma_number_is_digits(text: Seq<char>, value: nat, max: nat)
    requires
        crate::text::read_digits(text, value, max) is Ok,
    ensures
        all_digits(text),
    decreases text.len(),
{
    if text.len() > 0 {
        let rest = text.drop_first();
        let longer = (value * 10 + (text[0] as nat - '0' as nat)) as nat;
        lemma_number_is_digits(rest, longer, max);
        assert forall|i: int| 0 <= i < text.len() implies is_digit(#[trigger] text[i]) by {
            if i > 0 {
                assert(rest[i - 1] == text[i]);
            }
        }
    }
}

/// An archive's name stands for one snapshot at most.
pub proof fn law_archive_names_are_unambiguous(
    name: Seq<char>,
    slot1: Slot,
    hash1: Seq<u8>,
    compression1: CompressionType,
    slot2: Slot,
    hash2: Seq<u8>,
    compression2: CompressionType,
)
    requires
        snapshot_of(name, slot1, hash1, compression1),
        snapshot_of(name, slot2, hash2, compression2),
    ensures
        slot1 == slot2,
        hash1 == hash2,
        compression1 == compression2,
{
    let (s1, h1, e1) = choose|s: Seq<char>, h: Seq<char>, e: Seq<char>| #[trigger]
        names_snapshot(name, s, h, e, slot1, hash1, compression1);
    let (s2, h2, e2) = choose|s: Seq<char>, h: Seq<char>, e: Seq<char>| #[trigger]
        names_snapshot(name, s, h, e, slot2, hash2, compression2);
    lemma_parts_unique(name, s1, h1, e1, s2, h2, e2);
}

/// The snapshot that an archive's name stands for.
pub fn snapshot_hash_of(archive_filename: &str) -> (snapshot: Option<
    (Slot, crate::hash::Hash, CompressionType),
>)
    ensures
        match snapshot {
            Some((slot, hash, compression)) => snapshot_of(
                archive_filename@,
                slot,
                hash@,
                compression,
            ),
            None => forall|slot: Slot, hash: Seq<u8>, compression: CompressionType|
                !#[trigger] snapshot_of(archive_filename@, slot, hash, compression),
        },
{
    let ghost name = archive_filename@;
    match archive_name_captures(ARCHIVE_NAME_PATTERN, archive_filename) {
        Some(parts) => {
            let slot = parse_unsigned(parts.slot.as_str(), u64::MAX);
            let hash = crate::hash::Hash::parse(parts.hash.as_str());
            let compression = compression_type_from_str(parts.ext.as_str());
            match (slot, hash, compression) {
                (Ok(slot), Ok(hash), Some(compression)) => {
                    assert(names_snapshot(
                        name,
                        parts.slot@,
                        parts.hash@,
                        parts.ext@,
                        slot,
                        hash@,
                        compression,
                    ));
                    return Some((slot, hash, compression));
                },
                _ => {
                    proof {
                        assert forall|s: Slot, h: Seq<u8>, c: CompressionType| !#[trigger] snapshot_of(
                            name,
                            s,
                            h,
                            c,
                        ) by {
                            if snapshot_of(name, s, h, c) {
                                let (st, ht, et) = choose|
                                    st: Seq<char>,
                                    ht: Seq<char>,
                                    et: Seq<char>,
                                | #[trigger]
                                    names_snapshot(name, st, ht, et, s, h, c);
                                lemma_parts_unique(
                                    name,
                                    st,
                                    ht,
                                    et,
                                    parts.slot@,
                                    parts.hash@,
                                    parts.ext@,
                                );
                            }
                        }
                    }
                },
            }
        },
        None => {
            proof {
                assert forall|s: Slot, h: Seq<u8>, c: CompressionType| !#[trigger] snapshot_of(
                    name,
                    s,
                    h,
                    c,
                ) by {
                    if snapshot_of(name, s, h, c) {
                        let (st, ht, et) = choose|st: Seq<char>, ht: Seq<char>, et: Seq<char>|
                         #[trigger]
                            names_snapshot(name, st, ht, et, s, h, c);
                        assert(st[0] != '+');
                        lemma_number_is_digits(st, 0, u64::MAX as nat);
                        assert(has_parts(name, st, ht, et));
                    }
                }
            }
        },
    }
    None
}

proof fn lemma_archive_name(
    slot: Slot,
    hash_text: Seq<char>,
    hash: Seq<u8>,
    compression: CompressionType,
)
    requires
        compression != CompressionType::NoCompression,
        parse_hash(hash_text) == Ok::<Seq<u8>, ParseHashError>(hash),
        hash_text.len() > 0,
        forall|i: int| 0 <= i < hash_text.len() ==> is_base58(#[trigger] hash_text[i]),
    ensures
        snapshot_of(
            "snapshot-"@ + decimal(slot as nat) + "-"@ + hash_text + compression_ext(compression),
            slot,
            hash,
            compression,
        ),
{
    reveal_strlit("snapshot-");
    reveal_strlit("-");
    reveal_strlit(".tar.");
    reveal_strlit(".tar.bz2");
    reveal_strlit(".tar.gz");
    reveal_strlit(".tar.zst");
    reveal_strlit("bz2");
    reveal_strlit("gz");
    reveal_strlit("zst");
    let digits = decimal(slot as nat);
    let ext = match compression {
        CompressionType::Bzip2 => "bz2"@,
        CompressionType::Gzip => "gz"@,
        _ => "zst"@,
    };
    let name = "snapshot-"@ + digits + "-"@ + hash_text + compression_ext(compression);
    law_decimal_round_trip(slot as nat, u64::MAX as nat);
    assert(".tar."@ + ext =~= compression_ext(compression));
    let ending = "snapshot-"@ + digits + "-"@ + hash_text + ".tar."@ + ext;
    assert(ending =~= name);
    assert(name.skip(0) =~= name);
    assert("bz2"@[0] != "gz"@[0]);
    assert("bz2"@[0] != "zst"@[0]);
    assert("gz"@[0] != "zst"@[0]);
    assert(has_parts(name, digits, hash_text, ext));
    assert(names_snapshot(name, digits, hash_text, ext, slot, hash, compression));
}

/// The name of the archive of a snapshot. Of a compressed archive, the name stands for the
/// snapshot.
pub fn snapshot_archive_name(
    slot: Slot,
    hash: &crate::hash::Hash,
    compression: &CompressionType,
) -> (name: String)
    ensures
        name@ == "snapshot-"@ + decimal(slot as nat) + "-"@ + base58_text(hash@)
            + compression_ext(*compression),
        *compression != CompressionType::NoCompression ==> snapshot_of(
            name@,
            slot,
            hash@,
            *compression,
        ),
{
    let hash_text = hash.to_base58();
    let mut name = "snapshot-".to_owned();
    name.append(decimal_text(slot).as_str());
    name.append("-");
    name.append(hash_text.as_str());
    name.append(get_compression_ext(compression));
    proof {
        if *compression != CompressionType::NoCompression {
            lemma_archive_name(slot, hash_text@, hash@, *compression);
        }
    }
    name
}

/// The name of the file that holds the bank of a slot, and of the directory that it is in.
pub fn get_snapshot_file_name(slot: Slot) -> (name: String)
    ensures
        name@ == decimal(slot as nat),
{
    decimal_text(slot)
}

/// A snapshot of a slot: the slot, and the path of the bank's file below the directory of
/// snapshots.
#[derive(Debug, PartialEq, Eq)]
pub struct SlotSnapshotPaths {
    pub slot: Slot,
    pub snapshot_file_path: String,
}

impl SlotSnapshotPaths {
    /// The bank snapshot is stored as slot/slot.
    pub open spec fn wf(self) -> bool {
        self.snapshot_file_path@ == decimal(self.slot as nat) + "/"@ + decimal(self.slot as nat)
    }

    pub fn new(slot: Slot) -> (paths: Self)
        ensures
            paths.wf(),
            paths.slot == slot,
            paths.snapshot_file_path@ == decimal(slot as nat) + "/"@ + decimal(slot as nat),
    {
        let name = get_snapshot_file_name(slot);
        let mut path = name.clone();
        path.append("/");
        path.append(name.as_str());
        SlotSnapshotPaths { slot, snapshot_file_path: path }
    }
}

/// The slots that the names of directories stand for, in the order of the names.
pub open spec fn slots_named(names: Seq<String>) -> Seq<Slot>
    decreases names.len(),
{
    if names.len() == 0 {
        Seq::empty()
    } else {
        let rest = slots_named(names.drop_last());
        match parse_number(names.last()@, u64::MAX as nat) {
            Ok(slot) => rest.push(slot as u64),
            Err(_) => rest,
        }
    }
}

pub open spec fn slots_of_paths(paths: Seq<SlotSnapshotPaths>) -> Seq<Slot> {
    paths.map_values(|one: SlotSnapshotPaths| one.slot)
}

pub open spec fn ascending(slots: Seq<Slot>) -> bool {
    forall|i: int, j: int| 0 <= i < j < slots.len() ==> #[trigger] slots[i] <= #[trigger] slots[j]
}

proof fn lemma_insert_to_multiset(slots: Seq<Slot>, i: int, slot: Slot)
    requires
        0 <= i <= slots.len(),
    ensures
        slots.insert(i, slot).to_multiset() == slots.to_multiset().insert(slot),
    decreases slots.len(),
{
    broadcast use vstd::seq_lib::group_to_multiset_ensures;

    if i == slots.len() {
        assert(slots.insert(i, slot) =~= slots.push(slot));
    } else {
        let shorter = slots.drop_last();
        lemma_insert_to_multiset(shorter, i, slot);
        assert(slots.insert(i, slot) =~= shorter.insert(i, slot).push(slots.last()));
        assert(slots =~= shorter.push(slots.last()));
    }
}

/// The snapshots in a directory, given the names in it: those whose name is a slot, from the
/// oldest to the newest.
pub fn get_snapshot_paths(names: &Vec<String>) -> (paths: Vec<SlotSnapshotPaths>)
    ensures
        ascending(slots_of_paths(paths@)),
        slots_of_paths(paths@).to_multiset() == slots_named(names@).to_multiset(),
        forall|i: int| 0 <= i < paths@.len() ==> (#[trigger] paths@[i]).wf(),
        forall|i: int, j: int|
            0 <= i < j < paths@.len() ==> (#[trigger] paths@[i]).slot <= (#[trigger] paths@[j]).slot,
        forall|i: int|
            0 <= i < paths@.len() ==> (#[trigger] paths@[i]).snapshot_file_path@ == decimal(
                paths@[i].slot as nat,
            ) + "/"@ + decimal(paths@[i].slot as nat),
{
    let mut paths: Vec<SlotSnapshotPaths> = Vec::new();
    let mut i: usize = 0;
    assert(names@.take(0) =~= Seq::empty());
    assert(slots_of_paths(paths@) =~= Seq::empty());
    while i < names.len()
        invariant
            i <= names@.len(),
            ascending(slots_of_paths(paths@)),
            slots_of_paths(paths@).to_multiset() == slots_named(
                names@.take(i as int),
            ).to_multiset(),
            forall|j: int| 0 <= j < paths@.len() ==> (#[trigger] paths@[j]).wf(),
        decreases names@.len() - i,
    {
        broadcast use vstd::seq_lib::group_to_multiset_ensures;

        assert(names@.take(i + 1).drop_last() =~= names@.take(i as int));
        assert(names@.take(i + 1).last() == names@[i as int]);
        match parse_unsigned(names[i].as_str(), u64::MAX) {
            Ok(slot) => {
                let ghost before = slots_of_paths(paths@);
                let mut at: usize = 0;
                while at < paths.len() && paths[at].slot <= slot
                    invariant
                        at <= paths@.len(),
                        before == slots_of_paths(paths@),
                        forall|j: int| 0 <= j < at ==> (#[trigger] before[j]) <= slot,
                    decreases paths@.len() - at,
                {
                    assert(before[at as int] == paths@[at as int].slot);
                    at += 1;
                }
                assert(at < paths@.len() ==> before[at as int] == paths@[at as int].slot);
                let ghost current = paths@;
                paths.insert(at, SlotSnapshotPaths::new(slot));
                proof {
                    assert(slots_of_paths(paths@) =~= before.insert(at as int, slot));
                    lemma_insert_to_multiset(before, at as int, slot);
                    let after = before.insert(at as int, slot);
                    assert forall|j: int, k: int| 0 <= j < k < after.len() implies #[trigger] after[j]
                        <= #[trigger] after[k] by {
                        let bj = if j < at {
                            j
                        } else {
                            j - 1
                        };
                        let bk = if k < at {
                            k
                        } else {
                            k - 1
                        };
                        if j != at {
                            assert(after[j] == before[bj]);
                        }
                        if k != at {
                            assert(after[k] == before[bk]);
                        }
                        if j == at {
                            assert(before[at as int] <= before[bk]);
                        }
                    }
                    assert forall|j: int| 0 <= j < paths@.len() implies (
                    #[trigger] paths@[j]).wf() by {
                        if j < at {
                            assert(paths@[j] == current[j]);
                        } else if j > at {
                            assert(paths@[j] == current[j - 1]);
                        }
                    }
                }
            },
            Err(_) => {},
        }
        i += 1;
    }
    proof {
        assert(names@.take(i as int) =~= names@);
        let slots = slots_of_paths(paths@);
        assert forall|i: int, j: int| 0 <= i < j < paths@.len() implies (#[trigger] paths@[i]).slot
            <= (#[trigger] paths@[j]).slot by {
            assert(slots[i] <= slots[j]);
        }
    }
    paths
}

/// A snapshot archive: the name of its file, and what the name stands for.
pub struct SnapshotArchive {
    pub file_name: String,
    pub slot: Slot,
    pub hash: crate::hash::Hash,
    pub compression: CompressionType,
}

impl SnapshotArchive {
    pub open spec fn wf(self) -> bool {
        snapshot_of(self.file_name@, self.slot, self.hash@, self.compression)
    }
}

/// A name and the slot that it stands for.
pub type NamedSlot = (Seq<char>, Slot);

pub open spec fn named_slots(archives: Seq<SnapshotArchive>) -> Seq<NamedSlot> {
    archives.map_values(|archive: SnapshotArchive| (archive.file_name@, archive.slot))
}

/// Where a slot goes in a list from the newest to the oldest: behind those that are not older.
pub open spec fn newest_first_position(named: Seq<NamedSlot>, slot: Slot) -> nat
    decreases named.len(),
{
    if named.len() == 0 || named[0].1 < slot {
        0
    } else {
        1 + newest_first_position(named.drop_first(), slot)
    }
}

proof fn lemma_newest_first_position(named: Seq<NamedSlot>, slot: Slot, position: int)
    requires
        0 <= position <= named.len(),
        forall|i: int| 0 <= i < position ==> (#[trigger] named[i]).1 >= slot,
        position < named.len() ==> named[position].1 < slot,
    ensures
        newest_first_position(named, slot) == position,
    decreases named.len(),
{
    if position > 0 {
        let rest = named.drop_first();
        assert(named[0].1 >= slot);
        assert forall|i: int| 0 <= i < position - 1 implies (#[trigger] rest[i]).1 >= slot by {
            assert(rest[i] == named[i + 1]);
        }
        if position < named.len() {
            assert(rest[position - 1] == named[position]);
        }
        lemma_newest_first_position(rest, slot, position - 1);
    }
}

/// Whether a name stands for a snapshot.
pub open spec fn is_archive_name(name: Seq<char>) -> bool {
    exists|slot: Slot, hash: Seq<u8>, compression: CompressionType| #[trigger]
        snapshot_of(name, slot, hash, compression)
}

/// The slot of the snapshot that a name stands for.
pub open spec fn archive_slot(name: Seq<char>) -> Slot {
    let (slot, _, _) = choose|slot: Slot, hash: Seq<u8>, compression: CompressionType| #[trigger]
        snapshot_of(name, slot, hash, compression);
    slot
}

/// The archives among the names in a directory, from the newest to the oldest; of archives of
/// the same slot in the order of the names.
pub open spec fn archives_among(names: Seq<String>) -> Seq<NamedSlot>
    decreases names.len(),
{
    if names.len() == 0 {
        Seq::empty()
    } else {
        let rest = archives_among(names.drop_last());
        let name = names.last()@;
        if is_archive_name(name) {
            rest.insert(
                newest_first_position(rest, archive_slot(name)) as int,
                (name, archive_slot(name)),
            )
        } else {
            rest
        }
    }
}

/// The snapshot archives in a directory, given the names of the files in it: from the newest
/// to the oldest.
pub fn get_snapshot_archives(names: &Vec<String>) -> (archives: Vec<SnapshotArchive>)
    ensures
        named_slots(archives@) == archives_among(names@),
        forall|i: int| 0 <= i < archives@.len() ==> (#[trigger] archives@[i]).wf(),
        forall|i: int|
            0 <= i < archives@.len() ==> snapshot_of(
                (#[trigger] archives@[i]).file_name@,
                archives@[i].slot,
                archives@[i].hash@,
                archives@[i].compression,
            ),
        forall|i: int, slot: Slot, hash: Seq<u8>, compression: CompressionType|
            0 <= i < names@.len() && #[trigger] snapshot_of(names@[i]@, slot, hash, compression)
                ==> exists|j: int|
                0 <= j < archives@.len() && (#[trigger] archives@[j]).file_name@ == names@[i]@
                    && archives@[j].slot == slot && archives@[j].hash@ == hash
                    && archives@[j].compression == compression,
        forall|i: int, j: int|
            0 <= i < j < archives@.len() ==> (#[trigger] archives@[i]).slot >= (
            #[trigger] archives@[j]).slot,
{
    let mut archives: Vec<SnapshotArchive> = Vec::new();
    let mut i: usize = 0;
    assert(names@.take(0) =~= Seq::empty());
    assert(named_slots(archives@) =~= Seq::empty());
    while i < names.len()
        invariant
            i <= names@.len(),
            named_slots(archives@) == archives_among(names@.take(i as int)),
            forall|j: int| 0 <= j < archives@.len() ==> (#[trigger] archives@[j]).wf(),
        decreases names@.len() - i,
    {
        assert(names@.take(i + 1).drop_last() =~= names@.take(i as int));
        assert(names@.take(i + 1).last() == names@[i as int]);
        match snapshot_hash_of(names[i].as_str()) {
            Some((slot, hash, compression)) => {
                let ghost name = names@[i as int]@;
                let ghost before = named_slots(archives@);
                let ghost current = archives@;
                proof {
                    assert(is_archive_name(name));
                    let (s, h, c) = choose|s: Slot, h: Seq<u8>, c: CompressionType| #[trigger]
                        snapshot_of(name, s, h, c);
                    law_archive_names_are_unambiguous(name, slot, hash@, compression, s, h, c);
                    assert(archive_slot(name) == slot);
                }
                let mut at: usize = 0;
                while at < archives.len() && archives[at].slot >= slot
                    invariant
                        at <= archives@.len(),
                        before == named_slots(archives@),
                        forall|j: int| 0 <= j < at ==> (#[trigger] before[j]).1 >= slot,
                    decreases archives@.len() - at,
                {
                    assert(before[at as int].1 == archives@[at as int].slot);
                    at += 1;
                }
                proof {
                    assert(at < archives@.len() ==> before[at as int].1
                        == archives@[at as int].slot);
                    lemma_newest_first_position(before, slot, at as int);
                }
                archives.insert(
                    at,
                    SnapshotArchive { file_name: names[i].clone(), slot, hash, compression },
                );
                proof {
                    assert(named_slots(archives@) =~= before.insert(at as int, (name, slot)));
                    assert forall|j: int| 0 <= j < archives@.len() implies (
                    #[trigger] archives@[j]).wf() by {
                        if j < at {
                            assert(archives@[j] == current[j]);
                        } else if j > at {
                            assert(archives@[j] == current[j - 1]);
                        }
                    }
                }
            },
            None => {
                assert(!is_archive_name(names@[i as int]@));
            },
        }
        i += 1;
    }
    proof {
        assert(names@.take(i as int) =~= names@);
        lemma_archives_listed(names@, archives@);
    }
    archives
}

proof fn lemma_archives_listed(names: Seq<String>, archives: Seq<SnapshotArchive>)
    requires
        named_slots(archives) == archives_among(names),
        forall|i: int| 0 <= i < archives.len() ==> (#[trigger] archives[i]).wf(),
    ensures
        forall|i: int, slot: Slot, hash: Seq<u8>, compression: CompressionType|
            0 <= i < names.len() && #[trigger] snapshot_of(names[i]@, slot, hash, compression)
                ==> exists|j: int|
                0 <= j < archives.len() && (#[trigger] archives[j]).file_name@ == names[i]@
                    && archives[j].slot == slot && archives[j].hash@ == hash
                    && archives[j].compression == compression,
        forall|i: int, j: int|
            0 <= i < j < archives.len() ==> (#[trigger] archives[i]).slot >= (
            #[trigger] archives[j]).slot,
{
    broadcast use vstd::seq_lib::group_to_multiset_ensures;

    let listed = archives_among(names);
    law_every_archive_is_listed(names);
    law_archives_are_newest_first(names);
    assert forall|i: int, slot: Slot, hash: Seq<u8>, compression: CompressionType|
        0 <= i < names.len() && #[trigger] snapshot_of(
            names[i]@,
            slot,
            hash,
            compression,
        ) implies exists|j: int|
        0 <= j < archives.len() && (#[trigger] archives[j]).file_name@ == names[i]@
            && archives[j].slot == slot && archives[j].hash@ == hash && archives[j].compression
            == compression by {
        assert(name_texts(names)[i] == names[i]@);
        assert(name_texts(names).contains(names[i]@));
        assert(listed.to_multiset().count((names[i]@, slot)) > 0);
        assert(listed.contains((names[i]@, slot)));
        let j = choose|j: int| 0 <= j < listed.len() && listed[j] == (names[i]@, slot);
        assert(listed[j] == (archives[j].file_name@, archives[j].slot));
        assert(archives[j].wf());
        law_archive_names_are_unambiguous(
            names[i]@,
            slot,
            hash,
            compression,
            archives[j].slot,
            archives[j].hash@,
            archives[j].compression,
        );
    }
    assert forall|i: int, j: int| 0 <= i < j < archives.len() implies (#[trigger] archives[i]).slot
        >= (#[trigger] archives[j]).slot by {
        assert(listed[i] == (archives[i].file_name@, archives[i].slot));
        assert(listed[j] == (archives[j].file_name@, archives[j].slot));
    }
}

/// The newest snapshot archive.
pub fn get_highest_snapshot_archive_path(names: &Vec<String>) -> (archive: Option<SnapshotArchive>)
    ensures
        match archive {
            Some(archive) => {
                &&& archives_among(names@).len() > 0
                &&& (archive.file_name@, archive.slot) == archives_among(names@)[0]
                &&& archive.wf()
                &&& snapshot_of(
                    archive.file_name@,
                    archive.slot,
                    archive.hash@,
                    archive.compression,
                )
                &&& exists|i: int|
                    0 <= i < names@.len() && (#[trigger] names@[i])@ == archive.file_name@
                &&& forall|i: int, slot: Slot, hash: Seq<u8>, compression: CompressionType|
                    0 <= i < names@.len() && #[trigger] snapshot_of(
                        names@[i]@,
                        slot,
                        hash,
                        compression,
                    ) ==> slot <= archive.slot
            },
            None => archives_among(names@).len() == 0,
        },
        archive is None <==> forall|i: int|
            0 <= i < names@.len() ==> !is_archive_name(#[trigger] names@[i]@),
{
    let mut archives = get_snapshot_archives(names);
    proof {
        law_every_archive_is_listed(names@);
        law_highest_archive(names@);
    }
    if archives.len() > 0 {
        let ghost all = archives@;
        proof {
            let listed = archives_among(names@);
            assert(listed[0] == (all[0].file_name@, all[0].slot));
            assert(listed.contains((all[0].file_name@, all[0].slot)));
            let texts = name_texts(names@);
            let i = choose|i: int| 0 <= i < texts.len() && texts[i] == all[0].file_name@;
            assert(names@[i]@ == all[0].file_name@);
        }
        assert(named_slots(all)[0] == (all[0].file_name@, all[0].slot));
        Some(archives.swap_remove(0))
    } else {
        None
    }
}

/// Archives are listed from the newest to the oldest.
pub proof fn law_archives_are_newest_first(names: Seq<String>)
    ensures
        forall|i: int, j: int|
            0 <= i < j < archives_among(names).len() ==> (#[trigger] archives_among(names)[i]).1
                >= (#[trigger] archives_among(names)[j]).1,
    decreases names.len(),
{
    if names.len() > 0 {
        law_archives_are_newest_first(names.drop_last());
        let rest = archives_among(names.drop_last());
        let name = names.last()@;
        if is_archive_name(name) {
            let slot = archive_slot(name);
            let at = newest_first_position(rest, slot) as int;
            lemma_position_splits(rest, slot);
            let all = rest.insert(at, (name, slot));
            assert forall|i: int, j: int| 0 <= i < j < all.len() implies (#[trigger] all[i]).1 >= (
            #[trigger] all[j]).1 by {
                let bi = if i < at {
                    i
                } else {
                    i - 1
                };
                let bj = if j < at {
                    j
                } else {
                    j - 1
                };
                if i != at {
                    assert(all[i] == rest[bi]);
                }
                if j != at {
                    assert(all[j] == rest[bj]);
                }
                if i == at {
                    assert(rest[at].1 >= rest[bj].1);
                }
            }
        }
    }
}

proof fn lemma_position_splits(named: Seq<NamedSlot>, slot: Slot)
    ensures
        newest_first_position(named, slot) <= named.len(),
        forall|i: int|
            0 <= i < newest_first_position(named, slot) ==> (#[trigger] named[i]).1 >= slot,
        newest_first_position(named, slot) < named.len() ==> named[newest_first_position(
            named,
            slot,
        ) as int].1 < slot,
    decreases named.len(),
{
    if named.len() > 0 && named[0].1 >= slot {
        let rest = named.drop_first();
        lemma_position_splits(rest, slot);
        let position = newest_first_position(named, slot);
        assert forall|i: int| 0 <= i < position implies (#[trigger] named[i]).1 >= slot by {
            if i > 0 {
                assert(rest[i - 1] == named[i]);
            }
        }
        if position < named.len() {
            assert(rest[position - 1] == named[position as int]);
        }
    }
}

proof fn lemma_archive_slot(name: Seq<char>, slot: Slot, hash: Seq<u8>, compression: CompressionType)
    requires
        snapshot_of(name, slot, hash, compression),
    ensures
        is_archive_name(name),
        archive_slot(name) == slot,
{
    let (s, h, c) = choose|s: Slot, h: Seq<u8>, c: CompressionType| #[trigger]
        snapshot_of(name, s, h, c);
    law_archive_names_are_unambiguous(name, slot, hash, compression, s, h, c);
}

/// The names, as texts.
pub open spec fn name_texts(names: Seq<String>) -> Seq<Seq<char>> {
    names.map_values(|name: String| name@)
}

/// Every archive of a directory is listed, with its slot and as often as its name is given,
/// whatever its compression; and nothing is listed that is not the name of an archive.
pub proof fn law_every_archive_is_listed(names: Seq<String>)
    ensures
        forall|name: Seq<char>, slot: Slot, hash: Seq<u8>, compression: CompressionType| #[trigger]
            snapshot_of(name, slot, hash, compression) ==> archives_among(
                names,
            ).to_multiset().count((name, slot)) == name_texts(names).to_multiset().count(name),
        forall|name: Seq<char>, slot: Slot| #[trigger]
            archives_among(names).contains((name, slot)) ==> name_texts(names).contains(name)
                && exists|hash: Seq<u8>, compression: CompressionType| #[trigger]
                snapshot_of(name, slot, hash, compression),
    decreases names.len(),
{
    broadcast use vstd::seq_lib::group_to_multiset_ensures;

    let listed = archives_among(names);
    let texts = name_texts(names);
    if names.len() == 0 {
        assert(texts =~= Seq::empty());
        assert(listed =~= Seq::empty());
    } else {
        let shorter = names.drop_last();
        law_every_archive_is_listed(shorter);
        let rest = archives_among(shorter);
        let last = names.last()@;
        assert(texts =~= name_texts(shorter).push(last));
        if is_archive_name(last) {
            let at = newest_first_position(rest, archive_slot(last)) as int;
            lemma_position_splits(rest, archive_slot(last));
            vstd::seq_lib::to_multiset_insert(rest, at, (last, archive_slot(last)));
        }
        assert forall|name: Seq<char>, slot: Slot, hash: Seq<u8>, compression: CompressionType|
            #[trigger] snapshot_of(name, slot, hash, compression) implies listed.to_multiset().count(
            (name, slot),
        ) == texts.to_multiset().count(name) by {
            lemma_archive_slot(name, slot, hash, compression);
            assert(rest.to_multiset().count((name, slot)) == name_texts(
                shorter,
            ).to_multiset().count(name));
        }
        assert forall|name: Seq<char>, slot: Slot| #[trigger]
            listed.contains((name, slot)) implies texts.contains(name) && exists|
            hash: Seq<u8>,
            compression: CompressionType,
        | #[trigger] snapshot_of(name, slot, hash, compression) by {
            assert(listed.to_multiset().count((name, slot)) > 0);
            if !rest.contains((name, slot)) {
                assert(rest.to_multiset().count((name, slot)) == 0);
                assert((name, slot) == (last, archive_slot(last)));
                assert(texts[texts.len() - 1] == name);
            } else {
                let i = choose|i: int| 0 <= i < shorter.len() && name_texts(shorter)[i] == name;
                assert(texts[i] == name);
            }
        }
    }
}

/// Archives of the same slot are listed in the order in which their names are given.
pub proof fn law_archives_of_a_slot_keep_their_order(names: Seq<String>, slot: Slot)
    ensures
        archives_among(names).filter(|one: NamedSlot| one.1 == slot) == name_texts(names).filter(
            |name: Seq<char>|
                exists|hash: Seq<u8>, compression: CompressionType| #[trigger]
                    snapshot_of(name, slot, hash, compression),
        ).map_values(|name: Seq<char>| (name, slot)),
    decreases names.len(),
{
    reveal(Seq::filter);
    let of_slot = |one: NamedSlot| one.1 == slot;
    let stands = |name: Seq<char>|
        exists|hash: Seq<u8>, compression: CompressionType| #[trigger]
            snapshot_of(name, slot, hash, compression);
    let named = |name: Seq<char>| (name, slot);
    let listed = archives_among(names);
    let texts = name_texts(names);
    if names.len() == 0 {
        assert(texts =~= Seq::empty());
        assert(listed =~= Seq::empty());
        assert(listed.filter(of_slot) =~= texts.filter(stands).map_values(named));
    } else {
        let shorter = names.drop_last();
        law_archives_of_a_slot_keep_their_order(shorter, slot);
        law_archives_are_newest_first(shorter);
        let rest = archives_among(shorter);
        let last = names.last()@;
        assert(texts.drop_last() =~= name_texts(shorter));
        assert(texts.last() == last);
        if is_archive_name(last) {
            let own = archive_slot(last);
            let at = newest_first_position(rest, own) as int;
            lemma_position_splits(rest, own);
            let (s, h, c) = choose|s: Slot, h: Seq<u8>, c: CompressionType| #[trigger]
                snapshot_of(last, s, h, c);
            assert(snapshot_of(last, own, h, c));
            if stands(last) {
                let (h2, c2) = choose|h2: Seq<u8>, c2: CompressionType| #[trigger]
                    snapshot_of(last, slot, h2, c2);
                lemma_archive_slot(last, slot, h2, c2);
            }
            assert(stands(last) <==> own == slot);
            let before = rest.take(at);
            let after = rest.skip(at);
            assert(rest =~= before + after);
            assert(listed =~= before.push((last, own)) + after);
            Seq::filter_distributes_over_add(before, after, of_slot);
            Seq::filter_distributes_over_add(before.push((last, own)), after, of_slot);
            assert(before.push((last, own)).drop_last() =~= before);
            if own == slot {
                assert forall|i: int| 0 <= i < after.len() implies !of_slot(
                    #[trigger] after[i],
                ) by {
                    assert(after[i] == rest[at + i]);
                    if i > 0 {
                        assert(rest[at].1 >= rest[at + i].1);
                    }
                }
                lemma_nothing_kept(after, of_slot);
                assert(listed.filter(of_slot) =~= rest.filter(of_slot).push((last, slot)));
                assert(texts.filter(stands).map_values(named) =~= name_texts(shorter).filter(
                    stands,
                ).map_values(named).push((last, slot)));
            } else {
                assert(listed.filter(of_slot) =~= rest.filter(of_slot));
            }
        } else {
            assert(!stands(last));
        }
    }
}

proof fn lemma_nothing_kept<T>(items: Seq<T>, keep: spec_fn(T) -> bool)
    requires
        forall|i: int| 0 <= i < items.len() ==> !keep(#[trigger] items[i]),
    ensures
        items.filter(keep) == Seq::<T>::empty(),
    decreases items.len(),
{
    reveal(Seq::filter);
    if items.len() > 0 {
        let shorter = items.drop_last();
        assert forall|i: int| 0 <= i < shorter.len() implies !keep(#[trigger] shorter[i]) by {
            assert(shorter[i] == items[i]);
        }
        lemma_nothing_kept(shorter, keep);
        assert(items.last() == items[items.len() - 1]);
    }
}

/// There is a newest archive exactly where there is an archive at all, and no archive is newer.
pub proof fn law_highest_archive(names: Seq<String>)
    ensures
        archives_among(names).len() == 0 <==> forall|i: int|
            0 <= i < names.len() ==> !is_archive_name(#[trigger] names[i]@),
        forall|i: int, slot: Slot, hash: Seq<u8>, compression: CompressionType|
            0 <= i < names.len() && #[trigger] snapshot_of(names[i]@, slot, hash, compression)
                ==> archives_among(names).len() > 0 && archives_among(names)[0].1 >= slot,
{
    broadcast use vstd::seq_lib::group_to_multiset_ensures;

    let listed = archives_among(names);
    let texts = name_texts(names);
    law_every_archive_is_listed(names);
    law_archives_are_newest_first(names);
    if listed.len() > 0 {
        let (name, slot) = listed[0];
        assert(listed.contains((name, slot)));
        let i = choose|i: int| 0 <= i < texts.len() && texts[i] == name;
        assert(is_archive_name(names[i]@));
    }
    assert forall|i: int, slot: Slot, hash: Seq<u8>, compression: CompressionType|
        0 <= i < names.len() && #[trigger] snapshot_of(
            names[i]@,
            slot,
            hash,
            compression,
        ) implies listed.len() > 0 && listed[0].1 >= slot by {
        assert(texts[i] == names[i]@);
        assert(texts.contains(names[i]@));
        assert(listed.to_multiset().count((names[i]@, slot)) > 0);
        assert(listed.contains((names[i]@, slot)));
        let k = choose|k: int| 0 <= k < listed.len() && listed[k] == (names[i]@, slot);
        if k > 0 {
            assert(listed[0].1 >= listed[k].1);
        }
    }
    assert forall|i: int| 0 <= i < names.len() && listed.len() == 0 implies !is_archive_name(
        #[trigger] names[i]@,
    ) by {
        if is_archive_name(names[i]@) {
            let (s, h, c) = choose|s: Slot, h: Seq<u8>, c: CompressionType| #[trigger]
                snapshot_of(names[i]@, s, h, c);
            assert(snapshot_of(names[i]@, s, h, c));
        }
    }
}

proof fn lemma_endings()
    ensures
        ".tar."@ + "bz2"@ == ".tar.bz2"@,
        ".tar."@ + "gz"@ == ".tar.gz"@,
        ".tar."@ + "zst"@ == ".tar.zst"@,
        "bz2"@ != "gz"@,
        "bz2"@ != "zst"@,
        "gz"@ != "zst"@,
{
    reveal_strlit(".tar.");
    reveal_strlit(".tar.bz2");
    reveal_strlit(".tar.gz");
    reveal_strlit(".tar.zst");
    reveal_strlit("bz2");
    reveal_strlit("gz");
    reveal_strlit("zst");
    assert(".tar."@ + "bz2"@ =~= ".tar.bz2"@);
    assert(".tar."@ + "gz"@ =~= ".tar.gz"@);
    assert(".tar."@ + "zst"@ =~= ".tar.zst"@);
    assert("bz2"@[0] != "gz"@[0]);
    assert("bz2"@[0] != "zst"@[0]);
    assert("gz"@[0] != "zst"@[0]);
}

proof fn lemma_shown_snapshot(
    name: Seq<char>,
    slot: Slot,
    hash: Seq<u8>,
    compression: CompressionType,
)
    requires
        snapshot_of(name, slot, hash, compression),
    ensures
        exists|start: Seq<char>, digits: Seq<char>, hash_text: Seq<char>| #[trigger]
            shows_snapshot(name, start, digits, hash_text, slot, hash, compression),
{
    let (digits, hash_text, ext) = choose|s: Seq<char>, h: Seq<char>, e: Seq<char>| #[trigger]
        names_snapshot(name, s, h, e, slot, hash, compression);
    let front = "snapshot-"@ + digits + "-"@ + hash_text;
    let ending = front + ".tar."@ + ext;
    let start = name.take(name.len() - ending.len());
    assert(digits[0] != '+');
    lemma_number_is_digits(digits, 0, u64::MAX as nat);
    lemma_endings();
    let tar = ".tar."@ + ext;
    assert(tar == compression_ext(compression));
    assert(ending =~= front + tar);
    assert(name =~= start + ending);
    assert(start + ending =~= start + "snapshot-"@ + digits + "-"@ + hash_text + tar);
    assert(shows_snapshot(name, start, digits, hash_text, slot, hash, compression));
}

proof fn lemma_showing_snapshot(
    name: Seq<char>,
    start: Seq<char>,
    digits: Seq<char>,
    hash_text: Seq<char>,
    slot: Slot,
    hash: Seq<u8>,
    compression: CompressionType,
)
    requires
        shows_snapshot(name, start, digits, hash_text, slot, hash, compression),
    ensures
        snapshot_of(name, slot, hash, compression),
{
    let ext = match compression {
        CompressionType::Bzip2 => "bz2"@,
        CompressionType::Gzip => "gz"@,
        _ => "zst"@,
    };
    lemma_endings();
    let front = "snapshot-"@ + digits + "-"@ + hash_text;
    let tar = ".tar."@ + ext;
    let ending = front + ".tar."@ + ext;
    assert(ending =~= front + tar);
    assert(name =~= start + ending);
    assert(name.skip(name.len() - ending.len()) =~= ending);
    assert(names_snapshot(name, digits, hash_text, ext, slot, hash, compression));
}

/// A name stands for a snapshot exactly where it ends in "snapshot-", the digits of the slot, a
/// hyphen, the hash and the ending of a compressed archive.
pub proof fn law_archive_name_shape(
    name: Seq<char>,
    slot: Slot,
    hash: Seq<u8>,
    compression: CompressionType,
)
    ensures
        snapshot_of(name, slot, hash, compression) <==> exists|
            start: Seq<char>,
            digits: Seq<char>,
            hash_text: Seq<char>,
        | #[trigger]
            shows_snapshot(name, start, digits, hash_text, slot, hash, compression),
{
    if snapshot_of(name, slot, hash, compression) {
        lemma_shown_snapshot(name, slot, hash, compression);
    }
    if exists|start: Seq<char>, digits: Seq<char>, hash_text: Seq<char>| #[trigger]
        shows_snapshot(name, start, digits, hash_text, slot, hash, compression) {
        let (start, digits, hash_text) = choose|
            start: Seq<char>,
            digits: Seq<char>,
            hash_text: Seq<char>,
        | #[trigger]
            shows_snapshot(name, start, digits, hash_text, slot, hash, compression);
        lemma_showing_snapshot(name, start, digits, hash_text, slot, hash, compression);
    }
}

/// A name is made of a start, "snapshot-", the digits of a slot, a hyphen, a hash and an ending.
pub open spec fn shows_snapshot(
    name: Seq<char>,
    start: Seq<char>,
    digits: Seq<char>,
    hash_text: Seq<char>,
    slot: Slot,
    hash: Seq<u8>,
    compression: CompressionType,
) -> bool {
    &&& name == start + "snapshot-"@ + digits + "-"@ + hash_text + match compression {
        CompressionType::Bzip2 => ".tar.bz2"@,
        CompressionType::Gzip => ".tar.gz"@,
        CompressionType::Zstd => ".tar.zst"@,
        CompressionType::NoCompression => ".tar"@,
    }
    &&& compression != CompressionType::NoCompression
    &&& digits.len() > 0
    &&& forall|i: int| 0 <= i < digits.len() ==> '0' <= (#[trigger] digits[i]) <= '9'
    &&& parse_number(digits, u64::MAX as nat) == Ok::<nat, ParseIntError>(slot as nat)
    &&& hash_text.len() > 0
    &&& forall|i: int| 0 <= i < hash_text.len() ==> is_alphanumeric(#[trigger] hash_text[i])
    &&& parse_hash(hash_text) == Ok::<Seq<u8>, ParseHashError>(hash)
}

/// A slot is found among the names of directories as often as a name stands for it.
pub proof fn law_every_named_slot_is_found(names: Seq<String>, slot: Slot)
    ensures
        slots_named(names).to_multiset().count(slot) == name_texts(names).filter(
            |name: Seq<char>|
                parse_number(name, u64::MAX as nat) == Ok::<nat, ParseIntError>(slot as nat),
        ).len(),
    decreases names.len(),
{
    broadcast use vstd::seq_lib::group_to_multiset_ensures;

    reveal(Seq::filter);
    let texts = name_texts(names);
    if names.len() == 0 {
        assert(texts =~= Seq::empty());
        assert(slots_named(names) =~= Seq::empty());
    } else {
        let shorter = names.drop_last();
        law_every_named_slot_is_found(shorter, slot);
        assert(texts.drop_last() =~= name_texts(shorter));
        assert(texts.last() == names.last()@);
        crate::text::lemma_number_fits(names.last()@, u64::MAX as nat);
    }
}

/// All archives but the newest ones, which come first, and the oldest one, which is the last.
pub open spec fn outdated_among(archives: Seq<SnapshotArchive>) -> Seq<SnapshotArchive> {
    if archives.len() <= MAX_NEWEST_ARCHIVES + 1 {
        Seq::empty()
    } else {
        archives.subrange(MAX_NEWEST_ARCHIVES as int, archives.len() - 1)
    }
}

/// The archives that are no longer needed: all but the newest ones and the oldest one, from
/// which the ledger can always be played.
pub fn archives_to_remove(archives: Vec<SnapshotArchive>) -> (outdated: Vec<SnapshotArchive>)
    ensures
        outdated@ == outdated_among(archives@),
{
    let mut archives = archives;
    let ghost all = archives@;
    // Keep the oldest snapshot so we can always play the ledger from it.
    archives.pop();
    if archives.len() <= MAX_NEWEST_ARCHIVES {
        return Vec::new();
    }
    let outdated = archives.split_off(MAX_NEWEST_ARCHIVES);
    assert(outdated@ =~= all.subrange(MAX_NEWEST_ARCHIVES as int, all.len() - 1));
    outdated
}

/// After outdated archives are removed, at most three are left: the newest ones and the oldest
/// one. Whatever stands between them in the list is outdated, and nothing else is.
pub proof fn law_few_archives_are_kept(
    archives: Seq<SnapshotArchive>,
    outdated: Seq<SnapshotArchive>,
)
    requires
        outdated == outdated_among(archives),
    ensures
        archives.len() - outdated.len() <= 3,
        archives.len() <= 3 ==> outdated.len() == 0,
        archives.len() > 3 ==> {
            &&& archives.len() - outdated.len() == 3
            &&& archives == archives.take(MAX_NEWEST_ARCHIVES as int) + outdated + seq![
                archives.last(),
            ]
        },
        archives.no_duplicates() && archives.len() > 0 ==> !outdated.contains(archives.last())
            && forall|i: int|
            0 <= i < archives.len() && i < MAX_NEWEST_ARCHIVES ==> !outdated.contains(
                #[trigger] archives[i],
            ),
{
    if archives.len() > 3 {
        assert(archives =~= archives.take(MAX_NEWEST_ARCHIVES as int) + outdated + seq![
            archives.last(),
        ]);
        if archives.no_duplicates() {
            assert forall|k: int| 0 <= k < outdated.len() implies (#[trigger] outdated[k])
                == archives[k + MAX_NEWEST_ARCHIVES] by {}
        }
    }
}

/// The slots of the snapshots that are outdated: the oldest ones, so many that no more than
/// `max_entries` are left.
pub fn purge_old_snapshots(paths: &Vec<SlotSnapshotPaths>, max_entries: usize) -> (slots: Vec<Slot>)
    ensures
        slots@ == slots_of_paths(paths@).take(
            if paths@.len() > max_entries {
                paths@.len() - max_entries
            } else {
                0
            },
        ),
        slots@.len() <= paths@.len(),
        paths@.len() - slots@.len() <= max_entries,
        slots@.len() > 0 ==> paths@.len() - slots@.len() == max_entries,
        forall|i: int| 0 <= i < slots@.len() ==> (#[trigger] slots@[i]) == paths@[i].slot,
{
    let num_to_remove = if paths.len() > max_entries {
        paths.len() - max_entries
    } else {
        0
    };
    let mut slots: Vec<Slot> = Vec::new();
    let mut i: usize = 0;
    while i < num_to_remove
        invariant
            i <= num_to_remove <= paths@.len(),
            slots@ == slots_of_paths(paths@).take(i as int),
        decreases num_to_remove - i,
    {
        slots.push(paths[i].slot);
        i += 1;
        assert(slots@ =~= slots_of_paths(paths@).take(i as int));
    }
    slots
}

/// What is wrong with snapshot data.
#[derive(Clone, Copy, Debug, PartialEq, Eq, Structural)]
pub enum SnapshotDataError {
    /// too large snapshot data file to serialize
    TooLargeToSerialize { size: u64 },
    /// too large snapshot data file to deserialize
    TooLargeToDeserialize { size: u64 },
    /// invalid snapshot data file: not all of it was consumed to deserialize
    NotFullyConsumed { size: u64, consumed: u64 },
}

impl SnapshotDataError {
    /// The text of the error for a data file.
    pub open spec fn spec_message(self, data_file: Seq<char>) -> Seq<char> {
        match self {
            SnapshotDataError::TooLargeToSerialize { size } =>
                "too large snapshot data file to serialize: "@ + data_file + " has "@ + decimal(
                    size as nat,
                ) + " bytes"@,
            SnapshotDataError::TooLargeToDeserialize { size } =>
                "too large snapshot data file to deserialize: "@ + data_file + " has "@ + decimal(
                    size as nat,
                ) + " bytes"@,
            SnapshotDataError::NotFullyConsumed { size, consumed } =>
                "invalid snapshot data file: "@ + data_file + " has "@ + decimal(size as nat)
                    + " bytes, however consumed "@ + decimal(consumed as nat)
                    + " bytes to deserialize"@,
        }
    }

    pub fn message(&self, data_file: &str) -> (message: String)
        ensures
            message@ == self.spec_message(data_file@),
    {
        match self {
            SnapshotDataError::TooLargeToSerialize { size } => {
                let mut message = "too large snapshot data file to serialize: ".to_owned();
                message.append(data_file);
                message.append(" has ");
                message.append(decimal_text(*size).as_str());
                message.append(" bytes");
                message
            },
            SnapshotDataError::TooLargeToDeserialize { size } => {
                let mut message = "too large snapshot data file to deserialize: ".to_owned();
                message.append(data_file);
                message.append(" has ");
                message.append(decimal_text(*size).as_str());
                message.append(" bytes");
                message
            },
            SnapshotDataError::NotFullyConsumed { size, consumed } => {
                let mut message = "invalid snapshot data file: ".to_owned();
                message.append(data_file);
                message.append(" has ");
                message.append(decimal_text(*size).as_str());
                message.append(" bytes, however consumed ");
                message.append(decimal_text(*consumed).as_str());
                message.append(" bytes to deserialize");
                message
            },
        }
    }
}

/// The size of serialized data, which must not exceed the maximum.
pub fn check_serialized_size(consumed_size: u64, maximum_file_size: u64) -> (size: Result<
    u64,
    SnapshotDataError,
>)
    ensures
        size == (if consumed_size > maximum_file_size {
            Err(SnapshotDataError::TooLargeToSerialize { size: consumed_size })
        } else {
            Ok(consumed_size)
        }),
{
    if consumed_size > maximum_file_size {
        return Err(SnapshotDataError::TooLargeToSerialize { size: consumed_size });
    }
    Ok(consumed_size)
}

/// The size of data to deserialize must not exceed the maximum.
pub fn check_size_to_deserialize(file_size: u64, maximum_file_size: u64) -> (result: Result<
    (),
    SnapshotDataError,
>)
    ensures
        result == (if file_size > maximum_file_size {
            Err(SnapshotDataError::TooLargeToDeserialize { size: file_size })
        } else {
            Ok(())
        }),
{
    if file_size > maximum_file_size {
        return Err(SnapshotDataError::TooLargeToDeserialize { size: file_size });
    }
    Ok(())
}

/// Deserializing has to consume all of the data.
pub fn check_fully_consumed(file_size: u64, consumed_size: u64) -> (result: Result<
    (),
    SnapshotDataError,
>)
    ensures
        result == (if file_size != consumed_size {
            Err(SnapshotDataError::NotFullyConsumed { size: file_size, consumed: consumed_size })
        } else {
            Ok(())
        }),
{
    if file_size != consumed_size {
        return Err(
            SnapshotDataError::NotFullyConsumed { size: file_size, consumed: consumed_size },
        );
    }
    Ok(())
}

/// Why an unpacked snapshot cannot be loaded.
#[derive(Clone, Copy, Debug, PartialEq, Eq, Structural)]
pub enum SnapshotFormatError {
    /// unsupported snapshot version
    UnsupportedVersion,
    /// invalid snapshot format: there is more than one
    MoreThanOneSnapshot,
    /// no snapshots found in snapshots directory
    NoSnapshots,
}

impl SnapshotFormatError {
    /// The text of the error, for the version that the archive states.
    pub open spec fn spec_message(self, version_string: Seq<char>) -> Seq<char> {
        match self {
            SnapshotFormatError::UnsupportedVersion => "unsupported snapshot version: "@
                + version_string,
            SnapshotFormatError::MoreThanOneSnapshot => "invalid snapshot format"@,
            SnapshotFormatError::NoSnapshots => "No snapshots found in snapshots directory"@,
        }
    }

    pub fn message(&self, version_string: &str) -> (message: String)
        ensures
            message@ == self.spec_message(version_string@),
    {
        match self {
            SnapshotFormatError::UnsupportedVersion => {
                let mut message = "unsupported snapshot version: ".to_owned();
                message.append(version_string);
                message
            },
            SnapshotFormatError::MoreThanOneSnapshot => "invalid snapshot format".to_owned(),
            SnapshotFormatError::NoSnapshots => {
                "No snapshots found in snapshots directory".to_owned()
            },
        }
    }
}

/// What to load from an unpacked archive, given the version that it states and the names in
/// its directory of snapshots: there has to be a single one.
pub fn snapshot_to_load(version_string: &str, names: &Vec<String>) -> (snapshot: Result<
    (SnapshotVersion, SlotSnapshotPaths),
    SnapshotFormatError,
>)
    ensures
        match snapshot {
            Ok((version, paths)) => {
                &&& without_v(version_string@) == version.spec_as_str()
                &&& slots_named(names@) == seq![paths.slot]
                &&& paths.wf()
            },
            Err(SnapshotFormatError::UnsupportedVersion) => forall|version: SnapshotVersion|
                without_v(version_string@) != #[trigger] version.spec_as_str(),
            Err(SnapshotFormatError::MoreThanOneSnapshot) => {
                &&& exists|version: SnapshotVersion|
                    without_v(version_string@) == #[trigger] version.spec_as_str()
                &&& slots_named(names@).len() > 1
            },
            Err(SnapshotFormatError::NoSnapshots) => {
                &&& exists|version: SnapshotVersion|
                    without_v(version_string@) == #[trigger] version.spec_as_str()
                &&& slots_named(names@).len() == 0
            },
        },
{
    match SnapshotVersion::maybe_from_string(version_string) {
        None => Err(SnapshotFormatError::UnsupportedVersion),
        Some(version) => {
            assert(without_v(version_string@) == version.spec_as_str());
            let mut snapshot_paths = get_snapshot_paths(names);
            let ghost slots = slots_of_paths(snapshot_paths@);
            let ghost named = slots_named(names@);
            proof {
                broadcast use vstd::seq_lib::group_to_multiset_ensures;

                assert(slots.len() == slots.to_multiset().len());
                assert(named.len() == named.to_multiset().len());
                if slots.len() == 1 {
                    assert(slots.contains(slots[0]));
                    assert(named.to_multiset().count(slots[0]) > 0);
                    assert(named.contains(slots[0]));
                    assert(named =~= seq![slots[0]]);
                }
            }
            if snapshot_paths.len() > 1 {
                return Err(SnapshotFormatError::MoreThanOneSnapshot);
            }
            match snapshot_paths.pop() {
                Some(root_paths) => Ok((version, root_paths)),
                None => Err(SnapshotFormatError::NoSnapshots),
            }
        },
    }
}

/// The ending of a compressed archive is that of one without compression, a dot and the extension
/// of the compression; and no other extension stands for a compression.
pub proof fn law_endings_name_the_compression(compression: CompressionType, ext: Seq<char>)
    ensures
        compression_ext(CompressionType::NoCompression) == ".tar"@,
        compression_of(ext) == Some(compression) <==> compression != CompressionType::NoCompression
            && compression_ext(compression) == compression_ext(CompressionType::NoCompression)
            + "."@ + ext,
{
    reveal_strlit(".tar");
    reveal_strlit(".");
    reveal_strlit(".tar.bz2");
    reveal_strlit(".tar.gz");
    reveal_strlit(".tar.zst");
    reveal_strlit("bz2");
    reveal_strlit("gz");
    reveal_strlit("zst");
    let start = ".tar"@ + "."@;
    assert(start + "bz2"@ =~= ".tar.bz2"@);
    assert(start + "gz"@ =~= ".tar.gz"@);
    assert(start + "zst"@ =~= ".tar.zst"@);
    assert("bz2"@[0] != "gz"@[0]);
    assert("bz2"@[0] != "zst"@[0]);
    assert("gz"@[0] != "zst"@[0]);
    assert((start + ext).skip(5) =~= ext);
    assert((start + "bz2"@).skip(5) =~= "bz2"@);
    assert((start + "gz"@).skip(5) =~= "gz"@);
    assert((start + "zst"@).skip(5) =~= "zst"@);
}

} // verus!
