//! Configuration of packages in a TOML file.

use vstd::prelude::*;

use crate::clock::ClockConfig;
use crate::text::same_text;

verus! {

/// The environment variable that tells the path of the configuration file.
pub const TOML_CONFIG_ENV_VAR: &'static str = "TOML_CONFIG";

/// What `toml` reads from a text at the top level. Where it cannot read the text, its error in
/// words; otherwise the names of a table, or the text that shows another value.
pub uninterp spec fn toml_top_level(content: Seq<char>) -> Result<
    Result<Set<Seq<char>>, Seq<char>>,
    Seq<char>,
>;

/// The integer that `toml` reads from a text for a key in a section, if there is one.
pub uninterp spec fn toml_integer(content: Seq<char>, section: Seq<char>, key: Seq<char>) -> Option<
    i64,
>;

/// The elements that `toml` reads from a text for a section that is an array, each with its
/// integer, if it is one.
pub uninterp spec fn toml_elements(content: Seq<char>, section: Seq<char>) -> Option<
    Seq<Option<i64>>,
>;

/// Why there is no configuration.
#[derive(Debug)]
pub enum TomlConfigErr {
    /// Check enironment variable
    EnvVar(String),
    /// IO error
    Io(String),
    /// Unable to parse toml from file: what is wrong with the text, or nothing where a value in it
    /// is not what it has to be
    Parse(Option<String>),
    /// Bad config structure
    BadConfig(String),
}

/// What the text of a configuration file is at its top level.
pub enum TopLevel {
    /// it cannot be read, for this reason
    Unreadable(String),
    /// something else than a table, which is shown as this
    Other(String),
    /// a table with these names
    Table(Vec<String>),
}

/// `str::parse` into a `toml::Value`: what a text in TOML is at its top level, which is a table
/// but where its first key is the one that marks a date. An error is given by its `Display`, and a
/// value that is no table by its `Debug`. The parser recurses into nested arrays and inline tables
/// with no limit to their depth: a text that nests them very deeply exhausts the stack.
#[verifier::external_body]
fn read_top_level(content: &str) -> (top_level: TopLevel)
    ensures
        toml_top_level(content@) == (match top_level {
            TopLevel::Unreadable(error) => Err(error@),
            TopLevel::Other(value) => Ok(Err(value@)),
            TopLevel::Table(names) => Ok(Ok(names@.map_values(|name: String| name@).to_set())),
        }),
{
    match content.parse::<toml::Value>() {
        Err(err) => TopLevel::Unreadable(err.to_string()),
        Ok(toml::Value::Table(table)) => TopLevel::Table(table.keys().cloned().collect()),
        Ok(value) => TopLevel::Other(format!("{:?}", value)),
    }
}

/// `toml::Value::as_integer` of a key in a section of a text in TOML. The text is parsed anew, and
/// nesting has no limit, as for the top level.
#[verifier::external_body]
fn integer_at(content: &str, section: &str, key: &str) -> (integer: Option<i64>)
    ensures
        integer == toml_integer(content@, section@, key@),
{
    let value: toml::Value = content.parse().ok()?;
    value.get(section)?.get(key)?.as_integer()
}

/// `toml::Value::as_array` of a section of a text in TOML, with `toml::Value::as_integer` of each
/// element. The text is parsed anew, and nesting has no limit, as for the top level.
#[verifier::external_body]
fn elements_of(content: &str, section: &str) -> (elements: Option<Vec<Option<i64>>>)
    ensures
        match elements {
            Some(elements) => toml_elements(content@, section@) == Some(elements@),
            None => toml_elements(content@, section@) is None,
        },
{
    let value: toml::Value = content.parse().ok()?;
    let elements = value.get(section)?.as_array()?;
    Some(elements.iter().map(toml::Value::as_integer).collect())
}

/// The part of a configuration that is a package's own.
pub struct PackageSection {
    pub content: String,
    pub name: String,
}

/// What the absence of a section is reported as.
pub open spec fn missing_section(pkg_name: Seq<char>) -> Seq<char> {
    "Table doesn't contains required section for package "@ + pkg_name
}

/// What a top level that is no table is reported as.
pub open spec fn no_table(value: Seq<char>) -> Seq<char> {
    "Expected table at toml top level, but got: "@ + value
}

fn contains_name(names: &Vec<String>, name: &str) -> (contained: bool)
    ensures
        contained == names@.map_values(|name: String| name@).to_set().contains(name@),
{
    let ghost all = names@.map_values(|name: String| name@);
    let mut i: usize = 0;
    while i < names.len()
        invariant
            i <= names@.len(),
            all == names@.map_values(|name: String| name@),
            forall|j: int| 0 <= j < i ==> (#[trigger] all[j]) != name@,
        decreases names@.len() - i,
    {
        assert(all[i as int] == names@[i as int]@);
        if same_text(names[i].as_str(), name) {
            assert(all.to_set().contains(name@));
            return true;
        }
        i += 1;
    }
    assert(!all.to_set().contains(name@));
    false
}

/// Picks a package's section by what was read at the top level.
pub fn select_section(top_level: &TopLevel, pkg_name: &str) -> (found: Result<(), TomlConfigErr>)
    ensures
        match *top_level {
            TopLevel::Unreadable(error) => found matches Err(TomlConfigErr::Parse(Some(reason)))
                && reason@ == error@,
            TopLevel::Other(value) => found matches Err(TomlConfigErr::BadConfig(message))
                && message@ == no_table(value@),
            TopLevel::Table(names) => match found {
                Ok(()) => names@.map_values(|name: String| name@).to_set().contains(pkg_name@),
                Err(TomlConfigErr::BadConfig(message)) => {
                    &&& !names@.map_values(|name: String| name@).to_set().contains(pkg_name@)
                    &&& message@ == missing_section(pkg_name@)
                },
                Err(_) => false,
            },
        },
{
    match top_level {
        TopLevel::Unreadable(error) => Err(TomlConfigErr::Parse(Some(error.clone()))),
        TopLevel::Other(value) => {
            let message = "Expected table at toml top level, but got: ".to_owned();
            Err(TomlConfigErr::BadConfig(message.concat(value.as_str())))
        },
        TopLevel::Table(names) => {
            if contains_name(names, pkg_name) {
                Ok(())
            } else {
                let message = "Table doesn't contains required section for package ".to_owned();
                Err(TomlConfigErr::BadConfig(message.concat(pkg_name)))
            }
        },
    }
}

/// The section of a package in the text of a configuration file.
pub fn parse_config(content: &str, pkg_name: &str) -> (section: Result<
    PackageSection,
    TomlConfigErr,
>)
    ensures
        match toml_top_level(content@) {
            Err(error) => section matches Err(TomlConfigErr::Parse(Some(reason))) && reason@
                == error,
            Ok(Err(value)) => section matches Err(TomlConfigErr::BadConfig(message)) && message@
                == no_table(value),
            Ok(Ok(names)) => match section {
                Ok(section) => {
                    &&& names.contains(pkg_name@)
                    &&& section.content@ == content@
                    &&& section.name@ == pkg_name@
                },
                Err(TomlConfigErr::BadConfig(message)) => {
                    &&& !names.contains(pkg_name@)
                    &&& message@ == missing_section(pkg_name@)
                },
                Err(_) => false,
            },
        },
{
    match select_section(&read_top_level(content), pkg_name) {
        Ok(()) => Ok(PackageSection { content: content.to_owned(), name: pkg_name.to_owned() }),
        Err(err) => Err(err),
    }
}

/// The count that an integer is, if it is there and is one.
pub open spec fn spec_as_unsigned(integer: Option<i64>) -> Option<u64> {
    match integer {
        Some(integer) => if integer >= 0 {
            Some(integer as u64)
        } else {
            None
        },
        None => None,
    }
}

/// An integer of a configuration as a count, which cannot be missing or negative.
pub fn as_unsigned(integer: Option<i64>) -> (count: Result<u64, TomlConfigErr>)
    ensures
        count == (match spec_as_unsigned(integer) {
            Some(count) => Ok(count),
            None => Err(TomlConfigErr::Parse(None)),
        }),
{
    match integer {
        Some(integer) => {
            if integer >= 0 {
                Ok(integer as u64)
            } else {
                Err(TomlConfigErr::Parse(None))
            }
        },
        None => Err(TomlConfigErr::Parse(None)),
    }
}

/// The elements of an array as counts. There have to be as many as are asked for, and none of
/// them can be anything else.
pub fn counts_among(elements: &Vec<Option<i64>>, num_counts: usize) -> (counts: Result<
    Vec<u64>,
    TomlConfigErr,
>)
    ensures
        match counts {
            Ok(counts) => {
                &&& elements@.len() == num_counts
                &&& counts@.len() == num_counts
                &&& forall|i: int|
                    0 <= i < num_counts ==> spec_as_unsigned(#[trigger] elements@[i]) == Some(
                        counts@[i],
                    )
            },
            Err(err) => {
                &&& err == TomlConfigErr::Parse(None)
                &&& elements@.len() == num_counts ==> exists|i: int|
                    0 <= i < num_counts && spec_as_unsigned(#[trigger] elements@[i]) is None
            },
        },
{
    if elements.len() != num_counts {
        return Err(TomlConfigErr::Parse(None));
    }
    let mut counts: Vec<u64> = Vec::new();
    let mut i: usize = 0;
    while i < elements.len()
        invariant
            i <= elements@.len(),
            elements@.len() == num_counts,
            counts@.len() == i,
            forall|j: int|
                0 <= j < i ==> spec_as_unsigned(#[trigger] elements@[j]) == Some(counts@[j]),
        decreases elements@.len() - i,
    {
        match as_unsigned(elements[i]) {
            Ok(count) => {
                counts.push(count);
            },
            Err(err) => {
                assert(spec_as_unsigned(elements@[i as int]) is None);
                return Err(err);
            },
        }
        i += 1;
    }
    Ok(counts)
}

impl PackageSection {
    /// The count that a key stands for in a table, if it stands for one.
    pub open spec fn spec_unsigned(&self, key: Seq<char>) -> Option<u64> {
        spec_as_unsigned(toml_integer(self.content@, self.name@, key))
    }

    /// One of several counts that a section holds, if it holds it. A section that is an array has
    /// to have one element for each count, in their order.
    pub open spec fn spec_count(&self, keys: Seq<Seq<char>>, i: int) -> Option<u64> {
        match toml_elements(self.content@, self.name@) {
            Some(elements) => if elements.len() == keys.len() {
                spec_as_unsigned(elements[i])
            } else {
                None
            },
            None => self.spec_unsigned(keys[i]),
        }
    }

    /// Several counts that a section holds: a table under their keys, an array in their order.
    pub fn counts(&self, keys: &[&str]) -> (counts: Result<Vec<u64>, TomlConfigErr>)
        requires
            keys@.len() > 0,
        ensures
            ({
                let names = keys@.map_values(|key: &str| key@);
                match counts {
                    Ok(counts) => {
                        &&& counts@.len() == keys@.len()
                        &&& forall|i: int|
                            0 <= i < keys@.len() ==> #[trigger] self.spec_count(names, i) == Some(
                                counts@[i],
                            )
                    },
                    Err(err) => {
                        &&& err == TomlConfigErr::Parse(None)
                        &&& exists|i: int|
                            0 <= i < keys@.len() && #[trigger] self.spec_count(names, i) is None
                    },
                }
            }),
    {
        let ghost names = keys@.map_values(|key: &str| key@);
        match elements_of(self.content.as_str(), self.name.as_str()) {
            Some(elements) => {
                let counts = counts_among(&elements, keys.len());
                proof {
                    if counts is Err {
                        if elements@.len() == names.len() {
                            let i = choose|i: int|
                                0 <= i < elements@.len() && spec_as_unsigned(
                                    #[trigger] elements@[i],
                                ) is None;
                            assert(self.spec_count(names, i) is None);
                        } else {
                            assert(self.spec_count(names, 0) is None);
                        }
                    }
                }
                counts
            },
            None => {
                let mut counts: Vec<u64> = Vec::new();
                let mut i: usize = 0;
                while i < keys.len()
                    invariant
                        i <= keys@.len(),
                        names == keys@.map_values(|key: &str| key@),
                        toml_elements(self.content@, self.name@) is None,
                        counts@.len() == i,
                        forall|j: int|
                            0 <= j < i ==> #[trigger] self.spec_count(names, j) == Some(counts@[j]),
                    decreases keys@.len() - i,
                {
                    assert(self.spec_count(names, i as int) == self.spec_unsigned(keys@[i as int]@));
                    match self.unsigned(keys[i]) {
                        Ok(count) => {
                            counts.push(count);
                        },
                        Err(err) => {
                            assert(self.spec_count(names, i as int) is None);
                            return Err(err);
                        },
                    }
                    i += 1;
                }
                Ok(counts)
            },
        }
    }

    /// The count that a key stands for in a table.
    pub fn unsigned(&self, key: &str) -> (count: Result<u64, TomlConfigErr>)
        ensures
            count == (match self.spec_unsigned(key@) {
                Some(count) => Ok(count),
                None => Err(TomlConfigErr::Parse(None)),
            }),
    {
        as_unsigned(integer_at(self.content.as_str(), self.name.as_str(), key))
    }

    /// The count that a key stands for in a table, where it fits in memory.
    pub fn size(&self, key: &str) -> (count: Result<usize, TomlConfigErr>)
        ensures
            count == (match self.spec_unsigned(key@) {
                Some(count) => if count <= usize::MAX {
                    Ok(count as usize)
                } else {
                    Err(TomlConfigErr::Parse(None))
                },
                None => Err(TomlConfigErr::Parse(None)),
            }),
    {
        match self.unsigned(key) {
            Ok(count) => {
                if count <= usize::MAX as u64 {
                    Ok(count as usize)
                } else {
                    Err(TomlConfigErr::Parse(None))
                }
            },
            Err(err) => Err(err),
        }
    }

    /// Whether a section holds the clock's parameters.
    pub open spec fn holds_clock(&self, clock: ClockConfig) -> bool {
        let keys = clock_keys();
        &&& self.spec_count(keys, 0) == Some(clock.default_ticks_per_second)
        &&& self.spec_count(keys, 1) == Some(clock.default_ticks_per_slot)
        &&& self.spec_count(keys, 2) == Some(clock.default_hashes_per_second)
        &&& self.spec_count(keys, 3) == Some(clock.default_dev_slots_per_epoch)
        &&& self.spec_count(keys, 4) == Some(clock.num_consecutive_leader_slots)
        &&& self.spec_count(keys, 5) == Some(clock.max_hash_age_in_seconds as u64)
        &&& self.spec_count(keys, 6) == Some(clock.max_transaction_forwarding_delay_gpu as u64)
        &&& self.spec_count(keys, 7) == Some(clock.max_transaction_forwarding_delay as u64)
    }

    /// The clock's parameters, all of which have to be there.
    pub fn clock_config(&self) -> (clock: Result<ClockConfig, TomlConfigErr>)
        ensures
            match clock {
                Ok(clock) => self.holds_clock(clock),
                Err(err) => err == TomlConfigErr::Parse(None) && forall|clock: ClockConfig|
                    !#[trigger] self.holds_clock(clock),
            },
    {
        let keys = [
            "DEFAULT_TICKS_PER_SECOND",
            "DEFAULT_TICKS_PER_SLOT",
            "DEFAULT_HASHES_PER_SECOND",
            "DEFAULT_DEV_SLOTS_PER_EPOCH",
            "NUM_CONSECUTIVE_LEADER_SLOTS",
            "MAX_HASH_AGE_IN_SECONDS",
            "MAX_TRANSACTION_FORWARDING_DELAY_GPU",
            "MAX_TRANSACTION_FORWARDING_DELAY",
        ];
        assert(keys@.map_values(|key: &str| key@) =~= clock_keys());
        match self.counts(&keys) {
            Ok(counts) => {
                let largest: u64 = usize::MAX as u64;
                assert(forall|i: int| 0 <= i < 8 ==> #[trigger] self.spec_count(clock_keys(), i)
                    == Some(counts@[i]));
                if counts[5] <= largest && counts[6] <= largest && counts[7] <= largest {
                    Ok(
                        ClockConfig {
                            default_ticks_per_second: counts[0],
                            default_ticks_per_slot: counts[1],
                            default_hashes_per_second: counts[2],
                            default_dev_slots_per_epoch: counts[3],
                            num_consecutive_leader_slots: counts[4],
                            max_hash_age_in_seconds: counts[5] as usize,
                            max_transaction_forwarding_delay_gpu: counts[6] as usize,
                            max_transaction_forwarding_delay: counts[7] as usize,
                        },
                    )
                } else {
                    Err(TomlConfigErr::Parse(None))
                }
            },
            Err(err) => {
                proof {
                    let i = choose|i: int|
                        0 <= i < 8 && #[trigger] self.spec_count(clock_keys(), i) is None;
                    assert(i == 0 || i == 1 || i == 2 || i == 3 || i == 4 || i == 5 || i == 6 || i
                        == 7);
                }
                Err(err)
            },
        }
    }
}

/// The keys of the clock's parameters.
pub open spec fn clock_keys() -> Seq<Seq<char>> {
    seq![
        "DEFAULT_TICKS_PER_SECOND"@,
        "DEFAULT_TICKS_PER_SLOT"@,
        "DEFAULT_HASHES_PER_SECOND"@,
        "DEFAULT_DEV_SLOTS_PER_EPOCH"@,
        "NUM_CONSECUTIVE_LEADER_SLOTS"@,
        "MAX_HASH_AGE_IN_SECONDS"@,
        "MAX_TRANSACTION_FORWARDING_DELAY_GPU"@,
        "MAX_TRANSACTION_FORWARDING_DELAY"@,
    ]
}

/// An integer counts exactly where it is there and not negative, and then counts as itself.
pub proof fn law_counts_are_not_negative(integer: Option<i64>)
    ensures
        spec_as_unsigned(integer) is Some <==> integer is Some && integer->Some_0 >= 0,
        spec_as_unsigned(integer) is Some ==> spec_as_unsigned(integer)->Some_0
            == integer->Some_0,
{
}

/// An integer is there and is a certain number.
pub open spec fn is_number(integer: Option<i64>, number: int) -> bool {
    integer is Some && integer->Some_0 == number
}

/// A table holds the clock's parameters each under its own key.
pub proof fn law_clock_is_read_by_key(section: PackageSection, clock: ClockConfig)
    requires
        toml_elements(section.content@, section.name@) is None,
    ensures
        ({
            let content = section.content@;
            let name = section.name@;
            section.holds_clock(clock) <==> {
                &&& is_number(
                    toml_integer(content, name, "DEFAULT_TICKS_PER_SECOND"@),
                    clock.default_ticks_per_second as int,
                )
                &&& is_number(
                    toml_integer(content, name, "DEFAULT_TICKS_PER_SLOT"@),
                    clock.default_ticks_per_slot as int,
                )
                &&& is_number(
                    toml_integer(content, name, "DEFAULT_HASHES_PER_SECOND"@),
                    clock.default_hashes_per_second as int,
                )
                &&& is_number(
                    toml_integer(content, name, "DEFAULT_DEV_SLOTS_PER_EPOCH"@),
                    clock.default_dev_slots_per_epoch as int,
                )
                &&& is_number(
                    toml_integer(content, name, "NUM_CONSECUTIVE_LEADER_SLOTS"@),
                    clock.num_consecutive_leader_slots as int,
                )
                &&& is_number(
                    toml_integer(content, name, "MAX_HASH_AGE_IN_SECONDS"@),
                    clock.max_hash_age_in_seconds as int,
                )
                &&& is_number(
                    toml_integer(content, name, "MAX_TRANSACTION_FORWARDING_DELAY_GPU"@),
                    clock.max_transaction_forwarding_delay_gpu as int,
                )
                &&& is_number(
                    toml_integer(content, name, "MAX_TRANSACTION_FORWARDING_DELAY"@),
                    clock.max_transaction_forwarding_delay as int,
                )
            }
        }),
{
}

/// An array holds the clock's parameters where it has one element for each, in their order.
pub proof fn law_clock_is_read_in_order(
    section: PackageSection,
    clock: ClockConfig,
    elements: Seq<Option<i64>>,
)
    requires
        toml_elements(section.content@, section.name@) == Some(elements),
    ensures
        section.holds_clock(clock) <==> {
            &&& elements.len() == 8
            &&& is_number(elements[0], clock.default_ticks_per_second as int)
            &&& is_number(elements[1], clock.default_ticks_per_slot as int)
            &&& is_number(elements[2], clock.default_hashes_per_second as int)
            &&& is_number(elements[3], clock.default_dev_slots_per_epoch as int)
            &&& is_number(elements[4], clock.num_consecutive_leader_slots as int)
            &&& is_number(elements[5], clock.max_hash_age_in_seconds as int)
            &&& is_number(elements[6], clock.max_transaction_forwarding_delay_gpu as int)
            &&& is_number(elements[7], clock.max_transaction_forwarding_delay as int)
        },
{
}

} // verus!
