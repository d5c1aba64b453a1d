use solana_validator::clock::ClockConfig;
use solana_validator::toml_config::as_unsigned;
use solana_validator::toml_config::counts_among;
use solana_validator::toml_config::parse_config;
use solana_validator::toml_config::select_section;
use solana_validator::toml_config::TomlConfigErr;
use solana_validator::toml_config::TopLevel;

const CONFIG: &str = "[toml-config]\nFOO = 42\nBAR = 13\nNAME = \"x\"\nDEBT = -1\n";

const CLOCK: &str = "[solana-sdk]
DEFAULT_TICKS_PER_SECOND = 160
DEFAULT_TICKS_PER_SLOT = 64
DEFAULT_HASHES_PER_SECOND = 2000000
DEFAULT_DEV_SLOTS_PER_EPOCH = 8192
NUM_CONSECUTIVE_LEADER_SLOTS = 4
MAX_HASH_AGE_IN_SECONDS = 120
MAX_TRANSACTION_FORWARDING_DELAY_GPU = 2
MAX_TRANSACTION_FORWARDING_DELAY = 6
";

#[test]
fn it_works() {
    let section = parse_config(CONFIG, "toml-config").ok().unwrap();
    assert_eq!(section.size("FOO").unwrap(), 42);
    assert_eq!(section.size("BAR").unwrap(), 13);
}

#[test]
fn only_counts_are_accepted() {
    let section = parse_config(CONFIG, "toml-config").ok().unwrap();
    assert_eq!(section.unsigned("FOO").unwrap(), 42);
    for key in ["NAME", "DEBT", "MISSING"].iter() {
        assert!(matches!(section.unsigned(key), Err(TomlConfigErr::Parse(None))));
        assert!(matches!(section.size(key), Err(TomlConfigErr::Parse(None))));
    }
    assert_eq!(as_unsigned(Some(7)).unwrap(), 7);
    assert!(matches!(as_unsigned(Some(-7)), Err(TomlConfigErr::Parse(None))));
    assert!(matches!(as_unsigned(None), Err(TomlConfigErr::Parse(None))));
}

#[test]
fn missing_section_is_reported() {
    match parse_config(CONFIG, "other") {
        Err(TomlConfigErr::BadConfig(message)) => assert_eq!(
            message,
            "Table doesn't contains required section for package other"
        ),
        _ => panic!("section found"),
    }
    match parse_config("[toml-config", "toml-config") {
        Err(TomlConfigErr::Parse(Some(reason))) => {
            let expected = "[toml-config".parse::<toml::Value>().err().unwrap();
            assert_eq!(reason, expected.to_string());
        }
        _ => panic!("text was read"),
    }
}

#[test]
fn top_level_has_to_be_a_table() {
    let date = "\"$__toml_private_datetime\" = \"1979-05-27\"\n";
    let value: toml::Value = date.parse().unwrap();
    assert!(!value.is_table());
    match parse_config(date, "toml-config") {
        Err(TomlConfigErr::BadConfig(message)) => assert_eq!(
            message,
            format!("Expected table at toml top level, but got: {:?}", value)
        ),
        _ => panic!("section found"),
    }
    let reason = "why".to_string();
    match select_section(&TopLevel::Unreadable(reason), "toml-config") {
        Err(TomlConfigErr::Parse(Some(reason))) => assert_eq!(reason, "why"),
        _ => panic!("section found"),
    }
    match select_section(&TopLevel::Other("1".to_string()), "toml-config") {
        Err(TomlConfigErr::BadConfig(message)) => {
            assert_eq!(message, "Expected table at toml top level, but got: 1")
        }
        _ => panic!("section found"),
    }
    let names = TopLevel::Table(vec!["a".to_string(), "b".to_string()]);
    assert!(select_section(&names, "b").is_ok());
    assert!(select_section(&names, "c").is_err());
}

#[test]
fn clock_parameters_are_read() {
    let clock: ClockConfig = parse_config(CLOCK, "solana-sdk")
        .ok()
        .unwrap()
        .clock_config()
        .ok()
        .unwrap();
    assert_eq!(clock.default_ticks_per_second, 160);
    assert_eq!(clock.default_ticks_per_slot, 64);
    assert_eq!(clock.default_hashes_per_second, 2_000_000);
    assert_eq!(clock.default_dev_slots_per_epoch, 8192);
    assert_eq!(clock.num_consecutive_leader_slots, 4);
    assert_eq!(clock.max_hash_age_in_seconds, 120);
    assert_eq!(clock.max_transaction_forwarding_delay_gpu, 2);
    assert_eq!(clock.max_transaction_forwarding_delay, 6);
    assert!(parse_config(CONFIG, "toml-config")
        .ok()
        .unwrap()
        .clock_config()
        .is_err());
}

#[test]
fn clock_parameters_are_read_from_an_array() {
    let content = "solana-sdk = [160, 64, 2000000, 8192, 4, 120, 2, 6]\n";
    let clock = parse_config(content, "solana-sdk")
        .ok()
        .unwrap()
        .clock_config()
        .ok()
        .unwrap();
    assert_eq!(clock.default_ticks_per_second, 160);
    assert_eq!(clock.default_ticks_per_slot, 64);
    assert_eq!(clock.default_hashes_per_second, 2_000_000);
    assert_eq!(clock.default_dev_slots_per_epoch, 8192);
    assert_eq!(clock.num_consecutive_leader_slots, 4);
    assert_eq!(clock.max_hash_age_in_seconds, 120);
    assert_eq!(clock.max_transaction_forwarding_delay_gpu, 2);
    assert_eq!(clock.max_transaction_forwarding_delay, 6);
    for content in [
        "solana-sdk = [160, 64, 2000000, 8192, 4, 120, 2]\n",
        "solana-sdk = [160, 64, 2000000, 8192, 4, 120, 2, 6, 7]\n",
        "solana-sdk = [160, 64, 2000000, 8192, 4, -120, 2, 6]\n",
        "solana-sdk = []\n",
        "solana-sdk = 160\n",
    ]
    .iter()
    {
        let section = parse_config(content, "solana-sdk").ok().unwrap();
        assert!(matches!(section.clock_config(), Err(TomlConfigErr::Parse(None))));
    }
}

#[test]
fn counts_are_read_by_key_or_in_order() {
    let keys = ["FOO", "BAR"];
    let table = parse_config(CONFIG, "toml-config").ok().unwrap();
    assert_eq!(table.counts(&keys).ok().unwrap(), vec![42, 13]);
    assert!(table.counts(&["FOO", "DEBT"]).is_err());
    let array = parse_config("toml-config = [42, 13]\n", "toml-config")
        .ok()
        .unwrap();
    assert_eq!(array.counts(&keys).ok().unwrap(), vec![42, 13]);
    assert!(array.counts(&["FOO"]).is_err());
    assert!(array.unsigned("FOO").is_err());

    assert_eq!(counts_among(&vec![Some(1), Some(2)], 2).ok().unwrap(), vec![1, 2]);
    assert!(counts_among(&vec![Some(1), None], 2).is_err());
    assert!(counts_among(&vec![Some(1), Some(-1)], 2).is_err());
    assert!(counts_among(&vec![Some(1), Some(2)], 1).is_err());
}
