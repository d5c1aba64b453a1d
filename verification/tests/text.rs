use solana_validator::hash::ParseHashError;
use solana_validator::pubkey::Pubkey;
use solana_validator::pubkey_set::PubkeySet;
use solana_validator::text::decimal_text;
use solana_validator::text::parse_unsigned;
use solana_validator::text::ParseIntError;

#[test]
fn numbers_are_read_as_the_standard_library_does() {
    let texts = [
        "", "0", "7", "00012", "+5", "+", "-", "-1", "1.5", " 1", "1 ", "65535", "65536", "65x36",
        "999999x", "655360x", "99999999999999999999999", "18446744073709551615",
        "18446744073709551616", "abc", "\u{664}", "1\u{664}", "++1",
    ];
    for text in texts.iter() {
        match text.parse::<u16>() {
            Ok(number) => assert_eq!(
                parse_unsigned(text, u16::MAX as u64),
                Ok(number as u64),
                "{}",
                text
            ),
            Err(error) => assert_eq!(
                parse_unsigned(text, u16::MAX as u64).unwrap_err().message(),
                format!("{:?}", error),
                "{}",
                text
            ),
        }
        match text.parse::<u64>() {
            Ok(number) => assert_eq!(parse_unsigned(text, u64::MAX), Ok(number), "{}", text),
            Err(error) => assert_eq!(
                parse_unsigned(text, u64::MAX).unwrap_err().message(),
                format!("{:?}", error),
                "{}",
                text
            ),
        }
    }
    assert_eq!(parse_unsigned("", 9), Err(ParseIntError::Empty));
    assert_eq!(parse_unsigned("x", 9), Err(ParseIntError::InvalidDigit));
    assert_eq!(parse_unsigned("10", 9), Err(ParseIntError::PosOverflow));
}

#[test]
fn numbers_are_written_in_decimal() {
    for number in [0, 9, 10, 99, 100, 12345, u64::MAX].iter() {
        let text = decimal_text(*number);
        assert_eq!(text, format!("{}", number));
        assert_eq!(parse_unsigned(&text, u64::MAX), Ok(*number));
    }
}

#[test]
fn hashes_are_read_back_from_base58() {
    let hash = solana_validator::hash::Hash::new(&[9; 32]);
    let text = hash.to_base58();
    assert_eq!(text, bs58::encode(&[9u8; 32][..]).into_string());
    assert_eq!(solana_validator::hash::Hash::parse(&text), Ok(hash));
    assert_eq!(
        solana_validator::hash::Hash::parse("11"),
        Err(ParseHashError::WrongSize)
    );
    assert_eq!(
        solana_validator::hash::Hash::parse("0"),
        Err(ParseHashError::Invalid)
    );
    assert_eq!(
        solana_validator::hash::Hash::default().to_base58(),
        "11111111111111111111111111111111"
    );
}

#[test]
fn default_pubkey_is_zero() {
    assert_eq!(Pubkey::default().as_bytes(), &[0u8; 32][..]);
    assert_eq!(Pubkey::new(&[1; 32]).0, [1; 32]);
    assert_eq!(
        Pubkey::default().to_base58(),
        "11111111111111111111111111111111"
    );
}

#[test]
fn pubkey_sets() {
    let mut set = PubkeySet::from_keys(&vec![Pubkey([1; 32]), Pubkey([2; 32]), Pubkey([1; 32])]);
    assert!(set.contains(&Pubkey([1; 32])));
    assert!(set.contains(&Pubkey([2; 32])));
    assert!(!set.contains(&Pubkey([3; 32])));
    set.insert(&Pubkey([3; 32]));
    assert!(set.contains(&Pubkey([3; 32])));
    set.clear();
    assert!(!set.contains(&Pubkey([1; 32])));
    assert!(!PubkeySet::new().contains(&Pubkey::default()));
}
