use solana_validator::rent::Rent;

const ACCOUNT_STORAGE_OVERHEAD: u64 = 128;
const DEFAULT_LAMPORTS_PER_BYTE_YEAR: u64 = 1_000_000_000 / 100 * 365 / (1024 * 1024);
const DEFAULT_EXEMPTION_THRESHOLD: f64 = 2.0;
const DEFAULT_BURN_PERCENT: u8 = 50;

fn default_rent() -> Rent {
    Rent {
        lamports_per_byte_year: DEFAULT_LAMPORTS_PER_BYTE_YEAR,
        burn_percent: DEFAULT_BURN_PERCENT,
        account_storage_overhead: ACCOUNT_STORAGE_OVERHEAD,
    }
}

fn due(
    rent: &Rent,
    exemption_threshold: f64,
    balance: u64,
    data_len: usize,
    years_elapsed: f64,
) -> (u64, bool) {
    rent.due(
        balance,
        data_len,
        |yearly: u64| (yearly as f64 * exemption_threshold) as u64,
        |yearly: u64| (yearly as f64 * years_elapsed) as u64,
    )
}

#[test]
fn test_due() {
    let default_rent = default_rent();

    assert_eq!(
        due(&default_rent, DEFAULT_EXEMPTION_THRESHOLD, 0, 2, 1.2),
        (
            (((2 + ACCOUNT_STORAGE_OVERHEAD) * DEFAULT_LAMPORTS_PER_BYTE_YEAR) as f64 * 1.2) as u64,
            DEFAULT_LAMPORTS_PER_BYTE_YEAR == 0
        )
    );
    assert_eq!(
        due(
            &default_rent,
            DEFAULT_EXEMPTION_THRESHOLD,
            (((2 + ACCOUNT_STORAGE_OVERHEAD) * DEFAULT_LAMPORTS_PER_BYTE_YEAR) as f64
                * DEFAULT_EXEMPTION_THRESHOLD) as u64,
            2,
            1.2
        ),
        (0, true)
    );

    let mut custom_rent = default_rent;
    custom_rent.lamports_per_byte_year = 5;
    let exemption_threshold = 2.5;

    assert_eq!(
        due(&custom_rent, exemption_threshold, 0, 2, 1.2),
        (
            (((2 + ACCOUNT_STORAGE_OVERHEAD) * custom_rent.lamports_per_byte_year) as f64 * 1.2)
                as u64,
            false
        )
    );

    assert_eq!(
        due(
            &custom_rent,
            exemption_threshold,
            (((2 + ACCOUNT_STORAGE_OVERHEAD) * custom_rent.lamports_per_byte_year) as f64
                * exemption_threshold) as u64,
            2,
            1.2
        ),
        (0, true)
    );
}

#[test]
fn yearly_rent_counts_the_overhead() {
    let rent = default_rent();
    assert_eq!(DEFAULT_LAMPORTS_PER_BYTE_YEAR, 3480);
    assert_eq!(rent.yearly_rent(0), 445_440);
    assert_eq!(rent.yearly_rent(2), 452_400);
    assert_eq!(rent.minimum_balance(2, |yearly| 2 * yearly), 904_800);
    assert!(rent.is_exempt(904_800, 2, |yearly| 2 * yearly));
    assert!(!rent.is_exempt(904_799, 2, |yearly| 2 * yearly));
}

#[test]
fn burn_splits_the_rent() {
    let mut rent = default_rent();
    assert_eq!(rent.calculate_burn(101), (50, 51));
    rent.burn_percent = 0;
    assert_eq!(rent.calculate_burn(101), (0, 101));
    rent.burn_percent = 100;
    assert_eq!(rent.calculate_burn(101), (101, 0));
}

#[test]
fn free_rent_is_zero() {
    let rent = default_rent().free();
    assert_eq!(rent.lamports_per_byte_year, 0);
    assert_eq!(rent.burn_percent, DEFAULT_BURN_PERCENT);
    assert_eq!(rent.yearly_rent(1000), 0);
    assert_eq!(rent.due(0, 1000, |yearly| yearly, |yearly| yearly), (0, true));
}
