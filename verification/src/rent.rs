//! configuration for network rent

use vstd::prelude::*;

verus! {

/// Rent of accounts, as far as it is counted in whole lamports.
#[derive(Clone, Copy, Debug, PartialEq, Eq, Structural)]
pub struct Rent {
    /// Rental rate
    pub lamports_per_byte_year: u64,
    /// What portion of collected rent are to be destroyed, percentage-wise
    pub burn_percent: u8,
    /// Bytes that are rented for an account besides its data
    pub account_storage_overhead: u64,
}

impl Rent {
    /// calculate how much rent to burn from the collected rent
    pub fn calculate_burn(&self, rent_collected: u64) -> (portions: (u64, u64))
        requires
            rent_collected * self.burn_percent <= u64::MAX,
            (rent_collected * self.burn_percent) / 100 <= rent_collected,
        ensures
            portions.0 == (rent_collected * self.burn_percent) / 100,
            portions.1 == rent_collected - portions.0,
    {
        let burned_portion = (rent_collected * self.burn_percent as u64) / 100;
        (burned_portion, rent_collected - burned_portion)
    }

    pub open spec fn spec_yearly_rent(self, data_len: usize) -> int {
        (self.account_storage_overhead + data_len) * self.lamports_per_byte_year
    }

    /// Whether the rent for a year on an account with data of the given length can be counted.
    pub open spec fn countable(self, data_len: usize) -> bool {
        &&& data_len <= u64::MAX
        &&& self.account_storage_overhead + data_len <= u64::MAX
        &&& self.spec_yearly_rent(data_len) <= u64::MAX
    }

    /// Rent for a year on an account with data of the given length.
    pub fn yearly_rent(&self, data_len: usize) -> (lamports: u64)
        requires
            self.countable(data_len),
        ensures
            lamports == self.spec_yearly_rent(data_len),
    {
        let bytes = data_len as u64;
        (self.account_storage_overhead + bytes) * self.lamports_per_byte_year
    }

    /// minimum balance due for a given size of an account's data; `over_threshold` tells what a
    /// yearly rent comes to over the exemption threshold
    pub fn minimum_balance<F: Fn(u64) -> u64>(&self, data_len: usize, over_threshold: F) -> (minimum:
        u64)
        requires
            self.countable(data_len),
            call_requires(over_threshold, (self.spec_yearly_rent(data_len) as u64,)),
        ensures
            call_ensures(
                over_threshold,
                (self.spec_yearly_rent(data_len) as u64,),
                minimum,
            ),
    {
        over_threshold(self.yearly_rent(data_len))
    }

    /// whether a given balance and data_len would be exempt
    pub fn is_exempt<F: Fn(u64) -> u64>(
        &self,
        balance: u64,
        data_len: usize,
        over_threshold: F,
    ) -> (exempt: bool)
        requires
            self.countable(data_len),
            call_requires(over_threshold, (self.spec_yearly_rent(data_len) as u64,)),
        ensures
            exists|minimum: u64| #[trigger]
                call_ensures(
                    over_threshold,
                    (self.spec_yearly_rent(data_len) as u64,),
                    minimum,
                ) && exempt == (balance >= minimum),
    {
        balance >= self.minimum_balance(data_len, over_threshold)
    }

    /// rent due on account's data_len with balance, and whether it is exempt; `accrued` tells
    /// what a yearly rent comes to over the years elapsed
    pub fn due<F: Fn(u64) -> u64, G: Fn(u64) -> u64>(
        &self,
        balance: u64,
        data_len: usize,
        over_threshold: F,
        accrued: G,
    ) -> (due: (u64, bool))
        requires
            self.countable(data_len),
            call_requires(over_threshold, (self.spec_yearly_rent(data_len) as u64,)),
            call_requires(accrued, (self.spec_yearly_rent(data_len) as u64,)),
        ensures
            exists|minimum: u64| #[trigger]
                call_ensures(
                    over_threshold,
                    (self.spec_yearly_rent(data_len) as u64,),
                    minimum,
                ) && due.1 == (balance >= minimum),
            if due.1 {
                due.0 == 0
            } else {
                call_ensures(accrued, (self.spec_yearly_rent(data_len) as u64,), due.0)
            },
    {
        if self.is_exempt(balance, data_len, over_threshold) {
            (0, true)
        } else {
            (accrued(self.yearly_rent(data_len)), false)
        }
    }

    /// The rent with a rate of zero.
    pub fn free(self) -> (rent: Self)
        ensures
            rent == (Rent { lamports_per_byte_year: 0, ..self }),
    {
        Rent { lamports_per_byte_year: 0, ..self }
    }
}

/// Rent is free with a rate of zero, whatever the length of the data.
pub proof fn law_free_rent_is_zero(rent: Rent, data_len: usize)
    requires
        rent.lamports_per_byte_year == 0,
    ensures
        rent.spec_yearly_rent(data_len) == 0,
{
    assert((rent.account_storage_overhead + data_len) * rent.lamports_per_byte_year == 0)
        by (nonlinear_arith)
        requires
            rent.lamports_per_byte_year == 0,
    ;
}

/// Whatever is not burned is left: the portions add up to the rent collected.
pub proof fn law_burn_splits_rent(rent_collected: u64, burn_percent: u8)
    requires
        burn_percent <= 100,
    ensures
        0 <= (rent_collected * burn_percent) / 100 <= rent_collected,
        burn_percent == 0 ==> (rent_collected * burn_percent) / 100 == 0,
        burn_percent == 100 ==> (rent_collected * burn_percent) / 100 == rent_collected,
{
    assert(0 <= rent_collected * burn_percent <= rent_collected * 100) by (nonlinear_arith)
        requires
            burn_percent <= 100,
    ;
    if burn_percent == 0 {
        assert(rent_collected * burn_percent == 0) by (nonlinear_arith)
            requires
                burn_percent == 0,
        ;
    }
}

/// Rent is due for each byte at the rate: an account without data pays for its overhead, and one
/// more byte of data costs the rate once more.
pub proof fn law_each_byte_costs_the_rate(rent: Rent, data_len: usize)
    requires
        data_len < usize::MAX,
    ensures
        rent.spec_yearly_rent(0) == rent.account_storage_overhead * rent.lamports_per_byte_year,
        rent.spec_yearly_rent((data_len + 1) as usize) == rent.spec_yearly_rent(data_len)
            + rent.lamports_per_byte_year,
{
    let bytes: int = rent.account_storage_overhead + data_len;
    let rate: int = rent.lamports_per_byte_year as int;
    assert((bytes + 1) * rate == bytes * rate + rate) by (nonlinear_arith);
}

} // verus!
