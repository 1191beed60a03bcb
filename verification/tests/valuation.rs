//! Regression scenarios for the valuation engine, on fixed-point values.
//!
//! Monetary amounts and rates are written in cents of the unit value via
//! `from_cents` (one cent is 10^10 fixed-point units).

use bondval::fixed::from_cents;
use bondval::fixed::round2;
use bondval::reinvest::calculate_interest_on_interest;
use bondval::solver::{calculate_yield, calculate_yield_to_maturity};
use bondval::aggregate::{calculate_total_return, get_current_yield};

#[test]
fn test_bond_yield() {
    let payments: Vec<u128> = vec![
        from_cents(10000),
        from_cents(10000),
        from_cents(10000),
        from_cents(100000),
    ];
    assert_eq!(calculate_yield(from_cents(90310), &payments, 1), Ok(from_cents(1100)));
}

#[test]
fn test_bond_yield_semiannual() {
    let payments: Vec<u128> = vec![
        from_cents(10000),
        from_cents(10000),
        from_cents(10000),
        from_cents(100000),
    ];
    assert_eq!(calculate_yield(from_cents(90310), &payments, 2), Ok(from_cents(2321)));
}

#[test]
fn test_yield_to_maturity_full_semiannual() {
    assert_eq!(
        calculate_yield_to_maturity(
            from_cents(76942),
            from_cents(100000),
            from_cents(700),
            2,
            None,
            "2020-03-02",
            "2020-09-01",
            "2035-09-01",
        ),
        Ok(from_cents(994)),
    );
}

#[test]
fn test_yield_to_maturity_semiannual() {
    assert_eq!(
        calculate_yield_to_maturity(
            from_cents(76942),
            from_cents(100000),
            from_cents(700),
            2,
            None,
            "2024-07-22",
            "2024-09-01",
            "2036-09-01",
        ),
        Ok(from_cents(1088)),
    );
}

#[test]
fn test_yield_to_maturity_annual() {
    // A price of 1039.3543: fixed point carries the four decimals exactly.
    let price: u128 = 1_039_354_300_000_000;
    assert_eq!(
        calculate_yield_to_maturity(
            price,
            from_cents(100000),
            from_cents(525),
            1,
            None,
            "2024-07-27",
            "2025-01-20",
            "2025-01-20",
        ),
        Ok(from_cents(263)),
    );
}

#[test]
fn test_current_yield() {
    assert_eq!(
        get_current_yield(from_cents(76942), from_cents(100000), from_cents(700)),
        Ok(from_cents(910)),
    );
}

#[test]
fn test_calculate_total_return_no_reinvestment() {
    assert_eq!(
        calculate_total_return(
            from_cents(76942),
            from_cents(100000),
            from_cents(700),
            None,
            2,
            "2020-03-02",
            "2020-09-01",
            "2035-09-01",
        ),
        Ok((from_cents(76942), from_cents(131558) as i128, from_cents(208500))),
    );
}

#[test]
fn test_calculate_interest_on_interest() {
    assert_eq!(round2(calculate_interest_on_interest(from_cents(450), 0, 2, 3)), 0);
    assert_eq!(
        round2(calculate_interest_on_interest(from_cents(7000), from_cents(1000), 2, 30)),
        from_cents(127536),
    );
}

#[test]
fn test_round() {
    // 1.234567 rounds to 1.23.
    assert_eq!(round2(1_234_567_000_000), 1_230_000_000_000);
}
