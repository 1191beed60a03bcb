//! Tests for the stated properties: rounding idempotence, monotonicity of
//! the present-value evaluator, the round trip through the solver, the
//! zero-rate reinvestment law, error reporting, and degenerate schedules.

use bondval::fixed::{from_cents, round2, CENT};
use bondval::present_value::{compute_gain, present_value_simple};
use bondval::reinvest::calculate_interest_on_interest;
use bondval::solver::{calculate_yield_to_maturity, solve_simple};
use bondval::aggregate::{calculate_total_return, get_current_yield};
use bondval::{BondError, DateField};

#[test]
fn round2_is_idempotent_on_concrete_values() {
    let samples: Vec<u128> = vec![
        0,
        1,
        1_234_567_000_000,
        999_999_999_999,
        5_000_000_000,
        4_999_999_999,
        u128::MAX,
    ];
    for v in samples {
        assert_eq!(round2(round2(v)), round2(v));
    }
}

#[test]
fn present_value_is_decreasing_in_yield() {
    // A 31-coupon semiannual schedule: strictly lower value at each higher
    // yield.
    let payments: Vec<u128> = vec![from_cents(3500); 31];
    let g5 = compute_gain(&payments, from_cents(100000), from_cents(500), 183, 183, 0);
    let g10 = compute_gain(&payments, from_cents(100000), from_cents(1000), 183, 183, 0);
    let g15 = compute_gain(&payments, from_cents(100000), from_cents(1500), 183, 183, 0);
    assert!(g5 > g10);
    assert!(g10 > g15);
}

#[test]
fn solved_yield_round_trips_to_price() {
    // 931.70 is the rounded present value of this list at a yield of
    // exactly 10.00 percent, the first bisection candidate, so the solver
    // converges with an exact rounded match and the round trip stays
    // within one cent.
    let payments: Vec<u128> = vec![
        from_cents(10000),
        from_cents(10000),
        from_cents(10000),
        from_cents(100000),
    ];
    let pv = from_cents(93170);
    let (y, converged) = solve_simple(&payments, round2(pv));
    assert!(converged);
    assert_eq!(y, from_cents(1000));
    let back = present_value_simple(&payments, y);
    let diff = if back >= pv { back - pv } else { pv - back };
    assert!(diff <= CENT);
}

#[test]
fn zero_reinvestment_rate_earns_nothing() {
    assert_eq!(calculate_interest_on_interest(from_cents(123456), 0, 7, 1000), 0);
    assert_eq!(calculate_interest_on_interest(0, 0, 1, 0), 0);
    assert_eq!(calculate_interest_on_interest(u128::MAX, 0, 12, 360), 0);
}

#[test]
fn malformed_dates_name_their_field() {
    assert_eq!(
        calculate_yield_to_maturity(
            from_cents(100000),
            from_cents(100000),
            from_cents(500),
            2,
            None,
            "not-a-date",
            "2024-09-01",
            "2036-09-01",
        ),
        Err(BondError::DateParseError { field: DateField::Today }),
    );
    assert_eq!(
        calculate_yield_to_maturity(
            from_cents(100000),
            from_cents(100000),
            from_cents(500),
            2,
            None,
            "2024-07-22",
            "2024-13-01",
            "2036-09-01",
        ),
        Err(BondError::DateParseError { field: DateField::NextPayment }),
    );
    assert_eq!(
        calculate_total_return(
            from_cents(100000),
            from_cents(100000),
            from_cents(500),
            None,
            2,
            "2024-07-22",
            "2024-09-01",
            "2036-02-30",
        ),
        Err(BondError::DateParseError { field: DateField::Maturity }),
    );
}

#[test]
fn zero_price_is_a_division_error() {
    assert_eq!(
        get_current_yield(0, from_cents(100000), from_cents(700)),
        Err(BondError::DivisionByZero),
    );
}

#[test]
fn degenerate_schedule_maturity_today() {
    // Maturity on the valuation day: the coupon schedule is empty and only
    // the maturity amount is evaluated, at a negative exponent; its value
    // grows with the yield, so the fallback scan settles at the top of the
    // bracket. The call completes without dividing by zero.
    let degenerate = calculate_yield_to_maturity(
        from_cents(100000),
        from_cents(100000),
        from_cents(500),
        1,
        None,
        "2024-07-27",
        "2024-07-27",
        "2024-07-27",
    );
    assert_eq!(degenerate, Ok(from_cents(1999)));
}

#[test]
fn total_return_with_reinvestment() {
    // The 31-coupon bond of the no-reinvestment scenario, with coupons
    // reinvested at 10 percent: the nominal 2085.00 grows by the interest
    // earned on reinvested coupons over the 32 cash flows.
    let reinvested = calculate_total_return(
        from_cents(76942),
        from_cents(100000),
        from_cents(700),
        Some(from_cents(1000)),
        2,
        "2020-03-02",
        "2020-09-01",
        "2035-09-01",
    );
    assert_eq!(
        reinvested,
        Ok((
            from_cents(76942),
            2_831_039_028_003_200,
            3_600_459_028_003_200,
        )),
    );
}


#[test]
fn tiny_rate_truncates_to_zero_interest() {
    // A rate of 50 fixed-point units is 5e-11 percent; its periodic form
    // truncates to zero, which the model treats as earning nothing rather
    // than dividing by zero.
    assert_eq!(calculate_interest_on_interest(from_cents(7000), 50, 1, 10), 0);
}

#[test]
fn daily_payment_periods() {
    // 366 payments a year make one-day periods, the shortest the period
    // formula allows: a par bond at 5.75 solves to a periodic 0.02 and a
    // simple-annualized 7.32.
    let daily = calculate_yield_to_maturity(
        from_cents(100000),
        from_cents(100000),
        from_cents(575),
        366,
        None,
        "2024-09-30",
        "2024-10-01",
        "2025-08-31",
    );
    assert_eq!(daily, Ok(from_cents(732)));
}
