//! Fixed-income valuation: payment schedules, present-value discounting,
//! a bisection-based yield solver with a linear-scan fallback, reinvestment
//! (interest-on-interest) compounding, and total-return aggregation.
//!
//! All monetary amounts, rates and yields are carried as unsigned fixed-point
//! numbers with twelve decimal places (see [`fixed::SCALE`]); arithmetic
//! saturates at the largest representable value instead of overflowing.

use vstd::prelude::*;

pub mod fixed;
pub mod power;
pub mod present_value;
pub mod reinvest;
pub mod aggregate;
pub mod schedule;
pub mod solver;

verus! {

/// Which date argument of a valuation call failed to parse.
#[derive(Debug, Clone, Copy, PartialEq, Eq)]
pub enum DateField {
    Today,
    NextPayment,
    Maturity,
}

/// The closed set of failures a valuation call can report.
#[derive(Debug, Clone, Copy, PartialEq, Eq)]
pub enum BondError {
    /// One of the date arguments is not a valid `YYYY-MM-DD` calendar date.
    DateParseError { field: DateField },
    /// The observed price is zero, so a yield ratio cannot be formed.
    DivisionByZero,
}

} // verus!
