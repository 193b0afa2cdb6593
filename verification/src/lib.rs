//! Fixed-point pricing engines for American and European options.
//!
//! All quantities are scaled integers: a value `v` stands for the real number
//! `v / SCALE`, with `SCALE = 1_000_000_000`.  Three engines are provided:
//! a Cox-Ross-Rubinstein binomial lattice (`binomial`), the Black-Scholes
//! closed form (`black_scholes`), and the analytic sensitivities (`greeks`).

use vstd::prelude::*;

pub mod fixed;
pub mod normal;
pub mod black_scholes;
pub mod binomial;
pub mod greeks;
pub mod select;

verus! {

/// Why a pricing call refused its inputs.
#[derive(Debug, Clone, Copy, PartialEq, Eq, Structural)]
pub enum PricingError {
    /// The lattice's risk-neutral up-probability fell outside `[0, 1]`;
    /// the field carries that probability, in fixed point.
    RejectedParameters { prob: i128 },
    /// A maturity or volatility at or below zero (at fixed-point
    /// resolution) was passed to a formula that is undefined there.
    InvalidDomain,
}

} // verus!
