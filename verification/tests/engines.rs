//! End-to-end tests of the fixed-point pricing engines.
//!
//! All values are scaled by `SCALE = 10^9`: one currency unit or one year
//! is `1_000_000_000`.

use rustquant::PricingError;
use rustquant::binomial::binomial;
use rustquant::black_scholes::black_scholes;
use rustquant::black_scholes::d1;
use rustquant::black_scholes::d2;
use rustquant::fixed::SCALE;
use rustquant::fixed::exp_fx;
use rustquant::fixed::ln_fx;
use rustquant::fixed::sqrt_fx;
use rustquant::greeks::calculate_greeks;
use rustquant::normal::norm_cdf;
use rustquant::normal::norm_pdf;

const S100: i128 = 100 * SCALE;
const K100: i128 = 100 * SCALE;
const T1: i128 = SCALE;
const R5: i128 = 50_000_000; // 0.05
const V20: i128 = 200_000_000; // 0.20

fn close(a: i128, b: i128, tol: i128) -> bool {
    let d = if a > b { a - b } else { b - a };
    d <= tol
}

#[test]
fn exp_kernel_matches_euler() {
    // e^1 = 2.718281828...
    assert!(close(exp_fx(SCALE), 2_718_281_828, 20));
    // e^0 = 1 exactly.
    assert_eq!(exp_fx(0), SCALE);
    // e^-1 = 0.367879441...
    assert!(close(exp_fx(-SCALE), 367_879_441, 20));
}

#[test]
fn ln_kernel_matches_reference() {
    // ln 100 = 4.605170185...
    assert!(close(ln_fx(100 * SCALE), 4_605_170_186, 20));
    // ln 1 = 0.
    assert!(close(ln_fx(SCALE), 0, 5));
    // ln 0.5 = -0.693147180...
    assert!(close(ln_fx(SCALE / 2), -693_147_181, 20));
}

#[test]
fn sqrt_kernel_is_exact_floor() {
    assert_eq!(sqrt_fx(4 * SCALE), 2 * SCALE);
    assert_eq!(sqrt_fx(0), 0);
    // sqrt(2) = 1.414213562...
    assert!(close(sqrt_fx(2 * SCALE), 1_414_213_562, 2));
}

#[test]
fn normal_distribution_matches_tables() {
    assert_eq!(norm_cdf(0), SCALE / 2);
    // Phi(0.5) = 0.691462461...
    assert!(close(norm_cdf(SCALE / 2), 691_462_461, 200));
    // Phi(1.96) = 0.975002...
    assert!(close(norm_cdf(1_960_000_000), 975_002_105, 500));
    // phi(0) = 0.398942280...
    assert_eq!(norm_pdf(0), 398_942_280);
    // The distribution reflects exactly around zero.
    for x in [1, 7, 123_456_789, SCALE, 3 * SCALE, 10 * SCALE] {
        assert_eq!(norm_cdf(x) + norm_cdf(-x), SCALE);
    }
}

#[test]
fn concrete_scenario_closed_form() {
    // S=100, K=100, T=1, r=0.05, sigma=0.2: call about 10.45.
    let c = black_scholes(S100, K100, T1, R5, V20, true).unwrap();
    assert!(close(c, 10_450_583_572, 50_000_000));
    // The matching put is worth about 5.57.
    let p = black_scholes(S100, K100, T1, R5, V20, false).unwrap();
    assert!(close(p, 5_573_526_022, 50_000_000));
    // d1 = 0.35, d2 = 0.15 for these parameters.
    let dv1 = d1(S100, K100, T1, R5, V20);
    let dv2 = d2(S100, K100, T1, R5, V20);
    assert!(close(dv1, 350_000_000, 200));
    assert!(close(dv2, 150_000_000, 200));
}

#[test]
fn concrete_scenario_lattice() {
    // The European lattice price at 200 steps is about 10.45 too.
    let l = binomial(S100, K100, T1, R5, V20, 200, true, false).unwrap();
    assert!(close(l, 10_450_000_000, 50_000_000));
}

#[test]
fn concrete_scenario_greeks() {
    // delta 0.6368, gamma 0.0188, vega 37.52, theta -6.41, rho 53.23.
    let g = calculate_greeks(S100, K100, T1, R5, V20, true).unwrap();
    assert!(close(g.delta, 636_800_000, 200_000));
    assert!(close(g.gamma, 18_800_000, 100_000));
    assert!(close(g.vega, 37_520_000_000, 50_000_000));
    assert!(close(g.theta, -6_410_000_000, 50_000_000));
    assert!(close(g.rho, 53_230_000_000, 50_000_000));
}

#[test]
fn lattice_converges_to_closed_form() {
    // At 500 steps the European lattice is within 0.01 of Black-Scholes.
    let c = black_scholes(S100, K100, T1, R5, V20, true).unwrap();
    let l = binomial(S100, K100, T1, R5, V20, 500, true, false).unwrap();
    assert!(close(l, c, 10_000_000));
}

#[test]
fn put_call_parity_holds() {
    // Call - Put = S - K e^(-r T) = 100 - 100 * 0.951229... = 4.877057...
    let c = black_scholes(S100, K100, T1, R5, V20, true).unwrap();
    let p = black_scholes(S100, K100, T1, R5, V20, false).unwrap();
    assert!(close(c - p, 4_877_057_550, 1_000));
    // And on a second parameter set, with a negative rate.
    let r: i128 = -20_000_000; // -0.02
    let s: i128 = 120 * SCALE;
    let k: i128 = 95 * SCALE;
    let c2 = black_scholes(s, k, 2 * SCALE, r, 300_000_000, true).unwrap();
    let p2 = black_scholes(s, k, 2 * SCALE, r, 300_000_000, false).unwrap();
    // S - K e^(0.04) = 120 - 95 * 1.040810774... = 21.122976...
    assert!(close(c2 - p2, 21_122_976_443, 2_000));
}

#[test]
fn american_premium_dominates() {
    // American >= European, strictly for this in-the-money put.
    let ap = binomial(S100, K100, T1, R5, V20, 200, false, true).unwrap();
    let ep = binomial(S100, K100, T1, R5, V20, 200, false, false).unwrap();
    assert!(ap >= ep);
    assert!(ap - ep > SCALE / 2);
    // The American put is worth about 6.09, the European about 5.56.
    assert!(close(ap, 6_090_000_000, 50_000_000));
    assert!(close(ep, 5_560_000_000, 50_000_000));
    let ac = binomial(S100, K100, T1, R5, V20, 200, true, true).unwrap();
    let ec = binomial(S100, K100, T1, R5, V20, 200, true, false).unwrap();
    assert!(ac >= ec);
}

#[test]
fn american_call_premium_vanishes_at_zero_rate() {
    // With no carry there is no early-exercise value for a call.
    let ac = binomial(S100, K100, T1, 0, V20, 100, true, true).unwrap();
    let ec = binomial(S100, K100, T1, 0, V20, 100, true, false).unwrap();
    assert!(close(ac, ec, 1_000));
}

#[test]
fn invalid_probability_is_rejected() {
    // A large rate with tiny volatility drives the up-probability far
    // above one: the call must fail, never return a number.
    let res = binomial(S100, K100, T1, 1_500_000_000, 10_000_000, 10, true, false);
    match res {
        Err(PricingError::RejectedParameters { prob }) => {
            assert!(prob > SCALE);
        }
        _ => panic!("expected RejectedParameters"),
    }
    // A strongly negative rate drives it below zero.
    let res2 = binomial(S100, K100, T1, -1_500_000_000, 10_000_000, 10, true, false);
    match res2 {
        Err(PricingError::RejectedParameters { prob }) => {
            assert!(prob < 0);
        }
        _ => panic!("expected RejectedParameters"),
    }
}

#[test]
fn valid_probability_always_prices() {
    // Moderate parameter combinations all produce a price.
    for (r, sig) in [
        (0i128, 100_000_000i128),
        (50_000_000, 200_000_000),
        (-20_000_000, 300_000_000),
        (100_000_000, 500_000_000),
    ] {
        for amer in [false, true] {
            for call in [false, true] {
                let res = binomial(S100, K100, T1, r, sig, 50, call, amer);
                assert!(res.is_ok());
                assert!(res.unwrap() >= 0);
            }
        }
    }
}

#[test]
fn degenerate_lattice_is_invalid_domain() {
    // Zero volatility collapses the up and down moves onto each other.
    let res = binomial(S100, K100, T1, R5, 0, 10, true, false);
    assert_eq!(res, Err(PricingError::InvalidDomain));
    // Zero maturity does the same.
    let res2 = binomial(S100, K100, 0, R5, V20, 10, true, false);
    assert_eq!(res2, Err(PricingError::InvalidDomain));
}

#[test]
fn closed_form_rejects_zero_maturity_and_volatility() {
    assert_eq!(black_scholes(S100, K100, 0, R5, V20, true), Err(PricingError::InvalidDomain));
    assert_eq!(black_scholes(S100, K100, T1, R5, 0, false), Err(PricingError::InvalidDomain));
    assert!(calculate_greeks(S100, K100, 0, R5, V20, true).is_err());
    assert!(calculate_greeks(S100, K100, T1, R5, 0, true).is_err());
}

#[test]
fn greeks_bounds_hold_across_parameters() {
    for (s, k, t, r, sig) in [
        (S100, K100, T1, R5, V20),
        (80 * SCALE, 120 * SCALE, 3 * SCALE, -10_000_000i128, 450_000_000i128),
        (150 * SCALE, 90 * SCALE, SCALE / 4, 120_000_000, 50_000_000),
        (SCALE, 1_000_000 * SCALE, 10 * SCALE, 0, 1_000_000),
    ] {
        let gc = calculate_greeks(s, k, t, r, sig, true).unwrap();
        assert!(0 <= gc.delta && gc.delta <= SCALE);
        assert!(gc.gamma >= 0);
        assert!(gc.vega >= 0);
        let gp = calculate_greeks(s, k, t, r, sig, false).unwrap();
        assert!(-SCALE <= gp.delta && gp.delta <= 0);
        assert!(gp.gamma >= 0);
        assert!(gp.vega >= 0);
        // Both sides share gamma and vega.
        assert_eq!(gc.gamma, gp.gamma);
        assert_eq!(gc.vega, gp.vega);
    }
}

#[test]
fn put_delta_is_call_delta_minus_one() {
    let gc = calculate_greeks(S100, K100, T1, R5, V20, true).unwrap();
    let gp = calculate_greeks(S100, K100, T1, R5, V20, false).unwrap();
    assert_eq!(gp.delta, gc.delta - SCALE);
}
