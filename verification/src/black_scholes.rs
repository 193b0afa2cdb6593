//! Black-Scholes closed-form pricing of European options, in fixed point.
//!
//! The formulas are undefined for a maturity or volatility at zero; at
//! fixed-point resolution that means below `EPS_POSITIVE`, and
//! `black_scholes` reports `InvalidDomain` there.  The helpers `d1` and
//! `d2` expect their callers to have guarded that boundary already.

use vstd::prelude::*;
use crate::PricingError;
use crate::fixed::SCALE;
use crate::fixed::SCALE2;
use crate::fixed::fxmul;
use crate::fixed::fxmuls;
use crate::fixed::sqrt_floor;
use crate::fixed::ln_fx_s;
use crate::fixed::exp_fx_s;
use crate::fixed::ln_fx;
use crate::fixed::exp_fx;
use crate::fixed::mul_fx;
use crate::fixed::smul_fx;
use crate::fixed::sqrt_fx;
use crate::fixed::div_nn;
use crate::fixed::lemma_exp_fx_s_pos;
use crate::normal::norm_cdf_s;
use crate::normal::norm_cdf;
use crate::normal::lemma_cdf_reflect;

verus! {

/// Smallest accepted spot or strike: one thousandth of a currency unit.
pub const PRICE_MIN: i128 = 1_000_000;

/// Largest accepted spot or strike: one million currency units.
pub const PRICE_MAX: i128 = 1_000_000_000_000_000i128;

/// Largest accepted maturity: one hundred years.
pub const TIME_MAX: i128 = 100 * SCALE;

/// Largest accepted rate magnitude: 200 percent a year.
pub const RATE_ABS_MAX: i128 = 2 * SCALE;

/// Largest accepted volatility: 500 percent a year.
pub const VOL_MAX: i128 = 5 * SCALE;

/// Largest accepted rate-times-maturity magnitude, so that discount
/// factors stay representable.
pub const RATE_TIME_MAX: i128 = 5 * SCALE2;

/// A maturity or volatility below this threshold (one thousandth) counts
/// as zero at fixed-point resolution: the closed form is undefined there.
pub const EPS_POSITIVE: i128 = 1_000_000;

/// The closed-form domain shared by `d1`, `d2`, `black_scholes` and the
/// sensitivities: bounded inputs with maturity and volatility away from
/// the undefined boundary.
pub open spec fn bs_domain(s: int, k: int, t: int, r: int, sig: int) -> bool {
    &&& PRICE_MIN <= s <= PRICE_MAX
    &&& PRICE_MIN <= k <= PRICE_MAX
    &&& EPS_POSITIVE <= t <= TIME_MAX
    &&& -RATE_ABS_MAX <= r <= RATE_ABS_MAX
    &&& -RATE_TIME_MAX <= r * t <= RATE_TIME_MAX
    &&& EPS_POSITIVE <= sig <= VOL_MAX
}

/// Fixed-point `sigma * sqrt(t)`.
pub open spec fn sig_sqrt_t_s(t: int, sig: int) -> int {
    fxmul(sig, sqrt_floor(t * SCALE))
}

/// The model of `d1`:
/// `(ln(s / k) + (r + sigma^2 / 2) * t) / (sigma * sqrt(t))`,
/// with each rounding step written out.
pub open spec fn d1_s(s: int, k: int, t: int, r: int, sig: int) -> int {
    let sig2h = ((sig * sig) / (SCALE as int)) / 2;
    let drift = fxmuls(r + sig2h, t);
    let num = ln_fx_s(s) - ln_fx_s(k) + drift;
    let sdt = sig_sqrt_t_s(t, sig);
    if num >= 0 {
        (num * SCALE) / sdt
    } else {
        -((-num * SCALE) / sdt)
    }
}

/// The model of `d2`: `d1 - sigma * sqrt(t)`.
pub open spec fn d2_s(s: int, k: int, t: int, r: int, sig: int) -> int {
    d1_s(s, k, t, r, sig) - sig_sqrt_t_s(t, sig)
}

/// The discount factor `e^(-r * t)` in fixed point.
pub open spec fn discount_s(t: int, r: int) -> int {
    exp_fx_s(-fxmuls(r, t))
}

/// The model of `black_scholes` on its defined domain.  For a call,
/// `s * cdf(d1) - k * e^(-r t) * cdf(d2)`; for a put,
/// `k * e^(-r t) * cdf(-d2) - s * cdf(-d1)`.
pub open spec fn bs_price_s(s: int, k: int, t: int, r: int, sig: int, call: bool) -> int {
    let dv1 = d1_s(s, k, t, r, sig);
    let dv2 = d2_s(s, k, t, r, sig);
    let kd = fxmul(k, discount_s(t, r));
    if call {
        fxmul(s, norm_cdf_s(dv1)) - fxmul(kd, norm_cdf_s(dv2))
    } else {
        fxmul(kd, norm_cdf_s(-dv2)) - fxmul(s, norm_cdf_s(-dv1))
    }
}

/// `sigma * sqrt(t)` computed in fixed point; positive on the domain.
pub fn sig_sqrt_t(t: i128, sig: i128) -> (r: i128)
    requires
        EPS_POSITIVE <= t <= TIME_MAX,
        EPS_POSITIVE <= sig <= VOL_MAX,
    ensures
        r == sig_sqrt_t_s(t as int, sig as int),
        1 <= r <= 100_000_000_000i128,
{
    let rt: i128 = sqrt_fx(t);
    proof {
        assert(rt >= 31_622_776i128) by (nonlinear_arith)
            requires
                0 <= rt,
                (rt + 1) * (rt + 1) > t * SCALE,
                t * SCALE >= 1_000_000_000_000_000i128,
                31_622_776i128 * 31_622_776i128 < 1_000_000_000_000_000i128,
        ;
        assert(sig * rt <= i128::MAX && sig * rt >= SCALE) by (nonlinear_arith)
            requires
                EPS_POSITIVE <= sig <= VOL_MAX,
                31_622_776i128 <= rt <= 10_000_000_000_000_000i128,
        ;
        vstd::arithmetic::div_mod::lemma_div_is_ordered(
            SCALE as int,
            sig as int * rt as int,
            SCALE as int,
        );
        crate::fixed::lemma_div_exact_q(SCALE as int, SCALE as int, 1);
        // Upper bound: rt <= sqrt(100) * SCALE = 10 * SCALE.
        assert(rt <= 10_000_000_000i128) by (nonlinear_arith)
            requires
                0 <= rt,
                rt * rt <= t * SCALE,
                t <= 100 * SCALE,
        ;
        assert(sig as int * rt as int <= (5 * SCALE as int) * 10_000_000_000i128)
            by (nonlinear_arith)
            requires
                0 <= sig <= 5 * SCALE,
                0 <= rt <= 10_000_000_000i128,
        ;
        vstd::arithmetic::div_mod::lemma_div_is_ordered(
            sig as int * rt as int,
            (5 * SCALE as int) * 10_000_000_000i128,
            SCALE as int,
        );
        crate::fixed::lemma_div_exact_q(
            (5 * SCALE as int) * 10_000_000_000i128,
            SCALE as int,
            50_000_000_000int,
        );
    }
    mul_fx(sig, rt)
}

/// The standardized moneyness `d1` of the closed form.  Callers must have
/// guarded the zero-maturity and zero-volatility boundary already.
pub fn d1(spot: i128, strike: i128, time: i128, rate: i128, volatility: i128) -> (r:
    i128)
    requires
        bs_domain(spot as int, strike as int, time as int, rate as int, volatility as int),
    ensures
        r == d1_s(spot as int, strike as int, time as int, rate as int, volatility as int),
        -1_600_000_000_000_000_000_000i128 <= r <= 1_600_000_000_000_000_000_000i128,
{
    proof {
        assert(volatility * volatility <= (5 * SCALE as int) * (5 * SCALE as int))
            by (nonlinear_arith)
            requires
                0 <= volatility <= 5 * SCALE,
        ;
    }
    let sig2: i128 = mul_fx(volatility, volatility);
    let sig2h: i128 = div_nn(sig2, 2);
    proof {
        vstd::arithmetic::div_mod::lemma_div_is_ordered(
            volatility as int * volatility as int,
            (5 * SCALE as int) * (5 * SCALE as int),
            SCALE as int,
        );
        crate::fixed::lemma_div_exact_q(
            (5 * SCALE as int) * (5 * SCALE as int),
            SCALE as int,
            25 * SCALE as int,
        );
        vstd::arithmetic::div_mod::lemma_div_is_ordered(sig2 as int, 25 * SCALE as int, 2);
        vstd::arithmetic::div_mod::lemma_div_pos_is_pos(sig2 as int, 2);
        let a = rate as int + sig2h as int;
        assert(-15 * (SCALE as int) <= a <= 15 * SCALE as int);
        assert(a * time <= (15 * SCALE as int) * (100 * SCALE as int) && a * time >= -((
        15 * SCALE as int) * (100 * SCALE as int))) by (nonlinear_arith)
            requires
                -15 * (SCALE as int) <= a <= 15 * SCALE as int,
                0 <= time <= 100 * SCALE as int,
        ;
    }
    let drift: i128 = smul_fx(rate + sig2h, time);
    proof {
        let a = rate as int + sig2h as int;
        assert(-1500 * (SCALE as int) <= drift <= 1500 * SCALE as int) by (nonlinear_arith)
            requires
                a * time as int <= (15 * SCALE as int) * (100 * SCALE as int),
                a * time as int >= -((15 * SCALE as int) * (100 * SCALE as int)),
                a >= 0 ==> drift * (SCALE as int) <= a * time as int,
                a <= 0 ==> a * time as int <= drift * (SCALE as int),
                a >= 0 ==> drift >= 0,
                a <= 0 ==> drift <= 0,
        ;
    }
    let lns: i128 = ln_fx(spot);
    let lnk: i128 = ln_fx(strike);
    let num: i128 = lns - lnk + drift;
    let sdt: i128 = sig_sqrt_t(time, volatility);
    let r: i128 = if num >= 0 {
        proof {
            assert(num * SCALE <= 1_540_000_000_000_000_000_000i128) by (nonlinear_arith)
                requires
                    0 <= num <= 1_540_000_000_000i128,
            ;
            vstd::arithmetic::div_mod::lemma_div_nonincreasing(
                num as int * SCALE as int,
                sdt as int,
            );
            vstd::arithmetic::div_mod::lemma_div_pos_is_pos(
                num as int * SCALE as int,
                sdt as int,
            );
        }
        div_nn(num * SCALE, sdt)
    } else {
        proof {
            assert((-num) * SCALE <= 1_540_000_000_000_000_000_000i128)
                by (nonlinear_arith)
                requires
                    0 < -num <= 1_540_000_000_000i128,
            ;
            vstd::arithmetic::div_mod::lemma_div_nonincreasing(
                (-num as int) * SCALE as int,
                sdt as int,
            );
            vstd::arithmetic::div_mod::lemma_div_pos_is_pos(
                (-num as int) * SCALE as int,
                sdt as int,
            );
        }
        -div_nn((-num) * SCALE, sdt)
    };
    r
}

/// The standardized moneyness `d2 = d1 - sigma * sqrt(t)`.
pub fn d2(spot: i128, strike: i128, time: i128, rate: i128, volatility: i128) -> (r:
    i128)
    requires
        bs_domain(spot as int, strike as int, time as int, rate as int, volatility as int),
    ensures
        r == d2_s(spot as int, strike as int, time as int, rate as int, volatility as int),
        -1_700_000_000_000_000_000_000i128 <= r <= 1_700_000_000_000_000_000_000i128,
{
    let dv1: i128 = d1(spot, strike, time, rate, volatility);
    let sdt: i128 = sig_sqrt_t(time, volatility);
    dv1 - sdt
}

/// Black-Scholes price of a European option.  Exact against `bs_price_s`
/// on the defined domain; `InvalidDomain` if and only if the maturity or
/// the volatility is below the fixed-point resolution threshold.
pub fn black_scholes(spot: i128, strike: i128, time: i128, rate: i128, volatility: i128,
    call: bool) -> (res: Result<i128, PricingError>)
    requires
        PRICE_MIN <= spot <= PRICE_MAX,
        PRICE_MIN <= strike <= PRICE_MAX,
        0 <= time <= TIME_MAX,
        -RATE_ABS_MAX <= rate <= RATE_ABS_MAX,
        -RATE_TIME_MAX <= rate * time <= RATE_TIME_MAX,
        0 <= volatility <= VOL_MAX,
    ensures
        res == Err::<i128, PricingError>(PricingError::InvalidDomain) <==> (time
            < EPS_POSITIVE || volatility < EPS_POSITIVE),
        (time >= EPS_POSITIVE && volatility >= EPS_POSITIVE) ==> (res matches Ok(v)
            && v as int == bs_price_s(
            spot as int,
            strike as int,
            time as int,
            rate as int,
            volatility as int,
            call,
        )),
{
    if time < EPS_POSITIVE || volatility < EPS_POSITIVE {
        return Err(PricingError::InvalidDomain);
    }
    let dv1: i128 = d1(spot, strike, time, rate, volatility);
    let dv2: i128 = d2(spot, strike, time, rate, volatility);
    proof {
        assert(rate as int * time as int <= RATE_TIME_MAX && -(RATE_TIME_MAX as int)
            <= rate as int * time as int);
        assert(fxmuls(rate as int, time as int) <= 5 * SCALE as int && -(5
            * SCALE as int) <= fxmuls(rate as int, time as int)) by (nonlinear_arith)
            requires
                rate as int * time as int <= 5 * (SCALE as int) * (SCALE as int),
                -(5 * (SCALE as int) * (SCALE as int)) <= rate as int * time as int,
                0 <= time,
                fxmuls(rate as int, time as int) == (if rate >= 0 {
                    (rate as int * time as int) / (SCALE as int)
                } else {
                    -((-rate as int * time as int) / (SCALE as int))
                }),
        ;
    }
    let rt_prod: i128 = smul_fx(rate, time);
    let disc: i128 = exp_fx(-rt_prod);
    proof {
        assert(strike * disc <= 520_000_000_000_000_000_000_000_000i128)
            by (nonlinear_arith)
            requires
                0 <= strike <= PRICE_MAX,
                0 <= disc <= 520_000_000_000i128,
        ;
    }
    let kd: i128 = mul_fx(strike, disc);
    proof {
        assert(kd <= 520_000_000_000_000_000i128);
    }
    if call {
        let nd1: i128 = norm_cdf(dv1);
        let nd2: i128 = norm_cdf(dv2);
        proof {
            assert(spot * nd1 <= i128::MAX && kd * nd2 <= i128::MAX) by (nonlinear_arith)
                requires
                    0 <= spot <= PRICE_MAX,
                    0 <= nd1 <= SCALE,
                    0 <= kd <= 520_000_000_000_000_000i128,
                    0 <= nd2 <= SCALE,
            ;
        }
        Ok(mul_fx(spot, nd1) - mul_fx(kd, nd2))
    } else {
        let nmd2: i128 = norm_cdf(-dv2);
        let nmd1: i128 = norm_cdf(-dv1);
        proof {
            assert(spot * nmd1 <= i128::MAX && kd * nmd2 <= i128::MAX)
                by (nonlinear_arith)
                requires
                    0 <= spot <= PRICE_MAX,
                    0 <= nmd1 <= SCALE,
                    0 <= kd <= 520_000_000_000_000_000i128,
                    0 <= nmd2 <= SCALE,
            ;
        }
        Ok(mul_fx(kd, nmd2) - mul_fx(spot, nmd1))
    }
}

/// Put-call parity: on the closed-form domain, the call price minus the
/// put price equals the spot minus the discounted strike, to within one
/// unit of the last fixed-point place.
pub proof fn lemma_put_call_parity(s: int, k: int, t: int, r: int, sig: int)
    requires
        bs_domain(s, k, t, r, sig),
    ensures
        ({
            let c = bs_price_s(s, k, t, r, sig, true);
            let p = bs_price_s(s, k, t, r, sig, false);
            let kd = fxmul(k, discount_s(t, r));
            -1 <= c - p - (s - kd) && c - p - (s - kd) <= 1
        }),
{
    let dv1 = d1_s(s, k, t, r, sig);
    let dv2 = d2_s(s, k, t, r, sig);
    let disc = discount_s(t, r);
    let kd = fxmul(k, disc);
    lemma_exp_fx_s_pos(-fxmuls(r, t));
    assert(k * disc >= 0) by (nonlinear_arith)
        requires
            0 <= k,
            0 <= disc,
    ;
    vstd::arithmetic::div_mod::lemma_div_pos_is_pos(k * disc, SCALE as int);
    lemma_cdf_reflect(dv1);
    lemma_cdf_reflect(dv2);
    crate::normal::lemma_cdf_range(dv1);
    crate::normal::lemma_cdf_range(dv2);
    let n1 = norm_cdf_s(dv1);
    let n2 = norm_cdf_s(dv2);
    crate::fixed::lemma_fxmul_split(s, n1);
    crate::fixed::lemma_fxmul_split(kd, n2);
    assert(norm_cdf_s(-dv1) == SCALE as int - n1);
    assert(norm_cdf_s(-dv2) == SCALE as int - n2);
}

} // verus!
