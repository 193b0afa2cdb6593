//! The five standard sensitivities of the Black-Scholes price, in fixed
//! point: delta and gamma (spot), vega (volatility), theta (time) and rho
//! (rate), all per-year and full-precision.

use vstd::prelude::*;
use crate::PricingError;
use crate::fixed::SCALE;
use crate::fixed::fxmul;
use crate::fixed::fxmuls;
use crate::fixed::sqrt_floor;
use crate::fixed::exp_fx;
use crate::fixed::mul_fx;
use crate::fixed::smul_fx;
use crate::fixed::sqrt_fx;
use crate::fixed::div_nn;
use crate::normal::norm_cdf_s;
use crate::normal::norm_pdf_s;
use crate::normal::norm_cdf;
use crate::normal::norm_pdf;
use crate::black_scholes::PRICE_MIN;
use crate::black_scholes::PRICE_MAX;
use crate::black_scholes::TIME_MAX;
use crate::black_scholes::RATE_ABS_MAX;
use crate::black_scholes::VOL_MAX;
use crate::black_scholes::RATE_TIME_MAX;
use crate::black_scholes::EPS_POSITIVE;
use crate::black_scholes::d1_s;
use crate::black_scholes::d2_s;
use crate::black_scholes::discount_s;
use crate::black_scholes::d1;
use crate::black_scholes::d2;

verus! {

/// The five sensitivities of one option position.
#[derive(Debug, Clone, Copy, PartialEq, Eq, Structural)]
pub struct Greeks {
    pub delta: i128,
    pub gamma: i128,
    pub vega: i128,
    pub theta: i128,
    pub rho: i128,
}

/// Delta: `cdf(d1)` for a call, `cdf(d1) - 1` for a put.
pub open spec fn delta_s(s: int, k: int, t: int, r: int, sig: int, call: bool) -> int {
    if call {
        norm_cdf_s(d1_s(s, k, t, r, sig))
    } else {
        norm_cdf_s(d1_s(s, k, t, r, sig)) - SCALE as int
    }
}

/// Gamma: `pdf(d1) / (s * sigma * sqrt(t))`, the same for calls and puts,
/// computed in one flooring division.
pub open spec fn gamma_s(s: int, k: int, t: int, r: int, sig: int) -> int {
    (norm_pdf_s(d1_s(s, k, t, r, sig)) * (SCALE as int) * (SCALE as int) * (SCALE as int))
        / (s * sig * sqrt_floor(t * (SCALE as int)))
}

/// Vega: `s * pdf(d1) * sqrt(t)`, the same for calls and puts.
pub open spec fn vega_s(s: int, k: int, t: int, r: int, sig: int) -> int {
    fxmul(fxmul(s, norm_pdf_s(d1_s(s, k, t, r, sig))), sqrt_floor(t * (SCALE as int)))
}

/// The time-decay term shared by both theta variants:
/// `s * pdf(d1) * sigma / (2 * sqrt(t))`, in one flooring division.
pub open spec fn theta_decay_s(s: int, k: int, t: int, r: int, sig: int) -> int {
    (s * norm_pdf_s(d1_s(s, k, t, r, sig)) * sig) / (2 * sqrt_floor(t * (SCALE as int))
        * (SCALE as int))
}

/// Theta: the negated decay term, minus (call) or plus (put) the carry
/// term `r * k * e^(-r t) * cdf(+-d2)`.
pub open spec fn theta_s(s: int, k: int, t: int, r: int, sig: int, call: bool) -> int {
    let rkd = fxmuls(r, fxmul(k, discount_s(t, r)));
    if call {
        -theta_decay_s(s, k, t, r, sig) - fxmuls(rkd, norm_cdf_s(d2_s(s, k, t, r, sig)))
    } else {
        -theta_decay_s(s, k, t, r, sig) + fxmuls(rkd, norm_cdf_s(-d2_s(s, k, t, r, sig)))
    }
}

/// Rho: `k * t * e^(-r t) * cdf(d2)` for a call, the negated mirror with
/// `cdf(-d2)` for a put.
pub open spec fn rho_s(s: int, k: int, t: int, r: int, sig: int, call: bool) -> int {
    let ktd = fxmul(fxmul(k, t), discount_s(t, r));
    if call {
        fxmul(ktd, norm_cdf_s(d2_s(s, k, t, r, sig)))
    } else {
        -fxmul(ktd, norm_cdf_s(-d2_s(s, k, t, r, sig)))
    }
}

/// All five sensitivities.  `InvalidDomain` if and only if the maturity or
/// volatility is below the fixed-point resolution threshold; otherwise
/// each field is exact against its model, delta lies in the unit interval
/// of its side, and gamma and vega are non-negative.
pub fn calculate_greeks(spot: i128, strike: i128, time: i128, rate: i128, volatility:
    i128, call: bool) -> (res: Result<Greeks, PricingError>)
    requires
        PRICE_MIN <= spot <= PRICE_MAX,
        PRICE_MIN <= strike <= PRICE_MAX,
        0 <= time <= TIME_MAX,
        -RATE_ABS_MAX <= rate <= RATE_ABS_MAX,
        -RATE_TIME_MAX <= rate * time <= RATE_TIME_MAX,
        0 <= volatility <= VOL_MAX,
    ensures
        res == Err::<Greeks, PricingError>(PricingError::InvalidDomain) <==> (time
            < EPS_POSITIVE || volatility < EPS_POSITIVE),
        (time >= EPS_POSITIVE && volatility >= EPS_POSITIVE) ==> (res matches Ok(g) && {
            let s = spot as int;
            let k = strike as int;
            let t = time as int;
            let r = rate as int;
            let sig = volatility as int;
            &&& g.delta == delta_s(s, k, t, r, sig, call)
            &&& g.gamma == gamma_s(s, k, t, r, sig)
            &&& g.vega == vega_s(s, k, t, r, sig)
            &&& g.theta == theta_s(s, k, t, r, sig, call)
            &&& g.rho == rho_s(s, k, t, r, sig, call)
            &&& call ==> 0 <= g.delta <= SCALE
            &&& !call ==> -SCALE <= g.delta <= 0
            &&& 0 <= g.gamma
            &&& 0 <= g.vega
        }),
{
    if time < EPS_POSITIVE || volatility < EPS_POSITIVE {
        return Err(PricingError::InvalidDomain);
    }
    let dv1: i128 = d1(spot, strike, time, rate, volatility);
    let dv2: i128 = d2(spot, strike, time, rate, volatility);
    let rt: i128 = sqrt_fx(time);
    proof {
        assert(rt >= 31_622_776i128) by (nonlinear_arith)
            requires
                0 <= rt,
                (rt + 1) * (rt + 1) > time * SCALE,
                time * SCALE >= 1_000_000_000_000_000i128,
                31_622_776i128 * 31_622_776i128 < 1_000_000_000_000_000i128,
        ;
        assert(rt <= 10_000_000_000i128) by (nonlinear_arith)
            requires
                0 <= rt,
                rt * rt <= time * SCALE,
                time <= 100 * SCALE,
        ;
    }
    let cd1: i128 = norm_cdf(dv1);
    let pd1: i128 = norm_pdf(dv1);
    let cd2: i128 = norm_cdf(dv2);
    let cmd2: i128 = norm_cdf(-dv2);

    // Delta.
    let delta: i128 = if call {
        cd1
    } else {
        cd1 - SCALE
    };

    // Gamma, in a single flooring division to keep the small denominator
    // exact.
    proof {
        assert(pd1 * SCALE * SCALE * SCALE <= 400_000_000_000_000_000_000_000_000_000_000_000i128)
            by (nonlinear_arith)
            requires
                0 <= pd1 <= 398_942_280i128,
        ;
        assert(spot * volatility >= 1 && spot * volatility
            <= 5_000_000_000_000_000_000_000_000i128) by (nonlinear_arith)
            requires
                1_000_000 <= spot <= PRICE_MAX,
                1_000_000 <= volatility <= VOL_MAX,
        ;
        assert(spot * volatility * rt >= 1 && spot * volatility * rt
            <= 50_000_000_000_000_000_000_000_000_000_000_000i128) by (nonlinear_arith)
            requires
                1 <= spot * volatility <= 5_000_000_000_000_000_000_000_000i128,
                31_622_776i128 <= rt <= 10_000_000_000i128,
        ;
    }
    let gamma: i128 = div_nn(pd1 * SCALE * SCALE * SCALE, spot * volatility * rt);
    proof {
        vstd::arithmetic::div_mod::lemma_div_pos_is_pos(
            pd1 as int * SCALE as int * SCALE as int * SCALE as int,
            spot as int * volatility as int * rt as int,
        );
    }

    // Vega.
    proof {
        assert(spot * pd1 <= 400_000_000_000_000_000_000_000i128) by (nonlinear_arith)
            requires
                0 <= spot <= PRICE_MAX,
                0 <= pd1 <= 398_942_280i128,
        ;
    }
    let spd: i128 = mul_fx(spot, pd1);
    proof {
        assert(spd <= 400_000_000_000_000i128);
        assert(spd * rt <= i128::MAX) by (nonlinear_arith)
            requires
                0 <= spd <= 400_000_000_000_000i128,
                0 <= rt <= 10_000_000_000i128,
        ;
    }
    let vega: i128 = mul_fx(spd, rt);

    // Theta: decay term, then the carry term.
    proof {
        assert(spot * pd1 * volatility >= 0 && spot * pd1 * volatility
            <= 2_000_000_000_000_000_000_000_000_000_000_000i128) by (nonlinear_arith)
            requires
                0 <= spot <= PRICE_MAX,
                0 <= pd1 <= 398_942_280i128,
                0 <= volatility <= VOL_MAX,
        ;
        assert(2 * rt * SCALE > 0 && 2 * rt * SCALE <= i128::MAX) by (nonlinear_arith)
            requires
                31_622_776i128 <= rt <= 10_000_000_000i128,
        ;
    }
    let decay: i128 = div_nn(spot * pd1 * volatility, 2 * rt * SCALE);
    proof {
        vstd::arithmetic::div_mod::lemma_div_pos_is_pos(
            spot as int * pd1 as int * volatility as int,
            2 * rt as int * SCALE as int,
        );
        vstd::arithmetic::div_mod::lemma_div_nonincreasing(
            spot as int * pd1 as int * volatility as int,
            2 * rt as int * SCALE as int,
        );
    }
    let rt_prod: i128 = smul_fx(rate, time);
    let disc: i128 = exp_fx(-rt_prod);
    proof {
        assert(strike * disc <= 520_000_000_000_000_000_000_000_000i128)
            by (nonlinear_arith)
            requires
                0 <= strike <= PRICE_MAX,
                0 <= disc <= 520_000_000_000i128,
        ;
    }
    let kd: i128 = mul_fx(strike, disc);
    proof {
        assert(kd <= 520_000_000_000_000_000i128);
        assert(rate * kd <= i128::MAX && -i128::MAX <= rate * kd) by (nonlinear_arith)
            requires
                -RATE_ABS_MAX <= rate <= RATE_ABS_MAX,
                0 <= kd <= 520_000_000_000_000_000i128,
        ;
    }
    let rkd: i128 = smul_fx(rate, kd);
    proof {
        assert(-2_000_000_000_000_000_000i128 <= rkd <= 2_000_000_000_000_000_000i128)
            by (nonlinear_arith)
            requires
                rate as int >= 0 ==> rkd * (SCALE as int) <= rate as int * kd as int,
                rate as int <= 0 ==> rate as int * kd as int <= rkd * (SCALE as int),
                rate as int >= 0 ==> rkd >= 0,
                rate as int <= 0 ==> rkd <= 0,
                -RATE_ABS_MAX <= rate <= RATE_ABS_MAX,
                0 <= kd <= 520_000_000_000_000_000i128,
        ;
        assert(rkd * cd2 <= i128::MAX && -i128::MAX <= rkd * cd2 && rkd * cmd2
            <= i128::MAX && -i128::MAX <= rkd * cmd2) by (nonlinear_arith)
            requires
                -2_000_000_000_000_000_000i128 <= rkd <= 2_000_000_000_000_000_000i128,
                0 <= cd2 <= SCALE,
                0 <= cmd2 <= SCALE,
        ;
    }
    let theta: i128 = if call {
        -decay - smul_fx(rkd, cd2)
    } else {
        -decay + smul_fx(rkd, cmd2)
    };

    // Rho.
    proof {
        assert(strike * time <= 100_000_000_000_000_000_000_000_000i128)
            by (nonlinear_arith)
            requires
                0 <= strike <= PRICE_MAX,
                0 <= time <= TIME_MAX,
        ;
    }
    let kt: i128 = mul_fx(strike, time);
    proof {
        assert(kt <= 100_000_000_000_000_000i128);
        assert(kt * disc <= 52_000_000_000_000_000_000_000_000_000i128)
            by (nonlinear_arith)
            requires
                0 <= kt <= 100_000_000_000_000_000i128,
                0 <= disc <= 520_000_000_000i128,
        ;
    }
    let ktd: i128 = mul_fx(kt, disc);
    proof {
        assert(ktd * (SCALE as int) <= kt * disc);
        assert(ktd <= 52_000_000_000_000_000_000i128);
        assert(ktd * cd2 <= i128::MAX && ktd * cmd2 <= i128::MAX) by (nonlinear_arith)
            requires
                0 <= ktd <= 52_000_000_000_000_000_000i128,
                0 <= cd2 <= SCALE,
                0 <= cmd2 <= SCALE,
        ;
    }
    let rho: i128 = if call {
        mul_fx(ktd, cd2)
    } else {
        -mul_fx(ktd, cmd2)
    };

    Ok(Greeks { delta, gamma, vega, theta, rho })
}

} // verus!
