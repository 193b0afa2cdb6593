//! Standard normal density and cumulative distribution in fixed point.
//!
//! The cumulative distribution uses the classic five-coefficient rational
//! approximation driven by the density, clamped to the unit interval, with
//! exact reflection for negative arguments and an exact half at zero.

use vstd::prelude::*;
use crate::fixed::SCALE;
use crate::fixed::SCALE2;
use crate::fixed::fxmul;
use crate::fixed::fxmuls;
use crate::fixed::exp_fx_s;
use crate::fixed::exp_fx;
use crate::fixed::mul_fx;
use crate::fixed::smul_fx;
use crate::fixed::div_nn;
use crate::fixed::lemma_div_exact_q;

verus! {

/// `1 / sqrt(2 * pi)` in fixed point.
pub const INV_SQRT_2PI: i128 = 398_942_280;

/// Exactly one half unit: the cumulative distribution at zero.
pub const HALF_SCALE: i128 = 500_000_000;

/// Coefficients of the tail polynomial, in fixed point.
pub const CDF_B0: i128 = 231_641_900;

pub const CDF_B1: i128 = 319_381_530;

pub const CDF_B2: i128 = -356_563_782;

pub const CDF_B3: i128 = 1_781_477_937;

pub const CDF_B4: i128 = -1_821_255_978;

pub const CDF_B5: i128 = 1_330_274_429;

/// Largest argument magnitude accepted by the distribution functions.
pub const NORM_ARG_MAX: i128 = 10_000_000_000_000_000_000_000i128;

/// The model of `norm_pdf`: zero beyond seven standard deviations (where
/// the true density is below the fixed-point resolution), otherwise
/// `exp(-x^2 / 2) / sqrt(2 * pi)` evaluated in fixed point.
pub open spec fn norm_pdf_s(x: int) -> int {
    let ax = if x >= 0 {
        x
    } else {
        -x
    };
    if ax >= 7 * SCALE as int {
        0
    } else {
        fxmul(INV_SQRT_2PI as int, exp_fx_s(-(((ax * ax) / (SCALE as int)) / 2)))
    }
}

/// The upper-half model of `norm_cdf` for a non-negative argument:
/// `1 - pdf(ax) * poly(t)` with `t = 1 / (1 + b0 * ax)`, clamped to the
/// unit interval.
pub open spec fn cdf_core_s(ax: int) -> int {
    let t = (SCALE2 as int) / (SCALE as int + fxmul(CDF_B0 as int, ax));
    let a4 = fxmuls(CDF_B5 as int, t) + CDF_B4 as int;
    let a3 = fxmuls(a4, t) + CDF_B3 as int;
    let a2 = fxmuls(a3, t) + CDF_B2 as int;
    let a1 = fxmuls(a2, t) + CDF_B1 as int;
    let poly = fxmuls(a1, t);
    let tail = fxmuls(poly, norm_pdf_s(ax));
    let raw = SCALE as int - tail;
    if raw < 0 {
        0
    } else if raw > SCALE as int {
        SCALE as int
    } else {
        raw
    }
}

/// The model of `norm_cdf`: exactly one half at zero, the clamped
/// approximation above zero, and the exact reflection below zero.
pub open spec fn norm_cdf_s(x: int) -> int {
    if x == 0 {
        HALF_SCALE as int
    } else if x > 0 {
        cdf_core_s(x)
    } else {
        SCALE as int - cdf_core_s(-x)
    }
}

/// The cumulative distribution never leaves the unit interval.
pub proof fn lemma_cdf_range(x: int)
    ensures
        0 <= norm_cdf_s(x) <= SCALE as int,
{
}

/// The cumulative distribution reflects exactly around zero.
pub proof fn lemma_cdf_reflect(x: int)
    ensures
        norm_cdf_s(-x) == SCALE as int - norm_cdf_s(x),
{
    if x == 0 {
    } else if x > 0 {
        assert(norm_cdf_s(-x) == SCALE as int - cdf_core_s(x));
    } else {
        assert(norm_cdf_s(-x) == cdf_core_s(-x));
    }
}

/// Standard normal density in fixed point, exact against `norm_pdf_s`.
pub fn norm_pdf(x: i128) -> (r: i128)
    requires
        -NORM_ARG_MAX <= x <= NORM_ARG_MAX,
    ensures
        r == norm_pdf_s(x as int),
        0 <= r <= INV_SQRT_2PI,
{
    let ax: i128 = if x >= 0 {
        x
    } else {
        -x
    };
    if ax >= 7 * SCALE {
        0
    } else {
        proof {
            assert(ax * ax <= 49 * SCALE2) by (nonlinear_arith)
                requires
                    0 <= ax < 7 * SCALE,
            ;
        }
        let x2: i128 = div_nn(ax * ax, SCALE);
        proof {
            vstd::arithmetic::div_mod::lemma_div_pos_is_pos(
                ax as int * ax as int,
                SCALE as int,
            );
            vstd::arithmetic::div_mod::lemma_div_is_ordered(
                ax as int * ax as int,
                49 * (SCALE2 as int),
                SCALE as int,
            );
            lemma_div_exact_q(49 * SCALE2 as int, SCALE as int, 49 * SCALE as int);
        }
        let half: i128 = div_nn(x2, 2);
        proof {
            vstd::arithmetic::div_mod::lemma_div_pos_is_pos(x2 as int, 2);
            vstd::arithmetic::div_mod::lemma_div_is_ordered(x2 as int, 49 * SCALE as int, 2);
        }
        mul_fx(INV_SQRT_2PI, exp_fx(-half))
    }
}

/// Standard normal cumulative distribution in fixed point, exact against
/// `norm_cdf_s` and confined to the unit interval.
pub fn norm_cdf(x: i128) -> (r: i128)
    requires
        -NORM_ARG_MAX <= x <= NORM_ARG_MAX,
    ensures
        r == norm_cdf_s(x as int),
        0 <= r <= SCALE,
{
    if x == 0 {
        return HALF_SCALE;
    }
    let ax: i128 = if x >= 0 {
        x
    } else {
        -x
    };
    let bax: i128 = mul_fx(CDF_B0, ax);
    let den: i128 = SCALE + bax;
    let t: i128 = div_nn(SCALE2, den);
    proof {
        vstd::arithmetic::div_mod::lemma_div_pos_is_pos(SCALE2 as int, den as int);
        vstd::arithmetic::div_mod::lemma_div_is_ordered_by_denominator(
            SCALE2 as int,
            SCALE as int,
            den as int,
        );
        lemma_div_exact_q(SCALE2 as int, SCALE as int, SCALE as int);
    }
    let pd: i128 = norm_pdf(ax);
    let a4: i128 = smul_fx(CDF_B5, t) + CDF_B4;
    proof {
        assert(-4 * SCALE <= a4 <= 4 * SCALE);
        assert(-i128::MAX <= a4 * t && a4 * t <= i128::MAX) by (nonlinear_arith)
            requires
                -4 * SCALE <= a4 <= 4 * SCALE,
                0 <= t <= SCALE,
        ;
    }
    let a3: i128 = smul_fx(a4, t) + CDF_B3;
    proof {
        assert(-6 * SCALE <= a3 <= 6 * SCALE);
        assert(-i128::MAX <= a3 * t && a3 * t <= i128::MAX) by (nonlinear_arith)
            requires
                -6 * SCALE <= a3 <= 6 * SCALE,
                0 <= t <= SCALE,
        ;
    }
    let a2: i128 = smul_fx(a3, t) + CDF_B2;
    proof {
        assert(-8 * SCALE <= a2 <= 8 * SCALE);
        assert(-i128::MAX <= a2 * t && a2 * t <= i128::MAX) by (nonlinear_arith)
            requires
                -8 * SCALE <= a2 <= 8 * SCALE,
                0 <= t <= SCALE,
        ;
    }
    let a1: i128 = smul_fx(a2, t) + CDF_B1;
    proof {
        assert(-9 * SCALE <= a1 <= 9 * SCALE);
        assert(-i128::MAX <= a1 * t && a1 * t <= i128::MAX) by (nonlinear_arith)
            requires
                -9 * SCALE <= a1 <= 9 * SCALE,
                0 <= t <= SCALE,
        ;
    }
    let poly: i128 = smul_fx(a1, t);
    proof {
        assert(-9 * SCALE <= poly <= 9 * SCALE);
        assert(-i128::MAX <= poly * pd && poly * pd <= i128::MAX) by (nonlinear_arith)
            requires
                -9 * SCALE <= poly <= 9 * SCALE,
                0 <= pd <= SCALE,
        ;
    }
    let tail: i128 = smul_fx(poly, pd);
    let raw: i128 = SCALE - tail;
    let cp: i128 = if raw < 0 {
        0
    } else if raw > SCALE {
        SCALE
    } else {
        raw
    };
    proof {
        assert(cp == cdf_core_s(ax as int));
    }
    if x >= 0 {
        cp
    } else {
        SCALE - cp
    }
}

} // verus!
