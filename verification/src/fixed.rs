//! Fixed-point arithmetic on scaled `i128` values.
//!
//! A value `v` stands for the real number `v / SCALE`.  All helpers here are
//! exact: each one is specified against a mathematical model over `int`, so
//! every rounding step (flooring division) is pinned down in the contracts.

use vstd::prelude::*;
use vstd::arithmetic::div_mod::lemma_div_is_ordered;
use vstd::arithmetic::div_mod::lemma_fundamental_div_mod;
use vstd::arithmetic::div_mod::lemma_div_pos_is_pos;
use vstd::arithmetic::power2::pow2;

verus! {

/// One whole unit in fixed-point representation.
pub const SCALE: i128 = 1_000_000_000;

/// Fixed-point product with flooring: the model of `mul_fx`.
pub open spec fn fxmul(a: int, b: int) -> int {
    (a * b) / (SCALE as int)
}

/// Flooring division of non-negative operands.
pub fn div_nn(a: i128, b: i128) -> (q: i128)
    requires
        0 <= a,
        0 < b,
    ensures
        q == a as int / b as int,
{
    let au: u128 = a as u128;
    let bu: u128 = b as u128;
    let qu: u128 = au / bu;
    proof {
        assert(au == a as int);
        assert(bu == b as int);
        assert(qu == a as int / b as int);
        lemma_div_pos_is_pos(a as int, b as int);
        lemma_div_is_ordered(a as int, a as int, b as int);
        assert(a as int / b as int <= a as int) by {
            vstd::arithmetic::div_mod::lemma_div_nonincreasing(a as int, b as int);
        }
    }
    qu as i128
}

/// Fixed-point multiply of non-negative values, rounding toward zero.
pub fn mul_fx(a: i128, b: i128) -> (r: i128)
    requires
        0 <= a,
        0 <= b,
        a * b <= i128::MAX,
    ensures
        r == fxmul(a as int, b as int),
        0 <= r,
        r * (SCALE as int) <= a * b,
        b <= SCALE ==> r <= a,
{
    let p: i128 = a * b;
    let r = div_nn(p, SCALE);
    proof {
        lemma_div_pos_is_pos(p as int, SCALE as int);
        lemma_fundamental_div_mod(p as int, SCALE as int);
        assert(0 <= p as int % (SCALE as int) < SCALE as int) by {
            vstd::arithmetic::div_mod::lemma_mod_bound(p as int, SCALE as int);
        }
        if b <= SCALE {
            assert(r <= a) by (nonlinear_arith)
                requires
                    0 <= a,
                    0 <= b <= SCALE,
                    0 <= r,
                    r * (SCALE as int) <= a * b,
            ;
        }
    }
    r
}

/// Fixed-point product of a signed value with a non-negative one: the model
/// of `smul_fx`.  Rounds toward zero, as the implementation does.
pub open spec fn fxmuls(a: int, b: int) -> int {
    if a >= 0 {
        fxmul(a, b)
    } else {
        -fxmul(-a, b)
    }
}

/// Fixed-point multiply of a signed value with a non-negative one,
/// rounding toward zero.
pub fn smul_fx(a: i128, b: i128) -> (r: i128)
    requires
        0 <= b,
        -i128::MAX <= a,
        a * b <= i128::MAX,
        -i128::MAX <= a * b,
    ensures
        r == fxmuls(a as int, b as int),
        a >= 0 ==> 0 <= r,
        a <= 0 ==> r <= 0,
        b <= SCALE && a >= 0 ==> r <= a,
        b <= SCALE && a <= 0 ==> a <= r,
        a >= 0 ==> r * (SCALE as int) <= a * b,
        a <= 0 ==> a * b <= r * (SCALE as int),
{
    if a >= 0 {
        mul_fx(a, b)
    } else {
        proof {
            assert((-(a as int)) * (b as int) == -((a as int) * (b as int)))
                by (nonlinear_arith);
        }
        let m = mul_fx(-a, b);
        -m
    }
}

/// Splitting a weight `u` of one unit across two fixed-point products
/// loses at most one unit of the last place.
pub proof fn lemma_fxmul_split(a: int, u: int)
    requires
        0 <= a,
        0 <= u <= SCALE as int,
    ensures
        a - 1 <= fxmul(a, u) + fxmul(a, SCALE as int - u) <= a,
{
    let v = SCALE as int - u;
    let q1 = (a * u) / (SCALE as int);
    let q2 = (a * v) / (SCALE as int);
    lemma_fundamental_div_mod(a * u, SCALE as int);
    lemma_fundamental_div_mod(a * v, SCALE as int);
    vstd::arithmetic::div_mod::lemma_mod_bound(a * u, SCALE as int);
    vstd::arithmetic::div_mod::lemma_mod_bound(a * v, SCALE as int);
    assert(a * u + a * v == a * (SCALE as int)) by (nonlinear_arith)
        requires
            v == SCALE as int - u,
    ;
    let r1 = (a * u) % (SCALE as int);
    let r2 = (a * v) % (SCALE as int);
    assert((SCALE as int) * (a - q1 - q2) == r1 + r2) by (nonlinear_arith)
        requires
            (SCALE as int) * q1 + r1 == a * u,
            (SCALE as int) * q2 + r2 == a * v,
            a * u + a * v == a * (SCALE as int),
    ;
    assert(0 <= a - q1 - q2 <= 1) by (nonlinear_arith)
        requires
            (SCALE as int) * (a - q1 - q2) == r1 + r2,
            0 <= r1 < SCALE,
            0 <= r2 < SCALE,
    ;
}

/// The floor of the square root of `w`, characterized by its square.
pub open spec fn sqrt_floor(w: int) -> int {
    choose|r: int| 0 <= r && #[trigger] (r * r) <= w && w < (r + 1) * (r + 1)
}

/// The floor square root is unique, so any witness equals `sqrt_floor`.
pub proof fn lemma_sqrt_floor_is(w: int, r: int)
    requires
        0 <= r,
        r * r <= w,
        w < (r + 1) * (r + 1),
    ensures
        sqrt_floor(w) == r,
{
    assert(exists|q: int| 0 <= q && #[trigger] (q * q) <= w && w < (q + 1) * (q + 1)) by {
        assert(0 <= r && r * r <= w && w < (r + 1) * (r + 1));
    }
    let c = sqrt_floor(w);
    assert(0 <= c && c * c <= w && w < (c + 1) * (c + 1));
    assert(c == r) by (nonlinear_arith)
        requires
            0 <= r,
            r * r <= w,
            w < (r + 1) * (r + 1),
            0 <= c,
            c * c <= w,
            w < (c + 1) * (c + 1),
    ;
}

/// Taking the floor square root preserves order.
pub proof fn lemma_sqrt_floor_ordered(w1: int, w2: int, r1: int, r2: int)
    requires
        0 <= w1 <= w2,
        r1 == sqrt_floor(w1),
        r2 == sqrt_floor(w2),
        0 <= r1,
        r1 * r1 <= w1 < (r1 + 1) * (r1 + 1),
        0 <= r2,
        r2 * r2 <= w2 < (r2 + 1) * (r2 + 1),
    ensures
        r1 <= r2,
{
    assert(r1 <= r2) by (nonlinear_arith)
        requires
            0 <= w1 <= w2,
            0 <= r1,
            r1 * r1 <= w1 < (r1 + 1) * (r1 + 1),
            0 <= r2,
            r2 * r2 <= w2 < (r2 + 1) * (r2 + 1),
    ;
}

/// Integer floor square root by bisection.
pub fn isqrt(w: i128) -> (r: i128)
    requires
        0 <= w <= 100_000_000_000_000_000_000_000_000_000_000i128,
    ensures
        0 <= r,
        r * r <= w,
        w < (r + 1) * (r + 1),
        r == sqrt_floor(w as int),
        r <= 10_000_000_000_000_000i128,
{
    let mut lo: i128 = 0;
    let mut hi: i128 = 10_000_000_000_000_001;
    proof {
        assert((10_000_000_000_000_001i128 as int) * (10_000_000_000_000_001i128 as int)
            > 100_000_000_000_000_000_000_000_000_000_000) by (nonlinear_arith);
    }
    while lo + 1 < hi
        invariant
            0 <= lo < hi <= 10_000_000_000_000_001i128,
            lo * lo <= w,
            w < hi * hi,
        decreases hi - lo,
    {
        let mid: i128 = div_nn(lo + hi, 2);
        proof {
            assert(lo < mid < hi) by {
                lemma_fundamental_div_mod(lo as int + hi as int, 2);
            }
            assert(mid * mid <= 10_000_000_000_000_001i128 * 10_000_000_000_000_001i128)
                by (nonlinear_arith)
                requires
                    0 <= mid <= 10_000_000_000_000_001i128,
            ;
        }
        if mid * mid <= w {
            lo = mid;
        } else {
            hi = mid;
        }
    }
    proof {
        lemma_sqrt_floor_is(w as int, lo as int);
    }
    lo
}

/// Fixed-point square root: `r / SCALE` is the rounded-down square root of
/// `v / SCALE`, i.e. `r == floor(sqrt(v * SCALE))`.
pub fn sqrt_fx(v: i128) -> (r: i128)
    requires
        0 <= v <= 100_000_000_000_000_000_000_000i128,
    ensures
        0 <= r,
        r * r <= v * (SCALE as int),
        v * (SCALE as int) < (r + 1) * (r + 1),
        r == sqrt_floor(v as int * (SCALE as int)),
        r <= 10_000_000_000_000_000i128,
{
    let w: i128 = v * SCALE;
    isqrt(w)
}

/// Pins a quotient down from a bracketing of the dividend.
pub proof fn lemma_div_exact_q(x: int, d: int, q: int)
    requires
        0 < d,
        0 <= q,
        q * d <= x,
        x < (q + 1) * d,
    ensures
        x / d == q,
{
    assert(x == q * d + (x - q * d));
    assert((q + 1) * d == q * d + d) by (nonlinear_arith);
    vstd::arithmetic::div_mod::lemma_fundamental_div_mod_converse(x, d, q, x - q * d);
}

/// `SCALE * SCALE`, handy when dividing one fixed-point value by another.
pub const SCALE2: i128 = SCALE * SCALE;

/// ln 2 in fixed-point, rounded to the nearest unit.
pub const LN2F: i128 = 693_147_181;

/// Number of Taylor terms used by `exp_fx`; the sixteenth term of
/// `e^x` for `x < ln 2` is below the fixed-point resolution.
pub const EXP_ITERS: i128 = 16;

/// The Taylor-sum recurrence behind `exp_fx`, written over `int`:
/// starting from `term` and `sum` at step `i`, each step multiplies the
/// previous term by `rem / (i + 1)` in fixed point and adds it on.
pub open spec fn texp(rem: int, i: int, term: int, sum: int) -> int
    decreases (EXP_ITERS as int) - i,
{
    if i < 0 || i >= EXP_ITERS as int {
        sum
    } else {
        let t2 = (term * rem) / ((SCALE as int) * (i + 1));
        texp(rem, i + 1, t2, sum + t2)
    }
}

/// The model of `exp_fx` on non-negative arguments: range-reduce by ln 2,
/// run the Taylor sum on the remainder, then scale by the power of two.
pub open spec fn exp_pos_s(x: int) -> int {
    texp(x % (LN2F as int), 0, SCALE as int, SCALE as int) * pow2(
        (x / (LN2F as int)) as nat,
    )
}

/// The model of `exp_fx`: a negative argument goes through the reciprocal.
pub open spec fn exp_fx_s(x: int) -> int {
    if x >= 0 {
        exp_pos_s(x)
    } else {
        (SCALE2 as int) / exp_pos_s(-x)
    }
}

/// Fixed-point `e^x` for `0 <= x <= 30`.
fn exp_pos(x: i128) -> (r: i128)
    requires
        0 <= x <= 30 * SCALE,
    ensures
        r == exp_pos_s(x as int),
        SCALE <= r,
        x >= 1 ==> r >= SCALE + 1,
        x == 0 ==> r == SCALE,
        x <= 5 * SCALE ==> r <= 520_000_000_000i128,
        x <= 21 * SCALE ==> r <= 4_300_000_000_000_000_000i128,
        r <= 36_000_000_000_000_000_000_000i128,
{
    let k: i128 = div_nn(x, LN2F);
    let rem: i128 = x - k * LN2F;
    proof {
        lemma_fundamental_div_mod(x as int, LN2F as int);
        vstd::arithmetic::div_mod::lemma_mod_bound(x as int, LN2F as int);
        assert(rem == x as int % (LN2F as int));
        lemma_div_is_ordered(x as int, 30 * SCALE as int, LN2F as int);
        lemma_div_exact_q(30 * SCALE as int, LN2F as int, 43);
        if x <= 21 * SCALE {
            lemma_div_is_ordered(x as int, 21 * SCALE as int, LN2F as int);
            lemma_div_exact_q(21 * SCALE as int, LN2F as int, 30);
        }
        if x <= 5 * SCALE {
            lemma_div_is_ordered(x as int, 5 * SCALE as int, LN2F as int);
            lemma_div_exact_q(5 * SCALE as int, LN2F as int, 7);
        }
        lemma_div_pos_is_pos(x as int, LN2F as int);
    }
    // Taylor sum of e^rem for rem in [0, ln 2).
    let mut i: i128 = 0;
    let mut term: i128 = SCALE;
    let mut sum: i128 = SCALE;
    while i < EXP_ITERS
        invariant
            0 <= i <= EXP_ITERS,
            0 <= rem < LN2F,
            0 <= term <= SCALE,
            SCALE <= sum,
            sum + 3 * term <= 4 * SCALE,
            i == 0 ==> term == SCALE && sum == SCALE,
            i >= 1 ==> sum >= SCALE + rem,
            rem == 0 ==> sum == SCALE,
            texp(rem as int, i as int, term as int, sum as int) == texp(
                rem as int,
                0,
                SCALE as int,
                SCALE as int,
            ),
        decreases EXP_ITERS - i,
    {
        let denom: i128 = SCALE * (i + 1);
        proof {
            assert(SCALE as int <= denom as int <= (SCALE as int) * (EXP_ITERS as int))
                by (nonlinear_arith)
                requires
                    0 <= i < EXP_ITERS,
                    denom == SCALE * (i + 1),
            ;
            assert(term * rem <= (SCALE as int) * (LN2F as int)) by (nonlinear_arith)
                requires
                    0 <= term <= SCALE,
                    0 <= rem < LN2F,
            ;
        }
        let t2: i128 = div_nn(term * rem, denom);
        proof {
            let p = term as int * rem as int;
            let d = denom as int;
            lemma_fundamental_div_mod(p, d);
            vstd::arithmetic::div_mod::lemma_mod_bound(p, d);
            // 4 * t2 <= 3 * term, so the sum bound is maintained.
            assert(4 * (p / d) <= 3 * term) by (nonlinear_arith)
                requires
                    0 <= term,
                    0 <= rem <= 694_000_000,
                    (SCALE as int) <= d,
                    p == term * rem,
                    d * (p / d) + p % d == p,
                    0 <= p % d < d,
            ;
            // At the first step the quotient is exactly rem.
            if i == 0 {
                assert((SCALE as int) * (rem as int) / ((SCALE as int) * 1) == rem as int)
                    by (nonlinear_arith)
                    requires
                        0 <= rem,
                ;
            }
            lemma_div_pos_is_pos(p, d);
            vstd::arithmetic::div_mod::lemma_div_nonincreasing(p, d);
            if rem == 0 {
                assert(p == 0) by (nonlinear_arith)
                    requires
                        rem == 0,
                        p == term * rem,
                ;
            }
        }
        sum = sum + t2;
        term = t2;
        i = i + 1;
    }
    // Scale by 2^k.
    let mut r: i128 = sum;
    let mut j: i128 = 0;
    proof {
        vstd::arithmetic::power2::lemma2_to64();
        vstd::arithmetic::power2::lemma2_to64_rest();
    }
    while j < k
        invariant
            0 <= j <= k <= 43,
            SCALE <= sum <= 4 * SCALE,
            r == (sum as int) * pow2(j as nat),
            r <= (sum as int) * pow2(43),
        decreases k - j,
    {
        proof {
            vstd::arithmetic::power2::lemma2_to64();
            vstd::arithmetic::power2::lemma2_to64_rest();
            assert(pow2((j + 1) as nat) == 2 * pow2(j as nat)) by {
                vstd::arithmetic::power2::lemma_pow2_unfold((j + 1) as nat);
            }
            if j + 1 < 43 {
                vstd::arithmetic::power2::lemma_pow2_strictly_increases(
                    (j + 1) as nat,
                    43nat,
                );
            }
            assert((sum as int) * pow2((j + 1) as nat) <= (sum as int) * pow2(43))
                by (nonlinear_arith)
                requires
                    0 <= sum,
                    pow2((j + 1) as nat) <= pow2(43),
            ;
            assert((sum as int) * pow2((j + 1) as nat) == 2 * ((sum as int) * pow2(
                j as nat,
            ))) by (nonlinear_arith)
                requires
                    pow2((j + 1) as nat) == 2 * pow2(j as nat),
            ;
            assert((sum as int) * pow2(43) == (sum as int) * 0x80000000000);
            assert((sum as int) * 0x80000000000 <= 4 * (SCALE as int) * 0x80000000000)
                by (nonlinear_arith)
                requires
                    sum <= 4 * SCALE,
            ;
        }
        r = r * 2;
        j = j + 1;
    }
    proof {
        vstd::arithmetic::power2::lemma2_to64();
        vstd::arithmetic::power2::lemma2_to64_rest();
        vstd::arithmetic::power2::lemma_pow2_pos(k as nat);
        assert(r == (sum as int) * pow2(k as nat));
        assert(r >= (sum as int) * 1) by (nonlinear_arith)
            requires
                r == (sum as int) * pow2(k as nat),
                0 <= sum,
                pow2(k as nat) >= 1,
        ;
        if k >= 1 {
            assert(pow2(k as nat) >= 2) by {
                if k > 1 {
                    vstd::arithmetic::power2::lemma_pow2_strictly_increases(1, k as nat);
                }
            }
            assert(r >= (sum as int) * 2) by (nonlinear_arith)
                requires
                    r == (sum as int) * pow2(k as nat),
                    0 <= sum,
                    pow2(k as nat) >= 2,
            ;
        }
        if k <= 30 {
            assert(pow2(k as nat) <= pow2(30)) by {
                if k < 30 {
                    vstd::arithmetic::power2::lemma_pow2_strictly_increases(k as nat, 30);
                }
            }
            assert(r <= 4 * (SCALE as int) * 0x40000000) by (nonlinear_arith)
                requires
                    r == (sum as int) * pow2(k as nat),
                    0 <= sum <= 4 * SCALE,
                    pow2(k as nat) <= 0x40000000,
            ;
        }
        if k <= 7 {
            assert(pow2(k as nat) <= pow2(7)) by {
                if k < 7 {
                    vstd::arithmetic::power2::lemma_pow2_strictly_increases(k as nat, 7);
                }
            }
            assert(r <= 4 * (SCALE as int) * 0x80) by (nonlinear_arith)
                requires
                    r == (sum as int) * pow2(k as nat),
                    0 <= sum <= 4 * SCALE,
                    pow2(k as nat) <= 0x80,
            ;
        }
        assert(pow2(k as nat) <= pow2(43)) by {
            if k < 43 {
                vstd::arithmetic::power2::lemma_pow2_strictly_increases(k as nat, 43);
            }
        }
        assert(r <= 4 * (SCALE as int) * 0x80000000000) by (nonlinear_arith)
            requires
                r == (sum as int) * pow2(k as nat),
                0 <= sum <= 4 * SCALE,
                pow2(k as nat) <= 0x80000000000,
        ;
    }
    r
}

/// Fixed-point `e^x` for `|x| <= 30`, exact against `exp_fx_s`.
pub fn exp_fx(x: i128) -> (r: i128)
    requires
        -30 * SCALE <= x <= 30 * SCALE,
    ensures
        r == exp_fx_s(x as int),
        0 <= r,
        x >= 0 ==> r >= SCALE,
        x >= 1 ==> r >= SCALE + 1,
        x <= 0 ==> r <= SCALE,
        x <= -1 ==> r <= SCALE - 1,
        0 <= x <= 5 * SCALE ==> r <= 520_000_000_000i128,
        0 <= x <= 21 * SCALE ==> r <= 4_300_000_000_000_000_000i128,
        r <= 36_000_000_000_000_000_000_000i128,
{
    if x >= 0 {
        exp_pos(x)
    } else {
        let ep: i128 = exp_pos(-x);
        let r = div_nn(SCALE2, ep);
        proof {
            vstd::arithmetic::div_mod::lemma_div_is_ordered_by_denominator(
                SCALE2 as int,
                SCALE as int,
                ep as int,
            );
            lemma_div_exact_q(SCALE2 as int, SCALE as int, SCALE as int);
            if x <= -1 {
                vstd::arithmetic::div_mod::lemma_div_is_ordered_by_denominator(
                    SCALE2 as int,
                    SCALE as int + 1,
                    ep as int,
                );
                lemma_div_exact_q(SCALE2 as int, SCALE as int + 1, 999_999_999);
            }
            lemma_div_pos_is_pos(SCALE2 as int, ep as int);
        }
        r
    }
}

/// The Taylor sum only ever adds non-negative terms, so it never drops
/// below its starting value.
pub proof fn lemma_texp_ge_sum(rem: int, i: int, term: int, sum: int)
    requires
        0 <= rem,
        0 <= term,
    ensures
        texp(rem, i, term, sum) >= sum,
    decreases (EXP_ITERS as int) - i,
{
    if i < 0 || i >= EXP_ITERS as int {
    } else {
        let t2 = (term * rem) / ((SCALE as int) * (i + 1));
        assert(term * rem >= 0) by (nonlinear_arith)
            requires
                0 <= term,
                0 <= rem,
        ;
        lemma_div_pos_is_pos(term * rem, (SCALE as int) * (i + 1));
        lemma_texp_ge_sum(rem, i + 1, t2, sum + t2);
    }
}

/// The model of `exp_fx` is positive everywhere.
pub proof fn lemma_exp_fx_s_pos(x: int)
    ensures
        exp_fx_s(x) >= 0,
        x >= 0 ==> exp_fx_s(x) >= SCALE,
{
    vstd::arithmetic::div_mod::lemma_mod_bound(
        if x >= 0 {
            x
        } else {
            -x
        },
        LN2F as int,
    );
    if x >= 0 {
        lemma_texp_ge_sum(x % (LN2F as int), 0, SCALE as int, SCALE as int);
        vstd::arithmetic::power2::lemma_pow2_pos((x / (LN2F as int)) as nat);
        vstd::arithmetic::div_mod::lemma_div_pos_is_pos(x, LN2F as int);
        assert(exp_pos_s(x) >= (SCALE as int) * 1) by (nonlinear_arith)
            requires
                texp(x % (LN2F as int), 0, SCALE as int, SCALE as int) >= SCALE,
                pow2((x / (LN2F as int)) as nat) >= 1,
                exp_pos_s(x) == texp(x % (LN2F as int), 0, SCALE as int, SCALE as int)
                    * pow2((x / (LN2F as int)) as nat),
        ;
    } else {
        lemma_texp_ge_sum((-x) % (LN2F as int), 0, SCALE as int, SCALE as int);
        vstd::arithmetic::power2::lemma_pow2_pos(((-x) / (LN2F as int)) as nat);
        vstd::arithmetic::div_mod::lemma_div_pos_is_pos(-x, LN2F as int);
        assert(exp_pos_s(-x) >= (SCALE as int) * 1) by (nonlinear_arith)
            requires
                texp((-x) % (LN2F as int), 0, SCALE as int, SCALE as int) >= SCALE,
                pow2(((-x) / (LN2F as int)) as nat) >= 1,
                exp_pos_s(-x) == texp((-x) % (LN2F as int), 0, SCALE as int, SCALE as int)
                    * pow2(((-x) / (LN2F as int)) as nat),
        ;
        vstd::arithmetic::div_mod::lemma_div_pos_is_pos(SCALE2 as int, exp_pos_s(-x));
    }
}

/// Number of odd-power terms used by the `ln_fx` series after the first.
pub const LN_ITERS: i128 = 10;

/// Mantissa after repeated doubling of a value below one unit.
pub open spec fn mant_up(v: int) -> int
    decreases (if v < SCALE as int { SCALE as int - v } else { 0 }),
{
    if 1 <= v && v < SCALE as int {
        mant_up(2 * v)
    } else {
        v
    }
}

/// Binary exponent accompanying `mant_up` (non-positive).
pub open spec fn shift_up(v: int) -> int
    decreases (if v < SCALE as int { SCALE as int - v } else { 0 }),
{
    if 1 <= v && v < SCALE as int {
        shift_up(2 * v) - 1
    } else {
        0
    }
}

/// Mantissa after repeated halving of a value of two units or more.
pub open spec fn mant_down(v: int) -> int
    decreases v,
{
    if v >= 2 * SCALE as int {
        mant_down(v / 2)
    } else {
        v
    }
}

/// Binary exponent accompanying `mant_down` (non-negative).
pub open spec fn shift_down(v: int) -> int
    decreases v,
{
    if v >= 2 * SCALE as int {
        shift_down(v / 2) + 1
    } else {
        0
    }
}

/// Normalized mantissa of `v`, in `[SCALE, 2 * SCALE)` for `v >= 1`.
pub open spec fn ln_mant(v: int) -> int {
    if v < SCALE as int {
        mant_up(v)
    } else {
        mant_down(v)
    }
}

/// Binary exponent of `v`: `v` is close to `ln_mant(v) * 2^(ln_shift(v))`.
pub open spec fn ln_shift(v: int) -> int {
    if v < SCALE as int {
        shift_up(v)
    } else {
        shift_down(v)
    }
}

/// The odd-power series recurrence behind `ln_fx`: starting from the first
/// term `z`, each step multiplies by `z^2` in fixed point and adds the term
/// divided by the next odd number.
pub open spec fn tln(zz: int, j: int, term: int, sum: int) -> int
    decreases (LN_ITERS as int) - j,
{
    if j < 0 || j >= LN_ITERS as int {
        sum
    } else {
        let t2 = (term * zz) / (SCALE as int);
        tln(zz, j + 1, t2, sum + t2 / (2 * j + 3))
    }
}

/// The model of `ln_fx`: normalize to `m * 2^k` with `m` in one-to-two
/// units, sum the series for `ln m` via `z = (m - 1) / (m + 1)`, then add
/// `k * ln 2`.
pub open spec fn ln_fx_s(v: int) -> int {
    let m = ln_mant(v);
    let k = ln_shift(v);
    let z = ((m - SCALE as int) * (SCALE as int)) / (m + SCALE as int);
    let zz = (z * z) / (SCALE as int);
    2 * tln(zz, 0, z, z) + k * (LN2F as int)
}

/// Fixed-point natural logarithm, exact against `ln_fx_s`.
pub fn ln_fx(v: i128) -> (r: i128)
    requires
        1 <= v <= 1_000_000_000_000_000i128,
    ensures
        r == ln_fx_s(v as int),
        -22 * SCALE <= r <= 16 * SCALE,
{
    let mut cur: i128 = v;
    let mut k: i128 = 0;
    proof {
        vstd::arithmetic::power2::lemma2_to64();
    }
    if cur < SCALE {
        proof {
            assert(v as int * pow2(0) == v as int) by (nonlinear_arith)
                requires
                    pow2(0) == 1,
            ;
        }
        while cur < SCALE
            invariant
                1 <= cur < 2 * SCALE,
                -31 <= k <= 0,
                cur == v as int * pow2((-k) as nat),
                mant_up(v as int) == mant_up(cur as int),
                shift_up(v as int) == k + shift_up(cur as int),
                v < SCALE,
                1 <= v,
            decreases 2 * SCALE - cur,
        {
            proof {
                vstd::arithmetic::power2::lemma2_to64();
                assert(pow2((-k) as nat) <= cur) by (nonlinear_arith)
                    requires
                        cur == v as int * pow2((-k) as nat),
                        1 <= v,
                        pow2((-k) as nat) >= 0,
                ;
                if -k >= 30 {
                    if -k > 30 {
                        vstd::arithmetic::power2::lemma_pow2_strictly_increases(
                            30,
                            (-k) as nat,
                        );
                    }
                    assert(false);
                }
                vstd::arithmetic::power2::lemma_pow2_unfold((-(k - 1)) as nat);
                assert(v as int * pow2((-(k - 1)) as nat) == 2 * (v as int * pow2(
                    (-k) as nat,
                ))) by (nonlinear_arith)
                    requires
                        pow2((-(k - 1)) as nat) == 2 * pow2((-k) as nat),
                ;
            }
            cur = cur * 2;
            k = k - 1;
        }
    } else {
        proof {
            assert(v as int * pow2(0) == v as int) by (nonlinear_arith)
                requires
                    pow2(0) == 1,
            ;
        }
        while cur >= 2 * SCALE
            invariant
                SCALE <= cur,
                0 <= k <= 20,
                cur as int * pow2(k as nat) <= v as int,
                mant_down(v as int) == mant_down(cur as int),
                shift_down(v as int) == k + shift_down(cur as int),
                SCALE <= v <= 1_000_000_000_000_000i128,
            decreases cur,
        {
            let half: i128 = div_nn(cur, 2);
            proof {
                vstd::arithmetic::power2::lemma2_to64();
                vstd::arithmetic::power2::lemma_pow2_pos(k as nat);
                lemma_fundamental_div_mod(cur as int, 2);
                assert(pow2(k as nat) * (2 * SCALE as int) <= v as int)
                    by (nonlinear_arith)
                    requires
                        cur as int * pow2(k as nat) <= v as int,
                        2 * SCALE <= cur,
                        pow2(k as nat) >= 1,
                ;
                if k >= 20 {
                    if k > 20 {
                        vstd::arithmetic::power2::lemma_pow2_strictly_increases(
                            20,
                            k as nat,
                        );
                    }
                    assert(false);
                }
                vstd::arithmetic::power2::lemma_pow2_unfold((k + 1) as nat);
                assert(half as int * pow2((k + 1) as nat) <= cur as int * pow2(k as nat))
                    by (nonlinear_arith)
                    requires
                        2 * half <= cur,
                        0 <= half,
                        pow2((k + 1) as nat) == 2 * pow2(k as nat),
                        pow2(k as nat) >= 0,
                ;
            }
            cur = half;
            k = k + 1;
        }
    }
    let m: i128 = cur;
    let num: i128 = (m - SCALE) * SCALE;
    let den: i128 = m + SCALE;
    let z: i128 = div_nn(num, den);
    proof {
        assert(ln_mant(v as int) == m);
        assert(ln_shift(v as int) == k);
        lemma_fundamental_div_mod(num as int, den as int);
        vstd::arithmetic::div_mod::lemma_mod_bound(num as int, den as int);
        // z <= SCALE / 3 because (m - 1)(m + 1)^{-1} <= 1/3 for m < 2.
        assert(3 * z <= SCALE) by (nonlinear_arith)
            requires
                den * z + num % den == num,
                0 <= num % den < den,
                num == (m - SCALE) * SCALE,
                den == m + SCALE,
                SCALE <= m < 2 * SCALE,
                0 <= z,
        ;
        lemma_div_pos_is_pos(num as int, den as int);
        assert(z * z <= 334_000_000i128 * 334_000_000i128) by (nonlinear_arith)
            requires
                0 <= z,
                3 * z <= SCALE,
        ;
    }
    let zz: i128 = mul_fx(z, z);
    proof {
        lemma_fundamental_div_mod(z as int * z as int, SCALE as int);
        assert(8 * zz <= SCALE) by (nonlinear_arith)
            requires
                zz == (z * z) / (SCALE as int),
                (SCALE as int) * zz <= z * z,
                0 <= z,
                3 * z <= SCALE,
                zz >= 0,
        ;
    }
    let mut j: i128 = 0;
    let mut term: i128 = z;
    let mut sum: i128 = z;
    while j < LN_ITERS
        invariant
            0 <= j <= LN_ITERS,
            0 <= term <= 334_000_000i128,
            0 <= sum,
            sum + term <= 668_000_000i128,
            0 <= zz,
            8 * zz <= SCALE,
            tln(zz as int, j as int, term as int, sum as int) == tln(
                zz as int,
                0,
                z as int,
                z as int,
            ),
        decreases LN_ITERS - j,
    {
        proof {
            assert(term * zz <= 334_000_000i128 * 125_000_000i128) by (nonlinear_arith)
                requires
                    0 <= term <= 334_000_000i128,
                    0 <= zz,
                    8 * zz <= SCALE,
            ;
        }
        let t2: i128 = div_nn(term * zz, SCALE);
        proof {
            let p = term as int * zz as int;
            lemma_fundamental_div_mod(p, SCALE as int);
            vstd::arithmetic::div_mod::lemma_mod_bound(p, SCALE as int);
            assert(8 * (p / (SCALE as int)) <= term) by (nonlinear_arith)
                requires
                    0 <= term,
                    0 <= zz,
                    8 * zz <= SCALE,
                    p == term * zz,
                    (SCALE as int) * (p / (SCALE as int)) + p % (SCALE as int) == p,
                    0 <= p % (SCALE as int) < SCALE,
            ;
            lemma_div_pos_is_pos(p, SCALE as int);
        }
        let odd: i128 = 2 * j + 3;
        let inc: i128 = div_nn(t2, odd);
        proof {
            lemma_div_pos_is_pos(t2 as int, odd as int);
            vstd::arithmetic::div_mod::lemma_div_nonincreasing(t2 as int, odd as int);
        }
        sum = sum + inc;
        term = t2;
        j = j + 1;
    }
    let r: i128 = 2 * sum + k * LN2F;
    proof {
        assert(-31 * (LN2F as int) <= k * (LN2F as int) <= 20 * (LN2F as int))
            by (nonlinear_arith)
            requires
                -31 <= k <= 20,
        ;
    }
    r
}

} // verus!
