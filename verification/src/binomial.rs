//! Cox-Ross-Rubinstein binomial lattice pricing of American and European
//! options, in fixed point.
//!
//! The lattice is specified by an exact recurrence, `node_value_s`: the
//! terminal layer holds intrinsic values, and each earlier node discounts
//! the risk-neutral expectation of its two successors, taking the early
//! exercise value into account for American style.  Node values are capped
//! at `VALUE_CAP` (ten billion billion currency units), far beyond any
//! price the accepted inputs can produce, so that every intermediate
//! product provably fits the machine word.

use vstd::prelude::*;
use crate::PricingError;
use crate::fixed::SCALE;
use crate::fixed::fxmul;
use crate::fixed::fxmuls;
use crate::fixed::sqrt_floor;
use crate::fixed::exp_fx_s;
use crate::fixed::exp_fx;
use crate::fixed::mul_fx;
use crate::fixed::smul_fx;
use crate::fixed::sqrt_fx;
use crate::fixed::div_nn;
use crate::fixed::lemma_exp_fx_s_pos;
use crate::black_scholes::PRICE_MAX;
use crate::black_scholes::TIME_MAX;
use crate::black_scholes::RATE_ABS_MAX;
use crate::black_scholes::VOL_MAX;
use crate::black_scholes::RATE_TIME_MAX;

verus! {

/// Hard cap on lattice node values, far beyond any reachable price.
pub const VALUE_CAP: i128 = 100_000_000_000_000_000_000_000_000i128;

/// Largest accepted step count.
pub const STEPS_MAX: u32 = 100_000;

/// The derived quantities that drive one lattice run.
pub ghost struct LatticeModel {
    /// Spot price.
    pub s: int,
    /// Strike price.
    pub k: int,
    /// One-step log-move `sigma * sqrt(dt)`.
    pub sd: int,
    /// Risk-neutral up-probability.
    pub p: int,
    /// One-step discount factor `e^(-r dt)`.
    pub disc: int,
    /// Step count.
    pub n: int,
    /// Call or put.
    pub call: bool,
    /// American or European exercise.
    pub amer: bool,
}

/// Intrinsic value of the option at an underlying price.
pub open spec fn payoff_s(call: bool, price: int, k: int) -> int {
    if call {
        if price - k > 0 {
            price - k
        } else {
            0
        }
    } else {
        if k - price > 0 {
            k - price
        } else {
            0
        }
    }
}

/// Underlying price at node `i` of layer `step`:
/// `s * e^(sd * (2 i - step))`, since an up and a down move cancel.
pub open spec fn node_price_s(m: LatticeModel, step: int, i: int) -> int {
    fxmul(m.s, exp_fx_s(m.sd * (2 * i - step)))
}

/// Option value at node `i` of layer `step`: intrinsic value at the last
/// layer, and otherwise the capped discounted expectation of the two
/// successors, raised to the intrinsic value for American exercise.
pub open spec fn node_value_s(m: LatticeModel, step: int, i: int) -> int
    decreases m.n - step,
{
    if step >= m.n {
        payoff_s(m.call, node_price_s(m, m.n, i), m.k)
    } else {
        let up = node_value_s(m, step + 1, i + 1);
        let dn = node_value_s(m, step + 1, i);
        let conv = (m.p * up + (SCALE as int - m.p) * dn) / (SCALE as int);
        let e = fxmul(m.disc, conv);
        let e2 = if e > VALUE_CAP as int {
            VALUE_CAP as int
        } else {
            e
        };
        if m.amer {
            let ex = payoff_s(m.call, node_price_s(m, step, i), m.k);
            if ex > e2 {
                ex
            } else {
                e2
            }
        } else {
            e2
        }
    }
}

/// The lattice time step `t / n`, rounded down.
pub open spec fn lat_dt(t: int, n: int) -> int {
    t / n
}

/// The one-step log-move `sigma * sqrt(dt)` in fixed point.
pub open spec fn lat_sd(t: int, sig: int, n: int) -> int {
    sqrt_floor(fxmul(fxmul(sig, sig), lat_dt(t, n)) * (SCALE as int))
}

/// The one-step rate exponent `r * dt` in fixed point.
pub open spec fn lat_rdt(t: int, r: int, n: int) -> int {
    fxmuls(r, lat_dt(t, n))
}

/// The risk-neutral up-probability
/// `(e^(r dt) - d) / (u - d)`, rounded toward zero.
pub open spec fn lat_p(t: int, r: int, sig: int, n: int) -> int {
    let u = exp_fx_s(lat_sd(t, sig, n));
    let d = exp_fx_s(-lat_sd(t, sig, n));
    let a = exp_fx_s(lat_rdt(t, r, n));
    if a >= d {
        ((a - d) * (SCALE as int)) / (u - d)
    } else {
        -(((d - a) * (SCALE as int)) / (u - d))
    }
}

/// The model driving a lattice run, assembled from the raw inputs.
pub open spec fn lat_model(s: int, k: int, t: int, r: int, sig: int, n: int, call: bool,
    amer: bool) -> LatticeModel {
    LatticeModel {
        s: s,
        k: k,
        sd: lat_sd(t, sig, n),
        p: lat_p(t, r, sig, n),
        disc: exp_fx_s(-lat_rdt(t, r, n)),
        n: n,
        call: call,
        amer: amer,
    }
}

/// Price an option on a recombining binomial lattice.
///
/// Exactly one of three outcomes, decided by the derived one-step move
/// `sd` and up-probability `p`:
/// - `sd == 0` (the volatility-time combination is below fixed-point
///   resolution, a degenerate lattice): `InvalidDomain`;
/// - `p` outside `[0, 1]`: `RejectedParameters` carrying that `p`;
/// - otherwise the exact root value of the backward induction.
#[verifier::loop_isolation(false)]
#[verifier::rlimit(100)]
pub fn binomial(spot: i128, strike: i128, time: i128, rate: i128, volatility: i128,
    steps: u32, call: bool, american: bool) -> (res: Result<i128, PricingError>)
    requires
        1 <= spot <= PRICE_MAX,
        1 <= strike <= PRICE_MAX,
        0 <= time <= TIME_MAX,
        -RATE_ABS_MAX <= rate <= RATE_ABS_MAX,
        -RATE_TIME_MAX <= rate * time <= RATE_TIME_MAX,
        0 <= volatility <= VOL_MAX,
        1 <= steps <= STEPS_MAX,
        volatility * volatility * time * (steps as int) <= 400 * (SCALE as int) * (
        SCALE as int) * (SCALE as int),
    ensures
        ({
            let sd = lat_sd(time as int, volatility as int, steps as int);
            let p = lat_p(time as int, rate as int, volatility as int, steps as int);
            &&& (sd == 0 ==> res == Err::<i128, PricingError>(PricingError::InvalidDomain))
            &&& (sd >= 1 && !(0 <= p <= SCALE as int) ==> (res matches Err(e) && e == (
            PricingError::RejectedParameters { prob: p as i128 })))
            &&& (sd >= 1 && 0 <= p <= SCALE as int ==> (res matches Ok(v) && v as int
                == node_value_s(
                lat_model(
                    spot as int,
                    strike as int,
                    time as int,
                    rate as int,
                    volatility as int,
                    steps as int,
                    call,
                    american,
                ),
                0,
                0,
            )))
        }),
{
    let n: i128 = steps as i128;
    let dt: i128 = div_nn(time, n);
    proof {
        vstd::arithmetic::div_mod::lemma_div_pos_is_pos(time as int, n as int);
        vstd::arithmetic::div_mod::lemma_div_nonincreasing(time as int, n as int);
        assert(volatility * volatility <= (5 * SCALE as int) * (5 * SCALE as int))
            by (nonlinear_arith)
            requires
                0 <= volatility <= 5 * SCALE,
        ;
    }
    let sig2: i128 = mul_fx(volatility, volatility);
    proof {
        assert(sig2 <= 25 * SCALE);
        assert(sig2 * dt <= (25 * SCALE as int) * (100 * SCALE as int))
            by (nonlinear_arith)
            requires
                0 <= sig2 <= 25 * SCALE,
                0 <= dt <= 100 * SCALE,
        ;
    }
    let var: i128 = mul_fx(sig2, dt);
    proof {
        assert(var <= 2_500_000_000_000i128) by (nonlinear_arith)
            requires
                0 <= var,
                var * (SCALE as int) <= (25 * SCALE as int) * (100 * SCALE as int),
        ;
    }
    let sd: i128 = sqrt_fx(var);
    if sd == 0 {
        return Err(PricingError::InvalidDomain);
    }
    proof {
        // The chain sd^2 <= var * SCALE <= sig^2 * dt <= sig^2 t / n,
        // with the budget sig^2 t n <= 400, bounds sd * n by 20 units.
        vstd::arithmetic::div_mod::lemma_fundamental_div_mod(time as int, n as int);
        vstd::arithmetic::div_mod::lemma_mod_bound(time as int, n as int);
        assert(dt * n <= time);
        let nn = n as int;
        assert(sd * sd * nn * nn <= var * (SCALE as int) * nn * nn) by (nonlinear_arith)
            requires
                sd * sd <= var * (SCALE as int),
                0 <= nn,
        ;
        assert(var * (SCALE as int) * nn * nn <= sig2 as int * dt as int * nn * nn)
            by (nonlinear_arith)
            requires
                var * (SCALE as int) <= sig2 * dt,
                0 <= nn,
        ;
        assert(sig2 as int * dt as int * nn * nn <= sig2 as int * time as int * nn)
            by (nonlinear_arith)
            requires
                dt * nn <= time,
                0 <= sig2,
                0 <= nn,
                0 <= dt,
        ;
        assert(sig2 as int * time as int * nn * (SCALE as int) <= volatility as int
            * volatility as int * time as int * nn) by (nonlinear_arith)
            requires
                sig2 * (SCALE as int) <= volatility * volatility,
                0 <= time,
                0 <= nn,
        ;
        assert(sig2 as int * time as int * nn <= 400 * (SCALE as int) * (SCALE as int))
            by (nonlinear_arith)
            requires
                sig2 as int * time as int * nn * (SCALE as int) <= volatility as int
                    * volatility as int * time as int * nn,
                volatility as int * volatility as int * time as int * nn <= 400 * (
                SCALE as int) * (SCALE as int) * (SCALE as int),
        ;
        assert(sd * nn <= 20 * SCALE) by (nonlinear_arith)
            requires
                sd * sd * nn * nn <= 400 * (SCALE as int) * (SCALE as int),
                0 <= sd,
                1 <= nn,
        ;
        assert(sd <= sd * nn) by (nonlinear_arith)
            requires
                0 <= sd,
                1 <= nn,
        ;
        assert(sd as int * (n as int) <= 20 * SCALE);
        assert(sd as int <= 20 * SCALE);
    }
    let uf: i128 = exp_fx(sd);
    let df: i128 = exp_fx(-sd);
    proof {
        assert(uf - df >= 2);
    }
    proof {
        assert(rate * dt <= 5 * (SCALE as int) * (SCALE as int) && -(5 * (SCALE as int)
            * (SCALE as int)) <= rate * dt) by (nonlinear_arith)
            requires
                rate * time <= RATE_TIME_MAX,
                -(RATE_TIME_MAX as int) <= rate * time,
                0 <= dt <= time,
                -RATE_ABS_MAX <= rate <= RATE_ABS_MAX,
                0 <= time,
        ;
    }
    let rdt: i128 = smul_fx(rate, dt);
    proof {
        assert(-5 * SCALE <= rdt <= 5 * SCALE) by (nonlinear_arith)
            requires
                rate as int >= 0 ==> rdt * (SCALE as int) <= rate as int * dt as int,
                rate as int <= 0 ==> rate as int * dt as int <= rdt * (SCALE as int),
                rate as int >= 0 ==> rdt >= 0,
                rate as int <= 0 ==> rdt <= 0,
                rate * dt <= 5 * (SCALE as int) * (SCALE as int),
                -(5 * (SCALE as int) * (SCALE as int)) <= rate * dt,
        ;
    }
    let af: i128 = exp_fx(rdt);
    let disc: i128 = exp_fx(-rdt);
    let ghost m = lat_model(
        spot as int,
        strike as int,
        time as int,
        rate as int,
        volatility as int,
        steps as int,
        call,
        american,
    );
    proof {
        assert(m.sd == sd);
        assert(m.disc == disc);
    }
    // Risk-neutral up-probability, rejected outside [0, 1].
    let p: i128;
    if af >= df {
        let pr: i128 = div_nn((af - df) * SCALE, uf - df);
        proof {
            vstd::arithmetic::div_mod::lemma_div_pos_is_pos(
                (af as int - df as int) * (SCALE as int),
                uf as int - df as int,
            );
        }
        if pr > SCALE {
            proof {
                assert(m.p == pr);
            }
            return Err(PricingError::RejectedParameters { prob: pr });
        }
        p = pr;
    } else {
        let q: i128 = div_nn((df - af) * SCALE, uf - df);
        proof {
            vstd::arithmetic::div_mod::lemma_div_pos_is_pos(
                (df as int - af as int) * (SCALE as int),
                uf as int - df as int,
            );
        }
        if q > 0 {
            proof {
                assert(m.p == -(q as int));
            }
            return Err(PricingError::RejectedParameters { prob: -q });
        }
        p = 0;
    }
    proof {
        assert(m.p == p);
    }
    // Terminal layer: intrinsic values at maturity.
    let mut vals: Vec<i128> = Vec::new();
    let mut i: i128 = 0;
    while i <= n
        invariant
            0 <= i <= n + 1,
            vals@.len() == i,
            forall|j: int|
                0 <= j < i ==> #[trigger] vals@[j] == node_value_s(m, m.n, j) && 0 <= vals@[j]
                    <= VALUE_CAP,
        decreases n + 1 - i,
    {
        let shift1: i128 = 2 * i - n;
        proof {
            assert(-(20 * SCALE as int) <= sd * shift1 && sd * shift1 <= 20
                * SCALE as int) by (nonlinear_arith)
                requires
                    0 <= sd,
                    -(n as int) <= shift1 <= n as int,
                    (sd as int) * (n as int) <= 20 * SCALE as int,
            ;
        }
        let expo: i128 = sd * shift1;
        let ef: i128 = exp_fx(expo);
        proof {
            assert(spot * ef <= PRICE_MAX * 4_300_000_000_000_000_000i128)
                by (nonlinear_arith)
                requires
                    0 <= spot <= PRICE_MAX,
                    0 <= ef <= 4_300_000_000_000_000_000i128,
            ;
        }
        let node: i128 = mul_fx(spot, ef);
        proof {
            assert(node <= VALUE_CAP - PRICE_MAX) by (nonlinear_arith)
                requires
                    node * (SCALE as int) <= spot * ef,
                    spot * ef <= PRICE_MAX * 4_300_000_000_000_000_000i128,
                    0 <= node,
            ;
        }
        let pay: i128 = if call {
            if node > strike {
                node - strike
            } else {
                0
            }
        } else {
            if strike > node {
                strike - node
            } else {
                0
            }
        };
        vals.push(pay);
        i = i + 1;
    }
    // Backward induction, overwriting the buffer layer by layer.
    let mut step: i128 = n;
    while step > 0
        invariant
            0 <= step <= n,
            vals@.len() == n + 1,
            forall|j: int| 0 <= j <= step ==> vals@[j] == node_value_s(m, step as int, j),
            forall|j: int| 0 <= j < vals@.len() ==> 0 <= #[trigger] vals@[j] <= VALUE_CAP,
        decreases step,
    {
        let prev: i128 = step - 1;
        let mut i2: i128 = 0;
        while i2 <= prev
            invariant
                0 <= i2 <= prev + 1,
                vals@.len() == n + 1,
                forall|j: int| 0 <= j < i2 ==> vals@[j] == node_value_s(m, prev as int, j),
                forall|j: int|
                    i2 <= j <= step ==> vals@[j] == node_value_s(m, step as int, j),
                forall|j: int| 0 <= j < vals@.len() ==> 0 <= #[trigger] vals@[j] <= VALUE_CAP,
            decreases prev + 1 - i2,
        {
            let vup: i128 = vals[(i2 + 1) as usize];
            let vdn: i128 = vals[i2 as usize];
            proof {
                assert(0 <= p * vup + (SCALE as int - p) * vdn <= (SCALE as int) * (
                VALUE_CAP as int) + (SCALE as int) * (VALUE_CAP as int))
                    by (nonlinear_arith)
                    requires
                        0 <= p <= SCALE,
                        0 <= vup <= VALUE_CAP,
                        0 <= vdn <= VALUE_CAP,
                ;
            }
            let numv: i128 = p * vup + (SCALE - p) * vdn;
            let conv: i128 = div_nn(numv, SCALE);
            proof {
                vstd::arithmetic::div_mod::lemma_div_pos_is_pos(numv as int, SCALE as int);
                assert(numv <= (SCALE as int) * (VALUE_CAP as int)) by (nonlinear_arith)
                    requires
                        0 <= p <= SCALE,
                        0 <= vup <= VALUE_CAP,
                        0 <= vdn <= VALUE_CAP,
                        numv == p * vup + (SCALE as int - p) * vdn,
                ;
                assert(conv <= VALUE_CAP) by (nonlinear_arith)
                    requires
                        conv == numv as int / (SCALE as int),
                        numv <= (SCALE as int) * (VALUE_CAP as int),
                        conv * (SCALE as int) <= numv,
                        0 <= conv,
                ;
                vstd::arithmetic::div_mod::lemma_fundamental_div_mod(
                    numv as int,
                    SCALE as int,
                );
                vstd::arithmetic::div_mod::lemma_mod_bound(numv as int, SCALE as int);
                assert(disc * conv <= 520_000_000_000i128 * (VALUE_CAP as int))
                    by (nonlinear_arith)
                    requires
                        0 <= disc <= 520_000_000_000i128,
                        0 <= conv <= VALUE_CAP,
                ;
            }
            let eraw: i128 = mul_fx(disc, conv);
            let e2: i128 = if eraw > VALUE_CAP {
                VALUE_CAP
            } else {
                eraw
            };
            let newv: i128;
            if american {
                let shift2: i128 = 2 * i2 - prev;
                proof {
                    assert(-(20 * SCALE as int) <= sd * shift2 && sd * shift2 <= 20
                        * SCALE as int) by (nonlinear_arith)
                        requires
                            0 <= sd,
                            -(n as int) <= shift2 <= n as int,
                            (sd as int) * (n as int) <= 20 * SCALE as int,
                    ;
                }
                let expo2: i128 = sd * shift2;
                let en: i128 = exp_fx(expo2);
                proof {
                    assert(spot * en <= PRICE_MAX * 4_300_000_000_000_000_000i128)
                        by (nonlinear_arith)
                        requires
                            0 <= spot <= PRICE_MAX,
                            0 <= en <= 4_300_000_000_000_000_000i128,
                    ;
                }
                let node2: i128 = mul_fx(spot, en);
                proof {
                    assert(node2 <= VALUE_CAP - PRICE_MAX) by (nonlinear_arith)
                        requires
                            node2 * (SCALE as int) <= spot * en,
                            spot * en <= PRICE_MAX * 4_300_000_000_000_000_000i128,
                            0 <= node2,
                    ;
                }
                let ex: i128 = if call {
                    if node2 > strike {
                        node2 - strike
                    } else {
                        0
                    }
                } else {
                    if strike > node2 {
                        strike - node2
                    } else {
                        0
                    }
                };
                newv = if ex > e2 {
                    ex
                } else {
                    e2
                };
            } else {
                newv = e2;
            }
            vals.set(i2 as usize, newv);
            i2 = i2 + 1;
        }
        step = prev;
    }
    Ok(vals[0])
}

/// At every node, the American value dominates the European value of the
/// same lattice: early exercise can only raise a node.
proof fn lemma_amer_node_ge(ma: LatticeModel, me: LatticeModel, step: int, i: int)
    requires
        ma.amer == true,
        me.amer == false,
        ma.s == me.s,
        ma.k == me.k,
        ma.sd == me.sd,
        ma.p == me.p,
        ma.disc == me.disc,
        ma.n == me.n,
        ma.call == me.call,
        0 <= ma.p <= SCALE as int,
        0 <= ma.disc,
    ensures
        node_value_s(ma, step, i) >= node_value_s(me, step, i),
    decreases ma.n - step,
{
    if step >= ma.n {
    } else {
        lemma_amer_node_ge(ma, me, step + 1, i + 1);
        lemma_amer_node_ge(ma, me, step + 1, i);
        let upa = node_value_s(ma, step + 1, i + 1);
        let dna = node_value_s(ma, step + 1, i);
        let upe = node_value_s(me, step + 1, i + 1);
        let dne = node_value_s(me, step + 1, i);
        assert(ma.p * upa + (SCALE as int - ma.p) * dna >= ma.p * upe + (SCALE as int
            - ma.p) * dne) by (nonlinear_arith)
            requires
                0 <= ma.p <= SCALE as int,
                upa >= upe,
                dna >= dne,
        ;
        let conva = (ma.p * upa + (SCALE as int - ma.p) * dna) / (SCALE as int);
        let conve = (ma.p * upe + (SCALE as int - ma.p) * dne) / (SCALE as int);
        vstd::arithmetic::div_mod::lemma_div_is_ordered(
            ma.p * upe + (SCALE as int - ma.p) * dne,
            ma.p * upa + (SCALE as int - ma.p) * dna,
            SCALE as int,
        );
        assert(ma.disc * conva >= ma.disc * conve) by (nonlinear_arith)
            requires
                0 <= ma.disc,
                conva >= conve,
        ;
        vstd::arithmetic::div_mod::lemma_div_is_ordered(
            ma.disc * conve,
            ma.disc * conva,
            SCALE as int,
        );
    }
}

/// Early-exercise premium: with identical parameters, and a valid
/// up-probability, the American lattice price is at least the European
/// lattice price.
pub proof fn lemma_american_premium(s: int, k: int, t: int, r: int, sig: int, n: int,
    call: bool)
    requires
        0 <= lat_p(t, r, sig, n) <= SCALE as int,
    ensures
        node_value_s(lat_model(s, k, t, r, sig, n, call, true), 0, 0) >= node_value_s(
            lat_model(s, k, t, r, sig, n, call, false),
            0,
            0,
        ),
{
    lemma_exp_fx_s_pos(-lat_rdt(t, r, n));
    lemma_amer_node_ge(
        lat_model(s, k, t, r, sig, n, call, true),
        lat_model(s, k, t, r, sig, n, call, false),
        0,
        0,
    );
}

} // verus!
