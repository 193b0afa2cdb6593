//! Nearest-neighbor selection over a list of fixed-point values: used to
//! pick the quoted contract whose strike is closest to a requested one,
//! and the rate series whose maturity is closest to an expiry.

use vstd::prelude::*;

verus! {

/// Distance between two values on the number line.
pub open spec fn dist(a: int, b: int) -> int {
    if a >= b {
        a - b
    } else {
        b - a
    }
}

/// Largest magnitude accepted by `nearest_index`, so that distances fit.
pub const SELECT_ABS_MAX: i128 = 1_000_000_000_000_000_000_000_000_000_000i128;

/// Index of the value closest to `target`: no other value is closer, and
/// among equally close values the first wins.
pub fn nearest_index(values: &Vec<i128>, target: i128) -> (idx: usize)
    requires
        values@.len() >= 1,
        -SELECT_ABS_MAX <= target <= SELECT_ABS_MAX,
        forall|j: int|
            0 <= j < values@.len() ==> -SELECT_ABS_MAX <= #[trigger] values@[j]
                <= SELECT_ABS_MAX,
    ensures
        idx < values@.len(),
        forall|j: int|
            0 <= j < values@.len() ==> dist(values@[idx as int] as int, target as int)
                <= dist(#[trigger] values@[j] as int, target as int),
        forall|j: int|
            0 <= j < idx ==> dist(values@[idx as int] as int, target as int) < dist(
                #[trigger] values@[j] as int,
                target as int,
            ),
{
    let first: i128 = values[0];
    let mut best: usize = 0;
    let mut best_diff: i128 = if first >= target {
        first - target
    } else {
        target - first
    };
    let mut i: usize = 1;
    while i < values.len()
        invariant
            1 <= i <= values@.len(),
            best < i,
            -SELECT_ABS_MAX <= target <= SELECT_ABS_MAX,
            forall|j: int|
                0 <= j < values@.len() ==> -SELECT_ABS_MAX <= #[trigger] values@[j]
                    <= SELECT_ABS_MAX,
            best_diff == dist(values@[best as int] as int, target as int),
            forall|j: int|
                0 <= j < i ==> best_diff <= dist(#[trigger] values@[j] as int, target as int),
            forall|j: int|
                0 <= j < best ==> best_diff < dist(#[trigger] values@[j] as int, target as int),
        decreases values@.len() - i,
    {
        let v: i128 = values[i];
        let diff: i128 = if v >= target {
            v - target
        } else {
            target - v
        };
        if diff < best_diff {
            best_diff = diff;
            best = i;
        }
        i = i + 1;
    }
    best
}

} // verus!
