//! Tests of the nearest-neighbor selector used to pick the closest quoted
//! strike and the closest-maturity rate series.

use rustquant::fixed::SCALE;
use rustquant::select::nearest_index;

fn fx(x: f64) -> i128 {
    (x * SCALE as f64).round() as i128
}

#[test]
fn picks_closest_strike() {
    let strikes: Vec<i128> = vec![fx(90.0), fx(95.0), fx(100.0), fx(105.0), fx(110.0)];
    assert_eq!(nearest_index(&strikes, fx(101.2)), 2);
    assert_eq!(nearest_index(&strikes, fx(89.0)), 0);
    assert_eq!(nearest_index(&strikes, fx(200.0)), 4);
    assert_eq!(nearest_index(&strikes, fx(104.0)), 3);
}

#[test]
fn picks_closest_treasury_maturity() {
    // The maturities of the government-bond-rate series, in years.
    let maturities: Vec<i128> = vec![
        fx(0.125),
        fx(0.25),
        fx(0.5),
        fx(1.0),
        fx(2.0),
        fx(3.0),
        fx(5.0),
        fx(7.0),
        fx(10.0),
        fx(20.0),
        fx(30.0),
    ];
    // 45 days to expiry is nearest the one-month series.
    assert_eq!(nearest_index(&maturities, fx(45.0 / 365.0)), 0);
    // Eight months is nearest the six-month series.
    assert_eq!(nearest_index(&maturities, fx(8.0 / 12.0)), 2);
    // A year and a half is midway; the earlier series wins the tie.
    assert_eq!(nearest_index(&maturities, fx(1.5)), 3);
    // Forty years is nearest the longest series.
    assert_eq!(nearest_index(&maturities, fx(40.0)), 10);
}

#[test]
fn first_of_equal_values_wins() {
    let values: Vec<i128> = vec![fx(5.0), fx(5.0), fx(3.0), fx(3.0)];
    assert_eq!(nearest_index(&values, fx(5.0)), 0);
    assert_eq!(nearest_index(&values, fx(3.0)), 2);
    assert_eq!(nearest_index(&values, fx(4.0)), 0);
}

#[test]
fn single_candidate_is_chosen() {
    let values: Vec<i128> = vec![fx(2.5)];
    assert_eq!(nearest_index(&values, fx(1000.0)), 0);
}
