use oom_trainer::number::Number;
use oom_trainer::scoring::{evaluate, format_oom_difference, oom_distance, ScoreResult};

fn n(num: u64, exp: i64) -> Number {
    Number { neg: false, num, den: 1, exp }
}

fn neg(num: u64, exp: i64) -> Number {
    Number { neg: true, num, den: 1, exp }
}

#[test]
fn test_oom_distance() {
    assert_eq!(oom_distance(&n(1, 6), &n(1, 6)), Some(0));
    assert_eq!(oom_distance(&n(1, 6), &n(1, 7)), Some(10));
    assert_eq!(oom_distance(&n(1, 6), &n(1, 8)), Some(20));
    assert_eq!(oom_distance(&n(5, 6), &n(1, 6)), Some(7));
}

#[test]
fn test_evaluate() {
    assert_eq!(evaluate(&n(1, 6), &n(1, 6)), ScoreResult::Exact);
    assert_eq!(evaluate(&n(2, 6), &n(1, 6)), ScoreResult::Close);
    assert_eq!(evaluate(&n(5, 6), &n(1, 6)), ScoreResult::Partial);
    assert_eq!(evaluate(&n(1, 8), &n(1, 6)), ScoreResult::Wrong);
}

#[test]
fn test_evaluate_boundaries() {
    // 1.258^10 < 10: still within a tenth of an order of magnitude
    assert_eq!(evaluate(&n(1258, 3), &n(1, 6)), ScoreResult::Exact);
    // 1.26^10 > 10: just outside
    assert_eq!(evaluate(&n(126, 4), &n(1, 6)), ScoreResult::Close);
    // 3.162^2 < 10: the half-order boundary is inclusive
    assert_eq!(evaluate(&n(3162, 3), &n(1, 6)), ScoreResult::Close);
    // 3.163^2 > 10
    assert_eq!(evaluate(&n(3163, 3), &n(1, 6)), ScoreResult::Partial);
    // a ratio of exactly ten is still Partial
    assert_eq!(evaluate(&n(1, 7), &n(1, 6)), ScoreResult::Partial);
}

#[test]
fn test_sentinel_values() {
    let zero = Number { neg: false, num: 0, den: 1, exp: 0 };
    assert_eq!(oom_distance(&zero, &n(1, 6)), None);
    assert_eq!(oom_distance(&n(1, 6), &zero), None);
    assert_eq!(oom_distance(&neg(5, 6), &n(1, 6)), None);
    assert_eq!(evaluate(&neg(5, 6), &n(1, 6)), ScoreResult::Wrong);
    assert_eq!(evaluate(&zero, &n(1, 6)), ScoreResult::Wrong);
}

#[test]
fn test_distance_symmetric() {
    assert_eq!(oom_distance(&n(1, 6), &n(1, 7)), oom_distance(&n(1, 7), &n(1, 6)));
    assert_eq!(oom_distance(&n(37, 4), &n(82, 8)), oom_distance(&n(82, 8), &n(37, 4)));
}

#[test]
fn test_points_and_labels() {
    assert_eq!(ScoreResult::Exact.points(), 100);
    assert_eq!(ScoreResult::Close.points(), 75);
    assert_eq!(ScoreResult::Partial.points(), 25);
    assert_eq!(ScoreResult::Wrong.points(), 0);
    assert_eq!(ScoreResult::Exact.label(), "Exact!");
    assert_eq!(ScoreResult::Close.label(), "Close!");
    assert_eq!(ScoreResult::Partial.label(), "Partial");
    assert_eq!(ScoreResult::Wrong.label(), "Off");
}

#[test]
fn test_format_oom_difference() {
    assert_eq!(format_oom_difference(&n(1, 6), &n(1, 6)), "Spot on!");
    assert_eq!(format_oom_difference(&n(1, 7), &n(1, 6)), "1.0 OOM high");
    assert_eq!(format_oom_difference(&n(1, 6), &n(1, 7)), "1.0 OOM low");
    assert_eq!(format_oom_difference(&n(5, 6), &n(1, 6)), "0.7 OOM high");
    assert_eq!(format_oom_difference(&neg(5, 6), &n(1, 6)), "inf OOM low");
}
