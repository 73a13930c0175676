use oom_trainer::challenge::{generate_challenges, get_daily_seed, CalendarDate, Challenge};
use oom_trainer::number::Number;

fn op(num: u64, exp: i64) -> Number {
    Number { neg: false, num, den: 1, exp }
}

#[test]
fn test_daily_seed_stable() {
    let d = CalendarDate { year: 2024, month: 1, day: 15 };
    assert_eq!(get_daily_seed(d), get_daily_seed(d));
    assert_eq!(get_daily_seed(d), 3992016082680960896);
    // different dates give different seeds
    let d2 = CalendarDate { year: 2024, month: 1, day: 16 };
    assert_ne!(get_daily_seed(d), get_daily_seed(d2));
    // the month and day are zero-padded
    let d3 = CalendarDate { year: 2024, month: 11, day: 5 };
    let d4 = CalendarDate { year: 2024, month: 1, day: 15 };
    assert_ne!(get_daily_seed(d3), get_daily_seed(d4));
}

#[test]
fn test_generation_deterministic() {
    let a = generate_challenges(12345, 5);
    let b = generate_challenges(12345, 5);
    assert_eq!(a, b);
    assert_eq!(a.len(), 5);
    assert_eq!(generate_challenges(7, 0).len(), 0);
}

#[test]
fn test_generated_ranges() {
    let ch = generate_challenges(987654321, 40);
    for c in &ch {
        for op in [&c.num1, &c.num2] {
            assert!(!op.neg);
            assert!(op.num >= 11 && op.num <= 99);
            assert_eq!(op.den, 1);
            assert!(op.exp >= 2 && op.exp <= 8);
        }
    }
}

#[test]
fn test_answer_exact() {
    let mul = Challenge {
        num1: Number { neg: false, num: 13, den: 1, exp: 3 },
        num2: Number { neg: false, num: 20, den: 1, exp: 5 },
        is_division: false,
    };
    assert_eq!(mul.answer(), Number { neg: false, num: 260, den: 1, exp: 8 });
    let div = Challenge {
        num1: Number { neg: false, num: 13, den: 1, exp: 3 },
        num2: Number { neg: false, num: 20, den: 1, exp: 5 },
        is_division: true,
    };
    assert_eq!(div.answer(), Number { neg: false, num: 13, den: 20, exp: -2 });
}

#[test]
fn test_daily_golden() {
    // the fixed challenge set of 2024-01-15 with five problems per day
    let seed = get_daily_seed(CalendarDate { year: 2024, month: 1, day: 15 });
    let ch = generate_challenges(seed, 5);
    let expected = vec![
        Challenge { num1: op(76, 2), num2: op(72, 7), is_division: false },
        Challenge { num1: op(67, 8), num2: op(55, 8), is_division: false },
        Challenge { num1: op(72, 6), num2: op(65, 4), is_division: true },
        Challenge { num1: op(44, 6), num2: op(78, 3), is_division: false },
        Challenge { num1: op(22, 4), num2: op(53, 3), is_division: true },
    ];
    assert_eq!(ch, expected);
}
