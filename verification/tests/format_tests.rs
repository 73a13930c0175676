use oom_trainer::format::{format_answer_display, format_number};
use oom_trainer::number::Number;

fn n(num: u64, exp: i64) -> Number {
    Number { neg: false, num, den: 1, exp }
}

#[test]
fn test_format_number_brackets() {
    assert_eq!(format_number(&n(45, 11)), "4.5 trillion");
    assert_eq!(format_number(&n(4, 11)), "400.0 billion");
    assert_eq!(format_number(&n(35, 5)), "3.5 million");
    assert_eq!(format_number(&n(1234, 0)), "1.2 thousand");
    assert_eq!(format_number(&n(999, 0)), "999.0");
    assert_eq!(format_number(&n(0, 0)), "0.0");
    assert_eq!(
        format_number(&Number { neg: true, num: 5, den: 1, exp: 3 }),
        "-5.0 thousand"
    );
}

#[test]
fn test_format_number_wide() {
    // a value far beyond the largest bracket keeps all its digits
    assert_eq!(format_number(&n(1, 31)), "10000000000000000000.0 trillion");
    assert_eq!(format_number(&n(123, 18)), "123000000.0 trillion");
}

#[test]
fn test_format_number_rational() {
    // 13/20 * 10^1 = 6.5 rounds half up at one decimal
    assert_eq!(format_number(&Number { neg: false, num: 13, den: 20, exp: 1 }), "6.5");
    assert_eq!(format_number(&Number { neg: false, num: 13, den: 20, exp: 0 }), "0.7");
    // 11/99 * 10^4 = 1111.11...
    assert_eq!(format_number(&Number { neg: false, num: 11, den: 99, exp: 4 }), "1.1 thousand");
}

#[test]
fn test_format_answer_display() {
    assert_eq!(format_answer_display(&n(4, 11)), "400B");
    assert_eq!(format_answer_display(&n(35, 5)), "3.50M");
    assert_eq!(format_answer_display(&n(15, 2)), "1.50K");
    assert_eq!(format_answer_display(&n(45, 3)), "45.0K");
    assert_eq!(format_answer_display(&n(25, 0)), "25");
    assert_eq!(format_answer_display(&n(5, -1)), "0");
    assert_eq!(format_answer_display(&Number { neg: true, num: 5, den: 1, exp: 3 }), "0");
    assert_eq!(format_answer_display(&n(1, 15)), "1000T");
}

#[test]
fn test_display_round_trip() {
    // the compact rendering parses back to the value it displays
    let v = n(4, 11);
    assert_eq!(
        oom_trainer::parser::parse_answer(&format_answer_display(&v)),
        Some(v)
    );
    let w = n(35, 5);
    assert_eq!(
        oom_trainer::parser::parse_answer(&format_answer_display(&w)),
        Some(w)
    );
}
