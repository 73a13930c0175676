use oom_trainer::number::Number;
use oom_trainer::parser::parse_answer;

fn n(num: u64, exp: i64) -> Number {
    Number { neg: false, num, den: 1, exp }
}

#[test]
fn test_scientific() {
    assert_eq!(parse_answer("4e11"), Some(n(4, 11)));
    assert_eq!(parse_answer("4E11"), Some(n(4, 11)));
    assert_eq!(parse_answer("3.5e6"), Some(n(35, 5)));
}

#[test]
fn test_word_suffix() {
    assert_eq!(parse_answer("400 billion"), Some(n(4, 11)));
    assert_eq!(parse_answer("3.5 million"), Some(n(35, 5)));
    assert_eq!(parse_answer("50 thousand"), Some(n(5, 4)));
}

#[test]
fn test_letter_suffix() {
    assert_eq!(parse_answer("400B"), Some(n(4, 11)));
    assert_eq!(parse_answer("3.5M"), Some(n(35, 5)));
    assert_eq!(parse_answer("50K"), Some(n(5, 4)));
}

#[test]
fn test_caret_notation() {
    assert_eq!(parse_answer("4 \u{d7} 10^11"), Some(n(4, 11)));
    assert_eq!(parse_answer("4 * 10^11"), Some(n(4, 11)));
    assert_eq!(parse_answer("4x10^11"), Some(n(4, 11)));
}

#[test]
fn test_plain_number() {
    assert_eq!(parse_answer("400000000000"), Some(n(4, 11)));
    assert_eq!(parse_answer("400,000,000,000"), Some(n(4, 11)));
}

#[test]
fn test_unparseable() {
    assert_eq!(parse_answer(""), None);
    assert_eq!(parse_answer("banana"), None);
    assert_eq!(parse_answer("   "), None);
    assert_eq!(parse_answer("k"), None);
    assert_eq!(parse_answer("4x10^x10^5"), None);
}

#[test]
fn test_negative_and_zero_pass_through() {
    assert_eq!(
        parse_answer("-5e3"),
        Some(Number { neg: true, num: 5, den: 1, exp: 3 })
    );
    assert_eq!(parse_answer("0"), Some(Number { neg: false, num: 0, den: 1, exp: 0 }));
}

#[test]
fn test_trigger_without_parse_falls_through() {
    // contains 'e' but is no scientific literal, then matches the word rule
    assert_eq!(parse_answer("three billion"), None);
    assert_eq!(parse_answer("4e2 billion"), Some(n(4, 11)));
    // letter trigger whose prefix fails falls through to no match
    assert_eq!(parse_answer("oak"), None);
}

#[test]
fn test_whitespace_and_case() {
    assert_eq!(parse_answer("  400 Billion  "), Some(n(4, 11)));
    assert_eq!(parse_answer("4 X 10^11"), Some(n(4, 11)));
}

#[test]
fn test_decimal_forms() {
    assert_eq!(parse_answer("4."), Some(n(4, 0)));
    assert_eq!(parse_answer(".5"), Some(Number { neg: false, num: 5, den: 1, exp: -1 }));
    assert_eq!(parse_answer("1.25"), Some(Number { neg: false, num: 125, den: 1, exp: -2 }));
}
