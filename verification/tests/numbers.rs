use gallifreyan::tree::{Digit, Number, ParseError};

fn numeral(s: &str) -> Vec<char> {
    s.chars().collect()
}

fn digit(has_circle: bool, num_lines: u8, follows_dot: bool) -> Digit {
    Digit { has_circle, num_lines, follows_dot }
}

#[test]
fn digit_zero() {
    assert_eq!(Digit::try_from(&'0', false), Ok(digit(false, 0, false)));
}

#[test]
fn digit_four() {
    assert_eq!(Digit::try_from(&'4', false), Ok(digit(false, 4, false)));
}

#[test]
fn digit_five() {
    assert_eq!(Digit::try_from(&'5', false), Ok(digit(true, 0, false)));
}

#[test]
fn digit_nine() {
    assert_eq!(Digit::try_from(&'9', false), Ok(digit(true, 4, false)));
}

#[test]
fn every_digit_is_circle_and_lines() {
    for (value, c) in "0123456789".chars().enumerate() {
        for follows_dot in [false, true] {
            let d = Digit::try_from(&c, follows_dot).unwrap();
            assert_eq!(d.has_circle, value >= 5);
            assert_eq!(d.num_lines as usize, value % 5);
            assert_eq!(d.follows_dot, follows_dot);
            assert_eq!(d.num_lines as usize + if d.has_circle { 5 } else { 0 }, value);
        }
    }
}

#[test]
fn other_characters_are_no_digits() {
    for c in ['a', '.', '-', ' ', '/', ':', '٣'] {
        assert_eq!(Digit::try_from(&c, false), Err(ParseError::InvalidCharacter(c)));
    }
}

#[test]
fn fraction_is_read() {
    assert_eq!(
        Number::try_from(numeral("12.5")),
        Ok(Number {
            is_positive: true,
            is_whole: false,
            digits: vec![digit(false, 1, false), digit(false, 2, false), digit(true, 0, true)],
        })
    );
}

#[test]
fn negative_number_is_read() {
    assert_eq!(
        Number::try_from(numeral("-3")),
        Ok(Number { is_positive: false, is_whole: true, digits: vec![digit(false, 3, false)] })
    );
}

#[test]
fn whole_number_keeps_its_first_digit() {
    assert_eq!(
        Number::try_from(numeral("907")),
        Ok(Number {
            is_positive: true,
            is_whole: true,
            digits: vec![digit(true, 4, false), digit(false, 0, false), digit(true, 2, false)],
        })
    );
}

#[test]
fn negative_fraction_is_read() {
    assert_eq!(
        Number::try_from(numeral("-0.25")),
        Ok(Number {
            is_positive: false,
            is_whole: false,
            digits: vec![digit(false, 0, false), digit(false, 2, true), digit(true, 0, true)],
        })
    );
}

#[test]
fn decimal_point_may_lead_or_end() {
    assert_eq!(
        Number::try_from(numeral(".5")),
        Ok(Number { is_positive: true, is_whole: false, digits: vec![digit(true, 0, true)] })
    );
    assert_eq!(
        Number::try_from(numeral("5.")),
        Ok(Number { is_positive: true, is_whole: false, digits: vec![digit(true, 0, false)] })
    );
}

#[test]
fn number_without_digit_is_malformed() {
    for s in ["", "-", ".", "-."] {
        assert_eq!(Number::try_from(numeral(s)), Err(ParseError::MalformedNumber));
    }
}

#[test]
fn second_decimal_point_is_malformed() {
    assert_eq!(Number::try_from(numeral("1.2.3")), Err(ParseError::MalformedNumber));
    assert_eq!(Number::try_from(numeral("1..")), Err(ParseError::MalformedNumber));
}

#[test]
fn misplaced_sign_is_malformed() {
    assert_eq!(Number::try_from(numeral("--3")), Err(ParseError::MalformedNumber));
    assert_eq!(Number::try_from(numeral("3-4")), Err(ParseError::MalformedNumber));
    assert_eq!(Number::try_from(numeral("3-")), Err(ParseError::MalformedNumber));
}

#[test]
fn foreign_character_in_number_is_named() {
    assert_eq!(Number::try_from(numeral("12a")), Err(ParseError::InvalidCharacter('a')));
    assert_eq!(Number::try_from(numeral("+3")), Err(ParseError::InvalidCharacter('+')));
    assert_eq!(Number::try_from(numeral("1 2")), Err(ParseError::InvalidCharacter(' ')));
}

#[test]
fn first_fault_of_a_number_decides() {
    assert_eq!(Number::try_from(numeral("1a.2.3")), Err(ParseError::InvalidCharacter('a')));
    assert_eq!(Number::try_from(numeral("1..a")), Err(ParseError::MalformedNumber));
    assert_eq!(Number::try_from(numeral("-x-")), Err(ParseError::InvalidCharacter('x')));
}

#[test]
fn read_number_accounts_for_its_characters() {
    for s in ["12.5", "-3", "0", "-0.25", ".5", "5.", "31415926"] {
        let n = Number::try_from(numeral(s)).unwrap();
        let sign = if n.is_positive { 0 } else { 1 };
        let dot = if n.is_whole { 0 } else { 1 };
        assert_eq!(n.digits.len() + sign + dot, s.chars().count());
        assert!(!n.digits.is_empty());
    }
}

#[test]
fn read_number_is_well_formed() {
    for s in ["12.5", "-3", "0", "-0.25", ".5", "5.", "31415.926", "99999"] {
        let n = Number::try_from(numeral(s)).unwrap();
        assert!(n.digits.iter().all(|d| d.num_lines <= 4));
        let first_behind = n.digits.iter().position(|d| d.follows_dot).unwrap_or(n.digits.len());
        assert!(n.digits[first_behind..].iter().all(|d| d.follows_dot));
        if n.is_whole {
            assert_eq!(first_behind, n.digits.len());
        }
    }
}
