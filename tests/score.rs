use seq_align::letter::{NormalizeLetter, GAP};
use seq_align::score::{fits_machine_limits, index_digit_count, score_digit_count};

#[test]
fn score_digits_count_sign() {
    assert_eq!(score_digit_count(0), 1);
    assert_eq!(score_digit_count(9), 1);
    assert_eq!(score_digit_count(10), 2);
    assert_eq!(score_digit_count(-1), 2);
    assert_eq!(score_digit_count(-10), 3);
    assert_eq!(score_digit_count(i64::MAX), 19);
    assert_eq!(score_digit_count(i64::MIN), 20);
}

#[test]
fn index_digits() {
    assert_eq!(index_digit_count(0), 1);
    assert_eq!(index_digit_count(7), 1);
    assert_eq!(index_digit_count(100), 3);
    assert_eq!(index_digit_count(999), 3);
}

#[test]
fn letters_normalize() {
    assert_eq!('a'.normalize_letter(), 'a');
    assert_eq!((&'x').normalize_letter(), 'x');
    assert_eq!(Some('q').normalize_letter(), 'q');
    assert_eq!(None::<char>.normalize_letter(), GAP);
    let letters = ['m'];
    assert_eq!(letters.get(0).normalize_letter(), 'm');
    assert_eq!(letters.get(1).normalize_letter(), '-');
}

#[test]
fn machine_limits_are_checked() {
    assert!(fits_machine_limits(4, 3, 1, -1, -2));
    assert!(fits_machine_limits(0, 0, 0, 0, 0));
    assert!(!fits_machine_limits(1, 1, i64::MAX, 0, 0));
    assert!(!fits_machine_limits(1, 1, i64::MIN, 0, 0));
    assert!(!fits_machine_limits(usize::MAX, 1, 0, 0, 0));
}

#[test]
fn machine_limits_use_largest_weight() {
    // one step of weight 2^62 fits, even with three such weights
    let big: i64 = 1 << 62;
    assert!(fits_machine_limits(0, 0, big, -big, big));
    // two steps of 2^62 do not
    assert!(!fits_machine_limits(1, 0, big, 0, 0));
}
