use lychrel196::digits::{digit_sum_mod9, first_n, is_palindrome, last_n, parse_digits, pow2_mod9, to_string};

#[test]
fn parse_is_least_significant_first() {
    assert_eq!(parse_digits("196"), vec![6, 9, 1]);
    assert_eq!(parse_digits(""), Vec::<u8>::new());
    assert_eq!(parse_digits("0"), vec![0]);
}

#[test]
fn to_string_reads_most_significant_first() {
    assert_eq!(to_string(&[6, 9, 1]), b"196".to_vec());
    assert_eq!(to_string(&[]), Vec::<u8>::new());
}

#[test]
fn text_roundtrip() {
    let t = "13216208663459007924030871";
    assert_eq!(to_string(&parse_digits(t)), t.as_bytes().to_vec());
}

#[test]
fn first_and_last_digits() {
    let d = parse_digits("1234567");
    assert_eq!(first_n(&d, 3), b"123".to_vec());
    assert_eq!(last_n(&d, 3), b"567".to_vec());
    assert_eq!(first_n(&d, 20), b"1234567".to_vec());
    assert_eq!(last_n(&d, 20), b"1234567".to_vec());
    assert_eq!(first_n(&d, 0), Vec::<u8>::new());
}

#[test]
fn palindromes() {
    assert!(is_palindrome(&parse_digits("8813200023188")));
    assert!(is_palindrome(&parse_digits("7")));
    assert!(is_palindrome(&[]));
    assert!(!is_palindrome(&parse_digits("196")));
    assert!(!is_palindrome(&parse_digits("10")));
}

#[test]
fn digit_sum_modulo_nine() {
    assert_eq!(digit_sum_mod9(&parse_digits("196")), 7);
    assert_eq!(digit_sum_mod9(&parse_digits("999999999")), 0);
    assert_eq!(digit_sum_mod9(&[]), 0);
}

#[test]
fn powers_of_two_modulo_nine() {
    let expected = [1u64, 2, 4, 8, 7, 5, 1, 2, 4, 8, 7, 5, 1];
    for (e, want) in expected.iter().enumerate() {
        assert_eq!(pow2_mod9(e as u64), *want);
    }
    assert_eq!(pow2_mod9(100), 7);
    assert_eq!(pow2_mod9(u64::MAX), 8);
}
