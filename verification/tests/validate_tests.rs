use word_guess::validate::is_usize;

#[test]
fn accepts_plain_numbers() {
    assert!(is_usize("0".to_string()).is_ok());
    assert!(is_usize("123".to_string()).is_ok());
    assert!(is_usize("+42".to_string()).is_ok());
}

#[test]
fn accepts_the_largest_value() {
    assert!(is_usize(usize::MAX.to_string()).is_ok());
}

#[test]
fn rejects_empty_and_sign_only() {
    assert!(is_usize("".to_string()).is_err());
    assert!(is_usize("+".to_string()).is_err());
}

#[test]
fn rejects_non_digits() {
    assert!(is_usize("abc".to_string()).is_err());
    assert!(is_usize("12a".to_string()).is_err());
    assert!(is_usize("-1".to_string()).is_err());
    assert!(is_usize("1 2".to_string()).is_err());
}

#[test]
fn rejects_values_out_of_range() {
    assert!(is_usize("99999999999999999999999999999999999999".to_string()).is_err());
}
