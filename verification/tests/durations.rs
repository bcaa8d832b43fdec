use rem::error::RemError;
use rem::utils::get_seconds;

#[test]
fn single_units_parse() {
    assert_eq!(get_seconds("5s"), Ok(5));
    assert_eq!(get_seconds("3m"), Ok(180));
    assert_eq!(get_seconds("2h"), Ok(7200));
}

#[test]
fn parts_are_summed() {
    assert_eq!(get_seconds("1h 30m 15s"), Ok(5415));
    assert_eq!(get_seconds("10m 10m"), Ok(1200));
}

#[test]
fn surrounding_and_repeated_whitespace_is_ignored() {
    assert_eq!(get_seconds("  5s\t 1m\n"), Ok(65));
}

#[test]
fn empty_text_is_zero_seconds() {
    assert_eq!(get_seconds(""), Ok(0));
    assert_eq!(get_seconds("   "), Ok(0));
}

#[test]
fn leading_plus_sign_is_accepted() {
    assert_eq!(get_seconds("+5s"), Ok(5));
}

#[test]
fn zero_is_accepted() {
    assert_eq!(get_seconds("0s"), Ok(0));
    assert_eq!(get_seconds("000m"), Ok(0));
}

#[test]
fn unknown_unit_is_rejected() {
    assert_eq!(get_seconds("5x"), Err(RemError::ParsingError));
    assert_eq!(get_seconds("5"), Err(RemError::ParsingError));
}

#[test]
fn missing_digits_are_rejected() {
    assert_eq!(get_seconds("h"), Err(RemError::ParsingError));
    assert_eq!(get_seconds("+s"), Err(RemError::ParsingError));
}

#[test]
fn separated_unit_is_rejected() {
    assert_eq!(get_seconds("5 s"), Err(RemError::ParsingError));
}

#[test]
fn garbage_among_valid_parts_is_rejected() {
    assert_eq!(get_seconds("5s banana 3m"), Err(RemError::ParsingError));
    assert_eq!(get_seconds("1m -2s"), Err(RemError::ParsingError));
    assert_eq!(get_seconds("1.5h"), Err(RemError::ParsingError));
}

#[test]
fn values_that_overflow_are_rejected() {
    // more digits than any 64-bit value
    assert_eq!(get_seconds("99999999999999999999s"), Err(RemError::ParsingError));
    // the digits fit, the hours do not
    assert_eq!(get_seconds("18446744073709551615h"), Err(RemError::ParsingError));
    // the parts fit, the sum does not
    assert_eq!(
        get_seconds("18446744073709551615s 1s"),
        Err(RemError::ParsingError)
    );
}

#[test]
fn largest_value_is_accepted() {
    assert_eq!(get_seconds("18446744073709551615s"), Ok(u64::MAX));
}
