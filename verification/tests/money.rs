use agent_ledger::money::{format_amount, format_wide, parse_amount, AmountError};

#[test]
fn parses_whole_number_into_minor_units() {
    assert_eq!(parse_amount("100", 6), Ok(100_000_000));
}

#[test]
fn parses_negative_decimal() {
    assert_eq!(parse_amount("-25.5", 6), Ok(-25_500_000));
}

#[test]
fn accepts_leading_plus_and_trailing_zeros() {
    assert_eq!(parse_amount("+1.500000", 2), Ok(150));
    assert_eq!(parse_amount(" 7 ", 0), Ok(7));
}

#[test]
fn rejects_excess_precision_without_rounding() {
    assert_eq!(
        parse_amount("1.2345678", 6),
        Err(AmountError::Precision { scale: 7 })
    );
    assert_eq!(
        parse_amount("0.001", 2),
        Err(AmountError::Precision { scale: 3 })
    );
}

#[test]
fn money_rejects_garbage() {
    assert_eq!(parse_amount("abc", 2), Err(AmountError::Invalid));
    assert_eq!(parse_amount("1e5", 2), Err(AmountError::Invalid));
    assert_eq!(parse_amount("", 2), Err(AmountError::Invalid));
}

#[test]
fn formats_with_fixed_decimals() {
    assert_eq!(format_amount(-25_500_000, 6), "-25.500000");
    assert_eq!(format_amount(150, 2), "1.50");
    assert_eq!(format_amount(-5, 2), "-0.05");
    assert_eq!(format_amount(7, 0), "7");
    assert_eq!(format_amount(0, 6), "0.000000");
}

#[test]
fn round_trips() {
    for s in ["0.000001", "-99999.123456", "1", "-0.5"] {
        let m = parse_amount(s, 6).unwrap();
        assert_eq!(parse_amount(&format_amount(m, 6), 6).unwrap(), m);
    }
}

#[test]
fn formats_extremes_of_the_wide_range() {
    assert_eq!(format_amount(i64::MIN, 2), "-92233720368547758.08");
    assert_eq!(format_wide(i128::MIN, 0), "-170141183460469231731687303715884105728");
    assert_eq!(format_wide(-1, 18), "-0.000000000000000001");
}

#[test]
fn rejects_amounts_outside_i64_and_lone_signs() {
    assert_eq!(parse_amount("92233720368547758.08", 2), Err(AmountError::Invalid));
    assert_eq!(parse_amount("-92233720368547758.08", 2), Ok(i64::MIN));
    assert_eq!(parse_amount("-", 2), Err(AmountError::Invalid));
    assert_eq!(parse_amount(".", 2), Err(AmountError::Invalid));
    assert_eq!(parse_amount("1.2.3", 2), Err(AmountError::Invalid));
    assert_eq!(parse_amount(".5", 2), Ok(50));
}

#[test]
fn long_amounts_are_exact_never_rounded() {
    assert_eq!(
        parse_amount("1.00000000000000000000000000001", 2),
        Err(AmountError::Precision { scale: 29 })
    );
    assert_eq!(
        parse_amount("-0.1234567890123456789012345678901", 6),
        Err(AmountError::Precision { scale: 31 })
    );
    assert_eq!(parse_amount("1.50000000000000000000000000000000", 2), Ok(150));
    assert_eq!(parse_amount("000000000000000000000000000000000001.5", 2), Ok(150));
    assert_eq!(parse_amount("-000000000000000000000000000000.000000000000000000000", 2), Ok(0));
    assert_eq!(
        parse_amount("12345678901234567890123456789012345", 0),
        Err(AmountError::Invalid)
    );
    assert_eq!(parse_amount("9223372036854775807", 0), Ok(i64::MAX));
    assert_eq!(parse_amount("92233720368547758.08", 2), Err(AmountError::Invalid));
    assert_eq!(parse_amount("1.2.3", 2), Err(AmountError::Invalid));
}
