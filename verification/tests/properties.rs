use bandwidth::Bandwidth;
use binary_bandwidth::{format_binary_bandwidth, parse_binary_bandwidth, parse_binary_fraction, Error};

#[test]
fn test_single_span_exact() {
    // an integer span is worth exactly n * 1024^level bytes, times 8 bits
    assert_eq!(
        parse_binary_bandwidth("7MiBps"),
        Ok(Bandwidth::new(0, 7 * 1024 * 1024 * 8))
    );
    assert_eq!(
        parse_binary_bandwidth("3TiBps"),
        Ok(Bandwidth::new(
            3 * 1024u64 * 1024 * 1024 * 1024 * 8 / 1_000_000_000,
            (3 * 1024u64 * 1024 * 1024 * 1024 * 8 % 1_000_000_000) as u32
        ))
    );
}

#[test]
fn test_concatenation_is_additive() {
    let a = parse_binary_bandwidth("51KiBps").unwrap();
    let b = parse_binary_bandwidth("79.78KiBps").unwrap();
    let both = parse_binary_bandwidth("51KiBps 79.78KiBps").unwrap();
    assert_eq!(a.checked_add(b), Some(both));
}

#[test]
fn test_fraction_rounds_away_from_zero() {
    // 150.024 * 1024 = 153624.576, which rounds up to 153625 bytes
    assert_eq!(
        parse_binary_bandwidth("150.024KiBps"),
        Ok(Bandwidth::new(0, 153625 * 8))
    );
    // digits beyond the fractional cap are discarded, not rounded
    assert_eq!(
        parse_binary_bandwidth("150.02456KiBps"),
        Ok(Bandwidth::new(0, ((150.02456f64 * 1024f64).round() as u32) * 8))
    );
    // an exact half byte rounds away from zero
    assert_eq!(parse_binary_bandwidth("0.5Bps"), Ok(Bandwidth::new(0, 8)));
    assert_eq!(
        parse_binary_bandwidth("1.5Bps"),
        Ok(Bandwidth::new(0, 16))
    );
}

#[test]
fn test_parse_binary_fraction_exact() {
    // 0.5 bytes rounds to a whole byte, away from zero
    assert_eq!(parse_binary_fraction(5, 1, 0), Ok(1));
    // 0.4 bytes rounds down
    assert_eq!(parse_binary_fraction(4, 1, 0), Ok(0));
    // 0.024 kibibytes is 24.576 bytes, which rounds to 25
    assert_eq!(parse_binary_fraction(24, 3, 1), Ok(25));
}

#[test]
fn test_decimal_ties_to_even() {
    // 9.375 TiB/s at two digits: the dropped half rounds 37 up to 38
    let v = format_binary_bandwidth(parse_binary_bandwidth("9.375TiBps").unwrap());
    assert_eq!(v.fmt_decimal(None), "9.375TiB/s");
    assert_eq!(v.fmt_decimal(Some(2)), "9.38TiB/s");
    // 9.125 TiB/s at two digits: the dropped half keeps 12 even
    let w = format_binary_bandwidth(parse_binary_bandwidth("9.125TiBps").unwrap());
    assert_eq!(w.fmt_decimal(None), "9.125TiB/s");
    assert_eq!(w.fmt_decimal(Some(2)), "9.12TiB/s");
}

#[test]
fn test_precision_carry_increments_integer() {
    // rounding to the requested precision carries out of the fraction:
    // the integer part goes up and the fraction is all zeros
    let v = format_binary_bandwidth(Bandwidth::new(17592, 186044408));
    assert_eq!(v.fmt_decimal(None), "1.999999999999TiB/s");
    assert_eq!(v.fmt_decimal(Some(2)), "2.00TiB/s");
    // 1 KiB + 1023 B is 1.999 KiB/s exactly
    let w = format_binary_bandwidth(Bandwidth::new(0, 2047 * 8));
    assert_eq!(w.fmt_decimal(None), "1.999KiB/s");
    assert_eq!(w.fmt_decimal(Some(2)), "2.00KiB/s");
    assert_eq!(w.fmt_decimal(Some(1)), "2.0KiB/s");
    assert_eq!(w.fmt_decimal(Some(3)), "1.999KiB/s");
}

#[test]
fn test_zero_renders_in_both_modes() {
    let z = format_binary_bandwidth(Bandwidth::new(0, 0));
    assert_eq!(z.fmt_integer(), "0B/s");
    assert_eq!(z.fmt_decimal(None), "0B/s");
    assert_eq!(z.fmt_decimal(Some(3)), "0B/s");
}

#[test]
fn test_itemized_skips_zero_components() {
    // tebi and kibi parts only: nothing is printed for the zero levels
    let v = parse_binary_bandwidth("2TiBps 7KiBps").unwrap();
    assert_eq!(format_binary_bandwidth(v).fmt_integer(), "2TiB/s 7KiB/s");
}

#[test]
fn test_error_values() {
    assert_eq!(parse_binary_bandwidth(""), Err(Error::Empty));
    assert_eq!(parse_binary_bandwidth("   "), Err(Error::Empty));
    assert_eq!(parse_binary_bandwidth("1&Bps"), Err(Error::InvalidCharacter(1)));
    assert_eq!(parse_binary_bandwidth("1.2.3Bps"), Err(Error::InvalidCharacter(3)));
    assert_eq!(
        parse_binary_bandwidth("123"),
        Err(Error::UnitNeeded { offset: 3, value: 123 })
    );
    assert_eq!(
        parse_binary_bandwidth("99999999999999999999Bps"),
        Err(Error::NumberOverflow)
    );
}

#[test]
fn test_unknown_unit_carries_substring_and_range() {
    // the offending substring and its byte range, independent of the
    // whitespace around it
    assert_eq!(
        parse_binary_bandwidth("10 byte/s"),
        Err(Error::UnknownBinaryUnit {
            start: 3,
            end: 9,
            unit: String::from("byte/s"),
            value: 10
        })
    );
    assert_eq!(
        parse_binary_bandwidth("  10   byte/s"),
        Err(Error::UnknownBinaryUnit {
            start: 7,
            end: 13,
            unit: String::from("byte/s"),
            value: 10
        })
    );
}

#[test]
fn test_grouping_separators() {
    assert_eq!(
        parse_binary_bandwidth("1_024Bps"),
        Ok(Bandwidth::new(0, 1024 * 8))
    );
    assert_eq!(
        parse_binary_bandwidth("1 024Bps"),
        Ok(Bandwidth::new(0, 1024 * 8))
    );
}

#[test]
fn test_adjacent_spans_without_separator() {
    // a fresh digit while scanning a unit closes the span and starts the next
    assert_eq!(
        parse_binary_bandwidth("1KiBps2Bps"),
        Ok(Bandwidth::new(0, (1024 + 2) * 8))
    );
}

#[test]
fn test_largest_accepted_literal() {
    assert_eq!(
        parse_binary_bandwidth("18446744073709551615Bps"),
        Ok(Bandwidth::new(
            18446744073709551615u64 / 1_000_000_000 * 8
                + 18446744073709551615u64 % 1_000_000_000 * 8 / 1_000_000_000,
            (18446744073709551615u64 % 1_000_000_000 * 8 % 1_000_000_000) as u32
        ))
    );
    assert_eq!(
        parse_binary_bandwidth("18446744073709551616Bps"),
        Err(Error::NumberOverflow)
    );
}

#[test]
fn test_error_messages_render() {
    assert_eq!(parse_binary_bandwidth("").unwrap_err().message(), "empty input");
    assert_eq!(
        parse_binary_bandwidth("1&Bps").unwrap_err().message(),
        "invalid character at 1"
    );
    assert_eq!(
        parse_binary_bandwidth("99999999999999999999Bps").unwrap_err().message(),
        "number is too large"
    );
}
