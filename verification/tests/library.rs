use pretty_decimal::{
    cold, display_comma_3_dot_impl, likely, try_find_char, unlikely, Decimal, DecimalError, Format,
    ParseError, PrettyDecimal, Rendering,
};

fn d(num: i64, scale: u32) -> Decimal {
    Decimal::new(num, scale)
}

fn parts(x: Decimal) -> (bool, u128, u32) {
    (x.negative, x.magnitude, x.scale)
}

#[test]
fn crate_doc_comma3dot_to_string() {
    let x = PrettyDecimal::comma3dot(d(-1234567890, 3));
    assert_eq!(x.to_string(), "-1,234,567.890");
}

#[test]
fn crate_doc_parse_comma3dot() {
    let x = PrettyDecimal::from_str("-1,234,567.890").unwrap();
    assert_eq!(x.value, d(-1234567890, 3));
    assert_eq!(parts(x.value), (true, 1234567890, 3));
    assert_eq!(x.format, Some(Format::Comma3Dot));
}

#[test]
fn roundtrip_keeps_value_and_told_format() {
    for (v, f) in [
        (d(-1234567890, 3), Some(Format::Comma3Dot)),
        (d(1234567890, 3), Some(Format::Plain)),
        (d(999, 0), None),
        (d(-12, 5), None),
        (Decimal::from_i128_with_scale(79_228_162_514_264_337_593_543_950_335, 28), None),
        (Decimal::from_i128_with_scale(-79_228_162_514_264_337_593_543_950_335, 0), Some(Format::Comma3Dot)),
        (d(1000, 0), Some(Format::Comma3Dot)),
        (d(1000, 0), Some(Format::Plain)),
    ] {
        let p = PrettyDecimal::with_format(v, f);
        let back = PrettyDecimal::from_str(&p.to_string()).unwrap();
        assert_eq!(parts(back.value), parts(v));
        assert_eq!(back.format, f);
    }
}

#[test]
fn roundtrip_comma_below_thousand_loses_format() {
    let p = PrettyDecimal::comma3dot(d(9999, 1));
    let back = PrettyDecimal::from_str(&p.to_string()).unwrap();
    assert_eq!(back, PrettyDecimal::unformatted(d(9999, 1)));
    assert_eq!(back.format, None);
}

#[test]
fn negative_zero_reads_back_positive() {
    let mut z = d(0, 2);
    z.set_sign_positive(false);
    let p = PrettyDecimal::unformatted(z);
    assert_eq!(p.to_string(), "-0.00");
    let back = PrettyDecimal::from_str(&p.to_string()).unwrap();
    assert_eq!(parts(back.value), (false, 0, 2));
}

#[test]
fn commas_are_the_only_difference() {
    for v in [d(1234, 0), d(-1234567890, 3), d(100000000, 5), d(123456, 2)] {
        let c = PrettyDecimal::comma3dot(v).to_string();
        let p = PrettyDecimal::plain(v).to_string();
        assert_eq!(c.replace(',', ""), p);
    }
}

#[test]
fn negation_flips_sign_and_twice_is_identity() {
    let p = PrettyDecimal::comma3dot(d(123456, 2));
    let n = -p;
    assert_eq!(n.to_string(), "-1,234.56");
    assert_eq!(n.format, Some(Format::Comma3Dot));
    assert_eq!(parts(n.value), (true, 123456, 2));
    assert_eq!(parts((-n).value), parts(p.value));
    assert_eq!((-PrettyDecimal::plain(d(5, 1))).to_string(), "-0.5");
}

#[test]
fn precision_pads_with_zeros() {
    let p = PrettyDecimal::comma3dot(d(1234, 0));
    match p.render(Some(2), false, false) {
        Rendering::Text(t) => assert_eq!(t, "1,23400"),
        _ => panic!("expected text"),
    }
}

#[test]
fn plain_and_unformatted_write_alike() {
    for v in [d(1234567, 2), d(-5, 0), d(0, 3)] {
        assert_eq!(PrettyDecimal::plain(v).to_string(), PrettyDecimal::unformatted(v).to_string());
        assert_eq!(PrettyDecimal::plain(v).to_string(), v.to_string());
    }
}

#[test]
fn no_commas_below_thousand() {
    assert_eq!(PrettyDecimal::comma3dot(d(-9999999, 4)).to_string(), "-999.9999");
    assert_eq!(PrettyDecimal::comma3dot(d(1000, 0)).to_string(), "1,000");
}

#[test]
fn parse_errors() {
    assert_eq!(
        PrettyDecimal::from_str("12a"),
        Err(ParseError::UnexpectedChar("a".to_string(), 2))
    );
    assert_eq!(
        PrettyDecimal::from_str("1,23é4"),
        Err(ParseError::UnexpectedChar("é".to_string(), 4))
    );
    assert_eq!(PrettyDecimal::from_str("1,2345"), Err(ParseError::CommaRequired(5)));
    assert_eq!(
        PrettyDecimal::from_str("79228162514264337593543950336"),
        Err(ParseError::InvalidDecimal(DecimalError::ExceedsMaximumPossibleValue))
    );
    assert_eq!(
        PrettyDecimal::from_str("-79228162514264337593543950336"),
        Err(ParseError::InvalidDecimal(DecimalError::LessThanMinimumPossibleValue))
    );
    assert_eq!(
        PrettyDecimal::from_str("0.00000000000000000000000000001"),
        Err(ParseError::InvalidDecimal(DecimalError::ScaleExceedsMaximumPrecision(29)))
    );
}

#[test]
fn parse_quirks() {
    // a second point starts the decimal places again
    let p = PrettyDecimal::from_str("1.2.3").unwrap();
    assert_eq!(parts(p.value), (false, 123, 1));
    // an empty text and a lone sign read as zero
    assert_eq!(parts(PrettyDecimal::from_str("").unwrap().value), (false, 0, 0));
    assert_eq!(parts(PrettyDecimal::from_str("-").unwrap().value), (false, 0, 0));
    // the format goes by the value, not by the count of digits
    assert_eq!(PrettyDecimal::from_str("0001").unwrap().format, None);
    assert_eq!(PrettyDecimal::from_str("0999").unwrap().format, None);
    assert_eq!(PrettyDecimal::from_str("-0999.5").unwrap().format, None);
    assert_eq!(PrettyDecimal::from_str("01000").unwrap().format, Some(Format::Plain));
    assert_eq!(PrettyDecimal::from_str("12.34.5").unwrap().format, Some(Format::Plain));
    // a sign is read only at the start
    assert_eq!(
        PrettyDecimal::from_str("1-"),
        Err(ParseError::UnexpectedChar("-".to_string(), 1))
    );
}

#[test]
fn checked_parse_reports_overflow() {
    let long = "1".repeat(40);
    assert!(PrettyDecimal::checked_from_str(&long).is_none());
    let zeros = format!("{}1", "0".repeat(50));
    assert_eq!(
        PrettyDecimal::checked_from_str(&zeros),
        Some(Ok(PrettyDecimal::unformatted(d(1, 0))))
    );
    assert_eq!(
        PrettyDecimal::checked_from_str("1,234"),
        Some(Ok(PrettyDecimal::comma3dot(d(1234, 0))))
    );
}

#[test]
fn find_char_at_byte_offset() {
    assert_eq!(try_find_char("1234,567", 4, b','), ",");
    assert_eq!(try_find_char("ab€cd", 3, 0x82), "€");
    assert_eq!(try_find_char("ab€cd", 2, 0xe2), "€");
    assert_eq!(try_find_char("abc", 7, b'x'), "");
}

#[test]
fn hints_pass_values_through() {
    cold();
    assert!(likely(true));
    assert!(!likely(false));
    assert!(unlikely(true));
    assert!(!unlikely(false));
}

#[test]
fn render_variants() {
    let small = PrettyDecimal::comma3dot(d(12, 0));
    assert!(matches!(small.render(None, false, true), Rendering::Decimal));
    assert!(matches!(PrettyDecimal::plain(d(12345, 0)).render(None, false, false), Rendering::Decimal));
    let big = PrettyDecimal::comma3dot(d(-123456, 2));
    match big.render(None, true, false) {
        Rendering::Text(t) => assert_eq!(t, "+-1,234.56"),
        _ => panic!("expected text"),
    }
    match big.render(Some(1), false, true) {
        Rendering::Padded { nonnegative, digits } => {
            assert!(!nonnegative);
            assert_eq!(digits, "1,234.6");
        }
        _ => panic!("expected padded digits"),
    }
    assert!(matches!(big.render(Some(60), false, true), Rendering::BufferFull));
}

#[test]
fn comma_impl_rounds_half_to_even() {
    assert_eq!(display_comma_3_dot_impl(d(12345, 1), Some(0)), "1,234");
    assert_eq!(display_comma_3_dot_impl(d(12355, 1), Some(0)), "1,236");
    assert_eq!(display_comma_3_dot_impl(d(-12345678, 3), None), "-12,345.678");
    assert_eq!(display_comma_3_dot_impl(d(123, 3), None), ".123");
}

#[test]
fn decimal_equality_is_numeric() {
    assert_eq!(d(10, 1), d(1, 0));
    assert_eq!(d(100, 2), d(1000, 3));
    assert_ne!(d(11, 1), d(1, 0));
    assert_ne!(d(-1, 0), d(1, 0));
    let mut neg_zero = d(0, 3);
    neg_zero.set_sign_negative(true);
    assert_eq!(neg_zero, d(0, 0));
    assert_ne!(d(1, 0), Decimal::from_i128_with_scale(1, 28));
}

#[test]
fn decimal_operations() {
    assert_eq!(d(-1234, 2).mantissa(), -1234);
    assert_eq!(d(-1234, 2).abs().mantissa(), 1234);
    assert!(d(-1, 0).is_sign_negative());
    assert!(d(1, 0).is_sign_positive());
    assert!(d(-9999999, 4).abs_below_thousand());
    assert!(!d(10000000, 4).abs_below_thousand());
    let mut x = d(5, 0);
    assert_eq!(x.set_scale(29), Err(DecimalError::ScaleExceedsMaximumPrecision(29)));
    assert_eq!(parts(x), (false, 5, 0));
    assert_eq!(x.set_scale(2), Ok(()));
    assert_eq!(parts(x), (false, 5, 2));
    assert_eq!(parts(d(125, 2).round_dp(1)), (false, 12, 1));
    assert_eq!(parts(d(135, 2).round_dp(1)), (false, 14, 1));
    assert_eq!(parts(d(-4, 1).round_dp(0)), (false, 0, 0));
    assert_eq!(parts(d(-1234, 2).round_dp(5)), (true, 1234, 2));
    let mut r = d(145, 2);
    r.rescale(1);
    assert_eq!(parts(r), (false, 15, 1));
    let mut r = d(1123, 3);
    r.rescale(6);
    assert_eq!(parts(r), (false, 1123000, 6));
    assert_eq!(d(123, 10).to_string(), "0.0000000123");
    assert_eq!(d(0, 0).to_string(), "0");
    assert_eq!(d(0, 2).to_string(), "0.00");
    assert_eq!(
        Decimal::try_from_i128_with_scale(1, 29),
        Err(DecimalError::ScaleExceedsMaximumPrecision(29))
    );
    assert_eq!(parts(Decimal::default()), (false, 0, 0));
}

#[test]
fn pretty_decimal_accessors() {
    let mut p = PrettyDecimal::plain(d(12345, 2));
    assert_eq!(p.scale(), 2);
    p.rescale(4);
    assert_eq!(parts(p.value), (false, 1234500, 4));
    assert_eq!(p.format, Some(Format::Plain));
    assert!(p.is_sign_positive());
    p.set_sign_positive(false);
    assert!(!p.is_sign_positive());
    assert_eq!(p.to_string(), "-123.4500");
    let z = PrettyDecimal::default();
    assert_eq!(z.format, None);
    assert_eq!(parts(z.value), (false, 0, 0));
}

#[test]
fn render_without_options_is_to_string() {
    let big = PrettyDecimal::comma3dot(d(-1234567890, 3));
    match big.render(None, false, false) {
        Rendering::Text(t) => assert_eq!(t, big.to_string()),
        _ => panic!("expected text"),
    }
    let plain = PrettyDecimal::plain(d(-1234567890, 3));
    assert!(matches!(plain.render(None, false, false), Rendering::Decimal));
    assert_eq!(plain.to_string(), "-1234567.890");
}

#[test]
fn unexpected_ascii_char_is_reported_as_itself() {
    for (s, i) in [("12x4", 2usize), ("1,2;4", 3), ("a", 0)] {
        let c = s[i..i + 1].to_string();
        assert_eq!(try_find_char(s, i, s.as_bytes()[i]), c);
        assert_eq!(PrettyDecimal::from_str(s), Err(ParseError::UnexpectedChar(c, i)));
    }
}

#[test]
fn rescale_as_rust_decimal_does() {
    // up beyond 28: as far as the 96-bit mantissa allows
    let mut x = d(1, 1);
    x.rescale(29);
    assert_eq!(parts(x), (false, 10_000_000_000_000_000_000_000_000_000, 29));
    assert_eq!(x.to_string(), "0.10000000000000000000000000000");
    let mut y = d(1, 28);
    y.rescale(100);
    assert_eq!(parts(y), (false, 10_000_000_000_000_000_000_000_000_000, 56));
    // back down, exactly
    y.rescale(30);
    assert_eq!(parts(y), (false, 100, 30));
    assert_eq!(y.to_string(), "0.000000000000000000000000000100");
    assert_eq!(parts(y.round_dp(28)), (false, 1, 28));
    // down, rounding on the first dropped digit only
    let mut z = d(-1449, 3);
    z.rescale(1);
    assert_eq!(parts(z), (true, 14, 1));
    let mut z = d(-145, 2);
    z.rescale(1);
    assert_eq!(parts(z), (true, 15, 1));
    // a zero takes the scale, capped at 28
    let mut zero = d(0, 2);
    zero.rescale(40);
    assert_eq!(parts(zero), (false, 0, 28));
    // within range the value stays and the scale is the one asked for
    let mut p = PrettyDecimal::plain(d(-123456, 2));
    p.rescale(5);
    assert_eq!(parts(p.value), (true, 123456000, 5));
    assert_eq!(p.scale(), 5);
    assert_eq!(p.value, d(-123456, 2));
    assert_eq!(p.format, Some(Format::Plain));
}

#[test]
fn reported_char_is_one_char() {
    let s = "1😀2";
    for i in 1..5 {
        assert_eq!(try_find_char(s, i, s.as_bytes()[i]).chars().count(), 1);
        assert_eq!(try_find_char(s, i, s.as_bytes()[i]), "😀");
    }
    assert_eq!(PrettyDecimal::from_str(s), Err(ParseError::UnexpectedChar("😀".to_string(), 1)));
}

#[test]
fn round_dp_midpoint_wraps_as_rust_decimal_does() {
    let mut v = Decimal::from_i128_with_scale(792_281_625_142_643_375_935_439_503, 28);
    v.rescale(30);
    assert_eq!(parts(v), (false, 79_228_162_514_264_337_593_543_950_300, 30));
    // the midpoint 5 * 10^29 wraps modulo 2^96, so the dropped part counts as above it
    assert_eq!(parts(v.round_dp(0)), (false, 1, 0));
    assert_eq!(display_comma_3_dot_impl(v, Some(0)), "1");
    // below 30 dropped digits the midpoint is one half
    assert_eq!(parts(d(4, 1).round_dp(0)), (false, 0, 0));
    assert_eq!(parts(d(6, 1).round_dp(0)), (false, 1, 0));
}

#[test]
fn comma_text_of_negative_is_minus_and_absolute_text() {
    for (v, p) in [(d(-123456, 2), None), (d(-123456, 2), Some(1)), (d(-5, 0), Some(3)), (d(-1234567, 3), Some(0))] {
        let neg = display_comma_3_dot_impl(v, p);
        let abs = display_comma_3_dot_impl(v.abs(), p);
        assert_eq!(neg, format!("-{}", abs));
    }
}
