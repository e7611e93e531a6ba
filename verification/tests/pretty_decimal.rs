use std::fmt;

use pretty_decimal::{Decimal, Format, ParseError, PrettyDecimal, Rendering};

/// Writes a `PrettyDecimal` through `std::fmt`, with the formatter's
/// options, the way a `Display` impl built on `PrettyDecimal::render` does.
struct Shown(PrettyDecimal);

fn outside(d: Decimal) -> rust_decimal::Decimal {
    let r = d.reduced();
    let mut v = rust_decimal::Decimal::from_i128_with_scale(r.magnitude as i128, r.scale);
    v.set_sign_negative(r.negative);
    v.rescale(d.scale);
    v
}

impl fmt::Display for Shown {
    fn fmt(&self, f: &mut fmt::Formatter<'_>) -> fmt::Result {
        match self.0.render(f.precision(), f.sign_plus(), f.width().is_some()) {
            Rendering::Decimal => fmt::Display::fmt(&outside(self.0.value), f),
            Rendering::Text(t) => f.write_str(&t),
            Rendering::Padded { nonnegative, digits } => f.pad_integral(nonnegative, "", &digits),
            Rendering::BufferFull => Err(fmt::Error),
        }
    }
}

fn d(num: i64, scale: u32) -> Decimal {
    Decimal::new(num, scale)
}

fn decimal_min() -> Decimal {
    Decimal::from_i128_with_scale(-79_228_162_514_264_337_593_543_950_335, 0)
}

#[test]
fn conversions() {
    let mut pd = PrettyDecimal::with_format(d(1, 0), Some(Format::Comma3Dot));
    assert!(std::ptr::eq(pd.as_decimal(), &pd.value));
    assert!(std::ptr::eq(pd.as_ref(), &pd.value));
    *pd.as_mut() = d(2, 0);
    let pvalue: Decimal = pd.into();
    assert_eq!(pvalue, d(2, 0));
}

#[test]
fn from_str_unformatted() {
    // If the number is below 1000, we can't tell if the number is plain or comma3dot.
    // Thus we declare them as unformatted instead of plain.
    assert_eq!(Ok(PrettyDecimal::unformatted(d(1, 0))), PrettyDecimal::from_str("1"));
    assert_eq!(Ok(PrettyDecimal::unformatted(d(-1, 0))), PrettyDecimal::from_str("-1"));

    assert_eq!(Ok(PrettyDecimal::unformatted(d(12, 0))), PrettyDecimal::from_str("12"));
    assert_eq!(Ok(PrettyDecimal::unformatted(d(-12, 0))), PrettyDecimal::from_str("-12"));

    assert_eq!(Ok(PrettyDecimal::unformatted(d(123, 0))), PrettyDecimal::from_str("123"));
    assert_eq!(Ok(PrettyDecimal::unformatted(d(-123, 0))), PrettyDecimal::from_str("-123"));

    assert_eq!(
        Ok(PrettyDecimal::unformatted(d(123450, 6))),
        PrettyDecimal::from_str("0.123450")
    );
}

#[test]
fn from_str_plain() {
    assert_eq!(Ok(PrettyDecimal::plain(d(1234, 0))), PrettyDecimal::from_str("1234"));
    assert_eq!(Ok(PrettyDecimal::plain(d(-1234, 0))), PrettyDecimal::from_str("-1234"));

    assert_eq!(Ok(PrettyDecimal::plain(d(1234567, 0))), PrettyDecimal::from_str("1234567"));
    assert_eq!(Ok(PrettyDecimal::plain(d(-1234567, 0))), PrettyDecimal::from_str("-1234567"));

    assert_eq!(Ok(PrettyDecimal::plain(d(1234567, 3))), PrettyDecimal::from_str("1234.567"));
    assert_eq!(
        Ok(PrettyDecimal::plain(d(-1234567, 3))),
        PrettyDecimal::from_str("-1234.567")
    );
}

#[test]
fn from_str_comma() {
    assert_eq!(Ok(PrettyDecimal::comma3dot(d(1234, 0))), PrettyDecimal::from_str("1,234"));
    assert_eq!(Ok(PrettyDecimal::comma3dot(d(-1234, 0))), PrettyDecimal::from_str("-1,234"));

    assert_eq!(Ok(PrettyDecimal::comma3dot(d(12345, 0))), PrettyDecimal::from_str("12,345"));
    assert_eq!(
        Ok(PrettyDecimal::comma3dot(d(-12345, 0))),
        PrettyDecimal::from_str("-12,345")
    );

    assert_eq!(
        Ok(PrettyDecimal::comma3dot(d(123456, 0))),
        PrettyDecimal::from_str("123,456")
    );
    assert_eq!(
        Ok(PrettyDecimal::comma3dot(d(-123456, 0))),
        PrettyDecimal::from_str("-123,456")
    );

    assert_eq!(
        Ok(PrettyDecimal::comma3dot(d(1234567, 0))),
        PrettyDecimal::from_str("1,234,567")
    );
    assert_eq!(
        Ok(PrettyDecimal::comma3dot(d(-1234567, 0))),
        PrettyDecimal::from_str("-1,234,567")
    );

    assert_eq!(
        Ok(PrettyDecimal::comma3dot(d(1234567, 3))),
        PrettyDecimal::from_str("+1,234.567")
    );
    assert_eq!(
        Ok(PrettyDecimal::comma3dot(d(-1234567, 3))),
        PrettyDecimal::from_str("-1,234.567")
    );
}

#[test]
fn from_str_err() {
    assert_eq!(
        ParseError::UnexpectedChar(format!(","), 4),
        PrettyDecimal::from_str("1234,567").unwrap_err()
    );

    assert_eq!(
        ParseError::CommaRequired(5),
        PrettyDecimal::from_str("1,2345,67").unwrap_err()
    );
}

#[test]
fn display_plain() {
    assert_eq!("1.234000", PrettyDecimal::plain(d(1234000, 6)).to_string());

    assert_eq!(
        "   1234.56",
        format!("{:>10}", Shown(PrettyDecimal::plain(d(123456, 2)))),
    );
}

#[test]
fn to_string_comma3_dot() {
    assert_eq!("0", PrettyDecimal::comma3dot(d(0, 0)).to_string());
    assert_eq!(
        "0.0000000123",
        PrettyDecimal::comma3dot(d(123, 10)).to_string()
    );

    assert_eq!("123", PrettyDecimal::comma3dot(d(123, 0)).to_string());
    assert_eq!("-123.4", PrettyDecimal::comma3dot(d(-1234, 1)).to_string());

    assert_eq!(
        "999.9999",
        PrettyDecimal::comma3dot(d(9999999, 4)).to_string()
    );
    assert_eq!(
        "-999.9999",
        PrettyDecimal::comma3dot(d(-9999999, 4)).to_string()
    );

    assert_eq!("1,234", PrettyDecimal::comma3dot(d(1234, 0)).to_string());
    assert_eq!("-1,234", PrettyDecimal::comma3dot(d(-1234, 0)).to_string());
    assert_eq!(
        "123,456",
        PrettyDecimal::comma3dot(d(123456, 0)).to_string()
    );
    assert_eq!(
        "-123,456",
        PrettyDecimal::comma3dot(d(-123456, 0)).to_string()
    );

    // 1234 + 0.1200
    assert_eq!(
        "1,234.1200",
        PrettyDecimal::comma3dot(d(12341200, 4)).to_string()
    );
    // 1234 + 0.0012
    assert_eq!(
        "1,234.0012",
        PrettyDecimal::comma3dot(d(12340012, 4)).to_string()
    );

    // 1234 + 10^-21
    assert_eq!(
        //     12345678901234567890
        "1,234.000000000000000000001",
        PrettyDecimal::comma3dot(Decimal::from_i128_with_scale(1_234_000_000_000_000_000_000_001, 21))
            .to_string()
    );

    assert_eq!(
        "1,234,567.890120",
        PrettyDecimal::comma3dot(d(1234567890120, 6)).to_string()
    );

    let mut min = decimal_min();
    assert_eq!(
        "-79,228,162,514,264,337,593,543,950,335",
        PrettyDecimal::comma3dot(min).to_string()
    );

    min.set_scale(1).unwrap();
    min.rescale(28);

    assert_eq!(
        "-7,922,816,251,426,433,759,354,395,033.5",
        PrettyDecimal::comma3dot(min).to_string()
    );
}

#[test]
fn precision_0() {
    assert_eq!(
        "-79228162514264337593543950335",
        format!("{:.0}", rust_decimal::Decimal::MIN)
    );
}

#[test]
fn display_comma3_dot_precision() {
    assert_eq!(
        "1,235",
        format!("{:.0}", Shown(PrettyDecimal::comma3dot(d(123456, 2))))
    );
    assert_eq!(
        "-1,234.6",
        format!("{:.1}", Shown(PrettyDecimal::comma3dot(d(-123456, 2))))
    );
    assert_eq!(
        "1,234.56000",
        format!("{:.5}", Shown(PrettyDecimal::comma3dot(d(123456, 2))))
    );
}

// just a test to compare against standard floating number.
#[test]
fn display_float_fill() {
    assert_eq!("  -1.234", format!("{:>8}", -1.234));
    assert_eq!("  -1.234", format!("{:8}", -1.234));
    assert_eq!("_-1.234_", format!("{:_^8}", -1.234));
    assert_eq!("-1.234  ", format!("{:<8}", -1.234));

    // with 0 flag, alignment / fill will be ignored.
    assert_eq!("+0001.24", format!("{:<+08.2}", 1.235));
    assert_eq!("+0001.24", format!("{:+08.2}", 1.235));
    assert_eq!("+01.2340", format!("{:+08.4}", 1.234));

    // too small width ignored
    assert_eq!("123456", format!("{:3}", 123456.0));
    assert_eq!("1.00000000", format!("{:3.8}", 1.0));
}

#[test]
fn display_comma3_dot_fill() {
    let val = PrettyDecimal::comma3dot(d(123456, 2));

    assert_eq!("  1,234.56", format!("{:>10}", Shown(val)));
    assert_eq!("  1,234.56", format!("{:10}", Shown(val)));
    assert_eq!("_1,234.56_", format!("{:_^10}", Shown(val)));
    assert_eq!("+1,234.56 ", format!("{:<+10}", Shown(val)));
    assert_eq!("-1,234.56 ", format!("{:<10}", Shown(-val)));

    assert_eq!("001,234.56", format!("{:>010}", Shown(val)));
    assert_eq!("-01,234.56", format!("{:<010}", Shown(-val)));

    // too small width ignored
    assert_eq!("1,234.56", format!("{:3}", Shown(val)));
    assert_eq!("1.00000000", format!("{:3.8}", rust_decimal::Decimal::ONE));
}

#[test]
fn scale_returns_correct_number() {
    assert_eq!(0, PrettyDecimal::comma3dot(d(1230, 0)).scale());
    assert_eq!(1, PrettyDecimal::comma3dot(d(12304, 1)).scale());
}
