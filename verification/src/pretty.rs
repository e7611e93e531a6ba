//! `PrettyDecimal`: a `Decimal` together with the format it is written in.

use vstd::prelude::*;
use vstd::string::StringSliceAdditionalSpecFns;
use crate::hints::{likely, unlikely};
use crate::decimal::{Decimal, DISPLAY_MAX_SCALE, plain_text, rescale_spec, round_dp_spec};
use crate::display::{comma3dot_text, comma_fits, display_comma_3_dot_impl, rounded_for, comma_digits, lemma_comma_text_ascii};
use crate::text::{digits_of, lemma_digits_len, lemma_pow10_add, lemma_pow10_positive, pow10};

verus! {

/// How a `PrettyDecimal` is written.
#[derive(Debug, PartialEq, Eq, Structural, Clone, Copy)]
#[non_exhaustive]
pub enum Format {
    /// Decimal without formatting, such as `1234` or `1234.5`.
    Plain,
    /// A `,` before every group of three integral digits, `.` for the
    /// decimal point: `1,234.5`.
    Comma3Dot,
}

/// A decimal with the format it is written in. `format: None` means that
/// the format is not known: parsing gives `Some(Format::Plain)` for a
/// plain input of at least 1,000 in absolute value, and leaves `None` for
/// one of 999 or below.
#[derive(Debug, Clone, Copy, PartialEq, Eq)]
#[non_exhaustive]
pub struct PrettyDecimal {
    /// The format, if known.
    pub format: Option<Format>,
    /// The value.
    pub value: Decimal,
}

/// Whether `|d| < 1000`.
pub open spec fn below_thousand(d: Decimal) -> bool {
    d.magnitude < 1000 * pow10(d.scale as nat)
}

/// What `to_string` writes: the comma format for a `Comma3Dot` value of at
/// least 1000 in absolute value, and otherwise what `rust_decimal` writes.
pub open spec fn display_text(p: PrettyDecimal) -> Seq<char> {
    if p.format == Some(Format::Comma3Dot) && !below_thousand(p.value) {
        comma3dot_text(p.value, None)
    } else {
        plain_text(p.value)
    }
}

/// A number of at least 1000 in absolute value keeps at least four
/// integral digits when it is rounded, so the comma format can split it,
/// and it stays nonzero.
pub proof fn lemma_comma_fits(v: Decimal, precision: Option<usize>)
    requires
        v.wf(),
        !below_thousand(v),
    ensures
        comma_fits(rounded_for(v, precision)),
        rounded_for(v, precision).magnitude > 0,
        !below_thousand(rounded_for(v, precision)),
        v.scale <= 25,
{
    lemma_scale_of_thousand(v);
    let s = v.scale as nat;
    let m = v.magnitude as nat;
    lemma_pow10_add(3, s);
    reveal_with_fuel(pow10, 4);
    let r = rounded_for(v, precision);
    reveal(round_dp_spec);
    if r != v {
        let p = r.scale as nat;
        let unit = pow10((s - p) as nat);
        lemma_pow10_add((s - p) as nat, p);
        lemma_pow10_positive(p);
        lemma_pow10_positive((s - p) as nat);
        assert(pow10(s) == unit * pow10(p));
        let q = m / unit;
        assert(q >= 1000 * pow10(p)) by (nonlinear_arith)
            requires
                m >= 1000 * (unit * pow10(p)),
                unit >= 1,
                q == m / unit,
        ;
        assert(r.magnitude >= q);
        lemma_pow10_add(3, p);
        lemma_digits_len(r.magnitude as nat, p + 3);
    } else {
        lemma_digits_len(m, s + 3);
    }
    assert(comma_digits(r) == digits_of(r.magnitude as nat));
}

/// How `Display` writes a `PrettyDecimal` under formatting options.
pub enum Rendering {
    /// As `rust_decimal` writes the value, under the same options.
    Decimal,
    /// This text, as it is; width, fill and alignment do not apply.
    Text(String),
    /// These digits, padded to the width as an integer of this sign is
    /// (`Formatter::pad_integral` with an empty prefix).
    Padded { nonnegative: bool, digits: String },
    /// The digits do not fit the 64-byte buffer that padding uses; writing
    /// fails.
    BufferFull,
}

/// The bytes that the padding buffer holds.
pub const PAD_BUFFER_CAPACITY: usize = 64;

/// Whether a `PrettyDecimal` is written in the comma format: only a
/// `Comma3Dot` value of at least 1000 in absolute value is.
pub open spec fn uses_commas(p: PrettyDecimal) -> bool {
    p.format == Some(Format::Comma3Dot) && !below_thousand(p.value)
}

/// A number of at least 1000 in absolute value has a scale of at most 25.
pub proof fn lemma_scale_of_thousand(v: Decimal)
    requires
        v.wf(),
        !below_thousand(v),
    ensures
        v.scale <= 25,
{
    let s = v.scale as nat;
    lemma_pow10_add(3, s);
    reveal_with_fuel(pow10, 30);
    if s > 25 {
        crate::text::lemma_pow10_monotone(29, s + 3);
    }
}

impl PrettyDecimal {
    /// How `Display` writes `self` under a precision, the `+` flag and
    /// whether a width is given. A value in the comma format is rounded to
    /// the precision and padded with zeros to it; without a width it is
    /// written after a `+` when the flag asks for one, and with a width its
    /// absolute value is written to a 64-byte buffer and padded.
    pub fn render(&self, precision: Option<usize>, sign_plus: bool, has_width: bool) -> (r: Rendering)
        requires
            self.value.wf(),
        ensures
            !uses_commas(*self) <==> r is Decimal,
            uses_commas(*self) && !has_width ==> (r matches Rendering::Text(t) && t@ == (if sign_plus {
                seq!['+']
            } else {
                Seq::<char>::empty()
            }) + comma3dot_text(self.value, precision)),
            uses_commas(*self) && has_width && comma3dot_text(self.value.abs_spec(), precision).len()
                <= PAD_BUFFER_CAPACITY ==> (r matches Rendering::Padded { nonnegative, digits }
                && nonnegative == !self.value.negative && digits@ == comma3dot_text(
                self.value.abs_spec(),
                precision,
            )),
            uses_commas(*self) && has_width && comma3dot_text(self.value.abs_spec(), precision).len()
                > PAD_BUFFER_CAPACITY ==> r is BufferFull,
    {
        if self.format != Some(Format::Comma3Dot) || self.value.abs_below_thousand() {
            return Rendering::Decimal;
        }
        if likely(!has_width) {
            let mut w = String::new();
            if unlikely(sign_plus) {
                proof {
                    reveal_strlit("+");
                }
                w.append("+");
            }
            proof {
                lemma_comma_fits(self.value, precision);
            }
            let body = display_comma_3_dot_impl(self.value, precision);
            w.append(body.as_str());
            Rendering::Text(w)
        } else {
            let abs = self.value.abs();
            proof {
                lemma_comma_fits(abs, precision);
            }
            let digits = display_comma_3_dot_impl(abs, precision);
            proof {
                lemma_comma_text_ascii(abs, precision);
            }
            if fits_pad_buffer(digits.as_str()) {
                Rendering::Padded { nonnegative: !self.value.is_sign_negative(), digits }
            } else {
                Rendering::BufferFull
            }
        }
    }

    /// A `PrettyDecimal` whose format is not known.
    #[inline]
    pub fn unformatted(value: Decimal) -> (r: Self)
        ensures
            r == (PrettyDecimal { format: None, value }),
    {
        Self::with_format(value, None)
    }

    /// A `PrettyDecimal` in the plain format.
    #[inline]
    pub fn plain(value: Decimal) -> (r: Self)
        ensures
            r == (PrettyDecimal { format: Some(Format::Plain), value }),
    {
        Self::with_format(value, Some(Format::Plain))
    }

    /// A `PrettyDecimal` in the comma format.
    #[inline]
    pub fn comma3dot(value: Decimal) -> (r: Self)
        ensures
            r == (PrettyDecimal { format: Some(Format::Comma3Dot), value }),
    {
        Self::with_format(value, Some(Format::Comma3Dot))
    }

    /// A `PrettyDecimal` in the given format.
    #[inline]
    pub fn with_format(value: Decimal, format: Option<Format>) -> (r: Self)
        ensures
            r == (PrettyDecimal { format, value }),
    {
        Self { format, value }
    }

    /// The underlying decimal value.
    #[inline]
    pub fn as_decimal(&self) -> (r: &Decimal)
        ensures
            *r == self.value,
    {
        &self.value
    }

    /// The scale of the value.
    pub fn scale(&self) -> (s: u32)
        ensures
            s == self.value.scale,
    {
        self.value.scale()
    }

    /// Rescales the value (see `Decimal::rescale`); the format stays.
    pub fn rescale(&mut self, scale: u32)
        requires
            old(self).value.wf(),
        ensures
            final(self).value == rescale_spec(old(self).value, scale),
            final(self).value.wf(),
            final(self).format == old(self).format,
    {
        self.value.rescale(scale)
    }

    /// Makes the sign of the value positive or negative.
    pub fn set_sign_positive(&mut self, positive: bool)
        ensures
            final(self).value == (Decimal { negative: !positive, ..old(self).value }),
            final(self).format == old(self).format,
    {
        self.value.set_sign_positive(positive)
    }

    /// Whether the sign of the value is positive.
    pub fn is_sign_positive(&self) -> (b: bool)
        ensures
            b == !self.value.negative,
    {
        self.value.is_sign_positive()
    }

    /// The text of the value in its format, as `Display` writes it with no
    /// formatting options.
    pub fn to_string(&self) -> (s: String)
        requires
            self.value.wf(),
            self.value.scale <= DISPLAY_MAX_SCALE,
        ensures
            s@ == display_text(*self),
    {
        match self.format {
            Some(Format::Comma3Dot) => {
                if self.value.abs_below_thousand() {
                    self.value.to_string()
                } else {
                    proof {
                        lemma_comma_fits(self.value, None);
                    }
                    display_comma_3_dot_impl(self.value, None)
                }
            },
            _ => self.value.to_string(),
        }
    }
}

impl core::ops::Neg for PrettyDecimal {
    type Output = Self;

    /// The same format, with the sign of the value flipped.
    fn neg(self) -> (r: Self)
        ensures
            r.format == self.format,
            r.value.negative == !self.value.negative,
            r.value.magnitude == self.value.magnitude,
            r.value.scale == self.value.scale,
    {
        let mut s = self;
        s.set_sign_positive(!s.is_sign_positive());
        s
    }
}

/// Calls `arrayvec::ArrayString::<64>::from`, which, as its source shows,
/// succeeds exactly when the string has at most 64 bytes.
#[verifier::external_body]
fn fits_pad_buffer(s: &str) -> (r: bool)
    ensures
        r == (s.spec_bytes().len() <= PAD_BUFFER_CAPACITY),
{
    arrayvec::ArrayString::<64>::from(s).is_ok()
}

impl From<PrettyDecimal> for Decimal {
    /// The value, without the format.
    #[inline]
    fn from(value: PrettyDecimal) -> (r: Decimal) {
        *value.as_decimal()
    }
}

impl vstd::std_specs::convert::FromSpecImpl<PrettyDecimal> for Decimal {
    open spec fn obeys_from_spec() -> bool {
        true
    }

    open spec fn from_spec(v: PrettyDecimal) -> Decimal {
        v.value
    }
}

impl AsRef<Decimal> for PrettyDecimal {
    fn as_ref(&self) -> (r: &Decimal)
        ensures
            *r == self.value,
    {
        self.as_decimal()
    }
}

impl AsMut<Decimal> for PrettyDecimal {
    fn as_mut(&mut self) -> (r: &mut Decimal)
        ensures
            *r == old(self).value,
            *final(self) == (PrettyDecimal { value: *final(r), ..*old(self) }),
    {
        &mut self.value
    }
}

impl Default for PrettyDecimal {
    /// Zero, with no format.
    fn default() -> (r: Self)
        ensures
            r == (PrettyDecimal { format: None, value: Decimal { negative: false, magnitude: 0, scale: 0 } }),
    {
        PrettyDecimal { format: None, value: Decimal::default() }
    }
}

impl vstd::std_specs::ops::NegSpecImpl for PrettyDecimal {
    open spec fn obeys_neg_spec() -> bool {
        true
    }

    open spec fn neg_req(self) -> bool {
        true
    }

    open spec fn neg_spec(self) -> PrettyDecimal {
        negated(self)
    }
}

/// `p` with the sign of its value flipped; format, magnitude and scale stay.
pub open spec fn negated(p: PrettyDecimal) -> PrettyDecimal {
    PrettyDecimal { value: Decimal { negative: !p.value.negative, ..p.value }, ..p }
}

} // verus!
