//! The laws of the library: what holds of every value across calls.

use vstd::prelude::*;
use vstd::utf8::{decode_utf8, is_char_boundary, valid_utf8};
use vstd::string::StringSliceAdditionalSpecFns;
use crate::decimal::{Decimal, plain_text, rescale_spec, try_from_i128_with_scale_spec};
use crate::display::{comma3dot_text, lemma_comma_text_ascii, rounded_for};
use crate::text::{group3, pow10};
use crate::parse::{ParseError, parse_spec, scan, scan_overflows};
use crate::pretty::{Format, PrettyDecimal, below_thousand, display_text, lemma_comma_fits, negated, uses_commas};
use crate::roundtrip::{
    ascii_bytes, lemma_ascii_bytes, lemma_comma_text_len, lemma_no_overflow, lemma_plain_text_ascii,
    lemma_scan_comma_text, lemma_scan_plain_text,
};

verus! {

/// The format that reading tells from a written `PrettyDecimal`: commas
/// tell `Comma3Dot`; without them a value of at least 1000 in absolute
/// value tells `Plain`, and a smaller one tells nothing.
pub open spec fn told_format(p: PrettyDecimal) -> Option<Format> {
    if uses_commas(p) {
        Some(Format::Comma3Dot)
    } else if below_thousand(p.value) {
        None
    } else {
        Some(Format::Plain)
    }
}

/// Reading what `to_string` writes gives back the value exactly (sign,
/// magnitude and scale), with the format that the text tells; so a value
/// whose format the text tells comes back unchanged. The value may not be
/// a negative zero, which is written `-0` and read back as a positive zero,
/// nor have a scale above `MAX_SCALE`, which reading refuses.
pub proof fn law_parse_display_roundtrip(p: PrettyDecimal, s: &str, r: Result<PrettyDecimal, ParseError>)
    requires
        p.value.wf(),
        p.value.scale <= crate::decimal::MAX_SCALE,
        !(p.value.negative && p.value.magnitude == 0),
        s@ == display_text(p),
        parse_spec(s, r),
    ensures
        !scan_overflows(s.spec_bytes()),
        r == Ok::<PrettyDecimal, ParseError>(PrettyDecimal { format: told_format(p), value: p.value }),
        p.format == told_format(p) ==> r == Ok::<PrettyDecimal, ParseError>(p),
{
    let v = p.value;
    let t = display_text(p);
    if uses_commas(p) {
        lemma_comma_fits(v, None);
        lemma_comma_text_ascii(v, None);
        lemma_comma_text_len(v);
        lemma_scan_comma_text(v);
    } else {
        lemma_plain_text_ascii(v);
        lemma_scan_plain_text(v);
    }
    lemma_ascii_bytes(t);
    let b = s.spec_bytes();
    assert(b == ascii_bytes(t));
    lemma_no_overflow(b);
    let st = scan(b, b.len())->Ok_0;
    let m = v.magnitude as int;
    assert(st.sign * st.mantissa == v.mantissa_spec()) by {
        if v.negative {
            assert(st.sign == -1);
        }
    }
    let sc = match st.scale {
        Some(x) => x,
        None => 0,
    };
    assert(sc as u32 == v.scale);
    assert(try_from_i128_with_scale_spec(st.sign * st.mantissa, sc as u32) == Ok::<
        Decimal,
        crate::decimal::DecimalError,
    >(v));
}

/// A value below 1000 in absolute value is written the same way in the
/// comma format as in the plain one: there is no comma to put.
pub proof fn law_no_commas_below_thousand(v: Decimal)
    requires
        below_thousand(v),
    ensures
        display_text(PrettyDecimal { format: Some(Format::Comma3Dot), value: v }) == plain_text(v),
{
}

/// `t` with its commas taken out.
pub open spec fn without_commas(t: Seq<char>) -> Seq<char>
    decreases t.len(),
{
    if t.len() == 0 {
        t
    } else if t.last() == ',' {
        without_commas(t.drop_last())
    } else {
        without_commas(t.drop_last()).push(t.last())
    }
}

proof fn lemma_without_commas_concat(a: Seq<char>, b: Seq<char>)
    ensures
        without_commas(a + b) == without_commas(a) + without_commas(b),
    decreases b.len(),
{
    if b.len() == 0 {
        assert(a + b =~= a);
        assert(without_commas(a) + without_commas(b) =~= without_commas(a));
    } else {
        lemma_without_commas_concat(a, b.drop_last());
        assert((a + b).drop_last() =~= a + b.drop_last());
        assert((a + b).last() == b.last());
        if b.last() != ',' {
            assert(without_commas(a) + without_commas(b.drop_last()).push(b.last()) =~= (
            without_commas(a) + without_commas(b.drop_last())).push(b.last()));
        }
    }
}

proof fn lemma_without_commas_none(t: Seq<char>)
    requires
        forall|i: int| 0 <= i < t.len() ==> #[trigger] t[i] != ',',
    ensures
        without_commas(t) == t,
    decreases t.len(),
{
    if t.len() > 0 {
        let t0 = t.drop_last();
        assert forall|i: int| 0 <= i < t0.len() implies #[trigger] t0[i] != ',' by {
            assert(t0[i] == t[i]);
        }
        lemma_without_commas_none(t0);
        assert(t0.push(t.last()) =~= t);
    }
}

proof fn lemma_without_commas_group3(s: Seq<char>)
    requires
        forall|i: int| 0 <= i < s.len() ==> #[trigger] s[i] != ',',
    ensures
        without_commas(group3(s)) == s,
    decreases s.len(),
{
    if s.len() <= 3 {
        lemma_without_commas_none(s);
    } else {
        let head = s.take(s.len() - 3);
        let tail = s.skip(s.len() - 3);
        assert forall|i: int| 0 <= i < head.len() implies #[trigger] head[i] != ',' by {
            assert(head[i] == s[i]);
        }
        assert forall|i: int| 0 <= i < tail.len() implies #[trigger] tail[i] != ',' by {
            assert(tail[i] == s[i + s.len() - 3]);
        }
        lemma_without_commas_group3(head);
        lemma_without_commas_none(tail);
        lemma_without_commas_concat(group3(head) + seq![','], tail);
        lemma_without_commas_concat(group3(head), seq![',']);
        assert(without_commas(seq![',']) =~= Seq::<char>::empty()) by {
            let c = seq![','];
            assert(c.drop_last() =~= Seq::<char>::empty());
            assert(c.last() == ',');
            assert(without_commas(Seq::<char>::empty()) == Seq::<char>::empty());
        }
        assert(head + tail =~= s);
    }
}

/// The comma format differs from what `rust_decimal` writes only by its
/// commas: take them out, and the plain text is left.
pub proof fn law_commas_are_the_only_difference(v: Decimal)
    requires
        v.wf(),
        !below_thousand(v),
    ensures
        without_commas(display_text(PrettyDecimal { format: Some(Format::Comma3Dot), value: v }))
            == display_text(PrettyDecimal { format: Some(Format::Plain), value: v }),
{
    let m = v.magnitude as nat;
    let s = v.scale as nat;
    crate::roundtrip::lemma_below_thousand_digits(m, s);
    crate::text::lemma_pow10_positive(s);
    crate::roundtrip::lemma_padded_digits(m, s + 1);
    crate::text::lemma_digits_of(m);
    let ds = crate::text::digits_of(m);
    let n = ds.len() - s;
    let ip = ds.take(n);
    let sign = crate::roundtrip::sign_text(v.negative);
    let frac = if v.scale > 0 { seq!['.'] + ds.skip(n) } else { Seq::<char>::empty() };
    assert forall|i: int| 0 <= i < ip.len() implies #[trigger] ip[i] != ',' by {
        assert(crate::text::is_digit_char(ds[i]));
        assert(ip[i] == ds[i]);
    }
    assert forall|i: int| 0 <= i < frac.len() implies #[trigger] frac[i] != ',' by {
        if i > 0 {
            assert(frac[i] == ds[n + i - 1]);
            assert(crate::text::is_digit_char(ds[n + i - 1]));
        }
    }
    assert forall|i: int| 0 <= i < sign.len() implies #[trigger] sign[i] != ',' by {}
    assert(comma3dot_text(v, None) == sign + group3(ip) + frac + Seq::<char>::empty());
    assert(comma3dot_text(v, None) =~= sign + group3(ip) + frac);
    assert(plain_text(v) == sign + ip + frac);
    lemma_without_commas_group3(ip);
    lemma_without_commas_none(sign);
    lemma_without_commas_none(frac);
    lemma_without_commas_concat(sign + group3(ip), frac);
    lemma_without_commas_concat(sign, group3(ip));
}

/// Negating twice gives back the same `PrettyDecimal`, and negating a
/// nonnegative one puts a `-` in front of its text, whatever the format.
pub proof fn law_negation(p: PrettyDecimal)
    requires
        p.value.wf(),
    ensures
        negated(negated(p)) == p,
        !p.value.negative ==> display_text(negated(p)) == seq!['-'] + display_text(p),
{
    let q = negated(p);
    if !p.value.negative {
        assert(below_thousand(q.value) == below_thousand(p.value));
        if uses_commas(p) {
            crate::text::lemma_pow10_positive(p.value.scale as nat);
            assert(q.value.magnitude > 0);
            assert(crate::display::comma_digits(q.value) == crate::display::comma_digits(p.value));
            assert(display_text(q) =~= seq!['-'] + display_text(p));
        } else {
            assert(display_text(q) =~= seq!['-'] + display_text(p));
        }
    }
}

/// Asking the comma format for at least as many decimal places as the
/// value has rounds nothing; it pads the decimal places with zeros.
pub proof fn law_precision_pads_with_zeros(v: Decimal, precision: usize)
    requires
        v.wf(),
        !below_thousand(v),
        v.scale <= precision <= u32::MAX,
    ensures
        comma3dot_text(v, Some(precision)) == comma3dot_text(v, None) + crate::text::zeros(
            (precision - v.scale) as nat,
        ),
{
    reveal(crate::decimal::round_dp_spec);
    assert(rounded_for(v, Some(precision)) == v);
    assert(comma3dot_text(v, Some(precision)) =~= comma3dot_text(v, None) + crate::text::zeros(
        (precision - v.scale) as nat,
    ));
}

/// In ASCII text, the character reported at an offset (as the text of an
/// unexpected character) is the one at that offset.
pub proof fn law_char_text_of_ascii(s: &str, i: int)
    requires
        vstd::utf8::is_ascii_chars(s@),
        0 <= i < s@.len(),
    ensures
        crate::parse::char_text(s, i) == seq![s@[i]],
{
    let b = s.spec_bytes();
    lemma_ascii_bytes(s@);
    vstd::utf8::encode_utf8_valid_utf8(s@);
    assert(b[i] == s@[i] as u8);
    if i > 0 {
        vstd::utf8::is_char_boundary_iff_not_is_continuation_byte(b, i);
    }
    assert(crate::parse::boundary_at_or_before(b, i) == i);
    if i + 1 < b.len() {
        vstd::utf8::is_char_boundary_iff_not_is_continuation_byte(b, i + 1);
    }
    assert(crate::parse::boundary_at_or_after(b, i + 1) == i + 1);
    let c = seq![s@[i]];
    assert(vstd::utf8::is_ascii_chars(c)) by {
        assert(c[0] == s@[i]);
    }
    vstd::utf8::is_ascii_chars_encode_utf8(c);
    assert(b.subrange(i, i + 1) =~= vstd::utf8::encode_utf8(c));
    vstd::utf8::encode_utf8_decode_utf8(c);
}

/// Rescaling up to a scale that the magnitude can reach keeps the number
/// and takes exactly that scale, with the magnitude multiplied by the
/// power of ten between the scales; the sign stays.
pub proof fn law_rescale_within_range(d: Decimal, n: u32)
    requires
        d.wf(),
        d.scale <= n,
        (d.magnitude as nat) * pow10((n - d.scale) as nat) <= crate::decimal::MAX_MAGNITUDE,
        d.magnitude > 0 || n <= crate::decimal::MAX_SCALE,
    ensures
        rescale_spec(d, n) == (Decimal {
            magnitude: ((d.magnitude as nat) * pow10((n - d.scale) as nat)) as u128,
            scale: n,
            ..d
        }),
        crate::decimal::same_value(rescale_spec(d, n), d),
{
    let m = d.magnitude as nat;
    let k = (n - d.scale) as nat;
    crate::decimal::lemma_growth(m, k);
    assert(pow10(0) == 1);
    assert(m * pow10(0) == m);
    crate::text::lemma_pow10_add(k, d.scale as nat);
    if m == 0 {
        assert(m * pow10(k) == 0) by (nonlinear_arith)
            requires
                m == 0,
        ;
    }
    let r = rescale_spec(d, n);
    assert(r.magnitude as nat == m * pow10(k));
    assert((r.magnitude as nat) * pow10(d.scale as nat) == m * pow10(n as nat)) by (nonlinear_arith)
        requires
            r.magnitude as nat == m * pow10(k),
            pow10(n as nat) == pow10(k) * pow10(d.scale as nat),
    ;
}

proof fn lemma_boundary_at_or_before(b: Seq<u8>, j: int)
    requires
        0 <= j,
    ensures
        0 <= crate::parse::boundary_at_or_before(b, j) <= j,
        crate::parse::boundary_at_or_before(b, j) == 0 || is_char_boundary(
            b,
            crate::parse::boundary_at_or_before(b, j),
        ),
        forall|x: int|
            crate::parse::boundary_at_or_before(b, j) < x <= j ==> !#[trigger] is_char_boundary(b, x),
    decreases j,
{
    if j > 0 && !is_char_boundary(b, j) {
        lemma_boundary_at_or_before(b, j - 1);
    }
}

proof fn lemma_boundary_at_or_after(b: Seq<u8>, j: int)
    requires
        0 <= j <= b.len(),
    ensures
        j <= crate::parse::boundary_at_or_after(b, j) <= b.len(),
        crate::parse::boundary_at_or_after(b, j) == b.len() || is_char_boundary(
            b,
            crate::parse::boundary_at_or_after(b, j),
        ),
        forall|x: int|
            j <= x < crate::parse::boundary_at_or_after(b, j) ==> !#[trigger] is_char_boundary(b, x),
    decreases b.len() - j,
{
    if j < b.len() && !is_char_boundary(b, j) {
        lemma_boundary_at_or_after(b, j + 1);
    }
}

/// The character reported at a byte offset inside the text (as the text of
/// an unexpected character) is exactly one character: the one whose
/// encoding holds that byte.
pub proof fn law_char_text_is_one_char(s: &str, i: int)
    requires
        0 <= i < s.spec_bytes().len(),
    ensures
        crate::parse::char_text(s, i).len() == 1,
{
    let b = s.spec_bytes();
    vstd::utf8::encode_utf8_valid_utf8(s@);
    vstd::utf8::is_char_boundary_start_end_of_seq(b);
    let begin = crate::parse::boundary_at_or_before(b, i);
    let end = crate::parse::boundary_at_or_after(b, i + 1);
    lemma_boundary_at_or_before(b, i);
    lemma_boundary_at_or_after(b, i + 1);
    assert(is_char_boundary(b, begin));
    vstd::utf8::valid_utf8_split(b, begin);
    let sub = b.subrange(begin, b.len() as int);
    assert(valid_utf8(sub));
    assert(sub.len() > 0);
    assert(vstd::utf8::valid_first_scalar(sub));
    let l = vstd::utf8::length_of_first_scalar(sub);
    assert(1 <= l <= 4 && l <= sub.len());
    assert forall|x: int| begin < x < begin + l implies !#[trigger] is_char_boundary(b, x) by {
        assert(b[x] == sub[x - begin]);
        assert(vstd::utf8::is_continuation_byte(sub[x - begin]));
        vstd::utf8::is_char_boundary_iff_not_is_continuation_byte(b, x);
    }
    if begin + l < b.len() {
        let rest = vstd::utf8::pop_first_scalar(sub);
        assert(valid_utf8(rest));
        assert(rest.len() > 0);
        assert(vstd::utf8::valid_first_scalar(rest));
        assert(rest[0] == b[begin + l]);
        assert(!vstd::utf8::is_continuation_byte(b[begin + l]));
        vstd::utf8::is_char_boundary_iff_not_is_continuation_byte(b, begin + l);
    }
    if begin + l <= i {
        assert(!is_char_boundary(b, begin + l));
    }
    assert(end == begin + l);
    let x = b.subrange(begin, end);
    assert(x =~= sub.subrange(0, l));
    assert(vstd::utf8::valid_first_scalar(x));
    assert(vstd::utf8::length_of_first_scalar(x) == l);
    assert(vstd::utf8::pop_first_scalar(x) =~= Seq::<u8>::empty());
    assert(valid_utf8(Seq::<u8>::empty()));
    assert(valid_utf8(x));
    assert(decode_utf8(Seq::<u8>::empty()) =~= Seq::<char>::empty());
}

/// The comma format of a negative number of at least 1 in absolute value
/// is a `-` and the comma format of its absolute value, whatever the
/// precision: rounding never takes such a number to zero.
pub proof fn law_comma_text_of_negative(v: Decimal, precision: Option<usize>)
    requires
        v.wf(),
        v.negative,
        v.magnitude >= pow10(v.scale as nat),
    ensures
        comma3dot_text(v, precision) == seq!['-'] + comma3dot_text(v.abs_spec(), precision),
{
    reveal(crate::decimal::round_dp_spec);
    let a = v.abs_spec();
    let r = rounded_for(v, precision);
    let ra = rounded_for(a, precision);
    crate::text::lemma_pow10_positive(v.scale as nat);
    if let Some(p) = precision {
        let dp = p as u32;
        if v.scale > dp {
            let diff = (v.scale - dp) as nat;
            let m = v.magnitude as nat;
            let unit = pow10(diff);
            crate::text::lemma_pow10_add(diff, dp as nat);
            crate::text::lemma_pow10_positive(dp as nat);
            crate::text::lemma_pow10_positive(diff);
            assert(m / unit >= 1) by (nonlinear_arith)
                requires
                    m >= unit * pow10(dp as nat),
                    pow10(dp as nat) >= 1,
                    unit >= 1,
            ;
        }
    }
    assert(r.magnitude == ra.magnitude && r.scale == ra.scale);
    assert(r.magnitude > 0);
    assert(r.negative && !ra.negative);
    assert(crate::display::comma_digits(r) == crate::display::comma_digits(ra));
    assert(comma3dot_text(v, precision) =~= seq!['-'] + comma3dot_text(a, precision));
}

/// Under no formatting options, `render` writes what `to_string` writes:
/// the comma text itself, or what `rust_decimal` writes for the value.
pub proof fn law_render_without_options_is_to_string(p: PrettyDecimal)
    ensures
        uses_commas(p) ==> comma3dot_text(p.value, None) == display_text(p),
        !uses_commas(p) ==> plain_text(p.value) == display_text(p),
{
}

/// A value in the plain format and one whose format is not known are
/// written alike: as `rust_decimal` writes them.
pub proof fn law_plain_is_unformatted(v: Decimal)
    ensures
        display_text(PrettyDecimal { format: Some(Format::Plain), value: v }) == plain_text(v),
        display_text(PrettyDecimal { format: None, value: v }) == plain_text(v),
{
}


/// Equality compares numbers: `a == b` exactly when the signed mantissas,
/// brought to a common scale, are equal (`a.mantissa * 10^b.scale ==
/// b.mantissa * 10^a.scale`). So it keeps signs apart: two numbers that
/// are not both zero are equal only with the same sign, and a number equals
/// its negation only when it is zero.
pub proof fn law_equality_is_numeric(a: Decimal, b: Decimal)
    ensures
        crate::decimal::same_value(a, b) <==> a.mantissa_spec() * pow10(b.scale as nat)
            == b.mantissa_spec() * pow10(a.scale as nat),
        (a.magnitude > 0 || b.magnitude > 0) && crate::decimal::same_value(a, b) ==> a.negative
            == b.negative,
        crate::decimal::same_value(a, Decimal { negative: !a.negative, ..a }) <==> a.magnitude == 0,
{
    let ma = a.magnitude as int;
    let mb = b.magnitude as int;
    let pa = pow10(a.scale as nat) as int;
    let pb = pow10(b.scale as nat) as int;
    crate::text::lemma_pow10_positive(a.scale as nat);
    crate::text::lemma_pow10_positive(b.scale as nat);
    assert(ma * pb >= 0 && mb * pa >= 0) by (nonlinear_arith)
        requires
            ma >= 0,
            mb >= 0,
            pa >= 1,
            pb >= 1,
    ;
    assert(ma * pb == 0 <==> ma == 0) by (nonlinear_arith)
        requires
            ma >= 0,
            pb >= 1,
    ;
    assert(mb * pa == 0 <==> mb == 0) by (nonlinear_arith)
        requires
            mb >= 0,
            pa >= 1,
    ;
    assert((-ma) * pb == -(ma * pb)) by (nonlinear_arith);
    assert((-mb) * pa == -(mb * pa)) by (nonlinear_arith);
    assert(ma * pa == 0 <==> ma == 0) by (nonlinear_arith)
        requires
            ma >= 0,
            pa >= 1,
    ;
}

/// Negation keeps the format and flips only the sign of the value: the
/// magnitude and scale stay. So the negation of a value in some format is
/// that format with the negated value (`-plain(x) == plain(-x)`).
pub proof fn law_negation_keeps_format(p: PrettyDecimal)
    ensures
        negated(p).format == p.format,
        negated(p).value.negative == !p.value.negative,
        negated(p).value.magnitude == p.value.magnitude,
        negated(p).value.scale == p.value.scale,
{
}

/// `group3` of digits holds no decimal point.
proof fn lemma_group3_no_point(s: Seq<char>)
    requires
        crate::roundtrip::all_digits(s),
    ensures
        forall|i: int| 0 <= i < group3(s).len() ==> #[trigger] group3(s)[i] != '.',
    decreases s.len(),
{
    if s.len() <= 3 {
        assert forall|i: int| 0 <= i < group3(s).len() implies #[trigger] group3(s)[i] != '.' by {
            assert(crate::text::is_digit_char(s[i]));
        }
    } else {
        let head = s.take(s.len() - 3);
        let tail = s.skip(s.len() - 3);
        crate::roundtrip::lemma_all_digits_split(s, s.len() - 3);
        lemma_group3_no_point(head);
        let t = group3(head) + seq![','] + tail;
        assert(group3(s) == t);
        assert forall|i: int| 0 <= i < t.len() implies #[trigger] t[i] != '.' by {
            if i < group3(head).len() {
                assert(t[i] == group3(head)[i]);
            } else if i > group3(head).len() {
                assert(t[i] == tail[i - group3(head).len() - 1]);
                assert(crate::text::is_digit_char(tail[i - group3(head).len() - 1]));
            }
        }
    }
}

/// Rounding to `dp` decimal places takes the nearest number of that
/// scale: the result has scale `dp` and lies within half a unit of the
/// last kept place (`10^-dp`) of the number, with its sign unless it is
/// zero. It holds while fewer than 30 digits are dropped; `rust_decimal`
/// builds the midpoint in 96 bits, and it wraps beyond that.
pub proof fn law_round_dp_is_nearest(d: Decimal, dp: u32)
    requires
        d.wf(),
        dp < d.scale,
        d.scale - dp <= 29,
    ensures
        crate::decimal::round_dp_spec(d, dp).scale == dp,
        ({
            let r = crate::decimal::round_dp_spec(d, dp);
            let unit = pow10((d.scale - dp) as nat) as int;
            let gap = (r.magnitude as int) * unit - (d.magnitude as int);
            -unit <= 2 * gap <= unit
        }),
        crate::decimal::round_dp_spec(d, dp).magnitude > 0 ==> crate::decimal::round_dp_spec(d, dp).negative
            == d.negative,
{
    reveal(crate::decimal::round_dp_spec);
    let k = (d.scale - dp) as nat;
    let unit = pow10(k);
    let m = d.magnitude as nat;
    crate::text::lemma_pow10_positive(k);
    if m > 0 {
        crate::decimal::lemma_pow10_bound((k - 1) as nat);
        assert(unit == 10 * pow10((k - 1) as nat));
        let h = 5 * pow10((k - 1) as nat);
        vstd::arithmetic::div_mod::lemma_small_mod(h, 0x1_0000_0000_0000_0000_0000_0000);
        assert(crate::decimal::round_midpoint(k) == h);
        let q = m / unit;
        let rr = m % unit;
        vstd::arithmetic::div_mod::lemma_fundamental_div_mod(m as int, unit as int);
        assert(m == unit * q + rr);
        assert(rr < unit);
        assert(q <= m) by (nonlinear_arith)
            requires
                m == unit * q + rr,
                unit >= 1,
                rr >= 0,
        ;
        let q2: nat = if rr > h || (rr == h && q % 2 == 1) {
            q + 1
        } else {
            q
        };
        let r = crate::decimal::round_dp_spec(d, dp);
        assert(r.magnitude == q2);
        assert(2 * h == unit);
        let gap = (q2 as int) * (unit as int) - (m as int);
        if q2 == q + 1 {
            assert(gap == (unit as int) - (rr as int)) by (nonlinear_arith)
                requires
                    m == unit * q + rr,
                    gap == (q2 as int) * (unit as int) - (m as int),
                    q2 == q + 1,
            ;
        } else {
            assert(gap == -(rr as int)) by (nonlinear_arith)
                requires
                    m == unit * q + rr,
                    gap == (q2 as int) * (unit as int) - (m as int),
                    q2 == q,
            ;
        }
        assert(-(unit as int) <= 2 * gap <= unit as int);
    } else {
        let r = crate::decimal::round_dp_spec(d, dp);
        assert(r.magnitude == 0);
        assert((r.magnitude as int) * (unit as int) == 0);
    }
}

/// Under a precision below the scale, the comma format writes the number
/// rounded to that many decimal places (`round_dp`, half to even): the
/// comma text of the rounded number, with exactly `precision` digits after
/// the decimal point, and no point for a precision of zero. (For a
/// precision at or above the scale see `law_precision_pads_with_zeros`.)
pub proof fn law_precision_rounds(v: Decimal, precision: usize)
    requires
        v.wf(),
        !below_thousand(v),
        precision < v.scale,
    ensures
        comma3dot_text(v, Some(precision)) == comma3dot_text(
            crate::decimal::round_dp_spec(v, precision as u32),
            None,
        ),
        crate::decimal::round_dp_spec(v, precision as u32).scale == precision,
        ({
            let t = comma3dot_text(v, Some(precision));
            precision > 0 ==> t.len() > precision && t[t.len() - precision - 1] == '.'
                && crate::roundtrip::all_digits(t.skip(t.len() - precision))
        }),
        precision == 0 ==> forall|i: int|
            0 <= i < comma3dot_text(v, Some(precision)).len() ==> #[trigger] comma3dot_text(
                v,
                Some(precision),
            )[i] != '.',
{
    reveal(crate::decimal::round_dp_spec);
    lemma_comma_fits(v, Some(precision));
    let r = rounded_for(v, Some(precision));
    assert(r == crate::decimal::round_dp_spec(v, precision as u32));
    assert(r.scale == precision);
    let ds = crate::display::comma_digits(r);
    assert(ds == crate::text::digits_of(r.magnitude as nat));
    crate::text::lemma_digits_of(r.magnitude as nat);
    let n = ds.len() - r.scale;
    let sign = if r.negative { seq!['-'] } else { Seq::<char>::empty() };
    let frac = if r.scale > 0 { seq!['.'] + ds.skip(n) } else { Seq::<char>::empty() };
    let t = comma3dot_text(v, Some(precision));
    assert(t == sign + group3(ds.take(n)) + frac + Seq::<char>::empty());
    assert(comma3dot_text(r, None) == sign + group3(ds.take(n)) + frac + Seq::<char>::empty());
    crate::roundtrip::lemma_all_digits_split(ds, n);
    if precision > 0 {
        let head = sign + group3(ds.take(n));
        assert(t =~= head + seq!['.'] + ds.skip(n));
        assert(t.len() - precision - 1 == head.len());
        assert(t[head.len() as int] == '.');
        assert(t.skip(t.len() - precision) =~= ds.skip(n));
    } else {
        lemma_group3_no_point(ds.take(n));
        assert(t =~= sign + group3(ds.take(n)));
        assert forall|i: int| 0 <= i < t.len() implies #[trigger] t[i] != '.' by {
            if i >= sign.len() {
                assert(t[i] == group3(ds.take(n))[i - sign.len()]);
            }
        }
    }
}

/// The bytes of `+` followed by a text are `43` followed by its bytes, and
/// the text's bytes start with no sign when its characters do not.
proof fn lemma_plus_bytes(s1: &str, s2: &str)
    requires
        s1@ == seq!['+'] + s2@,
        s2@.len() > 0 ==> s2@[0] != '+' && s2@[0] != '-',
    ensures
        s1.spec_bytes() == seq![43u8] + s2.spec_bytes(),
        s2.spec_bytes().len() > 0 ==> s2.spec_bytes()[0] != 43 && s2.spec_bytes()[0] != 45,
{
    let c1 = s1@;
    let b2 = s2.spec_bytes();
    assert(c1[0] == '+');
    assert(c1.drop_first() =~= s2@);
    assert(43u32 & 0x7Fu32 == 43u32) by (bit_vector);
    assert(vstd::utf8::encode_scalar(c1[0] as u32) =~= seq![43u8]);
    assert(s1.spec_bytes() =~= seq![43u8] + b2);
    if b2.len() > 0 {
        assert(s2@.len() > 0);
        vstd::utf8::encode_utf8_first_scalar(s2@);
        let c = s2@[0];
        if b2[0] == 43 || b2[0] == 45 {
            assert(43u8 & 0x7Fu8 == 43u8 && 45u8 & 0x7Fu8 == 45u8) by (bit_vector);
            assert(vstd::utf8::decode_first_scalar(b2) == b2[0] as u32);
            vstd::utf8::char_u32_cast(c, b2[0] as u32);
            vstd::utf8::char_u32_cast('+', 43u32);
            vstd::utf8::char_u32_cast('-', 45u32);
        }
    }
}

/// A leading `+` is only a sign: reading `+` followed by a text that does
/// not start with a sign gives what reading the text alone gives (the same
/// value with its sign, magnitude and scale, in the same format, or the
/// same error), with the offset of an error one byte later; and one of the
/// two readings overflows exactly when the other does.
pub proof fn law_plus_sign_is_only_a_sign(
    s1: &str,
    s2: &str,
    r1: Result<PrettyDecimal, ParseError>,
    r2: Result<PrettyDecimal, ParseError>,
)
    requires
        s1@ == seq!['+'] + s2@,
        s2@.len() > 0 ==> s2@[0] != '+' && s2@[0] != '-',
        s1.spec_bytes().len() <= usize::MAX,
        parse_spec(s1, r1),
        parse_spec(s2, r2),
    ensures
        scan_overflows(s1.spec_bytes()) == scan_overflows(s2.spec_bytes()),
        r1 is Ok <==> r2 is Ok,
        r2 is Ok ==> r1 == r2,
        r2 matches Err(ParseError::InvalidDecimal(_)) ==> r1 == r2,
        r2 matches Err(ParseError::CommaRequired(i)) ==> r1 == Err::<PrettyDecimal, ParseError>(
            ParseError::CommaRequired((i + 1) as usize),
        ),
        r2 matches Err(ParseError::UnexpectedChar(t, i)) ==> (r1 matches Err(
            ParseError::UnexpectedChar(t1, j),
        ) && j == i + 1 && t1@ == t@),
{
    let b1 = s1.spec_bytes();
    let b2 = s2.spec_bytes();
    lemma_plus_bytes(s1, s2);
    crate::roundtrip::lemma_scan_after_plus(b1, b2, b2.len());
    assert(b1.len() == b2.len() + 1);
    if scan_overflows(b1) {
        let k = choose|k: nat| k <= b1.len() && (#[trigger] scan(b1, k) matches Ok(st)
            && crate::parse::state_overflows(st));
        assert(scan(b1, 0) == Ok::<crate::parse::ScanState, crate::parse::ScanStop>(
            crate::parse::scan_start(),
        ));
        assert(k > 0);
        crate::roundtrip::lemma_scan_after_plus(b1, b2, (k - 1) as nat);
        assert(scan(b2, (k - 1) as nat) matches Ok(st) && crate::parse::state_overflows(st));
    }
    if scan_overflows(b2) {
        let k = choose|k: nat| k <= b2.len() && (#[trigger] scan(b2, k) matches Ok(st)
            && crate::parse::state_overflows(st));
        crate::roundtrip::lemma_scan_after_plus(b1, b2, k);
        assert(scan(b1, k + 1) matches Ok(st) && crate::parse::state_overflows(st));
    }
    lemma_scan_stop_offset(b2, b2.len());
    if let Err(crate::parse::ScanStop::Unexpected(i)) = scan(b2, b2.len()) {
        vstd::utf8::encode_utf8_valid_utf8(s1@);
        vstd::utf8::encode_utf8_valid_utf8(s2@);
        vstd::utf8::is_char_boundary_start_end_of_seq(b2);
        crate::roundtrip::lemma_boundaries_after_ascii(b1, b2, 43u8);
        crate::roundtrip::lemma_boundary_before_shift(b1, b2, i);
        crate::roundtrip::lemma_boundary_after_shift(b1, b2, i + 1);
        let x = crate::parse::boundary_at_or_before(b2, i);
        let y = crate::parse::boundary_at_or_after(b2, i + 1);
        lemma_boundary_at_or_before(b2, i);
        lemma_boundary_at_or_after(b2, i + 1);
        assert(b1.subrange(x + 1, y + 1) =~= b2.subrange(x, y));
        assert(crate::parse::char_text(s1, i + 1) == crate::parse::char_text(s2, i));
    }
}

/// Reading stops, if it does, at an offset within what was read.
proof fn lemma_scan_stop_offset(b: Seq<u8>, n: nat)
    ensures
        scan(b, n) matches Err(crate::parse::ScanStop::Unexpected(i)) ==> 0 <= i < n,
        scan(b, n) matches Err(crate::parse::ScanStop::CommaRequired(i)) ==> 0 <= i < n,
    decreases n,
{
    if n > 0 {
        lemma_scan_stop_offset(b, (n - 1) as nat);
    }
}

/// An integer with an optional sign (`+`, `-` or none) and no decimal
/// point reads as the value of its digits with scale 0, negative only for
/// a `-` before a nonzero value; its format is `Plain` from 1000 on and not
/// known below.
pub proof fn law_signed_integer_reads_its_digits(
    s: &str,
    sign: Seq<char>,
    digits: Seq<char>,
    r: Result<PrettyDecimal, ParseError>,
)
    requires
        s@ == sign + digits,
        sign == Seq::<char>::empty() || sign == seq!['+'] || sign == seq!['-'],
        digits.len() > 0,
        crate::roundtrip::all_digits(digits),
        crate::text::digits_value(digits) <= crate::decimal::MAX_MAGNITUDE,
        parse_spec(s, r),
    ensures
        r == Ok::<PrettyDecimal, ParseError>(
            PrettyDecimal {
                format: if crate::text::digits_value(digits) < 1000 {
                    None
                } else {
                    Some(Format::Plain)
                },
                value: Decimal {
                    negative: sign == seq!['-'] && crate::text::digits_value(digits) > 0,
                    magnitude: crate::text::digits_value(digits) as u128,
                    scale: 0,
                },
            },
        ),
{
    let t = s@;
    let v = crate::text::digits_value(digits);
    crate::roundtrip::lemma_digits_ascii(digits);
    assert(vstd::utf8::is_ascii_chars(sign)) by {
        if sign.len() > 0 {
            assert(sign[0] == '+' || sign[0] == '-');
        }
    }
    vstd::utf8::is_ascii_chars_concat(t, sign, digits);
    lemma_ascii_bytes(t);
    let b = s.spec_bytes();
    assert(b == ascii_bytes(t));
    let p = sign.len();
    assert(scan(b, 0) == Ok::<crate::parse::ScanState, crate::parse::ScanStop>(
        crate::parse::scan_start(),
    ));
    let st0 = crate::parse::ScanState {
        prefix_len: p as int,
        sign: if sign == seq!['-'] { -1 } else { 1 },
        ..crate::parse::scan_start()
    };
    if p > 0 {
        assert(b[0] == t[0] as u8);
        assert(t[0] == sign[0]);
        assert(scan(b, 1) == crate::parse::scan_step(crate::parse::scan_start(), 0, b[0]));
    }
    assert(scan(b, p) == Ok::<crate::parse::ScanState, crate::parse::ScanStop>(st0));
    assert(crate::roundtrip::holds_at(b, p as int, digits)) by {
        assert forall|i: int| 0 <= i < digits.len() implies b[p + i] == #[trigger] digits[i] as u8 by {
            assert(t[p + i] == digits[i]);
        }
    }
    crate::roundtrip::lemma_scan_digit_run(b, p, digits, st0);
    assert(0 * pow10(digits.len()) == 0) by (nonlinear_arith);
    assert(b.len() == p + digits.len());
    let st = scan(b, b.len())->Ok_0;
    assert(st.mantissa == v && st.scale is None && st.format is None);
    let negative = sign == seq!['-'];
    let num: int = if negative { -v } else { v as int };
    assert(st.sign * st.mantissa == num) by {
        if negative {
            assert(st.sign == -1);
        } else {
            assert(st.sign == 1);
        }
    }
    let d = Decimal { negative: negative && v > 0, magnitude: v as u128, scale: 0 };
    assert(try_from_i128_with_scale_spec(num, 0) == Ok::<Decimal, crate::decimal::DecimalError>(d));
    assert(pow10(0) == 1);
    assert(below_thousand(d) == (v < 1000));
}

/// The number that the digit bytes of `b` make, read in order, whatever
/// bytes stand between them.
pub open spec fn digits_in(b: Seq<u8>) -> nat
    decreases b.len(),
{
    if b.len() == 0 {
        0
    } else if crate::parse::is_digit_byte(b.last()) {
        10 * digits_in(b.drop_last()) + (b.last() - 48) as nat
    } else {
        digits_in(b.drop_last())
    }
}

/// The number of digit bytes after the last `.` of `b`, or `None` when
/// `b` has no `.`.
pub open spec fn places_after_point(b: Seq<u8>) -> Option<int>
    decreases b.len(),
{
    if b.len() == 0 {
        None
    } else if b.last() == 46 {
        Some(0)
    } else if crate::parse::is_digit_byte(b.last()) {
        match places_after_point(b.drop_last()) {
            Some(x) => Some(x + 1),
            None => None,
        }
    } else {
        places_after_point(b.drop_last())
    }
}

/// While reading goes on, the mantissa is the number that the digits read
/// make, the decimal places are the digits read after the last `.`, and
/// the sign is negative exactly after a leading `-`.
proof fn lemma_scan_reads_digits(b: Seq<u8>, k: nat)
    requires
        k <= b.len(),
        scan(b, k) is Ok,
    ensures
        scan(b, k)->Ok_0.mantissa == digits_in(b.take(k as int)),
        scan(b, k)->Ok_0.scale == places_after_point(b.take(k as int)),
        scan(b, k)->Ok_0.sign == (if k > 0 && b[0] == 45 { -1int } else { 1int }),
    decreases k,
{
    if k == 0 {
        assert(b.take(0) =~= Seq::<u8>::empty());
    } else {
        if scan(b, (k - 1) as nat) is Err {
            crate::parse::lemma_scan_stays_stopped(b, (k - 1) as nat, k);
        }
        lemma_scan_reads_digits(b, (k - 1) as nat);
        let t = b.take(k as int);
        assert(t.drop_last() =~= b.take(k - 1));
        assert(t.last() == b[k - 1]);
        if k > 1 {
            assert(b.take(k - 1)[0] == b[0]);
        }
    }
}

/// What reading gives is made of the digits of the text: the magnitude is
/// the number that all its digits make in order (signs, commas and points
/// left out), the scale is the count of digits after the last `.` (0
/// without one), and the value is negative exactly when the text starts
/// with `-` and the magnitude is not zero. (That is what `from_str` reads,
/// on the texts whose digits it can hold.)
pub proof fn law_read_value_is_its_digits(s: &str, r: Result<PrettyDecimal, ParseError>)
    requires
        !scan_overflows(s.spec_bytes()),
        parse_spec(s, r),
    ensures
        r matches Ok(p) ==> ({
            let b = s.spec_bytes();
            &&& p.value.magnitude == digits_in(b)
            &&& p.value.scale == (match places_after_point(b) {
                Some(x) => x,
                None => 0,
            })
            &&& p.value.negative == (b.len() > 0 && b[0] == 45 && digits_in(b) > 0)
        }),
{
    let b = s.spec_bytes();
    if r is Ok {
        assert(scan(b, b.len()) is Ok);
        lemma_scan_reads_digits(b, b.len());
        assert(b.take(b.len() as int) =~= b);
        crate::roundtrip::lemma_scan_state_bounds(b, b.len());
        let st = scan(b, b.len())->Ok_0;
        assert(!(scan(b, b.len()) matches Ok(st) && crate::parse::state_overflows(st)));
        let sc: int = match st.scale {
            Some(x) => x,
            None => 0,
        };
        let num = st.sign * st.mantissa;
        assert(num == (if st.sign == -1 { -st.mantissa } else { st.mantissa })) by {
            if st.sign == -1 {
                assert((-1) * st.mantissa == -st.mantissa);
            } else {
                assert(1 * st.mantissa == st.mantissa);
            }
        }
        assert(try_from_i128_with_scale_spec(num, sc as u32) is Ok);
        assert(sc as u32 == sc);
        let d = try_from_i128_with_scale_spec(num, sc as u32)->Ok_0;
        assert(d == Decimal::from_mantissa(num, sc as u32));
        assert(d.magnitude == st.mantissa);
        assert(d.negative == (st.sign == -1 && st.mantissa > 0));
    }
}

} // verus!
