//! Writing a `Decimal` with a comma between every group of three integral
//! digits (`1,234,567.89`).

use vstd::prelude::*;
use crate::decimal::{Decimal, MAX_SCALE, round_dp_spec};
use crate::hints::cold;
use crate::text::{digits_of, group3, int_text, is_digit_char, lemma_digits_of, zeros};
use vstd::utf8::is_ascii_chars;

verus! {

/// The digits that the comma format splits: those of the magnitude, as
/// the mantissa is printed without its `-`. A negative zero prints as `-0`,
/// and without its first character nothing is left.
pub open spec fn comma_digits(d: Decimal) -> Seq<char> {
    if d.negative && d.magnitude == 0 {
        Seq::<char>::empty()
    } else {
        digits_of(d.magnitude as nat)
    }
}

/// The value that the comma format writes: `value` rounded to `precision`
/// decimal places when a precision is given (the precision taken as a
/// `u32`, as `rust_decimal::Decimal::round_dp` takes it).
pub open spec fn rounded_for(value: Decimal, precision: Option<usize>) -> Decimal {
    match precision {
        Some(p) => round_dp_spec(value, p as u32),
        None => value,
    }
}

/// The comma format can split the digits: there are at least as many of
/// them as decimal places.
pub open spec fn comma_fits(d: Decimal) -> bool {
    comma_digits(d).len() >= d.scale
}

/// What the comma format writes for `value` and `precision`: a `-` for a
/// negative sign; the integral digits with a comma before every group of
/// three counted from the right; for a positive scale a `.` and the
/// fractional digits; and, when the precision asks for more decimal places
/// than the (rounded) value has, that many more zeros.
pub open spec fn comma3dot_text(value: Decimal, precision: Option<usize>) -> Seq<char> {
    let r = rounded_for(value, precision);
    let ds = comma_digits(r);
    let n = ds.len() - r.scale;
    let sign = if r.negative { seq!['-'] } else { Seq::<char>::empty() };
    let frac = if r.scale > 0 { seq!['.'] + ds.skip(n) } else { Seq::<char>::empty() };
    let pad = match precision {
        Some(p) => if p > r.scale { zeros((p - r.scale) as nat) } else { Seq::<char>::empty() },
        None => Seq::<char>::empty(),
    };
    sign + group3(ds.take(n)) + frac + pad
}

/// `group3` of a string grows by `,` and a group of three when a group of
/// three is added at its end.
pub proof fn lemma_group3_extend(t: Seq<char>, c: Seq<char>)
    requires
        t.len() >= 1,
        c.len() == 3,
    ensures
        group3(t + c) == group3(t) + seq![','] + c,
{
    let s = t + c;
    assert(s.take(s.len() - 3) =~= t);
    assert(s.skip(s.len() - 3) =~= c);
}

/// The text of an integer is ASCII.
pub proof fn lemma_int_text_ascii(n: int)
    ensures
        vstd::utf8::is_ascii_chars(int_text(n)),
{
    let m: nat = if n < 0 { (-n) as nat } else { n as nat };
    lemma_digits_of(m);
    let d = digits_of(m);
    assert forall|i: int| 0 <= i < d.len() implies '\0' <= #[trigger] d[i] <= '\u{7f}' by {
        assert(is_digit_char(d[i]));
    }
    if n < 0 {
        let t = seq!['-'] + d;
        assert forall|i: int| 0 <= i < t.len() implies '\0' <= #[trigger] t[i] <= '\u{7f}' by {
            if i > 0 {
                assert(t[i] == d[i - 1]);
            }
        }
    }
}

/// Appends `digits` (the characters `start .. start + n` of `ms`) to `w`,
/// with a comma before every group of three counted from the right.
fn append_grouped(w: &mut String, ms: &str, start: usize, n: usize)
    requires
        vstd::string::is_ascii(ms),
        start + n <= ms@.len() <= usize::MAX,
    ensures
        final(w)@ == old(w)@ + group3(ms@.subrange(start as int, start + n)),
{
    let ghost prefix = w@;
    let ghost ds = ms@.subrange(start as int, start + n);
    if n == 0 {
        assert(group3(ds) =~= Seq::<char>::empty());
        return;
    }
    let mut done: usize = n % 3;
    if done == 0 {
        done = 3;
    }
    let first = ms.substring_ascii(start, start + done);
    w.append(first);
    assert(ds.take(done as int) =~= first@);
    assert(group3(ds.take(done as int)) == ds.take(done as int));
    while done < n
        invariant
            vstd::string::is_ascii(ms),
            start + n <= ms@.len() <= usize::MAX,
            ds == ms@.subrange(start as int, start + n),
            1 <= done <= n,
            (n - done) % 3 == 0,
            w@ == prefix + group3(ds.take(done as int)),
        decreases n - done,
    {
        proof {
            reveal_strlit(",");
        }
        let ghost before = w@;
        w.append(",");
        let section = ms.substring_ascii(start + done, start + done + 3);
        w.append(section);
        proof {
            assert(ds.take(done + 3) =~= ds.take(done as int) + section@);
            lemma_group3_extend(ds.take(done as int), section@);
            assert(w@ =~= prefix + group3(ds.take(done + 3)));
        }
        done = done + 3;
    }
    assert(ds.take(n as int) =~= ds);
}

/// Appends `n` zeros to `w`.
fn append_zeros(w: &mut String, n: usize)
    ensures
        final(w)@ == old(w)@ + zeros(n as nat),
{
    let ghost prefix = w@;
    for i in 0..n
        invariant
            w@ == prefix + zeros(i as nat),
    {
        proof {
            reveal_strlit("0");
        }
        w.append("0");
        assert(w@ =~= prefix + zeros((i + 1) as nat));
    }
}

/// The printed mantissa, without its `-`, is `comma_digits`.
pub proof fn lemma_mantissa_text(d: Decimal)
    ensures
        int_text(d.mantissa_spec()).skip(if d.negative { 1int } else { 0int }) =~= comma_digits(d),
        int_text(d.mantissa_spec()).len() == comma_digits(d).len() + (if d.negative { 1int } else { 0int }),
{
    lemma_digits_of(d.magnitude as nat);
    if d.negative && d.magnitude == 0 {
        assert(int_text(d.mantissa_spec()) == digits_of(0));
        assert(digits_of(0).len() == 1);
    } else if d.negative {
        let t = seq!['-'] + digits_of(d.magnitude as nat);
        assert(t.skip(1) =~= digits_of(d.magnitude as nat));
    } else {
        assert(digits_of(d.magnitude as nat).skip(0) =~= digits_of(d.magnitude as nat));
    }
}

/// The comma format writes ASCII, one byte for each character.
pub proof fn lemma_comma_text_ascii(value: Decimal, precision: Option<usize>)
    requires
        comma_fits(rounded_for(value, precision)),
    ensures
        vstd::utf8::is_ascii_chars(comma3dot_text(value, precision)),
        vstd::utf8::encode_utf8(comma3dot_text(value, precision)).len() == comma3dot_text(value, precision).len(),
{
    let r = rounded_for(value, precision);
    let ds = comma_digits(r);
    let n = ds.len() - r.scale;
    lemma_digits_of(r.magnitude as nat);
    assert(is_ascii_chars(ds)) by {
        assert forall|i: int| 0 <= i < ds.len() implies '\0' <= #[trigger] ds[i] <= '\u{7f}' by {
            assert(is_digit_char(digits_of(r.magnitude as nat)[i]));
        }
    }
    assert(is_ascii_chars(ds.take(n))) by {
        assert forall|i: int| 0 <= i < ds.take(n).len() implies '\0' <= #[trigger] ds.take(n)[i] <= '\u{7f}' by {
            assert(ds.take(n)[i] == ds[i]);
        }
    }
    assert(is_ascii_chars(ds.skip(n))) by {
        assert forall|i: int| 0 <= i < ds.skip(n).len() implies '\0' <= #[trigger] ds.skip(n)[i] <= '\u{7f}' by {
            assert(ds.skip(n)[i] == ds[i + n]);
        }
    }
    lemma_group3_ascii(ds.take(n));
    let sign = if r.negative { seq!['-'] } else { Seq::<char>::empty() };
    let frac = if r.scale > 0 { seq!['.'] + ds.skip(n) } else { Seq::<char>::empty() };
    let pad = match precision {
        Some(p) => if p > r.scale { zeros((p - r.scale) as nat) } else { Seq::<char>::empty() },
        None => Seq::<char>::empty(),
    };
    assert(is_ascii_chars(sign));
    assert(is_ascii_chars(frac)) by {
        if r.scale > 0 {
            assert forall|i: int| 0 <= i < frac.len() implies '\0' <= #[trigger] frac[i] <= '\u{7f}' by {
                if i > 0 {
                    assert(frac[i] == ds.skip(n)[i - 1]);
                }
            }
        }
    }
    assert(is_ascii_chars(pad));
    let t = sign + group3(ds.take(n)) + frac + pad;
    assert(t == comma3dot_text(value, precision));
    assert(is_ascii_chars(t)) by {
        let a = sign + group3(ds.take(n));
        let b = a + frac;
        vstd::utf8::is_ascii_chars_concat(a, sign, group3(ds.take(n)));
        vstd::utf8::is_ascii_chars_concat(b, a, frac);
        vstd::utf8::is_ascii_chars_concat(t, b, pad);
    }
    vstd::utf8::is_ascii_chars_encode_utf8(t);
}

/// `group3` of an ASCII string is ASCII.
pub proof fn lemma_group3_ascii(s: Seq<char>)
    requires
        is_ascii_chars(s),
    ensures
        is_ascii_chars(group3(s)),
    decreases s.len(),
{
    if s.len() > 3 {
        let head = s.take(s.len() - 3);
        assert(is_ascii_chars(head));
        lemma_group3_ascii(head);
        let t = group3(head) + seq![','] + s.skip(s.len() - 3);
        assert(is_ascii_chars(s.skip(s.len() - 3)));
        assert forall|i: int| 0 <= i < t.len() implies '\0' <= #[trigger] t[i] <= '\u{7f}' by {
            if i < group3(head).len() {
                assert(t[i] == group3(head)[i]);
            } else if i > group3(head).len() {
                assert(t[i] == s.skip(s.len() - 3)[i - group3(head).len() - 1]);
            }
        }
    }
}

/// Writes `value` with a comma between every group of three integral
/// digits, after rounding it to `precision` decimal places when a
/// precision is given and padding the decimal places with zeros up to
/// that precision.
#[verifier::rlimit(50)]
pub fn display_comma_3_dot_impl(value: Decimal, precision: Option<usize>) -> (s: String)
    requires
        value.wf(),
        precision matches Some(p) ==> !(MAX_SCALE < (p as u32) < value.scale),
        comma_fits(rounded_for(value, precision)),
    ensures
        s@ == comma3dot_text(value, precision),
{
    let ghost v0 = value;
    let ghost r = rounded_for(value, precision);
    let mut w = String::new();
    let mut value = value;
    if let Some(p) = precision {
        cold();
        value = value.round_dp(p as u32);
    }
    assert(value == r);
    let mantissa = format_i128(value.mantissa());
    let ms = mantissa.as_str();
    proof {
        lemma_int_text_ascii(value.mantissa_spec());
        lemma_mantissa_text(value);
        reveal_strlit("-");
        reveal_strlit(".");
    }
    let ghost ds = comma_digits(r);
    let len = ms.unicode_len();
    let scale = value.scale() as usize;
    let mut start: usize = 0;
    if value.is_sign_negative() {
        w.append("-");
        start = 1;
    }
    let ghost sign = w@;
    assert(sign == (if r.negative { seq!['-'] } else { Seq::<char>::empty() }));
    assert(ms@.skip(start as int) == ds);
    let n = len - start - scale;
    append_grouped(&mut w, ms, start, n);
    assert(ms@.subrange(start as int, start + n) =~= ds.take(n as int));
    let ghost grouped = w@;
    assert(grouped == sign + group3(ds.take(n as int)));
    let rest = len - start - n;
    if rest > 0 {
        w.append(".");
        let tail = ms.substring_ascii(start + n, len);
        w.append(tail);
        assert(tail@ =~= ds.skip(n as int));
    }
    let ghost framed = w@;
    assert(framed =~= grouped + (if r.scale > 0 { seq!['.'] + ds.skip(n as int) } else { Seq::<char>::empty() }));
    if let Some(p) = precision {
        cold();
        if p > rest {
            append_zeros(&mut w, p - rest);
        }
    }
    assert(w@ =~= comma3dot_text(v0, precision));
    w
}

/// Calls `itoa::Buffer::format` on an `i128`. The crate's documentation
/// says that it prints the integer as a decimal string; its source writes
/// the digits of the absolute value without leading zeros, after a `-`
/// for a negative number.
#[verifier::external_body]
fn format_i128(n: i128) -> (s: String)
    ensures
        s@ == int_text(n as int),
{
    itoa::Buffer::new().format(n).to_owned()
}

} // verus!
