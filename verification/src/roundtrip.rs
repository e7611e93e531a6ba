//! What reading gives back of what writing wrote: the scanning facts about
//! texts made of digits, commas and a decimal point.

use vstd::prelude::*;
use crate::parse::{ScanState, ScanStop, scan, scan_step, scan_start, aligned_comma};
use crate::pretty::Format;
use crate::text::{
    digits_value, group3, is_digit_char, char_digit, pow10, lemma_pow10_add, zeros, digits_of,
    padded_digits, lemma_digits_of, lemma_digits_len, lemma_pow10_positive,
};
use crate::decimal::{Decimal, plain_text};
use crate::display::{comma3dot_text, comma_digits};
use crate::pretty::below_thousand;
use vstd::utf8::{encode_utf8, is_ascii_chars};

verus! {

/// Every character of `t` is a decimal digit.
pub open spec fn all_digits(t: Seq<char>) -> bool {
    forall|i: int| 0 <= i < t.len() ==> #[trigger] is_digit_char(t[i])
}

/// `b` holds the characters of `t`, one byte each, from offset `start` on.
pub open spec fn holds_at(b: Seq<u8>, start: int, t: Seq<char>) -> bool {
    &&& 0 <= start
    &&& start + t.len() <= b.len()
    &&& forall|i: int| 0 <= i < t.len() ==> b[start + i] == #[trigger] t[i] as u8
}

/// The value of digits written after others: `value(a + c) == value(a) *
/// 10^|c| + value(c)`.
pub proof fn lemma_digits_value_concat(a: Seq<char>, c: Seq<char>)
    ensures
        digits_value(a + c) == digits_value(a) * pow10(c.len()) + digits_value(c),
    decreases c.len(),
{
    if c.len() == 0 {
        assert(a + c =~= a);
        assert(digits_value(c) == 0);
        assert(pow10(0) == 1);
        assert(digits_value(a) * 1 == digits_value(a));
    } else {
        let c0 = c.drop_last();
        lemma_digits_value_concat(a, c0);
        assert((a + c).drop_last() =~= a + c0);
        assert((a + c).last() == c.last());
        let va = digits_value(a);
        let p = pow10(c0.len());
        assert(pow10(c.len()) == 10 * p);
        assert(10 * (va * p + digits_value(c0)) + char_digit(c.last()) == va * (10 * p) + (10
            * digits_value(c0) + char_digit(c.last()))) by (nonlinear_arith);
    }
}

/// Reading a run of digits: each is added to the mantissa and counted as a
/// decimal place once a point was read.
pub proof fn lemma_scan_digit_run(b: Seq<u8>, start: nat, t: Seq<char>, st: ScanState)
    requires
        scan(b, start) == Ok::<ScanState, ScanStop>(st),
        holds_at(b, start as int, t),
        all_digits(t),
        st.comma_pos matches Some(c) ==> !(start <= c < start + t.len()),
    ensures
        scan(b, start + t.len()) == Ok::<ScanState, ScanStop>(
            ScanState {
                mantissa: st.mantissa * pow10(t.len()) + digits_value(t),
                scale: match st.scale {
                    Some(x) => Some(x + t.len()),
                    None => None,
                },
                ..st
            },
        ),
    decreases t.len(),
{
    if t.len() == 0 {
        assert(pow10(0) == 1);
        assert(st.mantissa * 1 == st.mantissa);
    } else {
        let t0 = t.drop_last();
        assert forall|i: int| 0 <= i < t0.len() implies b[start + i] == #[trigger] t0[i] as u8 by {
            assert(t0[i] == t[i]);
        }
        assert forall|i: int| 0 <= i < t0.len() implies #[trigger] is_digit_char(t0[i]) by {
            assert(t0[i] == t[i]);
        }
        lemma_scan_digit_run(b, start, t0, st);
        let k = (start + t0.len()) as nat;
        let c = b[k as int];
        assert(c == t.last() as u8);
        assert(is_digit_char(t[t.len() - 1]));
        assert(st.comma_pos != Some((start + t0.len()) as int));
        assert(scan(b, k + 1) == scan_step(scan(b, k)->Ok_0, k as int, c));
        let m0 = st.mantissa;
        let p = pow10(t0.len());
        assert(pow10(t.len()) == 10 * p);
        assert(digits_value(t) == 10 * digits_value(t0) + char_digit(t.last()));
        assert(char_digit(t.last()) == c - 48);
        assert((m0 * p + digits_value(t0)) * 10 + (c - 48) == m0 * (10 * p) + (10 * digits_value(
            t0,
        ) + (c - 48))) by (nonlinear_arith);
    }
}

/// Reading digits grouped by threes with commas between the groups, from
/// a state where nothing but a sign was read: the mantissa grows by their
/// value, the format becomes `Comma3Dot` once a comma is read, and after
/// a comma the next one is due right after the last group.
pub proof fn lemma_scan_group3(b: Seq<u8>, p: nat, s: Seq<char>, st0: ScanState)
    requires
        scan(b, p) == Ok::<ScanState, ScanStop>(st0),
        st0.comma_pos is None,
        st0.format is None,
        st0.scale is None,
        st0.prefix_len == p,
        s.len() >= 1,
        all_digits(s),
        holds_at(b, p as int, group3(s)),
    ensures
        scan(b, p + group3(s).len()) == Ok::<ScanState, ScanStop>(
            ScanState {
                comma_pos: if s.len() > 3 {
                    Some((p + group3(s).len()) as int)
                } else {
                    None
                },
                format: if s.len() > 3 {
                    Some(Format::Comma3Dot)
                } else {
                    None
                },
                mantissa: st0.mantissa * pow10(s.len()) + digits_value(s),
                ..st0
            },
        ),
        group3(s).len() == s.len() + (s.len() - 1) / 3,
    decreases s.len(),
{
    if s.len() <= 3 {
        lemma_scan_digit_run(b, p, s, st0);
    } else {
        let head = s.take(s.len() - 3);
        let tail = s.skip(s.len() - 3);
        let gh = group3(head);
        assert(group3(s) == gh + seq![','] + tail);
        assert(all_digits(head)) by {
            assert forall|i: int| 0 <= i < head.len() implies #[trigger] is_digit_char(head[i]) by {
                assert(head[i] == s[i]);
            }
        }
        assert(all_digits(tail)) by {
            assert forall|i: int| 0 <= i < tail.len() implies #[trigger] is_digit_char(tail[i]) by {
                assert(tail[i] == s[i + s.len() - 3]);
            }
        }
        assert(holds_at(b, p as int, gh)) by {
            assert forall|i: int| 0 <= i < gh.len() implies b[p + i] == #[trigger] gh[i] as u8 by {
                assert(gh[i] == group3(s)[i]);
            }
        }
        lemma_scan_group3(b, p, head, st0);
        let e = (p + gh.len()) as nat;
        let st1 = scan(b, e)->Ok_0;
        assert(b[e as int] == group3(s)[gh.len() as int] as u8);
        assert(group3(s)[gh.len() as int] == ',');
        assert(b[e as int] == 44);
        assert(aligned_comma(st1.prefix_len, st1.comma_pos, e as int));
        assert(scan(b, e + 1) == scan_step(st1, e as int, b[e as int]));
        let st2 = ScanState { format: Some(Format::Comma3Dot), comma_pos: Some((e + 4) as int), ..st1 };
        assert(scan(b, e + 1) == Ok::<ScanState, ScanStop>(st2));
        assert(holds_at(b, (e + 1) as int, tail)) by {
            assert forall|i: int| 0 <= i < tail.len() implies b[e + 1 + i] == #[trigger] tail[i] as u8 by {
                assert(group3(s)[gh.len() + 1 + i] == tail[i]);
            }
        }
        lemma_scan_digit_run(b, e + 1, tail, st2);
        assert(e + 1 + 3 == p + group3(s).len());
        lemma_digits_value_concat(head, tail);
        assert(head + tail =~= s);
        lemma_pow10_add(head.len(), 3);
        assert(s.len() == head.len() + 3);
        let m0 = st0.mantissa;
        let ph = pow10(head.len());
        let p3 = pow10(3);
        assert((m0 * ph + digits_value(head)) * p3 + digits_value(tail) == m0 * (ph * p3) + (
        digits_value(head) * p3 + digits_value(tail))) by (nonlinear_arith);
    }
}

/// The bytes of an ASCII text, one for each character.
pub open spec fn ascii_bytes(t: Seq<char>) -> Seq<u8> {
    Seq::new(t.len(), |i: int| t[i] as u8)
}

/// Zeros are worth nothing.
pub proof fn lemma_zeros_value(k: nat)
    ensures
        digits_value(zeros(k)) == 0,
        all_digits(zeros(k)),
    decreases k,
{
    if k > 0 {
        lemma_zeros_value((k - 1) as nat);
        assert(zeros(k).drop_last() =~= zeros((k - 1) as nat));
    }
}

/// The padded digits of `n` are digits, worth `n`.
pub proof fn lemma_padded_digits(n: nat, w: nat)
    ensures
        all_digits(padded_digits(n, w)),
        digits_value(padded_digits(n, w)) == n,
        padded_digits(n, w).len() >= w,
        padded_digits(n, w).len() >= digits_of(n).len(),
        digits_of(n).len() >= w ==> padded_digits(n, w) == digits_of(n),
        digits_of(n).len() < w ==> padded_digits(n, w).len() == w,
{
    lemma_digits_of(n);
    let d = digits_of(n);
    if d.len() < w {
        let z = zeros((w - d.len()) as nat);
        lemma_zeros_value((w - d.len()) as nat);
        lemma_digits_value_concat(z, d);
        assert forall|i: int| 0 <= i < (z + d).len() implies #[trigger] is_digit_char((z + d)[i]) by {
            if i >= z.len() {
                assert((z + d)[i] == d[i - z.len()]);
            }
        }
    }
}

/// A prefix and a suffix of digits are digits.
pub proof fn lemma_all_digits_split(t: Seq<char>, n: int)
    requires
        all_digits(t),
        0 <= n <= t.len(),
    ensures
        all_digits(t.take(n)),
        all_digits(t.skip(n)),
        t.take(n) + t.skip(n) == t,
{
    assert forall|i: int| 0 <= i < t.take(n).len() implies #[trigger] is_digit_char(t.take(n)[i]) by {
        assert(t.take(n)[i] == t[i]);
    }
    assert forall|i: int| 0 <= i < t.skip(n).len() implies #[trigger] is_digit_char(t.skip(n)[i]) by {
        assert(t.skip(n)[i] == t[i + n]);
    }
    assert(t.take(n) + t.skip(n) =~= t);
}

/// Reading a `.` and then fractional digits: the comma that was due is
/// dropped, and the digits are counted as decimal places.
pub proof fn lemma_scan_fraction(b: Seq<u8>, e: nat, f: Seq<char>, st: ScanState)
    requires
        scan(b, e) == Ok::<ScanState, ScanStop>(st),
        st.comma_pos is None || st.comma_pos == Some(e as int),
        holds_at(b, e as int, seq!['.'] + f),
        all_digits(f),
    ensures
        scan(b, e + 1 + f.len()) == Ok::<ScanState, ScanStop>(
            ScanState {
                comma_pos: None,
                scale: Some(f.len() as int),
                mantissa: st.mantissa * pow10(f.len()) + digits_value(f),
                ..st
            },
        ),
{
    let t = seq!['.'] + f;
    assert(b[e as int] == t[0] as u8);
    assert(b[e as int] == 46);
    assert(scan(b, e + 1) == scan_step(st, e as int, b[e as int]));
    let st1 = ScanState { scale: Some(0), comma_pos: None, ..st };
    assert(scan(b, e + 1) == Ok::<ScanState, ScanStop>(st1));
    assert(holds_at(b, (e + 1) as int, f)) by {
        assert forall|i: int| 0 <= i < f.len() implies b[e + 1 + i] == #[trigger] f[i] as u8 by {
            assert(t[1 + i] == f[i]);
        }
    }
    lemma_scan_digit_run(b, e + 1, f, st1);
}

/// What every reading state that was reached holds: a nonnegative
/// mantissa, a sign of `±1`, a sign length of `0` or `1`, and no more
/// decimal places than bytes read.
pub proof fn lemma_scan_state_bounds(b: Seq<u8>, n: nat)
    requires
        scan(b, n) is Ok,
    ensures
        scan(b, n)->Ok_0.mantissa >= 0,
        scan(b, n)->Ok_0.sign == 1 || scan(b, n)->Ok_0.sign == -1,
        scan(b, n)->Ok_0.prefix_len == 0 || scan(b, n)->Ok_0.prefix_len == 1,
        scan(b, n)->Ok_0.scale matches Some(x) ==> 0 <= x <= n,
    decreases n,
{
    if n > 0 {
        lemma_scan_state_bounds(b, (n - 1) as nat);
    }
}

/// Reading never makes the mantissa smaller, and a reading that went on
/// to `m` bytes went through every shorter prefix.
pub proof fn lemma_scan_prefix(b: Seq<u8>, n: nat, m: nat)
    requires
        n <= m,
        scan(b, m) is Ok,
    ensures
        scan(b, n) is Ok,
        scan(b, n)->Ok_0.mantissa <= scan(b, m)->Ok_0.mantissa,
    decreases m,
{
    if n < m {
        lemma_scan_prefix(b, n, (m - 1) as nat);
        lemma_scan_state_bounds(b, (m - 1) as nat);
        let st = scan(b, (m - 1) as nat)->Ok_0;
        let c = b[m - 1];
        if crate::parse::is_digit_byte(c) {
            assert(st.mantissa * 10 + (c - 48) >= st.mantissa);
        }
    }
}

/// A reading of all of `b` that ends with a mantissa within `i128`, over
/// no more than `u32::MAX` bytes, never overflows on the way.
pub proof fn lemma_no_overflow(b: Seq<u8>)
    requires
        scan(b, b.len()) is Ok,
        scan(b, b.len())->Ok_0.mantissa <= i128::MAX,
        b.len() <= u32::MAX,
    ensures
        !crate::parse::scan_overflows(b),
{
    assert forall|k: nat| k <= b.len() implies !(#[trigger] scan(b, k) matches Ok(st)
        && crate::parse::state_overflows(st)) by {
        lemma_scan_prefix(b, k, b.len());
        lemma_scan_state_bounds(b, k);
    }
}

/// `-` for a negative sign, else nothing.
pub open spec fn sign_text(negative: bool) -> Seq<char> {
    if negative {
        seq!['-']
    } else {
        Seq::<char>::empty()
    }
}

/// The state after reading back the whole text of `v`.
pub open spec fn read_back_state(v: Decimal, format: Option<Format>, comma_pos: Option<int>) -> ScanState {
    ScanState {
        comma_pos,
        format,
        mantissa: v.magnitude as int,
        scale: if v.scale > 0 {
            Some(v.scale as int)
        } else {
            None
        },
        prefix_len: if v.negative {
            1
        } else {
            0
        },
        sign: if v.negative {
            -1
        } else {
            1
        },
    }
}

/// Reading the sign at the start of a text.
pub proof fn lemma_scan_sign(b: Seq<u8>, negative: bool)
    requires
        holds_at(b, 0, sign_text(negative)),
    ensures
        scan(b, sign_text(negative).len()) == Ok::<ScanState, ScanStop>(
            ScanState {
                prefix_len: sign_text(negative).len() as int,
                sign: if negative {
                    -1
                } else {
                    1
                },
                ..scan_start()
            },
        ),
{
    assert(scan(b, 0) == Ok::<ScanState, ScanStop>(scan_start()));
    if negative {
        assert(b[0] == sign_text(negative)[0] as u8);
        assert(b[0] == 45);
        assert(scan(b, 0) == Ok::<ScanState, ScanStop>(scan_start()));
        assert(scan(b, 1) == scan_step(scan_start(), 0, b[0]));
    }
}

/// `digits_of(m)` has at most three digits more than `s` exactly when
/// `m < 1000 * 10^s`.
pub proof fn lemma_below_thousand_digits(m: nat, s: nat)
    ensures
        (m < 1000 * pow10(s)) <==> digits_of(m).len() <= s + 3,
{
    lemma_digits_len(m, s + 3);
    lemma_pow10_add(3, s);
    reveal_with_fuel(pow10, 4);
}

/// Reading back what `rust_decimal` writes for `v` gives its magnitude,
/// sign and scale, and reads no comma.
pub proof fn lemma_scan_plain_text(v: Decimal)
    requires
        v.wf(),
    ensures
        scan(ascii_bytes(plain_text(v)), plain_text(v).len()) == Ok::<ScanState, ScanStop>(
            read_back_state(v, None, None),
        ),
{
    let t = plain_text(v);
    let b = ascii_bytes(t);
    let s = v.scale as nat;
    let m = v.magnitude as nat;
    let ds = padded_digits(m, s + 1);
    lemma_padded_digits(m, s + 1);
    let n = ds.len() - s;
    let sign = sign_text(v.negative);
    let ip = ds.take(n);
    let fp = ds.skip(n);
    let frac = if v.scale > 0 { seq!['.'] + fp } else { Seq::<char>::empty() };
    lemma_all_digits_split(ds, n);
    assert(t == sign + ip + frac);
    let p = sign.len();
    assert(holds_at(b, 0, sign)) by {
        assert forall|i: int| 0 <= i < sign.len() implies b[0 + i] == #[trigger] sign[i] as u8 by {
            assert(t[i] == sign[i]);
        }
    }
    lemma_scan_sign(b, v.negative);
    let st0 = ScanState { prefix_len: p as int, sign: if v.negative { -1 } else { 1 }, ..scan_start() };
    assert(holds_at(b, p as int, ip)) by {
        assert forall|i: int| 0 <= i < ip.len() implies b[p + i] == #[trigger] ip[i] as u8 by {
            assert(t[p + i] == ip[i]);
        }
    }
    lemma_scan_digit_run(b, p, ip, st0);
    lemma_digits_of(m);
    lemma_digits_value_concat(ip, fp);
    assert(0 * pow10(ip.len()) == 0);
    if v.scale > 0 {
        assert(holds_at(b, (p + n) as int, frac)) by {
            assert forall|i: int| 0 <= i < frac.len() implies b[p + n + i] == #[trigger] frac[i] as u8 by {
                assert(t[p + n + i] == frac[i]);
            }
        }
        let st1 = scan(b, (p + n) as nat)->Ok_0;
        lemma_scan_fraction(b, (p + n) as nat, fp, st1);
        assert(p + n + 1 + fp.len() == t.len());
    } else {
        assert(fp.len() == 0);
        assert(pow10(0) == 1);
        assert(digits_value(fp) == 0);
        assert(t.len() == p + n);
    }
}

/// Reading back the comma format of a `v` with `|v| >= 1000` gives its
/// magnitude, sign and scale, and the `Comma3Dot` format.
pub proof fn lemma_scan_comma_text(v: Decimal)
    requires
        v.wf(),
        !below_thousand(v),
    ensures
        scan(ascii_bytes(comma3dot_text(v, None)), comma3dot_text(v, None).len()) == Ok::<
            ScanState,
            ScanStop,
        >(
            read_back_state(
                v,
                Some(Format::Comma3Dot),
                if v.scale > 0 {
                    None
                } else {
                    Some(comma3dot_text(v, None).len() as int)
                },
            ),
        ),
{
    let t = comma3dot_text(v, None);
    let b = ascii_bytes(t);
    let s = v.scale as nat;
    let m = v.magnitude as nat;
    lemma_below_thousand_digits(m, s);
    lemma_pow10_positive(s);
    assert(m > 0);
    let ds = digits_of(m);
    assert(comma_digits(v) == ds);
    lemma_digits_of(m);
    assert(all_digits(ds));
    let n = ds.len() - s;
    assert(n >= 4);
    let sign = sign_text(v.negative);
    let ip = ds.take(n);
    let fp = ds.skip(n);
    let gp = group3(ip);
    let frac = if v.scale > 0 { seq!['.'] + fp } else { Seq::<char>::empty() };
    lemma_all_digits_split(ds, n);
    assert(t == sign + gp + frac + Seq::<char>::empty());
    assert(t =~= sign + gp + frac);
    let p = sign.len();
    assert(holds_at(b, 0, sign)) by {
        assert forall|i: int| 0 <= i < sign.len() implies b[0 + i] == #[trigger] sign[i] as u8 by {
            assert(t[i] == sign[i]);
        }
    }
    lemma_scan_sign(b, v.negative);
    let st0 = ScanState { prefix_len: p as int, sign: if v.negative { -1 } else { 1 }, ..scan_start() };
    assert(holds_at(b, p as int, gp)) by {
        assert forall|i: int| 0 <= i < gp.len() implies b[p + i] == #[trigger] gp[i] as u8 by {
            assert(t[p + i] == gp[i]);
        }
    }
    lemma_scan_group3(b, p, ip, st0);
    lemma_digits_value_concat(ip, fp);
    assert(0 * pow10(ip.len()) == 0);
    let e = (p + gp.len()) as nat;
    if v.scale > 0 {
        assert(holds_at(b, e as int, frac)) by {
            assert forall|i: int| 0 <= i < frac.len() implies b[e + i] == #[trigger] frac[i] as u8 by {
                assert(t[e + i] == frac[i]);
            }
        }
        let st1 = scan(b, e)->Ok_0;
        lemma_scan_fraction(b, e, fp, st1);
        assert(e + 1 + fp.len() == t.len());
    } else {
        assert(fp.len() == 0);
        assert(pow10(0) == 1);
        assert(digits_value(fp) == 0);
        assert(t.len() == e);
    }
}

/// `group3` adds one comma for every full group of three after the first.
pub proof fn lemma_group3_len(s: Seq<char>)
    requires
        s.len() >= 1,
    ensures
        group3(s).len() == s.len() + (s.len() - 1) / 3,
    decreases s.len(),
{
    if s.len() > 3 {
        lemma_group3_len(s.take(s.len() - 3));
    }
}

/// The comma format of a `Decimal` is short.
pub proof fn lemma_comma_text_len(v: Decimal)
    requires
        v.wf(),
        !below_thousand(v),
    ensures
        comma3dot_text(v, None).len() <= 64,
{
    let m = v.magnitude as nat;
    let s = v.scale as nat;
    lemma_below_thousand_digits(m, s);
    lemma_pow10_positive(s);
    lemma_magnitude_digits(v);
    let ds = digits_of(m);
    assert(comma_digits(v) == ds);
    let n = ds.len() - s;
    let ip = ds.take(n);
    lemma_group3_len(ip);
    let sign = sign_text(v.negative);
    let frac = if v.scale > 0 { seq!['.'] + ds.skip(n) } else { Seq::<char>::empty() };
    assert(comma3dot_text(v, None) == sign + group3(ip) + frac + Seq::<char>::empty());
    assert(group3(ip).len() <= 40);
}

/// The magnitude of a `Decimal` has at most 29 digits.
pub proof fn lemma_magnitude_digits(v: Decimal)
    requires
        v.wf(),
    ensures
        digits_of(v.magnitude as nat).len() <= 29,
{
    lemma_digits_len(v.magnitude as nat, 29);
    reveal_with_fuel(pow10, 30);
}

/// Digits are ASCII.
pub proof fn lemma_digits_ascii(t: Seq<char>)
    requires
        all_digits(t),
    ensures
        is_ascii_chars(t),
{
    assert forall|i: int| 0 <= i < t.len() implies '\0' <= #[trigger] t[i] <= '\u{7f}' by {
        assert(is_digit_char(t[i]));
    }
}

/// An ASCII text is encoded one byte per character.
pub proof fn lemma_ascii_bytes(t: Seq<char>)
    requires
        is_ascii_chars(t),
    ensures
        encode_utf8(t) == ascii_bytes(t),
{
    vstd::utf8::is_ascii_chars_encode_utf8(t);
    assert(encode_utf8(t) =~= ascii_bytes(t));
}

/// What `rust_decimal` writes is ASCII, and short.
pub proof fn lemma_plain_text_ascii(v: Decimal)
    requires
        v.wf(),
        v.scale <= crate::decimal::MAX_SCALE,
    ensures
        is_ascii_chars(plain_text(v)),
        plain_text(v).len() <= 64,
{
    let s = v.scale as nat;
    let m = v.magnitude as nat;
    let ds = padded_digits(m, s + 1);
    lemma_padded_digits(m, s + 1);
    let n = ds.len() - s;
    lemma_all_digits_split(ds, n);
    let sign = sign_text(v.negative);
    let ip = ds.take(n);
    let fp = ds.skip(n);
    let frac = if v.scale > 0 { seq!['.'] + fp } else { Seq::<char>::empty() };
    lemma_digits_ascii(ip);
    lemma_digits_ascii(fp);
    assert(is_ascii_chars(frac)) by {
        if v.scale > 0 {
            assert(is_ascii_chars(seq!['.']));
            vstd::utf8::is_ascii_chars_concat(frac, seq!['.'], fp);
        }
    }
    assert(is_ascii_chars(sign));
    let a = sign + ip;
    vstd::utf8::is_ascii_chars_concat(a, sign, ip);
    vstd::utf8::is_ascii_chars_concat(a + frac, a, frac);
    assert(plain_text(v) == a + frac);
    lemma_magnitude_digits(v);
}

/// A reading state seen one byte further on: the sign is one byte longer
/// and the comma that is due is due one byte later.
pub open spec fn shift_state(st: ScanState) -> ScanState {
    ScanState {
        prefix_len: st.prefix_len + 1,
        comma_pos: match st.comma_pos {
            Some(c) => Some(c + 1),
            None => None,
        },
        ..st
    }
}

/// A reading outcome seen one byte further on: the same state shifted, or
/// the same stop one byte later.
pub open spec fn shift_scan(r: Result<ScanState, ScanStop>) -> Result<ScanState, ScanStop> {
    match r {
        Ok(st) => Ok(shift_state(st)),
        Err(ScanStop::Unexpected(i)) => Err(ScanStop::Unexpected(i + 1)),
        Err(ScanStop::CommaRequired(i)) => Err(ScanStop::CommaRequired(i + 1)),
    }
}

/// Reading a `+` and then bytes that do not start with a sign goes as
/// reading those bytes alone, one byte later.
pub proof fn lemma_scan_after_plus(b1: Seq<u8>, b2: Seq<u8>, k: nat)
    requires
        b1 == seq![43u8] + b2,
        b2.len() > 0 ==> b2[0] != 43 && b2[0] != 45,
        k <= b2.len(),
    ensures
        scan(b1, k + 1) == shift_scan(scan(b2, k)),
    decreases k,
{
    assert(b1[0] == 43);
    assert(scan(b1, 0) == Ok::<ScanState, ScanStop>(scan_start()));
    assert(scan(b1, 1) == scan_step(scan_start(), 0, 43));
    if k > 0 {
        lemma_scan_after_plus(b1, b2, (k - 1) as nat);
        assert(b1[k as int] == b2[k - 1]);
    }
}

/// The character boundaries of bytes behind a one-byte character are
/// theirs, one byte later.
pub proof fn lemma_boundaries_after_ascii(b1: Seq<u8>, b2: Seq<u8>, x: u8)
    requires
        b1 == seq![x] + b2,
        vstd::utf8::valid_utf8(b1),
        vstd::utf8::valid_utf8(b2),
    ensures
        forall|j: int| 0 <= j <= b2.len() ==> vstd::utf8::is_char_boundary(b1, j + 1)
            == #[trigger] vstd::utf8::is_char_boundary(b2, j),
{
    assert forall|j: int| 0 <= j <= b2.len() implies vstd::utf8::is_char_boundary(b1, j + 1)
        == #[trigger] vstd::utf8::is_char_boundary(b2, j) by {
        if j < b2.len() {
            vstd::utf8::is_char_boundary_iff_not_is_continuation_byte(b2, j);
            vstd::utf8::is_char_boundary_iff_not_is_continuation_byte(b1, j + 1);
            assert(b1[j + 1] == b2[j]);
        } else {
            vstd::utf8::is_char_boundary_start_end_of_seq(b1);
            vstd::utf8::is_char_boundary_start_end_of_seq(b2);
        }
    }
}

/// The last boundary at or before an offset, one byte later.
pub proof fn lemma_boundary_before_shift(b1: Seq<u8>, b2: Seq<u8>, j: int)
    requires
        0 <= j <= b2.len(),
        b1.len() == b2.len() + 1,
        forall|x: int| 0 <= x <= b2.len() ==> vstd::utf8::is_char_boundary(b1, x + 1)
            == #[trigger] vstd::utf8::is_char_boundary(b2, x),
        vstd::utf8::is_char_boundary(b2, 0),
    ensures
        crate::parse::boundary_at_or_before(b1, j + 1) == crate::parse::boundary_at_or_before(b2, j) + 1,
    decreases j,
{
    assert(vstd::utf8::is_char_boundary(b1, j + 1) == vstd::utf8::is_char_boundary(b2, j));
    if j > 0 {
        lemma_boundary_before_shift(b1, b2, j - 1);
    }
}

/// The first boundary at or after an offset, one byte later.
pub proof fn lemma_boundary_after_shift(b1: Seq<u8>, b2: Seq<u8>, j: int)
    requires
        0 <= j <= b2.len(),
        b1.len() == b2.len() + 1,
        forall|x: int| 0 <= x <= b2.len() ==> vstd::utf8::is_char_boundary(b1, x + 1)
            == #[trigger] vstd::utf8::is_char_boundary(b2, x),
    ensures
        crate::parse::boundary_at_or_after(b1, j + 1) == crate::parse::boundary_at_or_after(b2, j) + 1,
    decreases b2.len() - j,
{
    if j < b2.len() {
        assert(vstd::utf8::is_char_boundary(b1, j + 1) == vstd::utf8::is_char_boundary(b2, j));
        lemma_boundary_after_shift(b1, b2, j + 1);
    }
}

} // verus!
