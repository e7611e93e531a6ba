//! Reading a `PrettyDecimal` from text: plain (`-1234.5`) or with commas
//! between the groups of three integral digits (`-1,234.5`).

use vstd::prelude::*;
use vstd::string::StringSliceAdditionalSpecFns;
use vstd::utf8::{
    decode_utf8, is_char_boundary, encode_utf8_valid_utf8, encode_utf8_decode_utf8, is_char_boundary_start_end_of_seq,
    is_char_boundary_iff_not_is_continuation_byte, valid_utf8_split,
};
use crate::decimal::{Decimal, DecimalError, try_from_i128_with_scale_spec};
use crate::pretty::{Format, PrettyDecimal, below_thousand};

verus! {

/// Why text could not be read.
#[derive(PartialEq, Debug)]
pub enum ParseError {
    /// The character (given as text) at the byte offset is not expected
    /// there.
    UnexpectedChar(String, usize),
    /// A comma was expected at the byte offset.
    CommaRequired(usize),
    /// The digits read do not make a `Decimal`.
    InvalidDecimal(DecimalError),
}

/// Where reading stands after a prefix of the input.
pub struct ScanState {
    /// The offset where the next comma is due, after a comma was read.
    pub comma_pos: Option<int>,
    /// `Some(Format::Comma3Dot)` once a comma was read.
    pub format: Option<Format>,
    /// The digits read so far, as a number.
    pub mantissa: int,
    /// The number of digits read after the decimal point, once one was read.
    pub scale: Option<int>,
    /// The length of the sign (`0` or `1`).
    pub prefix_len: int,
    /// `-1` after a leading `-`, else `1`.
    pub sign: int,
}

/// Why reading stopped.
pub enum ScanStop {
    /// The byte at this offset was not expected.
    Unexpected(int),
    /// A comma was due at this offset.
    CommaRequired(int),
}

/// The state before anything is read.
pub open spec fn scan_start() -> ScanState {
    ScanState { comma_pos: None, format: None, mantissa: 0, scale: None, prefix_len: 0, sign: 1 }
}

/// Whether a comma at `pos` is where one may stand: within the first three
/// digits when no comma came before, else where the next one is due.
pub open spec fn aligned_comma(offset: int, comma_pos: Option<int>, pos: int) -> bool {
    (comma_pos is None && offset < pos <= 3 + offset) || comma_pos == Some(pos)
}

/// Whether `c` is one of the bytes `0` to `9`.
pub open spec fn is_digit_byte(c: u8) -> bool {
    48 <= c <= 57
}

/// Reading the byte `c` at offset `i`.
pub open spec fn scan_step(st: ScanState, i: int, c: u8) -> Result<ScanState, ScanStop> {
    if i == 0 && c == 45 {
        Ok(ScanState { prefix_len: 1, sign: -1, ..st })
    } else if i == 0 && c == 43 {
        Ok(ScanState { prefix_len: 1, ..st })
    } else if c == 44 && aligned_comma(st.prefix_len, st.comma_pos, i) {
        Ok(ScanState { format: Some(Format::Comma3Dot), comma_pos: Some(i + 4), ..st })
    } else if c == 46 && (st.comma_pos is None || st.comma_pos == Some(i)) {
        Ok(ScanState { scale: Some(0), comma_pos: None, ..st })
    } else if st.comma_pos == Some(i) {
        Err(ScanStop::CommaRequired(i))
    } else if is_digit_byte(c) {
        Ok(ScanState {
            mantissa: st.mantissa * 10 + (c - 48),
            scale: match st.scale {
                Some(x) => Some(x + 1),
                None => None,
            },
            ..st
        })
    } else {
        Err(ScanStop::Unexpected(i))
    }
}

/// The state after reading the first `n` bytes of `b`, or why reading
/// stopped before.
pub open spec fn scan(b: Seq<u8>, n: nat) -> Result<ScanState, ScanStop>
    decreases n,
{
    if n == 0 {
        Ok(scan_start())
    } else {
        match scan(b, (n - 1) as nat) {
            Ok(st) => scan_step(st, n - 1, b[n - 1]),
            Err(e) => Err(e),
        }
    }
}

/// Whether a state holds numbers beyond what the reader keeps (an `i128`
/// mantissa, a `u32` count of decimal places).
pub open spec fn state_overflows(st: ScanState) -> bool {
    st.mantissa > i128::MAX || (st.scale matches Some(x) && x > u32::MAX)
}

/// Whether reading `b` reaches a state beyond what the reader keeps, so
/// that the arithmetic overflows.
pub open spec fn scan_overflows(b: Seq<u8>) -> bool {
    exists|k: nat| k <= b.len() && (#[trigger] scan(b, k) matches Ok(st) && state_overflows(st))
}

/// The greatest character boundary of `b` at or before `j`.
pub open spec fn boundary_at_or_before(b: Seq<u8>, j: int) -> int
    decreases j,
{
    if j <= 0 {
        0
    } else if is_char_boundary(b, j) {
        j
    } else {
        boundary_at_or_before(b, j - 1)
    }
}

/// The least character boundary of `b` at or after `j`, or its length.
pub open spec fn boundary_at_or_after(b: Seq<u8>, j: int) -> int
    decreases b.len() - j,
{
    if j >= b.len() {
        b.len() as int
    } else if is_char_boundary(b, j) {
        j
    } else {
        boundary_at_or_after(b, j + 1)
    }
}

/// The text of the character whose encoding holds the byte at offset `i`
/// of `s` (empty when `i` is past the end).
pub open spec fn char_text(s: &str, i: int) -> Seq<char> {
    let b = s.spec_bytes();
    decode_utf8(b.subrange(boundary_at_or_before(b, i), boundary_at_or_after(b, i + 1)))
}

/// The format that reading tells: `Comma3Dot` once a comma was read;
/// otherwise `Plain` for a value of at least 1000 in absolute value, and
/// not known below.
pub open spec fn read_format(seen: Option<Format>, d: Decimal) -> Option<Format> {
    if seen == Some(Format::Comma3Dot) {
        seen
    } else if below_thousand(d) {
        None
    } else {
        Some(Format::Plain)
    }
}

/// What reading `s` gives: the error at the offset where reading stopped,
/// or the value of the digits read with their sign and decimal places, in
/// the format that reading tells.
pub open spec fn parse_spec(s: &str, r: Result<PrettyDecimal, ParseError>) -> bool {
    match scan(s.spec_bytes(), s.spec_bytes().len()) {
        Err(ScanStop::Unexpected(i)) => (r matches Err(ParseError::UnexpectedChar(t, j)) && j == i
            && t@ == char_text(s, i)),
        Err(ScanStop::CommaRequired(i)) => r == Err::<PrettyDecimal, ParseError>(
            ParseError::CommaRequired(i as usize),
        ),
        Ok(st) => match try_from_i128_with_scale_spec(
            st.sign * st.mantissa,
            (match st.scale {
                Some(x) => x,
                None => 0,
            }) as u32,
        ) {
            Ok(d) => r == Ok::<PrettyDecimal, ParseError>(
                PrettyDecimal { format: read_format(st.format, d), value: d },
            ),
            Err(e) => r == Err::<PrettyDecimal, ParseError>(ParseError::InvalidDecimal(e)),
        },
    }
}

/// Once reading stopped, it stays stopped with the same reason.
pub proof fn lemma_scan_stays_stopped(b: Seq<u8>, n: nat, m: nat)
    requires
        n <= m,
        scan(b, n) is Err,
    ensures
        scan(b, m) == scan(b, n),
    decreases m,
{
    if m > n {
        lemma_scan_stays_stopped(b, n, (m - 1) as nat);
    }
}

/// The text of the character whose encoding holds the byte at offset `i`
/// of `s`: the bytes from the last character boundary at or before `i` up
/// to the next one after it. Both boundaries always exist, so the byte
/// itself (`_chr`) is never needed to describe the character.
pub fn try_find_char(s: &str, i: usize, _chr: u8) -> (r: String)
    requires
        i < usize::MAX,
    ensures
        r@ == char_text(s, i as int),
{
    let ghost b = s.spec_bytes();
    let len = s.as_bytes().len();
    proof {
        encode_utf8_valid_utf8(s@);
        is_char_boundary_start_end_of_seq(b);
    }
    let mut begin = i;
    while begin > 0 && !s.is_char_boundary(begin)
        invariant
            begin <= i,
            b == s.spec_bytes(),
            boundary_at_or_before(b, i as int) == boundary_at_or_before(b, begin as int),
        decreases begin,
    {
        begin = begin - 1;
    }
    let mut end = i + 1;
    while end < len && !s.is_char_boundary(end)
        invariant
            i < end,
            len == b.len(),
            b == s.spec_bytes(),
            boundary_at_or_after(b, i + 1) == boundary_at_or_after(b, end as int),
        decreases len - end,
    {
        end = end + 1;
    }
    if end > len {
        end = len;
    }
    if begin > end {
        begin = end;
    }
    assert(begin as int == boundary_at_or_before(b, i as int));
    assert(end as int == boundary_at_or_after(b, i + 1));
    assert(is_char_boundary(b, end as int));
    let (head, _) = s.split_at(end);
    let ghost hb = head.spec_bytes();
    proof {
        valid_utf8_split(b, end as int);
        assert(hb =~= b.subrange(0, end as int));
        if begin > 0 && begin < end {
            is_char_boundary_iff_not_is_continuation_byte(b, begin as int);
            is_char_boundary_iff_not_is_continuation_byte(hb, begin as int);
        }
        if begin == end {
            is_char_boundary_start_end_of_seq(hb);
        }
    }
    let (_, mid) = head.split_at(begin);
    let r = mid.to_owned();
    proof {
        encode_utf8_decode_utf8(mid@);
        assert(mid.spec_bytes() =~= b.subrange(begin as int, end as int));
    }
    r
}

/// The reading state that the values kept by the reader stand for.
pub open spec fn kept_state(
    comma_last: Option<usize>,
    format: Option<Format>,
    mantissa: i128,
    scale: Option<u32>,
    prefix_len: usize,
    sign: i128,
) -> ScanState {
    ScanState {
        comma_pos: match comma_last {
            Some(l) => Some(l + 4),
            None => None,
        },
        format,
        mantissa: mantissa as int,
        scale: match scale {
            Some(x) => Some(x as int),
            None => None,
        },
        prefix_len: prefix_len as int,
        sign: sign as int,
    }
}

impl PrettyDecimal {
    /// Reads `s`, or returns `None` where the digits read would overflow
    /// the reader's `i128` mantissa or `u32` count of decimal places.
    pub fn checked_from_str(s: &str) -> (r: Option<Result<PrettyDecimal, ParseError>>)
        ensures
            r is None <==> scan_overflows(s.spec_bytes()),
            r matches Some(res) ==> parse_spec(s, res),
    {
        let bytes = s.as_bytes();
        let ghost b = bytes@;
        let len = bytes.len();
        let mut comma_last: Option<usize> = None;
        let mut format: Option<Format> = None;
        let mut mantissa: i128 = 0;
        let mut scale: Option<u32> = None;
        let mut prefix_len: usize = 0;
        let mut sign: i128 = 1;
        let mut i: usize = 0;
        while i < len
            invariant
                b == bytes@,
                b == s.spec_bytes(),
                len == b.len(),
                i <= len,
                scan(b, i as nat) == Ok::<ScanState, ScanStop>(
                    kept_state(comma_last, format, mantissa, scale, prefix_len, sign),
                ),
                prefix_len <= 1,
                sign == 1 || sign == -1,
                mantissa >= 0,
                forall|k: nat|
                    k <= i ==> !(#[trigger] scan(b, k) matches Ok(st) && state_overflows(st)),
            decreases len - i,
        {
            let c = bytes[i];
            let ghost st = kept_state(comma_last, format, mantissa, scale, prefix_len, sign);
            assert(scan(b, (i + 1) as nat) == scan_step(st, i as int, c));
            let due = match comma_last {
                Some(l) => i >= 4 && i - 4 == l,
                None => false,
            };
            assert(due <==> st.comma_pos == Some(i as int));
            let aligned = match comma_last {
                None => i > prefix_len && i <= 3 + prefix_len,
                Some(_) => due,
            };
            assert(aligned <==> aligned_comma(st.prefix_len, st.comma_pos, i as int));
            if i == 0 && c == 45 {
                prefix_len = 1;
                sign = -1;
            } else if i == 0 && c == 43 {
                prefix_len = 1;
            } else if c == 44 && aligned {
                format = Some(Format::Comma3Dot);
                comma_last = Some(i);
            } else if c == 46 && (comma_last.is_none() || due) {
                scale = Some(0);
                comma_last = None;
            } else if due {
                proof {
                    self::lemma_stopped_no_overflow(b, (i + 1) as nat);
                    lemma_scan_stays_stopped(b, (i + 1) as nat, len as nat);
                }
                return Some(Err(ParseError::CommaRequired(i)));
            } else if 48 <= c && c <= 57 {
                let d = (c - 48) as i128;
                let m10 = match mantissa.checked_mul(10) {
                    Some(m) => m,
                    None => {
                        assert(state_overflows(scan_step(st, i as int, c)->Ok_0));
                        return None;
                    },
                };
                mantissa = match m10.checked_add(d) {
                    Some(m) => m,
                    None => {
                        assert(state_overflows(scan_step(st, i as int, c)->Ok_0));
                        return None;
                    },
                };
                match scale {
                    Some(x) => {
                        match x.checked_add(1) {
                            Some(y) => {
                                scale = Some(y);
                            },
                            None => {
                                assert(state_overflows(scan_step(st, i as int, c)->Ok_0));
                                return None;
                            },
                        }
                    },
                    None => {},
                }
            } else {
                proof {
                    self::lemma_stopped_no_overflow(b, (i + 1) as nat);
                    lemma_scan_stays_stopped(b, (i + 1) as nat, len as nat);
                }
                let text = try_find_char(s, i, c);
                return Some(Err(ParseError::UnexpectedChar(text, i)));
            }
            assert(scan(b, (i + 1) as nat) == Ok::<ScanState, ScanStop>(
                kept_state(comma_last, format, mantissa, scale, prefix_len, sign),
            ));
            i = i + 1;
        }
        assert(sign * mantissa == mantissa || sign * mantissa == -mantissa) by (nonlinear_arith)
            requires
                sign == 1 || sign == -1,
        ;
        let scale_or_zero = match scale {
            Some(x) => x,
            None => 0,
        };
        Some(
            match Decimal::try_from_i128_with_scale(sign * mantissa, scale_or_zero) {
                Ok(value) => {
                    let told = match format {
                        Some(Format::Comma3Dot) => format,
                        _ => if value.abs_below_thousand() {
                            None
                        } else {
                            Some(Format::Plain)
                        },
                    };
                    Ok(PrettyDecimal { format: told, value })
                },
                Err(e) => Err(ParseError::InvalidDecimal(e)),
            },
        )
    }

    /// Reads `s`: an optional leading `+` or `-`, digits with at most one
    /// comma before every group of three and a `.` before the decimal
    /// places. The format is `Comma3Dot` once a comma is read; without
    /// one it is `Plain` for a value of at least 1000 in absolute value and
    /// not known below.
    pub fn from_str(s: &str) -> (r: Result<PrettyDecimal, ParseError>)
        requires
            !scan_overflows(s.spec_bytes()),
        ensures
            parse_spec(s, r),
    {
        match Self::checked_from_str(s) {
            Some(r) => r,
            None => {
                assert(false);
                Err(ParseError::CommaRequired(0))
            },
        }
    }
}

/// After reading stopped at `n`, no later prefix overflows.
pub proof fn lemma_stopped_no_overflow(b: Seq<u8>, n: nat)
    requires
        n <= b.len(),
        scan(b, n) is Err,
        forall|k: nat| k < n ==> !(#[trigger] scan(b, k) matches Ok(st) && state_overflows(st)),
    ensures
        !scan_overflows(b),
{
    assert forall|k: nat| k <= b.len() implies !(#[trigger] scan(b, k) matches Ok(st)
        && state_overflows(st)) by {
        if k >= n {
            lemma_scan_stays_stopped(b, n, k);
        }
    }
}

} // verus!
