//! `Decimal`: a signed decimal number `±magnitude / 10^scale`, held as the
//! plain values that `rust_decimal::Decimal` is made of. The arithmetic
//! that only `rust_decimal` does (rounding, rescaling, printing) is called
//! there, through the private wrappers at the end of this file.

use vstd::prelude::*;
use crate::text::{padded_digits, pow10, lemma_pow10_add, lemma_pow10_positive, lemma_pow10_monotone};
use rust_decimal::Error as OutsideError;
use vstd::std_specs::cmp::PartialEqSpecImpl;

verus! {

/// The largest scale a `Decimal` is made with; only rescaling goes beyond.
pub const MAX_SCALE: u32 = 28;

/// The largest scale that `rust_decimal` can write (its buffers hold 32
/// bytes).
pub const DISPLAY_MAX_SCALE: u32 = 30;

/// The largest magnitude a `Decimal` can have: `2^96 - 1`.
pub const MAX_MAGNITUDE: u128 = 79_228_162_514_264_337_593_543_950_335;

/// A decimal number `±magnitude / 10^scale`. The sign is kept apart from the
/// magnitude, so that a negative zero can be told from a positive one.
/// `==` compares numbers, not representations: `1.0 == 1.00`, `-0 == 0`.
#[derive(Clone, Copy, Debug)]
pub struct Decimal {
    /// Whether the sign is negative.
    pub negative: bool,
    /// The absolute value of the mantissa; at most `MAX_MAGNITUDE`.
    pub magnitude: u128,
    /// The number of digits after the decimal point; at most `MAX_SCALE`.
    pub scale: u32,
}

/// What can go wrong when a `Decimal` is made; one variant for each of
/// `rust_decimal::Error`.
#[derive(Clone, Debug, PartialEq)]
pub enum DecimalError {
    /// A message.
    ErrorString(String),
    /// The number is above the largest `Decimal`.
    ExceedsMaximumPossibleValue,
    /// The number is below the smallest `Decimal`.
    LessThanMinimumPossibleValue,
    /// The number has more decimal places than can be kept.
    Underflow,
    /// The scale is above `MAX_SCALE`.
    ScaleExceedsMaximumPrecision(u32),
    /// The number does not convert to the named type.
    ConversionTo(String),
}

impl Decimal {
    /// The limits of a `Decimal`: the magnitude fits 96 bits, and the
    /// scale is at most `MAX_SCALE`, or, as rescaling makes it, larger by
    /// no more than the count of trailing zeros of a nonzero magnitude.
    pub open spec fn wf(&self) -> bool {
        self.magnitude <= MAX_MAGNITUDE && scale_fits(self.magnitude, self.scale)
    }

    /// The signed mantissa: `-magnitude` when the sign is negative.
    pub open spec fn mantissa_spec(&self) -> int {
        if self.negative {
            -(self.magnitude as int)
        } else {
            self.magnitude as int
        }
    }

    /// The same number with a positive sign.
    pub open spec fn abs_spec(&self) -> Decimal {
        Decimal { negative: false, ..*self }
    }

    /// The decimal made of a signed mantissa and a scale.
    pub open spec fn from_mantissa(num: int, scale: u32) -> Decimal {
        Decimal {
            negative: num < 0,
            magnitude: (if num < 0 { -num } else { num }) as u128,
            scale,
        }
    }

    /// `Decimal::new(num, scale)`: `num / 10^scale`.
    pub fn new(num: i64, scale: u32) -> (d: Decimal)
        requires
            scale <= MAX_SCALE,
        ensures
            d == Decimal::from_mantissa(num as int, scale),
            d.wf(),
    {
        proof {
            reveal(scale_fits);
        }
        let r = rd_try_from_i128_with_scale(num as i128, scale);
        match r {
            Ok(d) => d,
            Err(_) => {
                assert(false);
                Decimal { negative: false, magnitude: 0, scale: 0 }
            }
        }
    }

    /// `num / 10^scale`, or the error that `rust_decimal` reports when the
    /// scale or the mantissa is out of range.
    pub fn try_from_i128_with_scale(num: i128, scale: u32) -> (r: Result<Decimal, DecimalError>)
        ensures
            r == try_from_i128_with_scale_spec(num as int, scale),
            r matches Ok(d) ==> d.wf(),
    {
        proof {
            reveal(scale_fits);
        }
        rd_try_from_i128_with_scale(num, scale)
    }

    /// `num / 10^scale`, for a mantissa and scale that are in range.
    pub fn from_i128_with_scale(num: i128, scale: u32) -> (d: Decimal)
        requires
            scale <= MAX_SCALE,
            -(MAX_MAGNITUDE as int) <= num <= MAX_MAGNITUDE,
        ensures
            d == Decimal::from_mantissa(num as int, scale),
            d.wf(),
    {
        proof {
            reveal(scale_fits);
        }
        match rd_try_from_i128_with_scale(num, scale) {
            Ok(d) => d,
            Err(_) => {
                assert(false);
                Decimal { negative: false, magnitude: 0, scale: 0 }
            }
        }
    }

    /// The signed mantissa.
    pub fn mantissa(&self) -> (m: i128)
        requires
            self.wf(),
        ensures
            m == self.mantissa_spec(),
    {
        if self.negative {
            -(self.magnitude as i128)
        } else {
            self.magnitude as i128
        }
    }

    /// The number of digits after the decimal point.
    pub fn scale(&self) -> (s: u32)
        ensures
            s == self.scale,
    {
        self.scale
    }

    /// Whether the sign is negative (`-0` included).
    pub fn is_sign_negative(&self) -> (b: bool)
        ensures
            b == self.negative,
    {
        self.negative
    }

    /// Whether the sign is positive (`+0` included).
    pub fn is_sign_positive(&self) -> (b: bool)
        ensures
            b == !self.negative,
    {
        !self.negative
    }

    /// Makes the sign positive or negative; the magnitude and scale stay.
    pub fn set_sign_positive(&mut self, positive: bool)
        ensures
            *final(self) == (Decimal { negative: !positive, ..*old(self) }),
    {
        self.negative = !positive;
    }

    /// Makes the sign negative or positive; the magnitude and scale stay.
    pub fn set_sign_negative(&mut self, negative: bool)
        ensures
            *final(self) == (Decimal { negative, ..*old(self) }),
    {
        self.negative = negative;
    }

    /// The same number with a positive sign.
    pub fn abs(&self) -> (d: Decimal)
        ensures
            d == self.abs_spec(),
    {
        Decimal { negative: false, ..*self }
    }

    /// Changes the scale, and so the value, keeping the mantissa and sign;
    /// fails on a scale above `MAX_SCALE`, and then changes nothing.
    pub fn set_scale(&mut self, scale: u32) -> (r: Result<(), DecimalError>)
        ensures
            scale > MAX_SCALE ==> r == Err::<(), DecimalError>(
                DecimalError::ScaleExceedsMaximumPrecision(scale),
            ) && *final(self) == *old(self),
            scale <= MAX_SCALE ==> r is Ok && *final(self) == (Decimal { scale, ..*old(self) }),
    {
        if scale > MAX_SCALE {
            return Err(DecimalError::ScaleExceedsMaximumPrecision(scale));
        }
        self.scale = scale;
        Ok(())
    }

    /// Moves the number to the given scale (see `rescale_spec`): digits
    /// dropped are rounded on the first of them, half away from zero, and
    /// a larger scale is reached only as far as the magnitude allows.
    pub fn rescale(&mut self, scale: u32)
        requires
            old(self).wf(),
        ensures
            *final(self) == rescale_spec(*old(self), scale),
            final(self).wf(),
    {
        let r = self.reduced();
        proof {
            lemma_rescale_reduced(*self);
            lemma_rescale_wf(*self, scale);
        }
        *self = rd_rescale(r, self.scale, scale);
    }

    /// The same number at a scale of at most `MAX_SCALE`, with the
    /// trailing zeros beyond it taken off.
    pub fn reduced(&self) -> (r: Decimal)
        requires
            self.wf(),
        ensures
            r == reduced_spec(*self),
            rescale_spec(r, self.scale) == *self,
            r.scale <= MAX_SCALE,
            r.magnitude <= MAX_MAGNITUDE,
    {
        proof {
            lemma_rescale_reduced(*self);
        }
        if self.scale <= MAX_SCALE {
            return *self;
        }
        let mut m = self.magnitude;
        let mut k: u32 = MAX_SCALE;
        assert(pow10(0) == 1);
        assert((self.magnitude as nat) / 1 == self.magnitude as nat);
        while k < self.scale
            invariant
                MAX_SCALE <= k <= self.scale,
                m as nat == (self.magnitude as nat) / pow10((k - MAX_SCALE) as nat),
            decreases self.scale - k,
        {
            proof {
                lemma_pow10_positive((k - MAX_SCALE) as nat);
                vstd::arithmetic::div_mod::lemma_div_denominator(
                    self.magnitude as int,
                    pow10((k - MAX_SCALE) as nat) as int,
                    10,
                );
                assert(pow10((k + 1 - MAX_SCALE) as nat) == pow10((k - MAX_SCALE) as nat) * 10);
            }
            m = m / 10;
            k = k + 1;
        }
        Decimal { magnitude: m, scale: MAX_SCALE, ..*self }
    }

    /// The number rounded to `dp` decimal places, half to even. It may not
    /// be asked for more than `MAX_SCALE` places and fewer than it has, as
    /// `rust_decimal` then panics.
    pub fn round_dp(&self, dp: u32) -> (d: Decimal)
        requires
            self.wf(),
            !(MAX_SCALE < dp < self.scale),
        ensures
            d == round_dp_spec(*self, dp),
            d.wf(),
    {
        proof {
            lemma_round_dp_wf(*self, dp);
        }
        let r = self.reduced();
        rd_round_dp(r, self.scale, dp)
    }

    /// How `rust_decimal` writes the number: a `-` for a negative sign,
    /// the integral digits (at least one), and, for a positive scale, a
    /// `.` and exactly `scale` fractional digits. `rust_decimal` panics for
    /// a scale above `DISPLAY_MAX_SCALE`.
    pub fn to_string(&self) -> (s: String)
        requires
            self.wf(),
            self.scale <= DISPLAY_MAX_SCALE,
        ensures
            s@ == plain_text(*self),
    {
        let r = self.reduced();
        rd_to_string(r, self.scale)
    }

    /// Whether `|self| < 1000`.
    pub fn abs_below_thousand(&self) -> (b: bool)
        requires
            self.wf(),
        ensures
            b == (self.magnitude < 1000 * pow10(self.scale as nat)),
    {
        if self.scale > 26 {
            proof {
                lemma_pow10_monotone(27, self.scale as nat);
                reveal_with_fuel(pow10, 28);
            }
            return true;
        }
        let mut bound: u128 = 1000;
        let mut i: u32 = 0;
        while i < self.scale
            invariant
                i <= self.scale <= 26,
                bound == 1000 * pow10(i as nat),
            decreases self.scale - i,
        {
            proof {
                lemma_pow10_bound(i as nat);
            }
            bound = bound * 10;
            i = i + 1;
        }
        self.magnitude < bound
    }
}

/// Whether `a` and `b` are the same number: both zero, whatever their
/// signs and scales, or of the same sign with `a.magnitude / 10^a.scale ==
/// b.magnitude / 10^b.scale`. This is how `rust_decimal` compares.
pub open spec fn same_value(a: Decimal, b: Decimal) -> bool {
    (a.magnitude == 0 && b.magnitude == 0) || (a.negative == b.negative && a.magnitude
        * pow10(b.scale as nat) == b.magnitude * pow10(a.scale as nat))
}

/// Whether `x == y * 10^d`, computed without overflow.
fn scaled_equal(x: u128, y: u128, d: u32) -> (r: bool)
    ensures
        r == (x == y * pow10(d as nat)),
{
    let mut z = y;
    let mut k: u32 = 0;
    assert(pow10(0) == 1);
    assert(y * pow10(0) == y);
    while k < d
        invariant
            k <= d,
            z == y * pow10(k as nat),
            z <= x || k == 0,
        decreases d - k,
    {
        if z > x / 10 {
            proof {
                assert(10 * z > x);
                lemma_pow10_add((k + 1) as nat, (d - k - 1) as nat);
                lemma_pow10_positive((d - k - 1) as nat);
                assert(y * pow10((k + 1) as nat) == 10 * z) by (nonlinear_arith)
                    requires
                        z == y * pow10(k as nat),
                        pow10((k + 1) as nat) == 10 * pow10(k as nat),
                ;
                let big = pow10((d - k - 1) as nat);
                assert(y * pow10(d as nat) == (10 * z) * big) by (nonlinear_arith)
                    requires
                        y * pow10((k + 1) as nat) == 10 * z,
                        pow10(d as nat) == pow10((k + 1) as nat) * big,
                ;
                assert((10 * z) * big >= 10 * z) by (nonlinear_arith)
                    requires
                        big >= 1,
                ;
            }
            return false;
        }
        z = z * 10;
        k = k + 1;
        assert(z == y * pow10(k as nat)) by (nonlinear_arith)
            requires
                z == 10 * (y * pow10((k - 1) as nat)),
                pow10(k as nat) == 10 * pow10((k - 1) as nat),
        ;
    }
    x == z
}

/// `a * 10^s1 == b * 10^s2` with `s1 >= s2` says the same as
/// `a == b * 10^(s1 - s2)`.
proof fn lemma_cross_scaled(a: nat, b: nat, s1: nat, s2: nat)
    requires
        s1 >= s2,
    ensures
        (a * pow10(s2) == b * pow10(s1)) <==> (a == b * pow10((s1 - s2) as nat)),
{
    let d = (s1 - s2) as nat;
    lemma_pow10_add(d, s2);
    lemma_pow10_positive(s2);
    let p = pow10(s2);
    let q = pow10(d);
    assert((a * p == b * (q * p)) <==> (a == b * q)) by (nonlinear_arith)
        requires
            p >= 1,
    ;
}

impl Default for Decimal {
    /// Zero: positive, with scale 0.
    fn default() -> (d: Decimal)
        ensures
            d == (Decimal { negative: false, magnitude: 0, scale: 0 }),
    {
        Decimal { negative: false, magnitude: 0, scale: 0 }
    }
}

impl PartialEq for Decimal {
    /// Compares the numbers, not the representations: `1.0 == 1.00` and
    /// `-0 == 0`.
    fn eq(&self, other: &Decimal) -> (r: bool) {
        if self.magnitude == 0 && other.magnitude == 0 {
            return true;
        }
        if self.negative != other.negative {
            return false;
        }
        if self.scale >= other.scale {
            proof {
                lemma_cross_scaled(self.magnitude as nat, other.magnitude as nat, self.scale as nat, other.scale as nat);
            }
            scaled_equal(self.magnitude, other.magnitude, self.scale - other.scale)
        } else {
            proof {
                lemma_cross_scaled(other.magnitude as nat, self.magnitude as nat, other.scale as nat, self.scale as nat);
            }
            scaled_equal(other.magnitude, self.magnitude, other.scale - self.scale)
        }
    }
}

impl Eq for Decimal {
}

impl PartialEqSpecImpl for Decimal {
    open spec fn obeys_eq_spec() -> bool {
        true
    }

    open spec fn eq_spec(&self, other: &Decimal) -> bool {
        same_value(*self, *other)
    }
}

/// `10^n` for the scales that a `Decimal` can have is far below `2^128`.
pub proof fn lemma_pow10_bound(n: nat)
    requires
        n <= 28,
    ensures
        pow10(n) <= 10_000_000_000_000_000_000_000_000_000,
{
    lemma_pow10_monotone(n, 28);
    reveal_with_fuel(pow10, 29);
}

/// What `rust_decimal::Decimal::try_from_i128_with_scale` returns.
pub open spec fn try_from_i128_with_scale_spec(num: int, scale: u32) -> Result<Decimal, DecimalError> {
    if scale > MAX_SCALE {
        Err(DecimalError::ScaleExceedsMaximumPrecision(scale))
    } else if num > MAX_MAGNITUDE {
        Err(DecimalError::ExceedsMaximumPossibleValue)
    } else if num < -(MAX_MAGNITUDE as int) {
        Err(DecimalError::LessThanMinimumPossibleValue)
    } else {
        Ok(Decimal::from_mantissa(num, scale))
    }
}

/// The midpoint against which `rust_decimal::Decimal::round_dp` compares
/// the dropped part when it drops `diff` digits: `5 * 10^(diff - 1)`, built
/// in a 96-bit integer that keeps only the low 96 bits of each product, so
/// that it wraps around once `diff` is 30 or more.
pub open spec fn round_midpoint(diff: nat) -> nat {
    (5 * pow10((diff - 1) as nat)) % 0x1_0000_0000_0000_0000_0000_0000
}

/// `d` rounded to `dp` decimal places, half to even, as `rust_decimal`
/// does it: the dropped part is compared with `round_midpoint`, which is
/// one half of the dropped unit while fewer than 30 digits are dropped.
/// Nothing changes when `d` has no more than `dp` decimal places; a zero
/// keeps its sign, and a nonzero number that rounds to zero becomes
/// positive.
#[verifier::opaque]
pub open spec fn round_dp_spec(d: Decimal, dp: u32) -> Decimal {
    if d.scale <= dp {
        d
    } else if d.magnitude == 0 {
        Decimal { scale: dp, ..d }
    } else {
        let unit = pow10((d.scale - dp) as nat);
        let m = d.magnitude as nat;
        let q = m / unit;
        let r = m % unit;
        let half = round_midpoint((d.scale - dp) as nat);
        let q2: nat = if r > half || (r == half && q % 2 == 1) {
            q + 1
        } else {
            q
        };
        Decimal { negative: if q2 == 0 { false } else { d.negative }, magnitude: q2 as u128, scale: dp }
    }
}

pub proof fn lemma_round_dp_wf(d: Decimal, dp: u32)
    requires
        d.wf(),
        !(MAX_SCALE < dp < d.scale),
    ensures
        round_dp_spec(d, dp).wf(),
{
    reveal(scale_fits);
    reveal(round_dp_spec);
    if d.scale > dp && d.magnitude != 0 {
        let unit = pow10((d.scale - dp) as nat);
        assert(unit >= 10) by {
            lemma_pow10_positive((d.scale - dp - 1) as nat);
        }
        let m = d.magnitude as nat;
        assert(m / unit <= m / 10) by (nonlinear_arith)
            requires
                unit >= 10,
        ;
    }
}

/// How `rust_decimal` writes `d` without formatting options: a `-` for a
/// negative sign, then the digits of the magnitude, padded with zeros on
/// the left to more than `scale` digits, with a `.` before the last
/// `scale` of them when the scale is positive.
pub open spec fn plain_text(d: Decimal) -> Seq<char> {
    let ds = padded_digits(d.magnitude as nat, (d.scale + 1) as nat);
    let n = ds.len() - d.scale;
    let sign = if d.negative { seq!['-'] } else { Seq::<char>::empty() };
    let frac = if d.scale > 0 { seq!['.'] + ds.skip(n) } else { Seq::<char>::empty() };
    sign + ds.take(n) + frac
}

/// Whether a `Decimal` of this magnitude can have this scale: a scale of
/// at most `MAX_SCALE`, or, as rescaling makes it, one larger by no more
/// than the count of trailing zeros of a nonzero magnitude.
#[verifier::opaque]
pub open spec fn scale_fits(magnitude: u128, scale: u32) -> bool {
    scale <= MAX_SCALE || (magnitude > 0 && (magnitude as nat) % pow10((scale - MAX_SCALE) as nat)
        == 0)
}

/// Every magnitude can have a scale of at most `MAX_SCALE`.
pub proof fn lemma_scale_fits_small(magnitude: u128, scale: u32)
    requires
        scale <= MAX_SCALE,
    ensures
        scale_fits(magnitude, scale),
{
    reveal(scale_fits);
}

/// How many times, up to `k`, the magnitude `m` can be multiplied by 10
/// and stay within `MAX_MAGNITUDE`.
pub open spec fn growth(m: nat, k: nat) -> nat
    decreases k,
{
    if k == 0 || m * 10 > MAX_MAGNITUDE {
        0
    } else {
        1 + growth(m * 10, (k - 1) as nat)
    }
}

/// What `rust_decimal::Decimal::rescale` makes of `d` for the scale `n`:
/// nothing changes at the same scale; a zero takes the scale `n`, but at
/// most `MAX_SCALE`; a smaller scale drops digits, rounding on the first
/// dropped one (5 and above away from zero); a larger scale appends zeros
/// while the magnitude stays within `MAX_MAGNITUDE`, and stops where it
/// would not. The sign stays.
pub open spec fn rescale_spec(d: Decimal, n: u32) -> Decimal {
    if d.scale == n {
        d
    } else if d.magnitude == 0 {
        Decimal { scale: if n <= MAX_SCALE { n } else { MAX_SCALE }, ..d }
    } else if d.scale > n {
        let t = (d.magnitude as nat) / pow10((d.scale - n - 1) as nat);
        let up: nat = if t % 10 >= 5 { 1 } else { 0 };
        Decimal { magnitude: (t / 10 + up) as u128, scale: n, ..d }
    } else {
        let j = growth(d.magnitude as nat, (n - d.scale) as nat);
        Decimal { magnitude: ((d.magnitude as nat) * pow10(j)) as u128, scale: (d.scale + j) as u32, ..d }
    }
}

/// `d` at a scale of at most `MAX_SCALE`: a `Decimal` of a larger scale
/// has at least as many trailing zeros as its scale exceeds `MAX_SCALE`,
/// and these are taken off.
pub open spec fn reduced_spec(d: Decimal) -> Decimal {
    if d.scale <= MAX_SCALE {
        d
    } else {
        Decimal {
            magnitude: ((d.magnitude as nat) / pow10((d.scale - MAX_SCALE) as nat)) as u128,
            scale: MAX_SCALE,
            ..d
        }
    }
}

/// The growth of `m` by `k` steps is at most `k`, keeps the magnitude
/// within `MAX_MAGNITUDE` when it starts there, and is all of `k` when
/// `m * 10^k` fits.
pub proof fn lemma_growth(m: nat, k: nat)
    ensures
        growth(m, k) <= k,
        m <= MAX_MAGNITUDE ==> m * pow10(growth(m, k)) <= MAX_MAGNITUDE,
        m * pow10(k) <= MAX_MAGNITUDE ==> growth(m, k) == k,
    decreases k,
{
    assert(pow10(0) == 1);
    assert(m * pow10(0) == m);
    if k == 0 || m * 10 > MAX_MAGNITUDE {
        if k > 0 {
            lemma_pow10_add(1, (k - 1) as nat);
            lemma_pow10_positive((k - 1) as nat);
            reveal_with_fuel(pow10, 2);
            assert(m * pow10(k) >= m * 10) by (nonlinear_arith)
                requires
                    pow10(k) == 10 * pow10((k - 1) as nat),
                    pow10((k - 1) as nat) >= 1,
            ;
        }
    } else {
        lemma_growth(m * 10, (k - 1) as nat);
        let j = growth(m * 10, (k - 1) as nat);
        lemma_pow10_add(1, j);
        lemma_pow10_add(1, (k - 1) as nat);
        reveal_with_fuel(pow10, 2);
        assert((m * 10) * pow10(j) == m * pow10(j + 1)) by (nonlinear_arith)
            requires
                pow10(j + 1) == 10 * pow10(j),
        ;
        assert((m * 10) * pow10((k - 1) as nat) == m * pow10(k)) by (nonlinear_arith)
            requires
                pow10(k) == 10 * pow10((k - 1) as nat),
        ;
    }
}

/// `(m * 10^a) / 10^b == m * 10^(a - b)` for `b <= a`.
proof fn lemma_div_pow10(m: nat, a: nat, b: nat)
    requires
        b <= a,
    ensures
        (m * pow10(a)) / pow10(b) == m * pow10((a - b) as nat),
        (m * pow10(a)) % pow10(b) == 0,
{
    lemma_pow10_add((a - b) as nat, b);
    lemma_pow10_positive(b);
    let x = m * pow10((a - b) as nat);
    assert(m * pow10(a) == x * pow10(b)) by (nonlinear_arith)
        requires
            pow10(a) == pow10((a - b) as nat) * pow10(b),
            x == m * pow10((a - b) as nat),
    ;
    vstd::arithmetic::div_mod::lemma_div_by_multiple(x as int, pow10(b) as int);
    vstd::arithmetic::div_mod::lemma_mod_multiples_basic(x as int, pow10(b) as int);
}

/// A `Decimal` is rebuilt exactly by rescaling its reduced form back to
/// its own scale.
pub proof fn lemma_rescale_reduced(d: Decimal)
    requires
        d.wf(),
    ensures
        rescale_spec(reduced_spec(d), d.scale) == d,
        reduced_spec(d).scale <= MAX_SCALE,
        reduced_spec(d).magnitude <= MAX_MAGNITUDE,
{
    reveal(scale_fits);
    if d.scale > MAX_SCALE {
        let j = (d.scale - MAX_SCALE) as nat;
        let m = d.magnitude as nat;
        lemma_pow10_positive(j);
        let q = m / pow10(j);
        assert(m == q * pow10(j)) by {
            vstd::arithmetic::div_mod::lemma_fundamental_div_mod(m as int, pow10(j) as int);
        }
        assert(q <= m) by (nonlinear_arith)
            requires
                m == q * pow10(j),
                pow10(j) >= 1,
        ;
        assert(q > 0) by (nonlinear_arith)
            requires
                m == q * pow10(j),
                m > 0,
        ;
        lemma_growth(q, j);
    }
}

/// Rescaling keeps a `Decimal` within its limits.
pub proof fn lemma_rescale_wf(d: Decimal, n: u32)
    requires
        d.wf(),
    ensures
        rescale_spec(d, n).wf(),
{
    reveal(scale_fits);
    let m = d.magnitude as nat;
    let s = d.scale as nat;
    if d.scale == n || m == 0 {
    } else if d.scale > n {
        let drop = (s - n) as nat;
        let t = m / pow10((drop - 1) as nat);
        lemma_pow10_positive((drop - 1) as nat);
        assert(t <= m) by (nonlinear_arith)
            requires
                t == m / pow10((drop - 1) as nat),
                pow10((drop - 1) as nat) >= 1,
        ;
        if n > MAX_SCALE {
            let e = (s - MAX_SCALE) as nat;
            let q = m / pow10(e);
            lemma_pow10_positive(e);
            assert(m == q * pow10(e)) by {
                vstd::arithmetic::div_mod::lemma_fundamental_div_mod(m as int, pow10(e) as int);
            }
            lemma_div_pow10(q, e, (drop - 1) as nat);
            let k = (n - MAX_SCALE) as nat;
            assert(e - (drop - 1) == k + 1);
            lemma_pow10_add(1, k);
            reveal_with_fuel(pow10, 2);
            let r = q * pow10(k);
            assert(t == r * 10) by (nonlinear_arith)
                requires
                    t == q * pow10(k + 1),
                    pow10(k + 1) == 10 * pow10(k),
                    r == q * pow10(k),
            ;
            assert(t % 10 == 0 && t / 10 == r) by (nonlinear_arith)
                requires
                    t == r * 10,
            ;
            lemma_div_pow10(q, k, k);
            lemma_pow10_positive(k);
            assert(pow10(0) == 1);
            assert(r % pow10(k) == 0);
            assert(r > 0) by (nonlinear_arith)
                requires
                    r == q * pow10(k),
                    q * pow10(e) == m,
                    m > 0,
                    pow10(k) >= 1,
            ;
            assert(r <= m) by (nonlinear_arith)
                requires
                    t == r * 10,
                    t <= m,
            ;
        } else {
            assert(t / 10 + 1 <= MAX_MAGNITUDE) by (nonlinear_arith)
                requires
                    t <= m,
                    m <= MAX_MAGNITUDE,
            ;
        }
    } else {
        let k = (n - s) as nat;
        let j = growth(m, k);
        lemma_growth(m, k);
        let r = m * pow10(j);
        if s + j > MAX_SCALE {
            let e = (s + j - MAX_SCALE) as nat;
            if s <= MAX_SCALE {
                lemma_div_pow10(m, j, e);
            } else {
                let e0 = (s - MAX_SCALE) as nat;
                let q = m / pow10(e0);
                lemma_pow10_positive(e0);
                assert(m == q * pow10(e0)) by {
                    vstd::arithmetic::div_mod::lemma_fundamental_div_mod(m as int, pow10(e0) as int);
                }
                lemma_pow10_add(e0, j);
                assert(r == q * pow10(e)) by (nonlinear_arith)
                    requires
                        r == m * pow10(j),
                        m == q * pow10(e0),
                        pow10(e) == pow10(e0) * pow10(j),
                ;
                lemma_div_pow10(q, e, e);
            }
            lemma_pow10_positive(j);
            assert(r > 0) by (nonlinear_arith)
                requires
                    r == m * pow10(j),
                    m > 0,
                    pow10(j) >= 1,
            ;
        }
    }
}

/// Calls `rust_decimal::Decimal::try_from_i128_with_scale`. Its source
/// returns `ScaleExceedsMaximumPrecision` for a scale above 28, then
/// `ExceedsMaximumPossibleValue` or `LessThanMinimumPossibleValue` for a
/// mantissa beyond `±(2^96 - 1)`, and otherwise the number with that sign,
/// magnitude and scale (zero with a positive sign).
#[verifier::external_body]
fn rd_try_from_i128_with_scale(num: i128, scale: u32) -> (r: Result<Decimal, DecimalError>)
    ensures
        r == try_from_i128_with_scale_spec(num as int, scale),
{
    match rust_decimal::Decimal::try_from_i128_with_scale(num, scale) {
        Ok(v) => Ok(Decimal { negative: v.is_sign_negative(), magnitude: v.abs().mantissa() as u128, scale: v.scale() }),
        Err(OutsideError::ErrorString(s)) => Err(DecimalError::ErrorString(s)),
        Err(OutsideError::ExceedsMaximumPossibleValue) => Err(DecimalError::ExceedsMaximumPossibleValue),
        Err(OutsideError::LessThanMinimumPossibleValue) => Err(DecimalError::LessThanMinimumPossibleValue),
        Err(OutsideError::Underflow) => Err(DecimalError::Underflow),
        Err(OutsideError::ScaleExceedsMaximumPrecision(s)) => Err(DecimalError::ScaleExceedsMaximumPrecision(s)),
        Err(OutsideError::ConversionTo(s)) => Err(DecimalError::ConversionTo(s)),
    }
}

/// Calls `rust_decimal::Decimal::round_dp` (rounding half to even) on
/// the number that `r` rescaled to `scale` is: `rust_decimal` makes no
/// number of a scale above 28 but by rescaling. Its source returns the
/// number unchanged when its scale is at most `dp`; a zero with scale `dp`
/// and the same sign when it is zero; and otherwise the mantissa divided by
/// `10^(scale - dp)`, plus one when the dropped part is above the midpoint,
/// or equal to it with an odd quotient, at scale `dp`, positive when that
/// is zero. It builds the midpoint `5 * 10^(scale - dp - 1)` by repeated
/// `mul_by_u32`, which drops the carry out of 96 bits (`round_midpoint`). It panics (in `from_parts`) when `dp` is above 28 and below the
/// scale.
#[verifier::external_body]
fn rd_round_dp(r: Decimal, scale: u32, dp: u32) -> (res: Decimal)
    requires
        r.magnitude <= MAX_MAGNITUDE,
        r.scale <= MAX_SCALE,
        !(MAX_SCALE < dp < rescale_spec(r, scale).scale),
    ensures
        res == round_dp_spec(rescale_spec(r, scale), dp),
{
    let mut v = rust_decimal::Decimal::from_i128_with_scale(r.magnitude as i128, r.scale);
    v.set_sign_negative(r.negative);
    v.rescale(scale);
    let v = v.round_dp(dp);
    Decimal { negative: v.is_sign_negative(), magnitude: v.abs().mantissa() as u128, scale: v.scale() }
}

/// Calls `rust_decimal::Decimal::rescale`, twice: once to rebuild the
/// number that `r` rescaled to `scale` is, then to the scale `n`. Its source
/// does what `rescale_spec` says: at the same scale nothing; for a zero the
/// new scale capped at 28; down, it divides by `10^(diff - 1)` and then by
/// 10, adding one when that last remainder is 5 or more; up, it multiplies
/// by 10 as often as the 96-bit mantissa allows, up to the new scale; the
/// sign stays.
#[verifier::external_body]
fn rd_rescale(r: Decimal, scale: u32, n: u32) -> (res: Decimal)
    requires
        r.magnitude <= MAX_MAGNITUDE,
        r.scale <= MAX_SCALE,
    ensures
        res == rescale_spec(rescale_spec(r, scale), n),
{
    let mut v = rust_decimal::Decimal::from_i128_with_scale(r.magnitude as i128, r.scale);
    v.set_sign_negative(r.negative);
    v.rescale(scale);
    v.rescale(n);
    Decimal { negative: v.is_sign_negative(), magnitude: v.abs().mantissa() as u128, scale: v.scale() }
}

/// Calls `<rust_decimal::Decimal as Display>::to_string` with no
/// formatting options, on the number that `r` rescaled to `scale` is. Its
/// source writes the digits of the magnitude, padded with zeros to at
/// least `scale` digits, puts a `.` before the last `scale` of them (with a
/// `0` before the `.` when nothing is left before it), writes `0` for a
/// zero of scale 0, and puts a `-` in front when the sign is negative. It
/// writes into 32-byte buffers, and panics for a scale above 30.
#[verifier::external_body]
fn rd_to_string(r: Decimal, scale: u32) -> (s: String)
    requires
        r.magnitude <= MAX_MAGNITUDE,
        r.scale <= MAX_SCALE,
        rescale_spec(r, scale).scale <= DISPLAY_MAX_SCALE,
    ensures
        s@ == plain_text(rescale_spec(r, scale)),
{
    let mut v = rust_decimal::Decimal::from_i128_with_scale(r.magnitude as i128, r.scale);
    v.set_sign_negative(r.negative);
    v.rescale(scale);
    v.to_string()
}

} // verus!
