//! Decimal digit strings: the spec functions that say what a number looks
//! like when it is written out, and the facts about them that the
//! formatting and parsing proofs use.

use vstd::prelude::*;

verus! {

/// `10` to the power `n`.
pub open spec fn pow10(n: nat) -> nat
    decreases n,
{
    if n == 0 {
        1
    } else {
        10 * pow10((n - 1) as nat)
    }
}

/// The character of the decimal digit `d` (`d < 10`).
pub open spec fn digit_char(d: nat) -> char {
    if d == 0 { '0' }
    else if d == 1 { '1' }
    else if d == 2 { '2' }
    else if d == 3 { '3' }
    else if d == 4 { '4' }
    else if d == 5 { '5' }
    else if d == 6 { '6' }
    else if d == 7 { '7' }
    else if d == 8 { '8' }
    else { '9' }
}

/// Whether `c` is one of the characters `0` to `9`.
pub open spec fn is_digit_char(c: char) -> bool {
    '0' <= c <= '9'
}

/// The decimal digits of `n`, most significant first, without leading
/// zeros; `0` is written as the single digit `0`.
pub open spec fn digits_of(n: nat) -> Seq<char>
    decreases n,
{
    if n < 10 {
        seq![digit_char(n)]
    } else {
        digits_of(n / 10).push(digit_char(n % 10))
    }
}

/// How an integer is written in decimal: a `-` for a negative number,
/// then the digits of its absolute value.
pub open spec fn int_text(n: int) -> Seq<char> {
    if n < 0 {
        seq!['-'] + digits_of((-n) as nat)
    } else {
        digits_of(n as nat)
    }
}

/// `n` zeros.
pub open spec fn zeros(n: nat) -> Seq<char> {
    Seq::new(n, |i: int| '0')
}

/// The digits of `n`, padded on the left with zeros to at least `width`
/// characters.
pub open spec fn padded_digits(n: nat, width: nat) -> Seq<char> {
    let d = digits_of(n);
    if d.len() < width {
        zeros((width - d.len()) as nat) + d
    } else {
        d
    }
}

/// `s` with a comma put before every group of three characters counted
/// from its end, except before the first character.
pub open spec fn group3(s: Seq<char>) -> Seq<char>
    decreases s.len(),
{
    if s.len() <= 3 {
        s
    } else {
        group3(s.take(s.len() - 3)) + seq![','] + s.skip(s.len() - 3)
    }
}

/// The number that a string of decimal digits denotes.
pub open spec fn digits_value(s: Seq<char>) -> nat
    decreases s.len(),
{
    if s.len() == 0 {
        0
    } else {
        10 * digits_value(s.drop_last()) + char_digit(s.last())
    }
}

/// The value of a digit character.
pub open spec fn char_digit(c: char) -> nat {
    if is_digit_char(c) {
        ((c as int) - ('0' as int)) as nat
    } else {
        0
    }
}

pub proof fn lemma_digit_char(d: nat)
    requires
        d < 10,
    ensures
        is_digit_char(digit_char(d)),
        char_digit(digit_char(d)) == d,
        (digit_char(d) as int) == d + 48,
{
}

pub proof fn lemma_pow10_positive(n: nat)
    ensures
        pow10(n) >= 1,
    decreases n,
{
    if n > 0 {
        lemma_pow10_positive((n - 1) as nat);
    }
}

/// `10^a <= 10^b` when `a <= b`.
pub proof fn lemma_pow10_monotone(a: nat, b: nat)
    requires
        a <= b,
    ensures
        pow10(a) <= pow10(b),
    decreases b,
{
    lemma_pow10_positive(b);
    if a < b {
        lemma_pow10_monotone(a, (b - 1) as nat);
    }
}

/// `10^(a + b) == 10^a * 10^b`.
pub proof fn lemma_pow10_add(a: nat, b: nat)
    ensures
        pow10(a + b) == pow10(a) * pow10(b),
    decreases a,
{
    if a > 0 {
        lemma_pow10_add((a - 1) as nat, b);
        assert(pow10(a + b) == 10 * pow10((a - 1 + b) as nat));
        assert(10 * (pow10((a - 1) as nat) * pow10(b)) == (10 * pow10((a - 1) as nat)) * pow10(b))
            by (nonlinear_arith);
    } else {
        assert(pow10(0) == 1);
    }
}

/// Every character of `digits_of(n)` is a digit, and the digits denote `n`.
pub proof fn lemma_digits_of(n: nat)
    ensures
        digits_of(n).len() >= 1,
        forall|i: int| 0 <= i < digits_of(n).len() ==> #[trigger] is_digit_char(digits_of(n)[i]),
        digits_value(digits_of(n)) == n,
        n >= 10 ==> digits_of(n)[0] != '0',
    decreases n,
{
    if n < 10 {
        lemma_digit_char(n);
        let d = seq![digit_char(n)];
        assert(d.drop_last() =~= Seq::<char>::empty());
        assert(digits_value(d.drop_last()) == 0);
        assert(digits_value(d) == 10 * digits_value(d.drop_last()) + char_digit(d.last()));
    } else {
        lemma_digits_of(n / 10);
        lemma_digit_char(n % 10);
        let p = digits_of(n / 10);
        let d = p.push(digit_char(n % 10));
        assert(d.drop_last() =~= p);
        assert(digits_value(d) == 10 * digits_value(d.drop_last()) + char_digit(d.last()));
        assert(n == 10 * (n / 10) + n % 10);
        assert(d[0] == p[0]);
    }
}

/// `digits_of(n)` has more than `k >= 1` characters exactly when `n >= 10^k`.
pub proof fn lemma_digits_len(n: nat, k: nat)
    requires
        k >= 1,
    ensures
        digits_of(n).len() > k <==> n >= pow10(k),
    decreases n,
{
    lemma_pow10_positive((k - 1) as nat);
    lemma_digits_of(n);
    if n < 10 {
    } else if k == 1 {
        lemma_digits_of(n / 10);
    } else {
        lemma_digits_len(n / 10, (k - 1) as nat);
        assert(n / 10 >= pow10((k - 1) as nat) <==> n >= pow10(k));
    }
}

} // verus!
