//! Decimal numerals over bytes.
//!
//! Page tokens and record timestamps are stored as plain base-10 numerals.
//! This module defines the canonical digit sequence of a number, its value,
//! and verified rendering and parsing functions, together with the
//! round-trip lemmas the rest of the crate builds on.

use vstd::prelude::*;

verus! {

/// The ASCII digit byte for `d` (which should be below ten).
pub open spec fn digit_byte(d: nat) -> u8 {
    (0x30 + (d % 10)) as u8
}

/// Whether `b` is an ASCII decimal digit.
pub open spec fn is_digit(b: u8) -> bool {
    0x30 <= b <= 0x39
}

/// The numeric value of the digit byte `b`.
pub open spec fn digit_val(b: u8) -> nat {
    (b - 0x30) as nat
}

/// The canonical decimal digits of `n`, most significant first,
/// without leading zeros.
pub open spec fn dec_digits(n: nat) -> Seq<u8>
    decreases n,
{
    if n < 10 {
        seq![digit_byte(n)]
    } else {
        dec_digits(n / 10).push(digit_byte(n % 10))
    }
}

/// The value of a sequence of digit bytes, most significant first.
pub open spec fn digits_value(s: Seq<u8>) -> nat
    decreases s.len(),
{
    if s.len() == 0 {
        0
    } else {
        digits_value(s.drop_last()) * 10 + digit_val(s.last())
    }
}

/// Whether every byte of `s` is an ASCII decimal digit.
pub open spec fn all_digits(s: Seq<u8>) -> bool {
    forall|i: int| 0 <= i < s.len() ==> is_digit(#[trigger] s[i])
}

/// Whether `s` is a canonical numeral: nonempty, all digits,
/// and without a leading zero (except for "0" itself).
pub open spec fn canonical_digits(s: Seq<u8>) -> bool {
    &&& s.len() >= 1
    &&& all_digits(s)
    &&& (s.len() > 1 ==> s[0] != 0x30)
}

/// The canonical digits of a number are a canonical numeral.
pub proof fn lemma_dec_digits_canonical(n: nat)
    ensures
        canonical_digits(dec_digits(n)),
        dec_digits(n)[0] != 0x30 <==> n >= 1,
    decreases n,
{
    if n >= 10 {
        lemma_dec_digits_canonical(n / 10);
    }
}

/// Evaluating the canonical digits of `n` gives back `n`.
pub proof fn lemma_dec_digits_value(n: nat)
    ensures
        digits_value(dec_digits(n)) == n,
    decreases n,
{
    if n < 10 {
        assert(dec_digits(n).drop_last() =~= Seq::<u8>::empty());
        assert(digits_value(Seq::<u8>::empty()) == 0);
        assert(dec_digits(n).last() == digit_byte(n));
        assert(digit_val(digit_byte(n)) == n);
    } else {
        lemma_dec_digits_value(n / 10);
        let s = dec_digits(n);
        assert(s == dec_digits(n / 10).push(digit_byte(n % 10)));
        assert(s.drop_last() =~= dec_digits(n / 10));
        assert(s.last() == digit_byte(n % 10));
        assert(digit_val(digit_byte(n % 10)) == n % 10);
        assert(s.len() > 0);
        assert(digits_value(s) == digits_value(s.drop_last()) * 10 + digit_val(s.last()));
        assert(digits_value(s) == (n / 10) * 10 + (n % 10));
        assert(n == (n / 10) * 10 + n % 10) by (nonlinear_arith);
    }
}

/// A nonempty digit string without a leading zero has a positive value,
/// and at least ten when it has two or more digits.
pub proof fn lemma_digits_value_lower_bound(s: Seq<u8>)
    requires
        s.len() >= 1,
        all_digits(s),
        s[0] != 0x30,
    ensures
        digits_value(s) >= 1,
        s.len() >= 2 ==> digits_value(s) >= 10,
    decreases s.len(),
{
    if s.len() == 1 {
    } else {
        lemma_digits_value_lower_bound(s.drop_last());
    }
}

/// A canonical numeral is the canonical digit string of its own value:
/// canonical numerals and numbers are in bijection.
pub proof fn lemma_canonical_digits_of_value(s: Seq<u8>)
    requires
        canonical_digits(s),
    ensures
        dec_digits(digits_value(s)) == s,
    decreases s.len(),
{
    let v = digits_value(s);
    if s.len() == 1 {
        assert(s.drop_last() =~= Seq::<u8>::empty());
        assert(digits_value(Seq::<u8>::empty()) == 0);
        assert(is_digit(s[0]));
        assert(v == digit_val(s.last()));
        assert(v < 10);
        assert(digit_byte(v) == s[0]);
        assert(dec_digits(v) =~= s);
    } else {
        let pre = s.drop_last();
        let d = digit_val(s.last());
        lemma_canonical_digits_of_value(pre);
        lemma_digits_value_lower_bound(pre);
        assert(v == digits_value(pre) * 10 + d);
        assert(v >= 10);
        assert(is_digit(s[s.len() - 1]));
        assert(d < 10);
        assert(v / 10 == digits_value(pre) && v % 10 == d) by (nonlinear_arith)
            requires
                v == digits_value(pre) * 10 + d,
                d < 10,
        ;
        assert(digit_byte(v % 10) == s.last());
        assert(dec_digits(v) == dec_digits(v / 10).push(digit_byte(v % 10)));
        assert(dec_digits(v / 10) == pre);
        assert(dec_digits(v) =~= s);
    }
}

/// Appending a digit multiplies the value by ten and adds the digit.
pub proof fn lemma_digits_value_snoc(s: Seq<u8>, i: int)
    requires
        0 <= i < s.len(),
    ensures
        digits_value(s.take(i + 1)) == digits_value(s.take(i)) * 10 + digit_val(s[i]),
{
    assert(s.take(i + 1).drop_last() =~= s.take(i));
    assert(s.take(i + 1).last() == s[i]);
}

/// The value of a digit string only grows as more digits are taken.
pub proof fn lemma_digits_value_mono(s: Seq<u8>, i: int, j: int)
    requires
        0 <= i <= j <= s.len(),
    ensures
        digits_value(s.take(i)) <= digits_value(s.take(j)),
    decreases j - i,
{
    if i < j {
        lemma_digits_value_mono(s, i, j - 1);
        lemma_digits_value_snoc(s, j - 1);
    }
}

/// Renders `n` as its canonical decimal digit bytes.
pub fn render_u128(n: u128) -> (r: Vec<u8>)
    ensures
        r@ == dec_digits(n as nat),
    decreases n,
{
    let d: u8 = 0x30 + (n % 10) as u8;
    if n < 10 {
        let mut v: Vec<u8> = Vec::new();
        v.push(d);
        proof {
            assert(v@ =~= dec_digits(n as nat));
        }
        v
    } else {
        let mut v = render_u128(n / 10);
        v.push(d);
        proof {
            assert(v@ =~= dec_digits(n as nat));
        }
        v
    }
}

/// Renders `n` as its canonical decimal digit bytes.
pub fn render_usize(n: usize) -> (r: Vec<u8>)
    ensures
        r@ == dec_digits(n as nat),
{
    render_u128(n as u128)
}

} // verus!
