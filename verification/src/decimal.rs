//! Decimal text of unsigned 64-bit numbers, as it stands in an object header.

use vstd::prelude::*;

verus! {

/// The ASCII digit that stands for `d`, for `d` below ten.
pub open spec fn digit(d: nat) -> u8 {
    ('0' as u8 + d) as u8
}

/// Whether `b` is an ASCII decimal digit.
pub open spec fn is_digit(b: u8) -> bool {
    '0' as u8 <= b <= '9' as u8
}

/// Whether every byte of `s` is an ASCII decimal digit.
pub open spec fn all_digits(s: Seq<u8>) -> bool {
    forall|i: int| 0 <= i < s.len() ==> is_digit(#[trigger] s[i])
}

/// The shortest decimal text of `n`: no sign and no leading zero.
pub open spec fn decimal(n: nat) -> Seq<u8>
    decreases n,
{
    if n < 10 {
        seq![digit(n)]
    } else {
        decimal(n / 10).push(digit(n % 10))
    }
}

/// The number that a sequence of digits stands for, most significant first.
pub open spec fn digits_value(s: Seq<u8>) -> nat
    decreases s.len(),
{
    if s.len() == 0 {
        0
    } else {
        (digits_value(s.drop_last()) * 10 + (s.last() - '0' as u8)) as nat
    }
}

/// The digits of a size token: the token itself, or what follows one
/// leading `+`.
pub open spec fn unsigned_part(token: Seq<u8>) -> Seq<u8> {
    if token.len() > 0 && token[0] == '+' as u8 {
        token.skip(1)
    } else {
        token
    }
}

/// The number that a size token stands for: an optional `+`, then one or more
/// decimal digits whose value fits 64 bits. Any other token stands for none.
pub open spec fn parse_decimal(token: Seq<u8>) -> Option<u64> {
    let digits = unsigned_part(token);
    if digits.len() > 0 && all_digits(digits) && digits_value(digits) <= u64::MAX {
        Some(digits_value(digits) as u64)
    } else {
        None
    }
}

/// The text of a number is made of digits, is not empty and stands for that
/// number.
pub proof fn lemma_decimal_digits(n: nat)
    ensures
        decimal(n).len() >= 1,
        all_digits(decimal(n)),
        digits_value(decimal(n)) == n,
    decreases n,
{
    if n < 10 {
        assert(decimal(n).drop_last() =~= Seq::<u8>::empty());
        assert(digits_value(Seq::<u8>::empty()) == 0);
        assert(decimal(n).last() == digit(n));
    } else {
        lemma_decimal_digits(n / 10);
        assert(decimal(n).drop_last() =~= decimal(n / 10));
        assert(decimal(n).last() == digit(n % 10));
    }
}

/// Reading the text of a number gives the number back.
pub proof fn lemma_decimal_round_trip(n: nat)
    requires
        n <= u64::MAX,
    ensures
        parse_decimal(decimal(n)) == Some(n as u64),
{
    lemma_decimal_digits(n);
}

/// A longer sequence of digits stands for at least what its prefix stands for.
pub proof fn lemma_digits_value_prefix(s: Seq<u8>, k: int)
    requires
        all_digits(s),
        0 <= k <= s.len(),
    ensures
        digits_value(s.take(k)) <= digits_value(s),
    decreases s.len() - k,
{
    if k < s.len() {
        lemma_digits_value_prefix(s, k + 1);
        assert(s.take(k + 1).drop_last() =~= s.take(k));
        assert(is_digit(s[k]));
    } else {
        assert(s.take(k) =~= s);
    }
}

/// Appends the decimal text of `n` to `out`.
pub fn write_decimal(n: u64, out: &mut Vec<u8>)
    ensures
        final(out)@ == old(out)@ + decimal(n as nat),
    decreases n,
{
    if n >= 10 {
        write_decimal(n / 10, out);
    }
    let d: u8 = (n % 10) as u8;
    out.push('0' as u8 + d);
    assert(final(out)@ =~= old(out)@ + decimal(n as nat));
}

/// Reads a size token: an optional `+`, then decimal digits. Returns `None`
/// for any other token and for a number that does not fit 64 bits.
pub fn parse_u64(token: &[u8]) -> (r: Option<u64>)
    ensures
        r == parse_decimal(token@),
{
    let start: usize = if token.len() > 0 && token[0] == '+' as u8 { 1 } else { 0 };
    let ghost digits = unsigned_part(token@);
    if start >= token.len() {
        return None;
    }
    let mut value: u64 = 0;
    let mut i: usize = start;
    while i < token.len()
        invariant
            start <= i <= token@.len(),
            digits == token@.skip(start as int),
            digits == unsigned_part(token@),
            all_digits(digits.take(i - start)),
            value == digits_value(digits.take(i - start)),
        decreases token@.len() - i,
    {
        let b: u8 = token[i];
        if b < '0' as u8 || b > '9' as u8 {
            assert(!is_digit(digits[i - start]));
            return None;
        }
        let d: u64 = (b - '0' as u8) as u64;
        let ghost next = digits.take(i - start + 1);
        proof {
            assert(next.drop_last() =~= digits.take(i - start));
            assert(next.last() == b);
            assert forall|j: int| 0 <= j < next.len() implies is_digit(#[trigger] next[j]) by {
                if j < i - start {
                    assert(next[j] == digits.take(i - start)[j]);
                }
            }
        }
        if value > (u64::MAX - d) / 10 {
            proof {
                assert(digits_value(next) > u64::MAX);
                if all_digits(digits) {
                    lemma_digits_value_prefix(digits, i - start + 1);
                }
            }
            return None;
        }
        value = value * 10 + d;
        i = i + 1;
    }
    proof {
        assert(digits.take(i - start) =~= digits);
    }
    Some(value)
}

} // verus!
