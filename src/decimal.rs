//! Decimal text of signed integers: how a timestamp is written, and how it
//! is read back.

use vstd::prelude::*;

verus! {

/// The ten decimal digits, by value.
pub open spec fn digit_chars() -> Seq<char> {
    seq!['0', '1', '2', '3', '4', '5', '6', '7', '8', '9']
}

pub open spec fn is_digit(c: char) -> bool {
    '0' <= c && c <= '9'
}

pub open spec fn digit_value(c: char) -> int {
    c as int - '0' as int
}

/// The digits of `n` in base ten, most significant first, without leading
/// zeros (`0` is the single digit `0`).
pub open spec fn digits_of(n: nat) -> Seq<char>
    decreases n,
{
    if n < 10 {
        seq![digit_chars()[n as int]]
    } else {
        digits_of(n / 10).push(digit_chars()[(n % 10) as int])
    }
}

/// The decimal form of `i`, with a leading `-` when it is negative.
pub open spec fn decimal_of(i: int) -> Seq<char> {
    if i < 0 {
        seq!['-'] + digits_of((-i) as nat)
    } else {
        digits_of(i as nat)
    }
}

/// The value of a string of decimal digits.
pub open spec fn digits_value(s: Seq<char>) -> int
    decreases s.len(),
{
    if s.len() == 0 {
        0
    } else {
        10 * digits_value(s.drop_last()) + digit_value(s.last())
    }
}

pub open spec fn all_digits(s: Seq<char>) -> bool {
    forall|i: int| 0 <= i < s.len() ==> is_digit(#[trigger] s[i])
}

/// The `i64` that `s` spells: an optional `+` or `-`, then one or more
/// decimal digits and nothing else, with a value in range.
pub open spec fn parse_i64_spec(s: Seq<char>) -> Option<i64> {
    let neg = s.len() > 0 && s[0] == '-';
    let body = if s.len() > 0 && (s[0] == '-' || s[0] == '+') {
        s.skip(1)
    } else {
        s
    };
    let v = if neg {
        -digits_value(body)
    } else {
        digits_value(body)
    };
    if body.len() == 0 || !all_digits(body) || v < i64::MIN || v > i64::MAX {
        None
    } else {
        Some(v as i64)
    }
}

/// Relies on `i64`'s `Display`, through `to_string`: the decimal form, with a
/// leading `-` for a negative value.
#[verifier::external_body]
pub(crate) fn decimal_string(x: i64) -> (r: String)
    ensures
        r@ == decimal_of(x as int),
{
    x.to_string()
}

/// Relies on `str::parse::<i64>`: an optional sign, then ASCII digits only,
/// with no other character; an empty string, a lone sign and a value out of
/// range are errors.
#[verifier::external_body]
pub(crate) fn parse_i64(s: &str) -> (r: Option<i64>)
    ensures
        r == parse_i64_spec(s@),
{
    s.parse::<i64>().ok()
}

/// The digits of `n` are digits, at least one, and spell `n`.
pub proof fn lemma_digits_of(n: nat)
    ensures
        digits_of(n).len() >= 1,
        all_digits(digits_of(n)),
        digits_value(digits_of(n)) == n,
    decreases n,
{
    if n < 10 {
        let s = digits_of(n);
        assert(s.drop_last() =~= Seq::<char>::empty());
        assert(digits_value(s.drop_last()) == 0);
        assert(is_digit(s[0]) && digit_value(s[0]) == n) by {
            if n == 0 {
            } else if n == 1 {
            } else if n == 2 {
            } else if n == 3 {
            } else if n == 4 {
            } else if n == 5 {
            } else if n == 6 {
            } else if n == 7 {
            } else if n == 8 {
            } else {
            }
        }
    } else {
        lemma_digits_of(n / 10);
        let d = (n % 10) as nat;
        lemma_digits_of(d);
        let s = digits_of(n);
        assert(s.drop_last() =~= digits_of(n / 10));
        assert(digits_of(d) == seq![digit_chars()[d as int]]);
        assert(s.last() == digits_of(d)[0]);
        assert(digits_value(digits_of(d)) == digit_value(digits_of(d)[0])) by {
            assert(digits_of(d).drop_last() =~= Seq::<char>::empty());
        }
        assert forall|i: int| 0 <= i < s.len() implies is_digit(#[trigger] s[i]) by {
            if i < s.len() - 1 {
                assert(s[i] == digits_of(n / 10)[i]);
            }
        }
    }
}

/// Reading back the decimal form of a value gives the value.
pub proof fn lemma_parse_decimal(x: i64)
    ensures
        parse_i64_spec(decimal_of(x as int)) == Some(x),
{
    let s = decimal_of(x as int);
    if x < 0 {
        let m = (-(x as int)) as nat;
        lemma_digits_of(m);
        assert(s.skip(1) =~= digits_of(m));
    } else {
        lemma_digits_of(x as nat);
        assert(is_digit(s[0]));
    }
}

} // verus!
