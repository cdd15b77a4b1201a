//! Decimal integer literals that fit in 32 bits.

use crate::chars::{digit, is_digit};
use vstd::prelude::*;

verus! {

/// The number a decimal digit stands for.
pub open spec fn digit_value(c: char) -> int {
    c as int - '0' as int
}

/// Every character of `s` is a decimal digit.
pub open spec fn all_digits(s: Seq<char>) -> bool {
    forall|i: int| 0 <= i < s.len() ==> is_digit(#[trigger] s[i])
}

/// The number that the digits of `s` write in base ten.
pub open spec fn decimal_value(s: Seq<char>) -> int
    decreases s.len(),
{
    if s.len() == 0 {
        0
    } else {
        10 * decimal_value(s.drop_last()) + digit_value(s.last())
    }
}

/// `s` has the form of an integer: an optional minus sign, then one or more
/// decimal digits.
pub open spec fn is_integer_text(s: Seq<char>) -> bool {
    if s.len() > 0 && s[0] == '-' {
        s.len() > 1 && all_digits(s.drop_first())
    } else {
        s.len() > 0 && all_digits(s)
    }
}

/// The number that a text of integer form writes.
pub open spec fn signed_value(s: Seq<char>) -> int {
    if s.len() > 0 && s[0] == '-' {
        -decimal_value(s.drop_first())
    } else {
        decimal_value(s)
    }
}

/// The 32-bit integer that `s` writes, if it has integer form and its number
/// fits.
pub open spec fn integer_value(s: Seq<char>) -> Option<i32> {
    if is_integer_text(s) && i32::MIN <= signed_value(s) <= i32::MAX {
        Some(signed_value(s) as i32)
    } else {
        None
    }
}

/// A digit string writes a number that is at least the number written by any
/// of its prefixes, and never a negative one.
pub proof fn lemma_decimal_value_grows(s: Seq<char>, k: int)
    requires
        all_digits(s),
        0 <= k <= s.len(),
    ensures
        0 <= decimal_value(s.take(k)) <= decimal_value(s),
    decreases s.len() - k,
{
    if k == s.len() {
        assert(s.take(k) == s);
        lemma_decimal_value_nonnegative(s);
    } else {
        let shorter = s.drop_last();
        assert(shorter.take(k) == s.take(k));
        lemma_decimal_value_grows(shorter, k);
    }
}

/// A digit string never writes a negative number.
pub proof fn lemma_decimal_value_nonnegative(s: Seq<char>)
    requires
        all_digits(s),
    ensures
        0 <= decimal_value(s),
    decreases s.len(),
{
    if s.len() > 0 {
        lemma_decimal_value_nonnegative(s.drop_last());
    }
}

/// Reads `text` as a decimal integer of 32 bits: an optional minus sign and
/// then digits only. Leading zeros are allowed; a plus sign is not.
pub fn parse_integer(text: &Vec<char>) -> (r: Option<i32>)
    ensures
        r == integer_value(text@),
{
    let n: usize = text.len();
    if n == 0 {
        return None;
    }
    let negative: bool = text[0] == '-';
    let start: usize = if negative { 1 } else { 0 };
    if start == n {
        return None;
    }
    let limit: i64 = if negative { 2147483648 } else { 2147483647 };
    let ghost digits: Seq<char> = text@.subrange(start as int, n as int);
    let mut acc: i64 = 0;
    let mut i: usize = start;
    while i < n
        invariant
            start <= i <= n,
            n == text.len(),
            n > 0,
            negative == (text@[0] == '-'),
            digits == (if negative { text@.drop_first() } else { text@ }),
            digits.len() == n - start,
            limit == (if negative { 2147483648i64 } else { 2147483647i64 }),
            all_digits(digits.take(i - start)),
            acc == decimal_value(digits.take(i - start)),
            0 <= acc <= limit <= 2147483648,
        decreases n - i,
    {
        let c: char = text[i];
        if !digit(c) {
            return None;
        }
        let ghost longer: Seq<char> = digits.take(i - start + 1);
        proof {
            assert(longer.drop_last() == digits.take(i - start));
        }
        let d: i64 = (c as u32 - '0' as u32) as i64;
        acc = acc * 10 + d;
        if acc > limit {
            proof {
                if all_digits(digits) {
                    lemma_decimal_value_grows(digits, i - start + 1);
                }
            }
            return None;
        }
        i += 1;
    }
    assert(digits.take(i - start) == digits);
    if negative {
        Some((-acc) as i32)
    } else {
        Some(acc as i32)
    }
}

} // verus!
