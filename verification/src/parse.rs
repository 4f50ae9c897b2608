//! Strict positive-integer parsing for count arguments.

use vstd::prelude::*;
use vstd::string::*;

verus! {

/// A decimal digit character.
pub open spec fn spec_is_digit(c: char) -> bool {
    48 <= c as u32 <= 57
}

/// Numeric value of a decimal digit character.
pub open spec fn digit_value(c: char) -> nat
    recommends
        spec_is_digit(c),
{
    (c as u32 - 48) as nat
}

/// Every character of `s` is a decimal digit.
pub open spec fn all_digits(s: Seq<char>) -> bool {
    forall|i: int| 0 <= i < s.len() ==> spec_is_digit(#[trigger] s[i])
}

/// Value of a digit string read in base 10 (most significant digit first).
pub open spec fn digits_value(s: Seq<char>) -> nat
    decreases s.len(),
{
    if s.len() == 0 {
        0
    } else {
        10 * digits_value(s.drop_last()) + digit_value(s.last())
    }
}

/// The digit portion of a count literal: an optional leading `+` sign is
/// accepted, as by the standard unsigned integer parser.
pub open spec fn digits_part(s: Seq<char>) -> Seq<char> {
    if s.len() > 0 && s[0] == '+' {
        s.drop_first()
    } else {
        s
    }
}

/// `s` is a well-formed count literal: at least one digit, all digits,
/// strictly positive, and representable as a `usize`.
pub open spec fn is_positive_count(s: Seq<char>) -> bool {
    let d = digits_part(s);
    &&& d.len() > 0
    &&& all_digits(d)
    &&& 1 <= digits_value(d) <= usize::MAX
}

/// The value of a prefix of a digit string never exceeds the value of the
/// whole string.
proof fn lemma_digits_value_take_le(s: Seq<char>, j: int)
    requires
        0 <= j <= s.len(),
    ensures
        digits_value(s.take(j)) <= digits_value(s),
    decreases s.len() - j,
{
    if j == s.len() {
        assert(s.take(j) =~= s);
    } else {
        assert(s.take(j + 1).drop_last() =~= s.take(j));
        assert(digits_value(s.take(j + 1)) == 10 * digits_value(s.take(j)) + digit_value(s[j]));
        lemma_digits_value_take_le(s, j + 1);
    }
}

/// Parses `val` as a strictly positive base-10 integer.
///
/// Succeeds exactly on the strings accepted by `is_positive_count`; on any
/// other input the error carries the offending input verbatim.
pub fn parse_positive_int(val: &str) -> (r: Result<usize, String>)
    ensures
        is_positive_count(val@) ==> (r matches Ok(n) && n == digits_value(digits_part(val@))),
        !is_positive_count(val@) ==> (r matches Err(e) && e@ == val@),
{
    let len: usize = val.unicode_len();
    let mut start: usize = 0;
    if len > 0 && val.get_char(0) == '+' {
        start = 1;
    }
    let ghost dp = digits_part(val@);
    proof {
        assert(dp =~= val@.skip(start as int));
    }
    if start == len {
        // No digits at all (empty string, or a bare sign).
        assert(dp.len() == 0);
        return Err(val.to_owned());
    }
    let mut acc: usize = 0;
    let mut i: usize = start;
    while i < len
        invariant
            start <= i <= len,
            len == val@.len(),
            dp == val@.skip(start as int),
            dp == digits_part(val@),
            acc == digits_value(dp.take(i - start)),
            all_digits(dp.take(i - start)),
        decreases len - i,
    {
        let c = val.get_char(i);
        let u: u32 = c as u32;
        if u < 48 || u > 57 {
            // A non-digit character: the literal is rejected.
            assert(dp[i - start] == val@[i as int]);
            assert(!spec_is_digit(dp[i - start]));
            return Err(val.to_owned());
        }
        let d: usize = (u - 48) as usize;
        proof {
            assert(dp.take(i - start + 1).drop_last() =~= dp.take(i - start));
            assert(dp.take(i - start + 1).last() == val@[i as int]);
            assert(digits_value(dp.take(i - start + 1)) == 10 * acc + d);
        }
        if acc > usize::MAX / 10 || (acc == usize::MAX / 10 && d > usize::MAX % 10) {
            // The value does not fit in a `usize`: the literal is rejected.
            proof {
                assert(10 * acc + d > usize::MAX) by (nonlinear_arith)
                    requires
                        acc > usize::MAX / 10 || (acc == usize::MAX / 10 && d > usize::MAX % 10),
                        usize::MAX == 10 * (usize::MAX / 10) + usize::MAX % 10,
                        d >= 0,
                {}
                lemma_digits_value_take_le(dp, i - start + 1);
                assert(digits_value(dp) > usize::MAX);
            }
            return Err(val.to_owned());
        }
        proof {
            assert(10 * acc + d <= usize::MAX) by (nonlinear_arith)
                requires
                    acc <= usize::MAX / 10,
                    acc < usize::MAX / 10 || d <= usize::MAX % 10,
                    d <= 9,
                    usize::MAX == 10 * (usize::MAX / 10) + usize::MAX % 10,
            {}
        }
        acc = acc * 10 + d;
        i = i + 1;
    }
    proof {
        assert(dp.take(len - start) =~= dp);
    }
    if acc == 0 {
        // Zero (for example "0" or "000") is not a positive count.
        return Err(val.to_owned());
    }
    Ok(acc)
}

} // verus!
