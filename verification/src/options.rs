//! What the options of a run mean.
//!
//! The number of lines comes as text and is read as a decimal number with an
//! optional sign. A phrase to sieve by asks for following without more ado, and
//! following is for files only.

use vstd::prelude::*;
use vstd::string::StringSliceAdditionalSpecFns;
use crate::error::TailError;

verus! {

/// True when `b` is a decimal digit.
pub open spec fn is_digit(b: u8) -> bool {
    48 <= b <= 57
}

/// True when `digits` holds decimal digits and nothing else.
pub open spec fn all_digits(digits: Seq<u8>) -> bool {
    forall|i: int| 0 <= i < digits.len() ==> is_digit(#[trigger] digits[i])
}

/// The number that the decimal digits `digits` write.
pub open spec fn digits_value(digits: Seq<u8>) -> int
    decreases digits.len(),
{
    if digits.len() == 0 {
        0
    } else {
        digits_value(digits.drop_last()) * 10 + (digits.last() - 48)
    }
}

/// True when `text` begins with a minus sign.
pub open spec fn negative(text: Seq<u8>) -> bool {
    text.len() > 0 && text[0] == 45
}

/// The digits of `text`: what follows its sign where it has one, else all of it.
pub open spec fn digits_of(text: Seq<u8>) -> Seq<u8> {
    if text.len() > 0 && (text[0] == 43 || text[0] == 45) {
        text.skip(1)
    } else {
        text
    }
}

/// The number that `text` writes: an optional `+` or `-`, then one decimal digit or
/// more, and nothing else, for a number that a signed 32-bit integer can hold.
pub open spec fn number_of(text: Seq<u8>) -> Option<int> {
    let digits = digits_of(text);
    let value = if negative(text) {
        -digits_value(digits)
    } else {
        digits_value(digits)
    };
    if digits.len() > 0 && all_digits(digits) && i32::MIN <= value <= i32::MAX {
        Some(value)
    } else {
        None
    }
}

/// True when following is asked for, by the flag or by a phrase to sieve by, and the
/// source is a file.
pub open spec fn follows(follow: bool, sieve: Seq<char>, file_backed: bool) -> bool {
    (follow || sieve.len() > 0) && file_backed
}

/// More digits never write a smaller number.
proof fn lemma_digits_value_grows(digits: Seq<u8>, k: int)
    requires
        all_digits(digits),
        0 <= k <= digits.len(),
    ensures
        0 <= digits_value(digits.take(k)) <= digits_value(digits),
    decreases digits.len() - k,
{
    if k == digits.len() {
        assert(digits.take(k) =~= digits);
        lemma_digits_value_nonnegative(digits);
    } else {
        lemma_digits_value_grows(digits, k + 1);
        assert(digits.take(k + 1).drop_last() =~= digits.take(k));
        lemma_digits_value_nonnegative(digits.take(k));
    }
}

/// Digits write no negative number.
proof fn lemma_digits_value_nonnegative(digits: Seq<u8>)
    requires
        all_digits(digits),
    ensures
        0 <= digits_value(digits),
    decreases digits.len(),
{
    if digits.len() > 0 {
        lemma_digits_value_nonnegative(digits.drop_last());
    }
}

/// Reads the number of lines asked for, or fails with `ArgumentError` where `text`
/// writes no number that fits.
pub fn parse_num_lines(text: &str) -> (result: Result<i32, TailError>)
    ensures
        result == match number_of(text.spec_bytes()) {
            Some(value) => Ok::<i32, TailError>(value as i32),
            None => Err::<i32, TailError>(TailError::ArgumentError),
        },
{
    let bytes = text.as_bytes();
    let len = bytes.len();
    if len == 0 {
        return Err(TailError::ArgumentError);
    }
    let minus = bytes[0] == 45;
    let first: usize = if bytes[0] == 43 || bytes[0] == 45 {
        1
    } else {
        0
    };
    if first == len {
        return Err(TailError::ArgumentError);
    }
    let limit: i64 = if minus {
        2147483648
    } else {
        2147483647
    };
    let ghost digits = digits_of(bytes@);
    let mut value: i64 = 0;
    let mut at = first;
    while at < len
        invariant
            first <= at <= len,
            len == bytes@.len(),
            bytes@ == text.spec_bytes(),
            digits == digits_of(bytes@),
            digits == bytes@.skip(first as int),
            minus == negative(bytes@),
            limit == if minus { 2147483648i64 } else { 2147483647i64 },
            all_digits(digits.take(at - first)),
            value == digits_value(digits.take(at - first)),
            0 <= value <= limit <= 2147483648,
        decreases len - at,
    {
        let b = bytes[at];
        let ghost seen = digits.take(at - first);
        let ghost more = digits.take(at - first + 1);
        proof {
            assert(more.drop_last() =~= seen);
        }
        if b < 48 || b > 57 {
            assert(!is_digit(digits[at - first]));
            return Err(TailError::ArgumentError);
        }
        value = value * 10 + (b - 48) as i64;
        if value > limit {
            proof {
                if all_digits(digits) {
                    lemma_digits_value_grows(digits, at - first + 1);
                }
            }
            return Err(TailError::ArgumentError);
        }
        at = at + 1;
    }
    proof {
        assert(digits.take(len - first) =~= digits);
    }
    if minus {
        Ok((-value) as i32)
    } else {
        Ok(value as i32)
    }
}

/// Tells whether the run is to follow its source: when following is asked for, by
/// the flag or by a phrase to sieve by, and the source is a file.
pub fn follow_wanted(follow: bool, sieve: &str, file_backed: bool) -> (wanted: bool)
    ensures
        wanted == follows(follow, sieve@, file_backed),
{
    (follow || !sieve.is_empty()) && file_backed
}

} // verus!
