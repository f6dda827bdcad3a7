//! Text helpers: equality of strings and decimal number literals.

use vstd::prelude::*;
use vstd::string::*;
use vstd::utf8::*;

verus! {

/// Two texts with the same UTF-8 encoding hold the same characters.
pub proof fn lemma_same_bytes_same_chars(a: Seq<char>, b: Seq<char>)
    requires
        encode_utf8(a) == encode_utf8(b),
    ensures
        a == b,
{
    encode_utf8_decode_utf8(a);
    encode_utf8_decode_utf8(b);
}

/// Whether two strings hold the same characters.
pub fn str_eq(a: &str, b: &str) -> (same: bool)
    ensures
        same == (a@ == b@),
{
    let x = a.as_bytes();
    let y = b.as_bytes();
    if x.len() != y.len() {
        return false;
    }
    let mut i: usize = 0;
    while i < x.len()
        invariant
            i <= x.len(),
            x.len() == y.len(),
            x@ == a.spec_bytes(),
            y@ == b.spec_bytes(),
            forall|j: int| 0 <= j < i ==> x@[j] == y@[j],
        decreases x.len() - i,
    {
        if x[i] != y[i] {
            return false;
        }
        i += 1;
    }
    proof {
        assert(x@ =~= y@);
        lemma_same_bytes_same_chars(a@, b@);
    }
    true
}

/// Whether a character is one of the ten decimal digits.
pub open spec fn is_digit(c: char) -> bool {
    '0' as u32 <= c as u32 <= '9' as u32
}

/// The number that a decimal digit stands for.
pub open spec fn digit_value(c: char) -> nat {
    (c as u32 - '0' as u32) as nat
}

/// The number that a sequence of decimal digits stands for.
pub open spec fn digits_value(digits: Seq<char>) -> nat
    decreases digits.len(),
{
    if digits.len() == 0 {
        0
    } else {
        digits_value(digits.drop_last()) * 10 + digit_value(digits.last())
    }
}

/// The digits of a number literal: the text without its `+` sign, if it
/// starts with one.
pub open spec fn unsigned_part(text: Seq<char>) -> Seq<char> {
    if text.len() > 0 && text[0] == '+' {
        text.drop_first()
    } else {
        text
    }
}

/// The value of a number literal: an optional `+` sign and then one or more
/// decimal digits, nothing else, that stand for a number of at most 32 bits.
/// Every other text has no value.
pub open spec fn number_value(text: Seq<char>) -> Option<u32> {
    let digits = unsigned_part(text);
    if digits.len() > 0 && (forall|i: int| 0 <= i < digits.len() ==> is_digit(#[trigger] digits[i]))
        && digits_value(digits) <= u32::MAX {
        Some(digits_value(digits) as u32)
    } else {
        None
    }
}

/// More digits never stand for a smaller number.
pub proof fn lemma_digits_value_grows(digits: Seq<char>, k: int)
    requires
        0 <= k <= digits.len(),
    ensures
        digits_value(digits.take(k)) <= digits_value(digits),
    decreases digits.len() - k,
{
    if k == digits.len() {
        assert(digits.take(k) =~= digits);
    } else {
        assert(digits.take(k + 1).drop_last() =~= digits.take(k));
        lemma_digits_value_grows(digits, k + 1);
    }
}

/// Reads a number literal: `Some` of its value where it has one, and `None`
/// for every other text.
pub fn parse_number(text: &str) -> (out: Option<u32>)
    ensures
        out == number_value(text@),
{
    let ghost digits = unsigned_part(text@);
    let mut value: u32 = 0;
    let mut first = true;
    let mut signed = false;
    let mut any_digit = false;
    for c in it: text.chars()
        invariant
            it.seq() == text@,
            digits == unsigned_part(text@),
            first == (it.index() == 0),
            signed == (it.index() > 0 && text@[0] == '+'),
            any_digit == (it.index() > (if signed { 1int } else { 0int })),
            forall|j: int|
                (if signed { 1int } else { 0int }) <= j < it.index() ==> is_digit(
                    #[trigger] text@[j],
                ),
            value == digits_value(
                text@.subrange(if signed { 1int } else { 0int }, it.index() as int),
            ),
    {
        let ghost k: int = it.index() as int;
        let ghost start: int = if signed { 1int } else { 0int };
        if first && c == '+' {
            first = false;
            signed = true;
            proof {
                assert(text@.subrange(1, 1) =~= Seq::empty());
            }
        } else {
            first = false;
            let code: u32 = c as u32;
            if code < 48 || code > 57 {
                proof {
                    assert(!is_digit(text@[k]));
                    assert(digits[k - start] == text@[k]);
                }
                return None;
            }
            let digit: u32 = code - 48;
            proof {
                let prefix = text@.subrange(start, k + 1);
                assert(prefix.drop_last() =~= text@.subrange(start, k));
                assert(prefix.last() == c);
                assert(prefix =~= digits.take(k + 1 - start));
                lemma_digits_value_grows(digits, k + 1 - start);
            }
            let tens: u32 = match value.checked_mul(10) {
                Some(tens) => tens,
                None => {
                    return None;
                },
            };
            value = match tens.checked_add(digit) {
                Some(sum) => sum,
                None => {
                    return None;
                },
            };
            any_digit = true;
        }
    }
    proof {
        let start: int = if signed { 1int } else { 0int };
        if !first {
            assert(text@.subrange(start, text@.len() as int) =~= digits);
        }
        assert forall|i: int| 0 <= i < digits.len() implies is_digit(#[trigger] digits[i]) by {
            assert(digits[i] == text@[i + start]);
        }
    }
    if any_digit {
        Some(value)
    } else {
        None
    }
}

} // verus!
