//! Unsigned numbers in decimal notation.

use vstd::prelude::*;

verus! {

/// The decimal digit with the value `digit`.
pub open spec fn digit_char(digit: nat) -> char {
    (48 + digit) as char
}

/// `number` in decimal notation, without leading zeros.
pub open spec fn decimal(number: nat) -> Seq<char>
    decreases number,
{
    if number < 10 {
        seq![digit_char(number)]
    } else {
        decimal(number / 10).push(digit_char(number % 10))
    }
}

/// `ch` is a decimal digit.
pub open spec fn is_digit(ch: char) -> bool {
    '0' <= ch <= '9'
}

/// The value of a row of decimal digits.
pub open spec fn digits_value(digits: Seq<char>) -> nat
    decreases digits.len(),
{
    if digits.len() == 0 {
        0
    } else {
        digits_value(digits.drop_last()) * 10 + (digits.last() as nat - 48) as nat
    }
}

/// The digits of a number as it may be written: an optional plus sign comes first.
pub open spec fn unsigned_digits(text: Seq<char>) -> Seq<char> {
    if text.len() > 0 && text[0] == '+' {
        text.drop_first()
    } else {
        text
    }
}

/// The number that `text` writes: an optional plus sign, then one digit or more, and nothing
/// else.
pub open spec fn unsigned_value(text: Seq<char>) -> Option<nat> {
    let digits = unsigned_digits(text);
    if digits.len() > 0 && (forall|i: int|
        0 <= i < digits.len() ==> is_digit(#[trigger] digits[i])) {
        Some(digits_value(digits))
    } else {
        None
    }
}

/// The number that `text` writes, where it fits in a `usize`.
pub open spec fn usize_value(text: Seq<char>) -> Option<usize> {
    match unsigned_value(text) {
        Some(value) if value <= usize::MAX => Some(value as usize),
        _ => None,
    }
}

proof fn lemma_prefix_value(digits: Seq<char>, count: int)
    requires
        0 <= count <= digits.len(),
        forall|i: int| 0 <= i < digits.len() ==> is_digit(#[trigger] digits[i]),
    ensures
        digits_value(digits.take(count)) <= digits_value(digits),
    decreases digits.len(),
{
    if count == digits.len() {
        assert(digits.take(count) == digits);
    } else {
        let shorter = digits.drop_last();
        assert(digits.take(count) == shorter.take(count));
        lemma_prefix_value(shorter, count);
    }
}

pub proof fn lemma_decimal_digits(number: nat)
    ensures
        decimal(number).len() > 0,
        forall|i: int| 0 <= i < decimal(number).len() ==> is_digit(#[trigger] decimal(number)[i]),
        digits_value(decimal(number)) == number,
    decreases number,
{
    let digits = decimal(number);
    if number < 10 {
        assert(digits.drop_last() =~= Seq::<char>::empty());
        reveal_with_fuel(digits_value, 2);
    } else {
        lemma_decimal_digits(number / 10);
        assert(digits.drop_last() == decimal(number / 10));
    }
}

/// Writing a number and reading it back gives the number.
pub proof fn decimal_reads_back(number: nat)
    ensures
        unsigned_value(decimal(number)) == Some(number),
{
    lemma_decimal_digits(number);
    assert(is_digit(decimal(number)[0]));
}

/// A number in decimal notation.
pub fn decimal_text(number: u64) -> (text: String)
    ensures
        text@ == decimal(number as nat),
    decreases number,
{
    let mut text = if number < 10 {
        String::new()
    } else {
        decimal_text(number / 10)
    };
    let digit = (48 + (number % 10) as u8) as char;
    text.push(digit);
    assert(number < 10 ==> text@ =~= seq![digit]);
    text
}

/// The number that a text writes, where it is one that fits in a `usize`.
pub fn parse_usize(text: &str) -> (value: Option<usize>)
    ensures
        value == usize_value(text@),
{
    let chars = crate::text::chars_of(text);
    let ghost digits = unsigned_digits(text@);
    let start: usize = if chars.len() > 0 && chars[0] == '+' {
        1
    } else {
        0
    };
    assert(digits == chars@.skip(start as int));
    if start == chars.len() {
        return None;
    }
    let mut value: usize = 0;
    let mut i: usize = start;
    while i < chars.len()
        invariant
            start <= i <= chars@.len(),
            start < chars@.len(),
            chars@ == text@,
            digits == unsigned_digits(text@),
            digits == chars@.skip(start as int),
            forall|k: int| 0 <= k < i - start ==> is_digit(#[trigger] digits[k]),
            value == digits_value(digits.take(i - start)),
        decreases chars@.len() - i,
    {
        let ch = chars[i];
        let ghost at = i - start;
        assert(digits[at] == ch);
        if ch < '0' || ch > '9' {
            assert(!is_digit(digits[at]));
            return None;
        }
        let digit: usize = ch as usize - 48;
        proof {
            assert(digits.take(at + 1).drop_last() == digits.take(at));
            assert(digits.take(at + 1).last() == ch);
        }
        if value > (usize::MAX - digit) / 10 {
            proof {
                assert(digits_value(digits.take(at + 1)) > usize::MAX);
                if forall|k: int| 0 <= k < digits.len() ==> is_digit(#[trigger] digits[k]) {
                    lemma_prefix_value(digits, at + 1);
                }
            }
            return None;
        }
        value = value * 10 + digit;
        i += 1;
    }
    assert(digits.take(i - start) == digits);
    Some(value)
}

/// Writing a digit behind a number writes ten times the number and the digit.
pub proof fn digits_stand_for_tens(number: nat, digit: nat)
    requires
        digit < 10,
    ensures
        decimal(digit) == seq![('0' as u32 + digit) as char],
        number > 0 ==> decimal(10 * number + digit) == decimal(number).push(
            ('0' as u32 + digit) as char,
        ),
{
}

/// A number is written without zeros before it.
pub proof fn no_zero_stands_first(number: nat)
    ensures
        number > 0 ==> decimal(number)[0] != '0',
    decreases number,
{
    if number >= 10 {
        no_zero_stands_first(number / 10);
        lemma_decimal_digits(number / 10);
    }
}

/// A text writes a number if and only if it holds one digit or more and nothing else, but for a
/// plus sign that may come first.
pub proof fn numbers_are_rows_of_digits(text: Seq<char>)
    ensures
        unsigned_value(text) is Some <==> {
            ||| text.len() > 0 && forall|i: int| 0 <= i < text.len() ==> '0' <= #[trigger] text[i]
                <= '9'
            ||| text.len() > 1 && text[0] == '+' && forall|i: int|
                1 <= i < text.len() ==> '0' <= #[trigger] text[i] <= '9'
        },
{
    let digits = unsigned_digits(text);
    if text.len() > 0 && text[0] == '+' {
        assert(forall|i: int| 0 <= i < digits.len() ==> #[trigger] digits[i] == text[i + 1]);
        if unsigned_value(text) is Some {
            assert forall|i: int| 1 <= i < text.len() implies '0' <= #[trigger] text[i] <= '9' by {
                assert(is_digit(digits[i - 1]));
            }
        }
    } else if unsigned_value(text) is Some {
        assert forall|i: int| 0 <= i < text.len() implies '0' <= #[trigger] text[i] <= '9' by {
            assert(is_digit(digits[i]));
        }
    }
}

/// One digit writes its value, a digit after a number writes ten times the number and its value,
/// and a plus sign before a number changes nothing.
pub proof fn numbers_are_read_digit_by_digit(text: Seq<char>, digit: char)
    requires
        '0' <= digit <= '9',
    ensures
        unsigned_value(seq![digit]) == Some((digit as nat - '0' as nat) as nat),
        unsigned_value(text) matches Some(value) ==> unsigned_value(text.push(digit)) == Some(
            (10 * value + (digit as nat - '0' as nat)) as nat,
        ),
        text.len() > 0 && text[0] != '+' ==> unsigned_value(seq!['+'] + text) == unsigned_value(
            text,
        ),
{
    let single = seq![digit];
    assert(single.drop_last() =~= Seq::<char>::empty());
    reveal_with_fuel(digits_value, 2);
    assert forall|i: int| 0 <= i < unsigned_digits(single).len() implies is_digit(
        #[trigger] unsigned_digits(single)[i],
    ) by {}
    if unsigned_value(text) is Some {
        let digits = unsigned_digits(text);
        let longer = unsigned_digits(text.push(digit));
        assert(longer =~= digits.push(digit));
        assert(longer.drop_last() =~= digits);
        assert forall|i: int| 0 <= i < longer.len() implies is_digit(#[trigger] longer[i]) by {
            if i < digits.len() {
                assert(is_digit(digits[i]));
            }
        }
    }
    assert((seq!['+'] + text).drop_first() =~= text);
}

/// A number is read where it fits in a `usize`, and a larger one is not. What is no number is not
/// read either.
pub proof fn fitting_numbers_are_read(text: Seq<char>, number: nat)
    ensures
        unsigned_value(text) == Some(number) && number <= usize::MAX ==> usize_value(text) == Some(
            number as usize,
        ),
        unsigned_value(text) == Some(number) && number > usize::MAX ==> usize_value(text) is None,
        unsigned_value(text) is None ==> usize_value(text) is None,
{
}

} // verus!
