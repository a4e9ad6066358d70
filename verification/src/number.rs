//! Numbers in settings.
use crate::text::{chars_of, decimal, lemma_decimal_digits};
use vstd::prelude::*;

verus! {

/// Why a text is no number.
#[derive(Clone, Copy, Debug, PartialEq, Eq, Structural)]
pub enum NumberError {
    Empty,
    InvalidDigit,
    TooLarge,
}

pub open spec fn is_digit(c: char) -> bool {
    '0' <= c <= '9'
}

/// The number that decimal digits stand for.
pub open spec fn digits_value(s: Seq<char>) -> nat
    decreases s.len(),
{
    if s.len() == 0 {
        0
    } else {
        digits_value(s.drop_last()) * 10 + (s.last() as int - '0' as int) as nat
    }
}

/// How many digits a text begins with.
pub open spec fn digit_count(s: Seq<char>) -> nat
    decreases s.len(),
{
    if s.len() == 0 || !is_digit(s[0]) {
        0
    } else {
        1 + digit_count(s.skip(1))
    }
}

/// A text without the plus sign in front of what follows it.
pub open spec fn unsigned(s: Seq<char>) -> Seq<char> {
    if s.len() > 1 && s[0] == '+' {
        s.skip(1)
    } else {
        s
    }
}

/// The number that a text stands for: decimal digits, after a plus sign if there is
/// one. A text whose first digits already exceed the largest number is too large,
/// whatever follows them.
pub open spec fn read_number(s: Seq<char>, max: u64) -> Result<u64, NumberError> {
    let body = unsigned(s);
    let run = body.take(digit_count(body) as int);
    if s.len() == 0 {
        Err(NumberError::Empty)
    } else if digits_value(run) > max {
        Err(NumberError::TooLarge)
    } else if run.len() < body.len() {
        Err(NumberError::InvalidDigit)
    } else {
        Ok(digits_value(run) as u64)
    }
}

proof fn lemma_digit_count(s: Seq<char>)
    ensures
        digit_count(s) <= s.len(),
        digit_count(s) < s.len() ==> !is_digit(s[digit_count(s) as int]),
        forall|i: int| 0 <= i < digit_count(s) ==> is_digit(#[trigger] s[i]),
    decreases s.len(),
{
    if s.len() > 0 && is_digit(s[0]) {
        let rest = s.skip(1);
        lemma_digit_count(rest);
        assert forall|i: int| 0 <= i < digit_count(s) implies is_digit(#[trigger] s[i]) by {
            if i > 0 {
                assert(s[i] == rest[i - 1]);
            }
        }
    }
}

proof fn lemma_value_grows(s: Seq<char>, i: int)
    requires
        0 <= i <= s.len(),
    ensures
        digits_value(s.take(i)) <= digits_value(s),
    decreases s.len() - i,
{
    if i < s.len() {
        lemma_value_grows(s, i + 1);
        assert(s.take(i + 1).drop_last() == s.take(i));
    } else {
        assert(s.take(i) == s);
    }
}

/// The number that a text stands for.
pub fn parse_number(text: &str, max: u64) -> (r: Result<u64, NumberError>)
    ensures
        r == read_number(text@, max),
{
    let all = chars_of(text);
    if all.len() == 0 {
        return Err(NumberError::Empty);
    }
    let signed = all.len() > 1 && all[0] == '+';
    let body: &[char] = if signed {
        &all.as_slice()[1..all.len()]
    } else {
        all.as_slice()
    };
    assert(body@ == unsigned(text@));
    let ghost run = body@.take(digit_count(body@) as int);
    proof {
        lemma_digit_count(body@);
    }
    let mut value: u64 = 0;
    let mut i: usize = 0;
    while i < body.len()
        invariant
            text@.len() > 0,
            body@ == unsigned(text@),
            i <= digit_count(body@) <= body@.len(),
            digit_count(body@) < body@.len() ==> !is_digit(body@[digit_count(body@) as int]),
            forall|j: int| 0 <= j < digit_count(body@) ==> is_digit(#[trigger] body@[j]),
            run == body@.take(digit_count(body@) as int),
            value <= max,
            value == digits_value(body@.take(i as int)),
        decreases body@.len() - i,
    {
        let c: char = body[i];
        if !('0' <= c && c <= '9') {
            assert(i == digit_count(body@));
            return Err(NumberError::InvalidDigit);
        }
        let digit: u128 = (c as u32 - 48) as u128;
        let next: u128 = value as u128 * 10 + digit;
        proof {
            assert(body@.take(i + 1).drop_last() == body@.take(i as int));
            assert(next == digits_value(body@.take(i + 1)));
        }
        if next > max as u128 {
            proof {
                lemma_value_grows(run, i + 1);
                assert(run.take(i + 1) == body@.take(i + 1));
            }
            return Err(NumberError::TooLarge);
        }
        value = next as u64;
        i = i + 1;
    }
    assert(run == body@);
    Ok(value)
}

// ---------------------------------------------------------------------------
// Laws
// ---------------------------------------------------------------------------
/// A number that is written in decimal is read back, with a plus sign too and with zeros in
/// front, unless it is larger than allowed.
pub proof fn law_number_is_read_back(n: nat, zeros: nat, max: u64)
    ensures
        ({
            let text = Seq::new(zeros, |i: int| '0') + decimal(n);
            let read = if n <= max {
                Ok(n as u64)
            } else {
                Err(NumberError::TooLarge)
            };
            read_number(text, max) == read && read_number(seq!['+'] + text, max) == read
        }),
{
    let text = Seq::new(zeros, |i: int| '0') + decimal(n);
    lemma_value_of_decimal(n);
    lemma_value_behind_zeros(zeros, decimal(n));
    lemma_decimal_digits(n);
    assert forall|i: int| 0 <= i < text.len() implies is_digit(#[trigger] text[i]) by {
        if i >= zeros {
            assert(text[i] == decimal(n)[i - zeros]);
        }
    }
    lemma_all_digits(text);
    assert(text.take(text.len() as int) =~= text);
    assert(decimal(n).len() > 0);
    assert(unsigned(text) == text);
    let signed = seq!['+'] + text;
    assert(signed.skip(1) =~= text);
    assert(unsigned(signed) == text);
}

proof fn lemma_all_digits(s: Seq<char>)
    requires
        forall|i: int| 0 <= i < s.len() ==> is_digit(#[trigger] s[i]),
    ensures
        digit_count(s) == s.len(),
    decreases s.len(),
{
    if s.len() > 0 {
        let rest = s.skip(1);
        assert forall|i: int| 0 <= i < rest.len() implies is_digit(#[trigger] rest[i]) by {
            assert(rest[i] == s[i + 1]);
        }
        lemma_all_digits(rest);
    }
}

proof fn lemma_value_of_decimal(n: nat)
    ensures
        digits_value(decimal(n)) == n,
    decreases n,
{
    let s = decimal(n);
    reveal_with_fuel(digits_value, 2);
    if n < 10 {
        assert(s.drop_last() =~= Seq::empty());
        assert(s.last() as int == 48 + n);
    } else {
        lemma_value_of_decimal(n / 10);
        assert(s.drop_last() =~= decimal(n / 10));
        assert(s.last() as int == 48 + n % 10);
    }
}

proof fn lemma_value_behind_zeros(zeros: nat, s: Seq<char>)
    ensures
        digits_value(Seq::new(zeros, |i: int| '0') + s) == digits_value(s),
    decreases s.len(), zeros,
{
    let front = Seq::new(zeros, |i: int| '0');
    let all = front + s;
    if s.len() > 0 {
        lemma_value_behind_zeros(zeros, s.drop_last());
        assert(all.drop_last() =~= front + s.drop_last());
        assert(all.last() == s.last());
    } else if zeros > 0 {
        lemma_value_behind_zeros((zeros - 1) as nat, s);
        assert(all.drop_last() =~= Seq::new((zeros - 1) as nat, |i: int| '0') + s);
        assert(all.last() == '0');
    } else {
        assert(all =~= s);
    }
}

/// A text is no number where it is empty, and where something other than a digit stands in
/// it, but for one plus sign in front of the digits. Digits that already exceed the largest
/// number are too large, whatever stands behind them.
pub proof fn law_texts_that_are_no_numbers(digits: Seq<char>, rest: Seq<char>, max: u64)
    requires
        forall|i: int| 0 <= i < digits.len() ==> '0' <= #[trigger] digits[i] <= '9',
        rest.len() > 0,
        !('0' <= rest[0] <= '9'),
        digits.len() == 0 ==> rest.len() == 1 || rest[0] != '+',
    ensures
        read_number(Seq::empty(), max) == Err::<u64, NumberError>(NumberError::Empty),
        digits_value(digits) <= max ==> read_number(digits + rest, max) == Err::<
            u64,
            NumberError,
        >(NumberError::InvalidDigit),
        digits_value(digits) > max ==> read_number(digits + rest, max) == Err::<u64, NumberError>(
            NumberError::TooLarge,
        ),
{
    let s = digits + rest;
    if digits.len() > 0 {
        assert(s[0] == digits[0]);
    } else {
        assert(s =~= rest);
    }
    assert(unsigned(s) == s);
    lemma_digit_count(s);
    let n = digit_count(s) as int;
    if n < digits.len() {
        assert(s[n] == digits[n]);
        assert(is_digit(s[n]));
    } else if n > digits.len() {
        assert(s[digits.len() as int] == rest[0]);
    }
    assert(s.take(n) =~= digits);
}

/// One plus sign in front of a number changes nothing; a second one is no digit.
pub proof fn law_one_plus_sign(text: Seq<char>, max: u64)
    requires
        text.len() > 0,
    ensures
        text[0] != '+' ==> read_number(seq!['+'] + text, max) == read_number(text, max),
        text[0] == '+' ==> read_number(seq!['+'] + text, max) == Err::<u64, NumberError>(
            NumberError::InvalidDigit,
        ),
{
    let signed = seq!['+'] + text;
    assert(signed.skip(1) =~= text);
    if text[0] == '+' {
        assert(digit_count(text) == 0);
        assert(text.take(0) =~= Seq::empty());
    }
}

} // verus!
