//! Numbers as text.

use vstd::prelude::*;

verus! {

/// Whether two texts are the same.
pub(crate) fn same_text(left: &str, right: &str) -> (same: bool)
    ensures
        same == (left@ == right@),
{
    left.to_owned() == right.to_owned()
}

/// Why a text is not a number.
#[derive(Clone, Copy, Debug, PartialEq, Eq, Structural)]
pub enum ParseIntError {
    Empty,
    InvalidDigit,
    PosOverflow,
}

impl ParseIntError {
    /// The error in words.
    pub fn message(&self) -> (message: &'static str)
        ensures
            message@ == self.spec_message(),
    {
        match self {
            ParseIntError::Empty => "ParseIntError { kind: Empty }",
            ParseIntError::InvalidDigit => "ParseIntError { kind: InvalidDigit }",
            ParseIntError::PosOverflow => "ParseIntError { kind: PosOverflow }",
        }
    }

    pub open spec fn spec_message(self) -> Seq<char> {
        match self {
            ParseIntError::Empty => "ParseIntError { kind: Empty }"@,
            ParseIntError::InvalidDigit => "ParseIntError { kind: InvalidDigit }"@,
            ParseIntError::PosOverflow => "ParseIntError { kind: PosOverflow }"@,
        }
    }
}

pub open spec fn is_digit(c: char) -> bool {
    '0' <= c <= '9'
}

/// Digits, the highest first, follow on a value; the first character that is no digit or that
/// makes the value too large decides.
pub open spec fn read_digits(digits: Seq<char>, value: nat, max: nat) -> Result<nat, ParseIntError>
    decreases digits.len(),
{
    if digits.len() == 0 {
        Ok(value)
    } else if !is_digit(digits[0]) {
        Err(ParseIntError::InvalidDigit)
    } else {
        let longer = value * 10 + (digits[0] as nat - '0' as nat) as nat;
        if longer > max {
            Err(ParseIntError::PosOverflow)
        } else {
            read_digits(digits.drop_first(), longer as nat, max)
        }
    }
}

/// The number that a text stands for: decimal digits, with a plus sign in front or without.
pub open spec fn parse_number(text: Seq<char>, max: nat) -> Result<nat, ParseIntError> {
    if text.len() == 0 {
        Err(ParseIntError::Empty)
    } else if text[0] == '+' {
        if text.len() == 1 {
            Err(ParseIntError::InvalidDigit)
        } else {
            read_digits(text.drop_first(), 0, max)
        }
    } else {
        read_digits(text, 0, max)
    }
}

fn digit_of(c: char) -> (digit: Option<u64>)
    ensures
        digit is Some <==> is_digit(c),
        digit matches Some(digit) ==> digit == c as nat - '0' as nat && digit <= 9,
{
    if '0' <= c && c <= '9' {
        Some(c as u64 - '0' as u64)
    } else {
        None
    }
}

/// Reads a number of at most `max`.
pub fn parse_unsigned(text: &str, max: u64) -> (number: Result<u64, ParseIntError>)
    ensures
        match parse_number(text@, max as nat) {
            Ok(value) => number == Ok::<u64, ParseIntError>(value as u64) && value <= max,
            Err(err) => number == Err::<u64, ParseIntError>(err),
        },
{
    let len = text.unicode_len();
    if len == 0 {
        return Err(ParseIntError::Empty);
    }
    let mut i: usize = 0;
    if text.get_char(0) == '+' {
        if len == 1 {
            return Err(ParseIntError::InvalidDigit);
        }
        i = 1;
    }
    let ghost start = i;
    let ghost digits = text@.skip(start as int);
    let mut value: u64 = 0;
    assert(digits.skip(0) =~= digits);
    assert(start == 0 ==> digits =~= text@);
    assert(start == 1 ==> digits =~= text@.drop_first());
    while i < len
        invariant
            len == text@.len(),
            start <= i <= len,
            start <= 1,
            digits == text@.skip(start as int),
            value <= max,
            parse_number(text@, max as nat) == read_digits(digits, 0, max as nat),
            read_digits(digits, 0, max as nat) == read_digits(
                digits.skip(i - start),
                value as nat,
                max as nat,
            ),
        decreases len - i,
    {
        let c = text.get_char(i);
        assert(digits.skip(i - start)[0] == c);
        assert(digits.skip(i - start).drop_first() =~= digits.skip(i + 1 - start));
        match digit_of(c) {
            None => {
                return Err(ParseIntError::InvalidDigit);
            },
            Some(digit) => {
                let longer: u128 = value as u128 * 10 + digit as u128;
                if longer > max as u128 {
                    return Err(ParseIntError::PosOverflow);
                }
                value = longer as u64;
            },
        }
        i += 1;
    }
    Ok(value)
}

pub open spec fn digit_char(digit: nat) -> char {
    ('0' as nat + digit) as char
}

/// A number in decimal digits.
pub open spec fn decimal(number: nat) -> Seq<char>
    decreases number,
{
    if number < 10 {
        seq![digit_char(number)]
    } else {
        decimal(number / 10).push(digit_char(number % 10))
    }
}

fn digit_text(digit: u64) -> (text: &'static str)
    requires
        digit < 10,
    ensures
        text@ == seq![digit_char(digit as nat)],
{
    proof {
        reveal_strlit("0");
        reveal_strlit("1");
        reveal_strlit("2");
        reveal_strlit("3");
        reveal_strlit("4");
        reveal_strlit("5");
        reveal_strlit("6");
        reveal_strlit("7");
        reveal_strlit("8");
        reveal_strlit("9");
    }
    let text = if digit == 0 {
        "0"
    } else if digit == 1 {
        "1"
    } else if digit == 2 {
        "2"
    } else if digit == 3 {
        "3"
    } else if digit == 4 {
        "4"
    } else if digit == 5 {
        "5"
    } else if digit == 6 {
        "6"
    } else if digit == 7 {
        "7"
    } else if digit == 8 {
        "8"
    } else {
        "9"
    };
    assert(text@ =~= seq![digit_char(digit as nat)]);
    text
}

/// A number in decimal digits.
pub fn decimal_text(number: u64) -> (text: String)
    ensures
        text@ == decimal(number as nat),
    decreases number,
{
    if number < 10 {
        digit_text(number).to_owned()
    } else {
        let mut text = decimal_text(number / 10);
        let ghost front = text@;
        text.append(digit_text(number % 10));
        assert(text@ =~= front.push(digit_char(number as nat % 10)));
        text
    }
}

proof fn lemma_read_push(digits: Seq<char>, c: char, value: nat, max: nat)
    ensures
        read_digits(digits.push(c), value, max) == (match read_digits(digits, value, max) {
            Ok(front) => if !is_digit(c) {
                Err(ParseIntError::InvalidDigit)
            } else if front * 10 + (c as nat - '0' as nat) > max {
                Err(ParseIntError::PosOverflow)
            } else {
                Ok((front * 10 + (c as nat - '0' as nat)) as nat)
            },
            Err(err) => Err(err),
        }),
    decreases digits.len(),
{
    reveal_with_fuel(read_digits, 2);
    if digits.len() > 0 {
        assert(digits.push(c).drop_first() =~= digits.drop_first().push(c));
        assert(digits.push(c)[0] == digits[0]);
        if is_digit(digits[0]) {
            let longer = (value * 10 + (digits[0] as nat - '0' as nat)) as nat;
            if longer <= max {
                lemma_read_push(digits.drop_first(), c, longer, max);
            }
        }
    } else {
        assert(digits.push(c)[0] == c);
        assert(digits.push(c).drop_first() =~= Seq::empty());
    }
}

/// A number in decimal digits is read back as the number.
pub proof fn law_decimal_round_trip(number: nat, max: nat)
    requires
        number <= max,
    ensures
        parse_number(decimal(number), max) == Ok::<nat, ParseIntError>(number),
        decimal(number).len() > 0,
        forall|i: int| 0 <= i < decimal(number).len() ==> is_digit(#[trigger] decimal(number)[i]),
{
    lemma_decimal_digits(number, max);
    assert(is_digit(decimal(number)[0]));
}

proof fn lemma_decimal_digits(number: nat, max: nat)
    requires
        number <= max,
    ensures
        read_digits(decimal(number), 0, max) == Ok::<nat, ParseIntError>(number),
        decimal(number).len() > 0,
        forall|i: int| 0 <= i < decimal(number).len() ==> is_digit(#[trigger] decimal(number)[i]),
    decreases number,
{
    if number < 10 {
        let c = digit_char(number);
        assert(Seq::<char>::empty().push(c) =~= decimal(number));
        lemma_read_push(Seq::empty(), c, 0, max);
    } else {
        lemma_decimal_digits(number / 10, max);
        lemma_read_push(decimal(number / 10), digit_char(number % 10), 0, max);
    }
}

/// What decimal digits are worth, each digit ten times what it would be one place to its right.
pub open spec fn digits_value(digits: Seq<char>) -> int
    decreases digits.len(),
{
    if digits.len() == 0 {
        0
    } else {
        digits_value(digits.drop_last()) * 10 + (digits.last() as int - '0' as int)
    }
}

/// A text of digits that are worth no more than the largest number.
pub open spec fn is_number(digits: Seq<char>, max: nat) -> bool {
    &&& forall|i: int| 0 <= i < digits.len() ==> '0' <= (#[trigger] digits[i]) <= '9'
    &&& digits_value(digits) <= max
}

proof fn lemma_read_digits(digits: Seq<char>, max: nat)
    ensures
        match read_digits(digits, 0, max) {
            Ok(value) => is_number(digits, max) && value == digits_value(digits),
            Err(ParseIntError::InvalidDigit) => exists|i: int|
                0 <= i < digits.len() && is_number(digits.take(i), max) && !('0' <= (
                #[trigger] digits[i]) <= '9'),
            Err(ParseIntError::PosOverflow) => exists|i: int|
                0 <= i < digits.len() && is_number(digits.take(i), max) && '0' <= (
                #[trigger] digits[i]) <= '9' && digits_value(digits.take(i + 1)) > max,
            Err(ParseIntError::Empty) => false,
        },
        is_number(digits, max) ==> read_digits(digits, 0, max) is Ok,
        (forall|i: int| 0 <= i < digits.len() ==> '0' <= (#[trigger] digits[i]) <= '9')
            ==> digits_value(digits) >= 0,
    decreases digits.len(),
{
    if digits.len() > 0 {
        let front = digits.drop_last();
        let c = digits.last();
        let n = front.len() as int;
        lemma_read_digits(front, max);
        lemma_read_push(front, c, 0, max);
        assert(front.push(c) =~= digits);
        assert(digits.take(n) =~= front);
        assert(digits.take(n + 1) =~= digits);
        assert(digits[n] == c);
        assert forall|i: int| 0 <= i < front.len() implies #[trigger] front[i] == digits[i]
            && front.take(i) =~= digits.take(i) && front.take(i + 1) =~= digits.take(i + 1) by {}
        if is_number(digits, max) {
            assert forall|i: int| 0 <= i < front.len() implies '0' <= (#[trigger] front[i])
                <= '9' by {
                assert(digits[i] == front[i]);
            }
            assert(digits_value(front) >= 0);
            assert(is_number(front, max));
        }
        if read_digits(digits, 0, max) is Ok {
            assert forall|i: int| 0 <= i < digits.len() implies '0' <= (#[trigger] digits[i])
                <= '9' by {
                if i < n {
                    assert(front[i] == digits[i]);
                }
            }
        }
        if forall|i: int| 0 <= i < digits.len() ==> '0' <= (#[trigger] digits[i]) <= '9' {
            assert forall|i: int| 0 <= i < front.len() implies '0' <= (#[trigger] front[i])
                <= '9' by {
                assert(digits[i] == front[i]);
            }
        }
        if let Err(err) = read_digits(front, 0, max) {
            let i = match err {
                ParseIntError::InvalidDigit => choose|i: int|
                    0 <= i < front.len() && is_number(front.take(i), max) && !('0' <= (
                    #[trigger] front[i]) <= '9'),
                _ => choose|i: int|
                    0 <= i < front.len() && is_number(front.take(i), max) && '0' <= (
                    #[trigger] front[i]) <= '9' && digits_value(front.take(i + 1)) > max,
            };
            assert(digits[i] == front[i]);
            assert(front.take(i) =~= digits.take(i));
            assert(front.take(i + 1) =~= digits.take(i + 1));
        }
    }
}

/// A text without a plus sign in front.
pub open spec fn without_plus(text: Seq<char>) -> Seq<char> {
    if text.len() > 0 && text[0] == '+' {
        text.drop_first()
    } else {
        text
    }
}

/// A text is read as a number exactly where it holds digits, with a plus sign in front or
/// without, that are worth no more than the largest number; and the number is what they are
/// worth. An empty text holds none. Otherwise what comes first decides: a character that is no
/// digit, or a digit with which the digits so far are worth too much.
pub proof fn law_number_is_what_digits_are_worth(text: Seq<char>, max: nat)
    ensures
        parse_number(text, max) is Ok <==> without_plus(text).len() > 0 && is_number(
            without_plus(text),
            max,
        ),
        parse_number(text, max) matches Ok(value) ==> value == digits_value(without_plus(text)),
        parse_number(text, max) matches Err(err) ==> match err {
            ParseIntError::Empty => text.len() == 0,
            ParseIntError::InvalidDigit => text.len() > 0 && (without_plus(text).len() == 0
                || exists|i: int|
                0 <= i < without_plus(text).len() && is_number(without_plus(text).take(i), max)
                    && !('0' <= (#[trigger] without_plus(text)[i]) <= '9')),
            ParseIntError::PosOverflow => exists|i: int|
                0 <= i < without_plus(text).len() && is_number(without_plus(text).take(i), max)
                    && '0' <= (#[trigger] without_plus(text)[i]) <= '9' && digits_value(
                    without_plus(text).take(i + 1),
                ) > max,
        },
{
    lemma_read_digits(without_plus(text), max);
}

/// A number's digits are worth the number, and none of them stands in front for nothing.
pub proof fn law_decimal_is_worth_the_number(number: nat)
    ensures
        decimal(number).len() > 0,
        forall|i: int| 0 <= i < decimal(number).len() ==> '0' <= (#[trigger] decimal(number)[i])
            <= '9',
        digits_value(decimal(number)) == number,
        decimal(number)[0] == '0' ==> number == 0,
    decreases number,
{
    if number >= 10 {
        law_decimal_is_worth_the_number(number / 10);
        assert(decimal(number).drop_last() =~= decimal(number / 10));
        assert(decimal(number)[0] == decimal(number / 10)[0]);
    } else {
        assert(decimal(number).drop_last() =~= Seq::empty());
        assert(digits_value(Seq::<char>::empty()) == 0);
    }
}

pub(crate) proof fn lemma_number_fits(text: Seq<char>, max: nat)
    ensures
        parse_number(text, max) matches Ok(value) ==> value <= max,
{
    law_number_is_what_digits_are_worth(text, max);
}

} // verus!
