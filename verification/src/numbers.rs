//! Decimal numbers, read and written.
use vstd::prelude::*;
use vstd::string::*;

use crate::text::chars_of;

verus! {

pub open spec fn is_digit(c: char) -> bool {
    '0' <= c <= '9'
}

pub open spec fn digit_value(c: char) -> nat {
    (c as nat - '0' as nat) as nat
}

pub open spec fn all_digits(text: Seq<char>) -> bool {
    forall|i: int| 0 <= i < text.len() ==> is_digit(#[trigger] text[i])
}

/// The number that a run of digits denotes.
pub open spec fn digits_value(text: Seq<char>) -> nat
    decreases text.len(),
{
    if text.len() == 0 {
        0
    } else {
        10 * digits_value(text.drop_last()) + digit_value(text.last())
    }
}

/// The number that one or more digits denote.
pub open spec fn magnitude(text: Seq<char>) -> Option<nat> {
    if text.len() > 0 && all_digits(text) {
        Some(digits_value(text))
    } else {
        None
    }
}

/// The number up to `max` that `text` denotes: digits, after a `+` or not.
pub open spec fn unsigned_number(text: Seq<char>, max: nat) -> Option<nat> {
    let digits = if text.len() > 0 && text[0] == '+' {
        text.drop_first()
    } else {
        text
    };
    match magnitude(digits) {
        Some(value) => if value <= max {
            Some(value)
        } else {
            None
        },
        None => None,
    }
}

/// The number from `min` to `max` that `text` denotes: digits, after a sign
/// or not.
pub open spec fn signed_number(text: Seq<char>, min: int, max: int) -> Option<int> {
    let signed = text.len() > 0 && (text[0] == '+' || text[0] == '-');
    let digits = if signed {
        text.drop_first()
    } else {
        text
    };
    match magnitude(digits) {
        Some(m) => {
            let value = if signed && text[0] == '-' {
                -(m as int)
            } else {
                m as int
            };
            if min <= value <= max {
                Some(value)
            } else {
                None
            }
        },
        None => None,
    }
}

pub open spec fn digit_char(digit: nat) -> char {
    ('0' as nat + digit) as char
}

/// The decimal digits of `value`.
pub open spec fn decimal(value: nat) -> Seq<char>
    decreases value,
{
    if value < 10 {
        seq![digit_char(value)]
    } else {
        decimal(value / 10).push(digit_char(value % 10))
    }
}

/// The decimal digits of `value`, after a `-` where it is negative.
pub open spec fn signed_decimal(value: int) -> Seq<char> {
    if value < 0 {
        seq!['-'] + decimal((-value) as nat)
    } else {
        decimal(value as nat)
    }
}

proof fn lemma_digits_value_grows(text: Seq<char>, n: int)
    requires
        0 <= n <= text.len(),
    ensures
        digits_value(text.take(n)) <= digits_value(text),
    decreases text.len() - n,
{
    if n < text.len() {
        assert(text.take(n + 1).drop_last() =~= text.take(n));
        lemma_digits_value_grows(text, n + 1);
    } else {
        assert(text.take(n) =~= text);
    }
}

/// The decimal digits of a number are digits, and denote that number.
pub proof fn lemma_decimal_is_read_back(value: nat)
    ensures
        decimal(value).len() > 0,
        all_digits(decimal(value)),
        digits_value(decimal(value)) == value,
    decreases value,
{
    if value < 10 {
        let text = decimal(value);
        assert(text.drop_last() =~= Seq::<char>::empty());
        assert(digits_value(text.drop_last()) == 0);
    } else {
        lemma_decimal_is_read_back(value / 10);
        let text = decimal(value);
        assert(text.drop_last() =~= decimal(value / 10));
        assert(digit_value(digit_char(value % 10)) == value % 10);
    }
}

/// A number that is written in decimal is read back, when it is in range.
pub proof fn law_unsigned_round_trip(value: nat, max: nat)
    requires
        value <= max,
    ensures
        unsigned_number(decimal(value), max) == Some(value),
{
    lemma_decimal_is_read_back(value);
    assert(is_digit(decimal(value)[0]));
}

/// A signed number that is written in decimal is read back, when it is in
/// range.
pub proof fn law_signed_round_trip(value: int, min: int, max: int)
    requires
        min <= value <= max,
    ensures
        signed_number(signed_decimal(value), min, max) == Some(value),
{
    if value < 0 {
        lemma_decimal_is_read_back((-value) as nat);
        assert(signed_decimal(value).drop_first() =~= decimal((-value) as nat));
    } else {
        lemma_decimal_is_read_back(value as nat);
        assert(is_digit(decimal(value as nat)[0]));
    }
}

/// Reads the digits of `chars` from `from` on, up to `max`.
fn read_digits(chars: &Vec<char>, from: usize, max: u64) -> (result: Option<u64>)
    requires
        from <= chars.len(),
    ensures
        ({
            let found = magnitude(chars@.skip(from as int));
            match result {
                Some(value) => found == Some(value as nat) && value <= max,
                None => found is None || found->0 > max,
            }
        }),
{
    let ghost digits = chars@.skip(from as int);
    if from == chars.len() {
        return None;
    }
    let mut value: u64 = 0;
    let mut i: usize = from;
    assert(digits.take(0) =~= Seq::<char>::empty());
    while i < chars.len()
        invariant
            from <= i <= chars.len(),
            digits == chars@.skip(from as int),
            all_digits(digits.take(i - from)),
            value == digits_value(digits.take(i - from)),
            value <= max,
        decreases chars.len() - i,
    {
        let c = chars[i];
        let ghost next = digits.take(i - from + 1);
        assert(next.drop_last() =~= digits.take(i - from));
        assert(c == digits[i - from]);
        if !('0' <= c && c <= '9') {
            return None;
        }
        let digit: u64 = (c as u32 - 48) as u64;
        proof {
            assert forall|j: int| 0 <= j < next.len() implies is_digit(#[trigger] next[j]) by {
                if j < i - from {
                    assert(next[j] == digits.take(i - from)[j]);
                }
            }
            lemma_digits_value_grows(digits, i - from + 1);
        }
        if digit > max || value > (max - digit) / 10 {
            assert(10 * value + digit > max);
            return None;
        }
        value = value * 10 + digit;
        i += 1;
    }
    assert(digits.take(i - from) =~= digits);
    Some(value)
}

/// Reads an unsigned decimal number of at most `max`.
pub fn parse_unsigned(text: &str, max: u64) -> (result: Option<u64>)
    ensures
        match result {
            Some(value) => unsigned_number(text@, max as nat) == Some(value as nat) && value <= max,
            None => unsigned_number(text@, max as nat) is None,
        },
{
    let chars = chars_of(text);
    if chars.len() > 0 && chars[0] == '+' {
        assert(chars@.skip(1) =~= chars@.drop_first());
        read_digits(&chars, 1, max)
    } else {
        assert(chars@.skip(0) =~= chars@);
        read_digits(&chars, 0, max)
    }
}

/// Reads an unsigned decimal number of 8 bits.
pub fn parse_u8(text: &str) -> (result: Option<u8>)
    ensures
        match result {
            Some(value) => unsigned_number(text@, 255) == Some(value as nat),
            None => unsigned_number(text@, 255) is None,
        },
{
    match parse_unsigned(text, 255) {
        Some(value) => Some(value as u8),
        None => None,
    }
}

/// Reads an unsigned decimal number of 32 bits.
pub fn parse_u32(text: &str) -> (result: Option<u32>)
    ensures
        match result {
            Some(value) => unsigned_number(text@, u32::MAX as nat) == Some(value as nat),
            None => unsigned_number(text@, u32::MAX as nat) is None,
        },
{
    match parse_unsigned(text, u32::MAX as u64) {
        Some(value) => Some(value as u32),
        None => None,
    }
}

/// Reads an unsigned decimal number of the machine's word size.
pub fn parse_usize(text: &str) -> (result: Option<usize>)
    ensures
        match result {
            Some(value) => unsigned_number(text@, usize::MAX as nat) == Some(value as nat),
            None => unsigned_number(text@, usize::MAX as nat) is None,
        },
{
    match parse_unsigned(text, usize::MAX as u64) {
        Some(value) => Some(value as usize),
        None => None,
    }
}

/// Reads a signed decimal number of 32 bits.
pub fn parse_i32(text: &str) -> (result: Option<i32>)
    ensures
        match result {
            Some(value) => signed_number(text@, i32::MIN as int, i32::MAX as int) == Some(value as int),
            None => signed_number(text@, i32::MIN as int, i32::MAX as int) is None,
        },
{
    let chars = chars_of(text);
    if chars.len() > 0 && (chars[0] == '+' || chars[0] == '-') {
        assert(chars@.skip(1) =~= chars@.drop_first());
        if chars[0] == '-' {
            match read_digits(&chars, 1, 0x8000_0000) {
                Some(value) => Some((-(value as i64)) as i32),
                None => None,
            }
        } else {
            match read_digits(&chars, 1, 0x7fff_ffff) {
                Some(value) => Some(value as i32),
                None => None,
            }
        }
    } else {
        assert(chars@.skip(0) =~= chars@);
        match read_digits(&chars, 0, 0x7fff_ffff) {
            Some(value) => Some(value as i32),
            None => None,
        }
    }
}

/// The digit that stands for `digit`.
fn digit_text(digit: u64) -> (text: &'static str)
    requires
        digit < 10,
    ensures
        text@ == seq![digit_char(digit as nat)],
{
    proof {
        reveal_strlit("0");
        reveal_strlit("1");
        reveal_strlit("2");
        reveal_strlit("3");
        reveal_strlit("4");
        reveal_strlit("5");
        reveal_strlit("6");
        reveal_strlit("7");
        reveal_strlit("8");
        reveal_strlit("9");
    }
    match digit {
        0 => "0",
        1 => "1",
        2 => "2",
        3 => "3",
        4 => "4",
        5 => "5",
        6 => "6",
        7 => "7",
        8 => "8",
        _ => "9",
    }
}

/// Writes `value` in decimal behind `text`.
pub fn append_unsigned(text: &mut String, value: u64)
    ensures
        final(text)@ == old(text)@ + decimal(value as nat),
    decreases value,
{
    if value >= 10 {
        append_unsigned(text, value / 10);
    }
    text.append(digit_text(value % 10));
    assert(text@ =~= old(text)@ + decimal(value as nat));
}

/// Writes `value` in decimal behind `text`, with a sign where it is negative.
pub fn append_signed(text: &mut String, value: i32)
    ensures
        final(text)@ == old(text)@ + signed_decimal(value as int),
{
    if value < 0 {
        proof {
            reveal_strlit("-");
        }
        text.append("-");
        append_unsigned(text, (-(value as i64)) as u64);
        assert(text@ =~= old(text)@ + signed_decimal(value as int));
    } else {
        append_unsigned(text, value as u64);
    }
}

/// A single character is a number where it is a digit. An empty text is none,
/// nor is a sign alone.
pub proof fn law_one_digit_is_a_number(c: char, max: nat)
    ensures
        unsigned_number(seq![c], max) == if '0' <= c && c <= '9' && c as nat - 48 <= max {
            Some((c as nat - 48) as nat)
        } else {
            None
        },
        unsigned_number(seq!['+', c], max) == if '0' <= c && c <= '9' && c as nat - 48 <= max {
            Some((c as nat - 48) as nat)
        } else {
            None
        },
        unsigned_number(seq![], max) is None,
        unsigned_number(seq!['+'], max) is None,
{
    let one = seq![c];
    assert(one.drop_last() =~= Seq::<char>::empty());
    assert(digits_value(Seq::<char>::empty()) == 0);
    assert(one.drop_first() =~= Seq::<char>::empty());
    assert(one.last() == c && one[0] == c);
    assert(seq!['+', c].drop_first() =~= one);
    assert(seq!['+'].drop_first() =~= Seq::<char>::empty());
}

/// A digit behind a number makes it ten times as much and the digit. Where it
/// exceeds the bound, or another character stands there, the text is no number.
pub proof fn law_number_is_read_digit_by_digit(front: Seq<char>, c: char, max: nat)
    requires
        front.len() > 0,
        front != seq!['+'],
    ensures
        unsigned_number(front.push(c), max) == match unsigned_number(front, max) {
            Some(value) => if '0' <= c && c <= '9' && 10 * value + (c as nat - 48) <= max {
                Some((10 * value + (c as nat - 48)) as nat)
            } else {
                None
            },
            None => None,
        },
{
    let whole = front.push(c);
    let signed = front[0] == '+';
    assert(whole[0] == front[0]);
    let digits = if signed {
        front.drop_first()
    } else {
        front
    };
    let longer = digits.push(c);
    if signed {
        assert(digits.len() > 0) by {
            if digits.len() == 0 {
                assert(front =~= seq!['+']);
            }
        }
        assert(whole.drop_first() =~= longer);
    }
    assert(longer.drop_last() =~= digits);
    assert(longer.last() == c);
    if all_digits(digits) && is_digit(c) {
        assert forall|i: int| 0 <= i < longer.len() implies is_digit(#[trigger] longer[i]) by {
            if i < digits.len() {
                assert(longer[i] == digits[i]);
            }
        }
    } else if !is_digit(c) {
        assert(!is_digit(longer[digits.len() as int]));
    } else {
        let i = choose|i: int| 0 <= i < digits.len() && !is_digit(#[trigger] digits[i]);
        assert(longer[i] == digits[i]);
    }
}

/// A number behind a minus is negative; any other text is the number that it is
/// without a sign's meaning. Both have to be in range.
pub proof fn law_minus_makes_negative(digits: Seq<char>, min: int, max: int)
    requires
        digits.len() == 0 || digits[0] != '+',
        min <= 0 <= max,
    ensures
        signed_number(seq!['-'] + digits, min, max) == match unsigned_number(digits, (-min) as nat) {
            Some(value) => Some(-(value as int)),
            None => None,
        },
        digits.len() == 0 || digits[0] != '-' ==> signed_number(digits, min, max) == match unsigned_number(
            digits,
            max as nat,
        ) {
            Some(value) => Some(value as int),
            None => None,
        },
        signed_number(seq!['+'] + digits, min, max) == match unsigned_number(digits, max as nat) {
            Some(value) => Some(value as int),
            None => None,
        },
{
    assert((seq!['-'] + digits).drop_first() =~= digits);
    assert((seq!['+'] + digits).drop_first() =~= digits);
}

/// A number is written without zeros in front, and zero as a single one. A
/// negative number begins with a minus, and no other does.
pub proof fn law_numbers_are_written_short(value: nat, signed: int)
    ensures
        decimal(0) == seq!['0'],
        value > 0 ==> decimal(value)[0] != '0',
        forall|i: int| 0 <= i < decimal(value).len() ==> '0' <= #[trigger] decimal(value)[i] <= '9',
        signed >= 0 ==> signed_decimal(signed) == decimal(signed as nat),
        signed < 0 ==> signed_decimal(signed) == seq!['-'] + decimal((-signed) as nat),
    decreases value,
{
    lemma_decimal_is_read_back(value);
    let text = decimal(value);
    assert forall|i: int| 0 <= i < text.len() implies '0' <= #[trigger] text[i] <= '9' by {
        assert(is_digit(text[i]));
    }
    if value >= 10 {
        law_numbers_are_written_short(value / 10, signed);
        lemma_decimal_is_read_back(value / 10);
        assert(text[0] == decimal(value / 10)[0]);
    }
}

/// A text with two signs is no number, nor is a sign alone.
pub proof fn law_one_sign_at_most(first: char, second: char, rest: Seq<char>, min: int, max: int)
    requires
        first == '+' || first == '-',
        second == '+' || second == '-',
    ensures
        signed_number(seq![first, second] + rest, min, max) is None,
        signed_number(seq![first], min, max) is None,
        signed_number(seq![], min, max) is None,
{
    let whole = seq![first, second] + rest;
    assert(whole[0] == first);
    assert(whole.drop_first()[0] == second);
    assert(!is_digit(whole.drop_first()[0]));
    assert(seq![first].drop_first() =~= Seq::<char>::empty());
}

} // verus!
