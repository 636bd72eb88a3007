//! Decimal numbers in text.
use vstd::prelude::*;

use crate::text::chars_of;

verus! {

/// Whether a character is a decimal digit.
pub open spec fn is_digit(c: char) -> bool {
    '0' <= c <= '9'
}

/// The number that decimal digits stand for.
pub open spec fn digits_value(digits: Seq<char>) -> nat
    decreases digits.len(),
{
    if digits.len() == 0 {
        0
    } else {
        10 * digits_value(digits.drop_last()) + (digits.last() as int - '0' as int) as nat
    }
}

/// The number that a text stands for, where it is one or more digits and nothing else.
pub open spec fn natural(text: Seq<char>) -> Option<nat> {
    if text.len() > 0 && forall|i: int| 0 <= i < text.len() ==> is_digit(#[trigger] text[i]) {
        Some(digits_value(text))
    } else {
        None
    }
}

/// A text without the sign in front of it.
pub open spec fn unsigned(text: Seq<char>, sign: char) -> Seq<char> {
    if text.len() > 0 && text[0] == sign {
        text.skip(1)
    } else {
        text
    }
}

/// The number that a text stands for: digits, with or without a `+` in front, worth no more
/// than a `u64` holds.
pub open spec fn u64_of(text: Seq<char>) -> Option<u64> {
    match natural(unsigned(text, '+')) {
        Some(v) => if v <= u64::MAX {
            Some(v as u64)
        } else {
            None
        },
        None => None,
    }
}

/// The number that a text stands for: digits, with or without a `+` or a `-` in front, in
/// the range of an `i64`.
pub open spec fn i64_of(text: Seq<char>) -> Option<i64> {
    let negative = text.len() > 0 && text[0] == '-';
    match natural(unsigned(text, if negative {
        '-'
    } else {
        '+'
    })) {
        Some(v) => {
            let n: int = if negative {
                -(v as int)
            } else {
                v as int
            };
            if i64::MIN <= n <= i64::MAX {
                Some(n as i64)
            } else {
                None
            }
        },
        None => None,
    }
}

/// More digits are worth no less.
proof fn lemma_digits_grow(text: Seq<char>, i: int)
    requires
        0 <= i <= text.len(),
        forall|k: int| 0 <= k < text.len() ==> is_digit(#[trigger] text[k]),
    ensures
        digits_value(text.take(i)) <= digits_value(text),
    decreases text.len(),
{
    if i < text.len() {
        assert(text.drop_last().take(i) =~= text.take(i));
        lemma_digits_grow(text.drop_last(), i);
    } else {
        assert(text.take(i) =~= text);
    }
}

/// Reads the digits from `from` on, where they are worth no more than `max`.
fn read_natural(chars: &Vec<char>, from: usize, max: u64) -> (r: Option<u64>)
    requires
        from <= chars@.len(),
    ensures
        r == (match natural(chars@.skip(from as int)) {
            Some(v) => if v <= max {
                Some(v as u64)
            } else {
                None
            },
            None => None,
        }),
{
    let ghost text = chars@.skip(from as int);
    if from == chars.len() {
        return None;
    }
    let mut value: u64 = 0;
    assert(text.take(0) =~= Seq::<char>::empty());
    for i in from..chars.len()
        invariant
            from <= i <= chars@.len(),
            text == chars@.skip(from as int),
            value == digits_value(text.take(i - from)),
            value <= max,
            forall|k: int| 0 <= k < i - from ==> is_digit(#[trigger] text[k]),
    {
        let c = chars[i];
        let ghost upto = text.take(i - from + 1);
        assert(c == text[i - from]);
        if c < '0' || c > '9' {
            return None;
        }
        let next: u128 = 10 * value as u128 + (c as u32 - '0' as u32) as u128;
        proof {
            assert(upto.drop_last() =~= text.take(i - from));
            assert(next == digits_value(upto));
            if next > max && natural(text) is Some {
                lemma_digits_grow(text, i - from + 1);
            }
        }
        if next > max as u128 {
            return None;
        }
        value = next as u64;
    }
    assert(text.take(text.len() as int) =~= text);
    Some(value)
}

/// Reads a `u64`.
pub fn parse_u64(text: &str) -> (r: Option<u64>)
    ensures
        r == u64_of(text@),
{
    let chars = chars_of(text);
    let from: usize = if chars.len() > 0 && chars[0] == '+' { 1 } else { 0 };
    assert(chars@.skip(0) =~= chars@);
    read_natural(&chars, from, u64::MAX)
}

/// Reads an `i64`.
pub fn parse_i64(text: &str) -> (r: Option<i64>)
    ensures
        r == i64_of(text@),
{
    let chars = chars_of(text);
    assert(chars@.skip(0) =~= chars@);
    if chars.len() > 0 && chars[0] == '-' {
        match read_natural(&chars, 1, 0x8000_0000_0000_0000) {
            Some(v) => Some((-(v as i128)) as i64),
            None => None,
        }
    } else {
        let from: usize = if chars.len() > 0 && chars[0] == '+' { 1 } else { 0 };
        match read_natural(&chars, from, 0x7fff_ffff_ffff_ffff) {
            Some(v) => Some(v as i64),
            None => None,
        }
    }
}

/// A number below ten as a digit.
pub open spec fn digit_of(n: nat) -> char {
    ('0' as u32 + n) as char
}

/// A number in decimal digits, without zeros in front.
pub open spec fn decimal_of(n: nat) -> Seq<char>
    decreases n,
{
    if n < 10 {
        seq![digit_of(n)]
    } else {
        decimal_of(n / 10).push(digit_of(n % 10))
    }
}

/// The digits of a number read back as the number.
pub proof fn law_decimal_read_back(n: nat)
    ensures
        natural(decimal_of(n)) == Some(n),
    decreases n,
{
    if n < 10 {
        let text = seq![digit_of(n)];
        reveal_with_fuel(digits_value, 2);
        assert(text.drop_last() =~= Seq::<char>::empty());
        assert(is_digit(text[0]));
    } else {
        let front = decimal_of(n / 10);
        let text = decimal_of(n);
        law_decimal_read_back(n / 10);
        assert(text.drop_last() =~= front);
        assert forall|i: int| 0 <= i < text.len() implies is_digit(#[trigger] text[i]) by {
            if i < front.len() {
                assert(is_digit(front[i]));
            }
        }
    }
}

/// Writes a number in decimal digits.
pub fn write_decimal(n: u64) -> (text: String)
    ensures
        text@ == decimal_of(n as nat),
    decreases n,
{
    let mut text = if n < 10 { String::new() } else { write_decimal(n / 10) };
    let d = (n % 10) as u8;
    assert(text@ =~= (if n < 10 { Seq::<char>::empty() } else { decimal_of((n / 10) as nat) }));
    text.push((48 + d) as char);
    assert(text@ =~= decimal_of(n as nat));
    text
}

/// What digits are worth: one more digit makes what was there ten times as much, and adds
/// itself.
pub proof fn law_one_more_digit(digits: Seq<char>, c: char)
    ensures
        digits_value(Seq::empty()) == 0,
        '0' <= c <= '9' ==> digits_value(digits.push(c)) == 10 * digits_value(digits) + (c as int
            - '0' as int),
{
    assert(digits.push(c).drop_last() =~= digits);
}

/// What is a natural number: one or more digits, and nothing else.
pub proof fn law_natural(text: Seq<char>)
    ensures
        natural(text) is Some <==> text.len() > 0 && forall|i: int|
            0 <= i < text.len() ==> '0' <= #[trigger] text[i] <= '9',
        natural(text) is Some ==> natural(text)->Some_0 == digits_value(text),
{
    if natural(text) is Some {
        assert forall|i: int| 0 <= i < text.len() implies '0' <= #[trigger] text[i] <= '9' by {
            assert(is_digit(text[i]));
        }
    }
}

/// What is read as a `u64`: a natural number that it can hold, with or without a `+`.
pub proof fn law_u64_of(digits: Seq<char>)
    requires
        natural(digits) is Some,
    ensures
        u64_of(digits) == (if natural(digits)->Some_0 <= 0xffff_ffff_ffff_ffff {
            Some(natural(digits)->Some_0 as u64)
        } else {
            None::<u64>
        }),
        u64_of(seq!['+'] + digits) == u64_of(digits),
{
    assert(is_digit(digits[0]));
    assert((seq!['+'] + digits).skip(1) =~= digits);
}

/// Nothing else is read as a `u64`.
pub proof fn law_no_u64(text: Seq<char>)
    requires
        natural(text) is None,
        text.len() == 0 || text[0] != '+' || natural(text.skip(1)) is None,
    ensures
        u64_of(text) is None,
{
}

/// What is read as an `i64`: a natural number in its range, with or without a sign.
pub proof fn law_i64_of(digits: Seq<char>)
    requires
        natural(digits) is Some,
    ensures
        i64_of(digits) == (if natural(digits)->Some_0 <= 0x7fff_ffff_ffff_ffff {
            Some(natural(digits)->Some_0 as i64)
        } else {
            None::<i64>
        }),
        i64_of(seq!['+'] + digits) == i64_of(digits),
        i64_of(seq!['-'] + digits) == (if natural(digits)->Some_0 <= 0x8000_0000_0000_0000 {
            Some((-(natural(digits)->Some_0 as int)) as i64)
        } else {
            None::<i64>
        }),
{
    assert(is_digit(digits[0]));
    assert((seq!['+'] + digits).skip(1) =~= digits);
    assert((seq!['-'] + digits).skip(1) =~= digits);
}

/// Nothing else is read as an `i64`.
pub proof fn law_no_i64(text: Seq<char>)
    requires
        natural(text) is None,
        text.len() == 0 || (text[0] != '+' && text[0] != '-') || natural(text.skip(1)) is None,
    ensures
        i64_of(text) is None,
{
}

/// A number is written without zeros in front.
pub proof fn law_decimal_has_no_zeros_in_front(n: nat)
    ensures
        decimal_of(n).len() > 0,
        n > 0 ==> decimal_of(n)[0] != '0',
        n < 10 ==> decimal_of(n).len() == 1,
    decreases n,
{
    if n >= 10 {
        law_decimal_has_no_zeros_in_front(n / 10);
    }
}

} // verus!
