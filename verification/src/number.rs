//! Decimal notation of whole numbers.

use vstd::prelude::*;

verus! {

/// The character of a digit below ten.
pub open spec fn digit(d: nat) -> char {
    (('0' as nat) + d) as char
}

/// `n` in decimal notation, without leading zeros.
pub open spec fn decimal(n: nat) -> Seq<char>
    decreases n,
{
    if n < 10 {
        seq![digit(n)]
    } else {
        decimal(n / 10).push(digit(n % 10))
    }
}

/// `n` in decimal notation, with a minus sign where it is below zero.
pub open spec fn signed_decimal(n: int) -> Seq<char> {
    if n < 0 {
        seq!['-'] + decimal((-n) as nat)
    } else {
        decimal(n as nat)
    }
}

fn digit_char(d: u8) -> (r: char)
    requires
        d < 10,
    ensures
        r == digit(d as nat),
{
    (48u8 + d) as char
}

/// Writes `n` in decimal notation.
pub fn format_u128(n: u128) -> (r: String)
    ensures
        r@ == decimal(n as nat),
    decreases n,
{
    if n < 10 {
        let mut out = String::new();
        out.push(digit_char(n as u8));
        assert(out@ =~= decimal(n as nat));
        out
    } else {
        let mut out = format_u128(n / 10);
        out.push(digit_char((n % 10) as u8));
        out
    }
}

/// Writes `n` in decimal notation.
pub fn format_u64(n: u64) -> (r: String)
    ensures
        r@ == decimal(n as nat),
{
    format_u128(n as u128)
}

/// Writes `n` in decimal notation.
pub fn format_usize(n: usize) -> (r: String)
    ensures
        r@ == decimal(n as nat),
{
    format_u128(n as u128)
}

/// Writes `n` in decimal notation, with a minus sign where it is below zero.
pub fn format_i32(n: i32) -> (r: String)
    ensures
        r@ == signed_decimal(n as int),
{
    if n < 0 {
        let mut out = String::new();
        out.push('-');
        let magnitude = format_u128((-(n as i64)) as u128);
        out.append(magnitude.as_str());
        assert(out@ =~= signed_decimal(n as int));
        out
    } else {
        format_u128(n as u128)
    }
}

/// Whether `c` is one of the ten decimal digits.
pub open spec fn is_digit(c: char) -> bool {
    '0' <= c <= '9'
}

/// Whether every character of `text` is a decimal digit.
pub open spec fn all_digits(text: Seq<char>) -> bool {
    forall|i: int| 0 <= i < text.len() ==> is_digit(#[trigger] text[i])
}

/// The number that a row of decimal digits stands for.
pub open spec fn digits_value(text: Seq<char>) -> nat
    decreases text.len(),
{
    if text.len() == 0 {
        0
    } else {
        10 * digits_value(text.drop_last()) + ((text.last() as int) - ('0' as int)) as nat
    }
}

/// The digits of a number without its optional plus sign.
pub open spec fn without_plus(text: Seq<char>) -> Seq<char> {
    if text.len() > 0 && text[0] == '+' {
        text.skip(1)
    } else {
        text
    }
}

/// The whole number that `text` is the notation of: one or more decimal digits,
/// after at most one plus sign, with a value of at most `max`.
pub open spec fn unsigned_value(text: Seq<char>, max: nat) -> Option<nat> {
    let digits = without_plus(text);
    if digits.len() > 0 && all_digits(digits) && digits_value(digits) <= max {
        Some(digits_value(digits))
    } else {
        None
    }
}

/// A longer row of digits stands for no smaller number.
proof fn lemma_value_grows(text: Seq<char>, n: int)
    requires
        0 <= n <= text.len(),
        all_digits(text),
    ensures
        digits_value(text.take(n)) <= digits_value(text),
    decreases text.len() - n,
{
    if n < text.len() {
        lemma_value_grows(text, n + 1);
        assert(text.take(n + 1).drop_last() =~= text.take(n));
        assert(is_digit(text[n]));
    } else {
        assert(text.take(n) =~= text);
    }
}

/// Reads a whole number of at most `max`.
pub fn parse_unsigned(text: &Vec<char>, max: u32) -> (r: Option<u32>)
    ensures
        match r {
            Some(n) => unsigned_value(text@, max as nat) == Some(n as nat),
            None => unsigned_value(text@, max as nat) is None,
        },
{
    let start: usize = if text.len() > 0 && text[0] == '+' {
        1
    } else {
        0
    };
    let ghost digits = without_plus(text@);
    assert(digits =~= text@.skip(start as int));
    if text.len() == start {
        return None;
    }
    let mut value: u64 = 0;
    let mut i: usize = start;
    while i < text.len()
        invariant
            start <= i <= text@.len(),
            digits == text@.skip(start as int),
            digits == without_plus(text@),
            digits.len() > 0,
            forall|j: int| 0 <= j < i - start ==> is_digit(#[trigger] digits[j]),
            value == digits_value(digits.take(i - start)),
            value <= max,
        decreases text@.len() - i,
    {
        let c = text[i];
        assert(digits[i - start] == c);
        if c < '0' || c > '9' {
            assert(!is_digit(digits[i - start]));
            return None;
        }
        assert(digits.take(i - start + 1).drop_last() =~= digits.take(i - start));
        value = value * 10 + ((c as u32) - 48) as u64;
        i += 1;
        if value > max as u64 {
            proof {
                if all_digits(digits) {
                    lemma_value_grows(digits, i - start);
                }
            }
            return None;
        }
    }
    assert(digits.take(i - start) =~= digits);
    Some(value as u32)
}

/// Reads a `u32`.
pub fn parse_u32(text: &Vec<char>) -> (r: Option<u32>)
    ensures
        match r {
            Some(n) => unsigned_value(text@, u32::MAX as nat) == Some(n as nat),
            None => unsigned_value(text@, u32::MAX as nat) is None,
        },
{
    parse_unsigned(text, u32::MAX)
}

/// Reads a `u16`.
pub fn parse_u16(text: &Vec<char>) -> (r: Option<u16>)
    ensures
        match r {
            Some(n) => unsigned_value(text@, u16::MAX as nat) == Some(n as nat),
            None => unsigned_value(text@, u16::MAX as nat) is None,
        },
{
    match parse_unsigned(text, 65535) {
        Some(n) => Some(n as u16),
        None => None,
    }
}

proof fn lemma_digit(d: nat)
    requires
        d < 10,
    ensures
        is_digit(digit(d)),
        (digit(d) as int) - ('0' as int) == d,
{
}

/// Reading the decimal notation of a number gives the number back.
pub proof fn lemma_decimal_value(n: nat)
    ensures
        decimal(n).len() > 0,
        all_digits(decimal(n)),
        digits_value(decimal(n)) == n,
    decreases n,
{
    if n < 10 {
        lemma_digit(n);
        assert(decimal(n).drop_last().len() == 0);
        assert(digits_value(decimal(n).drop_last()) == 0);
    } else {
        lemma_decimal_value(n / 10);
        lemma_digit(n % 10);
        assert(decimal(n).drop_last() =~= decimal(n / 10));
        assert forall|i: int| 0 <= i < decimal(n).len() implies is_digit(#[trigger] decimal(n)[i]) by {
            if i < decimal(n / 10).len() {
                assert(decimal(n)[i] == decimal(n / 10)[i]);
            }
        }
    }
}

/// A number of at most `max` is read back from its decimal notation.
pub proof fn lemma_decimal_round_trip(n: nat, max: nat)
    requires
        n <= max,
    ensures
        unsigned_value(decimal(n), max) == Some(n),
{
    lemma_decimal_value(n);
    assert(is_digit(decimal(n)[0]));
}

/// Different numbers have different decimal notations.
pub proof fn lemma_decimal_injective(a: nat, b: nat)
    requires
        decimal(a) == decimal(b),
    ensures
        a == b,
{
    lemma_decimal_value(a);
    lemma_decimal_value(b);
}

/// Decimal notation has no leading zeros, and a number with one more digit has one more digit in its
/// notation. A number below zero has a minus sign before it.
pub proof fn lemma_decimal_form(n: nat, d: nat)
    requires
        d < 10,
    ensures
        decimal(0) == seq!['0'],
        n > 0 ==> decimal(n)[0] != '0',
        n > 0 ==> decimal(10 * n + d) == decimal(n).push(('0' as nat + d) as char),
        decimal(d) == seq![('0' as nat + d) as char],
        n > 0 ==> signed_decimal(-(n as int)) == seq!['-'] + decimal(n),
        signed_decimal(n as int) == decimal(n),
    decreases n,
{
    lemma_digit(d);
    assert((10 * n + d) / 10 == n);
    assert((10 * n + d) % 10 == d);
    lemma_decimal_value(n);
    if n > 9 {
        lemma_decimal_form(n / 10, d);
        lemma_decimal_value(n / 10);
        assert(decimal(n)[0] == decimal(n / 10)[0]);
    }
}

/// How a number is read: one digit more is worth ten times what stands before it; a plus sign may
/// stand before the digits; nothing else may stand among them, and the number may not be too large.
pub proof fn lemma_number_read(text: Seq<char>, d: nat, max: nat, i: int)
    requires
        d < 10,
    ensures
        unsigned_value(Seq::empty(), max) is None,
        unsigned_value(seq!['+'], max) is None,
        d <= max ==> unsigned_value(seq![('0' as nat + d) as char], max) == Some(d),
        text.len() > 0 && all_digits(text) ==> unsigned_value(seq!['+'] + text, max)
            == unsigned_value(text, max),
        unsigned_value(text, max) matches Some(v) ==> v <= max && (if 10 * v + d <= max {
            unsigned_value(text.push(('0' as nat + d) as char), max) == Some(10 * v + d)
        } else {
            unsigned_value(text.push(('0' as nat + d) as char), max) is None
        }),
        0 <= i < text.len() && !is_digit(text[i]) && (text[i] != '+' || i > 0) ==> unsigned_value(
            text,
            max,
        ) is None,
{
    let c = ('0' as nat + d) as char;
    lemma_digit(d);
    assert(seq!['+'].skip(1) =~= Seq::empty());
    assert(seq![c].drop_last() =~= Seq::empty());
    assert(digits_value(Seq::<char>::empty()) == 0);
    assert(digits_value(seq![c]) == d);
    if text.len() > 0 && all_digits(text) {
        assert(is_digit(text[0]));
        assert((seq!['+'] + text).skip(1) =~= text);
    }
    if unsigned_value(text, max) is Some {
        let digits = without_plus(text);
        assert(without_plus(text.push(c)) =~= digits.push(c));
        assert(digits.push(c).drop_last() =~= digits);
        assert(all_digits(digits.push(c))) by {
            assert forall|k: int| 0 <= k < digits.push(c).len() implies is_digit(
                #[trigger] digits.push(c)[k],
            ) by {
                if k < digits.len() {
                    assert(is_digit(digits[k]));
                }
            }
        }
    }
    if 0 <= i < text.len() && !is_digit(text[i]) && (text[i] != '+' || i > 0) {
        let digits = without_plus(text);
        if text[0] == '+' {
            assert(digits[i - 1] == text[i]);
        } else {
            assert(digits[i] == text[i]);
        }
        assert(!all_digits(digits));
    }
}

} // verus!
