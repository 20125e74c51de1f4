//! Reading values as booleans, integers and paths.
use vstd::prelude::*;
use crate::config::section::{eq_bytes, eq_ignore_case, same_name};

verus! {

/// Why a value could not be read as what was asked for.
#[derive(Clone, Copy, Debug, PartialEq, Eq, Structural)]
pub enum ParseErrorKind {
    /// The value is none of the words that stand for true or false.
    Boolean,
    /// The value is no decimal number with an optional `k`, `m` or `g` at its end.
    Integer,
    /// The number does not fit into 64 bits.
    IntegerOverflow,
}

/// A value that could not be read, and why.
#[derive(Debug, PartialEq, Eq)]
pub struct ValueError {
    pub kind: ParseErrorKind,
    pub input: Vec<u8>,
}

/// A value that names a path. It is not looked at in any way.
#[derive(Debug, PartialEq, Eq)]
pub struct Path {
    pub value: Vec<u8>,
}

/// The truth that `value` stands for: `yes`, `on`, `true` and `one` in any case and the
/// empty value stand for true; `no`, `off`, `false` and `zero` in any case and a pair of
/// double quotes stand for false.
pub open spec fn boolean_of(value: Seq<u8>) -> Option<bool> {
    if value.len() == 0 || same_name(value, seq![0x79u8, 0x65, 0x73]) || same_name(
        value,
        seq![0x6fu8, 0x6e],
    ) || same_name(value, seq![0x74u8, 0x72, 0x75, 0x65]) || same_name(
        value,
        seq![0x6fu8, 0x6e, 0x65],
    ) {
        Some(true)
    } else if same_name(value, seq![0x6eu8, 0x6f]) || same_name(value, seq![0x6fu8, 0x66, 0x66])
        || same_name(value, seq![0x66u8, 0x61, 0x6c, 0x73, 0x65]) || same_name(
        value,
        seq![0x7au8, 0x65, 0x72, 0x6f],
    ) || value == seq![0x22u8, 0x22] {
        Some(false)
    } else {
        None
    }
}

/// Reads `value` as a boolean.
pub fn parse_boolean(value: &[u8]) -> (truth: Option<bool>)
    ensures
        truth == boolean_of(value@),
{
    let yes: [u8; 3] = [0x79, 0x65, 0x73];
    let on: [u8; 2] = [0x6f, 0x6e];
    let true_: [u8; 4] = [0x74, 0x72, 0x75, 0x65];
    let one: [u8; 3] = [0x6f, 0x6e, 0x65];
    let no: [u8; 2] = [0x6e, 0x6f];
    let off: [u8; 3] = [0x6f, 0x66, 0x66];
    let false_: [u8; 5] = [0x66, 0x61, 0x6c, 0x73, 0x65];
    let zero: [u8; 4] = [0x7a, 0x65, 0x72, 0x6f];
    let quotes: [u8; 2] = [0x22, 0x22];
    proof {
        assert(yes@ =~= seq![0x79u8, 0x65, 0x73]);
        assert(on@ =~= seq![0x6fu8, 0x6e]);
        assert(true_@ =~= seq![0x74u8, 0x72, 0x75, 0x65]);
        assert(one@ =~= seq![0x6fu8, 0x6e, 0x65]);
        assert(no@ =~= seq![0x6eu8, 0x6f]);
        assert(off@ =~= seq![0x6fu8, 0x66, 0x66]);
        assert(false_@ =~= seq![0x66u8, 0x61, 0x6c, 0x73, 0x65]);
        assert(zero@ =~= seq![0x7au8, 0x65, 0x72, 0x6f]);
        assert(quotes@ =~= seq![0x22u8, 0x22]);
    }
    if value.len() == 0 || eq_ignore_case(value, yes.as_slice()) || eq_ignore_case(
        value,
        on.as_slice(),
    ) || eq_ignore_case(value, true_.as_slice()) || eq_ignore_case(value, one.as_slice()) {
        Some(true)
    } else if eq_ignore_case(value, no.as_slice()) || eq_ignore_case(value, off.as_slice())
        || eq_ignore_case(value, false_.as_slice()) || eq_ignore_case(value, zero.as_slice())
        || eq_bytes(value, quotes.as_slice()) {
        Some(false)
    } else {
        None
    }
}

/// Whether `b` is a decimal digit.
pub open spec fn is_digit(b: u8) -> bool {
    0x30 <= b <= 0x39
}

/// Whether `digits` holds decimal digits only.
pub open spec fn all_digits(digits: Seq<u8>) -> bool {
    forall|i: int| 0 <= i < digits.len() ==> is_digit(#[trigger] digits[i])
}

/// The number that the first `end` digits of `digits` spell.
pub open spec fn digits_value(digits: Seq<u8>, end: int) -> int
    decreases end,
{
    if end <= 0 {
        0
    } else {
        digits_value(digits, end - 1) * 10 + (digits[end - 1] - 0x30)
    }
}

/// The number that `text` spells: an optional sign and at least one decimal digit, with
/// a value that fits into 64 bits.
pub open spec fn decimal_of(text: Seq<u8>) -> Option<i64> {
    let signed = text.len() > 0 && (text[0] == 0x2b || text[0] == 0x2d);
    let digits = if signed {
        text.subrange(1, text.len() as int)
    } else {
        text
    };
    let magnitude = digits_value(digits, digits.len() as int);
    let value = if text.len() > 0 && text[0] == 0x2d {
        -magnitude
    } else {
        magnitude
    };
    if digits.len() > 0 && all_digits(digits) && i64::MIN <= value <= i64::MAX {
        Some(value as i64)
    } else {
        None
    }
}

/// The number of digits spelt grows the value.
proof fn lemma_digits_grow(digits: Seq<u8>, a: int, b: int)
    requires
        0 <= a <= b <= digits.len(),
        forall|i: int| 0 <= i < digits.len() ==> is_digit(#[trigger] digits[i]),
    ensures
        0 <= digits_value(digits, a) <= digits_value(digits, b),
    decreases b - a,
{
    if a < b {
        lemma_digits_grow(digits, a, b - 1);
        assert(is_digit(digits[b - 1]));
    } else {
        lemma_digits_nonnegative(digits, a);
    }
}

/// What digits spell is not negative.
proof fn lemma_digits_nonnegative(digits: Seq<u8>, end: int)
    requires
        0 <= end <= digits.len(),
        forall|i: int| 0 <= i < digits.len() ==> is_digit(#[trigger] digits[i]),
    ensures
        0 <= digits_value(digits, end),
    decreases end,
{
    if end > 0 {
        lemma_digits_nonnegative(digits, end - 1);
        assert(is_digit(digits[end - 1]));
    }
}

/// Reads `text` as a decimal number of 64 bits with an optional sign.
pub fn parse_decimal(text: &[u8]) -> (value: Option<i64>)
    ensures
        value == decimal_of(text@),
{
    let len = text.len();
    let signed = len > 0 && (text[0] == 0x2b || text[0] == 0x2d);
    let negative = len > 0 && text[0] == 0x2d;
    let start: usize = if signed {
        1
    } else {
        0
    };
    let ghost digits = if signed {
        text@.subrange(1, len as int)
    } else {
        text@
    };
    if start >= len {
        return None;
    }
    // The greatest magnitude that fits: one more for negative numbers.
    let limit: u64 = if negative {
        9223372036854775808
    } else {
        9223372036854775807
    };
    let mut magnitude: u64 = 0;
    let mut i: usize = start;
    while i < len
        invariant
            start <= i <= len,
            len == text@.len(),
            signed == (len > 0 && (text@[0] == 0x2b || text@[0] == 0x2d)),
            negative == (len > 0 && text@[0] == 0x2d),
            digits == (if signed {
                text@.subrange(1, len as int)
            } else {
                text@
            }),
            digits.len() == len - start,
            forall|j: int| 0 <= j < digits.len() ==> #[trigger] digits[j] == text@[j + start],
            forall|j: int| 0 <= j < i - start ==> is_digit(#[trigger] digits[j]),
            magnitude == digits_value(digits, i - start),
            magnitude <= limit,
            limit == (if negative {
                9223372036854775808u64
            } else {
                9223372036854775807u64
            }),
        decreases len - i,
    {
        let c = text[i];
        assert(digits[i - start] == c);
        if c < 0x30 || c > 0x39 {
            assert(!is_digit(digits[i - start]));
            assert(!all_digits(digits));
            return None;
        }
        let digit = (c - 0x30) as u64;
        assert(digits_value(digits, i - start + 1) == digits_value(digits, i - start) * 10 + (
        digits[i - start] - 0x30));
        if magnitude > (limit - digit) / 10 {
            proof {
                let sofar = digits_value(digits, i - start + 1);
                assert(sofar > limit) by (nonlinear_arith)
                    requires
                        sofar == magnitude * 10 + digit,
                        magnitude > (limit - digit) / 10,
                        0 <= digit <= 9,
                        limit >= 9,
                ;
                if all_digits(digits) {
                    lemma_digits_grow(digits, i - start + 1, digits.len() as int);
                }
            }
            return None;
        }
        assert(magnitude * 10 + digit <= limit) by (nonlinear_arith)
            requires
                magnitude <= (limit - digit) / 10,
                0 <= digit <= 9,
                limit >= 9,
        ;
        magnitude = magnitude * 10 + digit;
        i += 1;
    }
    assert(all_digits(digits));
    if negative {
        if magnitude == 9223372036854775808 {
            Some(i64::MIN)
        } else {
            Some(-(magnitude as i64))
        }
    } else {
        Some(magnitude as i64)
    }
}

/// By how much the letter at the end of a number multiplies it: `k` by 1024, `m` by
/// 1024 times 1024, `g` by 1024 times that, in either case.
pub open spec fn factor_of(suffix: u8) -> Option<i64> {
    if suffix == 0x6b || suffix == 0x4b {
        Some(1024i64)
    } else if suffix == 0x6d || suffix == 0x4d {
        Some(1048576i64)
    } else if suffix == 0x67 || suffix == 0x47 {
        Some(1073741824i64)
    } else {
        None
    }
}

/// The number that `value` stands for: a decimal number, or one with a letter at its
/// end that multiplies it. Too great a number is an overflow.
pub open spec fn integer_of(value: Seq<u8>) -> Result<i64, ParseErrorKind> {
    match decimal_of(value) {
        Some(number) => Ok(number),
        None => if value.len() <= 1 {
            Err(ParseErrorKind::Integer)
        } else {
            match (decimal_of(value.drop_last()), factor_of(value.last())) {
                (Some(number), Some(factor)) => if i64::MIN <= number * factor <= i64::MAX {
                    Ok((number * factor) as i64)
                } else {
                    Err(ParseErrorKind::IntegerOverflow)
                },
                _ => Err(ParseErrorKind::Integer),
            }
        },
    }
}

/// Reads `value` as an integer.
pub fn parse_integer(value: &[u8]) -> (number: Result<i64, ParseErrorKind>)
    ensures
        number == integer_of(value@),
{
    if let Some(number) = parse_decimal(value) {
        return Ok(number);
    }
    let len = value.len();
    if len <= 1 {
        return Err(ParseErrorKind::Integer);
    }
    let suffix = value[len - 1];
    let factor: i64 = if suffix == 0x6b || suffix == 0x4b {
        1024
    } else if suffix == 0x6d || suffix == 0x4d {
        1048576
    } else if suffix == 0x67 || suffix == 0x47 {
        1073741824
    } else {
        return Err(ParseErrorKind::Integer);
    };
    assert(value@.drop_last() =~= value@.subrange(0, len - 1));
    let number = match parse_decimal(vstd::slice::slice_subrange(value, 0, len - 1)) {
        Some(number) => number,
        None => {
            return Err(ParseErrorKind::Integer);
        },
    };
    if number > i64::MAX / factor || number < i64::MIN / factor {
        assert(!(i64::MIN <= number * factor <= i64::MAX)) by (nonlinear_arith)
            requires
                number > i64::MAX / factor || number < i64::MIN / factor,
                factor == 1024 || factor == 1048576 || factor == 1073741824,
        ;
        return Err(ParseErrorKind::IntegerOverflow);
    }
    assert(i64::MIN <= number * factor <= i64::MAX) by (nonlinear_arith)
        requires
            number <= i64::MAX / factor,
            number >= i64::MIN / factor,
            factor == 1024 || factor == 1048576 || factor == 1073741824,
    ;
    Ok(number * factor)
}

/// The value from `from` on as a string: double quotes are dropped, and a backslash
/// before a double quote is dropped so that the quote stays. A backslash before any
/// other byte stays with that byte.
pub open spec fn normalized_from(value: Seq<u8>, from: int) -> Seq<u8>
    decreases value.len() - from,
{
    if from < 0 || from >= value.len() {
        Seq::empty()
    } else if value[from] == 0x5c && from + 1 < value.len() {
        if value[from + 1] == 0x22 {
            seq![0x22u8] + normalized_from(value, from + 2)
        } else {
            seq![0x5cu8, value[from + 1]] + normalized_from(value, from + 2)
        }
    } else if value[from] == 0x22 {
        normalized_from(value, from + 1)
    } else {
        seq![value[from]] + normalized_from(value, from + 1)
    }
}

/// Reads `value` as a string, without the quotes around its parts.
pub fn normalize(value: &[u8]) -> (text: Vec<u8>)
    ensures
        text@ == normalized_from(value@, 0),
{
    let len = value.len();
    let mut text: Vec<u8> = Vec::new();
    let mut i: usize = 0;
    while i < len
        invariant
            len == value@.len(),
            i <= len,
            normalized_from(value@, 0) == text@ + normalized_from(value@, i as int),
        decreases len - i,
    {
        let c = value[i];
        let ghost before = text@;
        if c == 0x5c && len - i > 1 {
            let next = value[i + 1];
            if next == 0x22 {
                text.push(0x22);
                assert(before + (seq![0x22u8] + normalized_from(value@, i + 2)) =~= text@
                    + normalized_from(value@, i + 2));
            } else {
                text.push(0x5c);
                text.push(next);
                assert(before + (seq![0x5cu8, next] + normalized_from(value@, i + 2)) =~= text@
                    + normalized_from(value@, i + 2));
            }
            i += 2;
        } else if c == 0x22 {
            i += 1;
        } else {
            text.push(c);
            assert(before + (seq![c] + normalized_from(value@, i + 1)) =~= text@
                + normalized_from(value@, i + 1));
            i += 1;
        }
    }
    assert(text@ + Seq::<u8>::empty() =~= text@);
    text
}

} // verus!
