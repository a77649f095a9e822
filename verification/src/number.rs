//! Decimal numbers as the protocol writes them.
use vstd::prelude::*;

verus! {

/// The byte `0`.
pub const ZERO: u8 = 48;

/// The byte `-`.
pub const MINUS: u8 = 45;

/// Whether `b` is one of the digits `0` to `9`.
pub open spec fn is_digit(b: u8) -> bool {
    ZERO <= b <= 57
}

/// `text` is one digit or more, and nothing else.
pub open spec fn is_digits(text: Seq<u8>) -> bool {
    &&& text.len() > 0
    &&& forall|i: int| 0 <= i < text.len() ==> is_digit(#[trigger] text[i])
}

/// The number that a run of digits denotes.
pub open spec fn digits_value(text: Seq<u8>) -> nat
    decreases text.len(),
{
    if text.len() == 0 {
        0
    } else {
        (10 * digits_value(text.drop_last()) + (text.last() - ZERO)) as nat
    }
}

/// The number that `text` denotes: digits, with a minus sign in front where it is negative.
pub open spec fn signed_value(text: Seq<u8>) -> Option<int> {
    if is_digits(text) {
        Some(digits_value(text) as int)
    } else if text.len() > 0 && text[0] == MINUS && is_digits(text.skip(1)) {
        Some(-(digits_value(text.skip(1)) as int))
    } else {
        None
    }
}

/// What `parse_u64` makes of `text`.
pub open spec fn unsigned_of(text: Seq<u8>) -> Option<u64> {
    if is_digits(text) && digits_value(text) <= u64::MAX {
        Some(digits_value(text) as u64)
    } else {
        None
    }
}

/// What `parse_i64` makes of `text`.
pub open spec fn signed_of(text: Seq<u8>) -> Option<i64> {
    match signed_value(text) {
        Some(n) if i64::MIN <= n <= i64::MAX => Some(n as i64),
        _ => None,
    }
}

/// The digits of `n`, without leading zeros.
pub open spec fn digits_of(n: nat) -> Seq<u8>
    decreases n,
{
    if n < 10 {
        seq![(ZERO + n) as u8]
    } else {
        digits_of(n / 10).push((ZERO + n % 10) as u8)
    }
}

/// The decimal form of an integer.
pub open spec fn decimal(n: int) -> Seq<u8> {
    if n < 0 {
        seq![MINUS] + digits_of((-n) as nat)
    } else {
        digits_of(n as nat)
    }
}

/// The digits of a number denote that number.
pub proof fn lemma_digits_round_trip(n: nat)
    ensures
        is_digits(digits_of(n)),
        digits_value(digits_of(n)) == n,
    decreases n,
{
    if n < 10 {
        let s = digits_of(n);
        assert(s.drop_last() =~= Seq::<u8>::empty());
        assert(digits_value(s.drop_last()) == 0);
    } else {
        lemma_digits_round_trip(n / 10);
        let s = digits_of(n);
        assert(s.drop_last() =~= digits_of(n / 10));
    }
}

/// Reading back the decimal form of an `i64` gives the same number.
pub proof fn law_decimal_round_trip(n: i64)
    ensures
        signed_of(decimal(n as int)) == Some(n),
{
    if n < 0 {
        lemma_digits_round_trip((-n) as nat);
        let s = decimal(n as int);
        assert(s.skip(1) =~= digits_of((-n) as nat));
        assert(!is_digit(s[0]));
    } else {
        lemma_digits_round_trip(n as nat);
    }
}

/// Reading back the decimal form of a `u64` gives the same number.
pub proof fn law_unsigned_round_trip(n: u64)
    ensures
        unsigned_of(decimal(n as int)) == Some(n),
{
    lemma_digits_round_trip(n as nat);
}

/// A longer run of digits denotes a number at least as large.
proof fn lemma_prefix_value(text: Seq<u8>, i: int)
    requires
        0 <= i <= text.len(),
        forall|j: int| 0 <= j < text.len() ==> is_digit(#[trigger] text[j]),
    ensures
        digits_value(text.take(i)) <= digits_value(text),
    decreases text.len(),
{
    if i == text.len() {
        assert(text.take(i) =~= text);
    } else {
        lemma_prefix_value(text.drop_last(), i);
        assert(text.drop_last().take(i) =~= text.take(i));
        assert(is_digit(text[text.len() - 1]));
    }
}

/// Reads an unsigned decimal number: digits only, and no more than fits.
pub fn parse_u64(text: &[u8]) -> (value: Option<u64>)
    ensures
        value == unsigned_of(text@),
{
    let n = text.len();
    if n == 0 {
        return None;
    }
    let mut value: u64 = 0;
    let mut i: usize = 0;
    proof {
        assert(text@.take(0) =~= Seq::<u8>::empty());
    }
    while i < n
        invariant
            n == text@.len(),
            i <= n,
            forall|j: int| 0 <= j < i ==> is_digit(#[trigger] text@[j]),
            value == digits_value(text@.take(i as int)),
        decreases n - i,
    {
        let b = text[i];
        if b < ZERO || b > 57 {
            assert(!is_digit(text@[i as int]));
            return None;
        }
        let ghost longer = text@.take(i + 1);
        proof {
            assert(longer.drop_last() =~= text@.take(i as int));
            if is_digits(text@) {
                lemma_prefix_value(text@, i + 1);
            }
        }
        value = match value.checked_mul(10) {
            Some(v) => v,
            None => {
                return None;
            },
        };
        value = match value.checked_add((b - ZERO) as u64) {
            Some(v) => v,
            None => {
                return None;
            },
        };
        i += 1;
    }
    proof {
        assert(text@.take(n as int) =~= text@);
    }
    Some(value)
}

/// Reads a signed decimal number: an optional minus sign, then digits, and no more than fits.
pub fn parse_i64(text: &[u8]) -> (value: Option<i64>)
    ensures
        value == signed_of(text@),
{
    if text.len() > 0 && text[0] == MINUS {
        let rest = vstd::slice::slice_subrange(text, 1, text.len());
        proof {
            assert(rest@ =~= text@.skip(1));
            assert(!is_digit(text@[0]));
        }
        match parse_u64(rest) {
            Some(v) => {
                if v <= 0x7fff_ffff_ffff_ffff {
                    Some(-(v as i64))
                } else if v == 0x8000_0000_0000_0000 {
                    Some(i64::MIN)
                } else {
                    None
                }
            },
            None => None,
        }
    } else {
        match parse_u64(text) {
            Some(v) => {
                if v <= 0x7fff_ffff_ffff_ffff {
                    Some(v as i64)
                } else {
                    None
                }
            },
            None => None,
        }
    }
}

/// The digits of an unsigned number.
pub fn format_u64(n: u64) -> (text: Vec<u8>)
    ensures
        text@ == decimal(n as int),
    decreases n,
{
    if n < 10 {
        let mut text: Vec<u8> = Vec::new();
        text.push(ZERO + n as u8);
        assert(text@ =~= digits_of(n as nat));
        text
    } else {
        let mut text = format_u64(n / 10);
        text.push(ZERO + (n % 10) as u8);
        assert(text@ =~= digits_of(n as nat));
        text
    }
}

/// The decimal form of a signed number.
pub fn format_i64(n: i64) -> (text: Vec<u8>)
    ensures
        text@ == decimal(n as int),
{
    if n < 0 {
        let mut text: Vec<u8> = Vec::new();
        text.push(MINUS);
        let magnitude: u64 = if n == i64::MIN {
            0x8000_0000_0000_0000
        } else {
            (-n) as u64
        };
        let mut digits = format_u64(magnitude);
        text.append(&mut digits);
        assert(text@ =~= decimal(n as int));
        text
    } else {
        format_u64(n as u64)
    }
}

/// How a number is read, digit by digit: one digit is what it shows; one digit more makes ten times
/// the number and what the digit shows; without a digit there is no number, and with another byte in
/// it there is none either.
pub proof fn law_reading_digit_by_digit(text: Seq<u8>, b: u8)
    ensures
        unsigned_of(Seq::<u8>::empty()) is None,
        !(48 <= b <= 57) ==> unsigned_of(text.push(b)) is None,
        48 <= b <= 57 && text.len() == 0 ==> unsigned_of(text.push(b)) == Some((b - 48) as u64),
        48 <= b <= 57 && text.len() > 0 ==> match unsigned_of(text) {
            None => unsigned_of(text.push(b)) is None,
            Some(n) => if 10 * n + (b - 48) <= u64::MAX {
                unsigned_of(text.push(b)) == Some((10 * n + (b - 48)) as u64)
            } else {
                unsigned_of(text.push(b)) is None
            },
        },
{
    let longer = text.push(b);
    assert(longer.drop_last() =~= text);
    assert(longer[text.len() as int] == b);
    if is_digits(longer) {
        assert forall|i: int| 0 <= i < text.len() implies is_digit(#[trigger] text[i]) by {
            assert(is_digit(longer[i]));
        }
    }
    if is_digits(text) && is_digit(b) {
        assert forall|i: int| 0 <= i < longer.len() implies is_digit(#[trigger] longer[i]) by {
            if i < text.len() {
                assert(is_digit(text[i]));
            }
        }
    }
    if text.len() == 0 {
        assert(text =~= Seq::empty());
        assert(digits_value(text) == 0);
        if is_digit(b) {
            assert forall|i: int| 0 <= i < longer.len() implies is_digit(#[trigger] longer[i]) by {}
        }
    }
}

/// A signed number is a number with or without a minus sign in front, as far as it fits.
pub proof fn law_reading_signs(text: Seq<u8>)
    ensures
        text.len() == 0 || text[0] != 45 ==> signed_of(text) == (match unsigned_of(text) {
            Some(n) if n <= i64::MAX => Some(n as i64),
            _ => None,
        }),
        text.len() > 0 && text[0] == 45 ==> signed_of(text) == (match unsigned_of(text.skip(1)) {
            Some(n) if n <= 0x8000_0000_0000_0000 => Some((-(n as int)) as i64),
            _ => None,
        }),
{
    if text.len() > 0 && text[0] == 45 {
        assert(!is_digit(text[0]));
        assert(!is_digits(text));
    }
}

/// How a number is written: one digit for a number below ten; the digits of a tenth of it, and its
/// last digit, for a larger one; and a minus sign in front of a negative one.
pub proof fn law_writing_digit_by_digit(n: nat, last: nat)
    requires
        last < 10,
    ensures
        decimal(last as int) == seq![(48 + last) as u8],
        n > 0 ==> decimal((10 * n + last) as int) == decimal(n as int).push((48 + last) as u8),
        n > 0 ==> decimal(-(n as int)) == seq![45u8] + decimal(n as int),
{
    if n > 0 {
        assert((10 * n + last) / 10 == n && (10 * n + last) % 10 == last);
    }
}

} // verus!
