//! Decoding of the numeric header fields: ASCII digits in a given radix,
//! padded on the right with whitespace.

use vstd::prelude::*;

use crate::combinators::take;
use crate::error::{failure, ParseError, ParseErrorKind};

verus! {

/// Whether `b` is one of the ASCII whitespace bytes that may pad a numeric
/// field on the right: space, tab, line feed, vertical tab, form feed and
/// carriage return.
pub open spec fn is_padding(b: u8) -> bool {
    b == 0x20 || (0x09 <= b && b <= 0x0D)
}

/// `s` without its trailing padding bytes.
pub open spec fn trim_end(s: Seq<u8>) -> Seq<u8>
    decreases s.len(),
{
    if s.len() > 0 && is_padding(s.last()) {
        trim_end(s.drop_last())
    } else {
        s
    }
}

/// The value of `b` read as a digit: `0` to `9` for the decimal digits, `10`
/// to `35` for the letters of either case, and `36` for any other byte.
pub open spec fn digit_value(b: u8) -> nat {
    if 0x30 <= b && b <= 0x39 {
        (b - 0x30) as nat
    } else if 0x61 <= b && b <= 0x7A {
        (b - 0x61 + 10) as nat
    } else if 0x41 <= b && b <= 0x5A {
        (b - 0x41 + 10) as nat
    } else {
        36
    }
}

/// Whether every byte of `s` is a digit of the given radix.
pub open spec fn all_digits(s: Seq<u8>, radix: nat) -> bool {
    forall|i: int| 0 <= i < s.len() ==> digit_value(#[trigger] s[i]) < radix
}

/// The number that the digits of `s` denote in the given radix, the most
/// significant digit first.
pub open spec fn digits_value(s: Seq<u8>, radix: nat) -> nat
    decreases s.len(),
{
    if s.len() == 0 {
        0
    } else {
        digits_value(s.drop_last(), radix) * radix + digit_value(s.last())
    }
}

/// The number that a field holds: once its trailing padding is removed, the
/// field must be non-empty, hold only digits of the radix, and denote a value
/// that fits in 64 bits.
pub open spec fn number_spec(field: Seq<u8>, radix: nat) -> Option<nat> {
    let digits = trim_end(field);
    if digits.len() > 0 && all_digits(digits, radix) && digits_value(digits, radix) <= u64::MAX {
        Some(digits_value(digits, radix))
    } else {
        None
    }
}

/// What decoding a field of `length` bytes at the start of `input` gives: the
/// input after the field and the number in it.
pub open spec fn number_field_spec(input: Seq<u8>, length: nat, radix: nat) -> Result<
    (Seq<u8>, nat),
    crate::error::Failure,
> {
    if input.len() < length {
        Err(failure(ParseErrorKind::TruncatedHeader, 0))
    } else {
        match number_spec(input.take(length as int), radix) {
            Some(n) => Ok((input.skip(length as int), n)),
            None => Err(failure(ParseErrorKind::InvalidNumericField, 0)),
        }
    }
}

/// Trimming leaves a prefix of the field that is empty or ends in a byte that
/// is no padding, and removes only padding bytes.
pub proof fn lemma_trim_end(s: Seq<u8>)
    ensures
        trim_end(s).len() <= s.len(),
        trim_end(s) == s.take(trim_end(s).len() as int),
        trim_end(s).len() > 0 ==> !is_padding(trim_end(s).last()),
        forall|i: int| trim_end(s).len() <= i < s.len() ==> is_padding(#[trigger] s[i]),
    decreases s.len(),
{
    if s.len() > 0 && is_padding(s.last()) {
        let t = s.drop_last();
        lemma_trim_end(t);
        assert(t.take(trim_end(t).len() as int) =~= s.take(trim_end(t).len() as int));
        assert forall|i: int| trim_end(s).len() <= i < s.len() implies is_padding(
            #[trigger] s[i],
        ) by {
            if i < t.len() {
                assert(t[i] == s[i]);
            }
        }
    } else {
        assert(s.take(s.len() as int) =~= s);
    }
}

/// If only padding follows the first `end` bytes of `s`, trimming `s` is
/// trimming those first bytes.
proof fn lemma_trim_end_of_padded(s: Seq<u8>, end: int)
    requires
        0 <= end <= s.len(),
        forall|i: int| end <= i < s.len() ==> is_padding(#[trigger] s[i]),
    ensures
        trim_end(s) == trim_end(s.take(end)),
    decreases s.len() - end,
{
    if end < s.len() {
        let t = s.drop_last();
        assert(is_padding(s.last()));
        assert forall|i: int| end <= i < t.len() implies is_padding(#[trigger] t[i]) by {
            assert(t[i] == s[i]);
        }
        lemma_trim_end_of_padded(t, end);
        assert(t.take(end) =~= s.take(end));
    } else {
        assert(s.take(end) =~= s);
    }
}

/// A longer run of digits denotes at least what its first `k` digits denote.
proof fn lemma_digits_value_prefix(s: Seq<u8>, k: int, radix: nat)
    requires
        0 <= k <= s.len(),
        radix >= 1,
    ensures
        digits_value(s.take(k), radix) <= digits_value(s, radix),
    decreases s.len() - k,
{
    if k < s.len() {
        let t = s.drop_last();
        lemma_digits_value_prefix(t, k, radix);
        assert(t.take(k) =~= s.take(k));
        let v = digits_value(t, radix);
        assert(v <= v * radix) by (nonlinear_arith)
            requires
                radix >= 1,
        ;
    } else {
        assert(s.take(k) =~= s);
    }
}

/// One more digit: the value of the first `k + 1` digits from that of the
/// first `k`.
proof fn lemma_digits_value_step(s: Seq<u8>, k: int, radix: nat)
    requires
        0 <= k < s.len(),
    ensures
        digits_value(s.take(k + 1), radix) == digits_value(s.take(k), radix) * radix
            + digit_value(s[k]),
{
    assert(s.take(k + 1).drop_last() =~= s.take(k));
    assert(s.take(k + 1).last() == s[k]);
}

/// A run of `s.len()` digits of the radix denotes less than the radix raised
/// to that length.
pub proof fn lemma_digits_value_bound(s: Seq<u8>, radix: nat)
    requires
        all_digits(s, radix),
    ensures
        digits_value(s, radix) < vstd::arithmetic::power::pow(radix as int, s.len()),
    decreases s.len(),
{
    vstd::arithmetic::power::lemma_pow0(radix as int);
    if s.len() > 0 {
        let t = s.drop_last();
        assert forall|i: int| 0 <= i < t.len() implies digit_value(#[trigger] t[i]) < radix by {
            assert(t[i] == s[i]);
        }
        lemma_digits_value_bound(t, radix);
        let p = vstd::arithmetic::power::pow(radix as int, t.len());
        let v = digits_value(t, radix) as int;
        let d = digit_value(s.last()) as int;
        assert(vstd::arithmetic::power::pow(radix as int, s.len()) == radix * p) by {
            vstd::arithmetic::power::lemma_pow_adds(radix as int, 1, t.len());
            vstd::arithmetic::power::lemma_pow1(radix as int);
        }
        assert(v * radix + d < radix * p) by (nonlinear_arith)
            requires
                0 <= v < p,
                0 <= d < radix,
        ;
    }
}

/// The value of `b` as a digit, `36` if it is none.
fn digit_of(b: u8) -> (d: u64)
    ensures
        d == digit_value(b),
{
    if 0x30 <= b && b <= 0x39 {
        (b - 0x30) as u64
    } else if 0x61 <= b && b <= 0x7A {
        (b - 0x61 + 10) as u64
    } else if 0x41 <= b && b <= 0x5A {
        (b - 0x41 + 10) as u64
    } else {
        36
    }
}

/// Whether `b` is a padding byte.
fn is_padding_byte(b: u8) -> (r: bool)
    ensures
        r == is_padding(b),
{
    b == 0x20 || (0x09 <= b && b <= 0x0D)
}

/// Decodes the number in `byte_slice`: digits of the given radix, followed by
/// any amount of whitespace padding.
///
/// Fails with `InvalidNumericField` if nothing is left once the padding is
/// removed, if a byte is left that is no digit of the radix (a sign is none),
/// or if the digits denote more than 64 bits hold.
pub fn byte_slice_to_number(byte_slice: &[u8], radix: u32) -> (r: Result<u64, ParseError>)
    requires
        2 <= radix <= 36,
    ensures
        match r {
            Ok(n) => number_spec(byte_slice@, radix as nat) == Some(n as nat),
            Err(e) => number_spec(byte_slice@, radix as nat) is None && e@ == failure(
                ParseErrorKind::InvalidNumericField,
                0,
            ),
        },
{
    let mut end: usize = byte_slice.len();
    while end > 0 && is_padding_byte(byte_slice[end - 1])
        invariant
            end <= byte_slice@.len(),
            forall|i: int| end <= i < byte_slice@.len() ==> is_padding(#[trigger] byte_slice@[i]),
        decreases end,
    {
        end = end - 1;
    }
    let ghost digits = byte_slice@.take(end as int);
    proof {
        lemma_trim_end_of_padded(byte_slice@, end as int);
        if end > 0 {
            assert(digits.last() == byte_slice@[end - 1]);
        }
        assert(trim_end(byte_slice@) == digits);
    }
    if end == 0 {
        return Err(ParseError::at_start(ParseErrorKind::InvalidNumericField));
    }
    let mut value: u64 = 0;
    let mut i: usize = 0;
    while i < end
        invariant
            i <= end <= byte_slice@.len(),
            2 <= radix <= 36,
            digits == byte_slice@.take(end as int),
            trim_end(byte_slice@) == digits,
            value == digits_value(digits.take(i as int), radix as nat),
            all_digits(digits.take(i as int), radix as nat),
        decreases end - i,
    {
        let d: u64 = digit_of(byte_slice[i]);
        proof {
            assert(digits[i as int] == byte_slice@[i as int]);
            lemma_digits_value_step(digits, i as int, radix as nat);
            lemma_digits_value_prefix(digits, i + 1, radix as nat);
        }
        if d >= radix as u64 {
            return Err(ParseError::at_start(ParseErrorKind::InvalidNumericField));
        }
        let next: Option<u64> = match value.checked_mul(radix as u64) {
            Some(scaled) => scaled.checked_add(d),
            None => None,
        };
        match next {
            Some(n) => {
                value = n;
            },
            None => {
                return Err(ParseError::at_start(ParseErrorKind::InvalidNumericField));
            },
        }
        proof {
            assert forall|j: int| 0 <= j < i + 1 implies digit_value(
                #[trigger] digits.take(i + 1)[j],
            ) < radix by {
                if j < i {
                    assert(digits.take(i as int)[j] == digits.take(i + 1)[j]);
                }
            }
        }
        i = i + 1;
    }
    proof {
        assert(digits.take(end as int) =~= digits);
    }
    Ok(value)
}

/// Decodes a numeric field of `length` bytes at the start of `input`, and
/// returns the input after the field together with the number.
///
/// Fails with `TruncatedHeader` if `input` is shorter than the field, and
/// with `InvalidNumericField` if the field holds no number.
pub fn parse_number(input: &[u8], length: usize, radix: u32) -> (r: Result<
    (&[u8], u64),
    ParseError,
>)
    requires
        2 <= radix <= 36,
    ensures
        match r {
            Ok((rest, n)) => number_field_spec(input@, length as nat, radix as nat) == Ok::<
                (Seq<u8>, nat),
                crate::error::Failure,
            >((rest@, n as nat)),
            Err(e) => number_field_spec(input@, length as nat, radix as nat) == Err::<
                (Seq<u8>, nat),
                crate::error::Failure,
            >(e@),
        },
{
    match take(length, input) {
        Ok((rest, field)) => match byte_slice_to_number(field, radix) {
            Ok(n) => Ok((rest, n)),
            Err(e) => Err(e),
        },
        Err(_) => Err(ParseError::at_start(ParseErrorKind::TruncatedHeader)),
    }
}

} // verus!
