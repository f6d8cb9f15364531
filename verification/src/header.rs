//! The 60-byte entry header: a name, five numbers and a closing pair of
//! bytes, each in a field of fixed width at a fixed offset.

use vstd::prelude::*;

use crate::combinators::{tag, take};
use crate::error::{failure, Failure, ParseError, ParseErrorKind};
use crate::number::{
    all_digits, digits_value, lemma_digits_value_bound, lemma_trim_end, number_field_spec,
    number_spec, parse_number, trim_end,
};

verus! {

/// The width of a header in bytes.
pub const HEADER_LEN: usize = 60;

/// The width of the identifier field in bytes.
pub const IDENTIFIER_LEN: usize = 16;

/// The two bytes that close every header: a backquote and a newline.
pub open spec fn terminator() -> Seq<u8> {
    seq![0x60u8, 0x0Au8]
}

/// The metadata of one archive member, as mathematical values.
pub struct HeaderModel {
    pub identifier: Seq<u8>,
    pub mtime: nat,
    pub uid: nat,
    pub gid: nat,
    pub mode: nat,
    pub size: nat,
}

/// The metadata of one archive member.
#[derive(Debug, Clone, PartialEq, Eq)]
pub struct EntryHeader {
    /// The member's name, without the spaces that pad it in the archive.
    pub identifier: Vec<u8>,
    /// The modification time, in seconds.
    pub mtime: u64,
    /// The owner's id.
    pub uid: u32,
    /// The group's id.
    pub gid: u32,
    /// The permission and type bits.
    pub mode: u32,
    /// The length of the payload in bytes.
    pub size: u64,
}

impl View for EntryHeader {
    type V = HeaderModel;

    open spec fn view(&self) -> HeaderModel {
        HeaderModel {
            identifier: self.identifier@,
            mtime: self.mtime as nat,
            uid: self.uid as nat,
            gid: self.gid as nat,
            mode: self.mode as nat,
            size: self.size as nat,
        }
    }
}

/// Whether a header fits the format: the identifier has at most 16 bytes and
/// does not end in a space, and each number has no more digits than its
/// field is wide.
pub open spec fn header_fits(header: HeaderModel) -> bool {
    &&& header.identifier.len() <= IDENTIFIER_LEN
    &&& header.identifier.len() > 0 ==> header.identifier.last() != 0x20u8
    &&& header.mtime < 1_000_000_000_000
    &&& header.uid < 1_000_000
    &&& header.gid < 1_000_000
    &&& header.mode < 0o100_000_000
    &&& header.size < 10_000_000_000
}

/// `s` without its trailing space bytes.
pub open spec fn strip_trailing_spaces(s: Seq<u8>) -> Seq<u8>
    decreases s.len(),
{
    if s.len() > 0 && s.last() == 0x20u8 {
        strip_trailing_spaces(s.drop_last())
    } else {
        s
    }
}

/// What decoding an identifier at the start of `input` gives: the input after
/// the 16-byte field, and the field without its trailing spaces.
pub open spec fn identifier_spec(input: Seq<u8>) -> Result<(Seq<u8>, Seq<u8>), Failure> {
    if input.len() < IDENTIFIER_LEN {
        Err(failure(ParseErrorKind::TruncatedHeader, 0))
    } else {
        Ok(
            (
                input.skip(IDENTIFIER_LEN as int),
                strip_trailing_spaces(input.take(IDENTIFIER_LEN as int)),
            ),
        )
    }
}

/// What recognizing the terminator at the start of `input` gives: the input
/// after the two bytes, and the two bytes.
pub open spec fn terminator_spec(input: Seq<u8>) -> Result<(Seq<u8>, Seq<u8>), Failure> {
    if terminator().is_prefix_of(input) {
        Ok((input.skip(2), terminator()))
    } else {
        Err(failure(ParseErrorKind::MissingTerminator, 0))
    }
}

/// What decoding a header at the start of `input` gives.
///
/// The header is the first 60 bytes. The identifier is bytes 0 to 16 without
/// trailing spaces; the modification time, owner and group are the decimal
/// numbers in bytes 16 to 28, 28 to 34 and 34 to 40; the mode is the octal
/// number in bytes 40 to 48; the size is the decimal number in bytes 48 to
/// 58; bytes 58 to 60 are the terminator. The first field that is rejected
/// gives the failure, at that field's offset.
pub open spec fn header_spec(input: Seq<u8>) -> Result<(Seq<u8>, HeaderModel), Failure> {
    let mtime = number_spec(input.subrange(16, 28), 10);
    let uid = number_spec(input.subrange(28, 34), 10);
    let gid = number_spec(input.subrange(34, 40), 10);
    let mode = number_spec(input.subrange(40, 48), 8);
    let size = number_spec(input.subrange(48, 58), 10);
    if input.len() < HEADER_LEN {
        Err(failure(ParseErrorKind::TruncatedHeader, 0))
    } else if mtime is None {
        Err(failure(ParseErrorKind::InvalidNumericField, 16))
    } else if uid is None {
        Err(failure(ParseErrorKind::InvalidNumericField, 28))
    } else if gid is None {
        Err(failure(ParseErrorKind::InvalidNumericField, 34))
    } else if mode is None {
        Err(failure(ParseErrorKind::InvalidNumericField, 40))
    } else if size is None {
        Err(failure(ParseErrorKind::InvalidNumericField, 48))
    } else if input.subrange(58, 60) != terminator() {
        Err(failure(ParseErrorKind::MissingTerminator, 58))
    } else {
        Ok(
            (
                input.skip(HEADER_LEN as int),
                HeaderModel {
                    identifier: strip_trailing_spaces(input.subrange(0, 16)),
                    mtime: mtime->0,
                    uid: uid->0,
                    gid: gid->0,
                    mode: mode->0,
                    size: size->0,
                },
            ),
        )
    }
}

/// Stripping removes all the trailing spaces and nothing else: what is left
/// is a prefix of the field, is empty or ends in a byte that is no space, and
/// every byte after it is a space.
pub proof fn lemma_strip_trailing_spaces(s: Seq<u8>)
    ensures
        strip_trailing_spaces(s).len() <= s.len(),
        strip_trailing_spaces(s) == s.take(strip_trailing_spaces(s).len() as int),
        strip_trailing_spaces(s).len() > 0 ==> strip_trailing_spaces(s).last() != 0x20u8,
        forall|i: int| strip_trailing_spaces(s).len() <= i < s.len() ==> #[trigger] s[i] == 0x20u8,
    decreases s.len(),
{
    if s.len() > 0 && s.last() == 0x20u8 {
        let t = s.drop_last();
        lemma_strip_trailing_spaces(t);
        assert(t.take(strip_trailing_spaces(t).len() as int) =~= s.take(
            strip_trailing_spaces(t).len() as int,
        ));
        assert forall|i: int| strip_trailing_spaces(s).len() <= i < s.len() implies #[trigger] s[i]
            == 0x20u8 by {
            if i < t.len() {
                assert(t[i] == s[i]);
            }
        }
    } else {
        assert(s.take(s.len() as int) =~= s);
    }
}

/// A header that decodes takes exactly 60 bytes, whatever its fields hold.
pub proof fn lemma_header_consumes_sixty(input: Seq<u8>)
    requires
        header_spec(input) is Ok,
    ensures
        input.len() >= HEADER_LEN,
        header_spec(input)->Ok_0.0 == input.skip(HEADER_LEN as int),
        header_spec(input)->Ok_0.0.len() + HEADER_LEN == input.len(),
{
}

/// Decoding a header reads its first 60 bytes only: what follows them has no
/// part in the result but to be handed back.
pub proof fn lemma_header_reads_sixty(input: Seq<u8>)
    requires
        input.len() >= HEADER_LEN,
    ensures
        match header_spec(input.take(HEADER_LEN as int)) {
            Ok((_, header)) => header_spec(input) == Ok::<(Seq<u8>, HeaderModel), Failure>(
                (input.skip(HEADER_LEN as int), header),
            ),
            Err(e) => header_spec(input) == Err::<(Seq<u8>, HeaderModel), Failure>(e),
        },
{
    let block = input.take(HEADER_LEN as int);
    assert(block.subrange(0, 16) =~= input.subrange(0, 16));
    assert(block.subrange(16, 28) =~= input.subrange(16, 28));
    assert(block.subrange(28, 34) =~= input.subrange(28, 34));
    assert(block.subrange(34, 40) =~= input.subrange(34, 40));
    assert(block.subrange(40, 48) =~= input.subrange(40, 48));
    assert(block.subrange(48, 58) =~= input.subrange(48, 58));
    assert(block.subrange(58, 60) =~= input.subrange(58, 60));
}

/// A header failure lies within the input it was found in.
pub proof fn lemma_header_failure_offset(input: Seq<u8>)
    requires
        header_spec(input) is Err,
    ensures
        header_spec(input)->Err_0.offset <= input.len(),
        header_spec(input)->Err_0.offset < HEADER_LEN,
{
}

/// A number that a field of `width` bytes holds is less than the radix raised
/// to that width.
pub proof fn lemma_number_bound(field: Seq<u8>, radix: nat)
    requires
        radix >= 2,
        number_spec(field, radix) is Some,
    ensures
        number_spec(field, radix)->0 < vstd::arithmetic::power::pow(radix as int, field.len()),
{
    let digits = trim_end(field);
    lemma_trim_end(field);
    lemma_digits_value_bound(digits, radix);
    assert(all_digits(digits, radix));
    assert(digits_value(digits, radix) < vstd::arithmetic::power::pow(radix as int, digits.len()));
    if digits.len() < field.len() {
        vstd::arithmetic::power::lemma_pow_increases(radix, digits.len(), field.len());
    }
}

/// Whatever header is decoded fits the format.
pub proof fn lemma_header_fits(input: Seq<u8>)
    requires
        header_spec(input) is Ok,
    ensures
        header_fits(header_spec(input)->Ok_0.1),
{
    lemma_strip_trailing_spaces(input.subrange(0, 16));
    lemma_number_bound(input.subrange(16, 28), 10);
    lemma_number_bound(input.subrange(28, 34), 10);
    lemma_number_bound(input.subrange(34, 40), 10);
    lemma_number_bound(input.subrange(40, 48), 8);
    lemma_number_bound(input.subrange(48, 58), 10);
    assert(vstd::arithmetic::power::pow(10, 12) == 1_000_000_000_000
        && vstd::arithmetic::power::pow(10, 10) == 10_000_000_000
        && vstd::arithmetic::power::pow(10, 6) == 1_000_000
        && vstd::arithmetic::power::pow(8, 8) == 0o100_000_000) by {
        reveal_with_fuel(vstd::arithmetic::power::pow, 13);
    }
}

/// Decodes the identifier: takes 16 bytes and strips the spaces that pad them
/// on the right. A field of spaces only gives the empty identifier.
///
/// Fails with `TruncatedHeader` if fewer than 16 bytes are left.
pub fn parse_identifier(input: &[u8]) -> (r: Result<(&[u8], Vec<u8>), ParseError>)
    ensures
        match r {
            Ok((rest, identifier)) => identifier_spec(input@) == Ok::<
                (Seq<u8>, Seq<u8>),
                Failure,
            >((rest@, identifier@)),
            Err(e) => identifier_spec(input@) == Err::<(Seq<u8>, Seq<u8>), Failure>(e@),
        },
{
    match take(IDENTIFIER_LEN, input) {
        Ok((rest, identifier_padded)) => {
            let mut identifier: Vec<u8> = vstd::slice::slice_to_vec(identifier_padded);
            while identifier.len() > 0 && identifier[identifier.len() - 1] == 0x20u8
                invariant
                    strip_trailing_spaces(identifier@) == strip_trailing_spaces(
                        identifier_padded@,
                    ),
                decreases identifier.len(),
            {
                proof {
                    assert(identifier@.last() == 0x20u8);
                }
                identifier.pop();
            }
            Ok((rest, identifier))
        },
        Err(_) => Err(ParseError::at_start(ParseErrorKind::TruncatedHeader)),
    }
}

/// Decodes the modification time: a decimal number in a field of 12 bytes.
pub fn parse_mtime(input: &[u8]) -> (r: Result<(&[u8], u64), ParseError>)
    ensures
        match r {
            Ok((rest, n)) => number_field_spec(input@, 12, 10) == Ok::<(Seq<u8>, nat), Failure>(
                (rest@, n as nat),
            ),
            Err(e) => number_field_spec(input@, 12, 10) == Err::<(Seq<u8>, nat), Failure>(e@),
        },
{
    parse_number(input, 12, 10)
}

/// Decodes the owner's id: a decimal number in a field of 6 bytes.
pub fn parse_uid(input: &[u8]) -> (r: Result<(&[u8], u64), ParseError>)
    ensures
        match r {
            Ok((rest, n)) => number_field_spec(input@, 6, 10) == Ok::<(Seq<u8>, nat), Failure>(
                (rest@, n as nat),
            ),
            Err(e) => number_field_spec(input@, 6, 10) == Err::<(Seq<u8>, nat), Failure>(e@),
        },
{
    parse_number(input, 6, 10)
}

/// Decodes the group's id: a decimal number in a field of 6 bytes.
pub fn parse_gid(input: &[u8]) -> (r: Result<(&[u8], u64), ParseError>)
    ensures
        match r {
            Ok((rest, n)) => number_field_spec(input@, 6, 10) == Ok::<(Seq<u8>, nat), Failure>(
                (rest@, n as nat),
            ),
            Err(e) => number_field_spec(input@, 6, 10) == Err::<(Seq<u8>, nat), Failure>(e@),
        },
{
    parse_number(input, 6, 10)
}

/// Decodes the mode: an octal number in a field of 8 bytes.
pub fn parse_mode(input: &[u8]) -> (r: Result<(&[u8], u64), ParseError>)
    ensures
        match r {
            Ok((rest, n)) => number_field_spec(input@, 8, 8) == Ok::<(Seq<u8>, nat), Failure>(
                (rest@, n as nat),
            ),
            Err(e) => number_field_spec(input@, 8, 8) == Err::<(Seq<u8>, nat), Failure>(e@),
        },
{
    parse_number(input, 8, 8)
}

/// Decodes the payload size: a decimal number in a field of 10 bytes.
pub fn parse_size(input: &[u8]) -> (r: Result<(&[u8], u64), ParseError>)
    ensures
        match r {
            Ok((rest, n)) => number_field_spec(input@, 10, 10) == Ok::<(Seq<u8>, nat), Failure>(
                (rest@, n as nat),
            ),
            Err(e) => number_field_spec(input@, 10, 10) == Err::<(Seq<u8>, nat), Failure>(e@),
        },
{
    parse_number(input, 10, 10)
}

/// Recognizes the two bytes that close a header.
///
/// Fails with `MissingTerminator` if `input` does not begin with them.
pub fn parse_entry_header_terminator(input: &[u8]) -> (r: Result<(&[u8], &[u8]), ParseError>)
    ensures
        match r {
            Ok((rest, matched)) => terminator_spec(input@) == Ok::<(Seq<u8>, Seq<u8>), Failure>(
                (rest@, matched@),
            ),
            Err(e) => terminator_spec(input@) == Err::<(Seq<u8>, Seq<u8>), Failure>(e@),
        },
{
    let pattern: [u8; 2] = [0x60, 0x0A];
    assert(pattern@ =~= terminator());
    match tag(pattern.as_slice(), input) {
        Ok((rest, matched)) => Ok((rest, matched)),
        Err(_) => Err(ParseError::at_start(ParseErrorKind::MissingTerminator)),
    }
}

/// Decodes the header at the start of `input`, and returns the input after
/// its 60 bytes together with the header.
///
/// Fails with `TruncatedHeader` if fewer than 60 bytes are left; otherwise
/// with `InvalidNumericField` at the offset of the first numeric field that
/// holds no number; otherwise with `MissingTerminator` if the header does not
/// end in the terminator.
pub fn parse_entry_header(input: &[u8]) -> (r: Result<(&[u8], EntryHeader), ParseError>)
    ensures
        match r {
            Ok((rest, header)) => {
                &&& header_spec(input@) == Ok::<(Seq<u8>, HeaderModel), Failure>(
                    (rest@, header@),
                )
                &&& header_fits(header@)
            },
            Err(e) => header_spec(input@) == Err::<(Seq<u8>, HeaderModel), Failure>(e@),
        },
{
    let (rest, block) = match take(HEADER_LEN, input) {
        Ok(split) => split,
        Err(_) => {
            return Err(ParseError::at_start(ParseErrorKind::TruncatedHeader));
        },
    };
    proof {
        lemma_header_reads_sixty(input@);
        assert(block@.len() == 60);
        assert(block@.take(16) =~= block@.subrange(0, 16));
        assert(block@.skip(16).take(12) =~= block@.subrange(16, 28));
        assert(block@.skip(16).skip(12) =~= block@.skip(28));
        assert(block@.skip(28).take(6) =~= block@.subrange(28, 34));
        assert(block@.skip(28).skip(6) =~= block@.skip(34));
        assert(block@.skip(34).take(6) =~= block@.subrange(34, 40));
        assert(block@.skip(34).skip(6) =~= block@.skip(40));
        assert(block@.skip(40).take(8) =~= block@.subrange(40, 48));
        assert(block@.skip(40).skip(8) =~= block@.skip(48));
        assert(block@.skip(48).take(10) =~= block@.subrange(48, 58));
        assert(block@.skip(48).skip(10) =~= block@.skip(58));
        assert(block@.skip(58) =~= block@.subrange(58, 60));
        assert(block@.skip(60) =~= Seq::<u8>::empty());
    }
    let (i, identifier) = match parse_identifier(block) {
        Ok(parsed) => parsed,
        Err(e) => {
            return Err(e);
        },
    };
    let (i, mtime) = match parse_mtime(i) {
        Ok(parsed) => parsed,
        Err(e) => {
            return Err(e.shifted(16));
        },
    };
    let (i, uid) = match parse_uid(i) {
        Ok(parsed) => parsed,
        Err(e) => {
            return Err(e.shifted(28));
        },
    };
    let (i, gid) = match parse_gid(i) {
        Ok(parsed) => parsed,
        Err(e) => {
            return Err(e.shifted(34));
        },
    };
    let (i, mode) = match parse_mode(i) {
        Ok(parsed) => parsed,
        Err(e) => {
            return Err(e.shifted(40));
        },
    };
    let (i, size) = match parse_size(i) {
        Ok(parsed) => parsed,
        Err(e) => {
            return Err(e.shifted(48));
        },
    };
    proof {
        assert(terminator().is_prefix_of(block@.skip(58)) <==> block@.subrange(58, 60)
            == terminator()) by {
            if terminator().is_prefix_of(block@.skip(58)) {
                assert(block@.subrange(58, 60) =~= terminator());
            }
        }
    }
    match parse_entry_header_terminator(i) {
        Ok(_) => {},
        Err(e) => {
            return Err(e.shifted(58));
        },
    }
    proof {
        lemma_header_fits(input@);
    }
    let entry_header = EntryHeader {
        identifier,
        mtime,
        uid: uid as u32,
        gid: gid as u32,
        mode: mode as u32,
        size,
    };
    Ok((rest, entry_header))
}

} // verus!
