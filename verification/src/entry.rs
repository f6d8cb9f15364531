//! One archive member: its header, its payload, and the newline bytes that
//! pad it up to the next header.

use vstd::prelude::*;

use crate::combinators::{tag, take};
use crate::error::{failure, Failure, ParseError, ParseErrorKind};
use crate::header::{
    header_fits, header_spec, lemma_header_fits, parse_entry_header, EntryHeader, HeaderModel,
    HEADER_LEN,
};

verus! {

/// One archive member, as mathematical values.
pub struct EntryModel {
    pub header: HeaderModel,
    pub data: Seq<u8>,
}

/// One archive member: its header and its payload.
#[derive(Debug, Clone, PartialEq, Eq)]
pub struct Entry {
    /// The member's metadata.
    pub header: EntryHeader,
    /// The member's contents, `header.size` bytes.
    pub data: Vec<u8>,
}

impl View for Entry {
    type V = EntryModel;

    open spec fn view(&self) -> EntryModel {
        EntryModel { header: self.header@, data: self.data@ }
    }
}

/// Whether an entry fits the format: its header does, and declares the
/// length that the payload has.
pub open spec fn entry_fits(entry: EntryModel) -> bool {
    &&& header_fits(entry.header)
    &&& entry.data.len() == entry.header.size
}

/// Whether the identifier begins with a newline byte. The header of such an
/// entry cannot be told from the padding before it.
pub open spec fn begins_with_newline(entry: EntryModel) -> bool {
    entry.header.identifier.len() > 0 && entry.header.identifier[0] == 0x0Au8
}

/// What extracting a payload of `size` bytes at the start of `input` gives:
/// the input after the payload, and the payload.
pub open spec fn entry_data_spec(input: Seq<u8>, size: nat) -> Result<
    (Seq<u8>, Seq<u8>),
    Failure,
> {
    if input.len() < size {
        Err(failure(ParseErrorKind::TruncatedPayload, 0))
    } else {
        Ok((input.skip(size as int), input.take(size as int)))
    }
}

/// `s` without its leading newline bytes.
pub open spec fn skip_newlines(s: Seq<u8>) -> Seq<u8>
    decreases s.len(),
{
    if s.len() > 0 && s[0] == 0x0Au8 {
        skip_newlines(s.skip(1))
    } else {
        s
    }
}

/// What decoding an entry at the start of `input` gives: the header in the
/// first 60 bytes, the payload of `size` bytes after it, and as what is left
/// the input after the payload and the newline bytes that follow it.
pub open spec fn entry_spec(input: Seq<u8>) -> Result<(Seq<u8>, EntryModel), Failure> {
    match header_spec(input) {
        Err(e) => Err(e),
        Ok((body, header)) => if body.len() < header.size {
            Err(failure(ParseErrorKind::TruncatedPayload, HEADER_LEN as nat))
        } else {
            Ok(
                (
                    skip_newlines(body.skip(header.size as int)),
                    EntryModel { header, data: body.take(header.size as int) },
                ),
            )
        },
    }
}

/// Skipping removes all the leading newline bytes and nothing else: what is
/// left is the end of the input, is empty or begins with a byte that is no
/// newline, and every byte before it is a newline.
pub proof fn lemma_skip_newlines(s: Seq<u8>)
    ensures
        skip_newlines(s).len() <= s.len(),
        skip_newlines(s) == s.skip(s.len() - skip_newlines(s).len()),
        skip_newlines(s).len() > 0 ==> skip_newlines(s)[0] != 0x0Au8,
        forall|i: int| 0 <= i < s.len() - skip_newlines(s).len() ==> #[trigger] s[i] == 0x0Au8,
    decreases s.len(),
{
    if s.len() > 0 && s[0] == 0x0Au8 {
        let t = s.skip(1);
        lemma_skip_newlines(t);
        let k = t.len() - skip_newlines(t).len();
        assert(t.skip(k) =~= s.skip(k + 1));
        assert forall|i: int| 0 <= i < s.len() - skip_newlines(s).len() implies #[trigger] s[i]
            == 0x0Au8 by {
            if i > 0 {
                assert(t[i - 1] == s[i]);
            }
        }
    } else {
        assert(s.skip(0) =~= s);
    }
}

/// A payload of no bytes is always there: it is empty, and the input is left
/// as it was.
pub proof fn lemma_empty_payload(input: Seq<u8>)
    ensures
        entry_data_spec(input, 0) == Ok::<(Seq<u8>, Seq<u8>), Failure>(
            (input, Seq::<u8>::empty()),
        ),
{
    assert(input.skip(0) =~= input);
    assert(input.take(0) =~= Seq::<u8>::empty());
}

/// An entry whose header declares a size of zero has an empty payload, and
/// what follows its header is read as padding and then as the next header.
pub proof fn lemma_entry_without_payload(input: Seq<u8>)
    requires
        header_spec(input) is Ok,
        header_spec(input)->Ok_0.1.size == 0,
    ensures
        entry_spec(input) is Ok,
        entry_spec(input)->Ok_0.1.data == Seq::<u8>::empty(),
        entry_spec(input)->Ok_0.0 == skip_newlines(input.skip(HEADER_LEN as int)),
{
    let body = header_spec(input)->Ok_0.0;
    assert(body.skip(0) =~= body);
    assert(body.take(0) =~= Seq::<u8>::empty());
}

/// An entry whose header declares more bytes than are left after it is
/// rejected as a whole, at the offset where its payload begins.
pub proof fn lemma_truncated_payload(input: Seq<u8>)
    requires
        header_spec(input) is Ok,
        input.len() - HEADER_LEN < header_spec(input)->Ok_0.1.size,
    ensures
        entry_spec(input) == Err::<(Seq<u8>, EntryModel), Failure>(
            failure(ParseErrorKind::TruncatedPayload, HEADER_LEN as nat),
        ),
{
}

/// Whatever entry is decoded fits the format, and what is left after it does
/// not begin with a newline.
pub proof fn lemma_entry_fits(input: Seq<u8>)
    requires
        entry_spec(input) is Ok,
    ensures
        entry_fits(entry_spec(input)->Ok_0.1),
        begins_with_newline(entry_spec(input)->Ok_0.1) ==> input[0] == 0x0Au8,
        entry_spec(input)->Ok_0.0.len() > 0 ==> entry_spec(input)->Ok_0.0[0] != 0x0Au8,
{
    let (body, header) = header_spec(input)->Ok_0;
    lemma_header_fits(input);
    lemma_skip_newlines(body.skip(header.size as int));
    crate::header::lemma_strip_trailing_spaces(input.subrange(0, 16));
}

/// An entry that decodes takes its header, as many bytes as the header
/// declares, and nothing after them but newline bytes.
pub proof fn lemma_entry_consumes(input: Seq<u8>)
    requires
        entry_spec(input) is Ok,
    ensures
        entry_spec(input)->Ok_0.0.len() + HEADER_LEN + entry_spec(input)->Ok_0.1.header.size
            <= input.len(),
        entry_spec(input)->Ok_0.0 == input.skip(input.len() - entry_spec(input)->Ok_0.0.len()),
        forall|i: int|
            HEADER_LEN + entry_spec(input)->Ok_0.1.header.size <= i < input.len() - entry_spec(
                input,
            )->Ok_0.0.len() ==> #[trigger] input[i] == 0x0Au8,
{
    let (body, header) = header_spec(input)->Ok_0;
    let after = body.skip(header.size as int);
    let rest = skip_newlines(after);
    lemma_skip_newlines(after);
    let start = HEADER_LEN + header.size;
    assert(after =~= input.skip(start as int));
    assert(rest =~= input.skip(input.len() - rest.len()));
    assert forall|i: int| start <= i < input.len() - rest.len() implies #[trigger] input[i]
        == 0x0Au8 by {
        assert(after[i - start] == input[i]);
    }
}

/// A failure to decode an entry lies within the input it was found in.
pub proof fn lemma_entry_failure_offset(input: Seq<u8>)
    requires
        entry_spec(input) is Err,
    ensures
        entry_spec(input)->Err_0.offset <= input.len(),
{
}

/// Extracts the payload: takes exactly `size` bytes, as they are.
///
/// Fails with `TruncatedPayload` if fewer than `size` bytes are left. A size
/// of zero gives an empty payload and leaves the input as it was.
pub fn parse_entry_data(input: &[u8], size: u64) -> (r: Result<(&[u8], &[u8]), ParseError>)
    ensures
        match r {
            Ok((rest, data)) => entry_data_spec(input@, size as nat) == Ok::<
                (Seq<u8>, Seq<u8>),
                Failure,
            >((rest@, data@)),
            Err(e) => entry_data_spec(input@, size as nat) == Err::<(Seq<u8>, Seq<u8>), Failure>(
                e@,
            ),
        },
{
    if size > usize::MAX as u64 {
        proof {
            assert(input.len() == input@.len());
        }
        return Err(ParseError::at_start(ParseErrorKind::TruncatedPayload));
    }
    match take(size as usize, input) {
        Ok((rest, data)) => Ok((rest, data)),
        Err(_) => Err(ParseError::at_start(ParseErrorKind::TruncatedPayload)),
    }
}

/// Consumes the newline bytes at the start of `input`, as many as there are,
/// and returns the input after them together with their number.
pub fn parse_newline_padding(input: &[u8]) -> (r: (&[u8], usize))
    ensures
        r.0@ == skip_newlines(input@),
        r.1 == input@.len() - r.0@.len(),
{
    let pattern: [u8; 1] = [0x0A];
    let total: usize = input.len();
    let mut i: &[u8] = input;
    let mut count: usize = 0;
    loop
        invariant
            pattern@ == seq![0x0Au8],
            skip_newlines(i@) == skip_newlines(input@),
            count + i@.len() == input@.len(),
            total == input@.len(),
        ensures
            i@ == skip_newlines(input@),
            count + i@.len() == input@.len(),
        decreases i@.len(),
    {
        proof {
            assert(pattern@.is_prefix_of(i@) <==> (i@.len() > 0 && i@[0] == 0x0Au8)) by {
                if i@.len() > 0 && i@[0] == 0x0Au8 {
                    assert(pattern@ =~= i@.subrange(0, 1));
                }
                if pattern@.is_prefix_of(i@) {
                    assert(pattern@[0] == i@[0]);
                }
            }
        }
        match tag(pattern.as_slice(), i) {
            Ok((rest, _)) => {
                i = rest;
                count = count + 1;
            },
            Err(_) => {
                break;
            },
        }
    }
    (i, count)
}

/// Decodes the entry at the start of `input`: its header, then its payload,
/// then the padding after it. Returns the input after the padding together
/// with the entry.
///
/// Fails as the header decoder fails; otherwise with `TruncatedPayload`, at
/// the offset where the payload begins, if fewer bytes follow the header than
/// it declares.
pub fn parse_entry(input: &[u8]) -> (r: Result<(&[u8], Entry), ParseError>)
    ensures
        match r {
            Ok((rest, entry)) => {
                &&& entry_spec(input@) == Ok::<(Seq<u8>, EntryModel), Failure>((rest@, entry@))
                &&& entry_fits(entry@)
            },
            Err(e) => entry_spec(input@) == Err::<(Seq<u8>, EntryModel), Failure>(e@),
        },
{
    let (i, header) = match parse_entry_header(input) {
        Ok(parsed) => parsed,
        Err(e) => {
            return Err(e);
        },
    };
    let (i, data) = match parse_entry_data(i, header.size) {
        Ok(parsed) => parsed,
        Err(e) => {
            return Err(e.shifted(HEADER_LEN));
        },
    };
    let (i, _) = parse_newline_padding(i);
    let entry = Entry { header, data: vstd::slice::slice_to_vec(data) };
    Ok((i, entry))
}

} // verus!
