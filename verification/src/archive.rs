//! The archive as a whole: the signature, then entries up to the end of the
//! input.

use vstd::prelude::*;

use crate::combinators::{eof, tag};
use crate::entry::{
    begins_with_newline, entry_fits, entry_spec, lemma_entry_consumes, lemma_entry_fits,
    parse_entry, Entry, EntryModel,
};
use crate::error::{failure, Failure, ParseError, ParseErrorKind};
use crate::header::HEADER_LEN;

verus! {

/// The width of the signature in bytes.
pub const SIGNATURE_LEN: usize = 8;

/// The eight bytes that every archive begins with: `!<arch>` and a newline.
pub open spec fn signature() -> Seq<u8> {
    seq![0x21u8, 0x3Cu8, 0x61u8, 0x72u8, 0x63u8, 0x68u8, 0x3Eu8, 0x0Au8]
}

/// What recognizing the signature at the start of `input` gives: the input
/// after the eight bytes, and the eight bytes.
pub open spec fn signature_spec(input: Seq<u8>) -> Result<(Seq<u8>, Seq<u8>), Failure> {
    if signature().is_prefix_of(input) {
        Ok((input.skip(SIGNATURE_LEN as int), signature()))
    } else {
        Err(failure(ParseErrorKind::MalformedSignature, 0))
    }
}

/// The mathematical form of each entry, in the same order.
pub open spec fn entry_models(entries: Seq<Entry>) -> Seq<EntryModel> {
    entries.map_values(|e: Entry| e@)
}

/// The result for a whole input, from the entries decoded so far, the number
/// of bytes they took, and the result for the rest of the input.
pub open spec fn after_entries(
    done: Seq<EntryModel>,
    consumed: nat,
    rest: Result<Seq<EntryModel>, Failure>,
) -> Result<Seq<EntryModel>, Failure> {
    match rest {
        Ok(entries) => Ok(done + entries),
        Err(e) => Err(e.shifted(consumed)),
    }
}

/// What decoding entries up to the end of `input` gives; `after_entry` says
/// whether an entry precedes `input`.
///
/// An empty input holds no entry. Bytes that follow an entry and are too few
/// for a header are trailing garbage. Anything else must begin with an entry,
/// and what that entry leaves is decoded in the same way; a failure there is
/// reported at its offset in `input`.
pub open spec fn entries_spec(input: Seq<u8>, after_entry: bool) -> Result<
    Seq<EntryModel>,
    Failure,
>
    decreases input.len(),
    via entries_spec_decreases
{
    if input.len() == 0 {
        Ok(Seq::empty())
    } else if after_entry && input.len() < HEADER_LEN {
        Err(failure(ParseErrorKind::TrailingGarbage, 0))
    } else {
        match entry_spec(input) {
            Err(e) => Err(e),
            Ok((rest, entry)) => after_entries(
                seq![entry],
                (input.len() - rest.len()) as nat,
                entries_spec(rest, true),
            ),
        }
    }
}

#[via_fn]
proof fn entries_spec_decreases(input: Seq<u8>, after_entry: bool) {
    if entry_spec(input) is Ok {
        lemma_entry_consumes(input);
    }
}

/// What decoding an archive gives: the entries after the signature, in the
/// order of their bytes. A failure is reported at its offset in `input`.
pub open spec fn archive_spec(input: Seq<u8>) -> Result<Seq<EntryModel>, Failure> {
    if signature().is_prefix_of(input) {
        after_entries(
            Seq::empty(),
            SIGNATURE_LEN as nat,
            entries_spec(input.skip(SIGNATURE_LEN as int), false),
        )
    } else {
        Err(failure(ParseErrorKind::MalformedSignature, 0))
    }
}

/// Whether entries fit the format as an archive: each of them does, and none
/// but the first has an identifier that begins with a newline.
pub open spec fn archive_fits(entries: Seq<EntryModel>) -> bool {
    &&& forall|i: int| 0 <= i < entries.len() ==> entry_fits(#[trigger] entries[i])
    &&& forall|i: int| 1 <= i < entries.len() ==> !begins_with_newline(#[trigger] entries[i])
}

/// One more entry decoded: the result for the whole input stays what it was.
proof fn lemma_entries_step(done: Seq<EntryModel>, consumed: nat, input: Seq<u8>)
    requires
        input.len() > 0,
        done.len() > 0 ==> input.len() >= HEADER_LEN,
        entry_spec(input) is Ok,
    ensures
        ({
            let (rest, entry) = entry_spec(input)->Ok_0;
            after_entries(done, consumed, entries_spec(input, done.len() > 0)) == after_entries(
                done.push(entry),
                (consumed + input.len() - rest.len()) as nat,
                entries_spec(rest, true),
            )
        }),
{
    let (rest, entry) = entry_spec(input)->Ok_0;
    lemma_entry_consumes(input);
    match entries_spec(rest, true) {
        Ok(entries) => {
            assert(done + (seq![entry] + entries) =~= done.push(entry) + entries);
        },
        Err(e) => {},
    }
}

/// Entries are only ever rejected for what follows the signature: a failure
/// to decode them is never a malformed signature, and lies within the input.
pub proof fn lemma_entries_failure(input: Seq<u8>, after_entry: bool)
    requires
        entries_spec(input, after_entry) is Err,
    ensures
        entries_spec(input, after_entry)->Err_0.kind != ParseErrorKind::MalformedSignature,
        entries_spec(input, after_entry)->Err_0.offset <= input.len(),
    decreases input.len(),
{
    if input.len() == 0 {
    } else if after_entry && input.len() < HEADER_LEN {
    } else {
        match entry_spec(input) {
            Err(e) => {},
            Ok((rest, entry)) => {
                lemma_entry_consumes(input);
                lemma_entries_failure(rest, true);
            },
        }
    }
}

/// Whatever entries are decoded fit the format as an archive, and the first
/// of them begins with a newline only if the input does.
pub proof fn lemma_entries_fit(input: Seq<u8>, after_entry: bool)
    requires
        entries_spec(input, after_entry) is Ok,
    ensures
        archive_fits(entries_spec(input, after_entry)->Ok_0),
        entries_spec(input, after_entry)->Ok_0.len() > 0 && begins_with_newline(
            entries_spec(input, after_entry)->Ok_0[0],
        ) ==> input[0] == 0x0Au8,
    decreases input.len(),
{
    if input.len() > 0 {
        let (rest, entry) = entry_spec(input)->Ok_0;
        let later = entries_spec(rest, true)->Ok_0;
        let entries = entries_spec(input, after_entry)->Ok_0;
        lemma_entry_consumes(input);
        lemma_entry_fits(input);
        lemma_entries_fit(rest, true);
        assert(entries == seq![entry] + later);
        assert forall|i: int| 0 <= i < entries.len() implies entry_fits(#[trigger] entries[i]) by {
            if i > 0 {
                assert(entries[i] == later[i - 1]);
            }
        }
        assert forall|i: int| 1 <= i < entries.len() implies !begins_with_newline(
            #[trigger] entries[i],
        ) by {
            assert(entries[i] == later[i - 1]);
        }
    }
}

/// Whatever archive is decoded fits the format.
pub proof fn lemma_archive_fits(input: Seq<u8>)
    requires
        archive_spec(input) is Ok,
    ensures
        archive_fits(archive_spec(input)->Ok_0),
{
    let body = input.skip(SIGNATURE_LEN as int);
    lemma_entries_fit(body, false);
    assert(Seq::<EntryModel>::empty() + entries_spec(body, false)->Ok_0 =~= entries_spec(
        body,
        false,
    )->Ok_0);
}

/// An archive is rejected for its signature exactly when it does not begin
/// with the eight signature bytes, and then at offset zero.
pub proof fn lemma_malformed_signature(input: Seq<u8>)
    ensures
        !signature().is_prefix_of(input) <==> (archive_spec(input) is Err && archive_spec(
            input,
        )->Err_0.kind == ParseErrorKind::MalformedSignature),
        !signature().is_prefix_of(input) ==> archive_spec(input) == Err::<
            Seq<EntryModel>,
            Failure,
        >(failure(ParseErrorKind::MalformedSignature, 0)),
{
    if signature().is_prefix_of(input) {
        let body = input.skip(SIGNATURE_LEN as int);
        if entries_spec(body, false) is Err {
            lemma_entries_failure(body, false);
        }
    }
}

/// An archive that is rejected is rejected at an offset within it.
pub proof fn lemma_archive_failure_offset(input: Seq<u8>)
    requires
        archive_spec(input) is Err,
    ensures
        archive_spec(input)->Err_0.offset <= input.len(),
{
    if signature().is_prefix_of(input) {
        lemma_entries_failure(input.skip(SIGNATURE_LEN as int), false);
    }
}

/// An archive of the signature alone holds no entry.
pub proof fn lemma_empty_archive()
    ensures
        archive_spec(signature()) == Ok::<Seq<EntryModel>, Failure>(Seq::empty()),
{
    assert(signature().skip(SIGNATURE_LEN as int) =~= Seq::<u8>::empty());
    assert(Seq::<EntryModel>::empty() + Seq::<EntryModel>::empty() =~= Seq::<EntryModel>::empty());
}

/// Recognizes the archive signature.
///
/// Fails with `MalformedSignature` if `input` does not begin with the eight
/// signature bytes, be it that it is shorter than they are.
pub fn parse_file_signature(input: &[u8]) -> (r: Result<(&[u8], &[u8]), ParseError>)
    ensures
        match r {
            Ok((rest, matched)) => signature_spec(input@) == Ok::<(Seq<u8>, Seq<u8>), Failure>(
                (rest@, matched@),
            ),
            Err(e) => signature_spec(input@) == Err::<(Seq<u8>, Seq<u8>), Failure>(e@),
        },
{
    let pattern: [u8; 8] = [0x21, 0x3C, 0x61, 0x72, 0x63, 0x68, 0x3E, 0x0A];
    assert(pattern@ =~= signature());
    match tag(pattern.as_slice(), input) {
        Ok((rest, matched)) => Ok((rest, matched)),
        Err(_) => Err(ParseError::at_start(ParseErrorKind::MalformedSignature)),
    }
}

/// Decodes a whole archive: the signature, then entries until no input is
/// left. Returns the entries in the order of their bytes, together with what
/// is left of the input and with the input at its end, both of them empty.
///
/// Fails with `MalformedSignature` at offset zero if the signature is not
/// there. Fails as the entry decoder fails, at the offset in `input` of what
/// it rejected. Fails with `TrailingGarbage` if an entry is followed by bytes
/// that are too few for a header, at the offset of the first of them.
pub fn parser(input: &[u8]) -> (r: Result<(&[u8], (Vec<Entry>, &[u8])), ParseError>)
    ensures
        match r {
            Ok((rest, (entries, end))) => {
                &&& archive_spec(input@) == Ok::<Seq<EntryModel>, Failure>(entry_models(entries@))
                &&& archive_fits(entry_models(entries@))
                &&& rest@.len() == 0
                &&& end@.len() == 0
            },
            Err(e) => archive_spec(input@) == Err::<Seq<EntryModel>, Failure>(e@),
        },
{
    let (body, _) = match parse_file_signature(input) {
        Ok(parsed) => parsed,
        Err(e) => {
            return Err(e);
        },
    };
    let total: usize = input.len();
    let mut entries: Vec<Entry> = Vec::new();
    let mut i: &[u8] = body;
    proof {
        assert(entry_models(entries@) =~= Seq::<EntryModel>::empty());
        match entries_spec(body@, false) {
            Ok(all) => {
                assert(Seq::<EntryModel>::empty() + all =~= all);
            },
            Err(e) => {},
        }
    }
    loop
        invariant
            total == input@.len(),
            signature().is_prefix_of(input@),
            SIGNATURE_LEN + i@.len() <= total,
            archive_spec(input@) == after_entries(
                entry_models(entries@),
                (total - i@.len()) as nat,
                entries_spec(i@, entries@.len() > 0),
            ),
        decreases i@.len(),
    {
        match eof(i) {
            Ok((rest, end)) => {
                proof {
                    assert(entry_models(entries@) + Seq::<EntryModel>::empty() =~= entry_models(
                        entries@,
                    ));
                    lemma_archive_fits(input@);
                }
                return Ok((rest, (entries, end)));
            },
            Err(_) => {},
        }
        let offset: usize = total - i.len();
        if entries.len() > 0 && i.len() < HEADER_LEN {
            return Err(ParseError { kind: ParseErrorKind::TrailingGarbage, offset });
        }
        match parse_entry(i) {
            Ok((rest, entry)) => {
                proof {
                    lemma_entry_consumes(i@);
                    lemma_entries_step(
                        entry_models(entries@),
                        (total - i@.len()) as nat,
                        i@,
                    );
                    assert(entry_models(entries@.push(entry)) =~= entry_models(entries@).push(
                        entry@,
                    ));
                }
                entries.push(entry);
                i = rest;
            },
            Err(e) => {
                proof {
                    crate::entry::lemma_entry_failure_offset(i@);
                }
                return Err(e.shifted(offset));
            },
        }
    }
}

} // verus!
