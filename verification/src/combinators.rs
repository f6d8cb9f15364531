//! The byte-level parsers of `nom` that the decoders are built from.
//!
//! Each function here hands its arguments to one parser of `nom` and returns
//! what that parser returns. Their contracts are not proved: they restate what
//! the source of `nom` shows for byte slices.

use vstd::prelude::*;

verus! {

/// `nom::Err`, the error of every `nom` parser. Nothing is read from it.
#[verifier::external_type_specification]
#[verifier::external_body]
#[verifier::reject_recursive_types(E)]
pub struct ExNomErr<E>(nom::Err<E>);

/// `nom::error::Error`, the default payload of `nom::Err`. Nothing is read
/// from it.
#[verifier::external_type_specification]
#[verifier::external_body]
#[verifier::reject_recursive_types(I)]
pub struct ExNomError<I>(nom::error::Error<I>);

/// `nom::bytes::complete::tag` on byte slices.
///
/// Claimed: the parser succeeds exactly when `input` begins with `pattern`;
/// it then returns the input after the pattern, and the part of the input
/// that matched.
#[verifier::external_body]
pub(crate) fn tag<'a>(pattern: &[u8], input: &'a [u8]) -> (r: Result<
    (&'a [u8], &'a [u8]),
    nom::Err<nom::error::Error<&'a [u8]>>,
>)
    ensures
        r is Ok <==> pattern@.is_prefix_of(input@),
        r matches Ok((rest, matched)) ==> matched@ == pattern@ && rest@ == input@.skip(
            pattern@.len() as int,
        ),
{
    nom::bytes::complete::tag(pattern)(input)
}

/// `nom::bytes::complete::take` on byte slices.
///
/// Claimed: the parser succeeds exactly when `input` holds at least `count`
/// bytes; it then returns the input after the first `count` bytes, and those
/// first `count` bytes.
#[verifier::external_body]
pub(crate) fn take<'a>(count: usize, input: &'a [u8]) -> (r: Result<
    (&'a [u8], &'a [u8]),
    nom::Err<nom::error::Error<&'a [u8]>>,
>)
    ensures
        r is Ok <==> count <= input@.len(),
        r matches Ok((rest, taken)) ==> taken@ == input@.take(count as int) && rest@
            == input@.skip(count as int),
{
    nom::bytes::complete::take(count)(input)
}

/// `nom::combinator::eof` on byte slices.
///
/// Claimed: the parser succeeds exactly when `input` is empty; it then
/// returns the input twice, as what is left and as what matched.
#[verifier::external_body]
pub(crate) fn eof<'a>(input: &'a [u8]) -> (r: Result<
    (&'a [u8], &'a [u8]),
    nom::Err<nom::error::Error<&'a [u8]>>,
>)
    ensures
        r is Ok <==> input@.len() == 0,
        r matches Ok((rest, matched)) ==> rest@ == input@ && matched@ == input@,
{
    nom::combinator::eof(input)
}

} // verus!
