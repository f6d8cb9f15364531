//! The bytes that an archive is laid out in, and the proof that decoding
//! them gives the archive back.
//!
//! Nothing here is executable: the layout is a specification of what a writer
//! of archives produces, stated so that the decoders can be held against it.

use vstd::prelude::*;

use crate::archive::{
    archive_fits, archive_spec, entries_spec, lemma_archive_fits, signature, SIGNATURE_LEN,
};
use crate::entry::{begins_with_newline, entry_fits, entry_spec, skip_newlines, EntryModel};
use crate::error::Failure;
use crate::header::{
    header_fits, header_spec, strip_trailing_spaces, terminator, HeaderModel, HEADER_LEN,
};
use crate::number::{all_digits, digit_value, digits_value, is_padding, number_spec, trim_end};

verus! {

/// `n` space bytes.
pub open spec fn spaces(n: nat) -> Seq<u8> {
    Seq::new(n, |i: int| 0x20u8)
}

/// `n` newline bytes.
pub open spec fn newlines(n: nat) -> Seq<u8> {
    Seq::new(n, |i: int| 0x0Au8)
}

/// The ASCII digit for a value below ten.
pub open spec fn digit_byte(d: nat) -> u8 {
    (0x30 + d) as u8
}

/// The digits of `n` in a radix from two to ten, the most significant first
/// and without leading zeros; zero is the one digit `0`.
pub open spec fn number_digits(n: nat, radix: nat) -> Seq<u8>
    decreases n,
    via number_digits_decreases
{
    if radix < 2 || n < radix {
        seq![digit_byte(n)]
    } else {
        number_digits(n / radix, radix).push(digit_byte(n % radix))
    }
}

#[via_fn]
proof fn number_digits_decreases(n: nat, radix: nat) {
    if radix >= 2 && n >= radix {
        assert(n / radix < n) by (nonlinear_arith)
            requires
                radix >= 2,
                n >= radix,
        ;
    }
}

/// A numeric field of the given width: the digits of `n`, then spaces.
pub open spec fn number_field(n: nat, width: nat, radix: nat) -> Seq<u8> {
    number_digits(n, radix) + spaces((width - number_digits(n, radix).len()) as nat)
}

/// The identifier field: the identifier, then spaces up to 16 bytes.
pub open spec fn identifier_field(identifier: Seq<u8>) -> Seq<u8> {
    identifier + spaces((16 - identifier.len()) as nat)
}

/// The 60 bytes of a header.
pub open spec fn header_bytes(header: HeaderModel) -> Seq<u8> {
    identifier_field(header.identifier) + number_field(header.mtime, 12, 10) + number_field(
        header.uid,
        6,
        10,
    ) + number_field(header.gid, 6, 10) + number_field(header.mode, 8, 8) + number_field(
        header.size,
        10,
        10,
    ) + terminator()
}

/// The bytes of an entry: its header, its payload, and `padding` newlines.
pub open spec fn entry_bytes(entry: EntryModel, padding: nat) -> Seq<u8> {
    header_bytes(entry.header) + entry.data + newlines(padding)
}

/// The bytes of entries one after another, each with its own padding.
pub open spec fn entries_bytes(entries: Seq<EntryModel>, padding: Seq<nat>) -> Seq<u8>
    decreases entries.len(),
{
    if entries.len() == 0 {
        Seq::empty()
    } else {
        entry_bytes(entries[0], padding[0]) + entries_bytes(entries.skip(1), padding.skip(1))
    }
}

/// The bytes of an archive: the signature, then the entries.
pub open spec fn archive_bytes(entries: Seq<EntryModel>, padding: Seq<nat>) -> Seq<u8> {
    signature() + entries_bytes(entries, padding)
}

/// Trimming a run of bytes that does not end in padding, followed by spaces,
/// gives the run back.
proof fn lemma_trim_end_spaces(digits: Seq<u8>, n: nat)
    requires
        digits.len() > 0 ==> !is_padding(digits.last()),
    ensures
        trim_end(digits + spaces(n)) == digits,
    decreases n,
{
    let s = digits + spaces(n);
    if n == 0 {
        assert(s =~= digits);
    } else {
        assert(s.last() == 0x20u8);
        assert(s.drop_last() =~= digits + spaces((n - 1) as nat));
        lemma_trim_end_spaces(digits, (n - 1) as nat);
    }
}

/// Stripping a run of bytes that does not end in a space, followed by
/// spaces, gives the run back.
proof fn lemma_strip_spaces(identifier: Seq<u8>, n: nat)
    requires
        identifier.len() > 0 ==> identifier.last() != 0x20u8,
    ensures
        strip_trailing_spaces(identifier + spaces(n)) == identifier,
    decreases n,
{
    let s = identifier + spaces(n);
    if n == 0 {
        assert(s =~= identifier);
    } else {
        assert(s.last() == 0x20u8);
        assert(s.drop_last() =~= identifier + spaces((n - 1) as nat));
        lemma_strip_spaces(identifier, (n - 1) as nat);
    }
}

/// Skipping the newlines before a run of bytes that does not begin with one
/// gives the run back.
proof fn lemma_skip_padding(n: nat, rest: Seq<u8>)
    requires
        rest.len() > 0 ==> rest[0] != 0x0Au8,
    ensures
        skip_newlines(newlines(n) + rest) == rest,
    decreases n,
{
    let s = newlines(n) + rest;
    if n == 0 {
        assert(s =~= rest);
    } else {
        assert(s[0] == 0x0Au8);
        assert(s.skip(1) =~= newlines((n - 1) as nat) + rest);
        lemma_skip_padding((n - 1) as nat, rest);
    }
}

/// The digits of a number are digits of the radix, none of them padding, and
/// denote the number.
proof fn lemma_number_digits(n: nat, radix: nat)
    requires
        2 <= radix <= 10,
    ensures
        number_digits(n, radix).len() >= 1,
        all_digits(number_digits(n, radix), radix),
        !is_padding(number_digits(n, radix).last()),
        digits_value(number_digits(n, radix), radix) == n,
    decreases n,
{
    let digits = number_digits(n, radix);
    if n < radix {
        assert(digits.drop_last() =~= Seq::<u8>::empty());
        let high_value = digits_value(digits.drop_last(), radix);
        assert(high_value == 0);
        assert(high_value * radix == 0) by (nonlinear_arith)
            requires
                high_value == 0,
        ;
        assert(digit_value(digits.last()) == n);
    } else {
        let high = number_digits(n / radix, radix);
        let low = (n % radix) as nat;
        lemma_number_digits(n / radix, radix);
        assert(digits.drop_last() =~= high);
        assert(digits.last() == digit_byte(low));
        assert(digit_value(digit_byte(low)) == low);
        assert forall|i: int| 0 <= i < digits.len() implies digit_value(#[trigger] digits[i])
            < radix by {
            if i < high.len() {
                assert(digits[i] == high[i]);
            }
        }
        let high_value = digits_value(high, radix);
        assert(high_value * radix + low == n) by {
            vstd::arithmetic::div_mod::lemma_fundamental_div_mod(n as int, radix as int);
            assert(radix * (n / radix) == high_value * radix) by (nonlinear_arith)
                requires
                    high_value == n / radix,
            ;
        }
        assert(digits_value(digits, radix) == high_value * radix + low);
    }
}

/// A number below the radix raised to `width` has at most `width` digits.
proof fn lemma_number_digits_len(n: nat, radix: nat, width: nat)
    requires
        2 <= radix,
        1 <= width,
        n < vstd::arithmetic::power::pow(radix as int, width),
    ensures
        number_digits(n, radix).len() <= width,
    decreases width,
{
    if n >= radix {
        vstd::arithmetic::power::lemma_pow1(radix as int);
        assert(width >= 2);
        let below = vstd::arithmetic::power::pow(radix as int, (width - 1) as nat);
        assert(vstd::arithmetic::power::pow(radix as int, width) == radix * below) by {
            reveal(vstd::arithmetic::power::pow);
        }
        vstd::arithmetic::div_mod::lemma_multiply_divide_lt(n as int, radix as int, below);
        lemma_number_digits_len(n / radix, radix, (width - 1) as nat);
    }
}

/// A numeric field has the width asked for, and decodes to its number.
proof fn lemma_number_field(n: nat, width: nat, radix: nat)
    requires
        2 <= radix <= 10,
        1 <= width,
        n < vstd::arithmetic::power::pow(radix as int, width),
        n <= u64::MAX,
    ensures
        number_field(n, width, radix).len() == width,
        number_spec(number_field(n, width, radix), radix) == Some(n),
{
    let digits = number_digits(n, radix);
    lemma_number_digits(n, radix);
    lemma_number_digits_len(n, radix, width);
    lemma_trim_end_spaces(digits, (width - digits.len()) as nat);
}

/// The bytes of a header that fits the format are 60, and do not begin with
/// a newline unless the identifier does.
proof fn lemma_header_bytes(header: HeaderModel)
    requires
        header_fits(header),
    ensures
        header_bytes(header).len() == HEADER_LEN,
        header_bytes(header)[0] == if header.identifier.len() > 0 {
            header.identifier[0]
        } else {
            0x20u8
        },
        number_spec(number_field(header.mtime, 12, 10), 10) == Some(header.mtime),
        number_spec(number_field(header.uid, 6, 10), 10) == Some(header.uid),
        number_spec(number_field(header.gid, 6, 10), 10) == Some(header.gid),
        number_spec(number_field(header.mode, 8, 8), 8) == Some(header.mode),
        number_spec(number_field(header.size, 10, 10), 10) == Some(header.size),
        number_field(header.mtime, 12, 10).len() == 12,
        number_field(header.uid, 6, 10).len() == 6,
        number_field(header.gid, 6, 10).len() == 6,
        number_field(header.mode, 8, 8).len() == 8,
        number_field(header.size, 10, 10).len() == 10,
        identifier_field(header.identifier).len() == 16,
        strip_trailing_spaces(identifier_field(header.identifier)) == header.identifier,
{
    assert(vstd::arithmetic::power::pow(10, 12) == 1_000_000_000_000
        && vstd::arithmetic::power::pow(10, 10) == 10_000_000_000
        && vstd::arithmetic::power::pow(10, 6) == 1_000_000
        && vstd::arithmetic::power::pow(8, 8) == 0o100_000_000) by {
        reveal_with_fuel(vstd::arithmetic::power::pow, 13);
    }
    lemma_number_field(header.mtime, 12, 10);
    lemma_number_field(header.uid, 6, 10);
    lemma_number_field(header.gid, 6, 10);
    lemma_number_field(header.mode, 8, 8);
    lemma_number_field(header.size, 10, 10);
    lemma_strip_spaces(header.identifier, (16 - header.identifier.len()) as nat);
}

/// Decoding the bytes of a header that fits the format gives the header, and
/// leaves what follows them.
pub proof fn lemma_header_round_trip(header: HeaderModel, rest: Seq<u8>)
    requires
        header_fits(header),
    ensures
        header_spec(header_bytes(header) + rest) == Ok::<(Seq<u8>, HeaderModel), Failure>(
            (rest, header),
        ),
{
    lemma_header_bytes(header);
    let input = header_bytes(header) + rest;
    assert(input.subrange(0, 16) =~= identifier_field(header.identifier));
    assert(input.subrange(16, 28) =~= number_field(header.mtime, 12, 10));
    assert(input.subrange(28, 34) =~= number_field(header.uid, 6, 10));
    assert(input.subrange(34, 40) =~= number_field(header.gid, 6, 10));
    assert(input.subrange(40, 48) =~= number_field(header.mode, 8, 8));
    assert(input.subrange(48, 58) =~= number_field(header.size, 10, 10));
    assert(input.subrange(58, 60) =~= terminator());
    assert(input.skip(HEADER_LEN as int) =~= rest);
}

/// Decoding the bytes of an entry that fits the format gives the entry, and
/// leaves what follows them, provided that does not begin with a newline.
pub proof fn lemma_entry_round_trip(entry: EntryModel, padding: nat, rest: Seq<u8>)
    requires
        entry_fits(entry),
        rest.len() > 0 ==> rest[0] != 0x0Au8,
    ensures
        entry_spec(entry_bytes(entry, padding) + rest) == Ok::<(Seq<u8>, EntryModel), Failure>(
            (rest, entry),
        ),
{
    let body = entry.data + newlines(padding) + rest;
    let input = entry_bytes(entry, padding) + rest;
    assert(input =~= header_bytes(entry.header) + body);
    lemma_header_round_trip(entry.header, body);
    assert(body.take(entry.header.size as int) =~= entry.data);
    assert(body.skip(entry.header.size as int) =~= newlines(padding) + rest);
    lemma_skip_padding(padding, rest);
}

/// Decoding the bytes of entries that fit the format gives the entries.
proof fn lemma_entries_round_trip(
    entries: Seq<EntryModel>,
    padding: Seq<nat>,
    after_entry: bool,
)
    requires
        padding.len() == entries.len(),
        forall|i: int| 0 <= i < entries.len() ==> entry_fits(#[trigger] entries[i]),
        forall|i: int| 1 <= i < entries.len() ==> !begins_with_newline(#[trigger] entries[i]),
    ensures
        entries_spec(entries_bytes(entries, padding), after_entry) == Ok::<
            Seq<EntryModel>,
            Failure,
        >(entries),
        entries.len() > 0 ==> entries_bytes(entries, padding).len() >= HEADER_LEN
            && entries_bytes(entries, padding)[0] == header_bytes(entries[0].header)[0],
    decreases entries.len(),
{
    if entries.len() == 0 {
        assert(entries =~= Seq::<EntryModel>::empty());
    } else {
        let first = entries[0];
        let later = entries.skip(1);
        let rest = entries_bytes(later, padding.skip(1));
        assert forall|i: int| 0 <= i < later.len() implies entry_fits(#[trigger] later[i]) by {
            assert(later[i] == entries[i + 1]);
        }
        assert forall|i: int| 1 <= i < later.len() implies !begins_with_newline(
            #[trigger] later[i],
        ) by {
            assert(later[i] == entries[i + 1]);
        }
        lemma_entries_round_trip(later, padding.skip(1), true);
        lemma_header_bytes(first.header);
        if later.len() > 0 {
            assert(later[0] == entries[1]);
            lemma_header_bytes(later[0].header);
            assert(!begins_with_newline(entries[1]));
        }
        lemma_entry_round_trip(first, padding[0], rest);
        assert(seq![first] + later =~= entries);
    }
}

/// The signature begins whatever it is put before, and is all that must be
/// taken off to get that back.
proof fn lemma_signature_prefix(body: Seq<u8>)
    ensures
        signature().is_prefix_of(signature() + body),
        (signature() + body).skip(SIGNATURE_LEN as int) == body,
{
    let input = signature() + body;
    assert(signature().len() == SIGNATURE_LEN);
    assert(input.subrange(0, SIGNATURE_LEN as int) =~= signature());
    assert(input.skip(SIGNATURE_LEN as int) =~= body);
}

/// Decoding the layout of an archive gives the archive back.
///
/// For any entries that fit the format and any amount of newline padding
/// after each, decoding the signature followed by the entries' bytes yields
/// exactly those entries, in their order. Left out are archives in which an
/// entry other than the first has an identifier that begins with a newline:
/// the padding before such an entry would take that byte.
pub proof fn lemma_archive_round_trip(entries: Seq<EntryModel>, padding: Seq<nat>)
    requires
        padding.len() == entries.len(),
        archive_fits(entries),
    ensures
        archive_spec(archive_bytes(entries, padding)) == Ok::<Seq<EntryModel>, Failure>(entries),
{
    lemma_entries_round_trip(entries, padding, false);
    lemma_signature_prefix(entries_bytes(entries, padding));
    assert(Seq::<EntryModel>::empty() + entries =~= entries);
}

/// Laying out what was decoded and decoding it again gives the same entries,
/// whatever padding the layout puts after each.
pub proof fn lemma_decoded_archive_round_trip(input: Seq<u8>, padding: Seq<nat>)
    requires
        archive_spec(input) is Ok,
        padding.len() == archive_spec(input)->Ok_0.len(),
    ensures
        archive_spec(archive_bytes(archive_spec(input)->Ok_0, padding)) == archive_spec(input),
{
    lemma_archive_fits(input);
    lemma_archive_round_trip(archive_spec(input)->Ok_0, padding);
}

} // verus!
