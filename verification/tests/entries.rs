use arparse::{
    parse_entry, parse_entry_data, parse_newline_padding, Entry, EntryHeader, ParseError,
    ParseErrorKind,
};

fn error(kind: ParseErrorKind, offset: usize) -> ParseError {
    ParseError { kind, offset }
}

fn header(identifier: &str, size: &str) -> Vec<u8> {
    format!("{:<16}1487552916  501   20    100644  {:<10}`\n", identifier, size).into_bytes()
}

#[test]
fn payload_is_taken_as_it_is() {
    let (rest, data) = parse_entry_data(b"foobar\n\nnext", 7).expect("a payload");
    assert_eq!(data, b"foobar\n");
    assert_eq!(rest, b"\nnext");
}

#[test]
fn payload_may_hold_any_byte() {
    let input = [0x00, 0xff, 0x0a, 0x60, 0x20, 0x80];
    let (rest, data) = parse_entry_data(&input, 5).expect("a payload");
    assert_eq!(data, &input[..5]);
    assert_eq!(rest, &input[5..]);
}

#[test]
fn payload_may_be_all_that_is_left() {
    let (rest, data) = parse_entry_data(b"baz\n", 4).expect("a payload");
    assert_eq!(data, b"baz\n");
    assert_eq!(rest, b"");
}

#[test]
fn payload_of_no_bytes_leaves_the_input() {
    let (rest, data) = parse_entry_data(b"next header", 0).expect("a payload");
    assert_eq!(data, b"");
    assert_eq!(rest, b"next header");
    let (rest, data) = parse_entry_data(b"", 0).expect("a payload");
    assert_eq!(data, b"");
    assert_eq!(rest, b"");
}

#[test]
fn payload_longer_than_the_input_is_truncated() {
    assert_eq!(parse_entry_data(b"foobar", 7), Err(error(ParseErrorKind::TruncatedPayload, 0)));
    assert_eq!(parse_entry_data(b"", 1), Err(error(ParseErrorKind::TruncatedPayload, 0)));
    assert_eq!(
        parse_entry_data(b"foobar", u64::MAX),
        Err(error(ParseErrorKind::TruncatedPayload, 0))
    );
}

#[test]
fn padding_is_every_leading_newline() {
    assert_eq!(parse_newline_padding(b"\n\n\nnext"), (&b"next"[..], 3));
    assert_eq!(parse_newline_padding(b"\nnext\n"), (&b"next\n"[..], 1));
}

#[test]
fn padding_may_be_absent() {
    assert_eq!(parse_newline_padding(b"next"), (&b"next"[..], 0));
    assert_eq!(parse_newline_padding(b""), (&b""[..], 0));
}

#[test]
fn padding_may_be_all_that_is_left() {
    assert_eq!(parse_newline_padding(b"\n\n"), (&b""[..], 2));
}

#[test]
fn padding_is_newlines_only() {
    assert_eq!(parse_newline_padding(b"\r\nnext"), (&b"\r\nnext"[..], 0));
    assert_eq!(parse_newline_padding(b"\n \nnext"), (&b" \nnext"[..], 1));
    assert_eq!(parse_newline_padding(b"\n\r\n"), (&b"\r\n"[..], 1));
}

#[test]
fn entry_is_header_payload_and_padding() {
    let mut input = header("foo.txt", "7");
    input.extend_from_slice(b"foobar\n\nbar.awesome.txt");
    let (rest, entry) = parse_entry(&input).expect("an entry");
    assert_eq!(
        entry,
        Entry {
            header: EntryHeader {
                identifier: b"foo.txt".to_vec(),
                mtime: 1487552916,
                uid: 501,
                gid: 20,
                mode: 0o100644,
                size: 7,
            },
            data: b"foobar\n".to_vec(),
        }
    );
    assert_eq!(rest, b"bar.awesome.txt");
}

#[test]
fn entry_payload_has_the_declared_length() {
    let mut input = header("a", "3");
    input.extend_from_slice(b"\n\n\n\n\nx");
    let (rest, entry) = parse_entry(&input).expect("an entry");
    assert_eq!(entry.data, b"\n\n\n");
    assert_eq!(entry.data.len() as u64, entry.header.size);
    assert_eq!(rest, b"x");
}

#[test]
fn entry_without_payload_is_followed_by_the_next_header() {
    let mut input = header("empty", "0");
    let next = header("next", "0");
    input.extend_from_slice(&next);
    let (rest, entry) = parse_entry(&input).expect("an entry");
    assert_eq!(entry.header.identifier, b"empty");
    assert_eq!(entry.header.size, 0);
    assert_eq!(entry.data, b"");
    assert_eq!(rest, &next[..]);
}

#[test]
fn entry_may_end_the_input() {
    let mut input = header("baz.txt", "4");
    input.extend_from_slice(b"baz\n");
    let (rest, entry) = parse_entry(&input).expect("an entry");
    assert_eq!(entry.data, b"baz\n");
    assert_eq!(rest, b"");
}

#[test]
fn entry_with_too_short_a_payload_is_rejected() {
    let mut input = header("foo.txt", "7");
    input.extend_from_slice(b"foobar");
    assert_eq!(parse_entry(&input), Err(error(ParseErrorKind::TruncatedPayload, 60)));
    let input = header("foo.txt", "1");
    assert_eq!(parse_entry(&input), Err(error(ParseErrorKind::TruncatedPayload, 60)));
    let input = header("big", "9999999999");
    assert_eq!(parse_entry(&input), Err(error(ParseErrorKind::TruncatedPayload, 60)));
}

#[test]
fn entry_fails_as_its_header_fails() {
    assert_eq!(parse_entry(b"foo.txt"), Err(error(ParseErrorKind::TruncatedHeader, 0)));
    let input = header("foo.txt", "seven");
    assert_eq!(parse_entry(&input), Err(error(ParseErrorKind::InvalidNumericField, 48)));
    let mut input = header("foo.txt", "0");
    input[59] = b'\r';
    assert_eq!(parse_entry(&input), Err(error(ParseErrorKind::MissingTerminator, 58)));
}
