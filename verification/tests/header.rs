use arparse::{
    parse_entry_header, parse_entry_header_terminator, parse_gid, parse_identifier, parse_mode,
    parse_mtime, parse_size, parse_uid, EntryHeader, ParseError, ParseErrorKind,
};

const HEADER: &[u8] = b"foo.txt         1487552916  501   20    100644  7         `\n";

fn error(kind: ParseErrorKind, offset: usize) -> ParseError {
    ParseError { kind, offset }
}

fn with_field(offset: usize, field: &[u8]) -> Vec<u8> {
    let mut header = HEADER.to_vec();
    header[offset..offset + field.len()].copy_from_slice(field);
    header
}

#[test]
fn sample_header_is_sixty_bytes() {
    assert_eq!(HEADER.len(), 60);
}

#[test]
fn identifier_loses_its_trailing_spaces() {
    let (rest, identifier) = parse_identifier(b"foo.txt         ").expect("an identifier");
    assert_eq!(identifier, b"foo.txt");
    assert_eq!(rest, b"");
}

#[test]
fn identifier_of_spaces_only_is_empty() {
    let (rest, identifier) = parse_identifier(b"                ").expect("an identifier");
    assert_eq!(identifier, b"");
    assert_eq!(rest, b"");
}

#[test]
fn identifier_keeps_spaces_that_are_not_trailing() {
    let (_, identifier) = parse_identifier(b"  my file.txt   ").expect("an identifier");
    assert_eq!(identifier, b"  my file.txt");
}

#[test]
fn identifier_keeps_trailing_bytes_other_than_spaces() {
    let (_, identifier) = parse_identifier(b"name\t\n         \t ").expect("an identifier");
    assert_eq!(identifier, b"name\t\n         \t");
}

#[test]
fn identifier_may_fill_the_field() {
    let (rest, identifier) = parse_identifier(b"0123456789abcdefXYZ").expect("an identifier");
    assert_eq!(identifier, b"0123456789abcdef");
    assert_eq!(rest, b"XYZ");
}

#[test]
fn identifier_takes_sixteen_bytes() {
    let (rest, identifier) = parse_identifier(HEADER).expect("an identifier");
    assert_eq!(identifier, b"foo.txt");
    assert_eq!(rest, &HEADER[16..]);
}

#[test]
fn identifier_needs_sixteen_bytes() {
    assert_eq!(
        parse_identifier(b"foo.txt        "),
        Err(error(ParseErrorKind::TruncatedHeader, 0))
    );
    assert_eq!(parse_identifier(b""), Err(error(ParseErrorKind::TruncatedHeader, 0)));
}

#[test]
fn each_number_has_its_width_and_radix() {
    assert_eq!(parse_mtime(b"1487552916  +"), Ok((&b"+"[..], 1487552916)));
    assert_eq!(parse_uid(b"501   +"), Ok((&b"+"[..], 501)));
    assert_eq!(parse_gid(b"20    +"), Ok((&b"+"[..], 20)));
    assert_eq!(parse_mode(b"100644  +"), Ok((&b"+"[..], 0o100644)));
    assert_eq!(parse_mode(b"100644  +"), Ok((&b"+"[..], 33188)));
    assert_eq!(parse_size(b"7         +"), Ok((&b"+"[..], 7)));
}

#[test]
fn each_number_may_fill_its_field() {
    assert_eq!(parse_mtime(b"999999999999"), Ok((&b""[..], 999_999_999_999)));
    assert_eq!(parse_uid(b"999999"), Ok((&b""[..], 999_999)));
    assert_eq!(parse_gid(b"999999"), Ok((&b""[..], 999_999)));
    assert_eq!(parse_mode(b"77777777"), Ok((&b""[..], 0o77777777)));
    assert_eq!(parse_size(b"9999999999"), Ok((&b""[..], 9_999_999_999)));
}

#[test]
fn mode_is_octal_and_the_others_are_decimal() {
    assert_eq!(parse_mode(b"8       "), Err(error(ParseErrorKind::InvalidNumericField, 0)));
    assert_eq!(parse_uid(b"8     "), Ok((&b""[..], 8)));
    assert_eq!(parse_mode(b"10      "), Ok((&b""[..], 8)));
    assert_eq!(parse_gid(b"10    "), Ok((&b""[..], 10)));
}

#[test]
fn number_with_a_letter_is_rejected() {
    assert_eq!(
        parse_mtime(b"14875529X6  "),
        Err(error(ParseErrorKind::InvalidNumericField, 0))
    );
}

#[test]
fn number_needs_its_whole_field() {
    assert_eq!(parse_mtime(b"1487552916 "), Err(error(ParseErrorKind::TruncatedHeader, 0)));
    assert_eq!(parse_uid(b"501  "), Err(error(ParseErrorKind::TruncatedHeader, 0)));
    assert_eq!(parse_gid(b""), Err(error(ParseErrorKind::TruncatedHeader, 0)));
    assert_eq!(parse_mode(b"100644 "), Err(error(ParseErrorKind::TruncatedHeader, 0)));
    assert_eq!(parse_size(b"7        "), Err(error(ParseErrorKind::TruncatedHeader, 0)));
}

#[test]
fn terminator_is_recognized() {
    assert_eq!(parse_entry_header_terminator(b"`\nfoobar"), Ok((&b"foobar"[..], &b"`\n"[..])));
    assert_eq!(parse_entry_header_terminator(b"`\n"), Ok((&b""[..], &b"`\n"[..])));
}

#[test]
fn anything_else_is_no_terminator() {
    let missing = Err(error(ParseErrorKind::MissingTerminator, 0));
    assert_eq!(parse_entry_header_terminator(b"`\r\n"), missing);
    assert_eq!(parse_entry_header_terminator(b"\n`"), missing);
    assert_eq!(parse_entry_header_terminator(b"'\n"), missing);
    assert_eq!(parse_entry_header_terminator(b"`"), missing);
    assert_eq!(parse_entry_header_terminator(b""), missing);
}

#[test]
fn header_decodes_to_its_fields() {
    let (rest, header) = parse_entry_header(HEADER).expect("a header");
    assert_eq!(
        header,
        EntryHeader {
            identifier: b"foo.txt".to_vec(),
            mtime: 1487552916,
            uid: 501,
            gid: 20,
            mode: 0o100644,
            size: 7,
        }
    );
    assert_eq!(rest, b"");
}

#[test]
fn header_takes_sixty_bytes_whatever_it_holds() {
    let mut input = HEADER.to_vec();
    input.extend_from_slice(b"foobar\n\nand more");
    let (rest, _) = parse_entry_header(&input).expect("a header");
    assert_eq!(rest, b"foobar\n\nand more");

    let mut input = b"                0           0     0     0       0         `\n".to_vec();
    input.extend_from_slice(b"`\n`\n");
    let (rest, header) = parse_entry_header(&input).expect("a header");
    assert_eq!(rest, b"`\n`\n");
    assert_eq!(header.identifier, b"");
    assert_eq!(header.size, 0);

    let mut input = b"0123456789abcdef99999999999999999999999977777777999999999`\n".to_vec();
    input.insert(57, b'9');
    input.extend_from_slice(b"x");
    let (rest, header) = parse_entry_header(&input).expect("a header");
    assert_eq!(rest, b"x");
    assert_eq!(header.identifier, b"0123456789abcdef");
    assert_eq!(header.mtime, 999_999_999_999);
    assert_eq!(header.uid, 999_999);
    assert_eq!(header.gid, 999_999);
    assert_eq!(header.mode, 0o77777777);
    assert_eq!(header.size, 9_999_999_999);
}

#[test]
fn header_with_an_empty_identifier_is_accepted() {
    let input = with_field(0, b"                ");
    let (_, header) = parse_entry_header(&input).expect("a header");
    assert_eq!(header.identifier, b"");
    assert_eq!(header.mtime, 1487552916);
}

#[test]
fn header_of_fewer_than_sixty_bytes_is_truncated() {
    assert_eq!(
        parse_entry_header(&HEADER[..59]),
        Err(error(ParseErrorKind::TruncatedHeader, 0))
    );
    assert_eq!(parse_entry_header(b""), Err(error(ParseErrorKind::TruncatedHeader, 0)));
}

#[test]
fn truncation_is_reported_before_a_bad_field() {
    let input = with_field(16, b"14875529X6  ");
    assert_eq!(
        parse_entry_header(&input[..40]),
        Err(error(ParseErrorKind::TruncatedHeader, 0))
    );
}

#[test]
fn bad_mtime_is_reported_at_its_offset() {
    let input = with_field(16, b"14875529X6  ");
    assert_eq!(
        parse_entry_header(&input),
        Err(error(ParseErrorKind::InvalidNumericField, 16))
    );
}

#[test]
fn bad_uid_is_reported_at_its_offset() {
    let input = with_field(28, b"5o1   ");
    assert_eq!(
        parse_entry_header(&input),
        Err(error(ParseErrorKind::InvalidNumericField, 28))
    );
}

#[test]
fn bad_gid_is_reported_at_its_offset() {
    let input = with_field(34, b"      ");
    assert_eq!(
        parse_entry_header(&input),
        Err(error(ParseErrorKind::InvalidNumericField, 34))
    );
}

#[test]
fn bad_mode_is_reported_at_its_offset() {
    let input = with_field(40, b"100648  ");
    assert_eq!(
        parse_entry_header(&input),
        Err(error(ParseErrorKind::InvalidNumericField, 40))
    );
}

#[test]
fn bad_size_is_reported_at_its_offset() {
    let input = with_field(48, b"-7        ");
    assert_eq!(
        parse_entry_header(&input),
        Err(error(ParseErrorKind::InvalidNumericField, 48))
    );
}

#[test]
fn missing_terminator_is_reported_at_its_offset() {
    let input = with_field(58, b"\n`");
    assert_eq!(
        parse_entry_header(&input),
        Err(error(ParseErrorKind::MissingTerminator, 58))
    );
}

#[test]
fn the_first_bad_field_is_the_one_reported() {
    let mut input = with_field(34, b"twenty");
    input[58] = b'!';
    assert_eq!(
        parse_entry_header(&input),
        Err(error(ParseErrorKind::InvalidNumericField, 34))
    );
    let mut input = with_field(48, b"seven     ");
    input[16] = b'x';
    assert_eq!(
        parse_entry_header(&input),
        Err(error(ParseErrorKind::InvalidNumericField, 16))
    );
}

#[test]
fn a_number_may_not_run_into_the_next_field() {
    let input = with_field(28, b"   501");
    assert_eq!(
        parse_entry_header(&input),
        Err(error(ParseErrorKind::InvalidNumericField, 28))
    );
}
