use arparse::{parse_entry_header, parser, ParseError, ParseErrorKind};

#[test]
fn error_at_the_start_has_offset_zero() {
    let e = ParseError::at_start(ParseErrorKind::MissingTerminator);
    assert_eq!(e.kind, ParseErrorKind::MissingTerminator);
    assert_eq!(e.offset, 0);
}

#[test]
fn shifting_adds_to_the_offset_and_keeps_the_kind() {
    let e = ParseError { kind: ParseErrorKind::InvalidNumericField, offset: 16 };
    assert_eq!(e.shifted(76), ParseError { kind: ParseErrorKind::InvalidNumericField, offset: 92 });
    assert_eq!(e.shifted(0), e);
    assert_eq!(
        ParseError::at_start(ParseErrorKind::TruncatedPayload).shifted(usize::MAX).offset,
        usize::MAX
    );
}

#[test]
fn offset_in_an_archive_is_the_offset_in_the_header_past_what_precedes_it() {
    let header = b"foo.txt         1487552916  501   20    10064x  7         `\n";
    let in_header = parse_entry_header(header).expect_err("a bad mode");
    let mut archive = b"!<arch>\n".to_vec();
    archive.extend_from_slice(header);
    let in_archive = parser(&archive).expect_err("a bad mode");
    assert_eq!(in_header, ParseError { kind: ParseErrorKind::InvalidNumericField, offset: 40 });
    assert_eq!(in_archive, in_header.shifted(8));
}

#[test]
fn every_kind_of_error_is_told_apart() {
    let kinds = [
        ParseErrorKind::MalformedSignature,
        ParseErrorKind::TruncatedHeader,
        ParseErrorKind::InvalidNumericField,
        ParseErrorKind::MissingTerminator,
        ParseErrorKind::TruncatedPayload,
        ParseErrorKind::TrailingGarbage,
    ];
    for (i, a) in kinds.iter().enumerate() {
        for (j, b) in kinds.iter().enumerate() {
            assert_eq!(a == b, i == j);
        }
    }
}
