use tool4d_lsp_stdio::error::{ErrorKind, RelayError, MAX_LSP_BODY_SIZE, MAX_LSP_HEADER_SIZE};
use tool4d_lsp_stdio::relay::normalize_lsp_stream;

fn failure(input: &[u8]) -> RelayError {
    let mut output = Vec::new();

    normalize_lsp_stream(&[input.to_vec()], &mut output).expect_err("the stream must be refused")
}

fn check(input: &[u8], error: RelayError, kind: ErrorKind, message: &str) {
    let found = failure(input);

    assert_eq!(found, error);
    assert_eq!(found.kind(), kind);
    assert_eq!(found.message(), message);
}

#[test]
fn the_limits_are_powers_of_two() {
    assert_eq!(MAX_LSP_HEADER_SIZE, 64 * 1024);
    assert_eq!(MAX_LSP_BODY_SIZE, 256 * 1024 * 1024);
}

#[test]
fn a_stream_that_ends_in_a_header_is_truncated() {
    check(
        b"Content-Length: 2\r\n\r",
        RelayError::TruncatedHeader,
        ErrorKind::UnexpectedEof,
        "LSP stream ended in the middle of a header",
    );
}

#[test]
fn a_header_without_end_is_too_long() {
    let mut input = b"X: ".to_vec();
    input.resize(MAX_LSP_HEADER_SIZE + 1, b'x');

    check(
        &input,
        RelayError::HeaderTooLong,
        ErrorKind::InvalidData,
        "LSP header exceeds the maximum of 65536 bytes",
    );
}

#[test]
fn a_header_of_the_greatest_length_is_read() {
    let mut input = b"Content-Length: 1\r\nX: ".to_vec();
    input.resize(MAX_LSP_HEADER_SIZE - 4, b'x');
    input.extend_from_slice(b"\r\n\r\n!");

    let mut output = Vec::new();
    assert_eq!(normalize_lsp_stream(&[input.clone()], &mut output), Ok(()));
    assert_eq!(output, input);

    let mut longer = b"Content-Length: 1\r\nX: ".to_vec();
    longer.resize(MAX_LSP_HEADER_SIZE - 3, b'x');
    longer.extend_from_slice(b"\r\n\r\n!");

    assert_eq!(failure(&longer), RelayError::HeaderTooLong);
}

#[test]
fn a_canonical_header_may_be_too_long_to_be_read_again() {
    let mut input = b"Content-Length:1\r\nX: ".to_vec();
    input.resize(MAX_LSP_HEADER_SIZE - 4, b'x');
    input.extend_from_slice(b"\r\n\r\n!");

    let mut output = Vec::new();
    assert_eq!(normalize_lsp_stream(&[input], &mut output), Ok(()));
    assert_eq!(failure(&output), RelayError::HeaderTooLong);
}

#[test]
fn an_empty_header_is_refused() {
    check(
        b"\r\n\r\n",
        RelayError::EmptyHeader,
        ErrorKind::InvalidData,
        "empty LSP header",
    );
}

#[test]
fn an_empty_line_inside_a_header_is_refused() {
    check(
        b"\r\nContent-Length: 2\r\n\r\n{}",
        RelayError::EmptyLine,
        ErrorKind::InvalidData,
        "unexpected empty line inside LSP header",
    );
}

#[test]
fn a_bare_line_break_is_refused() {
    for input in [
        &b"Content-Length: 2\nX: y\r\n\r\n{}"[..],
        &b"Content-Length: 2\rX: y\r\n\r\n{}"[..],
    ] {
        check(
            input,
            RelayError::BareLineBreak,
            ErrorKind::InvalidData,
            "LSP header lines must be separated by CRLF",
        );
    }
}

#[test]
fn a_line_without_colon_is_refused() {
    check(
        b"Content-Length 2\r\n\r\n{}",
        RelayError::MissingColon,
        ErrorKind::InvalidData,
        "LSP header line has no colon",
    );
}

#[test]
fn a_line_without_name_is_refused() {
    check(
        b" \t: 2\r\n\r\n{}",
        RelayError::EmptyName,
        ErrorKind::InvalidData,
        "LSP header name is empty",
    );
}

#[test]
fn a_second_content_length_is_refused_before_it_is_read() {
    check(
        b"Content-Length: 2\r\ncontent-length: x\r\n\r\n{}",
        RelayError::DuplicateContentLength,
        ErrorKind::InvalidData,
        "duplicate Content-Length header",
    );
}

#[test]
fn a_content_length_that_is_no_utf8_is_refused() {
    check(
        b"Content-Length: \xff\r\n\r\n{}",
        RelayError::NonUtf8ContentLength,
        ErrorKind::InvalidData,
        "Content-Length contains non-UTF-8 bytes",
    );
}

#[test]
fn a_content_length_that_is_no_number_is_refused() {
    for input in [
        &b"Content-Length: +2\r\n\r\n{}"[..],
        &b"Content-Length:\r\n\r\n{}"[..],
        &b"Content-Length: 2 2\r\n\r\n{}"[..],
        "Content-Length: \u{662}\r\n\r\n{}".as_bytes(),
    ] {
        check(
            input,
            RelayError::NonDecimalContentLength,
            ErrorKind::InvalidData,
            "Content-Length is not a decimal integer",
        );
    }
}

#[test]
fn a_content_length_beyond_the_machine_is_out_of_range() {
    check(
        b"Content-Length: 18446744073709551616\r\n\r\n{}",
        RelayError::ContentLengthOutOfRange,
        ErrorKind::InvalidData,
        "Content-Length is out of range",
    );
}

#[test]
fn leading_zeros_do_not_put_a_number_out_of_range() {
    let mut output = Vec::new();

    let input = b"Content-Length: 000000000000000000000000000002\r\n\r\n{}".to_vec();

    assert_eq!(normalize_lsp_stream(&[input], &mut output), Ok(()));
    assert_eq!(output, b"Content-Length: 2\r\n\r\n{}");
}

#[test]
fn a_header_without_content_length_is_refused() {
    check(
        b"X: y\r\n\r\n",
        RelayError::MissingContentLength,
        ErrorKind::InvalidData,
        "missing Content-Length header",
    );
}

#[test]
fn a_body_beyond_the_limit_is_refused_by_its_header() {
    check(
        b"Content-Length: 268435457\r\n\r\n",
        RelayError::BodyTooLong { length: 268435457 },
        ErrorKind::InvalidData,
        "LSP body length 268435457 exceeds the maximum of 268435456 bytes",
    );
}

#[test]
fn a_stream_that_ends_in_a_body_is_truncated() {
    check(
        b"Content-Length: 1024\r\n\r\n{}",
        RelayError::TruncatedBody { expected: 1024 },
        ErrorKind::UnexpectedEof,
        "LSP body was truncated: expected 1024 bytes",
    );
}

#[test]
fn a_body_of_the_greatest_length_only_lacks_its_bytes() {
    assert_eq!(
        failure(b"Content-Length: 268435456\r\n\r\n"),
        RelayError::TruncatedBody {
            expected: 268435456
        }
    );
}
