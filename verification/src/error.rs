//! Why a stream of LSP messages cannot be relayed.
use vstd::prelude::*;
use vstd::string::*;

use crate::bytes;
use crate::text;

verus! {

/// The greatest length of a header, its final empty line counted.
pub const MAX_LSP_HEADER_SIZE: usize = 65536;

/// The greatest length of a body.
pub const MAX_LSP_BODY_SIZE: usize = 268435456;

/// What a failure says about the stream.
#[derive(Clone, Copy, Debug, PartialEq, Eq, Structural)]
pub enum ErrorKind {
    /// The stream holds something that is no LSP message.
    InvalidData,
    /// The stream ended inside a message.
    UnexpectedEof,
}

/// A violation of the framing of LSP messages.
#[derive(Clone, Copy, Debug, PartialEq, Eq, Structural)]
pub enum RelayError {
    TruncatedHeader,
    HeaderTooLong,
    EmptyHeader,
    EmptyLine,
    BareLineBreak,
    MissingColon,
    EmptyName,
    DuplicateContentLength,
    NonUtf8ContentLength,
    NonDecimalContentLength,
    ContentLengthOutOfRange,
    MissingContentLength,
    BodyTooLong { length: usize },
    TruncatedBody { expected: usize },
}

impl RelayError {
    pub open spec fn kind_spec(self) -> ErrorKind {
        match self {
            RelayError::TruncatedHeader => ErrorKind::UnexpectedEof,
            RelayError::TruncatedBody { .. } => ErrorKind::UnexpectedEof,
            _ => ErrorKind::InvalidData,
        }
    }

    /// The text that describes the failure.
    pub open spec fn message_spec(self) -> Seq<char> {
        match self {
            RelayError::TruncatedHeader => "LSP stream ended in the middle of a header"@,
            RelayError::HeaderTooLong => "LSP header exceeds the maximum of "@ + text::decimal_chars(
                MAX_LSP_HEADER_SIZE as nat,
            ) + " bytes"@,
            RelayError::EmptyHeader => "empty LSP header"@,
            RelayError::EmptyLine => "unexpected empty line inside LSP header"@,
            RelayError::BareLineBreak => "LSP header lines must be separated by CRLF"@,
            RelayError::MissingColon => "LSP header line has no colon"@,
            RelayError::EmptyName => "LSP header name is empty"@,
            RelayError::DuplicateContentLength => "duplicate Content-Length header"@,
            RelayError::NonUtf8ContentLength => "Content-Length contains non-UTF-8 bytes"@,
            RelayError::NonDecimalContentLength => "Content-Length is not a decimal integer"@,
            RelayError::ContentLengthOutOfRange => "Content-Length is out of range"@,
            RelayError::MissingContentLength => "missing Content-Length header"@,
            RelayError::BodyTooLong { length } => "LSP body length "@ + text::decimal_chars(
                length as nat,
            ) + " exceeds the maximum of "@ + text::decimal_chars(MAX_LSP_BODY_SIZE as nat) + " bytes"@,
            RelayError::TruncatedBody { expected } => "LSP body was truncated: expected "@
                + text::decimal_chars(expected as nat) + " bytes"@,
        }
    }

    /// Whether the stream was wrong or ended too early.
    pub fn kind(self) -> (kind: ErrorKind)
        ensures
            kind == self.kind_spec(),
    {
        match self {
            RelayError::TruncatedHeader => ErrorKind::UnexpectedEof,
            RelayError::TruncatedBody { .. } => ErrorKind::UnexpectedEof,
            _ => ErrorKind::InvalidData,
        }
    }

    /// Describes the failure.
    pub fn message(self) -> (message: String)
        ensures
            message@ == self.message_spec(),
    {
        match self {
            RelayError::TruncatedHeader => "LSP stream ended in the middle of a header".to_owned(),
            RelayError::HeaderTooLong => {
                let mut message = "LSP header exceeds the maximum of ".to_owned();
                text::append_decimal(&mut message, MAX_LSP_HEADER_SIZE);
                message.append(" bytes");
                message
            },
            RelayError::EmptyHeader => "empty LSP header".to_owned(),
            RelayError::EmptyLine => "unexpected empty line inside LSP header".to_owned(),
            RelayError::BareLineBreak => "LSP header lines must be separated by CRLF".to_owned(),
            RelayError::MissingColon => "LSP header line has no colon".to_owned(),
            RelayError::EmptyName => "LSP header name is empty".to_owned(),
            RelayError::DuplicateContentLength => "duplicate Content-Length header".to_owned(),
            RelayError::NonUtf8ContentLength => {
                "Content-Length contains non-UTF-8 bytes".to_owned()
            },
            RelayError::NonDecimalContentLength => {
                "Content-Length is not a decimal integer".to_owned()
            },
            RelayError::ContentLengthOutOfRange => "Content-Length is out of range".to_owned(),
            RelayError::MissingContentLength => "missing Content-Length header".to_owned(),
            RelayError::BodyTooLong { length } => {
                let mut message = "LSP body length ".to_owned();
                text::append_decimal(&mut message, length);
                message.append(" exceeds the maximum of ");
                text::append_decimal(&mut message, MAX_LSP_BODY_SIZE);
                message.append(" bytes");
                message
            },
            RelayError::TruncatedBody { expected } => {
                let mut message = "LSP body was truncated: expected ".to_owned();
                text::append_decimal(&mut message, expected);
                message.append(" bytes");
                message
            },
        }
    }
}

/// A stream that ends too early is told apart from one that is wrong, and the
/// numbers in a complaint are those of the stream and of the limits.
pub proof fn complaints_say_what_is_wrong(error: RelayError)
    ensures
        error.kind_spec() == ErrorKind::UnexpectedEof <==> (error is TruncatedHeader
            || error is TruncatedBody),
        error.kind_spec() == ErrorKind::InvalidData <==> !(error is TruncatedHeader
            || error is TruncatedBody),
        error.message_spec() == (match error {
            RelayError::TruncatedHeader => "LSP stream ended in the middle of a header"@,
            RelayError::HeaderTooLong => "LSP header exceeds the maximum of 65536 bytes"@,
            RelayError::EmptyHeader => "empty LSP header"@,
            RelayError::EmptyLine => "unexpected empty line inside LSP header"@,
            RelayError::BareLineBreak => "LSP header lines must be separated by CRLF"@,
            RelayError::MissingColon => "LSP header line has no colon"@,
            RelayError::EmptyName => "LSP header name is empty"@,
            RelayError::DuplicateContentLength => "duplicate Content-Length header"@,
            RelayError::NonUtf8ContentLength => "Content-Length contains non-UTF-8 bytes"@,
            RelayError::NonDecimalContentLength => "Content-Length is not a decimal integer"@,
            RelayError::ContentLengthOutOfRange => "Content-Length is out of range"@,
            RelayError::MissingContentLength => "missing Content-Length header"@,
            RelayError::BodyTooLong { length } => "LSP body length "@ + text::decimal_chars(
                length as nat,
            ) + " exceeds the maximum of 268435456 bytes"@,
            RelayError::TruncatedBody { expected } => "LSP body was truncated: expected "@
                + text::decimal_chars(expected as nat) + " bytes"@,
        }),
{
    reveal_with_fuel(bytes::decimal_text, 10);
    let header = text::decimal_chars(65536);
    let body = text::decimal_chars(268435456);
    assert(bytes::decimal_text(65536) =~= seq![0x36u8, 0x35u8, 0x35u8, 0x33u8, 0x36u8]);
    assert(bytes::decimal_text(268435456) =~= seq![
        0x32u8,
        0x36u8,
        0x38u8,
        0x34u8,
        0x33u8,
        0x35u8,
        0x34u8,
        0x35u8,
        0x36u8,
    ]);
    reveal_strlit("LSP header exceeds the maximum of ");
    reveal_strlit(" bytes");
    reveal_strlit("LSP header exceeds the maximum of 65536 bytes");
    reveal_strlit(" exceeds the maximum of ");
    reveal_strlit(" exceeds the maximum of 268435456 bytes");
    assert("LSP header exceeds the maximum of "@ + header + " bytes"@
        =~= "LSP header exceeds the maximum of 65536 bytes"@);
    assert(" exceeds the maximum of "@ + body + " bytes"@
        =~= " exceeds the maximum of 268435456 bytes"@);
    if let RelayError::BodyTooLong { length } = error {
        assert(error.message_spec() =~= "LSP body length "@ + text::decimal_chars(length as nat) + (
        " exceeds the maximum of "@ + body + " bytes"@));
    }
}

} // verus!
