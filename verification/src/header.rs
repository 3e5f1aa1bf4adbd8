//! The header of an LSP message: lines of the form `name: value`, of which
//! `Content-Length` gives the length of the body.
use vstd::prelude::*;

use crate::bytes;
use crate::error::RelayError;

verus! {

/// What the lines of a header say: the length of the body, once it has been
/// given, and every other line as it stands.
pub struct HeaderFields {
    pub content_length: Option<usize>,
    pub additional_headers: Seq<Seq<u8>>,
}

impl HeaderFields {
    pub open spec fn none() -> HeaderFields {
        HeaderFields { content_length: None, additional_headers: Seq::empty() }
    }
}

/// A header that has been read.
#[derive(Debug)]
pub struct ParsedHeader {
    pub content_length: usize,
    pub additional_headers: Vec<Vec<u8>>,
}

impl ParsedHeader {
    pub open spec fn fields(self) -> HeaderFields {
        HeaderFields {
            content_length: Some(self.content_length),
            additional_headers: contents(self.additional_headers@),
        }
    }
}

/// The bytes of each of several byte strings.
pub open spec fn contents(strings: Seq<Vec<u8>>) -> Seq<Seq<u8>> {
    Seq::new(strings.len(), |i: int| strings[i]@)
}

/// The name of the header field that gives the length of the body.
pub open spec fn content_length_name() -> Seq<u8> {
    bytes::ascii("Content-Length"@)
}

/// The number that the value of a `Content-Length` field stands for.
pub open spec fn length_of_value(value: Seq<u8>) -> Result<usize, RelayError> {
    if !vstd::utf8::valid_utf8(value) {
        Err(RelayError::NonUtf8ContentLength)
    } else if value.len() == 0 || !bytes::all_digits(value) {
        Err(RelayError::NonDecimalContentLength)
    } else if bytes::decimal_value(value) > usize::MAX {
        Err(RelayError::ContentLengthOutOfRange)
    } else {
        Ok(bytes::decimal_value(value) as usize)
    }
}

/// What a header says once the line `name: value`, with its colon at `colon`,
/// has been added to it.
pub open spec fn add_field(fields: HeaderFields, line: Seq<u8>, colon: int) -> Result<
    HeaderFields,
    RelayError,
> {
    let name = bytes::trimmed(line.take(colon));
    let value = bytes::trimmed(line.skip(colon + 1));
    if name.len() == 0 {
        Err(RelayError::EmptyName)
    } else if !bytes::same_ignoring_case(name, content_length_name()) {
        Ok(HeaderFields { additional_headers: fields.additional_headers.push(line), ..fields })
    } else if fields.content_length is Some {
        Err(RelayError::DuplicateContentLength)
    } else {
        match length_of_value(value) {
            Ok(length) => Ok(HeaderFields { content_length: Some(length), ..fields }),
            Err(error) => Err(error),
        }
    }
}

/// What a header says once a line that is not empty has been added to it.
pub open spec fn add_line(fields: HeaderFields, line: Seq<u8>) -> Result<
    HeaderFields,
    RelayError,
> {
    if line.contains(0x0d) || line.contains(0x0a) {
        Err(RelayError::BareLineBreak)
    } else if !line.contains(0x3a) {
        Err(RelayError::MissingColon)
    } else {
        add_field(fields, line, choose|colon: int| bytes::first_at(line, 0x3a, colon))
    }
}

/// What several lines say, one after the other.
pub open spec fn fields_of_lines(lines: Seq<Seq<u8>>) -> Result<HeaderFields, RelayError>
    decreases lines.len(),
{
    if lines.len() == 0 {
        Ok(HeaderFields::none())
    } else {
        match fields_of_lines(lines.drop_last()) {
            Ok(fields) => if lines.last().len() == 0 {
                Err(RelayError::EmptyLine)
            } else {
                add_line(fields, lines.last())
            },
            Err(error) => Err(error),
        }
    }
}

/// The lines of a header, which line breaks separate.
pub open spec fn lines(header: Seq<u8>) -> Seq<Seq<u8>>
    decreases header.len(),
{
    if exists|i: int| bytes::first_crlf_at(header, i) {
        let i = choose|i: int| bytes::first_crlf_at(header, i);
        seq![header.take(i)] + lines(header.skip(i + 2))
    } else {
        seq![header]
    }
}

/// What a header says, or why it is refused.
pub open spec fn fields_of_header(header: Seq<u8>) -> Result<HeaderFields, RelayError> {
    if header.len() == 0 {
        Err(RelayError::EmptyHeader)
    } else {
        match fields_of_lines(lines(header)) {
            Ok(fields) => if fields.content_length is None {
                Err(RelayError::MissingContentLength)
            } else {
                Ok(fields)
            },
            Err(error) => Err(error),
        }
    }
}

/// The first refused line decides, whatever follows it.
pub proof fn lemma_refused_prefix(first: Seq<Seq<u8>>, rest: Seq<Seq<u8>>)
    requires
        fields_of_lines(first) is Err,
    ensures
        fields_of_lines(first + rest) == fields_of_lines(first),
    decreases rest.len(),
{
    if rest.len() == 0 {
        assert(first + rest =~= first);
    } else {
        lemma_refused_prefix(first, rest.drop_last());
        assert((first + rest).drop_last() =~= first + rest.drop_last());
    }
}

/// `std::str::from_utf8` succeeds on the bytes that are UTF-8, and on no others.
#[verifier::external_body]
fn is_utf8(value: &[u8]) -> (valid: bool)
    ensures
        valid == vstd::utf8::valid_utf8(value@),
{
    std::str::from_utf8(value).is_ok()
}

/// Reads the value of a `Content-Length` field.
pub fn parse_content_length(value: &[u8]) -> (length: Result<usize, RelayError>)
    ensures
        length == length_of_value(value@),
{
    if !is_utf8(value) {
        return Err(RelayError::NonUtf8ContentLength);
    }
    if value.is_empty() || !bytes::is_decimal(value) {
        return Err(RelayError::NonDecimalContentLength);
    }
    match bytes::parse_decimal(value) {
        Some(length) => Ok(length),
        None => Err(RelayError::ContentLengthOutOfRange),
    }
}

/// Reads one line of a header.
///
/// A `Content-Length` field sets the length, which must not have been set
/// before; any other line is kept as it stands.
pub fn parse_lsp_header_line(
    line: &[u8],
    content_length: &mut Option<usize>,
    additional_headers: &mut Vec<Vec<u8>>,
) -> (result: Result<(), RelayError>)
    ensures
        match add_line(
            HeaderFields {
                content_length: *old(content_length),
                additional_headers: contents(old(additional_headers)@),
            },
            line@,
        ) {
            Ok(fields) => result is Ok && fields.content_length == *final(content_length)
                && fields.additional_headers == contents(final(additional_headers)@),
            Err(error) => result == Err::<(), RelayError>(error) && *final(content_length) == *old(
                content_length,
            ) && final(additional_headers)@ == old(additional_headers)@,
        },
{
    if bytes::find_byte(line, 0x0d).is_some() || bytes::find_byte(line, 0x0a).is_some() {
        return Err(RelayError::BareLineBreak);
    }
    let colon = match bytes::find_byte(line, 0x3a) {
        Some(position) => position,
        None => return Err(RelayError::MissingColon),
    };
    assert(colon < line.len());
    assert(line@.contains(0x3a));
    assert(forall|c: int| bytes::first_at(line@, 0x3a, c) ==> c == colon);
    let name = bytes::trim_ascii_whitespace(vstd::slice::slice_subrange(line, 0, colon));
    let value = bytes::trim_ascii_whitespace(
        vstd::slice::slice_subrange(line, colon + 1, line.len()),
    );
    assert(line@.subrange(0, colon as int) =~= line@.take(colon as int));
    assert(line@.subrange(colon + 1, line@.len() as int) =~= line@.skip(colon + 1));
    if name.is_empty() {
        return Err(RelayError::EmptyName);
    }
    proof {
        reveal_strlit("Content-Length");
    }
    if bytes::eq_ignore_ascii_case(name, bytes::ascii_bytes("Content-Length")) {
        if content_length.is_some() {
            return Err(RelayError::DuplicateContentLength);
        }
        match parse_content_length(value) {
            Ok(length) => {
                *content_length = Some(length);
            },
            Err(error) => return Err(error),
        }
    } else {
        additional_headers.push(vstd::slice::slice_to_vec(line));
        assert(contents(additional_headers@) =~= contents(old(additional_headers)@).push(line@));
    }
    Ok(())
}

/// Reads a header, without the empty line that ends it.
pub fn parse_lsp_header(header: &[u8]) -> (result: Result<ParsedHeader, RelayError>)
    ensures
        match fields_of_header(header@) {
            Ok(fields) => result is Ok && result->Ok_0.fields() == fields,
            Err(error) => result is Err && result->Err_0 == error,
        },
{
    if header.is_empty() {
        return Err(RelayError::EmptyHeader);
    }
    let mut content_length: Option<usize> = None;
    let mut additional_headers: Vec<Vec<u8>> = Vec::new();
    let mut start: usize = 0;
    let mut at_end: bool = false;
    let ghost mut read: Seq<Seq<u8>> = Seq::empty();
    assert(contents(additional_headers@) =~= Seq::<Seq<u8>>::empty());
    assert(read + lines(header@.skip(0)) =~= lines(header@)) by {
        assert(header@.skip(0) =~= header@);
    }
    while !at_end
        invariant
            start <= header.len(),
            !at_end ==> lines(header@) == read + lines(header@.skip(start as int)),
            at_end ==> lines(header@) == read,
            fields_of_lines(read) == Ok::<HeaderFields, RelayError>(
                HeaderFields {
                    content_length,
                    additional_headers: contents(additional_headers@),
                },
            ),
            header@.len() > 0,
        decreases header.len() - start, (if at_end { 0int } else { 1int }),
    {
        let remaining = vstd::slice::slice_subrange(header, start, header.len());
        assert(remaining@ =~= header@.skip(start as int));
        let found = bytes::find_crlf(remaining);
        let length = match found {
            Some(position) => position,
            None => remaining.len(),
        };
        let line = vstd::slice::slice_subrange(remaining, 0, length);
        let ghost line_seq = line@;
        proof {
            if found is Some {
                assert(bytes::first_crlf_at(remaining@, length as int));
                assert(forall|i: int| bytes::first_crlf_at(remaining@, i) ==> i == length);
                assert(line_seq =~= remaining@.take(length as int));
                assert(remaining@.skip(length + 2) =~= header@.skip(start + length + 2));
                assert(lines(header@) =~= read.push(line_seq) + lines(
                    header@.skip(start + length + 2),
                ));
            } else {
                assert(line_seq =~= remaining@);
                assert(lines(header@) =~= read.push(line_seq) + Seq::<Seq<u8>>::empty());
            }
            assert(read.push(line_seq).drop_last() =~= read);
        }
        let ghost after: Seq<Seq<u8>> = if found is Some {
            lines(header@.skip(start + length + 2))
        } else {
            Seq::empty()
        };
        if line.is_empty() {
            proof {
                lemma_refused_prefix(read.push(line_seq), after);
            }
            return Err(RelayError::EmptyLine);
        }
        match parse_lsp_header_line(line, &mut content_length, &mut additional_headers) {
            Ok(()) => {},
            Err(error) => {
                proof {
                    lemma_refused_prefix(read.push(line_seq), after);
                }
                return Err(error);
            },
        }
        proof {
            read = read.push(line_seq);
        }
        if found.is_some() {
            start = start + length + 2;
        } else {
            at_end = true;
        }
    }
    match content_length {
        Some(length) => Ok(ParsedHeader { content_length: length, additional_headers }),
        None => Err(RelayError::MissingContentLength),
    }
}

} // verus!
