//! What is written is read back, and what is read can be written.
use vstd::prelude::*;

use crate::bytes;
use crate::error::{RelayError, MAX_LSP_BODY_SIZE, MAX_LSP_HEADER_SIZE};
use crate::frame;
use crate::frame::Frame;
use crate::header;
use crate::header::HeaderFields;

verus! {

/// A line that a header may hold besides `Content-Length`.
pub open spec fn is_additional_header(line: Seq<u8>) -> bool {
    &&& line.len() > 0
    &&& !line.contains(0x0d)
    &&& !line.contains(0x0a)
    &&& exists|colon: int|
        bytes::first_at(line, 0x3a, colon) && bytes::trimmed(line.take(colon)).len() > 0
            && !bytes::same_ignoring_case(
            bytes::trimmed(line.take(colon)),
            header::content_length_name(),
        )
}

/// The lines of a message's header and its body are such as a message can have.
pub open spec fn is_message(frame: Frame) -> bool {
    &&& frame.body.len() <= MAX_LSP_BODY_SIZE
    &&& forall|i: int|
        0 <= i < frame.additional_headers.len() ==> is_additional_header(
            #[trigger] frame.additional_headers[i],
        )
}

/// The header of a message is short enough to be read, once it is written in
/// its canonical form.
pub open spec fn fits(frame: Frame) -> bool {
    frame::header_text(frame).len() + 4 <= MAX_LSP_HEADER_SIZE
}

proof fn lemma_trim_start_keeps(s: Seq<u8>)
    requires
        s.len() > 0,
        !bytes::is_space(s[0]),
    ensures
        bytes::trim_start(s) == s,
{
}

proof fn lemma_trim_end_keeps(s: Seq<u8>)
    requires
        s.len() > 0,
        !bytes::is_space(s.last()),
    ensures
        bytes::trim_end(s) == s,
{
}

/// Digits are ASCII, hence UTF-8.
pub proof fn lemma_digits_are_utf8(s: Seq<u8>)
    requires
        bytes::all_digits(s),
    ensures
        vstd::utf8::valid_utf8(s),
{
    let chars = Seq::new(s.len(), |i: int| s[i] as char);
    assert forall|i: int| 0 <= i < chars.len() implies 0 <= #[trigger] chars[i] as u32 <= 0x7f by {
        assert(bytes::is_digit(s[i]));
    }
    vstd::utf8::is_ascii_chars_encode_utf8(chars);
    assert(vstd::utf8::encode_utf8(chars) =~= s) by {
        assert forall|i: int| 0 <= i < s.len() implies vstd::utf8::encode_utf8(chars)[i] == s[i] by {
            assert(bytes::is_digit(s[i]));
        }
    }
    vstd::utf8::encode_utf8_valid_utf8(chars);
}

/// The canonical `Content-Length` line gives the length.
proof fn lemma_length_line(length: usize)
    ensures
        frame::length_line(length as nat).len() > 0,
        !frame::length_line(length as nat).contains(0x0d),
        !frame::length_line(length as nat).contains(0x0a),
        header::add_line(HeaderFields::none(), frame::length_line(length as nat)) == Ok::<
            HeaderFields,
            RelayError,
        >(
            HeaderFields { content_length: Some(length), additional_headers: Seq::empty() },
        ),
{
    let line = frame::length_line(length as nat);
    let digits = bytes::decimal_text(length as nat);
    bytes::decimal_round_trip(length as nat);
    reveal_strlit("Content-Length: ");
    reveal_strlit("Content-Length");
    let prefix = bytes::ascii("Content-Length: "@);
    assert forall|i: int| 0 <= i < line.len() implies line[i] != 0x0d && line[i] != 0x0a by {
        if i >= 16 {
            assert(line[i] == digits[i - 16]);
            assert(bytes::is_digit(digits[i - 16]));
        }
    }
    assert(bytes::first_at(line, 0x3a, 14));
    assert(line.contains(0x3a));
    assert(forall|c: int| bytes::first_at(line, 0x3a, c) ==> c == 14);
    let name = line.take(14);
    assert(name =~= header::content_length_name());
    lemma_trim_start_keeps(name);
    lemma_trim_end_keeps(name);
    let value = line.skip(15);
    assert(value =~= seq![0x20u8] + digits);
    assert(value.drop_first() =~= digits);
    assert(bytes::is_digit(digits[0]));
    assert(bytes::is_digit(digits[digits.len() - 1]));
    lemma_trim_start_keeps(digits);
    lemma_trim_end_keeps(digits);
    assert(bytes::trimmed(value) == digits);
    lemma_digits_are_utf8(digits);
}

/// An additional line is kept as it stands.
proof fn lemma_additional_line(fields: HeaderFields, line: Seq<u8>)
    requires
        is_additional_header(line),
    ensures
        header::add_line(fields, line) == Ok::<HeaderFields, RelayError>(
            HeaderFields { additional_headers: fields.additional_headers.push(line), ..fields },
        ),
{
    let colon = choose|colon: int|
        bytes::first_at(line, 0x3a, colon) && bytes::trimmed(line.take(colon)).len() > 0
            && !bytes::same_ignoring_case(
            bytes::trimmed(line.take(colon)),
            header::content_length_name(),
        );
    assert(bytes::first_at(line, 0x3a, colon));
    assert(line[colon] == 0x3a);
    assert(forall|c: int| bytes::first_at(line, 0x3a, c) ==> c == colon);
}

/// Lines without line breaks are found again in what joins them.
proof fn lemma_lines_of_joined(lines: Seq<Seq<u8>>)
    requires
        lines.len() > 0,
        forall|i: int| 0 <= i < lines.len() ==> !(#[trigger] lines[i]).contains(0x0d),
    ensures
        header::lines(frame::joined(lines)) == lines,
    decreases lines.len(),
{
    let s = frame::joined(lines);
    let first = lines[0];
    assert(!first.contains(0x0d));
    if lines.len() == 1 {
        assert forall|i: int| !bytes::crlf_at(s, i) by {
            if bytes::crlf_at(s, i) {
                assert(first.contains(first[i]));
            }
        }
        assert(header::lines(s) =~= lines);
    } else {
        let rest = lines.drop_first();
        assert forall|i: int| 0 <= i < rest.len() implies !(#[trigger] rest[i]).contains(0x0d) by {
            assert(rest[i] == lines[i + 1]);
        }
        lemma_lines_of_joined(rest);
        let n = first.len() as int;
        assert(s == first + bytes::crlf() + frame::joined(rest));
        assert forall|i: int| i < n implies !bytes::crlf_at(s, i) by {
            if bytes::crlf_at(s, i) {
                assert(s[i] == first[i]);
                assert(first.contains(first[i]));
            }
        }
        assert(s[n] == 0x0d && s[n + 1] == 0x0a);
        assert(bytes::first_crlf_at(s, n));
        assert(forall|i: int| bytes::first_crlf_at(s, i) ==> i == n);
        assert(s.take(n) =~= first);
        assert(s.skip(n + 2) =~= frame::joined(rest));
        assert(header::lines(s) =~= seq![first] + rest);
        assert(seq![first] + rest =~= lines);
    }
}

/// No empty line stands inside the lines of a header.
pub proof fn lemma_no_early_end(lines: Seq<Seq<u8>>, tail: Seq<u8>, k: int)
    requires
        lines.len() > 0,
        forall|i: int|
            0 <= i < lines.len() ==> (#[trigger] lines[i]).len() > 0 && !lines[i].contains(0x0d),
        k < frame::joined(lines).len(),
    ensures
        !frame::delimiter_at(frame::joined(lines) + bytes::crlf() + bytes::crlf() + tail, k),
    decreases lines.len(),
{
    let s = frame::joined(lines) + bytes::crlf() + bytes::crlf() + tail;
    let first = lines[0];
    let n = first.len() as int;
    if frame::delimiter_at(s, k) {
        if k < n {
            assert(s[k] == first[k]);
            assert(first.contains(first[k]));
        } else {
            let rest = lines.drop_first();
            assert(lines.len() > 1);
            assert forall|i: int| 0 <= i < rest.len() implies (#[trigger] rest[i]).len() > 0
                && !rest[i].contains(0x0d) by {
                assert(rest[i] == lines[i + 1]);
            }
            let r = frame::joined(rest) + bytes::crlf() + bytes::crlf() + tail;
            assert(s =~= first + bytes::crlf() + r);
            if k == n {
                assert(s[k + 2] == r[0]);
                assert(rest[0].len() > 0);
                assert(r[0] == rest[0][0]);
                assert(rest[0].contains(rest[0][0]));
            } else if k == n + 1 {
                assert(s[k] == 0x0a);
            } else {
                lemma_no_early_end(rest, tail, k - n - 2);
                assert(frame::delimiter_at(r, k - n - 2));
            }
        }
    }
}

/// The written header says what the message holds.
proof fn lemma_written_fields(message: Frame, count: int)
    requires
        is_message(message),
        0 <= count <= message.additional_headers.len(),
    ensures
        header::fields_of_lines(
            seq![frame::length_line(message.body.len())] + message.additional_headers.take(count),
        ) == Ok::<HeaderFields, RelayError>(
            HeaderFields {
                content_length: Some(message.body.len() as usize),
                additional_headers: message.additional_headers.take(count),
            },
        ),
    decreases count,
{
    let first = seq![frame::length_line(message.body.len())];
    let lines = first + message.additional_headers.take(count);
    lemma_length_line(message.body.len() as usize);
    if count == 0 {
        assert(lines =~= first);
        assert(lines.drop_last() =~= Seq::<Seq<u8>>::empty());
        assert(header::fields_of_lines(lines.drop_last()) == Ok::<HeaderFields, RelayError>(
            HeaderFields::none(),
        ));
        assert(message.additional_headers.take(0) =~= Seq::<Seq<u8>>::empty());
    } else {
        let line = message.additional_headers[count - 1];
        lemma_written_fields(message, count - 1);
        assert(lines.drop_last() =~= first + message.additional_headers.take(count - 1));
        assert(lines.last() == line);
        assert(is_additional_header(line));
        let fields = HeaderFields {
            content_length: Some(message.body.len() as usize),
            additional_headers: message.additional_headers.take(count - 1),
        };
        lemma_additional_line(fields, line);
        assert(message.additional_headers.take(count - 1).push(line)
            =~= message.additional_headers.take(count));
    }
}

/// A message that is written is read back, whatever follows it: its other
/// header lines and its body come back as they were, byte for byte.
pub proof fn written_message_is_read(message: Frame, rest: Seq<u8>)
    requires
        is_message(message),
        fits(message),
    ensures
        frame::next_frame(frame::encode(message) + rest) == (frame::NextFrame::Complete {
            frame: message,
            length: frame::encode(message).len(),
        }),
{
    let lines = seq![frame::length_line(message.body.len())] + message.additional_headers;
    lemma_length_line(message.body.len() as usize);
    assert forall|i: int| 0 <= i < lines.len() implies (#[trigger] lines[i]).len() > 0
        && !lines[i].contains(0x0d) by {
        if i > 0 {
            assert(is_additional_header(message.additional_headers[i - 1]));
        }
    }
    let text = frame::joined(lines);
    let tail = message.body + rest;
    let s = text + bytes::crlf() + bytes::crlf() + tail;
    assert(frame::encode(message) + rest =~= s);
    let end = text.len() as int;
    assert(frame::delimiter_at(s, end));
    assert forall|k: int| k < end implies !frame::delimiter_at(s, k) by {
        lemma_no_early_end(lines, tail, k);
    }
    frame::lemma_header_end(s, end);
    assert(s.take(end) =~= text);
    lemma_lines_of_joined(lines);
    lemma_written_fields(message, message.additional_headers.len() as int);
    assert(message.additional_headers.take(message.additional_headers.len() as int)
        =~= message.additional_headers);
    assert(lines.len() >= 1 && lines[0].len() > 0);
    assert(text.len() > 0);
    assert(s.subrange(end + 4, end + 4 + message.body.len()) =~= message.body);
}

/// Nothing is read from an empty stream.
pub proof fn nothing_is_read_from_nothing()
    ensures
        frame::decode(Seq::empty()) == (frame::Decoded {
            frames: Seq::empty(),
            progress: frame::Progress::Pending(Seq::empty()),
        }),
{
    let none = Seq::<u8>::empty();
    assert(!frame::has_header(none)) by {
        assert(forall|k: int| !frame::delimiter_at(none, k));
    }
}

proof fn lemma_one_message_is_read(message: Frame)
    requires
        is_message(message),
        fits(message),
    ensures
        frame::decode(frame::encode(message)) == (frame::Decoded {
            frames: seq![message],
            progress: frame::Progress::Pending(Seq::empty()),
        }),
{
    let none = Seq::<u8>::empty();
    let s = frame::encode(message);
    nothing_is_read_from_nothing();
    written_message_is_read(message, none);
    assert(s + none =~= s);
    assert(s.skip(s.len() as int) =~= none);
    assert(s.len() > 0);
    assert(seq![message] + Seq::<Frame>::empty() =~= seq![message]);
}

/// Messages that are written one after the other are read back in that order,
/// and nothing is left over.
pub proof fn written_messages_are_read(messages: Seq<Frame>)
    requires
        forall|i: int|
            0 <= i < messages.len() ==> is_message(#[trigger] messages[i]) && fits(messages[i]),
    ensures
        frame::decode(frame::encode_all(messages)) == (frame::Decoded {
            frames: messages,
            progress: frame::Progress::Pending(Seq::empty()),
        }),
    decreases messages.len(),
{
    if messages.len() == 0 {
        nothing_is_read_from_nothing();
        assert(messages =~= Seq::<Frame>::empty());
    } else {
        let before = messages.drop_last();
        let last = messages[messages.len() - 1];
        assert forall|i: int| 0 <= i < before.len() implies is_message(#[trigger] before[i])
            && fits(before[i]) by {
            assert(before[i] == messages[i]);
        }
        written_messages_are_read(before);
        frame::decode_in_pieces(frame::encode_all(before), frame::encode(last));
        assert(Seq::<u8>::empty() + frame::encode(last) =~= frame::encode(last));
        lemma_one_message_is_read(last);
        assert(before + seq![last] =~= messages);
    }
}

/// Lines that a header was read from are such as a header may hold.
proof fn lemma_read_fields(lines: Seq<Seq<u8>>)
    requires
        header::fields_of_lines(lines) is Ok,
    ensures
        ({
            let kept = header::fields_of_lines(lines)->Ok_0.additional_headers;
            forall|i: int| 0 <= i < kept.len() ==> is_additional_header(#[trigger] kept[i])
        }),
    decreases lines.len(),
{
    if lines.len() > 0 {
        lemma_read_fields(lines.drop_last());
        let line = lines.last();
        if line.contains(0x3a) {
            let at = lemma_first_at(line, 0x3a);
            assert(forall|c: int| bytes::first_at(line, 0x3a, c) ==> c == at);
        }
    }
}

proof fn lemma_first_at(s: Seq<u8>, byte: u8) -> (at: int)
    requires
        s.contains(byte),
    ensures
        bytes::first_at(s, byte, at),
    decreases s.len(),
{
    let i = choose|i: int| 0 <= i < s.len() && s[i] == byte;
    if s.take(i).contains(byte) {
        let at = lemma_first_at(s.take(i), byte);
        assert(s.take(i)[at] == s[at]);
        assert forall|j: int| 0 <= j < at implies s[j] != byte by {
            assert(s.take(i)[j] == s[j]);
        }
        at
    } else {
        assert forall|j: int| 0 <= j < i implies s[j] != byte by {
            assert(s.take(i)[j] == s[j]);
        }
        i
    }
}

/// Every message that is read from a stream is one that can be written: its
/// body is within bounds and its other header lines are well formed.
pub proof fn read_messages_are_messages(s: Seq<u8>)
    ensures
        forall|i: int|
            0 <= i < frame::decode(s).frames.len() ==> is_message(
                #[trigger] frame::decode(s).frames[i],
            ),
    decreases s.len(),
{
    if let frame::NextFrame::Complete { frame, length } = frame::next_frame(s) {
        if 0 < length <= s.len() {
            lemma_read_fields(header::lines(s.take(frame::header_end(s))));
            read_messages_are_messages(s.skip(length as int));
            let rest = frame::decode(s.skip(length as int)).frames;
            assert forall|i: int| 0 <= i < frame::decode(s).frames.len() implies is_message(
                #[trigger] frame::decode(s).frames[i],
            ) by {
                if i > 0 {
                    assert(frame::decode(s).frames[i] == rest[i - 1]);
                }
            }
        }
    }
}

} // verus!
