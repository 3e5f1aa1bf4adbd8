//! LSP messages on a byte stream.
//!
//! A message is a header, an empty line, and a body whose length the header
//! gives. A stream arrives in pieces of any size, so a [`FrameReader`] takes it
//! byte by byte and hands out each message as soon as it is complete.
use vstd::prelude::*;

use crate::bytes;
use crate::error::{RelayError, MAX_LSP_BODY_SIZE, MAX_LSP_HEADER_SIZE};
use crate::header;
use crate::header::ParsedHeader;

verus! {

/// A message: the lines of its header other than `Content-Length`, and its
/// body.
pub struct Frame {
    pub additional_headers: Seq<Seq<u8>>,
    pub body: Seq<u8>,
}

/// A message that has been read.
#[derive(Debug)]
pub struct LspFrame {
    pub additional_headers: Vec<Vec<u8>>,
    pub body: Vec<u8>,
}

impl View for LspFrame {
    type V = Frame;

    open spec fn view(&self) -> Frame {
        Frame {
            additional_headers: header::contents(self.additional_headers@),
            body: self.body@,
        }
    }
}

/// A message is seen as it is: its other lines in their order, and its body.
pub proof fn a_message_is_seen_as_it_is(frame: LspFrame)
    ensures
        frame@.body == frame.body@,
        frame@.additional_headers.len() == frame.additional_headers@.len(),
        forall|i: int|
            0 <= i < frame.additional_headers@.len() ==> #[trigger] frame@.additional_headers[i]
                == frame.additional_headers@[i]@,
{
}

/// The line break and the empty line that end a header stand at position `k`.
pub open spec fn delimiter_at(s: Seq<u8>, k: int) -> bool {
    0 <= k && k + 4 <= s.len() && s[k] == 0x0d && s[k + 1] == 0x0a && s[k + 2] == 0x0d && s[k + 3]
        == 0x0a
}

/// The first header in `s` ends at position `k`.
pub open spec fn header_ends_at(s: Seq<u8>, k: int) -> bool {
    delimiter_at(s, k) && forall|j: int| j < k ==> !delimiter_at(s, j)
}

/// `s` starts with a whole header that is not too long.
pub open spec fn has_header(s: Seq<u8>) -> bool {
    exists|k: int| header_ends_at(s, k) && k + 4 <= MAX_LSP_HEADER_SIZE
}

/// Where the header at the start of `s` ends.
pub open spec fn header_end(s: Seq<u8>) -> int {
    choose|k: int| header_ends_at(s, k) && k + 4 <= MAX_LSP_HEADER_SIZE
}

/// What stands at the start of a stream.
pub enum NextFrame {
    /// The beginning of a message, or nothing.
    Incomplete,
    /// Something that no message begins with.
    Invalid(RelayError),
    /// A message, and the number of bytes that it takes up.
    Complete { frame: Frame, length: nat },
}

/// What stands at the start of `s`.
pub open spec fn next_frame(s: Seq<u8>) -> NextFrame {
    if !has_header(s) {
        if s.len() > MAX_LSP_HEADER_SIZE {
            NextFrame::Invalid(RelayError::HeaderTooLong)
        } else {
            NextFrame::Incomplete
        }
    } else {
        match header::fields_of_header(s.take(header_end(s))) {
            Err(error) => NextFrame::Invalid(error),
            Ok(fields) => {
                let length = fields.content_length->Some_0;
                let start = header_end(s) + 4;
                if length > MAX_LSP_BODY_SIZE {
                    NextFrame::Invalid(RelayError::BodyTooLong { length })
                } else if s.len() < start + length {
                    NextFrame::Incomplete
                } else {
                    NextFrame::Complete {
                        frame: Frame {
                            additional_headers: fields.additional_headers,
                            body: s.subrange(start, start + length),
                        },
                        length: (start + length) as nat,
                    }
                }
            },
        }
    }
}

/// Where the reading of a stream stands.
pub enum Progress {
    /// The bytes that have arrived of the message that is being read.
    Pending(Seq<u8>),
    /// The stream held something that is no message.
    Failed(RelayError),
}

/// The messages of a stream, and where its reading then stands.
pub struct Decoded {
    pub frames: Seq<Frame>,
    pub progress: Progress,
}

/// The messages that `s` holds from its start.
pub open spec fn decode(s: Seq<u8>) -> Decoded
    decreases s.len(),
{
    match next_frame(s) {
        NextFrame::Incomplete => Decoded { frames: Seq::empty(), progress: Progress::Pending(s) },
        NextFrame::Invalid(error) => Decoded {
            frames: Seq::empty(),
            progress: Progress::Failed(error),
        },
        NextFrame::Complete { frame, length } => if 0 < length <= s.len() {
            let rest = decode(s.skip(length as int));
            Decoded { frames: seq![frame] + rest.frames, progress: rest.progress }
        } else {
            Decoded { frames: Seq::empty(), progress: Progress::Pending(s) }
        },
    }
}

/// The messages that become complete when `input` arrives.
pub open spec fn resume(progress: Progress, input: Seq<u8>) -> Decoded {
    match progress {
        Progress::Pending(s) => decode(s + input),
        Progress::Failed(error) => Decoded { frames: Seq::empty(), progress },
    }
}

/// Why a stream must not end here; `None` where it may.
pub open spec fn end_error(progress: Progress) -> Option<RelayError> {
    match progress {
        Progress::Failed(error) => Some(error),
        Progress::Pending(s) => if s.len() == 0 {
            None
        } else if !has_header(s) {
            Some(RelayError::TruncatedHeader)
        } else {
            let fields = header::fields_of_header(s.take(header_end(s)))->Ok_0;
            Some(RelayError::TruncatedBody { expected: fields.content_length->Some_0 })
        },
    }
}

/// The lines of a header, joined by line breaks.
pub open spec fn joined(lines: Seq<Seq<u8>>) -> Seq<u8>
    decreases lines.len(),
{
    if lines.len() == 0 {
        Seq::empty()
    } else if lines.len() == 1 {
        lines[0]
    } else {
        lines[0] + bytes::crlf() + joined(lines.drop_first())
    }
}

/// The canonical `Content-Length` line of a body.
pub open spec fn length_line(length: nat) -> Seq<u8> {
    bytes::ascii("Content-Length: "@) + bytes::decimal_text(length)
}

/// The header of a message as it is written: the canonical `Content-Length`
/// line, and then the other lines as they were read.
pub open spec fn header_text(frame: Frame) -> Seq<u8> {
    joined(seq![length_line(frame.body.len())] + frame.additional_headers)
}

/// A message as it is written.
pub open spec fn encode(frame: Frame) -> Seq<u8> {
    header_text(frame) + bytes::crlf() + bytes::crlf() + frame.body
}

/// Several messages as they are written, one after the other.
pub open spec fn encode_all(frames: Seq<Frame>) -> Seq<u8>
    decreases frames.len(),
{
    if frames.len() == 0 {
        Seq::empty()
    } else {
        encode_all(frames.drop_last()) + encode(frames.last())
    }
}

/// The end of the header at the start of `s` is determined.
pub proof fn lemma_header_end(s: Seq<u8>, k: int)
    requires
        header_ends_at(s, k),
    ensures
        has_header(s) <==> k + 4 <= MAX_LSP_HEADER_SIZE,
        has_header(s) ==> header_end(s) == k,
{
    if has_header(s) {
        let e = header_end(s);
        assert(header_ends_at(s, e) && e + 4 <= MAX_LSP_HEADER_SIZE);
        assert(!(e < k));
        assert(!(k < e));
    }
}

/// A header that has arrived is not changed by what follows.
proof fn lemma_header_stable(a: Seq<u8>, b: Seq<u8>)
    requires
        has_header(a),
    ensures
        has_header(a + b),
        header_end(a + b) == header_end(a),
        0 <= header_end(a) && header_end(a) + 4 <= a.len(),
        (a + b).take(header_end(a)) == a.take(header_end(a)),
{
    let k = header_end(a);
    assert(header_ends_at(a, k) && k + 4 <= MAX_LSP_HEADER_SIZE);
    assert forall|j: int| j < k implies !delimiter_at(a + b, j) by {
        assert(!delimiter_at(a, j));
    }
    assert(header_ends_at(a + b, k));
    lemma_header_end(a + b, k);
    assert((a + b).take(k) =~= a.take(k));
}

/// Once it is known what stands at the start of a stream, what follows does
/// not change it.
proof fn lemma_next_frame_stable(a: Seq<u8>, b: Seq<u8>)
    requires
        !(next_frame(a) is Incomplete),
    ensures
        next_frame(a + b) == next_frame(a),
        next_frame(a) matches NextFrame::Complete { frame, length } ==> 0 < length <= a.len(),
{
    if has_header(a) {
        lemma_header_stable(a, b);
        if let NextFrame::Complete { frame, length } = next_frame(a) {
            let start = header_end(a) + 4;
            assert((a + b).subrange(start, length as int) =~= a.subrange(start, length as int));
        }
    } else {
        if has_header(a + b) {
            let k = header_end(a + b);
            assert(header_ends_at(a + b, k) && k + 4 <= MAX_LSP_HEADER_SIZE);
            assert forall|j: int| j < k implies !delimiter_at(a, j) by {
                assert(!delimiter_at(a + b, j));
            }
            assert(header_ends_at(a, k));
            assert(false);
        }
    }
}

/// Nothing but the bytes matters: a stream that arrives in two pieces is read
/// as the same stream in one piece.
pub proof fn decode_in_pieces(a: Seq<u8>, b: Seq<u8>)
    ensures
        decode(a + b).frames == decode(a).frames + resume(decode(a).progress, b).frames,
        decode(a + b).progress == resume(decode(a).progress, b).progress,
    decreases a.len(),
{
    match next_frame(a) {
        NextFrame::Incomplete => {
            assert(decode(a).frames + resume(decode(a).progress, b).frames =~= decode(a + b).frames);
        },
        NextFrame::Invalid(error) => {
            lemma_next_frame_stable(a, b);
            assert(decode(a).frames + resume(decode(a).progress, b).frames =~= decode(a + b).frames);
        },
        NextFrame::Complete { frame, length } => {
            lemma_next_frame_stable(a, b);
            let rest = a.skip(length as int);
            assert((a + b).skip(length as int) =~= rest + b);
            decode_in_pieces(rest, b);
            assert(decode(a + b).frames =~= seq![frame] + decode(rest + b).frames);
            assert(decode(a + b).frames =~= decode(a).frames + resume(
                decode(a).progress,
                b,
            ).frames);
        },
    }
}

/// The same of two pieces that arrive while a message is being read.
pub proof fn resume_in_pieces(progress: Progress, a: Seq<u8>, b: Seq<u8>)
    ensures
        resume(progress, a + b).frames == resume(progress, a).frames + resume(
            resume(progress, a).progress,
            b,
        ).frames,
        resume(progress, a + b).progress == resume(resume(progress, a).progress, b).progress,
{
    match progress {
        Progress::Pending(s) => {
            decode_in_pieces(s + a, b);
            assert(s + (a + b) =~= (s + a) + b);
        },
        Progress::Failed(error) => {
            assert(Seq::<Frame>::empty() + Seq::<Frame>::empty() =~= Seq::<Frame>::empty());
        },
    }
}

/// What one more byte of a stream brings.
#[derive(Debug)]
pub enum FrameRead {
    /// The stream has ended between two messages.
    EndOfStream,
    /// The message is not complete yet.
    More,
    /// A message is complete.
    Frame(LspFrame),
}

/// Reads messages from a stream, byte by byte.
pub struct FrameReader {
    /// The header that is being read; once it is complete, the whole header
    /// with the empty line that ends it.
    header: Vec<u8>,
    /// What the header says, once it is complete.
    parsed: Option<ParsedHeader>,
    /// What has arrived of the body.
    body: Vec<u8>,
    /// Why the stream cannot be read any further.
    failure: Option<RelayError>,
}

impl View for FrameReader {
    type V = Progress;

    closed spec fn view(&self) -> Progress {
        match self.failure {
            Some(error) => Progress::Failed(error),
            None => Progress::Pending(self.header@ + self.body@),
        }
    }
}

impl FrameReader {
    /// What holds of a reader at all times: no message that is complete and no
    /// failure waits in what it holds.
    pub closed spec fn wf(&self) -> bool {
        self.failure is None ==> match self.parsed {
            None => {
                &&& self.body@.len() == 0
                &&& self.header@.len() <= MAX_LSP_HEADER_SIZE
                &&& forall|k: int| !delimiter_at(self.header@, k)
            },
            Some(parsed) => {
                &&& self.header@.len() <= MAX_LSP_HEADER_SIZE
                &&& header_ends_at(self.header@, self.header@.len() - 4)
                &&& header::fields_of_header(self.header@.take(self.header@.len() - 4)) == Ok::<
                    header::HeaderFields,
                    RelayError,
                >(parsed.fields())
                &&& self.body@.len() < parsed.content_length <= MAX_LSP_BODY_SIZE
            },
        }
    }

    /// A reader never holds more than a header and a body of the greatest
    /// lengths, and what it holds is no complete message.
    pub proof fn holds_an_incomplete_message(&self)
        requires
            self.wf(),
        ensures
            match self@ {
                Progress::Pending(s) => next_frame(s) is Incomplete && s.len()
                    < MAX_LSP_HEADER_SIZE + MAX_LSP_BODY_SIZE,
                Progress::Failed(error) => true,
            },
    {
        if self.failure is None {
            let s = self.header@ + self.body@;
            if self.parsed is None {
                assert(s =~= self.header@);
                assert(!has_header(s));
            } else {
                let k = self.header@.len() - 4;
                lemma_header_end(self.header@, k);
                lemma_header_stable(self.header@, self.body@);
            }
        }
    }

    /// A reader at the start of a stream.
    pub fn new() -> (reader: FrameReader)
        ensures
            reader.wf(),
            reader@ == Progress::Pending(Seq::empty()),
    {
        let reader = FrameReader {
            header: Vec::new(),
            parsed: None,
            body: Vec::new(),
            failure: None,
        };
        assert(reader.header@ + reader.body@ =~= Seq::<u8>::empty());
        reader
    }

    /// Reports the failure of a reader that has failed.
    pub fn failure(&self) -> (result: Result<(), RelayError>)
        ensures
            result == (match self@ {
                Progress::Failed(error) => Err::<(), RelayError>(error),
                Progress::Pending(_) => Ok::<(), RelayError>(()),
            }),
    {
        match self.failure {
            Some(error) => Err(error),
            None => Ok(()),
        }
    }

    /// Takes the next byte of a header, or the end of the stream where the
    /// header was to go on.
    fn read_lsp_header(&mut self, read: Option<u8>) -> (result: Result<HeaderRead, RelayError>)
        requires
            old(self).wf(),
            old(self).failure is None,
            old(self).parsed is None,
        ensures
            final(self).parsed is None,
            final(self).failure is None,
            final(self).body@ == old(self).body@,
            match read {
                None => final(self).header@ == old(self).header@ && result == (if old(self).header@.len() == 0 {
                    Ok::<HeaderRead, RelayError>(HeaderRead::EndOfStream)
                } else {
                    Err::<HeaderRead, RelayError>(RelayError::TruncatedHeader)
                }),
                Some(byte) => final(self).header@ == old(self).header@.push(byte) && match result {
                    Err(error) => error == RelayError::HeaderTooLong && final(self).header@.len()
                        > MAX_LSP_HEADER_SIZE,
                    Ok(HeaderRead::Complete) => final(self).header@.len() <= MAX_LSP_HEADER_SIZE
                        && header_ends_at(final(self).header@, final(self).header@.len() - 4),
                    Ok(HeaderRead::More) => final(self).wf(),
                    Ok(HeaderRead::EndOfStream) => false,
                },
            },
    {
        let byte = match read {
            Some(byte) => byte,
            None => {
                if self.header.is_empty() {
                    return Ok(HeaderRead::EndOfStream);
                }
                return Err(RelayError::TruncatedHeader);
            },
        };
        self.header.push(byte);
        let length = self.header.len();
        proof {
            assert forall|k: int| k + 4 < length implies !delimiter_at(self.header@, k) by {
                assert(!delimiter_at(old(self).header@, k));
            }
        }
        if length > MAX_LSP_HEADER_SIZE {
            return Err(RelayError::HeaderTooLong);
        }
        if length >= 4 && self.header[length - 4] == 0x0d && self.header[length - 3] == 0x0a
            && self.header[length - 2] == 0x0d && self.header[length - 1] == 0x0a {
            return Ok(HeaderRead::Complete);
        }
        Ok(HeaderRead::More)
    }

    /// Takes the next byte of the stream, or `None` for its end.
    ///
    /// A reader that has failed stays as it is and reports its failure again.
    pub fn read_lsp_frame(&mut self, read: Option<u8>) -> (result: Result<FrameRead, RelayError>)
        requires
            old(self).wf(),
        ensures
            final(self).wf(),
            match (old(self)@, read) {
                (Progress::Failed(error), _) => result is Err && result->Err_0 == error && final(self)@ == old(self)@,
                (Progress::Pending(s), Some(byte)) => match next_frame(s.push(byte)) {
                    NextFrame::Incomplete => result is Ok && result->Ok_0 is More && final(self)@
                        == Progress::Pending(s.push(byte)),
                    NextFrame::Invalid(error) => result is Err && result->Err_0 == error && final(self)@ == Progress::Failed(error),
                    NextFrame::Complete { frame, length } => result is Ok && (
                    result->Ok_0 matches FrameRead::Frame(read_frame) && read_frame@ == frame)
                        && length == s.len() + 1 && final(self)@ == Progress::Pending(Seq::empty()),
                },
                (Progress::Pending(s), None) => match end_error(old(self)@) {
                    None => result is Ok && result->Ok_0 is EndOfStream && final(self)@ == old(self)@,
                    Some(error) => result is Err && result->Err_0 == error && final(self)@
                        == Progress::Failed(error),
                },
            },
    {
        if let Some(error) = self.failure {
            return Err(error);
        }
        let ghost held = self.header@ + self.body@;
        if self.parsed.is_none() {
            assert(held =~= self.header@);
            let step = match self.read_lsp_header(read) {
                Ok(step) => step,
                Err(error) => {
                    proof {
                        if read is Some {
                            let s = self.header@;
                            assert(s =~= held.push(read->Some_0));
                            if has_header(s) {
                                let k = header_end(s);
                                assert(header_ends_at(s, k) && k + 4 <= MAX_LSP_HEADER_SIZE);
                                assert(delimiter_at(old(self).header@, k));
                            }
                        } else {
                            assert(!has_header(held));
                        }
                    }
                    self.failure = Some(error);
                    return Err(error);
                },
            };
            match step {
                HeaderRead::EndOfStream => {
                    assert(self.header@ + self.body@ =~= held);
                    return Ok(FrameRead::EndOfStream);
                },
                HeaderRead::More => {
                    assert(self.header@ + self.body@ =~= held.push(read->Some_0));
                    assert(!has_header(self.header@));
                    return Ok(FrameRead::More);
                },
                HeaderRead::Complete => {},
            }
            let end = self.header.len() - 4;
            let ghost s = self.header@;
            proof {
                assert(s =~= held.push(read->Some_0));
                lemma_header_end(s, end as int);
                assert(s.take(end as int) =~= s.subrange(0, end as int));
            }
            let parsed = match header::parse_lsp_header(
                vstd::slice::slice_subrange(self.header.as_slice(), 0, end),
            ) {
                Ok(parsed) => parsed,
                Err(error) => {
                    self.failure = Some(error);
                    return Err(error);
                },
            };
            if parsed.content_length > MAX_LSP_BODY_SIZE {
                let error = RelayError::BodyTooLong { length: parsed.content_length };
                self.failure = Some(error);
                return Err(error);
            }
            if parsed.content_length == 0 {
                let frame = LspFrame {
                    additional_headers: parsed.additional_headers,
                    body: Vec::new(),
                };
                self.header = Vec::new();
                assert(self.header@ + self.body@ =~= Seq::<u8>::empty());
                assert(frame.body@ =~= s.subrange(end + 4, end + 4));
                return Ok(FrameRead::Frame(frame));
            }
            self.parsed = Some(parsed);
            assert(self.header@ + self.body@ =~= s);
            return Ok(FrameRead::More);
        }
        let ghost header = self.header@;
        let ghost end = header.len() - 4;
        proof {
            lemma_header_end(header, end);
            lemma_header_stable(header, self.body@);
            if read is Some {
                lemma_header_stable(header, self.body@.push(read->Some_0));
                assert(header + self.body@.push(read->Some_0) =~= held.push(read->Some_0));
            }
        }
        match self.parsed.take() {
            None => Ok(FrameRead::More),
            Some(parsed) => match read {
                None => {
                    let error = RelayError::TruncatedBody { expected: parsed.content_length };
                    self.failure = Some(error);
                    Err(error)
                },
                Some(byte) => {
                    self.body.push(byte);
                    let ghost s = header + self.body@;
                    if self.body.len() < parsed.content_length {
                        self.parsed = Some(parsed);
                        return Ok(FrameRead::More);
                    }
                    let mut body: Vec<u8> = Vec::new();
                    std::mem::swap(&mut body, &mut self.body);
                    self.header = Vec::new();
                    assert(self.header@ + self.body@ =~= Seq::<u8>::empty());
                    assert(body@ =~= s.subrange(end + 4, end + 4 + parsed.content_length));
                    Ok(
                        FrameRead::Frame(
                            LspFrame { additional_headers: parsed.additional_headers, body },
                        ),
                    )
                },
            },
        }
    }
}

/// Joining one more line.
pub proof fn lemma_joined_push(lines: Seq<Seq<u8>>, line: Seq<u8>)
    requires
        lines.len() > 0,
    ensures
        joined(lines.push(line)) == joined(lines) + bytes::crlf() + line,
    decreases lines.len(),
{
    let more = lines.push(line);
    if lines.len() == 1 {
        assert(more.drop_first() =~= seq![line]);
        assert(joined(more) == more[0] + bytes::crlf() + joined(more.drop_first()));
    } else {
        assert(more.drop_first() =~= lines.drop_first().push(line));
        lemma_joined_push(lines.drop_first(), line);
        assert(joined(more) =~= joined(lines) + bytes::crlf() + line);
    }
}

/// Appends a message as it is written: with a canonical `Content-Length` line,
/// the other lines of its header, and its body.
pub fn write_lsp_frame(output: &mut Vec<u8>, frame: &LspFrame)
    ensures
        final(output)@ == old(output)@ + encode(frame@),
{
    let ghost lines = seq![length_line(frame@.body.len())] + frame@.additional_headers;
    proof {
        reveal_strlit("Content-Length: ");
        reveal_strlit("\r\n");
        assert(bytes::ascii("\r\n"@) =~= bytes::crlf());
    }
    let line_break = bytes::ascii_bytes("\r\n");
    bytes::push_bytes(output, bytes::ascii_bytes("Content-Length: "));
    bytes::push_decimal(output, frame.body.len());
    assert(lines.take(1) =~= seq![length_line(frame@.body.len())]);
    assert(output@ =~= old(output)@ + joined(lines.take(1)));
    let mut i: usize = 0;
    while i < frame.additional_headers.len()
        invariant
            i <= frame.additional_headers.len(),
            line_break@ == bytes::crlf(),
            lines == seq![length_line(frame@.body.len())] + frame@.additional_headers,
            output@ == old(output)@ + joined(lines.take(i + 1)),
        decreases frame.additional_headers.len() - i,
    {
        let header = &frame.additional_headers[i];
        bytes::push_bytes(output, line_break);
        bytes::push_bytes(output, header.as_slice());
        proof {
            assert(lines[i + 1] == header@);
            assert(lines.take(i + 2) =~= lines.take(i + 1).push(header@));
            lemma_joined_push(lines.take(i + 1), header@);
            assert(output@ =~= old(output)@ + joined(lines.take(i + 2)));
        }
        i = i + 1;
    }
    assert(lines.take(i + 1) =~= lines);
    bytes::push_bytes(output, line_break);
    bytes::push_bytes(output, line_break);
    bytes::push_bytes(output, frame.body.as_slice());
    assert(output@ =~= old(output)@ + encode(frame@));
}

/// What one more byte of a header brings.
#[derive(Clone, Copy, PartialEq, Eq, Structural)]
pub enum HeaderRead {
    /// The stream has ended before the header began.
    EndOfStream,
    /// The header goes on.
    More,
    /// The empty line that ends the header has arrived.
    Complete,
}

} // verus!
