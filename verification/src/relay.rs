//! Relaying LSP messages between the editor and `tool4d`.
//!
//! Each direction of a session reads messages from one stream and writes them
//! to another, with canonical headers. Bodies pass through byte for byte, but
//! for the `null` answers that the editor would not accept.
use vstd::prelude::*;

use crate::diagnostics;
use crate::diagnostics::Id;
use crate::error::{RelayError, MAX_LSP_BODY_SIZE};
use crate::frame;
use crate::frame::{Frame, FrameRead, FrameReader, LspFrame};
use crate::json;
use crate::reading;
use crate::round_trip;

pub use crate::diagnostics::CompatibilityState;

verus! {

/// `std::io::Error`, which is only carried.
#[verifier::external_type_specification]
#[verifier::external_body]
pub struct ExternalIoError(std::io::Error);

/// An event reported by one side of the LSP relay.
#[derive(Debug)]
pub enum RelayEvent {
    /// The editor closed the adapter's standard input.
    StdinClosed,
    /// The TCP peer closed the connection.
    SocketClosed,
    /// One side of the relay failed.
    Error { direction: &'static str, error: std::io::Error },
}

/// What the worker from standard input to the socket reports when it is done.
pub fn stdin_event(result: Result<(), std::io::Error>) -> (event: RelayEvent)
    ensures
        match result {
            Ok(()) => event == RelayEvent::StdinClosed,
            Err(error) => event matches RelayEvent::Error { direction, error: reported }
                && direction@ == "stdin-to-socket"@ && reported == error,
        },
{
    match result {
        Ok(()) => RelayEvent::StdinClosed,
        Err(error) => RelayEvent::Error { direction: "stdin-to-socket", error },
    }
}

/// What the worker from the socket to standard output reports when it is done.
pub fn socket_event(result: Result<(), std::io::Error>) -> (event: RelayEvent)
    ensures
        match result {
            Ok(()) => event == RelayEvent::SocketClosed,
            Err(error) => event matches RelayEvent::Error { direction, error: reported }
                && direction@ == "socket-to-stdout"@ && reported == error,
        },
{
    match result {
        Ok(()) => RelayEvent::SocketClosed,
        Err(error) => RelayEvent::Error { direction: "socket-to-stdout", error },
    }
}

/// What the supervisor of a session learns.
#[derive(Debug)]
pub enum SessionEvent {
    /// A worker reported how it ended.
    Reported(RelayEvent),
    /// Both workers are gone.
    WorkersGone,
    /// The tool has ended.
    ToolExited,
    /// Nothing has happened for a while.
    Nothing,
}

/// Whether a session goes on.
#[derive(Debug)]
pub enum SessionState {
    /// The session goes on.
    Running,
    /// The session is over.
    Ended,
    /// The session is over, because one direction failed.
    Failed { direction: &'static str, error: std::io::Error },
}

/// Decides whether a session goes on: whatever happens on either side ends it.
pub fn session_state(event: SessionEvent) -> (state: SessionState)
    ensures
        match event {
            SessionEvent::Nothing => state == SessionState::Running,
            SessionEvent::Reported(RelayEvent::Error { direction, error }) => state == (
            SessionState::Failed { direction, error }),
            _ => state == SessionState::Ended,
        },
{
    match event {
        SessionEvent::Nothing => SessionState::Running,
        SessionEvent::Reported(RelayEvent::Error { direction, error }) => SessionState::Failed {
            direction,
            error,
        },
        SessionEvent::Reported(RelayEvent::StdinClosed) => SessionState::Ended,
        SessionEvent::Reported(RelayEvent::SocketClosed) => SessionState::Ended,
        SessionEvent::WorkersGone => SessionState::Ended,
        SessionEvent::ToolExited => SessionState::Ended,
    }
}

/// What came of closing a socket.
#[derive(Debug)]
pub enum Closing {
    /// The socket was closed.
    Closed,
    /// The socket had no connection any more.
    NotConnected,
    /// The peer had closed the connection.
    BrokenPipe,
    /// The socket could not be closed.
    Failed(std::io::Error),
}

/// Decides whether closing a socket failed: a connection that was gone already
/// is no failure.
pub fn closing_result(closing: Closing) -> (result: Result<(), std::io::Error>)
    ensures
        match closing {
            Closing::Failed(error) => result == Err::<(), std::io::Error>(error),
            _ => result == Ok::<(), std::io::Error>(()),
        },
{
    match closing {
        Closing::Closed => Ok(()),
        Closing::NotConnected => Ok(()),
        Closing::BrokenPipe => Ok(()),
        Closing::Failed(error) => Err(error),
    }
}

/// What is done to the messages of a stream besides giving them canonical
/// headers.
#[derive(Clone, Copy, Debug, PartialEq, Eq, Structural)]
pub enum Direction {
    /// From the editor: requests for diagnostics are remembered.
    FromEditor,
    /// From `tool4d`: `null` answers to such requests are repaired.
    FromTool4d,
    /// Bodies are not looked at.
    Neutral,
}

/// The message that is sent on for `message`.
pub open spec fn sent(direction: Direction, message: Frame, pending: Set<Id>) -> Frame {
    match direction {
        Direction::FromTool4d => Frame {
            body: diagnostics::rewritten(message.body, pending),
            ..message
        },
        _ => message,
    }
}

/// The requests that wait for an answer once `message` has been sent on.
pub open spec fn pending_after(direction: Direction, message: Frame, pending: Set<Id>) -> Set<Id> {
    match direction {
        Direction::FromEditor => diagnostics::remembered(message.body, pending),
        Direction::FromTool4d => diagnostics::still_pending(message.body, pending),
        Direction::Neutral => pending,
    }
}

/// The requests that wait for an answer once several messages have been sent
/// on, one after the other.
pub open spec fn pending_after_all(
    direction: Direction,
    messages: Seq<Frame>,
    pending: Set<Id>,
) -> Set<Id>
    decreases messages.len(),
{
    if messages.len() == 0 {
        pending
    } else {
        pending_after(
            direction,
            messages.last(),
            pending_after_all(direction, messages.drop_last(), pending),
        )
    }
}

/// The messages that are sent on for several messages.
pub open spec fn sent_all(direction: Direction, messages: Seq<Frame>, pending: Set<Id>) -> Seq<
    Frame,
> {
    Seq::new(
        messages.len(),
        |i: int|
            sent(
                direction,
                messages[i],
                pending_after_all(direction, messages.take(i), pending),
            ),
    )
}

/// The bytes that several reads return, one after the other.
pub open spec fn flattened(reads: Seq<Vec<u8>>) -> Seq<u8>
    decreases reads.len(),
{
    if reads.len() == 0 {
        Seq::empty()
    } else {
        flattened(reads.drop_last()) + reads.last()@
    }
}

/// How the relaying of a whole stream ends.
pub open spec fn stream_result(input: Seq<u8>) -> Result<(), RelayError> {
    match frame::end_error(frame::decode(input).progress) {
        None => Ok(()),
        Some(error) => Err(error),
    }
}

/// The messages of a first part do not depend on those that follow.
proof fn lemma_prefix(
    direction: Direction,
    first: Seq<Frame>,
    rest: Seq<Frame>,
    pending: Set<Id>,
)
    ensures
        pending_after_all(direction, first + rest, pending) == pending_after_all(
            direction,
            rest,
            pending_after_all(direction, first, pending),
        ),
    decreases rest.len(),
{
    if rest.len() == 0 {
        assert(first + rest =~= first);
    } else {
        assert((first + rest).drop_last() =~= first + rest.drop_last());
        lemma_prefix(direction, first, rest.drop_last(), pending);
    }
}

/// What is sent on for one more message.
proof fn lemma_sent_push(
    direction: Direction,
    messages: Seq<Frame>,
    message: Frame,
    pending: Set<Id>,
)
    ensures
        sent_all(direction, messages.push(message), pending) == sent_all(
            direction,
            messages,
            pending,
        ).push(sent(direction, message, pending_after_all(direction, messages, pending))),
        pending_after_all(direction, messages.push(message), pending) == pending_after(
            direction,
            message,
            pending_after_all(direction, messages, pending),
        ),
{
    let more = messages.push(message);
    assert(more.drop_last() =~= messages);
    assert forall|i: int| 0 <= i < messages.len() implies more.take(i) == messages.take(i) by {
        assert(more.take(i) =~= messages.take(i));
    }
    assert(more.take(messages.len() as int) =~= messages);
    assert(sent_all(direction, more, pending) =~= sent_all(direction, messages, pending).push(
        sent(direction, message, pending_after_all(direction, messages, pending)),
    ));
}

/// A stream may be relayed piece by piece: what is sent on for two pieces is
/// what is sent on for the whole.
pub proof fn sent_in_pieces(
    direction: Direction,
    first: Seq<Frame>,
    rest: Seq<Frame>,
    pending: Set<Id>,
)
    ensures
        sent_all(direction, first + rest, pending) == sent_all(direction, first, pending)
            + sent_all(direction, rest, pending_after_all(direction, first, pending)),
        pending_after_all(direction, first + rest, pending) == pending_after_all(
            direction,
            rest,
            pending_after_all(direction, first, pending),
        ),
{
    lemma_prefix(direction, first, rest, pending);
    let whole = first + rest;
    let middle = pending_after_all(direction, first, pending);
    assert forall|i: int| 0 <= i < whole.len() implies #[trigger] sent_all(
        direction,
        whole,
        pending,
    )[i] == (sent_all(direction, first, pending) + sent_all(direction, rest, middle))[i] by {
        if i < first.len() {
            assert(whole.take(i) =~= first.take(i));
        } else {
            let j = i - first.len();
            assert(whole.take(i) =~= first + rest.take(j));
            lemma_prefix(direction, first, rest.take(j), pending);
        }
    }
    assert(sent_all(direction, whole, pending) =~= sent_all(direction, first, pending) + sent_all(
        direction,
        rest,
        middle,
    ));
}

/// Two lots of messages are written as one.
proof fn lemma_encode_all_push(messages: Seq<Frame>, message: Frame)
    ensures
        frame::encode_all(messages.push(message)) == frame::encode_all(messages) + frame::encode(
            message,
        ),
{
    assert(messages.push(message).drop_last() =~= messages);
}

proof fn lemma_encode_all_concat(first: Seq<Frame>, rest: Seq<Frame>)
    ensures
        frame::encode_all(first + rest) == frame::encode_all(first) + frame::encode_all(rest),
    decreases rest.len(),
{
    if rest.len() == 0 {
        assert(first + rest =~= first);
        assert(frame::encode_all(first) + Seq::<u8>::empty() =~= frame::encode_all(first));
    } else {
        assert((first + rest).drop_last() =~= first + rest.drop_last());
        lemma_encode_all_concat(first, rest.drop_last());
        assert(frame::encode_all(first + rest) =~= frame::encode_all(first) + frame::encode_all(
            rest,
        ));
    }
}

/// Messages from the editor, and those whose bodies are not looked at, are
/// sent on as they are.
pub proof fn bodies_are_preserved(direction: Direction, messages: Seq<Frame>, pending: Set<Id>)
    requires
        direction != Direction::FromTool4d,
    ensures
        sent_all(direction, messages, pending) == messages,
{
    assert(sent_all(direction, messages, pending) =~= messages);
}

/// The other lines of a header are sent on as they are, in every direction.
pub proof fn headers_are_preserved(
    direction: Direction,
    messages: Seq<Frame>,
    pending: Set<Id>,
    i: int,
)
    requires
        0 <= i < messages.len(),
    ensures
        sent_all(direction, messages, pending).len() == messages.len(),
        sent_all(direction, messages, pending)[i].additional_headers
            == messages[i].additional_headers,
{
}

/// The reads of a stream make up one stream, in their order.
pub proof fn reads_make_up_one_stream(first: Seq<Vec<u8>>, rest: Seq<Vec<u8>>, read: Vec<u8>)
    ensures
        flattened(Seq::empty()) == Seq::<u8>::empty(),
        flattened(seq![read]) == read@,
        flattened(first + rest) == flattened(first) + flattened(rest),
    decreases rest.len(),
{
    assert(seq![read].drop_last() =~= Seq::<Vec<u8>>::empty());
    assert(flattened(Seq::<Vec<u8>>::empty()) == Seq::<u8>::empty());
    assert(Seq::<u8>::empty() + read@ =~= read@);
    if rest.len() == 0 {
        assert(first + rest =~= first);
        assert(flattened(first) + Seq::<u8>::empty() =~= flattened(first));
    } else {
        reads_make_up_one_stream(first, rest.drop_last(), read);
        assert((first + rest).drop_last() =~= first + rest.drop_last());
        assert(flattened(first + rest) =~= flattened(first) + flattened(rest));
    }
}

/// How a stream ends: well, where nothing is left behind its last message; with
/// the failure of what was read, or with that of ending too early.
pub proof fn a_stream_ends_well_between_messages(input: Seq<u8>)
    ensures
        stream_result(input) is Ok <==> frame::decode(input).progress == frame::Progress::Pending(
            Seq::empty(),
        ),
        frame::decode(input).progress matches frame::Progress::Failed(error) ==> stream_result(
            input,
        ) == Err::<(), RelayError>(error),
        frame::decode(input).progress matches frame::Progress::Pending(rest) && rest.len() > 0
            ==> frame::end_error(frame::decode(input).progress) is Some && stream_result(input)
            == Err::<(), RelayError>(frame::end_error(frame::decode(input).progress)->Some_0),
{
    if let frame::Progress::Pending(rest) = frame::decode(input).progress {
        if rest.len() == 0 {
            assert(rest =~= Seq::empty());
        }
    }
}

/// However the headers of a stream are spelled and however its reads cut it,
/// what is written when bodies are not looked at is the same messages with
/// canonical headers, and the stream ends well.
pub proof fn spelled_reads_are_normalized(reads: Seq<Vec<u8>>, messages: Seq<reading::Spelled>)
    requires
        forall|i: int| 0 <= i < messages.len() ==> (#[trigger] messages[i]).is_valid(),
        flattened(reads) == reading::spelled_stream(messages),
    ensures
        frame::encode_all(frame::decode(flattened(reads)).frames) == reading::canonical_stream(
            messages,
        ),
        stream_result(flattened(reads)) is Ok,
{
    reading::a_spelled_stream_is_normalized(messages);
}

/// A stream whose bodies are not looked at changes nothing about what is waited
/// for.
pub proof fn a_neutral_stream_leaves_the_wait_alone(messages: Seq<Frame>, pending: Set<Id>)
    ensures
        pending_after_all(Direction::Neutral, messages, pending) == pending,
    decreases messages.len(),
{
    if messages.len() > 0 {
        a_neutral_stream_leaves_the_wait_alone(messages.drop_last(), pending);
    }
}

/// Of the messages from `tool4d`, none changes but a `null` answer to a request
/// that waits for one.
pub proof fn only_null_answers_change(messages: Seq<Frame>, pending: Set<Id>, i: int)
    requires
        0 <= i < messages.len(),
        sent_all(Direction::FromTool4d, messages, pending)[i] != messages[i],
    ensures
        diagnostics::is_null_answer(json::json_of_text(messages[i].body)),
        diagnostics::is_awaited(
            messages[i].body,
            pending_after_all(Direction::FromTool4d, messages.take(i), pending),
        ),
{
}

/// Every request for diagnostics that the editor makes is remembered, and
/// nothing else is.
pub proof fn requests_are_remembered(messages: Seq<Frame>, pending: Set<Id>, id: Id)
    ensures
        pending_after_all(Direction::FromEditor, messages, pending).contains(id) <==> (
        pending.contains(id) || exists|i: int|
            0 <= i < messages.len() && diagnostics::diagnostic_request(
                json::json_of_text((#[trigger] messages[i]).body),
            ) == Some(id)),
    decreases messages.len(),
{
    if messages.len() > 0 {
        let earlier = messages.drop_last();
        requests_are_remembered(earlier, pending, id);
        assert forall|i: int| 0 <= i < earlier.len() implies earlier[i] == messages[i] by {}
        if pending_after_all(Direction::FromEditor, messages, pending).contains(id)
            && !pending.contains(id) {
            if pending_after_all(Direction::FromEditor, earlier, pending).contains(id) {
                let i = choose|i: int|
                    0 <= i < earlier.len() && diagnostics::diagnostic_request(
                        json::json_of_text((#[trigger] earlier[i]).body),
                    ) == Some(id);
                assert(messages[i] == earlier[i]);
            } else {
                assert(messages[messages.len() - 1] == messages.last());
            }
        }
        if exists|i: int|
            0 <= i < messages.len() && diagnostics::diagnostic_request(
                json::json_of_text((#[trigger] messages[i]).body),
            ) == Some(id) {
            let i = choose|i: int|
                0 <= i < messages.len() && diagnostics::diagnostic_request(
                    json::json_of_text((#[trigger] messages[i]).body),
                ) == Some(id);
            if i < earlier.len() {
                assert(earlier[i] == messages[i]);
            }
        }
    }
}

/// A request waits for its answer until `tool4d` answers it, and no longer.
pub proof fn answers_end_the_wait(messages: Seq<Frame>, pending: Set<Id>, id: Id)
    ensures
        pending_after_all(Direction::FromTool4d, messages, pending).contains(id) <==> (
        pending.contains(id) && forall|i: int|
            0 <= i < messages.len() ==> diagnostics::answered(
                json::json_of_text((#[trigger] messages[i]).body),
            ) != Some(id)),
    decreases messages.len(),
{
    if messages.len() > 0 {
        let earlier = messages.drop_last();
        answers_end_the_wait(earlier, pending, id);
        let before = pending_after_all(Direction::FromTool4d, earlier, pending);
        let after = pending_after_all(Direction::FromTool4d, messages, pending);
        assert(after.contains(id) <==> before.contains(id) && diagnostics::answered(
            json::json_of_text(messages.last().body),
        ) != Some(id));
        if after.contains(id) {
            assert forall|i: int| 0 <= i < messages.len() implies diagnostics::answered(
                json::json_of_text((#[trigger] messages[i]).body),
            ) != Some(id) by {
                if i < earlier.len() {
                    assert(earlier[i] == messages[i]);
                }
            }
        }
        if pending.contains(id) && forall|i: int|
            0 <= i < messages.len() ==> diagnostics::answered(
                json::json_of_text((#[trigger] messages[i]).body),
            ) != Some(id) {
            assert forall|i: int| 0 <= i < earlier.len() implies diagnostics::answered(
                json::json_of_text((#[trigger] earlier[i]).body),
            ) != Some(id) by {
                assert(earlier[i] == messages[i]);
            }
            assert(messages[messages.len() - 1] == messages.last());
        }
    }
}

/// In a whole session, the first answer to a request for diagnostics is given
/// an empty report if it is `null`, whatever else is sent either way.
pub proof fn a_session_repairs_null_answers(
    requests: Seq<Frame>,
    answers: Seq<Frame>,
    pending: Set<Id>,
    i: int,
    j: int,
)
    requires
        0 <= i < requests.len(),
        0 <= j < answers.len(),
        diagnostics::diagnostic_request(json::json_of_text(requests[i].body)) is Some,
        diagnostics::answered(json::json_of_text(answers[j].body))
            == diagnostics::diagnostic_request(json::json_of_text(requests[i].body)),
        forall|k: int|
            0 <= k < j ==> diagnostics::answered(
                json::json_of_text((#[trigger] answers[k]).body),
            ) != diagnostics::answered(json::json_of_text(answers[j].body)),
        diagnostics::is_null_answer(json::json_of_text(answers[j].body)),
    ensures
        sent_all(
            Direction::FromTool4d,
            answers,
            pending_after_all(Direction::FromEditor, requests, pending),
        )[j] == (Frame {
            additional_headers: answers[j].additional_headers,
            body: json::text_of_object(
                diagnostics::repaired(json::json_of_text(answers[j].body)),
            ),
        }),
{
    let id = diagnostics::answered(json::json_of_text(answers[j].body))->Some_0;
    let remembered = pending_after_all(Direction::FromEditor, requests, pending);
    requests_are_remembered(requests, pending, id);
    let earlier = answers.take(j);
    assert forall|k: int| 0 <= k < earlier.len() implies diagnostics::answered(
        json::json_of_text((#[trigger] earlier[k]).body),
    ) != Some(id) by {
        assert(earlier[k] == answers[k]);
    }
    answers_end_the_wait(earlier, remembered, id);
}

/// The requests that wait for an answer once the messages of both directions
/// have been sent on, in the order in which they came.
pub open spec fn pending_in_session(session: Seq<(Direction, Frame)>, pending: Set<Id>) -> Set<Id>
    decreases session.len(),
{
    if session.len() == 0 {
        pending
    } else {
        pending_after(
            session.last().0,
            session.last().1,
            pending_in_session(session.drop_last(), pending),
        )
    }
}

/// However the messages of both directions come in between one another, the
/// first answer to a request for diagnostics is given an empty report if it is
/// `null`.
pub proof fn directions_may_interleave(
    session: Seq<(Direction, Frame)>,
    pending: Set<Id>,
    i: int,
    j: int,
    id: Id,
)
    requires
        0 <= i < j < session.len(),
        session[i].0 == Direction::FromEditor,
        diagnostics::diagnostic_request(json::json_of_text(session[i].1.body)) == Some(id),
        session[j].0 == Direction::FromTool4d,
        diagnostics::answered(json::json_of_text(session[j].1.body)) == Some(id),
        diagnostics::is_null_answer(json::json_of_text(session[j].1.body)),
        forall|k: int|
            i < k < j && (#[trigger] session[k]).0 == Direction::FromTool4d
                ==> diagnostics::answered(json::json_of_text(session[k].1.body)) != Some(id),
    ensures
        sent(
            session[j].0,
            session[j].1,
            pending_in_session(session.take(j), pending),
        ).body == json::text_of_object(
            diagnostics::repaired(json::json_of_text(session[j].1.body)),
        ),
{
    lemma_request_waits(session, pending, i, j, id);
}

proof fn lemma_request_waits(
    session: Seq<(Direction, Frame)>,
    pending: Set<Id>,
    i: int,
    j: int,
    id: Id,
)
    requires
        0 <= i < j <= session.len(),
        session[i].0 == Direction::FromEditor,
        diagnostics::diagnostic_request(json::json_of_text(session[i].1.body)) == Some(id),
        forall|k: int|
            i < k < j && (#[trigger] session[k]).0 == Direction::FromTool4d
                ==> diagnostics::answered(json::json_of_text(session[k].1.body)) != Some(id),
    ensures
        pending_in_session(session.take(j), pending).contains(id),
    decreases j,
{
    let part = session.take(j);
    assert(part.last() == session[j - 1]);
    assert(part.drop_last() =~= session.take(j - 1));
    if i < j - 1 {
        lemma_request_waits(session, pending, i, j - 1, id);
    }
}

/// What is written is read as the messages that were sent on, in every
/// direction. Left out are messages that have grown beyond what a message may
/// be: a header whose `Content-Length` line is longer in its canonical form,
/// or a body that is longer with the report in it.
pub proof fn what_is_sent_is_read(direction: Direction, input: Seq<u8>, pending: Set<Id>)
    requires
        forall|i: int|
            0 <= i < frame::decode(input).frames.len() ==> round_trip::fits(
                #[trigger] sent_all(direction, frame::decode(input).frames, pending)[i],
            ) && sent_all(direction, frame::decode(input).frames, pending)[i].body.len()
                <= MAX_LSP_BODY_SIZE,
    ensures
        ({
            let messages = sent_all(direction, frame::decode(input).frames, pending);
            &&& frame::decode(frame::encode_all(messages)).frames == messages
            &&& stream_result(frame::encode_all(messages)) is Ok
        }),
{
    let read = frame::decode(input).frames;
    let messages = sent_all(direction, read, pending);
    round_trip::read_messages_are_messages(input);
    assert forall|i: int| 0 <= i < messages.len() implies round_trip::is_message(
        #[trigger] messages[i],
    ) && round_trip::fits(messages[i]) by {
        assert(round_trip::is_message(read[i]));
        assert(messages[i].additional_headers == read[i].additional_headers);
    }
    round_trip::written_messages_are_read(messages);
}

/// What is written when bodies are not looked at is read as the messages of
/// the input, and is its own normal form: normalizing it again changes
/// nothing. Left out are inputs with a header that is longer than a header may
/// be once its `Content-Length` line is in canonical form.
pub proof fn normalizing_is_idempotent(input: Seq<u8>)
    requires
        forall|i: int|
            0 <= i < frame::decode(input).frames.len() ==> round_trip::fits(
                #[trigger] frame::decode(input).frames[i],
            ),
    ensures
        ({
            let output = frame::encode_all(frame::decode(input).frames);
            &&& frame::decode(output).frames == frame::decode(input).frames
            &&& stream_result(output) is Ok
            &&& frame::encode_all(frame::decode(output).frames) == output
        }),
{
    round_trip::read_messages_are_messages(input);
    round_trip::written_messages_are_read(frame::decode(input).frames);
}

/// What a stream brings up to one more byte.
proof fn lemma_one_more_byte(start: frame::Progress, chunk: Seq<u8>, i: int)
    requires
        0 <= i < chunk.len(),
    ensures
        ({
            let before = frame::resume(start, chunk.take(i));
            let step = frame::resume(before.progress, seq![chunk[i]]);
            frame::resume(start, chunk.take(i + 1)) == (frame::Decoded {
                frames: before.frames + step.frames,
                progress: step.progress,
            })
        }),
{
    assert(chunk.take(i + 1) =~= chunk.take(i) + seq![chunk[i]]);
    frame::resume_in_pieces(start, chunk.take(i), seq![chunk[i]]);
}

/// What one more byte brings, where it completes at most one message.
proof fn lemma_byte_brings(progress: frame::Progress, byte: u8)
    requires
        progress matches frame::Progress::Pending(s) ==> (frame::next_frame(
            s.push(byte),
        ) matches frame::NextFrame::Complete { frame, length } ==> length == s.len() + 1),
    ensures
        frame::resume(progress, seq![byte]) == (match progress {
            frame::Progress::Failed(error) => frame::Decoded { frames: Seq::empty(), progress },
            frame::Progress::Pending(s) => match frame::next_frame(s.push(byte)) {
                frame::NextFrame::Incomplete => frame::Decoded {
                    frames: Seq::empty(),
                    progress: frame::Progress::Pending(s.push(byte)),
                },
                frame::NextFrame::Invalid(error) => frame::Decoded {
                    frames: Seq::empty(),
                    progress: frame::Progress::Failed(error),
                },
                frame::NextFrame::Complete { frame, length } => frame::Decoded {
                    frames: seq![frame],
                    progress: frame::Progress::Pending(Seq::empty()),
                },
            },
        }),
{
    if let frame::Progress::Pending(s) = progress {
        let more = s.push(byte);
        assert(s + seq![byte] =~= more);
        if let frame::NextFrame::Complete { frame, length } = frame::next_frame(more) {
            assert(more.skip(length as int) =~= Seq::<u8>::empty());
            round_trip::nothing_is_read_from_nothing();
            assert(seq![frame] + Seq::<Frame>::empty() =~= seq![frame]);
        }
    }
}

/// Nothing is read after a failure.
proof fn lemma_failure_is_final(start: frame::Progress, chunk: Seq<u8>, i: int)
    requires
        0 <= i <= chunk.len(),
        frame::resume(start, chunk.take(i)).progress is Failed,
    ensures
        frame::resume(start, chunk) == frame::resume(start, chunk.take(i)),
{
    assert(chunk =~= chunk.take(i) + chunk.skip(i));
    frame::resume_in_pieces(start, chunk.take(i), chunk.skip(i));
    let frames = frame::resume(start, chunk.take(i)).frames;
    assert(frames + Seq::<Frame>::empty() =~= frames);
}

/// Sends on one message: remembers or repairs it as the direction asks, and
/// appends it to the output.
pub fn relay_frame(
    direction: Direction,
    message: LspFrame,
    output: &mut Vec<u8>,
    state: &mut CompatibilityState,
)
    requires
        old(state).wf(),
    ensures
        final(state).wf(),
        final(state)@ == pending_after(direction, message@, old(state)@),
        final(output)@ == old(output)@ + frame::encode(sent(direction, message@, old(state)@)),
{
    let mut message = message;
    match direction {
        Direction::FromEditor => {
            diagnostics::remember_diagnostic_request(message.body.as_slice(), state);
        },
        Direction::FromTool4d => {
            diagnostics::rewrite_null_diagnostic_response(&mut message.body, state);
        },
        Direction::Neutral => {},
    }
    frame::write_lsp_frame(output, &message);
}

/// Takes the bytes that one read returned, and appends to the output every
/// message that they complete.
pub fn relay_chunk(
    direction: Direction,
    reader: &mut FrameReader,
    chunk: &[u8],
    output: &mut Vec<u8>,
    state: &mut CompatibilityState,
) -> (result: Result<(), RelayError>)
    requires
        old(reader).wf(),
        old(state).wf(),
    ensures
        final(reader).wf(),
        final(state).wf(),
        ({
            let decoded = frame::resume(old(reader)@, chunk@);
            &&& final(reader)@ == decoded.progress
            &&& final(state)@ == pending_after_all(direction, decoded.frames, old(state)@)
            &&& final(output)@ == old(output)@ + frame::encode_all(
                sent_all(direction, decoded.frames, old(state)@),
            )
            &&& result == (match decoded.progress {
                frame::Progress::Failed(error) => Err::<(), RelayError>(error),
                frame::Progress::Pending(_) => Ok::<(), RelayError>(()),
            })
        }),
{
    let ghost start = reader@;
    let ghost pending = state@;
    let ghost mut read: Seq<Frame> = Seq::empty();
    proof {
        reader.holds_an_incomplete_message();
        if let frame::Progress::Pending(s) = start {
            assert(s + chunk@.take(0) =~= s);
        }
        assert(sent_all(direction, read, pending) =~= Seq::<Frame>::empty());
        assert(output@ =~= old(output)@ + frame::encode_all(Seq::<Frame>::empty()));
    }
    let mut i: usize = 0;
    while i < chunk.len()
        invariant
            i <= chunk.len(),
            start == old(reader)@,
            pending == old(state)@,
            reader.wf(),
            state.wf(),
            frame::resume(start, chunk@.take(i as int)) == (frame::Decoded {
                frames: read,
                progress: reader@,
            }),
            state@ == pending_after_all(direction, read, pending),
            output@ == old(output)@ + frame::encode_all(sent_all(direction, read, pending)),
        decreases chunk.len() - i,
    {
        let byte = chunk[i];
        let ghost before = reader@;
        proof {
            lemma_one_more_byte(start, chunk@, i as int);
        }
        match reader.read_lsp_frame(Some(byte)) {
            Ok(FrameRead::Frame(message)) => {
                let ghost complete = message@;
                proof {
                    lemma_byte_brings(before, byte);
                    assert(read + seq![complete] =~= read.push(complete));
                    lemma_sent_push(direction, read, complete, pending);
                    lemma_encode_all_push(
                        sent_all(direction, read, pending),
                        sent(direction, complete, state@),
                    );
                }
                relay_frame(direction, message, output, state);
                proof {
                    read = read.push(complete);
                    assert(output@ =~= old(output)@ + frame::encode_all(
                        sent_all(direction, read, pending),
                    ));
                }
            },
            Ok(_) => {
                proof {
                    lemma_byte_brings(before, byte);
                    assert(read + Seq::<Frame>::empty() =~= read);
                }
            },
            Err(error) => {
                proof {
                    lemma_byte_brings(before, byte);
                    assert(read + Seq::<Frame>::empty() =~= read);
                    lemma_failure_is_final(start, chunk@, i + 1);
                }
                return Err(error);
            },
        }
        i = i + 1;
    }
    assert(chunk@.take(i as int) =~= chunk@);
    reader.failure()
}

/// A failure in one read is the failure of the stream.
proof fn lemma_failed_read_decides(reads: Seq<Vec<u8>>, i: int)
    requires
        0 <= i <= reads.len(),
        frame::decode(flattened(reads.take(i))).progress is Failed,
    ensures
        frame::decode(flattened(reads)) == frame::decode(flattened(reads.take(i))),
    decreases reads.len() - i,
{
    if i < reads.len() {
        let here = flattened(reads.take(i));
        assert(reads.take(i + 1).drop_last() =~= reads.take(i));
        frame::decode_in_pieces(here, reads[i]@);
        assert(frame::decode(here).frames + Seq::<Frame>::empty() =~= frame::decode(here).frames);
        lemma_failed_read_decides(reads, i + 1);
    } else {
        assert(reads.take(i) =~= reads);
    }
}

/// Relays a whole stream, given what its reads returned up to its end.
fn relay_stream(
    direction: Direction,
    reads: &[Vec<u8>],
    output: &mut Vec<u8>,
    state: &mut CompatibilityState,
) -> (result: Result<(), RelayError>)
    requires
        old(state).wf(),
    ensures
        final(state).wf(),
        ({
            let messages = frame::decode(flattened(reads@)).frames;
            &&& final(state)@ == pending_after_all(direction, messages, old(state)@)
            &&& final(output)@ == old(output)@ + frame::encode_all(
                sent_all(direction, messages, old(state)@),
            )
        }),
        result == stream_result(flattened(reads@)),
{
    let mut reader = FrameReader::new();
    let ghost pending = state@;
    let ghost mut messages: Seq<Frame> = Seq::empty();
    proof {
        round_trip::nothing_is_read_from_nothing();
        assert(sent_all(direction, messages, pending) =~= Seq::<Frame>::empty());
        assert(output@ =~= old(output)@ + frame::encode_all(Seq::<Frame>::empty()));
    }
    let mut i: usize = 0;
    while i < reads.len()
        invariant
            i <= reads.len(),
            pending == old(state)@,
            reader.wf(),
            state.wf(),
            reader@ is Pending,
            frame::decode(flattened(reads@.take(i as int))) == (frame::Decoded {
                frames: messages,
                progress: reader@,
            }),
            state@ == pending_after_all(direction, messages, pending),
            output@ == old(output)@ + frame::encode_all(sent_all(direction, messages, pending)),
        decreases reads.len() - i,
    {
        let chunk = reads[i].as_slice();
        let ghost more = frame::resume(reader@, chunk@).frames;
        proof {
            assert(reads@.take(i + 1).drop_last() =~= reads@.take(i as int));
            frame::decode_in_pieces(flattened(reads@.take(i as int)), chunk@);
            sent_in_pieces(direction, messages, more, pending);
            lemma_encode_all_concat(
                sent_all(direction, messages, pending),
                sent_all(direction, more, state@),
            );
        }
        let result = relay_chunk(direction, &mut reader, chunk, output, state);
        proof {
            messages = messages + more;
            assert(output@ =~= old(output)@ + frame::encode_all(
                sent_all(direction, messages, pending),
            ));
        }
        if let Err(error) = result {
            proof {
                lemma_failed_read_decides(reads@, i + 1);
            }
            return Err(error);
        }
        i = i + 1;
    }
    assert(reads@.take(i as int) =~= reads@);
    match reader.read_lsp_frame(None) {
        Ok(_) => Ok(()),
        Err(error) => Err(error),
    }
}

/// Relays messages from the editor to `tool4d`.
///
/// `reads` is what the reads of the stream returned, up to its end. Bodies are
/// sent on byte for byte; requests for diagnostics are remembered.
pub fn relay_editor_stream(
    reads: &[Vec<u8>],
    output: &mut Vec<u8>,
    state: &mut CompatibilityState,
) -> (result: Result<(), RelayError>)
    requires
        old(state).wf(),
    ensures
        final(state).wf(),
        final(state)@ == pending_after_all(
            Direction::FromEditor,
            frame::decode(flattened(reads@)).frames,
            old(state)@,
        ),
        final(output)@ == old(output)@ + frame::encode_all(
            frame::decode(flattened(reads@)).frames,
        ),
        result == stream_result(flattened(reads@)),
{
    proof {
        bodies_are_preserved(
            Direction::FromEditor,
            frame::decode(flattened(reads@)).frames,
            state@,
        );
    }
    relay_stream(Direction::FromEditor, reads, output, state)
}

/// Relays messages from `tool4d` to the editor.
///
/// `reads` is what the reads of the stream returned, up to its end. An answer
/// to a remembered request for diagnostics whose result is `null` is given an
/// empty report; all other bodies are sent on byte for byte.
pub fn relay_tool4d_stream(
    reads: &[Vec<u8>],
    output: &mut Vec<u8>,
    state: &mut CompatibilityState,
) -> (result: Result<(), RelayError>)
    requires
        old(state).wf(),
    ensures
        final(state).wf(),
        final(state)@ == pending_after_all(
            Direction::FromTool4d,
            frame::decode(flattened(reads@)).frames,
            old(state)@,
        ),
        final(output)@ == old(output)@ + frame::encode_all(
            sent_all(
                Direction::FromTool4d,
                frame::decode(flattened(reads@)).frames,
                old(state)@,
            ),
        ),
        result == stream_result(flattened(reads@)),
{
    relay_stream(Direction::FromTool4d, reads, output, state)
}

/// Reads messages and writes them with canonical `Content-Length` headers.
///
/// `reads` is what the reads of the stream returned, up to its end. Bodies are
/// neither looked at nor changed.
pub fn normalize_lsp_stream(reads: &[Vec<u8>], output: &mut Vec<u8>) -> (result: Result<
    (),
    RelayError,
>)
    ensures
        final(output)@ == old(output)@ + frame::encode_all(
            frame::decode(flattened(reads@)).frames,
        ),
        result == stream_result(flattened(reads@)),
{
    let mut state = CompatibilityState::default();
    proof {
        bodies_are_preserved(Direction::Neutral, frame::decode(flattened(reads@)).frames, state@);
    }
    relay_stream(Direction::Neutral, reads, output, &mut state)
}

} // verus!
