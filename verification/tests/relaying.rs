use tool4d_lsp_stdio::diagnostics::{
    answered_request_id, diagnostic_request_id, needs_empty_report, remember_diagnostic_request,
    rewrite_null_diagnostic_response, RequestId,
};
use tool4d_lsp_stdio::error::RelayError;
use tool4d_lsp_stdio::frame::{write_lsp_frame, FrameRead, FrameReader, LspFrame};
use tool4d_lsp_stdio::json::JsonValue;
use tool4d_lsp_stdio::relay::{
    closing_result, normalize_lsp_stream, relay_chunk, relay_editor_stream, relay_tool4d_stream,
    session_state, socket_event, stdin_event, Closing, CompatibilityState, Direction, RelayEvent,
    SessionEvent, SessionState,
};

const REPORT: &str = r#"{"items":[],"kind":"full"}"#;

fn message(body: &str) -> Vec<u8> {
    format!("Content-Length: {}\r\n\r\n{}", body.len(), body).into_bytes()
}

fn from_editor(state: &mut CompatibilityState, body: &str) -> Vec<u8> {
    let mut output = Vec::new();
    relay_editor_stream(&[message(body)], &mut output, state).expect("a whole message");
    output
}

fn from_tool4d(state: &mut CompatibilityState, body: &str) -> Vec<u8> {
    let mut output = Vec::new();
    relay_tool4d_stream(&[message(body)], &mut output, state).expect("a whole message");
    output
}

fn rewritten(state: &mut CompatibilityState, body: &str) -> String {
    let mut body = body.as_bytes().to_vec();
    rewrite_null_diagnostic_response(&mut body, state);
    String::from_utf8(body).expect("JSON is UTF-8")
}

#[test]
fn messages_before_a_failure_are_sent_on() {
    let mut input = b"Content-Length:2\r\n\r\n{}".to_vec();
    input.extend_from_slice(b"nonsense\r\n\r\n");
    input.extend_from_slice(b"Content-Length:2\r\n\r\n[]");

    let mut output = b"before ".to_vec();

    assert_eq!(
        normalize_lsp_stream(&[input], &mut output),
        Err(RelayError::MissingColon)
    );
    assert_eq!(output, b"before Content-Length: 2\r\n\r\n{}");
}

#[test]
fn every_way_to_cut_a_stream_gives_the_same_output() {
    let mut input = b"Content-Length:2\r\nX: y\r\n\r\n{}".to_vec();
    input.extend_from_slice(b"content-length : 0\r\n\r\n");
    input.extend_from_slice(b"A:b\r\nContent-Length: 3\r\nC : d \r\n\r\nabc");

    let expected = b"Content-Length: 2\r\nX: y\r\n\r\n{}\
        Content-Length: 0\r\n\r\n\
        Content-Length: 3\r\nA:b\r\nC : d \r\n\r\nabc"
        .to_vec();

    for size in 1..input.len() + 1 {
        let mut reads: Vec<Vec<u8>> = input.chunks(size).map(<[u8]>::to_vec).collect();
        reads.insert(0, Vec::new());

        let mut output = Vec::new();
        assert_eq!(normalize_lsp_stream(&reads, &mut output), Ok(()));
        assert_eq!(output, expected);
    }
}

#[test]
fn normalizing_twice_changes_nothing_more() {
    let input = b"A:b\r\ncontent-length:  003\r\n\r\nabc".to_vec();

    let mut once = Vec::new();
    assert_eq!(normalize_lsp_stream(&[input], &mut once), Ok(()));
    assert_eq!(once, b"Content-Length: 3\r\nA:b\r\n\r\nabc");

    let mut twice = Vec::new();
    assert_eq!(normalize_lsp_stream(&[once.clone()], &mut twice), Ok(()));
    assert_eq!(twice, once);
}

#[test]
fn a_reader_hands_out_a_message_with_its_last_byte() {
    let mut reader = FrameReader::new();
    let input = b"Content-Length: 2\r\nX: y\r\n\r\n{}";

    for byte in &input[..input.len() - 1] {
        assert!(matches!(
            reader.read_lsp_frame(Some(*byte)),
            Ok(FrameRead::More)
        ));
    }
    match reader.read_lsp_frame(Some(b'}')) {
        Ok(FrameRead::Frame(frame)) => {
            assert_eq!(frame.additional_headers, vec![b"X: y".to_vec()]);
            assert_eq!(frame.body, b"{}");
        }
        other => panic!("unexpected: {other:?}"),
    }
    assert!(matches!(
        reader.read_lsp_frame(None),
        Ok(FrameRead::EndOfStream)
    ));
}

#[test]
fn a_reader_that_failed_repeats_its_failure() {
    let mut reader = FrameReader::new();

    for byte in b"\r\n\r" {
        assert!(reader.read_lsp_frame(Some(*byte)).is_ok());
    }
    for _ in 0..2 {
        assert!(matches!(
            reader.read_lsp_frame(Some(b'\n')),
            Err(RelayError::EmptyHeader)
        ));
    }
    assert_eq!(reader.failure(), Err(RelayError::EmptyHeader));
}

#[test]
fn a_written_message_is_read_back() {
    let frame = LspFrame {
        additional_headers: vec![b"A: b".to_vec(), b"C:d".to_vec()],
        body: b"\r\n\r\n\0".to_vec(),
    };
    let mut output = Vec::new();
    write_lsp_frame(&mut output, &frame);
    assert_eq!(
        output,
        b"Content-Length: 5\r\nA: b\r\nC:d\r\n\r\n\r\n\r\n\0"
    );

    let mut reader = FrameReader::new();
    let mut read = Vec::new();
    for byte in output {
        if let Ok(FrameRead::Frame(frame)) = reader.read_lsp_frame(Some(byte)) {
            read.push(frame);
        }
    }
    assert_eq!(read.len(), 1);
    assert_eq!(read[0].additional_headers, frame.additional_headers);
    assert_eq!(read[0].body, frame.body);
}

#[test]
fn a_chunk_sends_on_what_it_completes() {
    let mut reader = FrameReader::new();
    let mut output = Vec::new();
    let mut state = CompatibilityState::default();

    let first = b"Content-Length:1\r\n\r\naContent-Length:1\r\n\r\n";
    assert_eq!(
        relay_chunk(
            Direction::Neutral,
            &mut reader,
            first,
            &mut output,
            &mut state
        ),
        Ok(())
    );
    assert_eq!(output, b"Content-Length: 1\r\n\r\na");

    output.clear();
    assert_eq!(
        relay_chunk(
            Direction::Neutral,
            &mut reader,
            b"b:\r\n\r\n",
            &mut output,
            &mut state
        ),
        Err(RelayError::EmptyName)
    );
    assert_eq!(output, b"Content-Length: 1\r\n\r\nb");
}

#[test]
fn a_repaired_answer_keeps_its_other_members() {
    let mut state = CompatibilityState::default();
    from_editor(&mut state, r#"{"method":"textDocument/diagnostic","id":1}"#);

    assert_eq!(
        rewritten(
            &mut state,
            r#"{"z":[1,{"y":"\u00e9\n"}],"result":null,"id":1,"a":-7,"t":true}"#
        ),
        format!(
            "{{\"a\":-7,\"id\":1,\"result\":{REPORT},\"t\":true,\"z\":[1,{{\"y\":\"\u{e9}\\n\"}}]}}"
        )
    );
}

#[test]
fn numbers_and_strings_are_different_ids() {
    let mut state = CompatibilityState::default();
    from_editor(
        &mut state,
        r#"{"method":"textDocument/diagnostic","id":"5"}"#,
    );

    let number = r#"{"id":5,"result":null}"#;
    assert_eq!(rewritten(&mut state, number), number);
    assert_eq!(
        rewritten(&mut state, r#"{"id":"5","result":null}"#),
        format!("{{\"id\":\"5\",\"result\":{REPORT}}}")
    );
}

#[test]
fn only_numbers_and_strings_are_ids() {
    for id in ["null", "true", "[1]", "{}"] {
        let mut state = CompatibilityState::default();
        from_editor(
            &mut state,
            &format!("{{\"method\":\"textDocument/diagnostic\",\"id\":{id}}}"),
        );

        let answer = format!("{{\"id\":{id},\"result\":null}}");
        assert_eq!(rewritten(&mut state, &answer), answer);
    }
}

#[test]
fn an_answer_without_result_or_with_a_null_error_is_unchanged() {
    for answer in [r#"{"id":1}"#, r#"{"id":1,"error":null,"result":null}"#] {
        let mut state = CompatibilityState::default();
        from_editor(&mut state, r#"{"method":"textDocument/diagnostic","id":1}"#);

        assert_eq!(rewritten(&mut state, answer), answer);
    }
}

#[test]
fn texts_that_are_no_objects_are_unchanged() {
    let mut state = CompatibilityState::default();

    for body in ["", "null", "[]", "\"id\"", "1", "{} {}"] {
        assert_eq!(from_editor(&mut state, body), message(body));
        assert_eq!(from_tool4d(&mut state, body), message(body));
    }
}

#[test]
fn a_text_that_is_nested_too_deep_is_unchanged() {
    let mut state = CompatibilityState::default();
    from_editor(&mut state, r#"{"method":"textDocument/diagnostic","id":1}"#);

    let deep = format!(
        "{{\"id\":1,\"result\":null,\"x\":{}{}}}",
        "[".repeat(127),
        "]".repeat(127)
    );
    assert_eq!(rewritten(&mut state, &deep), deep);

    let less = format!(
        "{{\"id\":1,\"result\":null,\"x\":{}{}}}",
        "[".repeat(126),
        "]".repeat(126)
    );
    assert_eq!(
        rewritten(&mut state, &less),
        less.replace("null", REPORT)
    );
}

#[test]
fn directions_interleave() {
    let mut state = CompatibilityState::default();

    from_editor(&mut state, r#"{"method":"textDocument/diagnostic","id":1}"#);
    from_editor(&mut state, r#"{"method":"textDocument/diagnostic","id":2}"#);
    from_tool4d(&mut state, r#"{"id":2,"result":{}}"#);
    from_editor(&mut state, r#"{"method":"textDocument/hover","id":3}"#);
    from_editor(&mut state, r#"{"method":"textDocument/diagnostic","id":2}"#);

    for id in [1, 2] {
        assert_eq!(
            from_tool4d(&mut state, &format!("{{\"id\":{id},\"result\":null}}")),
            message(&format!("{{\"id\":{id},\"result\":{REPORT}}}"))
        );
    }
    assert_eq!(
        from_tool4d(&mut state, r#"{"id":3,"result":null}"#),
        message(r#"{"id":3,"result":null}"#)
    );
}

#[test]
fn a_request_of_tool4d_ends_no_wait() {
    let mut state = CompatibilityState::default();
    from_editor(
        &mut state,
        r#"{"jsonrpc":"2.0","id":1,"method":"textDocument/diagnostic","params":{}}"#,
    );

    let request =
        message(r#"{"jsonrpc":"2.0","id":1,"method":"workspace/configuration","params":{}}"#);
    let mut input = request.clone();
    input.extend_from_slice(&message(r#"{"jsonrpc":"2.0","id":1,"result":null}"#));

    let mut expected = request;
    expected.extend_from_slice(&message(&format!(
        "{{\"id\":1,\"jsonrpc\":\"2.0\",\"result\":{REPORT}}}"
    )));

    let mut output = Vec::new();
    assert_eq!(
        relay_tool4d_stream(&[input], &mut output, &mut state),
        Ok(())
    );
    assert_eq!(output, expected);
}

#[test]
fn a_method_does_not_hide_an_answer() {
    for method in ["\"m\"", "null", "7"] {
        let mut state = CompatibilityState::default();
        from_editor(&mut state, r#"{"method":"textDocument/diagnostic","id":1}"#);

        assert_eq!(
            rewritten(
                &mut state,
                &format!("{{\"id\":1,\"method\":{method},\"result\":null}}")
            ),
            format!("{{\"id\":1,\"method\":{method},\"result\":{REPORT}}}")
        );
    }
}

#[test]
fn whatever_is_no_request_ends_the_wait() {
    for body in [
        r#"{"id":1}"#,
        r#"{"id":1,"method":null}"#,
        r#"{"id":1,"method":"m","result":{}}"#,
        r#"{"id":1,"method":"m","error":null}"#,
    ] {
        let mut state = CompatibilityState::default();
        from_editor(&mut state, r#"{"method":"textDocument/diagnostic","id":1}"#);

        assert_eq!(rewritten(&mut state, body), body);

        let answer = r#"{"id":1,"result":null}"#;
        assert_eq!(rewritten(&mut state, answer), answer);
    }
}

#[test]
fn a_request_is_remembered_once() {
    let mut state = CompatibilityState::default();

    for _ in 0..2 {
        remember_diagnostic_request(
            br#"{"method":"textDocument/diagnostic","id":1}"#,
            &mut state,
        );
    }

    let answer = r#"{"id":1,"result":null}"#;
    assert_ne!(rewritten(&mut state, answer), answer);
    assert_eq!(rewritten(&mut state, answer), answer);
}

#[test]
fn pending_requests_form_a_set() {
    let mut state = CompatibilityState::default();

    state.insert(RequestId::Number("1".to_owned()));
    state.insert(RequestId::String("a".to_owned()));
    state.insert(RequestId::Number("2".to_owned()));

    assert!(!state.remove(&RequestId::String("1".to_owned())));
    assert!(state.remove(&RequestId::Number("1".to_owned())));
    assert!(!state.remove(&RequestId::Number("1".to_owned())));
    assert!(state.remove(&RequestId::Number("2".to_owned())));
    assert!(state.remove(&RequestId::String("a".to_owned())));
}

#[test]
fn a_number_is_an_id_by_its_text() {
    let mut state = CompatibilityState::default();
    from_editor(
        &mut state,
        r#"{"method":"textDocument/diagnostic","id":1.50}"#,
    );

    assert_eq!(
        rewritten(&mut state, r#"{"id":15e-1,"result":null}"#),
        format!("{{\"id\":1.5,\"result\":{REPORT}}}")
    );
}

#[test]
fn the_rules_read_plain_values() {
    let method = || Some(JsonValue::Text("textDocument/diagnostic".to_owned()));

    assert!(matches!(
        diagnostic_request_id(method(), Some(JsonValue::Number("7".to_owned()))),
        Some(RequestId::Number(number)) if number == "7"
    ));
    assert!(matches!(
        diagnostic_request_id(method(), Some(JsonValue::Text("7".to_owned()))),
        Some(RequestId::String(string)) if string == "7"
    ));
    assert!(diagnostic_request_id(method(), None).is_none());
    assert!(diagnostic_request_id(method(), Some(JsonValue::Null)).is_none());
    assert!(diagnostic_request_id(
        Some(JsonValue::Text("textDocument/hover".to_owned())),
        Some(JsonValue::Number("7".to_owned()))
    )
    .is_none());
    assert!(diagnostic_request_id(None, Some(JsonValue::Number("7".to_owned()))).is_none());

    let number = Some(JsonValue::Number("7".to_owned()));
    let null = Some(JsonValue::Null);
    for (method, error, result) in [
        (&None, &None, &None),
        (&None, &None, &null),
        (&null, &None, &None),
        (&method(), &null, &None),
        (&method(), &None, &null),
    ] {
        assert!(matches!(
            answered_request_id(method, &number, error, result),
            Some(RequestId::Number(number)) if number == "7"
        ));
    }
    assert!(matches!(
        answered_request_id(&None, &Some(JsonValue::Text("7".to_owned())), &None, &null),
        Some(RequestId::String(string)) if string == "7"
    ));
    assert!(answered_request_id(&method(), &number, &None, &None).is_none());
    assert!(answered_request_id(&None, &Some(JsonValue::Array), &None, &null).is_none());
    assert!(answered_request_id(&None, &None, &None, &null).is_none());

    assert!(needs_empty_report(&None, &Some(JsonValue::Null)));
    assert!(!needs_empty_report(&None, &Some(JsonValue::Object)));
    assert!(!needs_empty_report(&None, &None));
    assert!(!needs_empty_report(
        &Some(JsonValue::Null),
        &Some(JsonValue::Null)
    ));
}

#[test]
fn a_socket_that_is_gone_counts_as_closed() {
    for closing in [Closing::Closed, Closing::NotConnected, Closing::BrokenPipe] {
        assert!(closing_result(closing).is_ok());
    }
    let failed = closing_result(Closing::Failed(std::io::Error::other("busy")));
    assert!(matches!(failed, Err(error) if error.to_string() == "busy"));
}

#[test]
fn any_event_ends_a_session() {
    assert!(matches!(
        session_state(SessionEvent::Nothing),
        SessionState::Running
    ));
    for event in [
        SessionEvent::Reported(RelayEvent::StdinClosed),
        SessionEvent::Reported(RelayEvent::SocketClosed),
        SessionEvent::WorkersGone,
        SessionEvent::ToolExited,
    ] {
        assert!(matches!(session_state(event), SessionState::Ended));
    }
    match session_state(SessionEvent::Reported(stdin_event(Err(
        std::io::Error::other("reset"),
    )))) {
        SessionState::Failed { direction, error } => {
            assert_eq!(direction, "stdin-to-socket");
            assert_eq!(error.to_string(), "reset");
        }
        other => panic!("unexpected: {other:?}"),
    }
}

#[test]
fn workers_report_how_they_ended() {
    assert!(matches!(stdin_event(Ok(())), RelayEvent::StdinClosed));
    assert!(matches!(socket_event(Ok(())), RelayEvent::SocketClosed));

    match stdin_event(Err(std::io::Error::other("first"))) {
        RelayEvent::Error { direction, error } => {
            assert_eq!(direction, "stdin-to-socket");
            assert_eq!(error.to_string(), "first");
        }
        other => panic!("unexpected: {other:?}"),
    }
    match socket_event(Err(std::io::Error::other("second"))) {
        RelayEvent::Error { direction, error } => {
            assert_eq!(direction, "socket-to-stdout");
            assert_eq!(error.to_string(), "second");
        }
        other => panic!("unexpected: {other:?}"),
    }
}
