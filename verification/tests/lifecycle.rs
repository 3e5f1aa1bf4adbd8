use tool4d_lsp_stdio::launch::{connect_with_retry, tool4d_arguments, Startup, StartupEvent};
use tool4d_lsp_stdio::process::{terminate_child, Termination, TerminationEvent};

fn terminate(events: &[TerminationEvent]) -> Termination {
    events
        .iter()
        .fold(Termination::Inspect, |step, event| {
            terminate_child(step, *event)
        })
}

#[test]
fn the_tool_gets_its_arguments() {
    assert_eq!(
        tool4d_arguments("/p.4DProject", 19876, true, true, None),
        vec![
            "--project=/p.4DProject",
            "--lsp=19876",
            "--skip-onstartup",
            "--dataless"
        ]
    );
    assert_eq!(
        tool4d_arguments("", 0, false, false, Some("debug")),
        vec!["--project=", "--lsp=0", "--log-level=debug"]
    );
    assert_eq!(
        tool4d_arguments("p", 65535, false, true, None),
        vec!["--project=p", "--lsp=65535", "--dataless"]
    );
}

#[test]
fn the_adapter_waits_for_a_running_tool() {
    let timeout = 1_000;
    let step = connect_with_retry(Startup::Inspect, StartupEvent::Running, timeout);
    assert_eq!(step, Startup::Attempt);
    let step = connect_with_retry(step, StartupEvent::NoConnection { elapsed: 999 }, timeout);
    assert_eq!(step, Startup::Pause);
    let step = connect_with_retry(step, StartupEvent::Paused, timeout);
    assert_eq!(step, Startup::Inspect);
    let step = connect_with_retry(step, StartupEvent::Running, timeout);
    let step = connect_with_retry(step, StartupEvent::Connection, timeout);
    assert_eq!(step, Startup::Connected);
}

#[test]
fn the_adapter_gives_up_when_the_time_is_over() {
    assert_eq!(
        connect_with_retry(
            Startup::Attempt,
            StartupEvent::NoConnection { elapsed: 1_000 },
            1_000
        ),
        Startup::TimedOut
    );
    assert_eq!(
        connect_with_retry(
            Startup::Attempt,
            StartupEvent::NoConnection { elapsed: 0 },
            0
        ),
        Startup::TimedOut
    );
}

#[test]
fn a_tool_that_has_ended_is_not_waited_for() {
    assert_eq!(
        connect_with_retry(Startup::Inspect, StartupEvent::HasExited, 1_000),
        Startup::Exited
    );
}

#[test]
fn a_step_is_kept_where_the_event_says_nothing_of_it() {
    assert_eq!(
        connect_with_retry(Startup::Inspect, StartupEvent::Paused, 1_000),
        Startup::Inspect
    );
    assert_eq!(
        terminate_child(Termination::Done, TerminationEvent::Running),
        Termination::Done
    );
}

#[test]
fn a_tool_that_has_ended_is_not_terminated() {
    assert_eq!(
        terminate(&[TerminationEvent::Exited]),
        Termination::Done
    );
}

#[test]
fn a_tool_may_end_when_it_is_asked_to() {
    assert_eq!(
        terminate(&[TerminationEvent::Running, TerminationEvent::Completed]),
        Termination::Await
    );
    assert_eq!(
        terminate(&[
            TerminationEvent::Running,
            TerminationEvent::Completed,
            TerminationEvent::Exited
        ]),
        Termination::Done
    );
}

#[test]
fn a_tool_that_does_not_end_is_killed() {
    for third in [TerminationEvent::Running, TerminationEvent::Failed] {
        let events = [
            TerminationEvent::Failed,
            TerminationEvent::Failed,
            third,
            TerminationEvent::Failed,
            TerminationEvent::Failed,
        ];
        let steps = [
            Termination::Ask,
            Termination::Await,
            Termination::Kill,
            Termination::Reap,
            Termination::Done,
        ];
        for length in 0..5 {
            assert_eq!(terminate(&events[..length + 1]), steps[length]);
        }
    }
}
