//! Starting the tool: the arguments that it gets, and how long the adapter
//! waits for its connection.
use vstd::prelude::*;
use vstd::string::*;

use crate::text;

verus! {

/// The arguments that the tool is started with.
pub open spec fn arguments(
    project: Seq<char>,
    port: nat,
    skip_onstartup: bool,
    dataless: bool,
    log_level: Option<Seq<char>>,
) -> Seq<Seq<char>> {
    seq!["--project="@ + project, "--lsp="@ + text::decimal_chars(port)] + (if skip_onstartup {
        seq!["--skip-onstartup"@]
    } else {
        seq![]
    }) + (if dataless {
        seq!["--dataless"@]
    } else {
        seq![]
    }) + (match log_level {
        Some(level) => seq!["--log-level="@ + level],
        None => seq![],
    })
}

/// Lists the arguments that the tool is started with: the project, the port
/// that it connects to, and what was asked for besides.
pub fn tool4d_arguments(
    project: &str,
    port: u16,
    skip_onstartup: bool,
    dataless: bool,
    log_level: Option<&str>,
) -> (result: Vec<String>)
    ensures
        text::texts(result@) == arguments(
            project@,
            port as nat,
            skip_onstartup,
            dataless,
            match log_level {
                Some(level) => Some(level@),
                None => None,
            },
        ),
{
    let mut project_argument = "--project=".to_owned();
    project_argument.append(project);
    let mut port_argument = "--lsp=".to_owned();
    text::append_decimal(&mut port_argument, port as usize);
    let mut result: Vec<String> = Vec::new();
    result.push(project_argument);
    result.push(port_argument);
    if skip_onstartup {
        result.push("--skip-onstartup".to_owned());
    }
    if dataless {
        result.push("--dataless".to_owned());
    }
    match log_level {
        Some(level) => {
            let mut level_argument = "--log-level=".to_owned();
            level_argument.append(level);
            result.push(level_argument);
        },
        None => {},
    }
    assert(text::texts(result@) =~= arguments(
        project@,
        port as nat,
        skip_onstartup,
        dataless,
        match log_level {
            Some(level) => Some(level@),
            None => None,
        },
    ));
    result
}

/// A step of waiting for the tool to connect.
#[derive(Clone, Copy, Debug, PartialEq, Eq, Structural)]
pub enum Startup {
    /// Find out whether the tool still runs.
    Inspect,
    /// Look for a connection.
    Attempt,
    /// Pause for a moment.
    Pause,
    /// The tool is connected.
    Connected,
    /// The tool has ended without a connection.
    Exited,
    /// The time is over.
    TimedOut,
}

/// What came of a step. Times are in nanoseconds.
#[derive(Clone, Copy, Debug, PartialEq, Eq, Structural)]
pub enum StartupEvent {
    /// The tool still runs.
    Running,
    /// The tool has ended.
    HasExited,
    /// There is a connection.
    Connection,
    /// There is no connection after so much time since the start.
    NoConnection { elapsed: u128 },
    /// The pause is over.
    Paused,
}

/// The event is one that the step can bring.
pub open spec fn fits(step: Startup, event: StartupEvent) -> bool {
    match step {
        Startup::Inspect => event is Running || event is HasExited,
        Startup::Attempt => event is Connection || event is NoConnection,
        Startup::Pause => event is Paused,
        _ => false,
    }
}

/// The step that follows.
pub open spec fn next(step: Startup, event: StartupEvent, timeout: u128) -> Startup {
    match (step, event) {
        (Startup::Inspect, StartupEvent::Running) => Startup::Attempt,
        (Startup::Inspect, StartupEvent::HasExited) => Startup::Exited,
        (Startup::Attempt, StartupEvent::Connection) => Startup::Connected,
        (Startup::Attempt, StartupEvent::NoConnection { elapsed }) => if elapsed < timeout {
            Startup::Pause
        } else {
            Startup::TimedOut
        },
        (Startup::Pause, StartupEvent::Paused) => Startup::Inspect,
        _ => step,
    }
}

/// Decides what to do after a step of waiting for the tool. An event that the
/// step cannot bring leaves it as it is.
pub fn connect_with_retry(step: Startup, event: StartupEvent, timeout: u128) -> (following: Startup)
    ensures
        following == next(step, event, timeout),
{
    match (step, event) {
        (Startup::Inspect, StartupEvent::Running) => Startup::Attempt,
        (Startup::Inspect, StartupEvent::HasExited) => Startup::Exited,
        (Startup::Attempt, StartupEvent::Connection) => Startup::Connected,
        (Startup::Attempt, StartupEvent::NoConnection { elapsed }) => {
            if elapsed < timeout {
                Startup::Pause
            } else {
                Startup::TimedOut
            }
        },
        (Startup::Pause, StartupEvent::Paused) => Startup::Inspect,
        _ => step,
    }
}

/// The step after several events.
pub open spec fn run(events: Seq<StartupEvent>, timeout: u128) -> Startup
    decreases events.len(),
{
    if events.len() == 0 {
        Startup::Inspect
    } else {
        next(run(events.drop_last(), timeout), events.last(), timeout)
    }
}

/// Each event is one that its step can bring.
pub open spec fn is_run(events: Seq<StartupEvent>, timeout: u128) -> bool
    decreases events.len(),
{
    events.len() > 0 ==> is_run(events.drop_last(), timeout) && fits(
        run(events.drop_last(), timeout),
        events.last(),
    )
}

/// Each of the looks for a connection came in vain at least so long after the
/// one before it.
pub open spec fn is_paced(events: Seq<StartupEvent>, pace: nat) -> bool {
    forall|i: int, j: int|
        0 <= i < j < events.len() && #[trigger] events[i] is NoConnection
            && #[trigger] events[j] is NoConnection ==> events[i]->elapsed + pace
            <= events[j]->elapsed
}

/// The wait never gives up early: when it does, it has just looked for a
/// connection, and the time was over.
pub proof fn the_wait_lasts(events: Seq<StartupEvent>, timeout: u128)
    requires
        is_run(events, timeout),
        run(events, timeout) is TimedOut,
    ensures
        events.len() > 0,
        events.last() is NoConnection,
        events.last()->elapsed >= timeout,
{
}

/// A connection is looked for only after the tool was seen to run.
pub proof fn a_running_tool_is_waited_for(events: Seq<StartupEvent>, timeout: u128)
    requires
        is_run(events, timeout),
        run(events, timeout) is Attempt,
    ensures
        events.len() > 0,
        events.last() is Running,
{
}

proof fn lemma_round(events: Seq<StartupEvent>, timeout: u128)
    requires
        is_run(events, timeout),
        run(events, timeout) is Inspect,
        events.len() > 0,
    ensures
        events.len() >= 3,
        is_run(events.take(events.len() - 3), timeout),
        run(events.take(events.len() - 3), timeout) is Inspect,
        events[events.len() - 2] is NoConnection,
        events[events.len() - 2]->elapsed < timeout,
{
    reveal_with_fuel(run, 4);
    reveal_with_fuel(is_run, 4);
    assert(events.take(events.len() - 3) =~= events.drop_last().drop_last().drop_last());
}

proof fn lemma_rounds_take_time(events: Seq<StartupEvent>, timeout: u128, pace: nat)
    requires
        is_run(events, timeout),
        run(events, timeout) is Inspect,
        is_paced(events, pace),
        events.len() > 0,
    ensures
        events.len() >= 3,
        events[events.len() - 2] is NoConnection,
        3 * events[events.len() - 2]->elapsed >= (events.len() - 3) * pace,
        events[events.len() - 2]->elapsed < timeout,
    decreases events.len(),
{
    lemma_round(events, timeout);
    let earlier = events.take(events.len() - 3);
    if earlier.len() > 0 {
        lemma_rounds_take_time(earlier, timeout, pace);
        assert(earlier[earlier.len() - 2] == events[events.len() - 5]);
        assert((events.len() - 3) * pace == (earlier.len() - 3) * pace + 3 * pace)
            by (nonlinear_arith)
            requires
                earlier.len() == events.len() - 3,
        ;
    } else {
        assert(events.len() == 3);
        assert((events.len() - 3) * pace == 0) by (nonlinear_arith)
            requires
                events.len() == 3,
        ;
    }
}

/// The wait ends: where the looks for a connection are at least so far apart,
/// the rounds of three events that it goes through fit into the time.
pub proof fn the_wait_ends(events: Seq<StartupEvent>, timeout: u128, pace: nat)
    requires
        is_run(events, timeout),
        is_paced(events, pace),
    ensures
        (events.len() - 6) * pace < 3 * timeout || events.len() <= 6,
{
    reveal_with_fuel(run, 4);
    reveal_with_fuel(is_run, 4);
    if events.len() > 6 {
        let one = events.drop_last();
        let two = one.drop_last();
        let three = two.drop_last();
        let inspected = if run(events, timeout) is Inspect {
            events
        } else if run(one, timeout) is Inspect {
            one
        } else if run(two, timeout) is Inspect {
            two
        } else {
            three
        };
        assert(run(inspected, timeout) is Inspect);
        assert(inspected =~= events.take(inspected.len() as int));
        lemma_rounds_take_time(inspected, timeout, pace);
        assert((events.len() - 6) * pace <= (inspected.len() - 3) * pace) by (nonlinear_arith)
            requires
                inspected.len() >= events.len() - 3,
                pace >= 0,
        ;
    }
}

/// The tool is told the project and the port first, and then, in this order
/// and only if asked for, not to run startup methods, to do without data, and
/// how much to log. Nothing else is passed.
pub proof fn the_tool_is_told_what_was_asked_for(
    project: Seq<char>,
    port: nat,
    skip_onstartup: bool,
    dataless: bool,
    log_level: Option<Seq<char>>,
)
    ensures
        ({
            let told = arguments(project, port, skip_onstartup, dataless, log_level);
            let skipped: int = if skip_onstartup {
                1
            } else {
                0
            };
            let without: int = if dataless {
                1
            } else {
                0
            };
            let logged: int = if log_level is Some {
                1
            } else {
                0
            };
            &&& told.len() == 2 + skipped + without + logged
            &&& told[0] == "--project="@ + project
            &&& told[1] == "--lsp="@ + text::decimal_chars(port)
            &&& skip_onstartup ==> told[2] == "--skip-onstartup"@
            &&& dataless ==> told[2 + skipped] == "--dataless"@
            &&& log_level matches Some(level) ==> told.last() == "--log-level="@ + level
        }),
{
}

/// The last event alone tells where the wait stands.
pub proof fn the_last_event_decides(events: Seq<StartupEvent>, timeout: u128)
    requires
        is_run(events, timeout),
    ensures
        events.len() == 0 ==> run(events, timeout) == Startup::Inspect,
        events.len() > 0 ==> run(events, timeout) == (match events.last() {
            StartupEvent::Running => Startup::Attempt,
            StartupEvent::HasExited => Startup::Exited,
            StartupEvent::Connection => Startup::Connected,
            StartupEvent::NoConnection { elapsed } => if elapsed < timeout {
                Startup::Pause
            } else {
                Startup::TimedOut
            },
            StartupEvent::Paused => Startup::Inspect,
        }),
{
}

/// A tool that is slow to connect is waited for: as long as it runs and the
/// time is not over, each look that finds no connection is followed by a pause
/// and another look, and a connection is taken whenever it comes.
pub proof fn a_slow_tool_is_waited_for(
    elapsed: Seq<u128>,
    timeout: u128,
)
    requires
        forall|i: int| 0 <= i < elapsed.len() ==> #[trigger] elapsed[i] < timeout,
    ensures
        is_run(waiting(elapsed), timeout),
        run(waiting(elapsed), timeout) == Startup::Inspect,
        run(waiting(elapsed).push(StartupEvent::HasExited), timeout) == Startup::Exited,
        run(
            waiting(elapsed).push(StartupEvent::Running).push(StartupEvent::Connection),
            timeout,
        ) == Startup::Connected,
        forall|late: u128|
            late >= timeout ==> #[trigger] run(
                waiting(elapsed).push(StartupEvent::Running).push(
                    StartupEvent::NoConnection { elapsed: late },
                ),
                timeout,
            ) == Startup::TimedOut,
    decreases elapsed.len(),
{
    let events = waiting(elapsed);
    if elapsed.len() > 0 {
        let fewer = elapsed.drop_last();
        assert forall|i: int| 0 <= i < fewer.len() implies #[trigger] fewer[i] < timeout by {
            assert(fewer[i] == elapsed[i]);
        }
        a_slow_tool_is_waited_for(fewer, timeout);
        let start = waiting(fewer);
        let one = start.push(StartupEvent::Running);
        let two = one.push(StartupEvent::NoConnection { elapsed: elapsed.last() });
        assert(elapsed.last() == elapsed[elapsed.len() - 1]);
        assert(one.drop_last() =~= start);
        assert(two.drop_last() =~= one);
        assert(events =~= two.push(StartupEvent::Paused));
        assert(events.drop_last() =~= two);
        assert(run(one, timeout) == Startup::Attempt);
        assert(run(two, timeout) == Startup::Pause);
        assert(is_run(one, timeout));
        assert(is_run(two, timeout));
    }
    let gone = events.push(StartupEvent::HasExited);
    let looking = events.push(StartupEvent::Running);
    assert(gone.drop_last() =~= events);
    assert(looking.drop_last() =~= events);
    assert(run(looking, timeout) == Startup::Attempt);
    assert(looking.push(StartupEvent::Connection).drop_last() =~= looking);
    assert forall|late: u128| late >= timeout implies #[trigger] run(
        looking.push(StartupEvent::NoConnection { elapsed: late }),
        timeout,
    ) == Startup::TimedOut by {
        assert(looking.push(StartupEvent::NoConnection { elapsed: late }).drop_last() =~= looking);
    }
}

/// The events of a wait for a tool that runs but has not connected after each
/// of these times.
pub open spec fn waiting(elapsed: Seq<u128>) -> Seq<StartupEvent>
    decreases elapsed.len(),
{
    if elapsed.len() == 0 {
        Seq::empty()
    } else {
        waiting(elapsed.drop_last()).push(StartupEvent::Running).push(
            StartupEvent::NoConnection { elapsed: elapsed.last() },
        ).push(StartupEvent::Paused)
    }
}

/// Nothing happens where the event is none that the step can bring, nor after
/// the end.
pub proof fn other_events_change_nothing(step: Startup, event: StartupEvent, timeout: u128)
    ensures
        step is Inspect && !(event is Running || event is HasExited) ==> next(step, event, timeout)
            == step,
        step is Attempt && !(event is Connection || event is NoConnection) ==> next(
            step,
            event,
            timeout,
        ) == step,
        step is Pause && !(event is Paused) ==> next(step, event, timeout) == step,
        step is Connected || step is Exited || step is TimedOut ==> next(step, event, timeout)
            == step,
{
}

} // verus!
