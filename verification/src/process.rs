//! Ending the tool: first by asking, then, after a time, by force.
use vstd::prelude::*;

verus! {

/// A step of ending the tool.
#[derive(Clone, Copy, Debug, PartialEq, Eq, Structural)]
pub enum Termination {
    /// Find out whether the tool still runs.
    Inspect,
    /// Ask the tool to end.
    Ask,
    /// Wait for the tool to end, for the time that it is given.
    Await,
    /// Kill the tool.
    Kill,
    /// Wait until the killed tool is gone.
    Reap,
    /// The tool has ended.
    Done,
}

/// What came of a step.
#[derive(Clone, Copy, Debug, PartialEq, Eq, Structural)]
pub enum TerminationEvent {
    /// The tool has ended.
    Exited,
    /// The tool still runs.
    Running,
    /// The outside work failed.
    Failed,
    /// The outside work was done.
    Completed,
}

/// The event is one that the step can bring.
pub open spec fn fits(step: Termination, event: TerminationEvent) -> bool {
    match step {
        Termination::Inspect => !(event is Completed),
        Termination::Await => !(event is Completed),
        Termination::Ask => event is Completed || event is Failed,
        Termination::Kill => event is Completed || event is Failed,
        Termination::Reap => event is Completed || event is Failed,
        Termination::Done => false,
    }
}

/// The step that follows. Work that failed does not stop the ending of the
/// tool: an inspection that failed counts as a tool that still runs.
pub open spec fn next(step: Termination, event: TerminationEvent) -> Termination {
    match step {
        Termination::Inspect => if event is Exited {
            Termination::Done
        } else {
            Termination::Ask
        },
        Termination::Ask => Termination::Await,
        Termination::Await => if event is Exited {
            Termination::Done
        } else {
            Termination::Kill
        },
        Termination::Kill => Termination::Reap,
        Termination::Reap => Termination::Done,
        Termination::Done => Termination::Done,
    }
}

/// Decides what to do after a step of ending the tool.
pub fn terminate_child(step: Termination, event: TerminationEvent) -> (following: Termination)
    ensures
        following == next(step, event),
{
    match step {
        Termination::Inspect => match event {
            TerminationEvent::Exited => Termination::Done,
            _ => Termination::Ask,
        },
        Termination::Ask => Termination::Await,
        Termination::Await => match event {
            TerminationEvent::Exited => Termination::Done,
            _ => Termination::Kill,
        },
        Termination::Kill => Termination::Reap,
        Termination::Reap => Termination::Done,
        Termination::Done => Termination::Done,
    }
}

/// The step after several events.
pub open spec fn run(events: Seq<TerminationEvent>) -> Termination
    decreases events.len(),
{
    if events.len() == 0 {
        Termination::Inspect
    } else {
        next(run(events.drop_last()), events.last())
    }
}

/// Each event is one that its step can bring.
pub open spec fn is_run(events: Seq<TerminationEvent>) -> bool
    decreases events.len(),
{
    events.len() > 0 ==> is_run(events.drop_last()) && fits(run(events.drop_last()), events.last())
}

/// How many events a step is away from the end, at most.
pub open spec fn distance(step: Termination) -> nat {
    match step {
        Termination::Inspect => 5,
        Termination::Ask => 4,
        Termination::Await => 3,
        Termination::Kill => 2,
        Termination::Reap => 1,
        Termination::Done => 0,
    }
}

/// Every event brings the end nearer: the tool is ended after five events at
/// the latest, whatever they are.
pub proof fn terminating_ends(events: Seq<TerminationEvent>)
    requires
        is_run(events),
    ensures
        events.len() + distance(run(events)) <= 5,
    decreases events.len(),
{
    if events.len() > 0 {
        terminating_ends(events.drop_last());
    }
}

/// The tool is not left running: at the end it was seen to have ended, or it
/// was killed and reaped.
pub proof fn no_tool_is_left(events: Seq<TerminationEvent>)
    requires
        is_run(events),
        run(events) is Done,
    ensures
        events.last() is Exited || (events.len() == 5 && run(events.take(3)) is Kill && run(
            events.take(4),
        ) is Reap),
{
    reveal_with_fuel(run, 6);
    reveal_with_fuel(is_run, 6);
    terminating_ends(events);
    if !(events.last() is Exited) {
        let four = events.drop_last();
        let three = four.drop_last();
        assert(run(four) is Reap);
        assert(run(three) is Kill);
        assert(run(three.drop_last()) is Await);
        assert(run(three.drop_last().drop_last()) is Ask);
        assert(run(three.drop_last().drop_last().drop_last()) is Inspect);
        assert(events.take(4) =~= four);
        assert(events.take(3) =~= three);
    }
}

/// The tool is killed only after it was asked to end and did not, within the
/// time that it is given.
pub proof fn force_comes_last(events: Seq<TerminationEvent>)
    requires
        is_run(events),
        run(events) is Kill,
    ensures
        events.len() == 3,
        run(events.take(1)) is Ask,
        run(events.take(2)) is Await,
        !(events[2] is Exited),
{
    reveal_with_fuel(run, 5);
    reveal_with_fuel(is_run, 5);
    terminating_ends(events);
    let two = events.drop_last();
    let one = two.drop_last();
    assert(run(two) is Await);
    assert(run(one) is Ask);
    assert(run(one.drop_last()) is Inspect);
    assert(events.take(2) =~= two);
    assert(events.take(1) =~= one);
}

/// A tool that has ended is left alone.
pub proof fn an_ended_tool_is_left_alone(events: Seq<TerminationEvent>)
    requires
        events.len() > 0,
        events[0] is Exited,
        is_run(events),
    ensures
        events.len() == 1,
        run(events) is Done,
    decreases events.len(),
{
    reveal_with_fuel(run, 2);
    reveal_with_fuel(is_run, 2);
    if events.len() > 1 {
        assert(events.drop_last()[0] == events[0]);
        an_ended_tool_is_left_alone(events.drop_last());
    }
}

/// How the tool is ended, whatever the outside work brings: it is left alone if
/// it has ended already; otherwise it is asked to end, then waited for, and if
/// it has not ended by then it is killed and reaped.
pub proof fn the_tool_is_asked_then_killed(
    inspected: TerminationEvent,
    asked: TerminationEvent,
    awaited: TerminationEvent,
    killed: TerminationEvent,
    reaped: TerminationEvent,
)
    ensures
        run(seq![]) == Termination::Inspect,
        run(seq![inspected]) == (if inspected == TerminationEvent::Exited {
            Termination::Done
        } else {
            Termination::Ask
        }),
        inspected != TerminationEvent::Exited ==> {
            &&& run(seq![inspected, asked]) == Termination::Await
            &&& run(seq![inspected, asked, awaited]) == (if awaited == TerminationEvent::Exited {
                Termination::Done
            } else {
                Termination::Kill
            })
            &&& awaited != TerminationEvent::Exited ==> run(
                seq![inspected, asked, awaited, killed],
            ) == Termination::Reap
            &&& awaited != TerminationEvent::Exited ==> run(
                seq![inspected, asked, awaited, killed, reaped],
            ) == Termination::Done
        },
{
    let one = seq![inspected];
    let two = seq![inspected, asked];
    let three = seq![inspected, asked, awaited];
    let four = seq![inspected, asked, awaited, killed];
    let five = seq![inspected, asked, awaited, killed, reaped];
    assert(one.drop_last() =~= Seq::empty());
    assert(two.drop_last() =~= one);
    assert(three.drop_last() =~= two);
    assert(four.drop_last() =~= three);
    assert(five.drop_last() =~= four);
    assert(run(Seq::empty()) == Termination::Inspect);
    assert(run(one) == next(Termination::Inspect, inspected));
    assert(run(two) == next(run(one), asked));
    assert(run(three) == next(run(two), awaited));
    assert(run(four) == next(run(three), killed));
    assert(run(five) == next(run(four), reaped));
}

/// The events that each step can bring are admitted.
pub proof fn every_step_may_fail(event: TerminationEvent)
    ensures
        event != TerminationEvent::Completed ==> fits(Termination::Inspect, event) && fits(
            Termination::Await,
            event,
        ),
        event == TerminationEvent::Completed || event == TerminationEvent::Failed ==> fits(
            Termination::Ask,
            event,
        ) && fits(Termination::Kill, event) && fits(Termination::Reap, event),
{
}

/// Nothing happens after the end.
pub proof fn the_end_is_final(event: TerminationEvent)
    ensures
        next(Termination::Done, event) == Termination::Done,
{
}

} // verus!
