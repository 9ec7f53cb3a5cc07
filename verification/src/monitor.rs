//! The watch: what comes after what, from the first sign of pressure to the
//! end of the quiet period.

use vstd::prelude::*;

use crate::number::{push_signed, signed_decimal};

verus! {

/// Where the watch stands.
#[derive(Clone, Copy, Debug, PartialEq, Eq, Structural)]
pub enum MonitorState {
    /// waiting for pressure
    Waiting,
    /// finding out whether the pressure of this source is real
    Confirming(usize),
    /// looking for candidates for the pressure of this source
    Collecting(usize),
    /// handing the event to the dialog; the offenders are stopped
    Asking,
    /// waiting for the answer
    Answering,
    /// the quiet period
    Cooling,
    /// the watch is over
    Ended,
}

/// What happened.
#[derive(Clone, Copy, Debug, PartialEq, Eq, Structural)]
pub enum MonitorEvent {
    /// a source is under pressure
    Fired(usize),
    /// no source can be watched any more
    WatchFailed,
    /// whether the pressure is real
    Confirmed(bool),
    /// whether there are candidates
    Collected(bool),
    /// whether the dialog took the event
    Sent(bool),
    /// whether the dialog gave an answer
    Answered(bool),
    /// the quiet period is over
    Cooled,
}

/// What to do next.
#[derive(Clone, Copy, Debug, PartialEq, Eq, Structural)]
pub enum MonitorAction {
    /// wait for pressure
    Wait,
    /// find out whether the pressure of this source is real
    Confirm(usize),
    /// look for candidates for the pressure of this source
    Collect(usize),
    /// stop the offenders and hand the event to the dialog
    Ask,
    /// wait for the answer; the dialog lets the offenders go on
    AwaitAnswer,
    /// keep quiet for a while
    Cool,
    /// pass over what fired in the meantime, and wait for pressure
    DrainAndWait,
    /// let everything that was stopped go on, and end: the dialog is gone
    ResumeAndEnd,
    /// end the program with an error
    Fail,
}

/// Whether an event can happen where the watch stands.
pub open spec fn can_happen(state: MonitorState, event: MonitorEvent) -> bool {
    match state {
        MonitorState::Waiting => event is Fired || event is WatchFailed,
        MonitorState::Confirming(_) => event is Confirmed,
        MonitorState::Collecting(_) => event is Collected,
        MonitorState::Asking => event is Sent,
        MonitorState::Answering => event is Answered,
        MonitorState::Cooling => event is Cooled,
        MonitorState::Ended => false,
    }
}

/// Where the watch stands after an event, and what to do.
pub open spec fn next_of(state: MonitorState, event: MonitorEvent) -> (MonitorState, MonitorAction) {
    match (state, event) {
        (MonitorState::Waiting, MonitorEvent::Fired(i)) => (
            MonitorState::Confirming(i),
            MonitorAction::Confirm(i),
        ),
        (MonitorState::Waiting, MonitorEvent::WatchFailed) => (
            MonitorState::Ended,
            MonitorAction::Fail,
        ),
        (MonitorState::Confirming(i), MonitorEvent::Confirmed(true)) => (
            MonitorState::Collecting(i),
            MonitorAction::Collect(i),
        ),
        (MonitorState::Confirming(_), MonitorEvent::Confirmed(false)) => (
            MonitorState::Waiting,
            MonitorAction::Wait,
        ),
        (MonitorState::Collecting(_), MonitorEvent::Collected(true)) => (
            MonitorState::Asking,
            MonitorAction::Ask,
        ),
        (MonitorState::Collecting(_), MonitorEvent::Collected(false)) => (
            MonitorState::Cooling,
            MonitorAction::Cool,
        ),
        (MonitorState::Asking, MonitorEvent::Sent(true)) => (
            MonitorState::Answering,
            MonitorAction::AwaitAnswer,
        ),
        (MonitorState::Answering, MonitorEvent::Answered(true)) => (
            MonitorState::Cooling,
            MonitorAction::Cool,
        ),
        (MonitorState::Cooling, MonitorEvent::Cooled) => (
            MonitorState::Waiting,
            MonitorAction::DrainAndWait,
        ),
        _ => (MonitorState::Ended, MonitorAction::ResumeAndEnd),
    }
}

/// Where the watch stands after an event, and what to do.
pub fn monitor_step(state: MonitorState, event: MonitorEvent) -> (r: (MonitorState, MonitorAction))
    requires
        can_happen(state, event),
    ensures
        r == next_of(state, event),
{
    match (state, event) {
        (MonitorState::Waiting, MonitorEvent::Fired(i)) => {
            (MonitorState::Confirming(i), MonitorAction::Confirm(i))
        },
        (MonitorState::Waiting, MonitorEvent::WatchFailed) => {
            (MonitorState::Ended, MonitorAction::Fail)
        },
        (MonitorState::Confirming(i), MonitorEvent::Confirmed(confirmed)) => {
            if confirmed {
                (MonitorState::Collecting(i), MonitorAction::Collect(i))
            } else {
                (MonitorState::Waiting, MonitorAction::Wait)
            }
        },
        (MonitorState::Collecting(_), MonitorEvent::Collected(found)) => {
            if found {
                (MonitorState::Asking, MonitorAction::Ask)
            } else {
                (MonitorState::Cooling, MonitorAction::Cool)
            }
        },
        (MonitorState::Asking, MonitorEvent::Sent(taken)) => {
            if taken {
                (MonitorState::Answering, MonitorAction::AwaitAnswer)
            } else {
                (MonitorState::Ended, MonitorAction::ResumeAndEnd)
            }
        },
        (MonitorState::Answering, MonitorEvent::Answered(given)) => {
            if given {
                (MonitorState::Cooling, MonitorAction::Cool)
            } else {
                (MonitorState::Ended, MonitorAction::ResumeAndEnd)
            }
        },
        (MonitorState::Cooling, MonitorEvent::Cooled) => {
            (MonitorState::Waiting, MonitorAction::DrainAndWait)
        },
        _ => (MonitorState::Ended, MonitorAction::ResumeAndEnd),
    }
}

// --------------------------------------------------------------- signals
/// How a process is asked to go.
#[derive(Clone, Copy, Debug, PartialEq, Eq, Structural)]
pub enum Signal {
    Term,
    Kill,
}

/// What became of a signal.
pub enum Delivery {
    /// it was delivered
    Sent,
    /// the permission is missing
    Refused,
    /// it failed for another reason
    Failed(String),
}

/// Whether a signal was delivered.
pub open spec fn is_delivered(delivery: Delivery) -> bool {
    delivery is Sent
}

/// What is reported of a signal.
pub open spec fn report_of(pid: i32, comm: Seq<char>, signal: Signal, delivery: Delivery) -> Seq<
    char,
> {
    match delivery {
        Delivery::Sent => "sent "@ + (match signal {
            Signal::Term => "SIGTERM"@,
            Signal::Kill => "SIGKILL"@,
        }) + " to "@ + signed_decimal(pid as int) + " ("@ + comm + ")"@,
        Delivery::Refused => "error: no permission to signal "@ + signed_decimal(pid as int) + " ("@
            + comm + "); run ./install-caps.sh once"@,
        Delivery::Failed(reason) => "error: kill("@ + signed_decimal(pid as int) + ") failed: "@
            + reason@,
    }
}

/// Whether a signal was delivered, and what is reported of it.
pub fn kill_report(pid: i32, comm: &str, signal: Signal, delivery: &Delivery) -> (r: (bool, String))
    ensures
        r.0 == is_delivered(*delivery),
        r.1@ == report_of(pid, comm@, signal, *delivery),
{
    let mut out: String = String::new();
    match delivery {
        Delivery::Sent => {
            out.append("sent ");
            match signal {
                Signal::Term => {
                    out.append("SIGTERM");
                },
                Signal::Kill => {
                    out.append("SIGKILL");
                },
            }
            out.append(" to ");
            push_signed(&mut out, pid);
            out.append(" (");
            out.append(comm);
            out.append(")");
            assert(out@ =~= report_of(pid, comm@, signal, *delivery));
            (true, out)
        },
        Delivery::Refused => {
            out.append("error: no permission to signal ");
            push_signed(&mut out, pid);
            out.append(" (");
            out.append(comm);
            out.append("); run ./install-caps.sh once");
            assert(out@ =~= report_of(pid, comm@, signal, *delivery));
            (false, out)
        },
        Delivery::Failed(reason) => {
            out.append("error: kill(");
            push_signed(&mut out, pid);
            out.append(") failed: ");
            out.append(reason.as_str());
            assert(out@ =~= report_of(pid, comm@, signal, *delivery));
            (false, out)
        },
    }
}

// ------------------------------------------------------------------ laws
/// Nobody is asked without need: the step before a question is that
/// candidates were found, and the step before that is that the pressure was
/// confirmed.
pub proof fn law_questions_are_confirmed(state: MonitorState, event: MonitorEvent)
    requires
        can_happen(state, event),
    ensures
        next_of(state, event).1 == MonitorAction::Ask ==> state is Collecting && event
            == MonitorEvent::Collected(true),
        next_of(state, event).0 is Collecting ==> state is Confirming && event
            == MonitorEvent::Confirmed(true),
{
}

/// After a question there is a quiet period before the watch goes on: from
/// an answer to the next wait, the quiet period is the only way.
pub proof fn law_quiet_after_question(state: MonitorState, event: MonitorEvent)
    requires
        can_happen(state, event),
    ensures
        state is Answering && !(next_of(state, event).0 is Ended) ==> next_of(state, event) == (
            MonitorState::Cooling,
            MonitorAction::Cool,
        ),
        next_of(state, event).0 is Waiting ==> state is Cooling || event
            == MonitorEvent::Confirmed(false),
{
}

/// Nothing stays stopped: where the watch ends after the offenders were
/// stopped, everything is let go on.
pub proof fn law_end_lets_go_on(state: MonitorState, event: MonitorEvent)
    requires
        can_happen(state, event),
        next_of(state, event).0 is Ended,
    ensures
        state is Asking || state is Answering ==> next_of(state, event).1
            == MonitorAction::ResumeAndEnd,
        state is Waiting ==> next_of(state, event).1 == MonitorAction::Fail,
        state is Waiting || state is Asking || state is Answering,
{
}

/// The watch goes round: pressure of whatever source is confirmed, candidates
/// are looked for, the user is asked, the answer is waited for, the quiet
/// period is kept, and the watch begins anew.
pub proof fn law_watch_goes_round(i: usize)
    ensures
        next_of(MonitorState::Waiting, MonitorEvent::Fired(i)) == (
            MonitorState::Confirming(i),
            MonitorAction::Confirm(i),
        ),
        next_of(MonitorState::Confirming(i), MonitorEvent::Confirmed(true)) == (
            MonitorState::Collecting(i),
            MonitorAction::Collect(i),
        ),
        next_of(MonitorState::Collecting(i), MonitorEvent::Collected(true)) == (
            MonitorState::Asking,
            MonitorAction::Ask,
        ),
        next_of(MonitorState::Asking, MonitorEvent::Sent(true)) == (
            MonitorState::Answering,
            MonitorAction::AwaitAnswer,
        ),
        next_of(MonitorState::Answering, MonitorEvent::Answered(true)) == (
            MonitorState::Cooling,
            MonitorAction::Cool,
        ),
        next_of(MonitorState::Cooling, MonitorEvent::Cooled) == (
            MonitorState::Waiting,
            MonitorAction::DrainAndWait,
        ),
{
}

/// Pressure of whatever source that is not confirmed is passed over at once,
/// and without candidates nobody is asked, but the quiet period is kept.
pub proof fn law_watch_without_question(i: usize)
    ensures
        next_of(MonitorState::Confirming(i), MonitorEvent::Confirmed(false)) == (
            MonitorState::Waiting,
            MonitorAction::Wait,
        ),
        next_of(MonitorState::Collecting(i), MonitorEvent::Collected(false)) == (
            MonitorState::Cooling,
            MonitorAction::Cool,
        ),
{
}

/// The watch ends where no source can be watched, with an error, and where the
/// dialog is gone, after everything was let go on.
pub proof fn law_watch_ends()
    ensures
        next_of(MonitorState::Waiting, MonitorEvent::WatchFailed) == (
            MonitorState::Ended,
            MonitorAction::Fail,
        ),
        next_of(MonitorState::Asking, MonitorEvent::Sent(false)) == (
            MonitorState::Ended,
            MonitorAction::ResumeAndEnd,
        ),
        next_of(MonitorState::Answering, MonitorEvent::Answered(false)) == (
            MonitorState::Ended,
            MonitorAction::ResumeAndEnd,
        ),
{
}

/// In every state something can happen, except where the watch has ended.
pub proof fn law_what_can_happen(i: usize, found: bool, event: MonitorEvent)
    ensures
        can_happen(MonitorState::Waiting, MonitorEvent::Fired(i)),
        can_happen(MonitorState::Waiting, MonitorEvent::WatchFailed),
        can_happen(MonitorState::Confirming(i), MonitorEvent::Confirmed(found)),
        can_happen(MonitorState::Collecting(i), MonitorEvent::Collected(found)),
        can_happen(MonitorState::Asking, MonitorEvent::Sent(found)),
        can_happen(MonitorState::Answering, MonitorEvent::Answered(found)),
        can_happen(MonitorState::Cooling, MonitorEvent::Cooled),
        !can_happen(MonitorState::Ended, event),
{
}

/// What is reported of a signal names the process, and says which signal was
/// sent, or why none was.
pub proof fn law_signal_reports(pid: i32, comm: Seq<char>, reason: String, signal: Signal)
    ensures
        report_of(pid, comm, Signal::Term, Delivery::Sent) == "sent "@ + "SIGTERM"@ + " to "@
            + signed_decimal(pid as int) + " ("@ + comm + ")"@,
        report_of(pid, comm, Signal::Kill, Delivery::Sent) == "sent "@ + "SIGKILL"@ + " to "@
            + signed_decimal(pid as int) + " ("@ + comm + ")"@,
        report_of(pid, comm, signal, Delivery::Refused) == "error: no permission to signal "@
            + signed_decimal(pid as int) + " ("@ + comm + "); run ./install-caps.sh once"@,
        report_of(pid, comm, signal, Delivery::Failed(reason)) == "error: kill("@ + signed_decimal(
            pid as int,
        ) + ") failed: "@ + reason@,
{
}

/// A signal was delivered where it was sent, and not where it was refused or
/// failed.
pub proof fn law_delivered_where_sent(reason: String)
    ensures
        is_delivered(Delivery::Sent),
        !is_delivered(Delivery::Refused),
        !is_delivered(Delivery::Failed(reason)),
{
}

} // verus!
