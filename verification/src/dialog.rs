//! The dialog: what it shows, how it counts down, and what an answer does.

use std::collections::HashMap;

use vstd::prelude::*;

use crate::config::Span;
use crate::number::{decimal, push_decimal, push_signed, signed_decimal};
use crate::process::{Candidate, CandidateView};
use crate::psi::{psi_line, shown_line, PlanView, PsiSource, PSI_MEMORY};
use crate::size::{human, human_text};
use crate::text::{opt_str_text, same_str};

verus! {

broadcast use vstd::std_specs::hash::group_hash_axioms;

// ---------------------------------------------------------------- events
/// A candidate in the dialog.
pub struct DialogCandidate {
    pub pid: i32,
    pub comm: String,
    pub cmdline: String,
    pub rss_bytes: u64,
    pub oom_score: i32,
    /// whether it is stopped while the question is open
    pub paused: bool,
}

impl DialogCandidate {
    /// The candidate without its state.
    pub open spec fn candidate(&self) -> CandidateView {
        CandidateView {
            pid: self.pid,
            comm: self.comm@,
            cmdline: self.cmdline@,
            rss_bytes: self.rss_bytes,
            oom_score: self.oom_score,
        }
    }
}

/// Memory pressure that the user is asked about.
pub struct PressureEvent {
    /// `system` or the name of the cgroup that fired
    pub source: String,
    /// the pressure file that fired; the countdown depends on its average
    pub pressure_path: String,
    /// the line of that file
    pub psi_line: String,
    /// the processes to choose from
    pub cands: Vec<DialogCandidate>,
}

/// Whether a row is that of a candidate, which was to be stopped or not and
/// could be or not: it is shown as stopped where both hold.
pub open spec fn is_row_of(
    row: DialogCandidate,
    c: CandidateView,
    planned: bool,
    stopped: bool,
) -> bool {
    row.candidate() == c && row.paused == (planned && stopped)
}

/// The candidates for the dialog, given which of them were to be stopped and
/// which of those could be.
pub fn dialog_candidates(cands: Vec<Candidate>, plan: &Vec<bool>, stopped: &Vec<bool>) -> (r: Vec<
    DialogCandidate,
>)
    requires
        plan@.len() == cands@.len(),
        stopped@.len() == cands@.len(),
    ensures
        r@.len() == cands@.len(),
        forall|i: int|
            0 <= i < r@.len() ==> is_row_of(#[trigger] r@[i], cands@[i]@, plan@[i], stopped@[i]),
{
    let ghost all = cands@;
    let mut cands = cands;
    let mut out: Vec<DialogCandidate> = Vec::new();
    let mut i: usize = 0;
    while cands.len() > 0
        invariant
            i + cands@.len() == all.len(),
            cands@ == all.skip(i as int),
            plan.len() == all.len(),
            stopped@.len() == all.len(),
            out@.len() == i,
            forall|j: int|
                0 <= j < i ==> is_row_of(#[trigger] out@[j], all[j]@, plan@[j], stopped@[j]),
        decreases cands@.len(),
    {
        let c: Candidate = cands.remove(0);
        assert(c == all[i as int]);
        assert(cands@ =~= all.skip(i + 1));
        out.push(
            DialogCandidate {
                pid: c.pid,
                comm: c.comm,
                cmdline: c.cmdline,
                rss_bytes: c.rss_bytes,
                oom_score: c.oom_score,
                paused: plan[i] && stopped[i],
            },
        );
        i = i + 1;
    }
    out
}

/// Whether an event is that of a source, whose pressure file says this, as far
/// as it could be read, with these candidates.
pub open spec fn is_event_of(
    event: PressureEvent,
    source: PlanView,
    kind: Seq<char>,
    psi_text: Option<Seq<char>>,
    cands: Vec<DialogCandidate>,
) -> bool {
    &&& event.source@ == source.label
    &&& event.pressure_path@ == source.pressure_path
    &&& event.psi_line@ == shown_line(kind, psi_text)
    &&& event.cands == cands
}

/// The event of a source that fired, given what its pressure file says, as
/// far as it could be read, and the candidates.
pub fn pressure_event<T>(
    source: &PsiSource<T>,
    kind: &str,
    psi_text: Option<&str>,
    cands: Vec<DialogCandidate>,
) -> (r: PressureEvent)
    ensures
        is_event_of(r, source.plan(), kind@, opt_str_text(psi_text), cands),
{
    PressureEvent {
        source: source.label.clone(),
        pressure_path: source.pressure_path.clone(),
        psi_line: psi_line(kind, psi_text),
        cands,
    }
}

// ----------------------------------------------------------------- texts
/// The name of a process in bold, with a note where it is stopped. The name
/// is escaped already.
pub open spec fn markup_of(escaped: Seq<char>, paused: bool) -> Seq<char> {
    if paused {
        "<b>"@ + escaped + "</b> <span alpha=\"55%\" style=\"italic\">(paused)</span>"@
    } else {
        "<b>"@ + escaped + "</b>"@
    }
}

/// The name of a process in bold, with a note where it is stopped.
pub fn name_markup(escaped: &str, paused: bool) -> (r: String)
    ensures
        r@ == markup_of(escaped@, paused),
{
    let mut out: String = String::new();
    out.append("<b>");
    out.append(escaped);
    if paused {
        out.append("</b> <span alpha=\"55%\" style=\"italic\">(paused)</span>");
    } else {
        out.append("</b>");
    }
    assert(out@ =~= markup_of(escaped@, paused));
    out
}

/// The line above the candidates: that of the pressure file, and the cgroup
/// in front of it where it is one's.
pub open spec fn headline_of(source: Seq<char>, psi_line: Seq<char>) -> Seq<char> {
    if source == "system"@ {
        psi_line
    } else {
        "cgroup "@ + source + ": "@ + psi_line
    }
}

/// The line above the candidates.
pub fn headline(source: &str, psi_line: &str) -> (r: String)
    ensures
        r@ == headline_of(source@, psi_line@),
{
    let mut out: String = String::new();
    if !same_str(source, "system") {
        out.append("cgroup ");
        out.append(source);
        out.append(": ");
    }
    out.append(psi_line);
    assert(out@ =~= headline_of(source@, psi_line@));
    out
}

/// The line below the name of a candidate.
pub open spec fn details_of(pid: i32, oom_score: i32, cmdline: Seq<char>) -> Seq<char> {
    "pid "@ + signed_decimal(pid as int) + " · oom score "@ + signed_decimal(oom_score as int)
        + " · "@ + cmdline
}

/// The line below the name of a candidate.
pub fn details(pid: i32, oom_score: i32, cmdline: &str) -> (r: String)
    ensures
        r@ == details_of(pid, oom_score, cmdline@),
{
    let mut out: String = String::new();
    out.append("pid ");
    push_signed(&mut out, pid);
    out.append(" · oom score ");
    push_signed(&mut out, oom_score);
    out.append(" · ");
    out.append(cmdline);
    assert(out@ =~= details_of(pid, oom_score, cmdline@));
    out
}

/// What the countdown says while it runs.
pub open spec fn countdown_of(seconds: nat) -> Seq<char> {
    "Doing nothing in "@ + decimal(seconds) + "s"@
}

/// What the countdown says while it runs.
fn countdown_text(seconds: u128) -> (r: String)
    ensures
        r@ == countdown_of(seconds as nat),
{
    let mut out: String = String::new();
    out.append("Doing nothing in ");
    push_decimal(&mut out, seconds);
    out.append("s");
    assert(out@ =~= countdown_of(seconds as nat));
    out
}

/// What the countdown says while the pressure is high. The percentage is
/// written down already.
pub open spec fn still_high(percent: Seq<char>) -> Seq<char> {
    "Pressure still high ("@ + percent + "%) — waiting"@
}

/// What the dialog says where a signal could not be delivered.
pub open spec fn not_signalled(pid: i32, comm: Seq<char>) -> Seq<char> {
    "Could not signal "@ + signed_decimal(pid as int) + " ("@ + comm
        + ") — run ./install-caps.sh once"@
}

/// The texts of one row of the dialog. The name is left to be escaped.
pub struct RowTexts {
    /// the line below the name
    pub details: String,
    /// the memory that the process uses
    pub size: String,
}

/// The texts of the dialog for an event.
pub struct DialogTexts {
    /// the line above the candidates
    pub headline: String,
    /// one row for each candidate
    pub rows: Vec<RowTexts>,
    /// what the countdown says
    pub countdown: String,
}

/// Whether the texts of a row say what is to be said of a candidate.
pub open spec fn row_says(row: RowTexts, c: DialogCandidate) -> bool {
    row.details@ == details_of(c.pid, c.oom_score, c.cmdline@) && row.size@ == human_text(
        c.rss_bytes,
    )
}

/// What the countdown says at first; nothing where the dialog waits forever.
pub open spec fn opening_text(timeout: nat) -> Seq<char> {
    if timeout > 0 {
        countdown_of(timeout)
    } else {
        ""@
    }
}

// ----------------------------------------------------------------- state
/// The state of the dialog.
pub struct Dialog {
    active: bool,
    ticking: bool,
    remaining: u128,
    timeout: u128,
    pressure_path: String,
    paused: HashMap<i32, bool>,
}

/// The state of the dialog, as it can be reasoned about.
#[verifier::ext_equal]
pub struct DialogView {
    /// whether a question is open
    pub active: bool,
    /// whether the countdown runs
    pub ticking: bool,
    /// the seconds that are left
    pub remaining: nat,
    /// the seconds that the countdown takes; zero waits forever
    pub timeout: nat,
    /// the pressure file of the question on display, on which the countdown
    /// depends; that of the system before the first question
    pub pressure_path: Seq<char>,
    /// the processes in the rows on display, and whether they are stopped
    pub paused: Map<i32, bool>,
}

impl View for Dialog {
    type V = DialogView;

    closed spec fn view(&self) -> DialogView {
        DialogView {
            active: self.active,
            ticking: self.ticking,
            remaining: self.remaining as nat,
            timeout: self.timeout as nat,
            pressure_path: self.pressure_path@,
            paused: self.paused@,
        }
    }
}

/// The processes of the rows, and whether they are stopped.
pub open spec fn rows_of(cands: Seq<DialogCandidate>) -> Map<i32, bool>
    decreases cands.len(),
{
    if cands.len() == 0 {
        Map::empty()
    } else {
        rows_of(cands.drop_last()).insert(cands.last().pid, cands.last().paused)
    }
}

/// The dialog with a question on display, which is about this pressure file
/// and these candidates. The countdown starts, unless the dialog waits
/// forever.
pub open spec fn shown(
    d: DialogView,
    pressure_path: Seq<char>,
    cands: Seq<DialogCandidate>,
) -> DialogView {
    DialogView {
        active: true,
        ticking: d.timeout > 0 || d.ticking,
        remaining: if d.timeout > 0 {
            d.timeout
        } else {
            d.remaining
        },
        timeout: d.timeout,
        pressure_path,
        paused: rows_of(cands),
    }
}

/// What a second of the countdown does.
pub enum Tick {
    /// it goes on, and says this
    GoOn {
        text: String,
    },
    /// it is over: the question is dismissed
    Dismiss,
}

/// The dialog after a second. While the pressure is high the countdown
/// starts over; otherwise it goes down by one, and stops at zero.
pub open spec fn ticked(d: DialogView, high: bool) -> DialogView {
    if high {
        DialogView { remaining: d.timeout, ..d }
    } else if d.remaining <= 1 {
        DialogView { remaining: 0, ticking: false, ..d }
    } else {
        DialogView { remaining: (d.remaining - 1) as nat, ..d }
    }
}

/// What the countdown says after a second that does not dismiss the question.
pub open spec fn tick_text(d: DialogView, high: bool, percent: Seq<char>) -> Seq<char> {
    if high {
        still_high(percent)
    } else {
        countdown_of((d.remaining - 1) as nat)
    }
}

/// Whether a second dismisses the question.
pub open spec fn tick_dismisses(d: DialogView, high: bool) -> bool {
    !high && d.remaining <= 1
}

/// What the user chose: a process to signal, and its name.
pub struct Choice {
    pub pid: i32,
    pub comm: String,
}

/// What an answer does.
pub enum Answer {
    /// nothing: no question is open
    Ignored,
    /// the question stays open, and the dialog says this
    StaysOpen {
        text: String,
    },
    /// everything that was stopped goes on, the dialog is hidden, and the
    /// watch goes on
    Closed,
}

/// Whether a signal is to be sent for an answer: a question is open, and a
/// process was chosen.
pub open spec fn signal_is_due(d: DialogView, chosen: bool) -> bool {
    d.active && chosen
}

/// Whether an answer closes the question: one that is open, with nothing to
/// be done or a signal that was delivered.
pub open spec fn closes(d: DialogView, chosen: bool, delivered: bool) -> bool {
    d.active && (!chosen || delivered)
}

/// The dialog after an answer. A signal that was not delivered stops the
/// countdown, so that the message stays.
pub open spec fn answered(d: DialogView, chosen: bool, delivered: bool) -> DialogView {
    if !d.active {
        d
    } else if closes(d, chosen, delivered) {
        DialogView { active: false, ticking: false, ..d }
    } else {
        DialogView { ticking: false, ..d }
    }
}

/// A dialog without a question, with this timeout.
pub open spec fn new_dialog(answer_timeout: Span) -> DialogView {
    DialogView {
        active: false,
        ticking: false,
        remaining: 0,
        timeout: (answer_timeout.micros / 1_000_000) as nat,
        pressure_path: PSI_MEMORY@,
        paused: Map::empty(),
    }
}

impl Dialog {
    /// A dialog without a question, with this timeout.
    pub fn new(answer_timeout: Span) -> (r: Dialog)
        ensures
            r@ == new_dialog(answer_timeout),
    {
        Dialog {
            active: false,
            ticking: false,
            remaining: 0,
            timeout: answer_timeout.as_secs(),
            pressure_path: PSI_MEMORY.to_string(),
            paused: HashMap::new(),
        }
    }

    /// Whether a question is open.
    pub fn is_active(&self) -> (r: bool)
        ensures
            r == self@.active,
    {
        self.active
    }

    /// Whether the countdown runs.
    pub fn is_ticking(&self) -> (r: bool)
        ensures
            r == self@.ticking,
    {
        self.ticking
    }

    /// The pressure file whose average the countdown depends on: that of the
    /// question on display.
    pub fn pressure_path(&self) -> (r: &str)
        ensures
            r@ == self@.pressure_path,
    {
        self.pressure_path.as_str()
    }

    /// Whether a signal is to be sent for a choice (`None` does nothing).
    pub fn wants_signal(&self, choice: Option<&Choice>) -> (r: bool)
        ensures
            r == signal_is_due(self@, choice is Some),
    {
        self.active && choice.is_some()
    }

    /// Puts the question for an event on display.
    pub fn show_event(&mut self, ev: &PressureEvent) -> (r: DialogTexts)
        ensures
            final(self)@ == shown(old(self)@, ev.pressure_path@, ev.cands@),
            r.headline@ == headline_of(ev.source@, ev.psi_line@),
            r.rows@.len() == ev.cands@.len(),
            forall|i: int|
                0 <= i < r.rows@.len() ==> row_says(#[trigger] r.rows@[i], ev.cands@[i]),
            r.countdown@ == opening_text(old(self)@.timeout),
    {
        let mut paused: HashMap<i32, bool> = HashMap::new();
        let mut rows: Vec<RowTexts> = Vec::new();
        let mut i: usize = 0;
        assert(paused@ =~= rows_of(ev.cands@.take(0)));
        while i < ev.cands.len()
            invariant
                i <= ev.cands.len(),
                paused@ == rows_of(ev.cands@.take(i as int)),
                rows@.len() == i,
                forall|j: int|
                    0 <= j < i ==> row_says(#[trigger] rows@[j], ev.cands@[j]),
            decreases ev.cands.len() - i,
        {
            let c: &DialogCandidate = &ev.cands[i];
            assert(ev.cands@.take(i + 1).drop_last() =~= ev.cands@.take(i as int));
            paused.insert(c.pid, c.paused);
            rows.push(
                RowTexts {
                    details: details(c.pid, c.oom_score, c.cmdline.as_str()),
                    size: human(c.rss_bytes),
                },
            );
            i = i + 1;
        }
        assert(ev.cands@.take(i as int) =~= ev.cands@);
        self.paused = paused;
        self.pressure_path = ev.pressure_path.clone();
        self.active = true;
        let countdown: String = if self.timeout > 0 {
            self.remaining = self.timeout;
            self.ticking = true;
            countdown_text(self.timeout)
        } else {
            "".to_string()
        };
        DialogTexts {
            headline: headline(ev.source.as_str(), ev.psi_line.as_str()),
            rows,
            countdown,
        }
    }

    /// A second of the countdown, given whether the average in the pressure
    /// file of the question is still over the threshold, and its percentage in
    /// words.
    pub fn tick(&mut self, high: bool, percent: &str) -> (r: Tick)
        ensures
            final(self)@ == ticked(old(self)@, high),
            r is Dismiss == tick_dismisses(old(self)@, high),
            r matches Tick::GoOn { text } ==> text@ == tick_text(old(self)@, high, percent@),
    {
        if high {
            self.remaining = self.timeout;
            let mut text: String = String::new();
            text.append("Pressure still high (");
            text.append(percent);
            text.append("%) — waiting");
            assert(text@ =~= still_high(percent@));
            return Tick::GoOn { text };
        }
        self.remaining = self.remaining.saturating_sub(1);
        if self.remaining == 0 {
            self.ticking = false;
            return Tick::Dismiss;
        }
        Tick::GoOn { text: countdown_text(self.remaining) }
    }

    /// Acts on the user's choice (`None` does nothing), given whether the
    /// signal could be delivered.
    pub fn finish(&mut self, choice: Option<&Choice>, delivered: bool) -> (r: Answer)
        ensures
            final(self)@ == answered(old(self)@, choice is Some, delivered),
            r is Ignored == !old(self)@.active,
            r is Closed == closes(old(self)@, choice is Some, delivered),
            r matches Answer::StaysOpen { text } ==> text@ == not_signalled(
                choice->0.pid,
                choice->0.comm@,
            ),
    {
        if !self.active {
            return Answer::Ignored;
        }
        if let Some(c) = choice {
            if !delivered {
                self.ticking = false;
                let mut text: String = String::new();
                text.append("Could not signal ");
                push_signed(&mut text, c.pid);
                text.append(" (");
                text.append(c.comm.as_str());
                text.append(") — run ./install-caps.sh once");
                assert(text@ =~= not_signalled(c.pid, c.comm@));
                return Answer::StaysOpen { text };
            }
        }
        self.active = false;
        self.ticking = false;
        Answer::Closed
    }
}

// ----------------------------------------------------------- late labels
/// How many processes are stopped at most when their names arrive.
pub const LATE_PAUSES: usize = 5;

/// Names that arrive while the question is open. Their processes were left
/// to go on until now, so they are stopped at this point.
pub struct Relabelling {
    budget: usize,
}

/// Whether a process is to be stopped when its name arrives: one with a row,
/// that is not stopped yet, where stopping is allowed and there is budget.
pub open spec fn late_stop(d: DialogView, pid: i32, pause: bool, budget: nat) -> bool {
    pause && d.paused.dom().contains(pid) && !d.paused[pid] && budget > 0
}

/// The dialog after a name arrived for a process, given whether the process
/// was stopped.
pub open spec fn relabelled(d: DialogView, pid: i32, stopped: bool) -> DialogView {
    if d.paused.dom().contains(pid) && stopped {
        DialogView { paused: d.paused.insert(pid, true), ..d }
    } else {
        d
    }
}

/// How many processes may be stopped when names arrive; none are looked at
/// where no question is open.
pub open spec fn late_budget(d: DialogView) -> Option<nat> {
    if d.active {
        Some(LATE_PAUSES as nat)
    } else {
        None
    }
}

/// How many processes may be stopped after the name of one arrived.
pub open spec fn budget_after(d: DialogView, pid: i32, stopped: bool, budget: nat) -> nat {
    if stopped && d.paused.dom().contains(pid) {
        (budget - 1) as nat
    } else {
        budget
    }
}

/// Whether a process is shown as stopped; `None` where it has no row.
pub open spec fn row_state(d: DialogView, pid: i32) -> Option<bool> {
    if d.paused.dom().contains(pid) {
        Some(d.paused[pid])
    } else {
        None
    }
}

impl Relabelling {
    /// How many processes may still be stopped.
    pub closed spec fn left(&self) -> nat {
        self.budget as nat
    }

    /// Begins with the names; they come too late where the question is
    /// answered already.
    pub fn begin(dialog: &Dialog) -> (r: Option<Relabelling>)
        ensures
            r is Some == late_budget(dialog@) is Some,
            r matches Some(pass) ==> late_budget(dialog@) == Some(pass.left()),
    {
        if dialog.active {
            Some(Relabelling { budget: LATE_PAUSES })
        } else {
            None
        }
    }

    /// Whether a process is to be stopped when its name arrives.
    pub fn wants_stop(&self, dialog: &Dialog, pid: i32, pause: bool) -> (r: bool)
        ensures
            r == late_stop(dialog@, pid, pause, self.left()),
    {
        match dialog.paused.get(&pid) {
            Some(paused) => pause && !*paused && self.budget > 0,
            None => false,
        }
    }

    /// Gives a process its name, given whether it was stopped just now.
    /// Whether it is shown as stopped comes back; `None` where it has no row.
    pub fn relabel(&mut self, dialog: &mut Dialog, pid: i32, stopped: bool) -> (r: Option<bool>)
        requires
            stopped ==> old(self).left() > 0,
        ensures
            final(dialog)@ == relabelled(old(dialog)@, pid, stopped),
            final(self).left() == budget_after(old(dialog)@, pid, stopped, old(self).left()),
            r == row_state(final(dialog)@, pid),
    {
        let was: bool = match dialog.paused.get(&pid) {
            Some(paused) => *paused,
            None => {
                return None;
            },
        };
        if stopped {
            dialog.paused.insert(pid, true);
            self.budget = self.budget - 1;
            return Some(true);
        }
        Some(was)
    }
}

// ------------------------------------------------------------------ laws
/// The dialog after seconds, one by one, of which each says whether the
/// pressure is high.
pub open spec fn after_seconds(d: DialogView, high: Seq<bool>) -> DialogView
    decreases high.len(),
{
    if high.len() == 0 {
        d
    } else {
        ticked(after_seconds(d, high.drop_last()), high.last())
    }
}

/// While the pressure stays over the threshold, the dialog stays: no second
/// dismisses it, and the countdown starts over.
pub proof fn law_high_pressure_keeps_question(d: DialogView)
    ensures
        !tick_dismisses(d, true),
        ticked(d, true).active == d.active,
        ticked(d, true).ticking == d.ticking,
        ticked(d, true).remaining == d.timeout,
{
}

/// How many seconds in a row were calm in the end.
pub open spec fn calm_run(high: Seq<bool>) -> nat
    decreases high.len(),
{
    if high.len() == 0 || high.last() {
        0
    } else {
        1 + calm_run(high.drop_last())
    }
}

/// Whether the second `k` dismisses the question.
pub open spec fn dismissed_by(d: DialogView, high: Seq<bool>, k: int) -> bool {
    tick_dismisses(after_seconds(d, high.take(k)), high[k])
}

/// The question is dismissed by as many calm seconds in a row as the timeout
/// says: a second dismisses it where it is the last of so many, and no other
/// does. Until then the question stays as it was put on display, with the
/// pressure file of its event, and the countdown holds what is missing.
pub proof fn law_calm_seconds_dismiss(
    d: DialogView,
    pressure_path: Seq<char>,
    cands: Seq<DialogCandidate>,
    high: Seq<bool>,
    k: int,
)
    requires
        d.timeout > 0,
        0 <= k < high.len(),
        forall|j: int|
            0 <= j < k ==> !#[trigger] dismissed_by(shown(d, pressure_path, cands), high, j),
    ensures
        dismissed_by(shown(d, pressure_path, cands), high, k) <==> calm_run(high.take(k + 1))
            == d.timeout,
        after_seconds(shown(d, pressure_path, cands), high.take(k)) == (DialogView {
            remaining: (d.timeout - calm_run(high.take(k))) as nat,
            ..shown(d, pressure_path, cands)
        }),
        after_seconds(shown(d, pressure_path, cands), high.take(k)).pressure_path == pressure_path,
        calm_run(high.take(k)) < d.timeout,
    decreases k,
{
    let q = shown(d, pressure_path, cands);
    if k > 0 {
        law_calm_seconds_dismiss(d, pressure_path, cands, high, k - 1);
        assert(high.take(k).drop_last() =~= high.take(k - 1));
        assert(high.take(k).last() == high[k - 1]);
        assert(!dismissed_by(q, high, k - 1));
    }
    assert(high.take(k + 1).drop_last() =~= high.take(k));
    assert(high.take(k + 1).last() == high[k]);
    assert(calm_run(high.take(k + 1)) == if high[k] {
        0
    } else {
        1 + calm_run(high.take(k))
    });
}

/// No signal goes out while no question is open, and none after an answer
/// that closed it.
pub proof fn law_no_signal_without_question(
    d: DialogView,
    chosen: bool,
    delivered: bool,
    chosen_again: bool,
)
    ensures
        !d.active ==> !signal_is_due(d, chosen),
        closes(d, chosen, delivered) ==> !signal_is_due(
            answered(d, chosen, delivered),
            chosen_again,
        ),
{
}

/// A dialog that waits forever does not start a countdown.
pub proof fn law_no_timeout_no_countdown(
    d: DialogView,
    pressure_path: Seq<char>,
    cands: Seq<DialogCandidate>,
)
    requires
        d.timeout == 0,
        !d.ticking,
    ensures
        !shown(d, pressure_path, cands).ticking,
        shown(d, pressure_path, cands).active,
{
}

/// A question is answered once: after an answer that closes it, any other is
/// ignored and changes nothing.
pub proof fn law_answered_once(
    d: DialogView,
    chosen: bool,
    delivered: bool,
    chosen_again: bool,
    delivered_again: bool,
)
    requires
        closes(d, chosen, delivered),
    ensures
        !answered(d, chosen, delivered).active,
        !answered(d, chosen, delivered).ticking,
        !closes(answered(d, chosen, delivered), chosen_again, delivered_again),
        answered(answered(d, chosen, delivered), chosen_again, delivered_again) == answered(
            d,
            chosen,
            delivered,
        ),
{
}

/// A signal that could not be delivered leaves the question open, with the
/// same rows, and the countdown stopped.
pub proof fn law_undelivered_stays_open(d: DialogView)
    requires
        d.active,
    ensures
        !closes(d, true, false),
        answered(d, true, false) == (DialogView { ticking: false, ..d }),
{
}

/// A name that arrives stops at most the process that it belongs to, and
/// lets none go on.
pub proof fn law_late_names_only_stop(d: DialogView, pid: i32, stopped: bool, other: i32)
    ensures
        relabelled(d, pid, stopped).paused.dom() == d.paused.dom(),
        other != pid && d.paused.dom().contains(other) ==> relabelled(
            d,
            pid,
            stopped,
        ).paused[other] == d.paused[other],
        d.paused.dom().contains(other) && d.paused[other] ==> relabelled(
            d,
            pid,
            stopped,
        ).paused[other],
{
    assert(relabelled(d, pid, stopped).paused.dom() =~= d.paused.dom());
}

/// The dialog and the budget after names arrived one after the other, each
/// with whether its process could be stopped, and how many were stopped.
pub open spec fn after_names(
    d: DialogView,
    budget: nat,
    names: Seq<(i32, bool)>,
    pause: bool,
) -> (DialogView, nat, nat)
    decreases names.len(),
{
    if names.len() == 0 {
        (d, budget, 0)
    } else {
        let (before, left, stops) = after_names(d, budget, names.drop_last(), pause);
        let (pid, stoppable) = names.last();
        if late_stop(before, pid, pause, left) && stoppable {
            (relabelled(before, pid, true), (left - 1) as nat, stops + 1)
        } else {
            (relabelled(before, pid, false), left, stops)
        }
    }
}

/// However many names arrive at once, no more processes are stopped than the
/// budget has.
pub proof fn law_late_stops_are_few(
    d: DialogView,
    budget: nat,
    names: Seq<(i32, bool)>,
    pause: bool,
)
    ensures
        after_names(d, budget, names, pause).1 + after_names(d, budget, names, pause).2 == budget,
        after_names(d, budget, names, pause).2 <= budget,
    decreases names.len(),
{
    if names.len() > 0 {
        law_late_stops_are_few(d, budget, names.drop_last(), pause);
    }
}

/// A new dialog has no question open, and its timeout is the whole seconds of
/// the one it was given.
pub proof fn law_new_dialog(answer_timeout: Span)
    ensures
        !new_dialog(answer_timeout).active,
        !new_dialog(answer_timeout).ticking,
        new_dialog(answer_timeout).timeout * 1_000_000 <= answer_timeout.micros,
        answer_timeout.micros < (new_dialog(answer_timeout).timeout + 1) * 1_000_000,
        new_dialog(answer_timeout).paused.dom() == Set::<i32>::empty(),
        new_dialog(answer_timeout).pressure_path == "/proc/pressure/memory"@,
{
}

/// Every open question is closed by an answer that does nothing or whose
/// signal was delivered, whatever the timeout, the seconds that are left and
/// the rows: it is not open and not counting down any more, and nothing else
/// changes.
pub proof fn law_answers_close(d: DialogView, delivered: bool)
    requires
        d.active,
    ensures
        closes(d, true, true),
        closes(d, false, delivered),
        answered(d, true, true) == (DialogView { active: false, ticking: false, ..d }),
        answered(d, false, delivered) == (DialogView { active: false, ticking: false, ..d }),
{
}

/// An answer closes exactly the open question whose answer does nothing or
/// whose signal was delivered. Without an open question nothing happens.
pub proof fn law_what_closes(d: DialogView, chosen: bool, delivered: bool)
    ensures
        closes(d, chosen, delivered) <==> d.active && !(chosen && !delivered),
        !d.active ==> answered(d, chosen, delivered) == d,
        d.active && chosen && !delivered ==> answered(d, chosen, delivered).active && !answered(
            d,
            chosen,
            delivered,
        ).ticking,
{
}

/// A signal goes out for every choice while a question is open, and for
/// nothing else.
pub proof fn law_choice_sends_signal(d: DialogView, chosen: bool)
    ensures
        signal_is_due(d, chosen) <==> d.active && chosen,
{
}

/// A second under high pressure starts the countdown over and dismisses
/// nothing; a calm one takes one second off, and dismisses the question
/// exactly where none is left after it.
pub proof fn law_second_of_the_countdown(d: DialogView)
    ensures
        ticked(d, true) == (DialogView { remaining: d.timeout, ..d }),
        !tick_dismisses(d, true),
        d.remaining >= 2 ==> ticked(d, false) == (DialogView {
            remaining: (d.remaining - 1) as nat,
            ..d
        }) && !tick_dismisses(d, false),
        d.remaining <= 1 ==> ticked(d, false) == (DialogView { remaining: 0, ticking: false, ..d })
            && tick_dismisses(d, false),
{
}

/// A question is dismissed exactly by the last of as many calm seconds in a
/// row as the timeout says.
pub proof fn law_dismissed_after_calm_seconds(
    d: DialogView,
    pressure_path: Seq<char>,
    cands: Seq<DialogCandidate>,
    high: Seq<bool>,
    k: int,
)
    requires
        d.timeout > 0,
        0 <= k < high.len(),
        forall|j: int|
            0 <= j < k ==> !#[trigger] dismissed_by(shown(d, pressure_path, cands), high, j),
    ensures
        tick_dismisses(after_seconds(shown(d, pressure_path, cands), high.take(k)), high[k]) <==> k
            + 1 >= d.timeout && forall|j: int| k - d.timeout < j <= k ==> !#[trigger] high[j],
{
    law_calm_seconds_dismiss(d, pressure_path, cands, high, k);
    lemma_calm_run(high.take(k + 1));
    let seen = high.take(k + 1);
    let run = calm_run(seen) as int;
    assert forall|j: int| 0 <= j <= k implies #[trigger] high[j] == seen[j] by {}
    if k + 1 >= d.timeout && forall|j: int| k - d.timeout < j <= k ==> !#[trigger] high[j] {
        if run < d.timeout {
            assert(seen[k - run]);
            assert(!high[k - run]);
        }
    }
    assert(seen.drop_last() =~= high.take(k));
    if run == d.timeout {
        assert forall|j: int| k - d.timeout < j <= k implies !#[trigger] high[j] by {
            assert(!seen[j]);
        }
    }
}

/// A run of calm seconds ends at the last second under high pressure.
proof fn lemma_calm_run(high: Seq<bool>)
    ensures
        calm_run(high) <= high.len(),
        forall|j: int| high.len() - calm_run(high) <= j < high.len() ==> !#[trigger] high[j],
        calm_run(high) < high.len() ==> high[high.len() - calm_run(high) - 1],
    decreases high.len(),
{
    if high.len() > 0 && !high.last() {
        let earlier = high.drop_last();
        lemma_calm_run(earlier);
        assert forall|j: int| high.len() - calm_run(high) <= j < high.len() implies !#[trigger] high[j] by {
            if j < earlier.len() {
                assert(earlier[j] == high[j]);
            }
        }
    }
}

/// A question is put on display with the pressure file of its event, and is
/// open. The countdown runs from the timeout on, unless the dialog waits
/// forever.
pub proof fn law_question_on_display(
    d: DialogView,
    pressure_path: Seq<char>,
    cands: Seq<DialogCandidate>,
)
    ensures
        shown(d, pressure_path, cands).active,
        shown(d, pressure_path, cands).pressure_path == pressure_path,
        shown(d, pressure_path, cands).timeout == d.timeout,
        d.timeout > 0 ==> shown(d, pressure_path, cands).ticking && shown(
            d,
            pressure_path,
            cands,
        ).remaining == d.timeout,
        d.timeout == 0 ==> shown(d, pressure_path, cands).ticking == d.ticking,
{
}

/// The rows on display are those of the candidates, and no earlier ones: a
/// process has a row exactly where it is a candidate.
pub proof fn law_rows_are_the_candidates(
    d: DialogView,
    pressure_path: Seq<char>,
    cands: Seq<DialogCandidate>,
    pid: i32,
)
    ensures
        shown(d, pressure_path, cands).paused.dom().contains(pid) <==> exists|i: int|
            0 <= i < cands.len() && (#[trigger] cands[i]).pid == pid,
    decreases cands.len(),
{
    if cands.len() > 0 {
        let earlier = cands.drop_last();
        law_rows_are_the_candidates(d, pressure_path, earlier, pid);
        if cands.last().pid == pid {
            assert(cands[cands.len() - 1].pid == pid);
        } else if shown(d, pressure_path, earlier).paused.dom().contains(pid) {
            let i = choose|i: int| 0 <= i < earlier.len() && (#[trigger] earlier[i]).pid == pid;
            assert(cands[i].pid == pid);
        } else {
            assert forall|i: int| 0 <= i < cands.len() implies (#[trigger] cands[i]).pid != pid by {
                if i < earlier.len() {
                    assert(earlier[i] == cands[i]);
                }
            }
        }
    }
}

/// A process is shown as stopped exactly where its candidate says so; where it
/// stands twice among them, the last one counts.
pub proof fn law_row_is_as_its_candidate(
    d: DialogView,
    pressure_path: Seq<char>,
    cands: Seq<DialogCandidate>,
    i: int,
)
    requires
        0 <= i < cands.len(),
        forall|j: int| i < j < cands.len() ==> (#[trigger] cands[j]).pid != cands[i].pid,
    ensures
        shown(d, pressure_path, cands).paused[cands[i].pid] == cands[i].paused,
    decreases cands.len(),
{
    let earlier = cands.drop_last();
    if i < earlier.len() {
        assert(cands[cands.len() - 1].pid != cands[i].pid);
        assert(earlier[i] == cands[i]);
        assert forall|j: int| i < j < earlier.len() implies (#[trigger] earlier[j]).pid
            != earlier[i].pid by {
            assert(earlier[j] == cands[j]);
        }
        law_row_is_as_its_candidate(d, pressure_path, earlier, i);
    }
}

/// A process is stopped when its name arrives exactly where stopping is
/// allowed, it has a row that does not show it as stopped, and the budget is
/// not used up. It is then shown as stopped.
pub proof fn law_late_names_stop(d: DialogView, pid: i32, pause: bool, budget: nat)
    ensures
        late_stop(d, pid, pause, budget) <==> pause && budget > 0 && d.paused.dom().contains(pid)
            && !d.paused[pid],
        d.paused.dom().contains(pid) ==> relabelled(d, pid, true).paused[pid],
        relabelled(d, pid, false) == d,
        !d.paused.dom().contains(pid) ==> relabelled(d, pid, true) == d,
        relabelled(d, pid, true).active == d.active,
        relabelled(d, pid, true).remaining == d.remaining,
        relabelled(d, pid, true).ticking == d.ticking,
        relabelled(d, pid, true).pressure_path == d.pressure_path,
{
}

/// The line above the candidates is that of the pressure file, and for every
/// source but the system it begins with the name of the cgroup.
pub proof fn law_headline(source: Seq<char>, psi_line: Seq<char>)
    ensures
        headline_of("system"@, psi_line) == psi_line,
        source != "system"@ ==> headline_of(source, psi_line) == "cgroup "@ + source + ": "@
            + psi_line,
{
}

/// The texts of the dialog hold what they are about: the name in bold, with a
/// note exactly where the process is stopped, the process number, the score
/// and the command line, the seconds that are left, the percentage, and the
/// process that could not be signalled.
pub proof fn law_texts_of_the_dialog(
    name: Seq<char>,
    pid: i32,
    oom_score: i32,
    cmdline: Seq<char>,
    seconds: nat,
    percent: Seq<char>,
)
    ensures
        markup_of(name, false) == "<b>"@ + name + "</b>"@,
        markup_of(name, true) == "<b>"@ + name
            + "</b> <span alpha=\"55%\" style=\"italic\">(paused)</span>"@,
        details_of(pid, oom_score, cmdline) == "pid "@ + signed_decimal(pid as int)
            + " · oom score "@ + signed_decimal(oom_score as int) + " · "@ + cmdline,
        countdown_of(seconds) == "Doing nothing in "@ + decimal(seconds) + "s"@,
        still_high(percent) == "Pressure still high ("@ + percent + "%) — waiting"@,
        not_signalled(pid, name) == "Could not signal "@ + signed_decimal(pid as int) + " ("@ + name
            + ") — run ./install-caps.sh once"@,
{
}

/// A row holds its candidate, field by field, and shows it as stopped exactly
/// where it was to be stopped and could be.
pub proof fn law_row_of_a_candidate(
    row: DialogCandidate,
    c: CandidateView,
    planned: bool,
    stopped: bool,
)
    ensures
        is_row_of(row, c, planned, stopped) <==> row.pid == c.pid && row.comm@ == c.comm
            && row.cmdline@ == c.cmdline && row.rss_bytes == c.rss_bytes && row.oom_score
            == c.oom_score && (row.paused <==> planned && stopped),
{
}

/// An event is that of the source that fired: it has the source's name, the
/// source's own pressure file, and the line of that file.
pub proof fn law_event_is_of_its_source(
    event: PressureEvent,
    source: PlanView,
    kind: Seq<char>,
    psi_text: Option<Seq<char>>,
    cands: Vec<DialogCandidate>,
)
    requires
        is_event_of(event, source, kind, psi_text, cands),
    ensures
        event.source@ == source.label,
        event.pressure_path@ == source.pressure_path,
        event.psi_line@ == shown_line(kind, psi_text),
        event.cands@ == cands@,
{
}

/// A row says the number, the score and the command line of its candidate, and
/// how much memory it uses.
pub proof fn law_row_says_its_candidate(row: RowTexts, c: DialogCandidate)
    requires
        row_says(row, c),
    ensures
        row.details@ == "pid "@ + signed_decimal(c.pid as int) + " · oom score "@ + signed_decimal(
            c.oom_score as int,
        ) + " · "@ + c.cmdline@,
        row.size@ == human_text(c.rss_bytes),
{
}

/// The countdown says how many seconds are left, from the timeout on; under
/// high pressure it says the percentage, and where the dialog waits forever,
/// nothing.
pub proof fn law_countdown_says_what_is_left(d: DialogView, percent: Seq<char>)
    ensures
        opening_text(0) == ""@,
        d.timeout > 0 ==> opening_text(d.timeout) == "Doing nothing in "@ + decimal(d.timeout)
            + "s"@,
        d.remaining > 1 ==> tick_text(d, false, percent) == "Doing nothing in "@ + decimal(
            ticked(d, false).remaining,
        ) + "s"@,
        tick_text(d, true, percent) == "Pressure still high ("@ + percent + "%) — waiting"@,
{
}

/// Names that arrive while a question is open may stop five processes, and
/// each that is stopped takes one off; otherwise they come too late.
pub proof fn law_late_budget(d: DialogView, pid: i32, budget: nat)
    ensures
        d.active ==> late_budget(d) == Some(5nat),
        !d.active ==> late_budget(d) is None,
        budget_after(d, pid, false, budget) == budget,
        d.paused.dom().contains(pid) && budget > 0 ==> budget_after(d, pid, true, budget) + 1
            == budget,
        !d.paused.dom().contains(pid) ==> budget_after(d, pid, true, budget) == budget,
        d.paused.dom().contains(pid) ==> row_state(d, pid) == Some(d.paused[pid]),
        !d.paused.dom().contains(pid) ==> row_state(d, pid) is None,
{
}

} // verus!
