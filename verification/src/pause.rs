//! Stopping the offenders while the question is open, and letting them go
//! on afterwards.

use vstd::prelude::*;

use crate::process::{views, Candidate, CandidateView};
use crate::text::{chars_of, contains, occurs, same_str};

verus! {

// ----------------------------------------------------------------- table
/// How many stopped processes are kept track of at most.
pub const MAX_PAUSED: usize = 64;

/// The processes that were stopped: one in each slot, and zero in a free one.
pub struct PauseTable {
    slots: Vec<i32>,
}

impl View for PauseTable {
    type V = Seq<i32>;

    closed spec fn view(&self) -> Seq<i32> {
        self.slots@
    }
}

/// A table without processes.
pub open spec fn no_pauses() -> Seq<i32> {
    Seq::new(MAX_PAUSED as nat, |i: int| 0i32)
}

/// The first free slot, or the number of slots.
pub open spec fn free_slot(slots: Seq<i32>) -> int
    decreases slots.len(),
{
    if slots.len() == 0 || slots.first() == 0 {
        0
    } else {
        1 + free_slot(slots.drop_first())
    }
}

/// The processes that are to go on, in the order of the slots.
pub open spec fn stopped_in(slots: Seq<i32>) -> Seq<i32> {
    slots.filter(|pid: i32| pid > 0)
}

/// The slots after a process was to be stopped: it stands in the first free
/// one, where the signal could be delivered and there is one.
pub open spec fn after_pause(slots: Seq<i32>, pid: i32, stopped: bool) -> Seq<i32> {
    if stopped && free_slot(slots) < slots.len() {
        slots.update(free_slot(slots), pid)
    } else {
        slots
    }
}

/// What became of stopping a process.
#[derive(Clone, Copy, Debug, PartialEq, Eq, Structural)]
pub enum PauseOutcome {
    /// it could not be stopped
    NotStopped,
    /// it is stopped, and kept track of in this slot
    Stopped(usize),
    /// no slot is free: it must go on at once
    MustGoOn,
}

/// What becomes of stopping a process, given whether the signal could be
/// delivered.
pub open spec fn outcome_for(slots: Seq<i32>, stopped: bool) -> PauseOutcome {
    if !stopped {
        PauseOutcome::NotStopped
    } else if free_slot(slots) == slots.len() {
        PauseOutcome::MustGoOn
    } else {
        PauseOutcome::Stopped(free_slot(slots) as usize)
    }
}

/// `free_slot` finds the first free slot.
proof fn lemma_free_slot_is(slots: Seq<i32>, i: int)
    requires
        0 <= i <= slots.len(),
        i < slots.len() ==> slots[i] == 0,
        forall|j: int| 0 <= j < i ==> slots[j] != 0,
    ensures
        free_slot(slots) == i,
    decreases i,
{
    if i > 0 {
        assert(slots[0] != 0);
        assert forall|j: int| 0 <= j < i - 1 implies slots.drop_first()[j] != 0 by {
            assert(slots.drop_first()[j] == slots[j + 1]);
        }
        lemma_free_slot_is(slots.drop_first(), i - 1);
    }
}

impl PauseTable {
    /// Whether the table has as many slots as it must have.
    pub open spec fn wf(&self) -> bool {
        self@.len() == MAX_PAUSED
    }

    /// A table without processes.
    pub fn new() -> (r: PauseTable)
        ensures
            r.wf(),
            r@ == no_pauses(),
    {
        let mut slots: Vec<i32> = Vec::new();
        let mut i: usize = 0;
        while i < MAX_PAUSED
            invariant
                i <= MAX_PAUSED,
                slots@ == no_pauses().take(i as int),
            decreases MAX_PAUSED - i,
        {
            slots.push(0);
            assert(slots@ =~= no_pauses().take(i + 1));
            i = i + 1;
        }
        assert(slots@ =~= no_pauses());
        PauseTable { slots }
    }

    /// What becomes of stopping a process, given whether the signal could be
    /// delivered: it is put into the first free slot. Where none is free, it
    /// must not stay stopped without being kept track of.
    pub fn pause_pid(&mut self, pid: i32, stopped: bool) -> (r: PauseOutcome)
        requires
            old(self).wf(),
        ensures
            final(self).wf(),
            final(self)@ == after_pause(old(self)@, pid, stopped),
            0 <= free_slot(old(self)@) <= MAX_PAUSED,
            r == outcome_for(old(self)@, stopped),
    {
        proof {
            lemma_free_slot(self@);
        }
        if !stopped {
            return PauseOutcome::NotStopped;
        }
        let mut i: usize = 0;
        while i < self.slots.len() && self.slots[i] != 0
            invariant
                i <= self.slots.len(),
                forall|j: int| 0 <= j < i ==> self.slots@[j] != 0,
            decreases self.slots.len() - i,
        {
            i = i + 1;
        }
        proof {
            lemma_free_slot_is(self@, i as int);
        }
        if i == self.slots.len() {
            return PauseOutcome::MustGoOn;
        }
        self.slots.set(i, pid);
        PauseOutcome::Stopped(i)
    }

    /// Frees every slot, and puts the processes that are to go on into `out`,
    /// in place of what it held. A list with room for all of them does not
    /// grow.
    pub fn resume_all(&mut self, out: &mut Vec<i32>)
        requires
            old(self).wf(),
        ensures
            final(self).wf(),
            final(self)@ == no_pauses(),
            final(out)@ == stopped_in(old(self)@),
    {
        let ghost all = self@;
        let ghost keep = |pid: i32| pid > 0;
        out.clear();
        let mut i: usize = 0;
        assert(out@ =~= all.take(0).filter(keep)) by {
            reveal(Seq::filter);
        }
        while i < self.slots.len()
            invariant
                i <= self.slots.len(),
                self.slots@.len() == MAX_PAUSED,
                all.len() == MAX_PAUSED,
                keep == (|pid: i32| pid > 0),
                forall|j: int| 0 <= j < i ==> self.slots@[j] == 0,
                forall|j: int| i <= j < all.len() ==> self.slots@[j] == all[j],
                out@ == all.take(i as int).filter(keep),
            decreases self.slots.len() - i,
        {
            let ghost before = out@;
            let pid: i32 = self.slots[i];
            self.slots.set(i, 0);
            assert(all.take(i + 1).drop_last() =~= all.take(i as int));
            assert(all.take(i + 1).last() == pid);
            if pid > 0 {
                out.push(pid);
            }
            assert(out@ == all.take(i + 1).filter(keep)) by {
                reveal(Seq::filter);
            }
            i = i + 1;
        }
        assert(all.take(i as int) =~= all);
        assert(self@ =~= no_pauses());
    }
}

// ------------------------------------------------------------- decisions
/// How many of the worst offenders are stopped at most.
pub const MAX_UPFRONT: usize = 5;

/// Whether the dialog itself depends on a process of this name.
pub open spec fn renders_dialog(comm: Seq<char>) -> bool {
    comm == "Xwayland"@ || comm == "dbus-daemon"@ || comm == "dbus-broker"@ || comm == "systemd"@
}

/// Whether the dialog itself depends on a process of this name. Such a
/// process is never stopped, regardless of how much memory it uses.
pub fn is_render_critical(comm: &str) -> (r: bool)
    ensures
        r == renders_dialog(comm@),
{
    same_str(comm, "Xwayland") || same_str(comm, "dbus-daemon") || same_str(comm, "dbus-broker")
        || same_str(comm, "systemd")
}

/// Whether a process is one of Firefox.
pub open spec fn of_firefox(c: CandidateView) -> bool {
    occurs(c.cmdline, "-contentproc"@) || c.comm == "firefox"@
}

/// Whether a process is one of Firefox.
pub fn is_firefox(c: &Candidate) -> (r: bool)
    ensures
        r == of_firefox(c@),
{
    let cmdline: Vec<char> = chars_of(c.cmdline.as_str());
    contains(cmdline.as_slice(), "-contentproc") || same_str(c.comm.as_str(), "firefox")
}

/// The first candidate that is a process of Firefox.
pub open spec fn first_of_firefox(cands: Seq<CandidateView>) -> Option<i32>
    decreases cands.len(),
{
    if cands.len() == 0 {
        None
    } else if of_firefox(cands.first()) {
        Some(cands.first().pid)
    } else {
        first_of_firefox(cands.drop_first())
    }
}

/// The first candidate that is a process of Firefox.
pub fn first_firefox(cands: &Vec<Candidate>) -> (r: Option<i32>)
    ensures
        r == first_of_firefox(views(cands@)),
{
    let ghost all = views(cands@);
    let mut i: usize = 0;
    assert(all.skip(0) =~= all);
    while i < cands.len()
        invariant
            i <= cands.len(),
            all == views(cands@),
            first_of_firefox(all) == first_of_firefox(all.skip(i as int)),
        decreases cands.len() - i,
    {
        assert(all[i as int] == cands@[i as int]@);
        if is_firefox(&cands[i]) {
            return Some(cands[i].pid);
        }
        assert(all.skip(i as int).drop_first() =~= all.skip(i + 1));
        i = i + 1;
    }
    None
}

/// Whether the candidate in the place `i` is to be stopped while the
/// question is open: one of the worst offenders, unless that was forbidden,
/// or it is an ancestor of this program, the compositor, or something else
/// that the dialog depends on. Where a report of Firefox is asked for,
/// Firefox goes on: a stopped one could never write it.
pub open spec fn to_be_stopped(
    c: CandidateView,
    i: int,
    pause: bool,
    report_pending: bool,
    ancestors: Seq<i32>,
    compositor: Option<i32>,
) -> bool {
    &&& pause
    &&& i < MAX_UPFRONT
    &&& !(report_pending && of_firefox(c))
    &&& !ancestors.contains(c.pid)
    &&& compositor != Some(c.pid)
    &&& !renders_dialog(c.comm)
}

/// Whether `pid` is in the list.
fn contains_pid(pids: &Vec<i32>, pid: i32) -> (r: bool)
    ensures
        r == pids@.contains(pid),
{
    let mut i: usize = 0;
    while i < pids.len()
        invariant
            i <= pids.len(),
            forall|j: int| 0 <= j < i ==> pids@[j] != pid,
        decreases pids.len() - i,
    {
        if pids[i] == pid {
            return true;
        }
        i = i + 1;
    }
    false
}

/// Which of the candidates are to be stopped while the question is open.
pub fn pause_plan(
    cands: &Vec<Candidate>,
    pause: bool,
    report_pending: bool,
    ancestors: &Vec<i32>,
    compositor: Option<i32>,
) -> (r: Vec<bool>)
    ensures
        r@.len() == cands@.len(),
        forall|i: int|
            0 <= i < r@.len() ==> #[trigger] r@[i] == to_be_stopped(
                cands@[i]@,
                i,
                pause,
                report_pending,
                ancestors@,
                compositor,
            ),
{
    let mut out: Vec<bool> = Vec::new();
    let mut i: usize = 0;
    while i < cands.len()
        invariant
            i <= cands.len(),
            out@.len() == i,
            forall|j: int|
                0 <= j < i ==> #[trigger] out@[j] == to_be_stopped(
                    cands@[j]@,
                    j,
                    pause,
                    report_pending,
                    ancestors@,
                    compositor,
                ),
        decreases cands.len() - i,
    {
        let c: &Candidate = &cands[i];
        let is_compositor: bool = match compositor {
            Some(pid) => pid == c.pid,
            None => false,
        };
        let stop: bool = pause && i < MAX_UPFRONT && !(report_pending && is_firefox(c))
            && !contains_pid(ancestors, c.pid) && !is_compositor && !is_render_critical(
            c.comm.as_str(),
        );
        out.push(stop);
        i = i + 1;
    }
    out
}

// ------------------------------------------------------------------ laws
/// Who answers the prompt, shows it or is needed for it is never stopped,
/// and where stopping was forbidden, nobody is.
pub proof fn law_needed_processes_go_on(
    c: CandidateView,
    i: int,
    pause: bool,
    report_pending: bool,
    ancestors: Seq<i32>,
    compositor: Option<i32>,
)
    requires
        ancestors.contains(c.pid) || compositor == Some(c.pid) || renders_dialog(c.comm) || !pause,
    ensures
        !to_be_stopped(c, i, pause, report_pending, ancestors, compositor),
{
}

/// Only the worst offenders are stopped, and no more than so many.
pub proof fn law_only_worst_are_stopped(
    c: CandidateView,
    i: int,
    pause: bool,
    report_pending: bool,
    ancestors: Seq<i32>,
    compositor: Option<i32>,
)
    requires
        to_be_stopped(c, i, pause, report_pending, ancestors, compositor),
    ensures
        i < MAX_UPFRONT,
        MAX_UPFRONT < MAX_PAUSED,
{
}

/// A Firefox that is asked for a report goes on, so that it can write it.
pub proof fn law_firefox_can_report(
    c: CandidateView,
    i: int,
    pause: bool,
    ancestors: Seq<i32>,
    compositor: Option<i32>,
)
    requires
        of_firefox(c),
    ensures
        !to_be_stopped(c, i, pause, true, ancestors, compositor),
{
}

/// A slot that is free has a place, and those before it are taken.
proof fn lemma_free_slot(slots: Seq<i32>)
    ensures
        0 <= free_slot(slots) <= slots.len(),
        free_slot(slots) < slots.len() ==> slots[free_slot(slots)] == 0,
        forall|j: int| 0 <= j < free_slot(slots) ==> slots[j] != 0,
    decreases slots.len(),
{
    if slots.len() > 0 && slots.first() != 0 {
        lemma_free_slot(slots.drop_first());
        assert forall|j: int| 0 <= j < free_slot(slots) implies slots[j] != 0 by {
            if j > 0 {
                assert(slots[j] == slots.drop_first()[j - 1]);
            }
        }
    }
}

/// What `stopped_in` hands out are the processes of the slots, all of them.
proof fn lemma_stopped_in(slots: Seq<i32>, pid: i32)
    ensures
        stopped_in(slots).contains(pid) == (pid > 0 && slots.contains(pid)),
    decreases slots.len(),
{
    let keep = |p: i32| p > 0;
    broadcast use vstd::seq_lib::group_filter_ensures;

    if stopped_in(slots).contains(pid) {
        let k = choose|k: int| 0 <= k < stopped_in(slots).len() && stopped_in(slots)[k] == pid;
        slots.lemma_filter_pred(keep, k);
        lemma_stopped_member(slots, k);
    }
    if pid > 0 && slots.contains(pid) {
        let k = choose|k: int| 0 <= k < slots.len() && slots[k] == pid;
        slots.lemma_filter_contains(keep, k);
    }
}

/// What is handed out stands in a slot.
proof fn lemma_stopped_member(slots: Seq<i32>, k: int)
    requires
        0 <= k < stopped_in(slots).len(),
    ensures
        slots.contains(stopped_in(slots)[k]),
    decreases slots.len(),
{
    reveal(Seq::filter);
    let earlier = slots.drop_last();
    if k < stopped_in(earlier).len() {
        lemma_stopped_member(earlier, k);
        let i = choose|i: int| 0 <= i < earlier.len() && earlier[i] == stopped_in(earlier)[k];
        assert(slots[i] == stopped_in(slots)[k]);
    } else {
        assert(slots[slots.len() - 1] == stopped_in(slots)[k]);
    }
}

/// One that is put into the first free slot is handed out again, and so is
/// every other that was stopped before.
proof fn lemma_pause_is_kept(slots: Seq<i32>, pid: i32, other: i32)
    requires
        free_slot(slots) < slots.len(),
    ensures
        pid > 0 ==> stopped_in(after_pause(slots, pid, true)).contains(pid),
        stopped_in(slots).contains(other) ==> stopped_in(after_pause(slots, pid, true)).contains(
            other,
        ),
{
    let at = free_slot(slots);
    let new = after_pause(slots, pid, true);
    lemma_free_slot(slots);
    assert(new[at] == pid);
    lemma_stopped_in(new, pid);
    lemma_stopped_in(new, other);
    lemma_stopped_in(slots, other);
    if stopped_in(slots).contains(other) {
        let k = choose|k: int| 0 <= k < slots.len() && slots[k] == other;
        assert(k != at);
        assert(new[k] == other);
    }
}

/// The slots after processes were to be stopped one after the other, each
/// with whether the signal could be delivered.
pub open spec fn after_pauses(slots: Seq<i32>, asked: Seq<(i32, bool)>) -> Seq<i32>
    decreases asked.len(),
{
    if asked.len() == 0 {
        slots
    } else {
        after_pause(after_pauses(slots, asked.drop_last()), asked.last().0, asked.last().1)
    }
}

/// No process is left stopped: whichever was stopped while a slot was free
/// is among those that go on, whatever else was stopped before and after it.
pub proof fn law_stopped_go_on(slots: Seq<i32>, asked: Seq<(i32, bool)>, k: int)
    requires
        0 <= k < asked.len(),
        asked[k].0 > 0,
        asked[k].1,
        free_slot(after_pauses(slots, asked.take(k))) < slots.len(),
    ensures
        stopped_in(after_pauses(slots, asked)).contains(asked[k].0),
        after_pauses(slots, asked).len() == slots.len(),
    decreases asked.len(),
{
    let earlier = asked.drop_last();
    let before = after_pauses(slots, earlier);
    lemma_slots_stay(slots, earlier);
    lemma_free_slot(before);
    if k < earlier.len() {
        assert(earlier.take(k) =~= asked.take(k));
        law_stopped_go_on(slots, earlier, k);
    } else {
        assert(earlier =~= asked.take(k));
    }
    if asked.last().1 && free_slot(before) < before.len() {
        lemma_pause_is_kept(before, asked.last().0, asked[k].0);
    }
}

/// No slot comes or goes.
proof fn lemma_slots_stay(slots: Seq<i32>, asked: Seq<(i32, bool)>)
    ensures
        after_pauses(slots, asked).len() == slots.len(),
    decreases asked.len(),
{
    if asked.len() > 0 {
        lemma_slots_stay(slots, asked.drop_last());
        lemma_free_slot(after_pauses(slots, asked.drop_last()));
    }
}

/// After everything went on, nothing is left to go on.
pub proof fn law_nothing_left_to_resume()
    ensures
        stopped_in(no_pauses()).len() == 0,
        free_slot(no_pauses()) == 0,
{
    if stopped_in(no_pauses()).len() > 0 {
        let pid = stopped_in(no_pauses())[0];
        assert(stopped_in(no_pauses()).contains(pid));
        lemma_stopped_in(no_pauses(), pid);
    }
}

/// The processes that are kept track of when they were to be stopped one after
/// the other, in that order: as many as there are slots.
pub open spec fn kept_track_of(asked: Seq<(i32, bool)>) -> Seq<i32>
    decreases asked.len(),
{
    if asked.len() == 0 {
        Seq::empty()
    } else {
        let earlier = kept_track_of(asked.drop_last());
        if asked.last().1 && earlier.len() < MAX_PAUSED {
            earlier.push(asked.last().0)
        } else {
            earlier
        }
    }
}

/// The slots are taken from the first one on.
proof fn lemma_slots_fill(asked: Seq<(i32, bool)>)
    requires
        forall|i: int| 0 <= i < asked.len() ==> (#[trigger] asked[i]).0 > 0,
    ensures
        kept_track_of(asked).len() <= MAX_PAUSED,
        forall|i: int| 0 <= i < kept_track_of(asked).len() ==> #[trigger] kept_track_of(asked)[i] > 0,
        after_pauses(no_pauses(), asked) == kept_track_of(asked) + no_pauses().skip(
            kept_track_of(asked).len() as int,
        ),
    decreases asked.len(),
{
    let kept = kept_track_of(asked);
    let slots = after_pauses(no_pauses(), asked);
    if asked.len() == 0 {
        assert(slots =~= kept + no_pauses().skip(0));
    } else {
        let earlier = asked.drop_last();
        assert forall|i: int| 0 <= i < earlier.len() implies (#[trigger] earlier[i]).0 > 0 by {
            assert(earlier[i] == asked[i]);
        }
        assert(asked[asked.len() - 1].0 > 0);
        lemma_slots_fill(earlier);
        let before = after_pauses(no_pauses(), earlier);
        let n = kept_track_of(earlier).len() as int;
        assert forall|j: int| 0 <= j < n implies before[j] != 0 by {
            assert(before[j] == kept_track_of(earlier)[j]);
        }
        lemma_free_slot_is(before, n);
        assert(slots =~= kept + no_pauses().skip(kept.len() as int));
    }
}

/// To keep the processes of a list of processes is to keep the list.
proof fn lemma_stopped_in_all(pids: Seq<i32>)
    requires
        forall|i: int| 0 <= i < pids.len() ==> #[trigger] pids[i] > 0,
    ensures
        stopped_in(pids) == pids,
    decreases pids.len(),
{
    reveal(Seq::filter);
    if pids.len() > 0 {
        let earlier = pids.drop_last();
        assert forall|i: int| 0 <= i < earlier.len() implies #[trigger] earlier[i] > 0 by {
            assert(earlier[i] == pids[i]);
        }
        lemma_stopped_in_all(earlier);
        assert(pids[pids.len() - 1] > 0);
        assert(earlier.push(pids.last()) =~= pids);
    }
}

/// Free slots hold no process.
proof fn lemma_stopped_in_none(slots: Seq<i32>)
    requires
        forall|i: int| 0 <= i < slots.len() ==> #[trigger] slots[i] == 0,
    ensures
        stopped_in(slots) == Seq::<i32>::empty(),
{
    if stopped_in(slots).len() > 0 {
        let pid = stopped_in(slots)[0];
        assert(stopped_in(slots).contains(pid));
        lemma_stopped_in(slots, pid);
        let k = choose|k: int| 0 <= k < slots.len() && slots[k] == pid;
        assert(slots[k] == 0);
    }
    assert(stopped_in(slots) =~= Seq::<i32>::empty());
}

/// What was stopped goes on exactly once: with an empty table to begin with,
/// those that go on are those that were stopped and kept track of, in the
/// order in which they were stopped.
pub proof fn law_each_goes_on_once(asked: Seq<(i32, bool)>)
    requires
        forall|i: int| 0 <= i < asked.len() ==> (#[trigger] asked[i]).0 > 0,
    ensures
        stopped_in(after_pauses(no_pauses(), asked)) == kept_track_of(asked),
{
    let kept = kept_track_of(asked);
    let free = no_pauses().skip(kept.len() as int);
    lemma_slots_fill(asked);
    Seq::filter_distributes_over_add(kept, free, |pid: i32| pid > 0);
    lemma_stopped_in_all(kept);
    lemma_stopped_in_none(free);
    assert(kept + Seq::<i32>::empty() =~= kept);
}

/// The worst offenders are stopped: where that is allowed, a candidate in one
/// of the first five places is stopped, whatever its size, its number, its
/// command line and its score, unless it is an ancestor, the compositor, one
/// of the four programs that the dialog depends on, or one of Firefox while a
/// report is pending.
pub proof fn law_worst_offenders_are_stopped(
    c: CandidateView,
    i: int,
    report_pending: bool,
    ancestors: Seq<i32>,
    compositor: Option<i32>,
)
    requires
        i < 5,
        !ancestors.contains(c.pid),
        compositor != Some(c.pid),
        c.comm != "Xwayland"@,
        c.comm != "dbus-daemon"@,
        c.comm != "dbus-broker"@,
        c.comm != "systemd"@,
        report_pending ==> c.comm != "firefox"@ && forall|a: int|
            0 <= a && a + 12 <= c.cmdline.len() ==> #[trigger] c.cmdline.subrange(a, a + 12)
                != "-contentproc"@,
    ensures
        to_be_stopped(c, i, true, report_pending, ancestors, compositor),
{
    reveal_strlit("-contentproc");
    if report_pending && occurs(c.cmdline, "-contentproc"@) {
        crate::text::law_occurrence_has_a_place(c.cmdline, "-contentproc"@);
        let a = choose|a: int|
            0 <= a && a + 12 <= c.cmdline.len() && #[trigger] c.cmdline.subrange(a, a + 12)
                == "-contentproc"@;
        assert(c.cmdline.subrange(a, a + 12) == "-contentproc"@);
    }
}

/// Nobody else is stopped: not where stopping was forbidden, not from the
/// sixth place on, no ancestor, not the compositor, none of the four programs
/// that the dialog depends on, and none of Firefox while a report is pending,
/// which is known by its name or by an argument.
pub proof fn law_others_go_on(
    c: CandidateView,
    i: int,
    pause: bool,
    report_pending: bool,
    ancestors: Seq<i32>,
    compositor: Option<i32>,
    front: Seq<char>,
    back: Seq<char>,
)
    requires
        !pause || i >= 5 || ancestors.contains(c.pid) || compositor == Some(c.pid) || c.comm
            == "Xwayland"@ || c.comm == "dbus-daemon"@ || c.comm == "dbus-broker"@ || c.comm
            == "systemd"@ || (report_pending && (c.comm == "firefox"@ || c.cmdline == front
            + "-contentproc"@ + back)),
    ensures
        !to_be_stopped(c, i, pause, report_pending, ancestors, compositor),
{
    crate::text::law_occurs(front, "-contentproc"@, back);
}

/// The first candidate that is one of Firefox is found, in whatever place it
/// stands; where there is none, none is found.
pub proof fn law_first_firefox(cands: Seq<CandidateView>)
    ensures
        forall|k: int|
            0 <= k < cands.len() && ((#[trigger] cands[k]).comm == "firefox"@ || occurs(
                cands[k].cmdline,
                "-contentproc"@,
            )) && (forall|j: int|
                0 <= j < k ==> (#[trigger] cands[j]).comm != "firefox"@ && !occurs(
                    cands[j].cmdline,
                    "-contentproc"@,
                )) ==> first_of_firefox(cands) == Some(cands[k].pid),
        (forall|j: int|
            0 <= j < cands.len() ==> (#[trigger] cands[j]).comm != "firefox"@ && !occurs(
                cands[j].cmdline,
                "-contentproc"@,
            )) ==> first_of_firefox(cands) is None,
    decreases cands.len(),
{
    if cands.len() > 0 {
        let rest = cands.drop_first();
        law_first_firefox(rest);
        assert forall|k: int|
            0 <= k < cands.len() && ((#[trigger] cands[k]).comm == "firefox"@ || occurs(
                cands[k].cmdline,
                "-contentproc"@,
            )) && (forall|j: int|
                0 <= j < k ==> (#[trigger] cands[j]).comm != "firefox"@ && !occurs(
                    cands[j].cmdline,
                    "-contentproc"@,
                )) implies first_of_firefox(cands) == Some(cands[k].pid) by {
            if k > 0 {
                assert(cands[0].comm != "firefox"@);
                assert(rest[k - 1] == cands[k]);
                assert forall|j: int| 0 <= j < k - 1 implies (#[trigger] rest[j]).comm
                    != "firefox"@ && !occurs(rest[j].cmdline, "-contentproc"@) by {
                    assert(rest[j] == cands[j + 1]);
                }
            }
        }
        if forall|j: int|
            0 <= j < cands.len() ==> (#[trigger] cands[j]).comm != "firefox"@ && !occurs(
                cands[j].cmdline,
                "-contentproc"@,
            ) {
            assert(cands[0].comm != "firefox"@);
            assert forall|j: int| 0 <= j < rest.len() implies (#[trigger] rest[j]).comm
                != "firefox"@ && !occurs(rest[j].cmdline, "-contentproc"@) by {
                assert(rest[j] == cands[j + 1]);
            }
        }
    }
}

/// What becomes of stopping a process: without a delivered signal it is not
/// stopped; otherwise it is kept track of in the first slot that is zero, and
/// only where no slot is, it must go on. No other slot changes.
pub proof fn law_pause_takes_the_first_free_slot(slots: Seq<i32>, pid: i32, k: int)
    requires
        slots.len() <= usize::MAX,
    ensures
        outcome_for(slots, false) == PauseOutcome::NotStopped,
        after_pause(slots, pid, false) == slots,
        (forall|j: int| 0 <= j < slots.len() ==> #[trigger] slots[j] != 0) ==> outcome_for(
            slots,
            true,
        ) == PauseOutcome::MustGoOn && after_pause(slots, pid, true) == slots,
        0 <= k < slots.len() && slots[k] == 0 && (forall|j: int|
            0 <= j < k ==> #[trigger] slots[j] != 0) ==> outcome_for(slots, true)
            == PauseOutcome::Stopped(k as usize) && after_pause(slots, pid, true) == slots.update(
            k,
            pid,
        ),
{
    if forall|j: int| 0 <= j < slots.len() ==> #[trigger] slots[j] != 0 {
        lemma_free_slot_is(slots, slots.len() as int);
    }
    if 0 <= k < slots.len() && slots[k] == 0 && (forall|j: int|
        0 <= j < k ==> #[trigger] slots[j] != 0) {
        lemma_free_slot_is(slots, k);
    }
}

/// Those that go on are those whose signal was delivered, each once and in the
/// order in which they were stopped, up to the 64 that can be kept track of.
pub proof fn law_stopped_and_resumed(asked: Seq<(i32, bool)>)
    requires
        forall|i: int| 0 <= i < asked.len() ==> (#[trigger] asked[i]).0 > 0,
    ensures
        stopped_in(after_pauses(no_pauses(), asked)) == ({
            let delivered = asked.filter(|a: (i32, bool)| a.1).map_values(|a: (i32, bool)| a.0);
            delivered.take(
                if delivered.len() <= 64 {
                    delivered.len() as int
                } else {
                    64
                },
            )
        }),
{
    law_each_goes_on_once(asked);
    lemma_kept_track_of(asked);
}

/// Those that are kept track of are the first ones that were stopped.
proof fn lemma_kept_track_of(asked: Seq<(i32, bool)>)
    ensures
        kept_track_of(asked) == ({
            let delivered = asked.filter(|a: (i32, bool)| a.1).map_values(|a: (i32, bool)| a.0);
            delivered.take(
                if delivered.len() <= 64 {
                    delivered.len() as int
                } else {
                    64
                },
            )
        }),
    decreases asked.len(),
{
    reveal(Seq::filter);
    let all = asked.filter(|a: (i32, bool)| a.1);
    let pids = all.map_values(|a: (i32, bool)| a.0);
    if asked.len() == 0 {
        assert(pids.take(0) =~= Seq::<i32>::empty());
    } else {
        let earlier = asked.drop_last();
        lemma_kept_track_of(earlier);
        let before = earlier.filter(|a: (i32, bool)| a.1);
        let pids_before = before.map_values(|a: (i32, bool)| a.0);
        if asked.last().1 {
            assert(pids =~= pids_before.push(asked.last().0));
            if pids.len() <= 64 {
                assert(pids.take(pids.len() as int) =~= pids_before.take(
                    pids_before.len() as int,
                ).push(asked.last().0));
            } else {
                assert(pids.take(64) =~= pids_before.take(64));
                assert(pids_before.take(pids_before.len() as int) =~= pids_before);
            }
        }
        assert(kept_track_of(asked) =~= pids.take(
            if pids.len() <= 64 {
                pids.len() as int
            } else {
                64
            },
        ));
    }
}

/// What goes on are the processes in the slots, and a free slot is none.
pub proof fn law_slots_hold_the_stopped(slots: Seq<i32>, pid: i32)
    ensures
        stopped_in(slots).contains(pid) <==> pid > 0 && slots.contains(pid),
        no_pauses().len() == 64,
        forall|i: int| 0 <= i < 64 ==> #[trigger] no_pauses()[i] == 0,
{
    lemma_stopped_in(slots, pid);
}

} // verus!
