//! Waiting for pressure: which sources are polled, what a poll means, and
//! when a pressure event is a real one.

use vstd::prelude::*;

use crate::config::Config;
use crate::psi::{total_of, total_us_of, PsiSource};
use crate::text::{opt_str_text, string_texts};

verus! {

// --------------------------------------------------------------- polling
/// What a poll said of one armed trigger.
#[derive(Clone, Copy, Debug, PartialEq, Eq, Structural)]
pub struct PollFlags {
    /// the trigger is dead
    pub error: bool,
    /// the trigger fired
    pub priority: bool,
}

/// How a poll ended.
pub enum PollOutcome {
    /// it failed
    Failed {
        /// because a signal came
        interrupted: bool,
    },
    /// something happened; there is an entry for each armed trigger
    Ready(Vec<PollFlags>),
    /// nothing happened in time; there is an entry for each source, which
    /// says whether its average is over the threshold
    TimedOut(Vec<bool>),
}

/// What follows from a poll.
#[derive(Debug)]
pub enum WaitStep {
    /// poll again; these sources vanished and were dropped
    Again {
        dropped: Vec<String>,
    },
    /// the source with this number is under pressure
    Fired(usize),
    /// waiting is over
    GaveUp,
}

/// The numbers of the sources with an armed trigger, in order.
pub open spec fn armed_of<T>(sources: Seq<PsiSource<T>>) -> Seq<int>
    decreases sources.len(),
{
    if sources.len() == 0 {
        Seq::empty()
    } else {
        let earlier = armed_of(sources.drop_last());
        if sources.last().trigger is Some {
            earlier.push(sources.len() - 1)
        } else {
            earlier
        }
    }
}

/// The numbers of the sources with an armed trigger, in order.
pub fn armed_sources<T>(sources: &Vec<PsiSource<T>>) -> (r: Vec<usize>)
    ensures
        r@.map_values(|i: usize| i as int) == armed_of(sources@),
{
    let mut out: Vec<usize> = Vec::new();
    let mut i: usize = 0;
    assert(out@.map_values(|i: usize| i as int) =~= armed_of(sources@.take(0)));
    while i < sources.len()
        invariant
            i <= sources.len(),
            out@.map_values(|i: usize| i as int) == armed_of(sources@.take(i as int)),
        decreases sources.len() - i,
    {
        let ghost before = out@.map_values(|i: usize| i as int);
        assert(sources@.take(i + 1).drop_last() =~= sources@.take(i as int));
        if sources[i].trigger.is_some() {
            out.push(i);
            assert(out@.map_values(|i: usize| i as int) =~= before.push(i as int));
        }
        i = i + 1;
    }
    assert(sources@.take(i as int) =~= sources@);
    out
}

/// How long to poll, in milliseconds, where the window takes so many
/// microseconds.
pub open spec fn timeout_for<T>(sources: Seq<PsiSource<T>>, window: u128) -> i32 {
    if armed_of(sources).len() < sources.len() {
        (window / 1000) as i32
    } else {
        -1i32
    }
}

/// How long to poll, in milliseconds: the window where some source has no
/// trigger and its average is looked at in turn, and without end where all
/// have one.
pub fn poll_timeout<T>(sources: &Vec<PsiSource<T>>, cfg: &Config) -> (r: i32)
    ensures
        r == timeout_for(sources@, cfg.window.micros),
{
    let armed: Vec<usize> = armed_sources(sources);
    assert(armed@.map_values(|i: usize| i as int).len() == armed@.len());
    if armed.len() < sources.len() {
        cfg.window.as_millis() as i32
    } else {
        -1
    }
}

/// Whether a trigger fired. One that is dead did not.
pub open spec fn fires(flags: PollFlags) -> bool {
    !flags.error && flags.priority
}

/// The first trigger that fired.
pub open spec fn first_fired(flags: Seq<PollFlags>) -> Option<int>
    decreases flags.len(),
{
    if flags.len() == 0 {
        None
    } else {
        match first_fired(flags.drop_last()) {
            Some(k) => Some(k),
            None => if fires(flags.last()) {
                Some(flags.len() - 1)
            } else {
                None
            },
        }
    }
}

/// The sources whose triggers are not dead, in their order. There is an
/// entry of `flags` for each armed trigger.
pub open spec fn survivors<T>(sources: Seq<PsiSource<T>>, flags: Seq<PollFlags>) -> Seq<
    PsiSource<T>,
>
    decreases sources.len(),
{
    if sources.len() == 0 {
        Seq::empty()
    } else if sources.last().trigger is None {
        survivors(sources.drop_last(), flags).push(sources.last())
    } else if flags.last().error {
        survivors(sources.drop_last(), flags.drop_last())
    } else {
        survivors(sources.drop_last(), flags.drop_last()).push(sources.last())
    }
}

/// The names of the sources whose triggers are dead, the last one first.
pub open spec fn casualties<T>(sources: Seq<PsiSource<T>>, flags: Seq<PollFlags>) -> Seq<Seq<char>>
    decreases sources.len(),
{
    if sources.len() == 0 {
        Seq::empty()
    } else if sources.last().trigger is None {
        casualties(sources.drop_last(), flags)
    } else if flags.last().error {
        seq![sources.last().label@] + casualties(sources.drop_last(), flags.drop_last())
    } else {
        casualties(sources.drop_last(), flags.drop_last())
    }
}

/// The first source without a trigger that is over the threshold.
pub open spec fn first_over<T>(sources: Seq<PsiSource<T>>, over: Seq<bool>) -> Option<int>
    decreases sources.len(),
{
    if sources.len() == 0 {
        None
    } else {
        match first_over(sources.drop_last(), over.drop_last()) {
            Some(i) => Some(i),
            None => if sources.last().trigger is None && over.last() {
                Some(sources.len() - 1)
            } else {
                None
            },
        }
    }
}

/// Whether the outcome of a poll has as many entries as it must have.
pub open spec fn outcome_fits<T>(sources: Seq<PsiSource<T>>, outcome: PollOutcome) -> bool {
    match outcome {
        PollOutcome::Failed { .. } => true,
        PollOutcome::Ready(flags) => flags@.len() == armed_of(sources).len(),
        PollOutcome::TimedOut(over) => over@.len() == sources.len(),
    }
}

/// What follows from a poll: the step, and the sources that are left.
///
/// Without sources, or after an error, waiting is over; a signal is no error.
/// The first trigger that fired counts, and nothing is dropped then. Where
/// none fired, the sources whose triggers are dead are dropped. Where nothing
/// happened in time, the first source without a trigger that is over the
/// threshold counts.
pub open spec fn step_is<T>(
    sources: Seq<PsiSource<T>>,
    outcome: PollOutcome,
    step: WaitStep,
    left: Seq<PsiSource<T>>,
) -> bool {
    if sources.len() == 0 {
        step is GaveUp && left == sources
    } else {
        match outcome {
            PollOutcome::Failed { interrupted } => {
                &&& left == sources
                &&& if interrupted {
                    step matches WaitStep::Again { dropped } && dropped@.len() == 0
                } else {
                    step is GaveUp
                }
            },
            PollOutcome::Ready(flags) => match first_fired(flags@) {
                Some(k) => step matches WaitStep::Fired(i) && i == armed_of(sources)[k] && left
                    == sources,
                None => {
                    &&& left == survivors(sources, flags@)
                    &&& step matches WaitStep::Again { dropped }
                    &&& string_texts(dropped@) == casualties(sources, flags@)
                },
            },
            PollOutcome::TimedOut(over) => {
                &&& left == sources
                &&& match first_over(sources, over@) {
                    Some(i) => step matches WaitStep::Fired(n) && n == i,
                    None => step matches WaitStep::Again { dropped } && dropped@.len() == 0,
                }
            },
        }
    }
}

/// The first trigger that fired.
fn find_fired(flags: &Vec<PollFlags>) -> (r: Option<usize>)
    ensures
        match r {
            Some(k) => first_fired(flags@) == Some(k as int) && k < flags@.len(),
            None => first_fired(flags@) is None,
        },
{
    let mut k: usize = 0;
    while k < flags.len()
        invariant
            k <= flags.len(),
            first_fired(flags@.take(k as int)) is None,
        decreases flags.len() - k,
    {
        assert(flags@.take(k + 1).drop_last() =~= flags@.take(k as int));
        if !flags[k].error && flags[k].priority {
            proof {
                lemma_first_fired_stays(flags@, k + 1);
            }
            return Some(k);
        }
        k = k + 1;
    }
    assert(flags@.take(k as int) =~= flags@);
    None
}

/// The first trigger that fired stays the first, whatever follows.
proof fn lemma_first_fired_stays(flags: Seq<PollFlags>, n: int)
    requires
        0 <= n <= flags.len(),
        first_fired(flags.take(n)) is Some,
    ensures
        first_fired(flags) == first_fired(flags.take(n)),
    decreases flags.len(),
{
    if n == flags.len() {
        assert(flags.take(n) =~= flags);
    } else {
        assert(flags.drop_last().take(n) =~= flags.take(n));
        lemma_first_fired_stays(flags.drop_last(), n);
    }
}

/// There is an armed source for each entry of `armed_of`.
proof fn lemma_armed<T>(sources: Seq<PsiSource<T>>)
    ensures
        armed_of(sources).len() <= sources.len(),
        forall|k: int|
            0 <= k < armed_of(sources).len() ==> 0 <= #[trigger] armed_of(sources)[k]
                < sources.len() && sources[armed_of(sources)[k]].trigger is Some,
    decreases sources.len(),
{
    if sources.len() > 0 {
        let earlier = sources.drop_last();
        lemma_armed(earlier);
        assert forall|k: int| 0 <= k < armed_of(sources).len() implies 0 <= #[trigger] armed_of(
            sources,
        )[k] < sources.len() && sources[armed_of(sources)[k]].trigger is Some by {
            if k < armed_of(earlier).len() {
                assert(armed_of(sources)[k] == armed_of(earlier)[k]);
                assert(sources[armed_of(earlier)[k]] == earlier[armed_of(earlier)[k]]);
            }
        }
    }
}

/// Drops the sources whose triggers are dead.
fn drop_dead<T>(sources: &mut Vec<PsiSource<T>>, flags: &Vec<PollFlags>) -> (r: Vec<String>)
    requires
        flags@.len() == armed_of(old(sources)@).len(),
    ensures
        final(sources)@ == survivors(old(sources)@, flags@),
        string_texts(r@) == casualties(old(sources)@, flags@),
{
    let ghost all = sources@;
    let mut out: Vec<String> = Vec::new();
    let mut i: usize = sources.len();
    let mut k: usize = flags.len();
    proof {
        assert(all.take(i as int) =~= all);
        assert(flags@.take(k as int) =~= flags@);
        assert(sources@.take(i as int) =~= all);
        assert(survivors(all, flags@) + sources@.skip(i as int) =~= survivors(all, flags@));
        assert(string_texts(out@) + casualties(all, flags@) =~= casualties(all, flags@));
    }
    while i > 0
        invariant
            i <= sources.len(),
            i <= all.len(),
            k <= flags.len(),
            k == armed_of(all.take(i as int)).len(),
            sources@.take(i as int) == all.take(i as int),
            survivors(all, flags@) == survivors(all.take(i as int), flags@.take(k as int))
                + sources@.skip(i as int),
            casualties(all, flags@) == string_texts(out@) + casualties(
                all.take(i as int),
                flags@.take(k as int),
            ),
        decreases i,
    {
        let ghost part = all.take(i as int);
        let ghost now = flags@.take(k as int);
        let ghost tail = sources@.skip(i as int);
        let ghost names = string_texts(out@);
        let ghost listed = sources@;
        assert(part.drop_last() =~= all.take(i - 1));
        assert(sources@[i - 1] == sources@.take(i as int)[i - 1]);
        assert(part.last() == sources@[i - 1]);
        assert(sources@.take(i - 1) =~= sources@.take(i as int).take(i - 1));
        assert(all.take(i - 1) =~= all.take(i as int).take(i - 1));
        i = i - 1;
        if sources[i].trigger.is_some() {
            assert(k > 0);
            k = k - 1;
            assert(now.drop_last() =~= flags@.take(k as int));
            assert(now.last() == flags@[k as int]);
            if flags[k].error {
                let gone: PsiSource<T> = sources.remove(i);
                let ghost name = gone.label@;
                out.push(gone.label);
                assert(string_texts(out@) =~= names.push(name));
                assert(sources@.skip(i as int) =~= tail);
                assert(sources@.take(i as int) =~= listed.take(i as int));
                let ghost rest = casualties(all.take(i as int), flags@.take(k as int));
                assert(names.push(name) + rest =~= names + (seq![name] + rest));
            } else {
                let ghost rest = survivors(all.take(i as int), flags@.take(k as int));
                assert(rest.push(part.last()) + tail =~= rest + sources@.skip(i as int));
            }
        } else {
            let ghost rest = survivors(all.take(i as int), flags@.take(k as int));
            assert(rest.push(part.last()) + tail =~= rest + sources@.skip(i as int));
        }
    }
    proof {
        assert(survivors(all.take(0), flags@.take(k as int)) + sources@.skip(0) =~= sources@);
        assert(string_texts(out@) + casualties(all.take(0), flags@.take(k as int))
            =~= string_texts(out@));
    }
    out
}

/// The first source without a trigger that is over the threshold.
fn find_over<T>(sources: &Vec<PsiSource<T>>, over: &Vec<bool>) -> (r: Option<usize>)
    requires
        over@.len() == sources@.len(),
    ensures
        match r {
            Some(i) => first_over(sources@, over@) == Some(i as int),
            None => first_over(sources@, over@) is None,
        },
{
    let mut i: usize = 0;
    while i < sources.len()
        invariant
            i <= sources.len(),
            over@.len() == sources@.len(),
            first_over(sources@.take(i as int), over@.take(i as int)) is None,
        decreases sources.len() - i,
    {
        assert(sources@.take(i + 1).drop_last() =~= sources@.take(i as int));
        assert(over@.take(i + 1).drop_last() =~= over@.take(i as int));
        if sources[i].trigger.is_none() && over[i] {
            proof {
                lemma_first_over_stays(sources@, over@, i + 1);
            }
            return Some(i);
        }
        i = i + 1;
    }
    assert(sources@.take(i as int) =~= sources@);
    assert(over@.take(i as int) =~= over@);
    None
}

/// The first source over the threshold stays the first, whatever follows.
proof fn lemma_first_over_stays<T>(sources: Seq<PsiSource<T>>, over: Seq<bool>, n: int)
    requires
        over.len() == sources.len(),
        0 <= n <= sources.len(),
        first_over(sources.take(n), over.take(n)) is Some,
    ensures
        first_over(sources, over) == first_over(sources.take(n), over.take(n)),
    decreases sources.len(),
{
    if n == sources.len() {
        assert(sources.take(n) =~= sources);
        assert(over.take(n) =~= over);
    } else {
        assert(sources.drop_last().take(n) =~= sources.take(n));
        assert(over.drop_last().take(n) =~= over.take(n));
        lemma_first_over_stays(sources.drop_last(), over.drop_last(), n);
    }
}

/// What follows from a poll; sources whose triggers are dead (the cgroup was
/// removed) are dropped along the way.
pub fn wait_for_pressure<T>(sources: &mut Vec<PsiSource<T>>, outcome: &PollOutcome) -> (r: WaitStep)
    requires
        outcome_fits(old(sources)@, *outcome),
    ensures
        step_is(old(sources)@, *outcome, r, final(sources)@),
{
    if sources.len() == 0 {
        return WaitStep::GaveUp;
    }
    match outcome {
        PollOutcome::Failed { interrupted } => {
            if *interrupted {
                WaitStep::Again { dropped: Vec::new() }
            } else {
                WaitStep::GaveUp
            }
        },
        PollOutcome::Ready(flags) => {
            match find_fired(flags) {
                Some(k) => {
                    let armed: Vec<usize> = armed_sources(sources);
                    assert(armed@.map_values(|i: usize| i as int).len() == armed@.len());
                    assert(armed@.map_values(|i: usize| i as int)[k as int] == armed@[k as int]);
                    WaitStep::Fired(armed[k])
                },
                None => {
                    let dropped: Vec<String> = drop_dead(sources, flags);
                    WaitStep::Again { dropped }
                },
            }
        },
        PollOutcome::TimedOut(over) => {
            match find_over(sources, over) {
                Some(i) => WaitStep::Fired(i),
                None => WaitStep::Again { dropped: Vec::new() },
            }
        },
    }
}

// -------------------------------------------------------------- debounce
/// How the confirmation of an event goes on.
#[derive(Clone, Copy, Debug, PartialEq, Eq, Structural)]
pub enum Confirmation {
    /// it is over
    Decided(bool),
    /// read the counter again after one more window
    Measure {
        before: u64,
    },
}

/// The stall that a trigger asks for, in microseconds, as the counter counts
/// it.
pub open spec fn stall_us(cfg: Config) -> u64 {
    cfg.stall.micros as u64
}

/// Whether the stall counter went up by the threshold at least.
pub open spec fn over_threshold(before: u64, after: u64, cfg: Config) -> bool {
    (if after >= before {
        (after - before) as u64
    } else {
        0u64
    }) >= stall_us(cfg)
}

/// The first half of the confirmation. The average is smoothed already, so a
/// source without a trigger is believed. A trigger fires on a single bad
/// window, so the counter is read, and once more after the next window.
pub open spec fn first_half<T>(
    source: PsiSource<T>,
    cfg: Config,
    psi_text: Option<Seq<char>>,
) -> Confirmation {
    if source.trigger is None {
        Confirmation::Decided(true)
    } else {
        match psi_text {
            Some(text) => Confirmation::Measure { before: total_of(cfg.kind@, text) },
            None => Confirmation::Decided(false),
        }
    }
}

/// The second half of the confirmation: whether the window after the one
/// that fired is over the threshold too.
pub open spec fn second_half(before: u64, cfg: Config, psi_text: Option<Seq<char>>) -> bool {
    match psi_text {
        Some(text) => over_threshold(before, total_of(cfg.kind@, text), cfg),
        None => false,
    }
}

/// The first half of the confirmation, given what the pressure file says, as
/// far as it could be read.
pub fn confirm_start<T>(source: &PsiSource<T>, cfg: &Config, psi_text: Option<&str>) -> (r:
    Confirmation)
    ensures
        r == first_half(*source, *cfg, opt_str_text(psi_text)),
{
    if source.trigger.is_none() {
        return Confirmation::Decided(true);
    }
    match psi_text {
        Some(text) => Confirmation::Measure { before: total_us_of(cfg.kind.as_str(), text) },
        None => Confirmation::Decided(false),
    }
}

/// The second half of the confirmation, given what the pressure file says
/// one window later.
pub fn confirm_end(before: u64, cfg: &Config, psi_text: Option<&str>) -> (r: bool)
    ensures
        r == second_half(before, *cfg, opt_str_text(psi_text)),
{
    match psi_text {
        Some(text) => {
            let after: u64 = total_us_of(cfg.kind.as_str(), text);
            after.saturating_sub(before) >= cfg.stall.micros as u64
        },
        None => false,
    }
}

// ------------------------------------------------------------------ laws
/// A first source over the threshold has a place, and no trigger.
proof fn lemma_first_over<T>(sources: Seq<PsiSource<T>>, over: Seq<bool>)
    requires
        over.len() == sources.len(),
    ensures
        first_over(sources, over) matches Some(i) ==> 0 <= i < sources.len()
            && sources[i].trigger is None && over[i],
    decreases sources.len(),
{
    if sources.len() > 0 {
        lemma_first_over(sources.drop_last(), over.drop_last());
    }
}

/// A first trigger that fired has a place, and it fired.
proof fn lemma_first_fired(flags: Seq<PollFlags>)
    ensures
        first_fired(flags) matches Some(k) ==> 0 <= k < flags.len() && fires(flags[k]),
    decreases flags.len(),
{
    if flags.len() > 0 {
        lemma_first_fired(flags.drop_last());
    }
}

/// A source that fired is one of those that are left, and nothing was
/// dropped. After a poll that was ready it has a trigger; after one that
/// timed out it has none and is over the threshold.
pub proof fn law_fired_source_is_there<T>(
    sources: Seq<PsiSource<T>>,
    outcome: PollOutcome,
    n: usize,
    left: Seq<PsiSource<T>>,
)
    requires
        outcome_fits(sources, outcome),
        step_is(sources, outcome, WaitStep::Fired(n), left),
    ensures
        left == sources,
        n < sources.len(),
        outcome is Ready ==> sources[n as int].trigger is Some,
        outcome matches PollOutcome::TimedOut(over) ==> sources[n as int].trigger is None
            && over@[n as int],
{
    match outcome {
        PollOutcome::Ready(flags) => {
            lemma_first_fired(flags@);
            lemma_armed(sources);
        },
        PollOutcome::TimedOut(over) => {
            lemma_first_over(sources, over@);
        },
        PollOutcome::Failed { .. } => {},
    }
}

/// How many of the first `i` sources have a trigger.
pub open spec fn armed_before<T>(sources: Seq<PsiSource<T>>, i: int) -> int {
    armed_of(sources.take(i)).len() as int
}

/// A source is dropped only where its own trigger is dead: one without a
/// trigger stays, and so does one whose trigger is alive.
pub proof fn law_live_sources_stay<T>(
    sources: Seq<PsiSource<T>>,
    flags: Seq<PollFlags>,
    i: int,
)
    requires
        flags.len() == armed_of(sources).len(),
        0 <= i < sources.len(),
        sources[i].trigger is Some ==> !flags[armed_before(sources, i)].error,
    ensures
        survivors(sources, flags).contains(sources[i]),
    decreases sources.len(),
{
    let earlier = sources.drop_last();
    let last = sources.last();
    let rest = if last.trigger is Some {
        flags.drop_last()
    } else {
        flags
    };
    let kept = survivors(earlier, rest);
    let all = survivors(sources, flags);
    if i == sources.len() - 1 {
        assert(sources.take(i) =~= earlier);
        assert(all == kept.push(last));
        assert(all[kept.len() as int] == last);
    } else {
        assert(earlier.take(i) =~= sources.take(i));
        assert(earlier[i] == sources[i]);
        if sources[i].trigger is Some {
            lemma_armed_before(earlier, i);
            assert(rest[armed_before(earlier, i)] == flags[armed_before(sources, i)]);
        }
        law_live_sources_stay(earlier, rest, i);
        let k = choose|k: int| 0 <= k < kept.len() && kept[k] == sources[i];
        assert(all[k] == kept[k]);
    }
}

/// An armed source has an entry of its own.
proof fn lemma_armed_before<T>(sources: Seq<PsiSource<T>>, i: int)
    requires
        0 <= i < sources.len(),
        sources[i].trigger is Some,
    ensures
        0 <= armed_before(sources, i) < armed_of(sources).len(),
    decreases sources.len(),
{
    let earlier = sources.drop_last();
    if i == sources.len() - 1 {
        assert(sources.take(i) =~= earlier);
    } else {
        assert(earlier.take(i) =~= sources.take(i));
        assert(earlier[i] == sources[i]);
        lemma_armed_before(earlier, i);
    }
}

/// Every source is either left or named among those that vanished.
pub proof fn law_sources_are_accounted_for<T>(sources: Seq<PsiSource<T>>, flags: Seq<PollFlags>)
    ensures
        survivors(sources, flags).len() + casualties(sources, flags).len() == sources.len(),
    decreases sources.len(),
{
    if sources.len() > 0 {
        let rest = if sources.last().trigger is Some {
            flags.drop_last()
        } else {
            flags
        };
        law_sources_are_accounted_for(sources.drop_last(), rest);
    }
}

/// The whole confirmation of an event, given what the pressure file said
/// before and after one more window.
pub open spec fn is_confirmed<T>(
    source: PsiSource<T>,
    cfg: Config,
    before: Option<Seq<char>>,
    after: Option<Seq<char>>,
) -> bool {
    match first_half(source, cfg, before) {
        Confirmation::Decided(genuine) => genuine,
        Confirmation::Measure { before: count } => second_half(count, cfg, after),
    }
}

/// One noisy window is not enough: where a trigger fired and the counter
/// stood still in the next window, or went up by less than the threshold,
/// the event is dropped.
pub proof fn law_single_window_is_dropped<T>(
    source: PsiSource<T>,
    cfg: Config,
    before: Seq<char>,
    after: Seq<char>,
)
    requires
        source.trigger is Some,
        total_of(cfg.kind@, after) < total_of(cfg.kind@, before) + stall_us(cfg),
        stall_us(cfg) > 0,
    ensures
        !is_confirmed(source, cfg, Some(before), Some(after)),
{
}

/// Two windows over the threshold, one after the other, are an event.
pub proof fn law_two_windows_are_an_event<T>(
    source: PsiSource<T>,
    cfg: Config,
    before: Seq<char>,
    after: Seq<char>,
)
    requires
        total_of(cfg.kind@, after) >= total_of(cfg.kind@, before) + stall_us(cfg),
    ensures
        is_confirmed(source, cfg, Some(before), Some(after)),
{
}

/// The places of the sources that are left, in order.
pub open spec fn places_left<T>(sources: Seq<PsiSource<T>>, flags: Seq<PollFlags>) -> Seq<int>
    decreases sources.len(),
{
    if sources.len() == 0 {
        Seq::empty()
    } else if sources.last().trigger is None {
        places_left(sources.drop_last(), flags).push(sources.len() - 1)
    } else if flags.last().error {
        places_left(sources.drop_last(), flags.drop_last())
    } else {
        places_left(sources.drop_last(), flags.drop_last()).push(sources.len() - 1)
    }
}

/// The sources that are left keep their order: each is the one that stood in
/// its place, and the places go up.
pub proof fn law_survivors_keep_their_order<T>(sources: Seq<PsiSource<T>>, flags: Seq<PollFlags>)
    ensures
        survivors(sources, flags).len() == places_left(sources, flags).len(),
        forall|k: int|
            0 <= k < places_left(sources, flags).len() ==> 0 <= #[trigger] places_left(
                sources,
                flags,
            )[k] < sources.len() && survivors(sources, flags)[k] == sources[places_left(
                sources,
                flags,
            )[k]],
        forall|j: int, k: int|
            #![trigger places_left(sources, flags)[j], places_left(sources, flags)[k]]
            0 <= j < k < places_left(sources, flags).len() ==> places_left(sources, flags)[j]
                < places_left(sources, flags)[k],
    decreases sources.len(),
{
    if sources.len() > 0 {
        let earlier = sources.drop_last();
        let rest = if sources.last().trigger is Some {
            flags.drop_last()
        } else {
            flags
        };
        law_survivors_keep_their_order(earlier, rest);
        let before = places_left(earlier, rest);
        let places = places_left(sources, flags);
        assert forall|k: int| 0 <= k < places.len() implies 0 <= #[trigger] places[k]
            < sources.len() && survivors(sources, flags)[k] == sources[places[k]] by {
            if k < before.len() {
                assert(places[k] == before[k]);
                assert(survivors(sources, flags)[k] == survivors(earlier, rest)[k]);
                assert(earlier[before[k]] == sources[before[k]]);
            }
        }
        assert forall|j: int, k: int|
            #![trigger places[j], places[k]]
            0 <= j < k < places.len() implies places[j] < places[k] by {
            assert(places[j] == before[j]);
            if k < before.len() {
                assert(places[k] == before[k]);
            }
        }
    }
}

/// The entries of `armed_of` are the armed sources, and each stands behind as
/// many armed sources as its own number says.
proof fn lemma_armed_ranks<T>(sources: Seq<PsiSource<T>>)
    ensures
        armed_of(sources).len() == sources.filter(|s: PsiSource<T>| s.trigger is Some).len(),
        forall|k: int|
            0 <= k < armed_of(sources).len() ==> 0 <= #[trigger] armed_of(sources)[k]
                < sources.len() && sources[armed_of(sources)[k]].trigger is Some && sources.take(
                armed_of(sources)[k],
            ).filter(|s: PsiSource<T>| s.trigger is Some).len() == k,
    decreases sources.len(),
{
    reveal(Seq::filter);
    if sources.len() > 0 {
        let earlier = sources.drop_last();
        lemma_armed_ranks(earlier);
        let all = armed_of(sources);
        assert forall|k: int| 0 <= k < all.len() implies 0 <= #[trigger] all[k] < sources.len()
            && sources[all[k]].trigger is Some && sources.take(all[k]).filter(
            |s: PsiSource<T>| s.trigger is Some,
        ).len() == k by {
            if k < armed_of(earlier).len() {
                assert(all[k] == armed_of(earlier)[k]);
                assert(earlier.take(all[k]) =~= sources.take(all[k]));
                assert(earlier[all[k]] == sources[all[k]]);
            } else {
                assert(sources.take(all[k]) =~= earlier);
            }
        }
    }
}

/// The first entry with priority and without an error is the one that counts,
/// and where there is none, none counts.
proof fn lemma_first_fired_is(flags: Seq<PollFlags>)
    ensures
        match first_fired(flags) {
            Some(k) => 0 <= k < flags.len() && flags[k].priority && !flags[k].error
                && forall|j: int| 0 <= j < k ==> !((#[trigger] flags[j]).priority && !flags[j].error),
            None => forall|j: int|
                0 <= j < flags.len() ==> !((#[trigger] flags[j]).priority && !flags[j].error),
        },
    decreases flags.len(),
{
    if flags.len() > 0 {
        let earlier = flags.drop_last();
        lemma_first_fired_is(earlier);
        assert forall|j: int| 0 <= j < earlier.len() implies #[trigger] flags[j] == earlier[j] by {}
    }
}

/// Every trigger that fires is noticed: where a poll is ready, and an entry
/// has priority and no error, in whatever place and with none like it before,
/// the source that the entry belongs to fired. That is the armed source with
/// as many armed ones before it. Nothing is dropped.
pub proof fn law_fired_trigger_is_noticed<T>(
    sources: Seq<PsiSource<T>>,
    flags: Vec<PollFlags>,
    k: int,
    step: WaitStep,
    left: Seq<PsiSource<T>>,
)
    requires
        flags@.len() == sources.filter(|s: PsiSource<T>| s.trigger is Some).len(),
        0 <= k < flags@.len(),
        flags@[k].priority && !flags@[k].error,
        forall|j: int| 0 <= j < k ==> !((#[trigger] flags@[j]).priority && !flags@[j].error),
        step_is(sources, PollOutcome::Ready(flags), step, left),
    ensures
        left == sources,
        step matches WaitStep::Fired(n) && n < sources.len() && sources[n as int].trigger is Some
            && sources.take(n as int).filter(|s: PsiSource<T>| s.trigger is Some).len() == k,
{
    lemma_armed_ranks(sources);
    lemma_first_fired_is(flags@);
    let f = first_fired(flags@);
    assert(f == Some(k)) by {
        assert(flags@[k].priority && !flags@[k].error);
        if f is None {
        } else if f->0 < k {
            assert(flags@[f->0].priority && !flags@[f->0].error);
        }
    }
    if sources.len() == 0 {
        reveal(Seq::filter);
    }
    assert(armed_of(sources)[k] < sources.len());
}

/// A poll that is ready is looked at again only where no trigger fired, and it
/// never ends the watch.
pub proof fn law_again_means_none_fired<T>(
    sources: Seq<PsiSource<T>>,
    flags: Vec<PollFlags>,
    step: WaitStep,
    left: Seq<PsiSource<T>>,
)
    requires
        sources.len() > 0,
        step_is(sources, PollOutcome::Ready(flags), step, left),
    ensures
        !(step is GaveUp),
        step is Again <==> forall|j: int|
            0 <= j < flags@.len() ==> !((#[trigger] flags@[j]).priority && !flags@[j].error),
{
    lemma_first_fired_is(flags@);
}

/// The places of the sources whose triggers are dead, the last one first.
spec fn dead_places<T>(sources: Seq<PsiSource<T>>, flags: Seq<PollFlags>) -> Seq<int>
    decreases sources.len(),
{
    if sources.len() == 0 {
        Seq::empty()
    } else if sources.last().trigger is None {
        dead_places(sources.drop_last(), flags)
    } else if flags.last().error {
        seq![sources.len() - 1] + dead_places(sources.drop_last(), flags.drop_last())
    } else {
        dead_places(sources.drop_last(), flags.drop_last())
    }
}

/// The places that are left are those of the sources that are not dead, and
/// the dead ones are the others.
proof fn lemma_places<T>(sources: Seq<PsiSource<T>>, flags: Seq<PollFlags>)
    requires
        flags.len() == sources.filter(|s: PsiSource<T>| s.trigger is Some).len(),
    ensures
        forall|i: int| #[trigger]
            places_left(sources, flags).contains(i) <==> 0 <= i < sources.len() && !(
            sources[i].trigger is Some && flags[sources.take(i).filter(
                |s: PsiSource<T>| s.trigger is Some,
            ).len() as int].error),
        forall|i: int| #[trigger]
            dead_places(sources, flags).contains(i) <==> 0 <= i < sources.len()
                && sources[i].trigger is Some && flags[sources.take(i).filter(
                |s: PsiSource<T>| s.trigger is Some,
            ).len() as int].error,
        dead_places(sources, flags).len() == casualties(sources, flags).len(),
        forall|k: int|
            0 <= k < dead_places(sources, flags).len() ==> casualties(sources, flags)[k]
                == sources[#[trigger] dead_places(sources, flags)[k]].label@,
        forall|j: int, k: int|
            #![trigger dead_places(sources, flags)[j], dead_places(sources, flags)[k]]
            0 <= j < k < dead_places(sources, flags).len() ==> dead_places(sources, flags)[j]
                > dead_places(sources, flags)[k],
    decreases sources.len(),
{
    reveal(Seq::filter);
    if sources.len() > 0 {
        let earlier = sources.drop_last();
        let last = sources.len() - 1;
        let armed = |s: PsiSource<T>| s.trigger is Some;
        let rest = if sources.last().trigger is Some {
            flags.drop_last()
        } else {
            flags
        };
        lemma_places(earlier, rest);
        assert(sources.take(last) =~= earlier);
        let before = places_left(earlier, rest);
        let places = places_left(sources, flags);
        let gone_before = dead_places(earlier, rest);
        let gone = dead_places(sources, flags);
        assert forall|i: int| 0 <= i < last && sources[i].trigger is Some implies (#[trigger]
        earlier.take(i)).filter(armed).len() < rest.len() by {
            lemma_rank_within(earlier, i);
        }
        assert forall|i: int| 0 <= i < last implies #[trigger] sources.take(i) == earlier.take(
            i,
        ) by {
            assert(sources.take(i) =~= earlier.take(i));
        }
        assert forall|i: int| #[trigger]
            places.contains(i) <==> 0 <= i < sources.len() && !(sources[i].trigger is Some
                && flags[sources.take(i).filter(armed).len() as int].error) by {
            if before.contains(i) {
                let k = choose|k: int| 0 <= k < before.len() && before[k] == i;
                assert(places[k] == i);
            }
            if places.contains(i) {
                let k = choose|k: int| 0 <= k < places.len() && places[k] == i;
                if k < before.len() {
                    assert(before[k] == i);
                }
            }
            if 0 <= i < last {
                assert(sources.take(i) == earlier.take(i));
                assert(sources[i] == earlier[i]);
            }
            if i == last && places.len() > before.len() {
                assert(places[before.len() as int] == last);
            }
        }
        assert forall|i: int| #[trigger]
            gone.contains(i) <==> 0 <= i < sources.len() && sources[i].trigger is Some
                && flags[sources.take(i).filter(armed).len() as int].error by {
            let shift = gone.len() - gone_before.len();
            if gone_before.contains(i) {
                let k = choose|k: int| 0 <= k < gone_before.len() && gone_before[k] == i;
                assert(gone[k + shift] == i);
            }
            if gone.contains(i) {
                let k = choose|k: int| 0 <= k < gone.len() && gone[k] == i;
                if k >= shift {
                    assert(gone_before[k - shift] == i);
                }
            }
            if 0 <= i < last {
                assert(sources.take(i) == earlier.take(i));
                assert(sources[i] == earlier[i]);
            }
            if i == last && shift == 1 {
                assert(gone[0] == last);
            }
        }
        assert forall|k: int| 0 <= k < gone.len() implies casualties(sources, flags)[k]
            == sources[#[trigger] gone[k]].label@ by {
            let shift = gone.len() - gone_before.len();
            if k >= shift {
                assert(gone[k] == gone_before[k - shift]);
                assert(gone_before.contains(gone_before[k - shift]));
            }
        }
        assert forall|j: int, k: int|
            #![trigger gone[j], gone[k]]
            0 <= j < k < gone.len() implies gone[j] > gone[k] by {
            let shift = gone.len() - gone_before.len();
            assert(gone[k] == gone_before[k - shift]);
            assert(gone_before.contains(gone_before[k - shift]));
            if j >= shift {
                assert(gone[j] == gone_before[j - shift]);
            }
        }
    }
}

/// An armed source has an entry of its own.
proof fn lemma_rank_within<T>(sources: Seq<PsiSource<T>>, i: int)
    requires
        0 <= i < sources.len(),
        sources[i].trigger is Some,
    ensures
        sources.take(i).filter(|s: PsiSource<T>| s.trigger is Some).len() < sources.filter(
            |s: PsiSource<T>| s.trigger is Some,
        ).len(),
    decreases sources.len(),
{
    reveal(Seq::filter);
    let earlier = sources.drop_last();
    if i == sources.len() - 1 {
        assert(sources.take(i) =~= earlier);
    } else {
        assert(earlier.take(i) =~= sources.take(i));
        assert(earlier[i] == sources[i]);
        lemma_rank_within(earlier, i);
    }
}

/// Where a poll is ready and nothing fired, exactly the sources whose own
/// trigger is dead are dropped. The others stay, in their order, and the names
/// of those that are dropped are handed out, the last one first. The entry of
/// a source is the one with the number of armed sources before it.
pub proof fn law_dead_sources_are_dropped<T>(
    sources: Seq<PsiSource<T>>,
    flags: Vec<PollFlags>,
    step: WaitStep,
    left: Seq<PsiSource<T>>,
)
    requires
        sources.len() > 0,
        flags@.len() == sources.filter(|s: PsiSource<T>| s.trigger is Some).len(),
        forall|j: int|
            0 <= j < flags@.len() ==> !((#[trigger] flags@[j]).priority && !flags@[j].error),
        step_is(sources, PollOutcome::Ready(flags), step, left),
    ensures
        exists|places: Seq<int>, gone: Seq<int>|
            {
                &&& #[trigger] places.len() == left.len()
                &&& forall|k: int|
                    0 <= k < places.len() ==> left[k] == sources[#[trigger] places[k]]
                &&& forall|j: int, k: int|
                    #![trigger places[j], places[k]]
                    0 <= j < k < places.len() ==> places[j] < places[k]
                &&& forall|i: int| #[trigger]
                    places.contains(i) <==> 0 <= i < sources.len() && !(sources[i].trigger is Some
                        && flags@[sources.take(i).filter(
                        |s: PsiSource<T>| s.trigger is Some,
                    ).len() as int].error)
                &&& step is Again
                &&& #[trigger] gone.len() == step->dropped@.len()
                &&& forall|k: int|
                    0 <= k < gone.len() ==> step->dropped@[k]@ == sources[#[trigger] gone[k]].label@
                &&& forall|j: int, k: int|
                    #![trigger gone[j], gone[k]]
                    0 <= j < k < gone.len() ==> gone[j] > gone[k]
                &&& forall|i: int| #[trigger]
                    gone.contains(i) <==> 0 <= i < sources.len() && sources[i].trigger is Some
                        && flags@[sources.take(i).filter(
                        |s: PsiSource<T>| s.trigger is Some,
                    ).len() as int].error
            },
{
    lemma_first_fired_is(flags@);
    lemma_places(sources, flags@);
    law_survivors_keep_their_order(sources, flags@);
    let places = places_left(sources, flags@);
    let gone = dead_places(sources, flags@);
    let dropped = step->dropped@;
    assert(string_texts(dropped).len() == dropped.len());
    assert forall|k: int| 0 <= k < gone.len() implies dropped[k]@ == sources[#[trigger] gone[k]].label@ by {
        assert(string_texts(dropped)[k] == dropped[k]@);
        assert(casualties(sources, flags@)[k] == sources[gone[k]].label@);
    }
    assert(places.len() == left.len() && gone.len() == dropped.len());
}

/// Where nothing happened in time, the first source without a trigger whose
/// average is over the threshold fired, in whatever place it stands; where
/// there is none, the poll goes on. No source is dropped.
pub proof fn law_high_average_is_noticed<T>(
    sources: Seq<PsiSource<T>>,
    over: Vec<bool>,
    step: WaitStep,
    left: Seq<PsiSource<T>>,
)
    requires
        sources.len() > 0,
        over@.len() == sources.len(),
        step_is(sources, PollOutcome::TimedOut(over), step, left),
    ensures
        left == sources,
        forall|i: int|
            0 <= i < sources.len() && (#[trigger] sources[i]).trigger is None && over@[i] && (
            forall|j: int| 0 <= j < i ==> !((#[trigger] sources[j]).trigger is None && over@[j]))
                ==> (step matches WaitStep::Fired(n) && n == i),
        (forall|i: int|
            0 <= i < sources.len() ==> !((#[trigger] sources[i]).trigger is None && over@[i]))
            ==> (step matches WaitStep::Again { dropped } && dropped@.len() == 0),
{
    lemma_first_over_is(sources, over@);
    lemma_first_over(sources, over@);
}

/// The first source over the threshold has none before it.
proof fn lemma_first_over_is<T>(sources: Seq<PsiSource<T>>, over: Seq<bool>)
    requires
        over.len() == sources.len(),
    ensures
        match first_over(sources, over) {
            Some(i) => 0 <= i < sources.len() && sources[i].trigger is None && over[i]
                && forall|j: int|
                0 <= j < i ==> !((#[trigger] sources[j]).trigger is None && over[j]),
            None => forall|j: int|
                0 <= j < sources.len() ==> !((#[trigger] sources[j]).trigger is None && over[j]),
        },
    decreases sources.len(),
{
    if sources.len() > 0 {
        let earlier = sources.drop_last();
        lemma_first_over_is(earlier, over.drop_last());
        assert forall|j: int| 0 <= j < earlier.len() implies #[trigger] sources[j] == earlier[j]
            && over[j] == over.drop_last()[j] by {}
    }
}

/// A signal makes the poll go on, any other failure ends the watch, and so
/// does a watch without sources. No source is dropped for that.
pub proof fn law_failed_poll<T>(
    sources: Seq<PsiSource<T>>,
    outcome: PollOutcome,
    step: WaitStep,
    left: Seq<PsiSource<T>>,
)
    requires
        sources.len() == 0 || outcome is Failed,
        step_is(sources, outcome, step, left),
    ensures
        left == sources,
        sources.len() == 0 ==> step is GaveUp,
        sources.len() > 0 && outcome->interrupted ==> (step matches WaitStep::Again { dropped }
            && dropped@.len() == 0),
        sources.len() > 0 && !outcome->interrupted ==> step is GaveUp,
{
}

/// An event of an armed source is confirmed exactly where the counter went up
/// by what the configuration asks for at least, in the window between the two
/// readings. A counter that went down did not go up.
pub proof fn law_confirmed_by_the_stall<T>(
    source: PsiSource<T>,
    cfg: Config,
    before: Seq<char>,
    after: Seq<char>,
)
    requires
        source.trigger is Some,
    ensures
        first_half(source, cfg, Some(before)) == (Confirmation::Measure {
            before: total_of(cfg.kind@, before),
        }),
        second_half(total_of(cfg.kind@, before), cfg, Some(after)) <==> total_of(cfg.kind@, after)
            - total_of(cfg.kind@, before) >= (cfg.stall.micros as u64) || (cfg.stall.micros as u64)
            == 0,
        cfg.stall.micros <= u64::MAX ==> (second_half(
            total_of(cfg.kind@, before),
            cfg,
            Some(after),
        ) <==> total_of(cfg.kind@, after) - total_of(cfg.kind@, before) >= cfg.stall.micros
            || cfg.stall.micros == 0),
        is_confirmed(source, cfg, Some(before), Some(after)) == second_half(
            total_of(cfg.kind@, before),
            cfg,
            Some(after),
        ),
{
}

/// A source without a trigger is believed, and an armed one whose file cannot
/// be read is not.
pub proof fn law_confirmed_without_a_counter<T>(
    source: PsiSource<T>,
    cfg: Config,
    before: Option<Seq<char>>,
    count: u64,
)
    ensures
        source.trigger is None ==> first_half(source, cfg, before) == Confirmation::Decided(true),
        source.trigger is Some ==> first_half(source, cfg, None) == Confirmation::Decided(false),
        !second_half(count, cfg, None),
{
}

/// The kernel's own lines decide: where the counter of the kind that is
/// watched stands at one number before the window and at another one after
/// it, the event of an armed source is confirmed exactly where the difference
/// is at least the stall of the configuration.
pub proof fn law_kernel_counter_decides<T>(
    source: PsiSource<T>,
    cfg: Config,
    averages: Seq<Seq<char>>,
    n: u64,
    m: u64,
    rest: Seq<char>,
)
    requires
        source.trigger is Some,
        cfg.kind@ == "some"@ || cfg.kind@ == "full"@,
        averages.len() == 3,
        forall|i: int| 0 <= i < 3 ==> crate::text::is_word(#[trigger] averages[i]),
        0 < cfg.stall.micros <= u64::MAX,
    ensures
        is_confirmed(
            source,
            cfg,
            Some(pressure_text(cfg.kind@, averages, n, rest)),
            Some(pressure_text(cfg.kind@, averages, m, rest)),
        ) <==> m - n >= cfg.stall.micros,
{
    let none = Seq::<Seq<char>>::empty();
    assert(crate::text::is_word(averages[0]) && crate::text::is_word(averages[1])
        && crate::text::is_word(averages[2]));
    crate::psi::law_pressure_line_is_read(
        cfg.kind@,
        averages[0],
        averages[1],
        averages[2],
        n,
        none,
        rest,
    );
    crate::psi::law_pressure_line_is_read(
        cfg.kind@,
        averages[0],
        averages[1],
        averages[2],
        m,
        none,
        rest,
    );
    lemma_nothing_before(cfg.kind@, averages, n, rest);
    lemma_nothing_before(cfg.kind@, averages, m, rest);
}

/// A pressure file whose first line is of this kind, with these averages and
/// this counter.
pub open spec fn pressure_text(
    kind: Seq<char>,
    averages: Seq<Seq<char>>,
    n: u64,
    rest: Seq<char>,
) -> Seq<char> {
    crate::text::joined(
        seq![
            kind,
            "avg10="@ + averages[0],
            "avg60="@ + averages[1],
            "avg300="@ + averages[2],
            "total="@ + crate::number::decimal(n as nat),
        ],
    ).push('\n') + rest
}

/// Nothing stands before the first line.
proof fn lemma_nothing_before(kind: Seq<char>, averages: Seq<Seq<char>>, n: u64, rest: Seq<char>)
    ensures
        crate::text::with_newlines(Seq::empty()) + pressure_text(kind, averages, n, rest)
            == pressure_text(kind, averages, n, rest),
{
    assert(crate::text::with_newlines(Seq::empty()) + pressure_text(kind, averages, n, rest)
        =~= pressure_text(kind, averages, n, rest));
}

/// How long a poll lasts: where every source has a trigger it has no end, and
/// otherwise it takes the whole milliseconds of the window.
pub proof fn law_poll_lasts_a_window<T>(sources: Seq<PsiSource<T>>, window: u128)
    ensures
        (forall|i: int| 0 <= i < sources.len() ==> (#[trigger] sources[i]).trigger is Some)
            ==> timeout_for(sources, window) == -1,
        (exists|i: int| 0 <= i < sources.len() && (#[trigger] sources[i]).trigger is None) && window
            / 1000 <= i32::MAX ==> timeout_for(sources, window) == window / 1000,
{
    lemma_all_armed(sources);
}

/// Every source is armed where there are as many armed ones as sources.
proof fn lemma_all_armed<T>(sources: Seq<PsiSource<T>>)
    ensures
        armed_of(sources).len() <= sources.len(),
        armed_of(sources).len() == sources.len() <==> forall|i: int|
            0 <= i < sources.len() ==> (#[trigger] sources[i]).trigger is Some,
    decreases sources.len(),
{
    if sources.len() > 0 {
        let earlier = sources.drop_last();
        lemma_all_armed(earlier);
        if forall|i: int| 0 <= i < sources.len() ==> (#[trigger] sources[i]).trigger is Some {
            assert(sources[sources.len() - 1].trigger is Some);
            assert forall|i: int| 0 <= i < earlier.len() implies (#[trigger] earlier[i]).trigger is Some by {
                assert(earlier[i] == sources[i]);
            }
        }
        if armed_of(sources).len() == sources.len() {
            assert forall|i: int| 0 <= i < sources.len() implies (#[trigger] sources[i]).trigger is Some by {
                if i < earlier.len() {
                    assert(earlier[i] == sources[i]);
                }
            }
        }
    }
}

/// Every armed source is polled, and no other: it stands in the list where
/// its own number among the armed ones says.
pub proof fn law_armed_sources_are_polled<T>(sources: Seq<PsiSource<T>>)
    ensures
        armed_of(sources).len() == sources.filter(|s: PsiSource<T>| s.trigger is Some).len(),
        forall|k: int|
            0 <= k < armed_of(sources).len() ==> 0 <= #[trigger] armed_of(sources)[k]
                < sources.len() && sources[armed_of(sources)[k]].trigger is Some && sources.take(
                armed_of(sources)[k],
            ).filter(|s: PsiSource<T>| s.trigger is Some).len() == k,
{
    lemma_armed_ranks(sources);
}

} // verus!
