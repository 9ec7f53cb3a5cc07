//! What the program was asked to do.

use vstd::prelude::*;

use crate::number::{
    decimal, is_digit, law_unsigned_round_trip, lemma_decimal, parse_u64, parsed_u64, push_decimal,
    ParseIntError,
};
use crate::text::{
    chars_of, is_space, is_word, joined, law_joined_words_are_found, words_of,
};

verus! {

/// A length of time, in microseconds.
#[derive(Clone, Copy, Debug, PartialEq, Eq, Structural)]
pub struct Span {
    pub micros: u128,
}

impl Span {
    /// The whole milliseconds.
    pub fn as_millis(self) -> (r: u128)
        ensures
            r == self.micros / 1000,
    {
        self.micros / 1000
    }

    /// The whole seconds.
    pub fn as_secs(self) -> (r: u128)
        ensures
            r == self.micros / 1_000_000,
    {
        self.micros / 1_000_000
    }
}

/// The span that a number of milliseconds is.
pub open spec fn millis_in(s: Seq<char>) -> Result<Span, ParseIntError> {
    match parsed_u64(s) {
        Ok(n) => Ok(Span { micros: (n * 1000) as u128 }),
        Err(e) => Err(e),
    }
}

/// The span that a number of seconds is.
pub open spec fn secs_in(s: Seq<char>) -> Result<Span, ParseIntError> {
    match parsed_u64(s) {
        Ok(n) => Ok(Span { micros: (n * 1_000_000) as u128 }),
        Err(e) => Err(e),
    }
}

/// Reads a number of milliseconds.
pub fn millis(s: &str) -> (r: Result<Span, ParseIntError>)
    ensures
        r == millis_in(s@),
{
    let s: Vec<char> = chars_of(s);
    match parse_u64(s.as_slice()) {
        Ok(n) => Ok(Span { micros: n as u128 * 1000 }),
        Err(e) => Err(e),
    }
}

/// Reads a number of seconds.
pub fn secs(s: &str) -> (r: Result<Span, ParseIntError>)
    ensures
        r == secs_in(s@),
{
    let s: Vec<char> = chars_of(s);
    match parse_u64(s.as_slice()) {
        Ok(n) => Ok(Span { micros: n as u128 * 1_000_000 }),
        Err(e) => Err(e),
    }
}

/// What the program was asked to do.
pub struct Config {
    /// PSI line to trigger on: `some` (any task stalled) or `full` (all)
    pub kind: String,
    /// stall threshold within the window
    pub stall: Span,
    /// trigger window; unprivileged needs a multiple of two seconds
    pub window: Span,
    /// quiet period after each prompt
    pub cooldown: Span,
    /// how many candidate processes to list
    pub top: usize,
    /// dialog timeout (zero waits forever)
    pub answer_timeout: Span,
    /// whether to stop the top offenders while the question is open
    pub pause: bool,
    /// whether to show the layer-shell overlay
    pub overlay: bool,
    /// cgroups to watch too
    pub cgroups: Vec<String>,
    /// minutes of history shown in the dialog's chart
    pub chart_mins: u64,
}

/// The trigger that the kernel is asked for: the kind of line, the stall and
/// the window in microseconds, and the NUL that the kernel wants.
pub open spec fn trigger_of(cfg: Config) -> Seq<char> {
    cfg.kind@ + " "@ + decimal(cfg.stall.micros as nat) + " "@ + decimal(cfg.window.micros as nat)
        + "\0"@
}

/// The trigger that the kernel is asked for.
pub fn trigger_text(cfg: &Config) -> (r: String)
    ensures
        r@ == trigger_of(*cfg),
{
    let mut out: String = String::new();
    out.append(cfg.kind.as_str());
    out.append(" ");
    push_decimal(&mut out, cfg.stall.micros);
    out.append(" ");
    push_decimal(&mut out, cfg.window.micros);
    out.append("\0");
    assert(out@ =~= trigger_of(*cfg));
    out
}

/// Seconds between two samples of the history.
pub const SAMPLE_SECS: u64 = 2;

/// How many samples the history holds: one every two seconds of the chart,
/// and at least two.
pub open spec fn samples_for(chart_mins: u64) -> usize {
    let n = (chart_mins * 60 / SAMPLE_SECS as int) as usize;
    if n < 2 {
        2
    } else {
        n
    }
}

/// How many samples the history holds.
pub fn history_len(cfg: &Config) -> (r: usize)
    requires
        cfg.chart_mins * 60 <= u64::MAX,
    ensures
        r == samples_for(cfg.chart_mins),
        r >= 2,
{
    let n: usize = (cfg.chart_mins * 60 / SAMPLE_SECS) as usize;
    if n < 2 {
        2
    } else {
        n
    }
}

// ------------------------------------------------------------------ laws
/// Every number of milliseconds and of seconds is a span of so many thousand
/// and so many million microseconds, and what is no number is refused for the
/// same reason.
pub proof fn law_spans_are_read(n: u64, s: Seq<char>)
    ensures
        millis_in(decimal(n as nat)) == Ok::<Span, ParseIntError>(
            Span { micros: (n * 1000) as u128 },
        ),
        secs_in(decimal(n as nat)) == Ok::<Span, ParseIntError>(
            Span { micros: (n * 1_000_000) as u128 },
        ),
        parsed_u64(s) matches Err(e) ==> millis_in(s) == Err::<Span, ParseIntError>(e) && secs_in(s)
            == Err::<Span, ParseIntError>(e),
        parsed_u64(s) matches Ok(m) ==> millis_in(s) == Ok::<Span, ParseIntError>(
            Span { micros: (m * 1000) as u128 },
        ) && secs_in(s) == Ok::<Span, ParseIntError>(Span { micros: (m * 1_000_000) as u128 }),
{
    law_unsigned_round_trip(n);
}

/// A number that is written down is a word.
proof fn lemma_decimal_is_word(n: nat)
    ensures
        is_word(decimal(n)),
{
    lemma_decimal(n);
    let s = decimal(n);
    assert forall|i: int| 0 <= i < s.len() implies !is_space(#[trigger] s[i]) by {
        assert(is_digit(s[i]));
    }
}

/// The trigger is what the kernel reads: three words, which are the kind, the
/// stall and the window in microseconds, and one NUL character at the end.
pub proof fn law_trigger_is_three_words(cfg: Config)
    requires
        is_word(cfg.kind@),
    ensures
        trigger_of(cfg).last() == '\0',
        words_of(trigger_of(cfg).drop_last()) == seq![
            cfg.kind@,
            decimal(cfg.stall.micros as nat),
            decimal(cfg.window.micros as nat),
        ],
{
    reveal_strlit(" ");
    reveal_strlit("\0");
    let stall = decimal(cfg.stall.micros as nat);
    let window = decimal(cfg.window.micros as nat);
    let words = seq![cfg.kind@, stall, window];
    lemma_decimal_is_word(cfg.stall.micros as nat);
    lemma_decimal_is_word(cfg.window.micros as nat);
    assert forall|i: int| 0 <= i < words.len() implies is_word(#[trigger] words[i]) by {}
    law_joined_words_are_found(words);
    reveal_with_fuel(joined, 4);
    assert(words.drop_first() =~= seq![stall, window]);
    assert(seq![stall, window].drop_first() =~= seq![window]);
    assert(trigger_of(cfg).drop_last() =~= joined(words));
}

/// The history covers the chart: thirty samples for each minute, one every two
/// seconds, as far as so many can be counted.
pub proof fn law_history_covers_the_chart(chart_mins: u64)
    ensures
        chart_mins >= 1 && chart_mins * 30 <= usize::MAX ==> samples_for(chart_mins) == chart_mins
            * 30,
        samples_for(0) == 2,
        samples_for(chart_mins) >= 2,
{
}

} // verus!
