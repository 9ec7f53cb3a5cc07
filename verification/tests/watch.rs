use psi_ask::config::{Config, Span};
use psi_ask::psi::PsiSource;
use psi_ask::watch::{
    armed_sources, confirm_end, confirm_start, poll_timeout, wait_for_pressure, Confirmation,
    PollFlags, PollOutcome, WaitStep,
};

fn config() -> Config {
    Config {
        kind: "some".to_string(),
        stall: Span { micros: 500_000 },
        window: Span { micros: 2_000_000 },
        cooldown: Span { micros: 30_000_000 },
        top: 10,
        answer_timeout: Span { micros: 60_000_000 },
        pause: true,
        overlay: true,
        cgroups: vec![],
        chart_mins: 3,
    }
}

fn source(label: &str, trigger: Option<u32>) -> PsiSource<u32> {
    PsiSource {
        label: label.to_string(),
        pressure_path: format!("/{}", label),
        cgroup_dir: None,
        trigger,
    }
}

fn labels(sources: &Vec<PsiSource<u32>>) -> Vec<&str> {
    sources.iter().map(|s| s.label.as_str()).collect()
}

fn flags(error: bool, priority: bool) -> PollFlags {
    PollFlags { error, priority }
}

#[test]
fn timeout_depends_on_polled_sources() {
    let armed = vec![source("a", Some(1)), source("b", Some(2))];
    assert_eq!(poll_timeout(&armed, &config()), -1);
    let mixed = vec![source("a", None), source("b", Some(2))];
    assert_eq!(poll_timeout(&mixed, &config()), 2000);
    assert_eq!(armed_sources(&mixed), vec![1]);
    let mut long = config();
    long.window = Span { micros: 3_000_000_000_000 };
    assert_eq!(poll_timeout(&mixed, &long), 3_000_000_000u32 as i32);
}

#[test]
fn first_trigger_that_fired_counts() {
    let mut sources = vec![source("p", None), source("a", Some(1)), source("b", Some(2)), source("c", Some(3))];
    let step = wait_for_pressure(
        &mut sources,
        &PollOutcome::Ready(vec![flags(true, true), flags(false, true), flags(false, true)]),
    );
    assert!(matches!(step, WaitStep::Fired(2)));
    // nothing is dropped when one fired
    assert_eq!(labels(&sources), vec!["p", "a", "b", "c"]);
}

#[test]
fn dead_sources_are_dropped() {
    let mut sources = vec![source("a", Some(1)), source("p", None), source("b", Some(2)), source("c", Some(3))];
    let step = wait_for_pressure(
        &mut sources,
        &PollOutcome::Ready(vec![flags(true, false), flags(false, false), flags(true, true)]),
    );
    match step {
        WaitStep::Again { dropped } => assert_eq!(dropped, vec!["c", "a"]),
        _ => panic!("expected another poll"),
    }
    assert_eq!(labels(&sources), vec!["p", "b"]);
}

#[test]
fn averages_are_looked_at_after_the_timeout() {
    let mut sources = vec![source("a", Some(1)), source("p", None), source("q", None)];
    let step = wait_for_pressure(&mut sources, &PollOutcome::TimedOut(vec![true, false, true]));
    assert!(matches!(step, WaitStep::Fired(2)));
    let step = wait_for_pressure(&mut sources, &PollOutcome::TimedOut(vec![true, false, false]));
    assert!(matches!(step, WaitStep::Again { dropped } if dropped.is_empty()));
    assert_eq!(labels(&sources), vec!["a", "p", "q"]);
}

#[test]
fn signals_are_no_errors() {
    let mut sources = vec![source("a", Some(1))];
    let step = wait_for_pressure(&mut sources, &PollOutcome::Failed { interrupted: true });
    assert!(matches!(step, WaitStep::Again { dropped } if dropped.is_empty()));
    let step = wait_for_pressure(&mut sources, &PollOutcome::Failed { interrupted: false });
    assert!(matches!(step, WaitStep::GaveUp));
    assert_eq!(labels(&sources), vec!["a"]);
    let mut none: Vec<PsiSource<u32>> = vec![];
    let step = wait_for_pressure(&mut none, &PollOutcome::Failed { interrupted: true });
    assert!(matches!(step, WaitStep::GaveUp));
}

#[test]
fn one_noisy_window_is_not_an_event() {
    let armed = source("a", Some(1));
    let cfg = config();
    let before = match confirm_start(&armed, &cfg, Some("some total=1000000\n")) {
        Confirmation::Measure { before } => before,
        Confirmation::Decided(_) => panic!("the counter must be read twice"),
    };
    assert_eq!(before, 1_000_000);
    assert!(!confirm_end(before, &cfg, Some("some total=1499999\n")));
    assert!(confirm_end(before, &cfg, Some("some total=1500000\n")));
    assert!(!confirm_end(before, &cfg, Some("some total=0\n")));
    assert!(!confirm_end(before, &cfg, None));
    assert_eq!(confirm_start(&armed, &cfg, None), Confirmation::Decided(false));
    let polled = source("p", None);
    assert_eq!(confirm_start(&polled, &cfg, None), Confirmation::Decided(true));
}
