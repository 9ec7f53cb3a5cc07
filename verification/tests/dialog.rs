use psi_ask::config::Span;
use psi_ask::dialog::{
    details, dialog_candidates, headline, name_markup, pressure_event, Answer, Choice, Dialog,
    DialogCandidate, PressureEvent, Relabelling, Tick, LATE_PAUSES,
};
use psi_ask::process::Candidate;
use psi_ask::psi::PsiSource;

fn row(pid: i32, paused: bool) -> DialogCandidate {
    DialogCandidate {
        pid,
        comm: format!("p{}", pid),
        cmdline: format!("cmd {}", pid),
        rss_bytes: 1536,
        oom_score: 3,
        paused,
    }
}

fn event(cands: Vec<DialogCandidate>) -> PressureEvent {
    PressureEvent {
        source: "system".to_string(),
        pressure_path: "/proc/pressure/memory".to_string(),
        psi_line: "some avg10=1.00".to_string(),
        cands,
    }
}

fn seconds(n: u128) -> Span {
    Span { micros: n * 1_000_000 }
}

fn choice(pid: i32) -> Choice {
    Choice { pid, comm: format!("p{}", pid) }
}

fn text_of(tick: Tick) -> Option<String> {
    match tick {
        Tick::GoOn { text } => Some(text),
        Tick::Dismiss => None,
    }
}

#[test]
fn names_are_in_bold() {
    assert_eq!(name_markup("a", false), "<b>a</b>");
    assert_eq!(
        name_markup("a", true),
        "<b>a</b> <span alpha=\"55%\" style=\"italic\">(paused)</span>"
    );
}

#[test]
fn headline_names_the_cgroup() {
    assert_eq!(headline("system", "some avg10=1"), "some avg10=1");
    assert_eq!(headline("app.slice", "some avg10=1"), "cgroup app.slice: some avg10=1");
}

#[test]
fn details_of_a_row() {
    assert_eq!(details(12, -3, "a b"), "pid 12 · oom score -3 · a b");
}

#[test]
fn candidates_say_whether_they_are_stopped() {
    let cand = |pid: i32| Candidate {
        pid,
        comm: "c".to_string(),
        cmdline: "l".to_string(),
        rss_bytes: 5,
        oom_score: 6,
    };
    let rows = dialog_candidates(
        vec![cand(1), cand(2), cand(3)],
        &vec![true, true, false],
        &vec![true, false, true],
    );
    let got: Vec<(i32, bool)> = rows.iter().map(|r| (r.pid, r.paused)).collect();
    assert_eq!(got, vec![(1, true), (2, false), (3, false)]);
    assert_eq!((rows[0].comm.as_str(), rows[0].cmdline.as_str()), ("c", "l"));
    assert_eq!((rows[0].rss_bytes, rows[0].oom_score), (5, 6));
}

#[test]
fn events_come_from_the_source_that_fired() {
    let source: PsiSource<u8> = PsiSource {
        label: "x".to_string(),
        pressure_path: "/sys/fs/cgroup/x/memory.pressure".to_string(),
        cgroup_dir: Some("/sys/fs/cgroup/x".to_string()),
        trigger: None,
    };
    let ev = pressure_event(&source, "full", Some("some a\nfull b\n"), vec![row(4, false)]);
    assert_eq!(ev.source, "x");
    assert_eq!(ev.pressure_path, "/sys/fs/cgroup/x/memory.pressure");
    assert_eq!(ev.psi_line, "full b");
    assert_eq!(ev.cands.len(), 1);
    assert_eq!(pressure_event(&source, "full", None, vec![]).psi_line, "");
}

#[test]
fn question_is_put_on_display() {
    let mut dialog = Dialog::new(seconds(60));
    assert!(!dialog.is_active());
    assert!(!dialog.is_ticking());
    let texts = dialog.show_event(&event(vec![row(1, true), row(2, false)]));
    assert!(dialog.is_active());
    assert!(dialog.is_ticking());
    assert_eq!(texts.headline, "some avg10=1.00");
    assert_eq!(dialog.pressure_path(), "/proc/pressure/memory");
    assert_eq!(texts.rows.len(), 2);
    assert_eq!(texts.rows[1].details, "pid 2 · oom score 3 · cmd 2");
    assert_eq!(texts.rows[1].size, "1.5K");
    assert_eq!(texts.countdown, "Doing nothing in 60s");
}

#[test]
fn calm_seconds_dismiss_the_question() {
    let mut dialog = Dialog::new(seconds(3));
    dialog.show_event(&event(vec![row(1, true)]));
    assert_eq!(text_of(dialog.tick(false, "0")), Some("Doing nothing in 2s".to_string()));
    assert_eq!(text_of(dialog.tick(false, "0")), Some("Doing nothing in 1s".to_string()));
    assert!(dialog.is_ticking());
    assert_eq!(text_of(dialog.tick(false, "0")), None);
    assert!(!dialog.is_ticking());
    assert!(dialog.is_active());
    assert!(matches!(dialog.finish(None, false), Answer::Closed));
    assert!(!dialog.is_active());
}

#[test]
fn high_pressure_keeps_the_question() {
    let mut dialog = Dialog::new(seconds(2));
    dialog.show_event(&event(vec![row(1, true)]));
    assert_eq!(text_of(dialog.tick(false, "0")), Some("Doing nothing in 1s".to_string()));
    for _ in 0..5 {
        assert_eq!(
            text_of(dialog.tick(true, "37")),
            Some("Pressure still high (37%) — waiting".to_string())
        );
    }
    // the countdown starts over
    assert_eq!(text_of(dialog.tick(false, "0")), Some("Doing nothing in 1s".to_string()));
    assert_eq!(text_of(dialog.tick(false, "0")), None);
}

#[test]
fn without_a_timeout_the_question_waits() {
    let mut dialog = Dialog::new(Span { micros: 999_999 });
    let texts = dialog.show_event(&event(vec![row(1, true)]));
    assert_eq!(texts.countdown, "");
    assert!(dialog.is_active());
    assert!(!dialog.is_ticking());
}

#[test]
fn questions_are_answered_once() {
    let mut dialog = Dialog::new(seconds(2));
    assert!(matches!(dialog.finish(None, false), Answer::Ignored));
    dialog.show_event(&event(vec![row(1, true)]));
    assert!(matches!(dialog.finish(Some(&choice(1)), true), Answer::Closed));
    assert!(!dialog.is_ticking());
    assert!(matches!(dialog.finish(Some(&choice(1)), true), Answer::Ignored));
    assert!(matches!(dialog.finish(None, true), Answer::Ignored));
}

#[test]
fn undelivered_signals_keep_the_question_open() {
    let mut dialog = Dialog::new(seconds(2));
    dialog.show_event(&event(vec![row(1, true)]));
    match dialog.finish(Some(&choice(1)), false) {
        Answer::StaysOpen { text } => {
            assert_eq!(text, "Could not signal 1 (p1) — run ./install-caps.sh once")
        }
        _ => panic!("the question must stay open"),
    }
    assert!(dialog.is_active());
    assert!(!dialog.is_ticking());
    assert!(matches!(dialog.finish(None, false), Answer::Closed));
}

#[test]
fn late_names_stop_their_processes() {
    let mut dialog = Dialog::new(seconds(2));
    assert!(Relabelling::begin(&dialog).is_none());
    let mut rows: Vec<DialogCandidate> = (10..18).map(|pid| row(pid, false)).collect();
    rows.push(row(18, true));
    dialog.show_event(&event(rows));
    let mut pass = Relabelling::begin(&dialog).unwrap();
    assert!(!pass.wants_stop(&dialog, 99, true));
    assert!(!pass.wants_stop(&dialog, 18, true));
    assert!(!pass.wants_stop(&dialog, 10, false));
    assert!(pass.wants_stop(&dialog, 10, true));
    assert_eq!(pass.relabel(&mut dialog, 99, false), None);
    assert_eq!(pass.relabel(&mut dialog, 18, false), Some(true));
    // one that could not be stopped goes on
    assert_eq!(pass.relabel(&mut dialog, 17, false), Some(false));
    assert!(pass.wants_stop(&dialog, 17, true));
    for pid in 10..10 + LATE_PAUSES as i32 {
        assert!(pass.wants_stop(&dialog, pid, true));
        assert_eq!(pass.relabel(&mut dialog, pid, true), Some(true));
        assert!(!pass.wants_stop(&dialog, pid, true));
    }
    assert!(!pass.wants_stop(&dialog, 16, true));
    assert_eq!(pass.relabel(&mut dialog, 16, false), Some(false));
}

#[test]
fn the_countdown_depends_on_the_file_of_the_event() {
    let mut dialog = Dialog::new(seconds(2));
    assert_eq!(dialog.pressure_path(), "/proc/pressure/memory");
    let mut ev = event(vec![row(1, true)]);
    ev.pressure_path = "/sys/fs/cgroup/x/memory.pressure".to_string();
    dialog.show_event(&ev);
    assert_eq!(dialog.pressure_path(), "/sys/fs/cgroup/x/memory.pressure");
    dialog.tick(true, "50");
    dialog.tick(false, "0");
    dialog.finish(Some(&choice(1)), false);
    assert_eq!(dialog.pressure_path(), "/sys/fs/cgroup/x/memory.pressure");
    dialog.show_event(&event(vec![row(2, true)]));
    assert_eq!(dialog.pressure_path(), "/proc/pressure/memory");
}

#[test]
fn only_calm_seconds_in_a_row_count() {
    // every course of eight seconds, for three timeouts
    for timeout in 1..4 {
        for course in 0..256u32 {
            let mut dialog = Dialog::new(seconds(timeout));
            dialog.show_event(&event(vec![row(1, true)]));
            let mut calm = 0;
            for second in 0..8 {
                let high = course & (1 << second) != 0;
                calm = if high { 0 } else { calm + 1 };
                let dismissed = matches!(dialog.tick(high, "1"), Tick::Dismiss);
                assert_eq!(dismissed, calm == timeout);
                if dismissed {
                    break;
                }
            }
        }
    }
}

#[test]
fn signals_need_an_open_question() {
    let mut dialog = Dialog::new(seconds(2));
    assert!(!dialog.wants_signal(Some(&choice(1))));
    dialog.show_event(&event(vec![row(1, true)]));
    assert!(dialog.wants_signal(Some(&choice(1))));
    assert!(!dialog.wants_signal(None));
    dialog.finish(Some(&choice(1)), false);
    assert!(dialog.wants_signal(Some(&choice(1))));
    dialog.finish(Some(&choice(1)), true);
    assert!(!dialog.wants_signal(Some(&choice(1))));
}
