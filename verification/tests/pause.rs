use psi_ask::pause::{
    first_firefox, is_firefox, is_render_critical, pause_plan, PauseOutcome, PauseTable, MAX_PAUSED,
};
use psi_ask::process::Candidate;

fn resumed(table: &mut PauseTable) -> Vec<i32> {
    let mut out = vec![-1, -2];
    table.resume_all(&mut out);
    out
}

fn cand(pid: i32, comm: &str, cmdline: &str) -> Candidate {
    Candidate {
        pid,
        comm: comm.to_string(),
        cmdline: cmdline.to_string(),
        rss_bytes: 1,
        oom_score: 0,
    }
}

#[test]
fn stopped_processes_go_on() {
    let mut table = PauseTable::new();
    assert_eq!(table.pause_pid(10, true), PauseOutcome::Stopped(0));
    assert_eq!(table.pause_pid(11, false), PauseOutcome::NotStopped);
    assert_eq!(table.pause_pid(12, true), PauseOutcome::Stopped(1));
    assert_eq!(resumed(&mut table), vec![10, 12]);
    assert_eq!(resumed(&mut table), Vec::<i32>::new());
    assert_eq!(table.pause_pid(13, true), PauseOutcome::Stopped(0));
}

#[test]
fn untracked_processes_do_not_stay_stopped() {
    let mut table = PauseTable::new();
    for i in 0..MAX_PAUSED {
        assert_eq!(table.pause_pid(100 + i as i32, true), PauseOutcome::Stopped(i));
    }
    assert_eq!(table.pause_pid(7, true), PauseOutcome::MustGoOn);
    assert_eq!(table.pause_pid(7, false), PauseOutcome::NotStopped);
    let want: Vec<i32> = (100..164).collect();
    assert_eq!(resumed(&mut table), want);
}

#[test]
fn the_dialog_needs_some_processes() {
    for comm in ["Xwayland", "dbus-daemon", "dbus-broker", "systemd"] {
        assert!(is_render_critical(comm));
    }
    for comm in ["", "firefox", "xwayland", "systemd-oomd", "dbus"] {
        assert!(!is_render_critical(comm));
    }
}

#[test]
fn firefox_is_known() {
    assert!(is_firefox(&cand(1, "firefox", "/usr/lib/firefox/firefox")));
    assert!(is_firefox(&cand(1, "Isolated Web Co", "/usr/lib/firefox/firefox -contentproc -childID 3")));
    assert!(!is_firefox(&cand(1, "firefox-bin", "firefox")));
    let cands = vec![cand(5, "a", "a"), cand(6, "Web Content", "x -contentproc"), cand(7, "firefox", "")];
    assert_eq!(first_firefox(&cands), Some(6));
    assert_eq!(first_firefox(&vec![cand(5, "a", "a")]), None);
}

#[test]
fn worst_offenders_are_stopped() {
    let cands = vec![
        cand(10, "java", "java"),
        cand(11, "bash", "bash"),
        cand(12, "Hyprland", "Hyprland"),
        cand(13, "systemd", "systemd --user"),
        cand(14, "Isolated Web Co", "firefox -contentproc"),
        cand(15, "chrome", "chrome"),
    ];
    let ancestors = vec![99, 11];
    assert_eq!(
        pause_plan(&cands, true, true, &ancestors, Some(12)),
        vec![true, false, false, false, false, false]
    );
    // without a report, Firefox is stopped like any other
    assert_eq!(
        pause_plan(&cands, true, false, &ancestors, Some(12)),
        vec![true, false, false, false, true, false]
    );
    assert_eq!(
        pause_plan(&cands, true, true, &vec![], None),
        vec![true, true, true, false, false, false]
    );
    assert_eq!(pause_plan(&cands, false, true, &vec![], None), vec![false; 6]);
}

#[test]
fn each_goes_on_once_in_order() {
    let mut table = PauseTable::new();
    let asked: Vec<(i32, bool)> = (1..100).map(|pid| (pid, pid % 3 != 0)).collect();
    for (pid, delivered) in &asked {
        table.pause_pid(*pid, *delivered);
    }
    let want: Vec<i32> =
        asked.iter().filter(|a| a.1).map(|a| a.0).take(MAX_PAUSED).collect();
    assert_eq!(resumed(&mut table), want);
    assert!(resumed(&mut table).is_empty());
}
