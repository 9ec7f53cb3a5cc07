use std::collections::HashSet;

use psi_ask::process::{
    candidate, cgroup_pids, clean_cmdline, collect_candidates, is_eligible, parent_pid,
    pid_of_name, resident_pages, rss_fits, Candidate, RawProcess,
};

fn raw(pid: i32, cmdline: &[u8], pages: &str) -> RawProcess {
    RawProcess {
        pid,
        cmdline: Some(cmdline.to_vec()),
        statm: Some(format!("9999 {} 12 3 0 4 0\n", pages)),
        oom_score: Some("667\n".to_string()),
        comm: Some(format!("p{}\n", pid)),
    }
}

fn pids(cands: &[Candidate]) -> Vec<i32> {
    cands.iter().map(|c| c.pid).collect()
}

#[test]
fn names_of_processes_are_numbers() {
    assert_eq!(pid_of_name("1234"), Some(1234));
    assert_eq!(pid_of_name("self"), None);
    assert_eq!(pid_of_name(""), None);
    assert_eq!(pid_of_name("99999999999"), None);
}

#[test]
fn parent_is_in_the_status_file() {
    let status = "Name:\tfirefox\nUmask:\t0022\nState:\tS (sleeping)\nTgid:\t42\nPid:\t42\nPPid:\t17\nTracerPid:\t0\n";
    assert_eq!(parent_pid(status), Some(17));
    assert_eq!(parent_pid("PPid:\t0\n"), Some(0));
    assert_eq!(parent_pid("PPid:\n"), None);
    assert_eq!(parent_pid("PPid:\tx\nPPid:\t3\n"), None);
    assert_eq!(parent_pid("Name:\tPPid:\n"), None);
    assert_eq!(parent_pid(""), None);
}

#[test]
fn resident_pages_are_the_second_number() {
    assert_eq!(resident_pages("1000 250 30 4 0 50 0\n"), Some(250));
    assert_eq!(resident_pages("1000"), None);
    assert_eq!(resident_pages("1000 -1"), None);
    assert_eq!(resident_pages(""), None);
}

#[test]
fn command_lines_are_shown_in_one_line() {
    assert_eq!(clean_cmdline("firefox\0-contentproc\0-childID\0"), "firefox -contentproc -childID");
    assert_eq!(clean_cmdline("a\0\0b\0\0\0"), "a  b");
    assert_eq!(clean_cmdline("\0\0"), "");
    assert_eq!(clean_cmdline("\0a\0"), "a");
    assert_eq!(clean_cmdline("  nginx: worker process   "), "nginx: worker process");
    assert_eq!(clean_cmdline(""), "");
    assert!(!clean_cmdline("x\0y\0 \0").contains('\0'));
}

#[test]
fn candidate_is_made_of_its_files() {
    let c = candidate(&raw(7, b"prog\0arg\0", "10"), 4096).unwrap();
    assert_eq!(c.pid, 7);
    assert_eq!(c.comm, "p7");
    assert_eq!(c.cmdline, "prog arg");
    assert_eq!(c.rss_bytes, 40960);
    assert_eq!(c.oom_score, 667);
}

#[test]
fn command_lines_need_not_be_utf8() {
    let c = candidate(&raw(7, b"view\0caf\xe9.txt\0", "1"), 4096).unwrap();
    assert_eq!(c.cmdline, "view caf\u{fffd}.txt");
    let c = candidate(&raw(7, "view\0café.txt\0".as_bytes(), "1"), 4096).unwrap();
    assert_eq!(c.cmdline, "view café.txt");
}

#[test]
fn kernel_threads_and_vanished_processes_are_no_candidates() {
    assert!(candidate(&raw(7, b"", "10"), 4096).is_none());
    let mut gone = raw(7, b"x", "10");
    gone.cmdline = None;
    assert!(candidate(&gone, 4096).is_none());
    let mut gone = raw(7, b"x", "10");
    gone.statm = None;
    assert!(candidate(&gone, 4096).is_none());
    assert!(candidate(&raw(7, b"x", "y"), 4096).is_none());
}

#[test]
fn missing_details_have_defaults() {
    let mut r = raw(7, b"x", "10");
    r.oom_score = None;
    r.comm = None;
    let c = candidate(&r, 4096).unwrap();
    assert_eq!((c.oom_score, c.comm.as_str()), (0, "?"));
    let mut r = raw(7, b"x", "10");
    r.oom_score = Some("nonsense".to_string());
    r.comm = Some(" \n".to_string());
    let c = candidate(&r, 4096).unwrap();
    assert_eq!((c.oom_score, c.comm.as_str()), (0, ""));
    // a command line of NUL characters is there, though nothing is left of it
    let c = candidate(&raw(7, b"\0\0", "10"), 4096).unwrap();
    assert_eq!(c.cmdline, "");
}

#[test]
fn sizes_must_fit() {
    assert!(rss_fits(&raw(7, b"x", "4503599627370495"), 4096));
    assert!(!rss_fits(&raw(7, b"x", "4503599627370496"), 4096));
    assert!(rss_fits(&raw(7, b"", "4503599627370496"), 4096));
    assert!(rss_fits(&raw(7, b"x", "none"), 4096));
}

#[test]
fn who_may_be_listed() {
    assert!(is_eligible(5, 42, None));
    assert!(!is_eligible(42, 42, None));
    assert!(!is_eligible(1, 42, None));
    let set: HashSet<i32> = [1, 5, 42].into_iter().collect();
    assert!(is_eligible(5, 42, Some(&set)));
    assert!(!is_eligible(6, 42, Some(&set)));
    assert!(!is_eligible(42, 42, Some(&set)));
    assert!(!is_eligible(1, 42, Some(&set)));
}

#[test]
fn biggest_come_first() {
    let raws = vec![
        raw(10, b"a", "5"),
        raw(11, b"b", "7"),
        raw(1, b"init", "100"),
        raw(12, b"", "100"),
        raw(13, b"d", "5"),
        raw(42, b"self", "100"),
        raw(14, b"e", "9"),
        raw(15, b"f", "7"),
    ];
    let all = collect_candidates(&raws, 10, 4096, 42, None);
    // those of the same size stay in their order
    assert_eq!(pids(&all), vec![14, 11, 15, 10, 13]);
    assert_eq!(all[0].rss_bytes, 9 * 4096);
    let some = collect_candidates(&raws, 3, 4096, 42, None);
    assert_eq!(pids(&some), vec![14, 11, 15]);
    assert!(collect_candidates(&raws, 0, 4096, 42, None).is_empty());
    let set: HashSet<i32> = [1, 10, 12, 15, 42].into_iter().collect();
    assert_eq!(pids(&collect_candidates(&raws, 10, 4096, 42, Some(&set))), vec![15, 10]);
}

#[test]
fn ranking_is_that_of_a_stable_sort() {
    let mut seed: u64 = 7;
    let mut raws = vec![];
    for pid in 100..200 {
        seed = seed.wrapping_mul(6364136223846793005).wrapping_add(1442695040888963407);
        raws.push(raw(pid, b"x", &format!("{}", (seed >> 33) % 10)));
    }
    let mut want: Vec<(u64, i32)> = raws
        .iter()
        .map(|r| (resident_pages(r.statm.as_deref().unwrap()).unwrap(), r.pid))
        .collect();
    want.sort_by(|a, b| b.0.cmp(&a.0));
    let want: Vec<i32> = want.into_iter().map(|(_, pid)| pid).collect();
    assert_eq!(pids(&collect_candidates(&raws, 100, 1, 42, None)), want);
}

#[test]
fn processes_of_a_cgroup() {
    let mut set: HashSet<i32> = HashSet::new();
    set.insert(3);
    cgroup_pids("10\n 11 \nx\n\n10\n12", &mut set);
    let mut got: Vec<i32> = set.into_iter().collect();
    got.sort();
    assert_eq!(got, vec![3, 10, 11, 12]);
}
