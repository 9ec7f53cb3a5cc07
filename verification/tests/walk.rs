use psi_ask::walk::{AncestorWalk, CgroupWalk, FirefoxSearch, SearchStep, MAX_STEPS};

fn status(parent: i32) -> String {
    format!("Name:\tx\nPPid:\t{}\n", parent)
}

#[test]
fn ancestors_end_at_the_first_process() {
    let mut walk = AncestorWalk::new(50);
    assert_eq!(walk.next(), Some(50));
    walk.step(Some(&status(40)));
    assert_eq!(walk.next(), Some(40));
    walk.step(Some(&status(1)));
    assert_eq!(walk.next(), None);
    assert_eq!(walk.into_pids(), vec![50, 40]);
}

#[test]
fn ancestors_end_where_nothing_can_be_read() {
    let mut walk = AncestorWalk::new(50);
    walk.step(None);
    assert_eq!(walk.next(), None);
    assert_eq!(walk.into_pids(), vec![50]);
    assert_eq!(AncestorWalk::new(1).next(), None);
    assert_eq!(AncestorWalk::new(1).into_pids(), Vec::<i32>::new());
}

#[test]
fn ancestors_are_no_more_than_so_many() {
    let mut walk = AncestorWalk::new(1000);
    let mut steps = 0;
    while let Some(pid) = walk.next() {
        walk.step(Some(&status(pid + 1)));
        steps += 1;
    }
    assert_eq!(steps, MAX_STEPS);
    let want: Vec<i32> = (1000..1032).collect();
    assert_eq!(walk.into_pids(), want);
}

#[test]
fn firefox_is_found_above_its_children() {
    let mut search = FirefoxSearch::new(70);
    assert_eq!(search.step(Some("Isolated Web Co\n"), Some(&status(60))), SearchStep::Up(60));
    assert_eq!(search.step(Some("forkserver\n"), Some(&status(55))), SearchStep::Up(55));
    assert_eq!(search.step(Some("firefox\n"), Some(&status(2))), SearchStep::Found(55));
}

#[test]
fn firefox_may_not_be_there() {
    assert_eq!(FirefoxSearch::new(70).step(Some("x"), Some(&status(1))), SearchStep::Lost);
    assert_eq!(FirefoxSearch::new(70).step(Some("x"), None), SearchStep::Lost);
    assert_eq!(FirefoxSearch::new(70).step(None, Some(&status(9))), SearchStep::Up(9));
    assert_eq!(FirefoxSearch::new(70).step(Some(" firefox "), None), SearchStep::Found(70));
    let mut search = FirefoxSearch::new(1000);
    let mut ups = 0;
    while let SearchStep::Up(pid) = search.step(Some("x"), Some(&status(1001 + ups))) {
        ups += 1;
        assert_eq!(pid, 1000 + ups);
    }
    assert_eq!(ups, 31);
    // the last process that is looked at still counts
    let mut search = FirefoxSearch::new(1000);
    for _ in 0..31 {
        search.step(Some("x"), Some(&status(2000)));
    }
    assert_eq!(search.step(Some("firefox"), None), SearchStep::Found(2000));
}

#[test]
fn cgroups_below_are_walked_through() {
    // directory, processes, directories below
    let tree: [(&str, Option<&str>, &[&str]); 6] = [
        ("/c", Some("1\n2\n"), &["/c/a", "/c/b"]),
        ("/c/a", Some("3\n"), &["/c/a/x", "/c/a/y"]),
        ("/c/a/x", Some("4\nnone\n"), &[]),
        ("/c/a/y", None, &["/c/a/y/z"]),
        ("/c/a/y/z", Some("5\n2\n"), &[]),
        ("/c/b", Some(""), &[]),
    ];
    let mut walk = CgroupWalk::new("/c");
    let mut seen: Vec<String> = vec![];
    while let Some(dir) = walk.next() {
        let dir = dir.to_string();
        let (_, procs, below) = tree.iter().find(|t| t.0 == dir).unwrap();
        walk.step(*procs, below.iter().map(|d| d.to_string()).collect());
        seen.push(dir);
    }
    seen.sort();
    assert_eq!(seen, vec!["/c", "/c/a", "/c/a/x", "/c/a/y", "/c/a/y/z", "/c/b"]);
    let mut pids: Vec<i32> = walk.into_pids().into_iter().collect();
    pids.sort();
    assert_eq!(pids, vec![1, 2, 3, 4, 5]);
}

#[test]
fn a_cgroup_that_vanished_has_no_processes() {
    let mut walk = CgroupWalk::new("/gone");
    assert_eq!(walk.next(), Some("/gone"));
    walk.step(None, vec![]);
    assert_eq!(walk.next(), None);
    assert!(walk.into_pids().is_empty());
}
