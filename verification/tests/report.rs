use std::io::Write;

use flate2::write::GzEncoder;
use flate2::Compression;

use psi_ask::report::{
    firefox_report_files, first_readable, fresh_reports, is_report_name, report_labels,
    report_suffix, ReportSearch, REPORT_PAUSE,
};

fn gzip(text: &str) -> Vec<u8> {
    let mut encoder = GzEncoder::new(Vec::new(), Compression::default());
    encoder.write_all(text.as_bytes()).unwrap();
    encoder.finish().unwrap()
}

fn owned(names: &[&str]) -> Vec<String> {
    names.iter().map(|n| n.to_string()).collect()
}

#[test]
fn reports_are_known_by_their_names() {
    assert_eq!(report_suffix(4242), "-4242.json.gz");
    assert!(is_report_name("unified-memory-report-1700000000-4242.json.gz", "-4242.json.gz"));
    assert!(!is_report_name("unified-memory-report-1700000000-42.json.gz", "-4242.json.gz"));
    assert!(!is_report_name("unified-memory-report-1700000000-4242.json", "-4242.json.gz"));
    assert!(!is_report_name("memory-report-1-4242.json.gz", "-4242.json.gz"));
    // the two parts may share a character
    assert!(is_report_name("unified-memory-report-4242.json.gz", "-4242.json.gz"));
}

#[test]
fn only_fresh_reports_count() {
    let listing = owned(&[
        "x",
        "unified-memory-report-1-7.json.gz",
        "unified-memory-report-2-8.json.gz",
        "unified-memory-report-3-7.json.gz",
    ]);
    let now = firefox_report_files(&listing, "-7.json.gz");
    assert_eq!(now, owned(&["unified-memory-report-1-7.json.gz", "unified-memory-report-3-7.json.gz"]));
    let before = owned(&["unified-memory-report-1-7.json.gz", "gone"]);
    assert_eq!(fresh_reports(&before, &now), owned(&["unified-memory-report-3-7.json.gz"]));
    assert!(fresh_reports(&now, &now).is_empty());
}

#[test]
fn reports_are_compressed() {
    let bytes = gzip(r#"{"process": "webIsolated=https://discord.com (pid 111)"}"#);
    let names = report_labels(&bytes).unwrap();
    assert_eq!(names.len(), 1);
    assert_eq!(names[&111], "firefox · discord.com");
    assert!(report_labels(&gzip("{}")).unwrap().is_empty());
}

#[test]
fn partial_reports_cannot_be_read() {
    let bytes = gzip(r#"{"process": "webIsolated=https://discord.com (pid 111)"}"#);
    for n in 0..bytes.len() {
        assert!(report_labels(&bytes[..n]).is_none(), "{}", n);
    }
    let mut broken = bytes.clone();
    let last = broken.len() - 5;
    broken[last] ^= 1;
    assert!(report_labels(&broken).is_none());
    assert!(report_labels(b"{\"process\": \"web (pid 111)\"}").is_none());
    // text that is not UTF-8
    let mut encoder = GzEncoder::new(Vec::new(), Compression::default());
    encoder.write_all(b"\xff\xfe").unwrap();
    assert!(report_labels(&encoder.finish().unwrap()).is_none());
}

#[test]
fn first_report_that_can_be_read_counts() {
    let good = gzip("\"process\":\"web (pid 1)\"");
    let other = gzip("\"process\":\"extension (pid 2)\"");
    let partial = good[..good.len() - 1].to_vec();
    let (i, names) =
        first_readable(&vec![None, Some(partial.clone()), Some(good), Some(other)]).unwrap();
    assert_eq!(i, 2);
    assert_eq!(names[&1], "firefox · web content");
    assert!(!names.contains_key(&2));
    assert!(first_readable(&vec![None, Some(partial), Some(vec![])]).is_none());
    assert!(first_readable(&vec![]).is_none());
}

#[test]
fn reports_from_before_are_left_alone() {
    let old = "unified-memory-report-1-7.json.gz";
    let new = "unified-memory-report-2-7.json.gz";
    let search = ReportSearch::new(7, &owned(&["x", old, "unified-memory-report-1-8.json.gz"]));
    assert!(search.fresh(&owned(&["x", old])).is_empty());
    assert_eq!(
        search.fresh(&owned(&[new, "x", old, "unified-memory-report-2-8.json.gz"])),
        owned(&[new])
    );
}

#[test]
fn the_search_ends_after_a_while() {
    let search = ReportSearch::new(7, &vec![]);
    assert_eq!(search.pause(0), Some(REPORT_PAUSE));
    assert_eq!(search.pause(14_999), Some(500));
    assert_eq!(search.pause(15_000), None);
}
