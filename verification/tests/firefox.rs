use std::collections::HashMap;

use psi_ask::firefox::{
    add_process_labels, friendly_firefox_label, name_of_label, parse_process_labels,
};

fn label(raw: &str) -> Option<String> {
    friendly_firefox_label(raw)
}

fn firefox(name: &str) -> Option<String> {
    Some(format!("firefox · {}", name))
}

fn names(json: &str) -> Vec<(i32, String)> {
    let mut m = HashMap::new();
    parse_process_labels(json, &mut m);
    let mut v: Vec<(i32, String)> = m.into_iter().collect();
    v.sort();
    v
}

#[test]
fn firefox_labels() {
    let json = r#"{"reports":[
            {"process":"webIsolated=https://discord.com (pid 111)","x":1},
            {"process":"webIsolated=https://google.com^userContextId=9 (pid 222)","x":1},
            {"process":"webCOOP+COEP=https://whatsapp.com (pid 333)","x":1},
            {"process":"webServiceWorker=https://element.io (pid 444)","x":1},
            {"process":"Main Process (pid 555)","x":1},
            {"process":"RDD (pid 666)","x":1},
            {"process":"Utility (pid 777, sandboxingKind 0)","x":1},
            {"process":"extension (pid 888)","x":1}
        ]}"#;
    let mut m = HashMap::new();
    parse_process_labels(json, &mut m);
    assert_eq!(m[&111], "firefox · discord.com");
    assert_eq!(m[&222], "firefox · google.com");
    assert_eq!(m[&333], "firefox · whatsapp.com");
    assert_eq!(m[&444], "firefox · element.io (service worker)");
    assert!(!m.contains_key(&555)); // Main Process keeps its name
    assert_eq!(m[&666], "firefox · media decoder (RDD)");
    assert_eq!(m[&777], "firefox · utility");
    assert_eq!(m[&888], "firefox · extensions");
}

#[test]
fn web_content_is_named_by_its_host() {
    assert_eq!(label("webIsolated=https://discord.com^userContextId=9"), firefox("discord.com"));
    assert_eq!(label("web=http://example.org"), firefox("example.org"));
    assert_eq!(label("web=example.org"), firefox("example.org"));
    assert_eq!(label("webIsolated=moz-extension://x y"), firefox("moz-extension://x"));
    assert_eq!(label("webServiceWorker=https://a.b"), firefox("a.b (service worker)"));
    assert_eq!(label("webCOOP+COEP=https://a.b^partitionKey=x"), firefox("a.b"));
    assert_eq!(label("webIsolated=https://a.b\u{a0}c"), firefox("a.b"));
    assert_eq!(label("web=https://https://a"), firefox("https://a"));
}

#[test]
fn a_scheme_is_a_host_where_nothing_follows() {
    assert_eq!(label("web=https://"), firefox("https://"));
    assert_eq!(label("web=http://"), firefox("http://"));
    assert_eq!(label("web=https://^x"), firefox("https://"));
    assert_eq!(label("web=http:// x"), firefox("http://"));
    assert_eq!(label("web=https:/"), firefox("https:/"));
}

#[test]
fn labels_without_a_host() {
    assert_eq!(label("webIsolated="), None);
    assert_eq!(label("web=^x"), None);
    assert_eq!(label("web= x"), None);
    assert_eq!(label(" web=x"), None);
    assert_eq!(label("webX=a"), None);
    assert_eq!(label("Main Process"), None);
    assert_eq!(label(""), None);
}

#[test]
fn other_processes_have_names_of_their_own() {
    assert_eq!(label("web"), firefox("web content"));
    assert_eq!(label("extension"), firefox("extensions"));
    assert_eq!(label("privilegedabout"), firefox("about: pages"));
    assert_eq!(label("RDD"), firefox("media decoder (RDD)"));
    assert_eq!(label("RDD Process"), firefox("media decoder (RDD)"));
    assert_eq!(label("Socket"), firefox("networking"));
    assert_eq!(label("Utility (audio)"), firefox("utility"));
    assert_eq!(label("prealloc"), firefox("preallocated content"));
    assert_eq!(label("extensions"), None);
    assert_eq!(label("webbing"), None);
}

#[test]
fn names_follow_from_the_parts() {
    let parts = |kind: &str, host: &str| Some((kind.to_string(), host.to_string()));
    assert_eq!(name_of_label("x", parts("web", "a")), firefox("a"));
    assert_eq!(name_of_label("x", parts("webServiceWorker", "a")), firefox("a (service worker)"));
    assert_eq!(name_of_label("web", None), firefox("web content"));
    assert_eq!(name_of_label("x", None), None);
}

#[test]
fn entries_of_a_report() {
    // white space around the colon
    assert_eq!(
        names("{\"process\" \n:\t\"extension (pid 5)\"}"),
        vec![(5, "firefox · extensions".to_string())]
    );
    // the last number counts, and what follows it does not matter
    assert_eq!(
        names("\"process\":\"web=a(pid 1) (pid 2, x)\""),
        vec![(2, "firefox · a(pid".to_string())]
    );
    assert_eq!(
        names("\"process\":\"extension (pid 3) (pid x)\""),
        vec![(3, "firefox · extensions".to_string())]
    );
    // the last entry for a process stays
    assert_eq!(
        names("\"process\":\"web (pid 3)\" \"process\":\"extension (pid 3)\""),
        vec![(3, "firefox · extensions".to_string())]
    );
    // a number that is too big, a value without an end, another key
    assert_eq!(names("\"process\":\"web (pid 99999999999)\""), vec![]);
    assert_eq!(names("\"process\":\"web (pid 3)"), vec![]);
    assert_eq!(names("\"path\":\"web (pid 3)\""), vec![]);
    assert_eq!(names("\"process\":\"web\" (pid 3)\""), vec![]);
    assert_eq!(names(""), vec![]);
    // one value does not reach into the next
    assert_eq!(
        names("\"process\":\"\"process\":\"web (pid 4)\""),
        vec![(4, "firefox · web content".to_string())]
    );
}

#[test]
fn digits_of_other_scripts_are_no_process_numbers() {
    assert_eq!(names("\"process\":\"web (pid ٣)\""), vec![]);
    assert_eq!(names("\"process\":\"web (pid 3٣)\""), vec![]);
}

#[test]
fn names_are_added_to_those_there_are() {
    let mut m: HashMap<i32, String> = HashMap::new();
    m.insert(1, "one".to_string());
    m.insert(2, "two".to_string());
    let pair = |a: &str, b: &str| (a.to_string(), b.to_string());
    add_process_labels(
        &vec![pair(" web ", "2"), pair("Main Process ", "1"), pair("RDD", "x"), pair("RDD", "7")],
        &mut m,
    );
    assert_eq!(m.len(), 3);
    assert_eq!(m[&1], "one");
    assert_eq!(m[&2], "firefox · web content");
    assert_eq!(m[&7], "firefox · media decoder (RDD)");
}

#[test]
fn digits_are_those_of_the_pattern() {
    // a later place with digits of another script counts, though no number
    // can be read there
    assert_eq!(names("\"process\":\"web (pid 5) (pid ٣)\""), vec![]);
    assert_eq!(names("\"process\":\"web (pid 5) (pid \u{1fbf9})\""), vec![]);
    // other characters do not end a number in another way than a bracket does
    assert_eq!(
        names("\"process\":\"web (pid 5\u{2026})\""),
        vec![(5, "firefox · web content".to_string())]
    );
    assert_eq!(
        names("\"process\":\"web (pid 5) (pid ½)\""),
        vec![(5, "firefox · web content".to_string())]
    );
}

#[test]
fn a_report_read_twice_changes_nothing() {
    let json = "{\"process\":\"web (pid 1)\",\"x\":\"y\",\"process\":\"RDD (pid 1)\"}";
    let mut once: HashMap<i32, String> = HashMap::new();
    once.insert(1, "one".to_string());
    once.insert(9, "nine".to_string());
    parse_process_labels(json, &mut once);
    let mut twice = once.clone();
    parse_process_labels(json, &mut twice);
    assert_eq!(once, twice);
    assert_eq!(once[&1], "firefox · media decoder (RDD)");
    assert_eq!(once[&9], "nine");
}

#[test]
fn documents_in_a_row_give_what_each_gives() {
    let documents = [
        "{\"process\":\"web (pid 1)\"}",
        "[{\"process\" : \"extension (pid 1)\"},{\"process\":\"RDD (pid 2)\"}]\n",
        "\"process\"",
        "\"process\" ",
        "{\"process\":3}",
        "[]",
        "{}",
    ];
    for first in documents {
        for second in documents {
            let mut in_turn: HashMap<i32, String> = HashMap::new();
            parse_process_labels(first, &mut in_turn);
            parse_process_labels(second, &mut in_turn);
            let mut at_once: HashMap<i32, String> = HashMap::new();
            parse_process_labels(&format!("{}\n{}", first, second), &mut at_once);
            assert_eq!(in_turn, at_once, "{} {}", first, second);
        }
    }
}

/// The decimal digits beyond ASCII.
const OTHER_DIGITS: [(char, char); 70] = [
    ('\u{660}', '\u{669}'), ('\u{6f0}', '\u{6f9}'), ('\u{7c0}', '\u{7c9}'),
    ('\u{966}', '\u{96f}'), ('\u{9e6}', '\u{9ef}'), ('\u{a66}', '\u{a6f}'),
    ('\u{ae6}', '\u{aef}'), ('\u{b66}', '\u{b6f}'), ('\u{be6}', '\u{bef}'),
    ('\u{c66}', '\u{c6f}'), ('\u{ce6}', '\u{cef}'), ('\u{d66}', '\u{d6f}'),
    ('\u{de6}', '\u{def}'), ('\u{e50}', '\u{e59}'), ('\u{ed0}', '\u{ed9}'),
    ('\u{f20}', '\u{f29}'), ('\u{1040}', '\u{1049}'), ('\u{1090}', '\u{1099}'),
    ('\u{17e0}', '\u{17e9}'), ('\u{1810}', '\u{1819}'), ('\u{1946}', '\u{194f}'),
    ('\u{19d0}', '\u{19d9}'), ('\u{1a80}', '\u{1a89}'), ('\u{1a90}', '\u{1a99}'),
    ('\u{1b50}', '\u{1b59}'), ('\u{1bb0}', '\u{1bb9}'), ('\u{1c40}', '\u{1c49}'),
    ('\u{1c50}', '\u{1c59}'), ('\u{a620}', '\u{a629}'), ('\u{a8d0}', '\u{a8d9}'),
    ('\u{a900}', '\u{a909}'), ('\u{a9d0}', '\u{a9d9}'), ('\u{a9f0}', '\u{a9f9}'),
    ('\u{aa50}', '\u{aa59}'), ('\u{abf0}', '\u{abf9}'), ('\u{ff10}', '\u{ff19}'),
    ('\u{104a0}', '\u{104a9}'), ('\u{10d30}', '\u{10d39}'), ('\u{10d40}', '\u{10d49}'),
    ('\u{11066}', '\u{1106f}'), ('\u{110f0}', '\u{110f9}'), ('\u{11136}', '\u{1113f}'),
    ('\u{111d0}', '\u{111d9}'), ('\u{112f0}', '\u{112f9}'), ('\u{11450}', '\u{11459}'),
    ('\u{114d0}', '\u{114d9}'), ('\u{11650}', '\u{11659}'), ('\u{116c0}', '\u{116c9}'),
    ('\u{116d0}', '\u{116e3}'), ('\u{11730}', '\u{11739}'), ('\u{118e0}', '\u{118e9}'),
    ('\u{11950}', '\u{11959}'), ('\u{11bf0}', '\u{11bf9}'), ('\u{11c50}', '\u{11c59}'),
    ('\u{11d50}', '\u{11d59}'), ('\u{11da0}', '\u{11da9}'), ('\u{11f50}', '\u{11f59}'),
    ('\u{16130}', '\u{16139}'), ('\u{16a60}', '\u{16a69}'), ('\u{16ac0}', '\u{16ac9}'),
    ('\u{16b50}', '\u{16b59}'), ('\u{16d70}', '\u{16d79}'), ('\u{1ccf0}', '\u{1ccf9}'),
    ('\u{1d7ce}', '\u{1d7ff}'), ('\u{1e140}', '\u{1e149}'), ('\u{1e2f0}', '\u{1e2f9}'),
    ('\u{1e4f0}', '\u{1e4f9}'), ('\u{1e5f1}', '\u{1e5fa}'), ('\u{1e950}', '\u{1e959}'),
    ('\u{1fbf0}', '\u{1fbf9}'),
];

#[test]
fn decimal_digits_of_every_script_are_known() {
    // where the second place holds a digit, the first one does not count
    let mut json = String::new();
    for c in '\u{80}'..='\u{1ffff}' {
        json += &format!("\"process\":\"web (pid {}) (pid {})\"\n", c as u32, c);
    }
    let mut m = HashMap::new();
    parse_process_labels(&json, &mut m);
    for c in '\u{80}'..='\u{1ffff}' {
        let is_digit = OTHER_DIGITS.iter().any(|(a, b)| *a <= c && c <= *b);
        assert_eq!(m.contains_key(&(c as i32)), !is_digit, "{:?}", c);
    }
}
