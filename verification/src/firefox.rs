//! Names for Firefox's child processes.
//!
//! Firefox child processes all show a kernel-truncated name. The memory
//! report that Firefox dumps on a signal carries a label for each of its
//! processes, which tells the site that the process belongs to.

use std::collections::HashMap;

use vstd::prelude::*;

use crate::number::{
    is_digit, law_signed_round_trip, lemma_decimal, parse_i32, parsed_i32, signed_decimal,
};
use crate::text::{
    begins, chars_of, is_space, opt_text, position, same_str, starts_with, string_of, trim, trimmed,
};

verus! {

broadcast use vstd::std_specs::hash::group_hash_axioms;

/// The pattern of a web-content label: a type, `=`, an address, and
/// attributes after a `^`.
pub const WEB_PATTERN: &'static str =
    r"^(?<type>webIsolated|webCOOP\+COEP|webServiceWorker|web)=(?:https?://)?(?<host>[^^\s]+)";

/// The pattern of a process label in the memory report. The labels contain
/// no escapes.
pub const PROCESS_PATTERN: &'static str =
    r#""process"\s*:\s*"(?<label>[^"]*)\(pid (?<pid>\d+)[^"]*""#;

// ---------------------------------------------------------------- labels
/// The type of a web-content label: what stands before the `=`.
pub open spec fn web_type(raw: Seq<char>) -> Option<Seq<char>> {
    if begins(raw, "webIsolated="@) {
        Some("webIsolated"@)
    } else if begins(raw, "webCOOP+COEP="@) {
        Some("webCOOP+COEP"@)
    } else if begins(raw, "webServiceWorker="@) {
        Some("webServiceWorker"@)
    } else if begins(raw, "web="@) {
        Some("web"@)
    } else {
        None
    }
}

/// How many characters stand in `s` before the first `^` or white space.
pub open spec fn host_len(s: Seq<char>) -> int
    decreases s.len(),
{
    if s.len() == 0 || s.first() == '^' || is_space(s.first()) {
        0
    } else {
        1 + host_len(s.drop_first())
    }
}

/// The host in an address: without the scheme, unless nothing else is there.
pub open spec fn web_host(address: Seq<char>) -> Option<Seq<char>> {
    let bare = if begins(address, "https://"@) {
        address.skip(8)
    } else if begins(address, "http://"@) {
        address.skip(7)
    } else {
        address
    };
    if host_len(bare) > 0 {
        Some(bare.take(host_len(bare)))
    } else if host_len(address) > 0 {
        Some(address.take(host_len(address)))
    } else {
        None
    }
}

/// The type and the host of a web-content label.
pub open spec fn web_parts(raw: Seq<char>) -> Option<(Seq<char>, Seq<char>)> {
    match web_type(raw) {
        Some(kind) => match web_host(raw.skip(kind.len() as int + 1)) {
            Some(host) => Some((kind, host)),
            None => None,
        },
        None => None,
    }
}

/// The readable name for a raw label, given the type and the host of the
/// label where it is one of web content.
pub open spec fn label_name(
    raw: Seq<char>,
    parts: Option<(Seq<char>, Seq<char>)>,
) -> Option<Seq<char>> {
    let name = match parts {
        Some((kind, host)) => if kind == "webServiceWorker"@ {
            Some(host + " (service worker)"@)
        } else {
            Some(host)
        },
        None => if raw == "web"@ {
            Some("web content"@)
        } else if raw == "extension"@ {
            Some("extensions"@)
        } else if raw == "privilegedabout"@ {
            Some("about: pages"@)
        } else if begins(raw, "RDD"@) {
            Some("media decoder (RDD)"@)
        } else if begins(raw, "Socket"@) {
            Some("networking"@)
        } else if begins(raw, "Utility"@) {
            Some("utility"@)
        } else if begins(raw, "prealloc"@) {
            Some("preallocated content"@)
        } else {
            None
        },
    };
    match name {
        Some(n) => Some("firefox · "@ + n),
        None => None,
    }
}

/// The readable name for a raw label; `None` keeps the process's own name.
pub open spec fn friendly(raw: Seq<char>) -> Option<Seq<char>> {
    label_name(raw, web_parts(raw))
}

/// Calls `regex::Regex::new` and `Regex::captures`, which match the pattern
/// of a web-content label at the start of `raw`, and hands out the groups
/// `type` and `host`. In that pattern the type is one of four words before a
/// `=`, a scheme may follow, and the host is the longest run of characters
/// other than `^` and white space, of at least one character; the scheme is
/// skipped where that leaves a host.
#[verifier::external_body]
fn web_captures(pattern: &str, raw: &str) -> (r: Option<(String, String)>)
    requires
        pattern@ == WEB_PATTERN@,
    ensures
        match r {
            Some((kind, host)) => web_parts(raw@) == Some((kind@, host@)),
            None => web_parts(raw@) is None,
        },
{
    let regex = regex::Regex::new(pattern).unwrap();
    regex.captures(raw).map(|c| (c["type"].to_string(), c["host"].to_string()))
}

/// The readable name for a raw label, given the type and the host of the
/// label where it is one of web content.
pub fn name_of_label(raw: &str, parts: Option<(String, String)>) -> (r: Option<String>)
    ensures
        opt_text(r) == label_name(
            raw@,
            match parts {
                Some((kind, host)) => Some((kind@, host@)),
                None => None,
            },
        ),
{
    let mut name: String = String::new();
    name.append("firefox · ");
    match parts {
        Some((kind, host)) => {
            name.append(host.as_str());
            if same_str(kind.as_str(), "webServiceWorker") {
                name.append(" (service worker)");
            }
            assert("firefox · "@ + (host@ + " (service worker)"@) =~= "firefox · "@ + host@
                + " (service worker)"@);
        },
        None => {
            let label: Vec<char> = chars_of(raw);
            let known: &str = if same_str(raw, "web") {
                "web content"
            } else if same_str(raw, "extension") {
                "extensions"
            } else if same_str(raw, "privilegedabout") {
                "about: pages"
            } else if starts_with(label.as_slice(), "RDD") {
                "media decoder (RDD)"
            } else if starts_with(label.as_slice(), "Socket") {
                "networking"
            } else if starts_with(label.as_slice(), "Utility") {
                "utility"
            } else if starts_with(label.as_slice(), "prealloc") {
                "preallocated content"
            } else {
                return None;
            };
            name.append(known);
        },
    }
    Some(name)
}

/// `webIsolated=https://discord.com^userContextId=9` becomes
/// `firefox · discord.com`. `None` keeps the process's own name, as for the
/// main process.
pub fn friendly_firefox_label(raw: &str) -> (r: Option<String>)
    ensures
        opt_text(r) == friendly(raw@),
{
    let parts: Option<(String, String)> = web_captures(WEB_PATTERN, raw);
    name_of_label(raw, parts)
}

// ---------------------------------------------------------------- report
/// Whether `p` stands in `s` at `i`.
pub open spec fn stands_at(s: Seq<char>, i: int, p: Seq<char>) -> bool {
    0 <= i <= s.len() && begins(s.skip(i), p)
}

/// Where the white space in `s` that begins at `i` ends.
pub open spec fn skip_spaces(s: Seq<char>, i: int) -> int
    decreases s.len() - i,
{
    if 0 <= i < s.len() && is_space(s[i]) {
        skip_spaces(s, i + 1)
    } else {
        i
    }
}

/// Where the quoted value of the key `process` begins that stands in `s` at
/// `i`.
pub open spec fn value_start(s: Seq<char>, i: int) -> Option<int> {
    let colon = skip_spaces(s, i + 9);
    let quote = skip_spaces(s, colon + 1);
    if stands_at(s, i, "\"process\""@) && stands_at(s, colon, ":"@) && stands_at(s, quote, "\""@) {
        Some(quote + 1)
    } else {
        None
    }
}

/// The characters beyond ASCII in the Unicode category `Decimal_Number`.
#[verifier::opaque]
pub open spec fn is_other_digit(c: char) -> bool {
    ||| '\u{660}' <= c <= '\u{669}'
    ||| '\u{6f0}' <= c <= '\u{6f9}'
    ||| '\u{7c0}' <= c <= '\u{7c9}'
    ||| '\u{966}' <= c <= '\u{96f}'
    ||| '\u{9e6}' <= c <= '\u{9ef}'
    ||| '\u{a66}' <= c <= '\u{a6f}'
    ||| '\u{ae6}' <= c <= '\u{aef}'
    ||| '\u{b66}' <= c <= '\u{b6f}'
    ||| '\u{be6}' <= c <= '\u{bef}'
    ||| '\u{c66}' <= c <= '\u{c6f}'
    ||| '\u{ce6}' <= c <= '\u{cef}'
    ||| '\u{d66}' <= c <= '\u{d6f}'
    ||| '\u{de6}' <= c <= '\u{def}'
    ||| '\u{e50}' <= c <= '\u{e59}'
    ||| '\u{ed0}' <= c <= '\u{ed9}'
    ||| '\u{f20}' <= c <= '\u{f29}'
    ||| '\u{1040}' <= c <= '\u{1049}'
    ||| '\u{1090}' <= c <= '\u{1099}'
    ||| '\u{17e0}' <= c <= '\u{17e9}'
    ||| '\u{1810}' <= c <= '\u{1819}'
    ||| '\u{1946}' <= c <= '\u{194f}'
    ||| '\u{19d0}' <= c <= '\u{19d9}'
    ||| '\u{1a80}' <= c <= '\u{1a89}'
    ||| '\u{1a90}' <= c <= '\u{1a99}'
    ||| '\u{1b50}' <= c <= '\u{1b59}'
    ||| '\u{1bb0}' <= c <= '\u{1bb9}'
    ||| '\u{1c40}' <= c <= '\u{1c49}'
    ||| '\u{1c50}' <= c <= '\u{1c59}'
    ||| '\u{a620}' <= c <= '\u{a629}'
    ||| '\u{a8d0}' <= c <= '\u{a8d9}'
    ||| '\u{a900}' <= c <= '\u{a909}'
    ||| '\u{a9d0}' <= c <= '\u{a9d9}'
    ||| '\u{a9f0}' <= c <= '\u{a9f9}'
    ||| '\u{aa50}' <= c <= '\u{aa59}'
    ||| '\u{abf0}' <= c <= '\u{abf9}'
    ||| '\u{ff10}' <= c <= '\u{ff19}'
    ||| '\u{104a0}' <= c <= '\u{104a9}'
    ||| '\u{10d30}' <= c <= '\u{10d39}'
    ||| '\u{10d40}' <= c <= '\u{10d49}'
    ||| '\u{11066}' <= c <= '\u{1106f}'
    ||| '\u{110f0}' <= c <= '\u{110f9}'
    ||| '\u{11136}' <= c <= '\u{1113f}'
    ||| '\u{111d0}' <= c <= '\u{111d9}'
    ||| '\u{112f0}' <= c <= '\u{112f9}'
    ||| '\u{11450}' <= c <= '\u{11459}'
    ||| '\u{114d0}' <= c <= '\u{114d9}'
    ||| '\u{11650}' <= c <= '\u{11659}'
    ||| '\u{116c0}' <= c <= '\u{116c9}'
    ||| '\u{116d0}' <= c <= '\u{116e3}'
    ||| '\u{11730}' <= c <= '\u{11739}'
    ||| '\u{118e0}' <= c <= '\u{118e9}'
    ||| '\u{11950}' <= c <= '\u{11959}'
    ||| '\u{11bf0}' <= c <= '\u{11bf9}'
    ||| '\u{11c50}' <= c <= '\u{11c59}'
    ||| '\u{11d50}' <= c <= '\u{11d59}'
    ||| '\u{11da0}' <= c <= '\u{11da9}'
    ||| '\u{11f50}' <= c <= '\u{11f59}'
    ||| '\u{16130}' <= c <= '\u{16139}'
    ||| '\u{16a60}' <= c <= '\u{16a69}'
    ||| '\u{16ac0}' <= c <= '\u{16ac9}'
    ||| '\u{16b50}' <= c <= '\u{16b59}'
    ||| '\u{16d70}' <= c <= '\u{16d79}'
    ||| '\u{1ccf0}' <= c <= '\u{1ccf9}'
    ||| '\u{1d7ce}' <= c <= '\u{1d7ff}'
    ||| '\u{1e140}' <= c <= '\u{1e149}'
    ||| '\u{1e2f0}' <= c <= '\u{1e2f9}'
    ||| '\u{1e4f0}' <= c <= '\u{1e4f9}'
    ||| '\u{1e5f1}' <= c <= '\u{1e5fa}'
    ||| '\u{1e950}' <= c <= '\u{1e959}'
    ||| '\u{1fbf0}' <= c <= '\u{1fbf9}'
}

/// The characters in the Unicode category `Decimal_Number`.
pub open spec fn is_decimal(c: char) -> bool {
    is_digit(c) || (c as u32 >= 128 && is_other_digit(c))
}

/// How many digits, of any script, `s` begins with.
pub open spec fn decimal_run(s: Seq<char>) -> int
    decreases s.len(),
{
    if s.len() == 0 || !is_decimal(s.first()) {
        0
    } else {
        1 + decimal_run(s.drop_first())
    }
}

/// Whether a process number follows in `v` at `p`.
pub open spec fn pid_at(v: Seq<char>, p: int) -> bool {
    stands_at(v, p, "(pid "@) && p + 5 < v.len() && is_decimal(v[p + 5])
}

/// The last place in `v`, not after `from`, at which a process number
/// follows.
pub open spec fn last_pid(v: Seq<char>, from: int) -> Option<int>
    decreases from + 1,
    when from >= -1
{
    if from < 0 {
        None
    } else if pid_at(v, from) {
        Some(from)
    } else {
        last_pid(v, from - 1)
    }
}

/// The label and the digits of the process entry that stands in `s` at `i`,
/// and where it ends. The value is what stands between two quotes, and the
/// last process number in it counts.
pub open spec fn entry_at(s: Seq<char>, i: int) -> Option<(Seq<char>, Seq<char>, int)> {
    match value_start(s, i) {
        Some(a) => {
            let v = s.skip(a).take(position(s.skip(a), '"'));
            match last_pid(v, v.len() - 1) {
                Some(p) => if a + v.len() < s.len() {
                    let number = v.skip(p + 5);
                    Some((v.take(p), number.take(decimal_run(number)), a + v.len() + 1))
                } else {
                    None
                },
                None => None,
            }
        },
        None => None,
    }
}

/// The labels and digits of the process entries in `s` from `i` on, one
/// after the other.
pub open spec fn entries_from(s: Seq<char>, i: int) -> Seq<(Seq<char>, Seq<char>)>
    decreases s.len() - i,
    when 0 <= i
    via entries_terminate
{
    if i >= s.len() {
        Seq::empty()
    } else {
        match entry_at(s, i) {
            Some((label, digits, end)) => seq![(label, digits)] + entries_from(s, end),
            None => entries_from(s, i + 1),
        }
    }
}

#[via_fn]
proof fn entries_terminate(s: Seq<char>, i: int) {
    lemma_entry_advances(s, i);
}

/// White space is skipped forwards.
proof fn lemma_skip_spaces(s: Seq<char>, i: int)
    ensures
        skip_spaces(s, i) >= i,
    decreases s.len() - i,
{
    if 0 <= i < s.len() && is_space(s[i]) {
        lemma_skip_spaces(s, i + 1);
    }
}

/// An entry ends after it begins, and within the text.
proof fn lemma_entry_advances(s: Seq<char>, i: int)
    requires
        0 <= i,
    ensures
        entry_at(s, i) matches Some((_, _, end)) ==> i < end <= s.len(),
{
    let colon = skip_spaces(s, i + 9);
    lemma_skip_spaces(s, i + 9);
    lemma_skip_spaces(s, colon + 1);
    if let Some(a) = value_start(s, i) {
        crate::text::lemma_position(s.skip(a), '"');
    }
}

/// The labels and digits that a list of pairs of strings holds.
pub open spec fn pair_texts(v: Seq<(String, String)>) -> Seq<(Seq<char>, Seq<char>)> {
    v.map_values(|p: (String, String)| (p.0@, p.1@))
}

/// Calls `regex::Regex::new` and `Regex::captures_iter`, which find the
/// matches of the pattern of a process label, from left to right and without
/// overlap, and hands out the groups `label` and `pid` of each. In that
/// pattern the key and the colon may have white space behind them, the value
/// goes up to the next quote, the label is the longest beginning of the value
/// that `(pid ` and a digit follow, and the number is the longest run of
/// digits there. A digit is whatever the crate's tables list as a decimal
/// number.
#[verifier::external_body]
fn process_captures(pattern: &str, json: &str) -> (r: Vec<(String, String)>)
    requires
        pattern@ == PROCESS_PATTERN@,
    ensures
        pair_texts(r@) == entries_from(json@, 0),
{
    let regex = regex::Regex::new(pattern).unwrap();
    regex.captures_iter(json).map(|c| (c["label"].to_string(), c["pid"].to_string())).collect()
}

/// The names by process number that `m` holds.
pub open spec fn names_in(m: Map<i32, String>) -> Map<i32, Seq<char>> {
    m.map_values(|s: String| s@)
}

/// `names` with the name that one entry gives, if it gives one.
pub open spec fn with_entry(
    names: Map<i32, Seq<char>>,
    entry: (Seq<char>, Seq<char>),
) -> Map<i32, Seq<char>> {
    match (parsed_i32(entry.1), friendly(trimmed(entry.0))) {
        (Ok(pid), Some(name)) => names.insert(pid, name),
        _ => names,
    }
}

/// `names` with the names that the entries give; the last one for a process
/// stays.
pub open spec fn with_entries(
    names: Map<i32, Seq<char>>,
    entries: Seq<(Seq<char>, Seq<char>)>,
) -> Map<i32, Seq<char>>
    decreases entries.len(),
{
    if entries.len() == 0 {
        names
    } else {
        with_entry(with_entries(names, entries.drop_last()), entries.last())
    }
}

/// Labels whose readable names are known.
struct NameCache {
    known: Vec<(String, Option<String>)>,
}

impl NameCache {
    spec fn wf(&self) -> bool {
        forall|i: int|
            0 <= i < self.known@.len() ==> opt_text((#[trigger] self.known@[i]).1) == friendly(
                self.known@[i].0@,
            )
    }

    fn new() -> (r: NameCache)
        ensures
            r.wf(),
    {
        NameCache { known: Vec::new() }
    }

    /// The readable name for `raw`; each label is looked at once.
    fn name(&mut self, raw: &str) -> (r: Option<String>)
        requires
            old(self).wf(),
        ensures
            final(self).wf(),
            opt_text(r) == friendly(raw@),
    {
        let mut i: usize = 0;
        while i < self.known.len()
            invariant
                i <= self.known.len(),
                self.wf(),
            decreases self.known.len() - i,
        {
            if same_str(self.known[i].0.as_str(), raw) {
                assert(opt_text(self.known@[i as int].1) == friendly(raw@));
                return match &self.known[i].1 {
                    Some(name) => Some(name.clone()),
                    None => None,
                };
            }
            i = i + 1;
        }
        let name: Option<String> = friendly_firefox_label(raw);
        let copy: Option<String> = match &name {
            Some(n) => Some(n.clone()),
            None => None,
        };
        self.known.push((raw.to_string(), copy));
        name
    }
}

/// Adds the names that the entries give to `out`.
pub fn add_process_labels(entries: &Vec<(String, String)>, out: &mut HashMap<i32, String>)
    ensures
        names_in(final(out)@) == with_entries(names_in(old(out)@), pair_texts(entries@)),
{
    let ghost start = names_in(out@);
    let ghost all = pair_texts(entries@);
    let mut cache: NameCache = NameCache::new();
    let mut i: usize = 0;
    while i < entries.len()
        invariant
            i <= entries.len(),
            all == pair_texts(entries@),
            cache.wf(),
            names_in(out@) == with_entries(start, all.take(i as int)),
        decreases entries.len() - i,
    {
        let label: Vec<char> = chars_of(entries[i].0.as_str());
        let digits: Vec<char> = chars_of(entries[i].1.as_str());
        let ghost step = all.take(i + 1);
        let ghost before = out@;
        assert(step.drop_last() =~= all.take(i as int));
        assert(step.last() == (label@, digits@));
        if let Ok(pid) = parse_i32(digits.as_slice()) {
            let raw: String = string_of(trim(label.as_slice()));
            if let Some(name) = cache.name(raw.as_str()) {
                out.insert(pid, name);
                assert(names_in(out@) =~= names_in(before).insert(pid, name@));
            }
        }
        i = i + 1;
    }
    assert(all.take(i as int) =~= all);
}

/// Pulls every `"process": "<label> (pid N...)"` out of the report and adds
/// the readable names to `out`.
pub fn parse_process_labels(json: &str, out: &mut HashMap<i32, String>)
    ensures
        names_in(final(out)@) == with_entries(names_in(old(out)@), entries_from(json@, 0)),
{
    let entries: Vec<(String, String)> = process_captures(PROCESS_PATTERN, json);
    add_process_labels(&entries, out);
}

// ------------------------------------------------------------------ laws
/// `host_len` counts up to the first `^` or white space.
proof fn lemma_host_len_is(s: Seq<char>, i: int)
    requires
        0 <= i <= s.len(),
        i < s.len() ==> s[i] == '^' || is_space(s[i]),
        forall|j: int| 0 <= j < i ==> s[j] != '^' && !is_space(#[trigger] s[j]),
    ensures
        host_len(s) == i,
    decreases i,
{
    if i > 0 {
        assert(s[0] != '^' && !is_space(s[0]));
        assert forall|j: int| 0 <= j < i - 1 implies s.drop_first()[j] != '^' && !is_space(
            #[trigger] s.drop_first()[j],
        ) by {
            assert(s.drop_first()[j] == s[j + 1]);
        }
        lemma_host_len_is(s.drop_first(), i - 1);
    }
}

/// One of the four types of a web-content label.
pub open spec fn is_web_type(kind: Seq<char>) -> bool {
    kind == "webIsolated"@ || kind == "webCOOP+COEP"@ || kind == "webServiceWorker"@ || kind
        == "web"@
}

/// The type of a web-content label is what stands before the `=`.
proof fn lemma_web_type(kind: Seq<char>, address: Seq<char>)
    requires
        is_web_type(kind),
    ensures
        web_type(kind + "="@ + address) == Some(kind),
        (kind + "="@ + address).skip(kind.len() as int + 1) == address,
{
    reveal_strlit("webIsolated");
    reveal_strlit("webIsolated=");
    reveal_strlit("webCOOP+COEP");
    reveal_strlit("webCOOP+COEP=");
    reveal_strlit("webServiceWorker");
    reveal_strlit("webServiceWorker=");
    reveal_strlit("web");
    reveal_strlit("web=");
    reveal_strlit("=");
    let raw = kind + "="@ + address;
    assert(raw.skip(kind.len() as int + 1) =~= address);
    let fourth = raw[3];
    if kind == "webIsolated"@ {
        assert(raw.take(12) =~= "webIsolated="@);
    } else if kind == "webCOOP+COEP"@ {
        assert(fourth == 'C');
        assert(raw.take(12)[3] == fourth);
        assert(raw.take(13) =~= "webCOOP+COEP="@);
    } else if kind == "webServiceWorker"@ {
        assert(fourth == 'S');
        assert(raw.take(12)[3] == fourth);
        assert(raw.take(13)[3] == fourth);
        assert(raw.take(17) =~= "webServiceWorker="@);
    } else {
        assert(fourth == '=');
        if raw.len() >= 12 {
            assert(raw.take(12)[3] == fourth);
        }
        if raw.len() >= 13 {
            assert(raw.take(13)[3] == fourth);
        }
        if raw.len() >= 17 {
            assert(raw.take(17)[3] == fourth);
        }
        assert(raw.take(4) =~= "web="@);
    }
}

/// The host of an address is what stands between the scheme and the
/// attributes.
proof fn lemma_web_host(scheme: Seq<char>, host: Seq<char>, attributes: Seq<char>)
    requires
        scheme == ""@ || scheme == "http://"@ || scheme == "https://"@,
        host.len() > 0,
        forall|i: int| 0 <= i < host.len() ==> host[i] != '^' && !is_space(#[trigger] host[i]),
        scheme == ""@ ==> !begins(host, "http://"@) && !begins(host, "https://"@),
        attributes.len() > 0 ==> attributes[0] == '^' || is_space(attributes[0]),
    ensures
        web_host(scheme + host + attributes) == Some(host),
{
    reveal_strlit("");
    reveal_strlit("http://");
    reveal_strlit("https://");
    let address = scheme + host + attributes;
    let rest = host + attributes;
    assert(address.skip(scheme.len() as int) =~= rest);
    assert forall|j: int| 0 <= j < host.len() implies rest[j] != '^' && !is_space(
        #[trigger] rest[j],
    ) by {
        assert(rest[j] == host[j]);
    }
    lemma_host_len_is(rest, host.len() as int);
    assert(rest.take(host.len() as int) =~= host);
    if scheme == "https://"@ {
        assert(address.take(8) =~= "https://"@);
    } else if scheme == "http://"@ {
        let fifth = address[4];
        assert(fifth == ':');
        if address.len() >= 8 {
            assert(address.take(8)[4] == fifth);
        }
        assert(address.take(7) =~= "http://"@);
    } else {
        assert(address =~= rest);
        lemma_no_scheme(host, attributes, "http://"@);
        lemma_no_scheme(host, attributes, "https://"@);
    }
}

/// A web-content label is named by its host, whatever the scheme and the
/// attributes: `<type>=<scheme><host><attributes>`. A service worker is said
/// to be one.
pub proof fn law_web_label(
    kind: Seq<char>,
    scheme: Seq<char>,
    host: Seq<char>,
    attributes: Seq<char>,
)
    requires
        is_web_type(kind),
        scheme == ""@ || scheme == "http://"@ || scheme == "https://"@,
        host.len() > 0,
        forall|i: int| 0 <= i < host.len() ==> host[i] != '^' && !is_space(#[trigger] host[i]),
        scheme == ""@ ==> !begins(host, "http://"@) && !begins(host, "https://"@),
        attributes.len() > 0 ==> attributes[0] == '^' || is_space(attributes[0]),
    ensures
        friendly(kind + "="@ + (scheme + host + attributes)) == Some(
            "firefox · "@ + (if kind == "webServiceWorker"@ {
                host + " (service worker)"@
            } else {
                host
            }),
        ),
{
    lemma_web_type(kind, scheme + host + attributes);
    lemma_web_host(scheme, host, attributes);
}

/// A scheme that a host does not begin with, the host and the attributes do
/// not begin with either.
proof fn lemma_no_scheme(host: Seq<char>, attributes: Seq<char>, scheme: Seq<char>)
    requires
        !begins(host, scheme),
        attributes.len() > 0 ==> attributes[0] == '^' || is_space(attributes[0]),
        forall|i: int| 0 <= i < scheme.len() ==> scheme[i] != '^' && !is_space(#[trigger] scheme[i]),
    ensures
        !begins(host + attributes, scheme),
{
    let all = host + attributes;
    if begins(all, scheme) {
        if scheme.len() <= host.len() {
            assert(all.take(scheme.len() as int) =~= host.take(scheme.len() as int));
        } else {
            assert(all.take(scheme.len() as int)[host.len() as int] == attributes[0]);
            assert(scheme[host.len() as int] == attributes[0]);
        }
    }
}

/// Every readable name says that the process is one of Firefox.
pub proof fn law_names_say_firefox(raw: Seq<char>)
    ensures
        friendly(raw) matches Some(name) ==> begins(name, "firefox · "@),
{
    if let Some(name) = friendly(raw) {
        assert(name.take("firefox · "@.len() as int) =~= "firefox · "@);
    }
}

/// A process entry of the report, as text.
pub open spec fn entry_text(
    gap: Seq<char>,
    space: Seq<char>,
    label: Seq<char>,
    digits: Seq<char>,
    tail: Seq<char>,
) -> Seq<char> {
    "\"process\""@ + gap + ":"@ + space + "\""@ + label + "(pid "@ + digits + tail + "\""@
}

/// White space is skipped up to the first other character.
proof fn lemma_skip_spaces_is(s: Seq<char>, i: int, j: int)
    requires
        0 <= i <= j <= s.len(),
        j < s.len() ==> !is_space(s[j]),
        forall|k: int| i <= k < j ==> is_space(#[trigger] s[k]),
    ensures
        skip_spaces(s, i) == j,
    decreases j - i,
{
    if i < j {
        assert(is_space(s[i]));
        lemma_skip_spaces_is(s, i + 1, j);
    }
}

/// The last process number is the one that none follows.
proof fn lemma_last_pid_is(v: Seq<char>, from: int, p: int)
    requires
        0 <= p <= from,
        pid_at(v, p),
        forall|q: int| p < q <= from ==> !pid_at(v, q),
    ensures
        last_pid(v, from) == Some(p),
    decreases from,
{
    if p < from {
        assert(!pid_at(v, from));
        lemma_last_pid_is(v, from - 1, p);
    }
}

/// The first character that is no digit ends the run.
proof fn lemma_decimal_run_is(s: Seq<char>, i: int)
    requires
        0 <= i <= s.len(),
        i < s.len() ==> !is_decimal(s[i]),
        forall|j: int| 0 <= j < i ==> is_decimal(#[trigger] s[j]),
    ensures
        decimal_run(s) == i,
    decreases i,
{
    if i > 0 {
        assert(is_decimal(s[0]));
        assert forall|j: int| 0 <= j < i - 1 implies is_decimal(#[trigger] s.drop_first()[j]) by {
            assert(s.drop_first()[j] == s[j + 1]);
        }
        lemma_decimal_run_is(s.drop_first(), i - 1);
    }
}

/// What stands at a place, character by character.
proof fn lemma_stands_at(s: Seq<char>, i: int, p: Seq<char>)
    requires
        0 <= i,
        i + p.len() <= s.len(),
        s.subrange(i, i + p.len()) == p,
    ensures
        stands_at(s, i, p),
{
    assert(s.skip(i).take(p.len() as int) =~= s.subrange(i, i + p.len()));
}

/// An entry that stands in a text is what `entry_at` finds there.
proof fn lemma_entry_at(
    before: Seq<char>,
    gap: Seq<char>,
    space: Seq<char>,
    label: Seq<char>,
    digits: Seq<char>,
    tail: Seq<char>,
    rest: Seq<char>,
)
    requires
        forall|i: int| 0 <= i < gap.len() ==> is_space(#[trigger] gap[i]),
        forall|i: int| 0 <= i < space.len() ==> is_space(#[trigger] space[i]),
        forall|i: int| 0 <= i < label.len() ==> label[i] != '"',
        forall|i: int| 0 <= i < tail.len() ==> tail[i] != '"',
        digits.len() > 0,
        forall|i: int| 0 <= i < digits.len() ==> is_decimal(#[trigger] digits[i]),
        tail.len() > 0 ==> !is_decimal(tail[0]),
        forall|p: int|
            label.len() < p < (label + "(pid "@ + digits + tail).len() ==> !#[trigger] pid_at(
                label + "(pid "@ + digits + tail,
                p,
            ),
    ensures
        entry_at(
            before + entry_text(gap, space, label, digits, tail) + rest,
            before.len() as int,
        ) == Some(
            (
                label,
                digits,
                (before.len() + entry_text(gap, space, label, digits, tail).len()) as int,
            ),
        ),
{
    reveal_strlit("\"process\"");
    reveal_strlit(":");
    reveal_strlit("\"");
    reveal_strlit("(pid ");
    let entry = entry_text(gap, space, label, digits, tail);
    let s = before + entry + rest;
    let value = label + "(pid "@ + digits + tail;
    let i = before.len() as int;
    let colon = i + 9 + gap.len();
    let quote = colon + 1 + space.len();
    let a = quote + 1;
    assert(entry.len() == 9 + gap.len() + 1 + space.len() + 1 + value.len() + 1);
    assert(s.subrange(i, i + 9) =~= "\"process\""@);
    lemma_stands_at(s, i, "\"process\""@);
    assert(s.subrange(colon, colon + 1) =~= ":"@);
    lemma_stands_at(s, colon, ":"@);
    assert(s.subrange(quote, quote + 1) =~= "\""@);
    lemma_stands_at(s, quote, "\""@);
    assert(s[colon] == s.subrange(colon, colon + 1)[0]);
    assert(s[quote] == s.subrange(quote, quote + 1)[0]);
    assert forall|k: int| i + 9 <= k < colon implies is_space(#[trigger] s[k]) by {
        assert(s[k] == gap[k - i - 9]);
    }
    lemma_skip_spaces_is(s, i + 9, colon);
    assert forall|k: int| colon + 1 <= k < quote implies is_space(#[trigger] s[k]) by {
        assert(s[k] == space[k - colon - 1]);
    }
    lemma_skip_spaces_is(s, colon + 1, quote);
    assert(value_start(s, i) == Some(a));
    let from_value = s.skip(a);
    assert(s.subrange(a, a + value.len()) =~= value);
    assert(s[a + value.len()] == '"');
    assert forall|k: int| 0 <= k < value.len() implies value[k] != '"' by {
        if k < label.len() {
            assert(value[k] == label[k]);
        } else if k < label.len() + 5 {
            assert(value[k] == "(pid "@[k - label.len()]);
        } else if k < label.len() + 5 + digits.len() {
            assert(value[k] == digits[k - label.len() - 5]);
            assert(is_decimal(value[k]));
        } else {
            assert(value[k] == tail[k - label.len() - 5 - digits.len()]);
        }
    }
    assert forall|k: int| 0 <= k < value.len() implies from_value[k] != '"' by {
        assert(from_value[k] == s.subrange(a, a + value.len())[k]);
    }
    crate::text::lemma_position_is(from_value, '"', value.len() as int);
    assert(from_value.take(value.len() as int) =~= value);
    let p = label.len() as int;
    assert(value.subrange(p, p + 5) =~= "(pid "@);
    lemma_stands_at(value, p, "(pid "@);
    assert(value[p + 5] == digits[0]);
    assert(pid_at(value, p));
    lemma_last_pid_is(value, value.len() - 1, p);
    let number = value.skip(p + 5);
    assert(number =~= digits + tail);
    assert forall|k: int| 0 <= k < digits.len() implies is_decimal(#[trigger] number[k]) by {
        assert(number[k] == digits[k]);
    }
    lemma_decimal_run_is(number, digits.len() as int);
    assert(number.take(digits.len() as int) =~= digits);
    assert(value.take(p) =~= label);
}

/// Where no entry stands, the search goes on.
proof fn lemma_entries_skip(s: Seq<char>, i: int, j: int)
    requires
        0 <= i <= j <= s.len(),
        forall|k: int| i <= k < j ==> #[trigger] entry_at(s, k) is None,
    ensures
        entries_from(s, i) == entries_from(s, j),
    decreases j - i,
{
    if i < j {
        assert(entry_at(s, i) is None);
        lemma_entries_skip(s, i + 1, j);
    }
}

/// White space is skipped in the same way in what follows a place.
proof fn lemma_skip_spaces_shift(s: Seq<char>, at: int, i: int)
    requires
        0 <= at <= s.len(),
        0 <= i,
    ensures
        skip_spaces(s, at + i) == at + skip_spaces(s.skip(at), i),
    decreases s.len() - i,
{
    if i < s.skip(at).len() && is_space(s.skip(at)[i]) {
        lemma_skip_spaces_shift(s, at, i + 1);
    }
}

/// An entry is found in the same way in what follows a place.
proof fn lemma_entry_shift(s: Seq<char>, at: int, i: int)
    requires
        0 <= at <= s.len(),
        0 <= i,
    ensures
        match entry_at(s.skip(at), i) {
            Some((label, digits, end)) => entry_at(s, at + i) == Some((label, digits, at + end)),
            None => entry_at(s, at + i) is None,
        },
{
    let t = s.skip(at);
    let colon = skip_spaces(t, i + 9);
    let quote = skip_spaces(t, colon + 1);
    lemma_skip_spaces(t, i + 9);
    lemma_skip_spaces(t, colon + 1);
    lemma_skip_spaces_shift(s, at, i + 9);
    lemma_skip_spaces_shift(s, at, colon + 1);
    assert(at + i + 9 == at + (i + 9));
    assert(at + colon + 1 == at + (colon + 1));
    assert forall|j: int, p: Seq<char>| 0 <= j implies #[trigger] stands_at(t, j, p)
        == stands_at(s, at + j, p) by {
        if j <= t.len() {
            assert(t.skip(j) =~= s.skip(at + j));
        }
    }
    assert(stands_at(t, i, "\"process\""@) == stands_at(s, at + i, "\"process\""@));
    assert(stands_at(t, colon, ":"@) == stands_at(s, at + colon, ":"@));
    assert(stands_at(t, quote, "\""@) == stands_at(s, at + quote, "\""@));
    if let Some(a) = value_start(t, i) {
        assert(value_start(s, at + i) == Some(at + a));
        reveal_strlit("\"");
        assert(t.skip(a) =~= s.skip(at + a));
    }
}

/// Entries are found in the same way in what follows a place.
proof fn lemma_entries_shift(s: Seq<char>, at: int, i: int)
    requires
        0 <= at <= s.len(),
        0 <= i,
    ensures
        entries_from(s, at + i) == entries_from(s.skip(at), i),
    decreases s.len() - i,
{
    let t = s.skip(at);
    if i < t.len() {
        lemma_entry_shift(s, at, i);
        lemma_entry_advances(t, i);
        match entry_at(t, i) {
            Some((label, digits, end)) => {
                lemma_entries_shift(s, at, end);
            },
            None => {
                lemma_entries_shift(s, at, i + 1);
                assert(at + i + 1 == at + (i + 1));
            },
        }
    }
}

/// Every process entry of a report is found: where a text that holds none is
/// followed by an entry and by more text, the entry's label and number come
/// first, and then the entries of what follows.
pub proof fn law_entry_found(
    before: Seq<char>,
    gap: Seq<char>,
    space: Seq<char>,
    label: Seq<char>,
    digits: Seq<char>,
    tail: Seq<char>,
    rest: Seq<char>,
)
    requires
        forall|i: int|
            0 <= i < before.len() ==> #[trigger] entry_at(
                before + entry_text(gap, space, label, digits, tail) + rest,
                i,
            ) is None,
        forall|i: int| 0 <= i < gap.len() ==> is_space(#[trigger] gap[i]),
        forall|i: int| 0 <= i < space.len() ==> is_space(#[trigger] space[i]),
        forall|i: int| 0 <= i < label.len() ==> label[i] != '"',
        forall|i: int| 0 <= i < tail.len() ==> tail[i] != '"',
        digits.len() > 0,
        forall|i: int| 0 <= i < digits.len() ==> is_decimal(#[trigger] digits[i]),
        tail.len() > 0 ==> !is_decimal(tail[0]),
        forall|p: int|
            label.len() < p < (label + "(pid "@ + digits + tail).len() ==> !#[trigger] pid_at(
                label + "(pid "@ + digits + tail,
                p,
            ),
    ensures
        entries_from(before + entry_text(gap, space, label, digits, tail) + rest, 0) == seq![
            (label, digits),
        ] + entries_from(rest, 0),
{
    let entry = entry_text(gap, space, label, digits, tail);
    let s = before + entry + rest;
    let i = before.len() as int;
    let end = i + entry.len();
    lemma_entry_at(before, gap, space, label, digits, tail, rest);
    lemma_entries_skip(s, 0, i);
    lemma_entry_advances(s, i);
    lemma_entries_shift(s, end, 0);
    assert(s.skip(end) =~= rest);
}

/// The entries come one after the other: those of a first part, and then
/// those of a second one.
pub proof fn law_entries_in_order(
    names: Map<i32, Seq<char>>,
    first: Seq<(Seq<char>, Seq<char>)>,
    second: Seq<(Seq<char>, Seq<char>)>,
)
    ensures
        with_entries(names, first + second) == with_entries(with_entries(names, first), second),
    decreases second.len(),
{
    let all = first + second;
    if second.len() == 0 {
        assert(all =~= first);
    } else {
        law_entries_in_order(names, first, second.drop_last());
        assert(all.drop_last() =~= first + second.drop_last());
        assert(all.last() == second.last());
    }
}

/// A process that no entry gives a name keeps the one it had.
pub proof fn law_other_names_stay(
    names: Map<i32, Seq<char>>,
    entries: Seq<(Seq<char>, Seq<char>)>,
    pid: i32,
)
    requires
        forall|i: int|
            0 <= i < entries.len() ==> parsed_i32((#[trigger] entries[i]).1) != Ok::<
                i32,
                crate::number::ParseIntError,
            >(pid),
    ensures
        with_entries(names, entries).dom().contains(pid) == names.dom().contains(pid),
        names.dom().contains(pid) ==> with_entries(names, entries)[pid] == names[pid],
    decreases entries.len(),
{
    if entries.len() > 0 {
        let earlier = entries.drop_last();
        assert forall|i: int| 0 <= i < earlier.len() implies parsed_i32((#[trigger] earlier[i]).1)
            != Ok::<i32, crate::number::ParseIntError>(pid) by {
            assert(earlier[i] == entries[i]);
        }
        law_other_names_stay(names, earlier, pid);
        assert(parsed_i32(entries.last().1) != Ok::<i32, crate::number::ParseIntError>(pid));
    }
}

/// A process is named after the last of its entries: where an entry gives a
/// process number and a name, and no later entry is about that process, that
/// is the name in the end.
pub proof fn law_process_is_named(
    names: Map<i32, Seq<char>>,
    before: Seq<(Seq<char>, Seq<char>)>,
    label: Seq<char>,
    digits: Seq<char>,
    after: Seq<(Seq<char>, Seq<char>)>,
    pid: i32,
    name: Seq<char>,
)
    requires
        parsed_i32(digits) == Ok::<i32, crate::number::ParseIntError>(pid),
        friendly(trimmed(label)) == Some(name),
        forall|i: int|
            0 <= i < after.len() ==> parsed_i32((#[trigger] after[i]).1) != Ok::<
                i32,
                crate::number::ParseIntError,
            >(pid),
    ensures
        with_entries(names, before.push((label, digits)) + after).dom().contains(pid),
        with_entries(names, before.push((label, digits)) + after)[pid] == name,
{
    let entries = before.push((label, digits));
    law_entries_in_order(names, entries, after);
    assert(entries.drop_last() =~= before);
    law_other_names_stay(with_entries(names, entries), after, pid);
}

/// A report names a process: where an entry with a label and a process number
/// stands in it, after a text that holds no entry, and no later entry is about
/// that process, the process has the readable name of the label in the end.
pub proof fn law_report_names_process(
    names: Map<i32, Seq<char>>,
    before: Seq<char>,
    label: Seq<char>,
    pid: i32,
    tail: Seq<char>,
    rest: Seq<char>,
    name: Seq<char>,
)
    requires
        pid >= 0,
        friendly(trimmed(label)) == Some(name),
        forall|i: int|
            0 <= i < before.len() ==> #[trigger] entry_at(
                before + entry_text(""@, ""@, label, signed_decimal(pid as int), tail) + rest,
                i,
            ) is None,
        forall|i: int| 0 <= i < label.len() ==> label[i] != '"',
        forall|i: int| 0 <= i < tail.len() ==> tail[i] != '"',
        tail.len() > 0 ==> !is_decimal(tail[0]),
        forall|p: int|
            label.len() < p < (label + "(pid "@ + signed_decimal(pid as int) + tail).len()
                ==> !#[trigger] pid_at(label + "(pid "@ + signed_decimal(pid as int) + tail, p),
        forall|i: int|
            0 <= i < entries_from(rest, 0).len() ==> parsed_i32(
                (#[trigger] entries_from(rest, 0)[i]).1,
            ) != Ok::<i32, crate::number::ParseIntError>(pid),
    ensures
        ({
            let report = before + entry_text(
                ""@,
                ""@,
                label,
                signed_decimal(pid as int),
                tail,
            ) + rest;
            let all = with_entries(names, entries_from(report, 0));
            all.dom().contains(pid) && all[pid] == name
        }),
{
    let digits = signed_decimal(pid as int);
    reveal_strlit("");
    lemma_decimal(pid as nat);
    law_signed_round_trip(pid);
    law_entry_found(before, ""@, ""@, label, digits, tail, rest);
    let none = Seq::<(Seq<char>, Seq<char>)>::empty();
    law_process_is_named(names, none, label, digits, entries_from(rest, 0), pid, name);
    assert(none.push((label, digits)) =~= seq![(label, digits)]);
}

/// Whether an entry gives a process a name.
pub open spec fn gives_name(entry: (Seq<char>, Seq<char>), pid: i32) -> bool {
    parsed_i32(entry.1) == Ok::<i32, crate::number::ParseIntError>(pid) && friendly(
        trimmed(entry.0),
    ) is Some
}

/// Whether two maps say the same of a process.
spec fn agree(one: Map<i32, Seq<char>>, other: Map<i32, Seq<char>>, pid: i32) -> bool {
    &&& one.dom().contains(pid) == other.dom().contains(pid)
    &&& one.dom().contains(pid) ==> one[pid] == other[pid]
}

/// What the entries say of a process does not depend on what was known of it
/// where one of them names it; otherwise what was known stays.
proof fn lemma_entries_decide(
    one: Map<i32, Seq<char>>,
    other: Map<i32, Seq<char>>,
    entries: Seq<(Seq<char>, Seq<char>)>,
    pid: i32,
)
    ensures
        (exists|i: int| 0 <= i < entries.len() && gives_name(#[trigger] entries[i], pid)) ==> agree(
            with_entries(one, entries),
            with_entries(other, entries),
            pid,
        ),
        !(exists|i: int| 0 <= i < entries.len() && gives_name(#[trigger] entries[i], pid))
            ==> agree(with_entries(one, entries), one, pid),
    decreases entries.len(),
{
    if entries.len() > 0 {
        let earlier = entries.drop_last();
        lemma_entries_decide(one, other, earlier, pid);
        if gives_name(entries.last(), pid) {
            assert(gives_name(entries[entries.len() - 1], pid));
        } else if exists|i: int| 0 <= i < entries.len() && gives_name(#[trigger] entries[i], pid) {
            let i = choose|i: int|
                0 <= i < entries.len() && gives_name(#[trigger] entries[i], pid);
            assert(gives_name(earlier[i], pid));
        } else {
            assert forall|i: int| 0 <= i < earlier.len() implies !gives_name(
                #[trigger] earlier[i],
                pid,
            ) by {
                assert(earlier[i] == entries[i]);
            }
        }
    }
}

/// A report that is read twice gives the same names as one that is read once.
pub proof fn law_report_read_twice(
    names: Map<i32, Seq<char>>,
    entries: Seq<(Seq<char>, Seq<char>)>,
)
    ensures
        with_entries(with_entries(names, entries), entries) == with_entries(names, entries),
{
    let once = with_entries(names, entries);
    let twice = with_entries(once, entries);
    assert forall|pid: i32| agree(twice, once, pid) by {
        lemma_entries_decide(once, names, entries, pid);
    }
    assert forall|pid: i32| twice.dom().contains(pid) == once.dom().contains(pid) by {
        assert(agree(twice, once, pid));
    }
    assert forall|pid: i32| #[trigger] once.dom().contains(pid) implies twice[pid] == once[pid] by {
        assert(agree(twice, once, pid));
    }
    assert(twice =~= once);
}

/// Whether an entry that begins in `s` at `i` is left open at the end of `s`:
/// nothing follows its colon, or no quote ends its value.
pub open spec fn left_open(s: Seq<char>, i: int) -> bool {
    let colon = skip_spaces(s, i + 9);
    let quote = skip_spaces(s, colon + 1);
    &&& stands_at(s, i, "\"process\""@)
    &&& stands_at(s, colon, ":"@)
    &&& quote == s.len() || (stands_at(s, quote, "\""@) && quote + 1 + position(
        s.skip(quote + 1),
        '"',
    ) == s.len())
}

/// White space is skipped within the text.
proof fn lemma_skip_spaces_within(s: Seq<char>, i: int)
    requires
        0 <= i <= s.len(),
    ensures
        i <= skip_spaces(s, i) <= s.len(),
        skip_spaces(s, i) < s.len() ==> !is_space(s[skip_spaces(s, i)]),
        forall|k: int| i <= k < skip_spaces(s, i) ==> is_space(#[trigger] s[k]),
    decreases s.len() - i,
{
    if i < s.len() && is_space(s[i]) {
        lemma_skip_spaces_within(s, i + 1);
    }
}

/// White space in a first text is skipped in the same way where a second one
/// follows in a line of its own; white space that goes up to the end of the
/// first one goes on in the second one.
proof fn lemma_skip_spaces_row(first: Seq<char>, second: Seq<char>, i: int)
    requires
        0 <= i <= first.len(),
    ensures
        ({
            let s = first + "\n"@ + second;
            let end = skip_spaces(first, i);
            if end < first.len() {
                skip_spaces(s, i) == end
            } else {
                skip_spaces(s, i) == first.len() + 1 + skip_spaces(second, 0)
            }
        }),
    decreases first.len() - i,
{
    reveal_strlit("\n");
    let s = first + "\n"@ + second;
    let n = first.len() as int;
    if i == n {
        assert(s[n] == '\n');
        lemma_skip_spaces_shift(s, n + 1, 0);
        assert(s.skip(n + 1) =~= second);
    } else {
        assert(s[i] == first[i]);
        if is_space(first[i]) {
            lemma_skip_spaces_row(first, second, i + 1);
        }
    }
}

/// What stands in a first text stands there where a second one follows in a
/// line of its own, and nothing that holds no line feed goes across.
proof fn lemma_stands_row(first: Seq<char>, second: Seq<char>, i: int, p: Seq<char>)
    requires
        0 <= i < first.len(),
        !p.contains('\n'),
    ensures
        stands_at(first + "\n"@ + second, i, p) == stands_at(first, i, p),
{
    reveal_strlit("\n");
    let s = first + "\n"@ + second;
    let n = first.len() as int;
    if i + p.len() <= n {
        assert(s.skip(i).take(p.len() as int) =~= first.skip(i).take(p.len() as int));
    } else if stands_at(s, i, p) {
        assert(s.skip(i).take(p.len() as int)[n - i] == s[n]);
        assert(p[n - i] == '\n');
    }
}

/// An entry of a first text is found in the same way where a second one
/// follows in a line of its own.
proof fn lemma_entry_row(first: Seq<char>, second: Seq<char>, i: int)
    requires
        0 <= i < first.len(),
        !left_open(first, i),
        !stands_at(second, skip_spaces(second, 0), ":"@),
    ensures
        entry_at(first + "\n"@ + second, i) == entry_at(first, i),
{
    reveal_strlit("\"process\"");
    reveal_strlit(":");
    reveal_strlit("\"");
    reveal_strlit("\n");
    let s = first + "\n"@ + second;
    let n = first.len() as int;
    lemma_stands_row(first, second, i, "\"process\""@);
    if stands_at(first, i, "\"process\""@) {
        let colon = skip_spaces(first, i + 9);
        lemma_skip_spaces_within(first, i + 9);
        lemma_skip_spaces_row(first, second, i + 9);
        if colon == n {
            let at = skip_spaces(second, 0);
            lemma_skip_spaces_within(second, 0);
            assert(s.skip(n + 1 + at) =~= second.skip(at));
            assert(!stands_at(s, n + 1 + at, ":"@));
            assert(first.skip(n).len() == 0);
        } else {
            lemma_stands_row(first, second, colon, ":"@);
            if stands_at(first, colon, ":"@) {
                let quote = skip_spaces(first, colon + 1);
                lemma_skip_spaces_within(first, colon + 1);
                lemma_skip_spaces_row(first, second, colon + 1);
                lemma_stands_row(first, second, quote, "\""@);
                if stands_at(first, quote, "\""@) {
                    let a = quote + 1;
                    let k = position(first.skip(a), '"');
                    crate::text::lemma_position(first.skip(a), '"');
                    assert(a + k < n);
                    assert forall|j: int| 0 <= j < k implies s.skip(a)[j] != '"' by {
                        assert(s.skip(a)[j] == first.skip(a)[j]);
                    }
                    assert(s.skip(a)[k] == first.skip(a)[k]);
                    crate::text::lemma_position_is(s.skip(a), '"', k);
                    assert(s.skip(a).take(k) =~= first.skip(a).take(k));
                }
            }
        }
    }
}

/// The entries of a first text from a place on come before those of a second
/// one that follows in a line of its own.
proof fn lemma_entries_row(first: Seq<char>, second: Seq<char>, i: int)
    requires
        0 <= i <= first.len(),
        forall|k: int| 0 <= k < first.len() ==> !#[trigger] left_open(first, k),
        !stands_at(second, skip_spaces(second, 0), ":"@),
    ensures
        entries_from(first + "\n"@ + second, i) == entries_from(first, i) + entries_from(
            second,
            0,
        ),
    decreases first.len() - i,
{
    let s = first + "\n"@ + second;
    let n = first.len() as int;
    if i == n {
        reveal_strlit("\n");
        reveal_strlit("\"process\"");
        assert(s[n] == '\n');
        assert(entry_at(s, n) is None) by {
            if stands_at(s, n, "\"process\""@) {
                assert(s.skip(n).take(9)[0] == s[n]);
            }
        }
        lemma_entries_shift(s, n + 1, 0);
        assert(s.skip(n + 1) =~= second);
        assert(entries_from(s, n) == entries_from(second, 0));
        assert(entries_from(first, n) + entries_from(second, 0) =~= entries_from(second, 0));
    } else {
        assert(!left_open(first, i));
        lemma_entry_row(first, second, i);
        lemma_entry_advances(first, i);
        match entry_at(first, i) {
            Some((label, digits, end)) => {
                lemma_entries_row(first, second, end);
                assert(seq![(label, digits)] + entries_from(first, end) + entries_from(second, 0)
                    =~= seq![(label, digits)] + (entries_from(first, end) + entries_from(
                    second,
                    0,
                )));
            },
            None => {
                lemma_entries_row(first, second, i + 1);
            },
        }
    }
}

/// Two texts in a row, each in lines of its own, hold the entries of the first
/// one and then those of the second one, where no entry is left open at the
/// end of the first one and the second one does not begin with a colon.
pub proof fn law_texts_in_a_row(first: Seq<char>, second: Seq<char>)
    requires
        forall|i: int| 0 <= i < first.len() ==> !#[trigger] left_open(first, i),
        !stands_at(second, skip_spaces(second, 0), ":"@),
    ensures
        entries_from(first + "\n"@ + second, 0) == entries_from(first, 0) + entries_from(second, 0),
{
    lemma_entries_row(first, second, 0);
}

/// Whether the place `k` in `s` is within a string: an odd number of quotes
/// stands before it.
pub open spec fn in_string(s: Seq<char>, k: int) -> bool
    decreases k,
{
    if k <= 0 {
        false
    } else if s[k - 1] == '"' {
        !in_string(s, k - 1)
    } else {
        in_string(s, k - 1)
    }
}

/// Whether a character can follow a string.
pub open spec fn follows_string(c: char) -> bool {
    is_space(c) || c == ',' || c == ':' || c == '}' || c == ']'
}

/// What holds of every complete JSON document whose strings hold no escapes:
/// each string is closed, white space, a comma, a colon or a closing bracket
/// follows it, and the document neither begins nor ends with a colon.
pub open spec fn is_whole_document(s: Seq<char>) -> bool {
    &&& !in_string(s, s.len() as int)
    &&& forall|k: int|
        0 <= k && k + 1 < s.len() && s[k] == '"' && #[trigger] in_string(s, k) ==> follows_string(
            s[k + 1],
        )
    &&& !stands_at(s, skip_spaces(s, 0), ":"@)
    &&& forall|k: int|
        0 <= k < s.len() && s[k] == ':' ==> #[trigger] skip_spaces(s, k + 1) < s.len()
}

/// Without a quote, no string begins or ends.
proof fn lemma_in_string_stays(s: Seq<char>, i: int, j: int)
    requires
        0 <= i <= j <= s.len(),
        forall|k: int| i <= k < j ==> s[k] != '"',
    ensures
        in_string(s, j) == in_string(s, i),
    decreases j - i,
{
    if i < j {
        lemma_in_string_stays(s, i, j - 1);
    }
}

/// A complete document leaves no entry open.
proof fn lemma_whole_document(s: Seq<char>, i: int)
    requires
        is_whole_document(s),
        0 <= i < s.len(),
    ensures
        !left_open(s, i),
{
    if left_open(s, i) {
        reveal_strlit("\"process\"");
        reveal_strlit(":");
        reveal_strlit("\"");
        let key = "\"process\""@;
        let colon = skip_spaces(s, i + 9);
        let found = s.skip(i).take(9);
        assert(found == key);
        assert(found[0] == s[i] && found[1] == s[i + 1] && found[8] == s[i + 8]);
        assert(!in_string(s, i));
        assert(in_string(s, i + 1));
        assert forall|k: int| i + 1 <= k < i + 8 implies s[k] != '"' by {
            assert(found[k - i] == s[k]);
        }
        lemma_in_string_stays(s, i + 1, i + 8);
        assert(!in_string(s, i + 9));
        lemma_skip_spaces_within(s, i + 9);
        lemma_in_string_stays(s, i + 9, colon);
        assert(s.skip(colon).take(1)[0] == s[colon]);
        let quote = skip_spaces(s, colon + 1);
        lemma_skip_spaces_within(s, colon + 1);
        lemma_in_string_stays(s, colon, quote);
        assert(quote < s.len());
        let a = quote + 1;
        assert(s.skip(quote).take(1)[0] == s[quote]);
        assert(in_string(s, a));
        crate::text::lemma_position(s.skip(a), '"');
        assert forall|k: int| a <= k < s.len() implies s[k] != '"' by {
            assert(s.skip(a)[k - a] == s[k]);
        }
        lemma_in_string_stays(s, a, s.len() as int);
    }
}

/// Two complete documents in a row, each in lines of its own, give the names
/// that each gives in turn.
pub proof fn law_documents_in_a_row(
    names: Map<i32, Seq<char>>,
    first: Seq<char>,
    second: Seq<char>,
)
    requires
        is_whole_document(first),
        is_whole_document(second),
    ensures
        with_entries(names, entries_from(first + "\n"@ + second, 0)) == with_entries(
            with_entries(names, entries_from(first, 0)),
            entries_from(second, 0),
        ),
{
    assert forall|i: int| 0 <= i < first.len() implies !#[trigger] left_open(first, i) by {
        lemma_whole_document(first, i);
    }
    law_texts_in_a_row(first, second);
    law_entries_in_order(names, entries_from(first, 0), entries_from(second, 0));
}

/// A text whose first character is another one than `w` is no web-content
/// label.
proof fn lemma_no_web_type(raw: Seq<char>)
    requires
        raw.len() == 0 || raw[0] != 'w',
    ensures
        web_parts(raw) is None,
{
    reveal_strlit("webIsolated=");
    reveal_strlit("webCOOP+COEP=");
    reveal_strlit("webServiceWorker=");
    reveal_strlit("web=");
    if raw.len() >= 4 {
        assert(raw.take(4)[0] == raw[0]);
    }
    if raw.len() >= 12 {
        assert(raw.take(12)[0] == raw[0]);
    }
    if raw.len() >= 13 {
        assert(raw.take(13)[0] == raw[0]);
    }
    if raw.len() >= 17 {
        assert(raw.take(17)[0] == raw[0]);
    }
}

/// The processes that belong to no site have names of their own: those of
/// three labels, and of every label with one of four beginnings.
pub proof fn law_known_labels(rest: Seq<char>)
    ensures
        friendly("web"@) == Some("firefox · "@ + "web content"@),
        friendly("extension"@) == Some("firefox · "@ + "extensions"@),
        friendly("privilegedabout"@) == Some("firefox · "@ + "about: pages"@),
        friendly("RDD"@ + rest) == Some("firefox · "@ + "media decoder (RDD)"@),
        friendly("Socket"@ + rest) == Some("firefox · "@ + "networking"@),
        friendly("Utility"@ + rest) == Some("firefox · "@ + "utility"@),
        friendly("prealloc"@ + rest) == Some("firefox · "@ + "preallocated content"@),
{
    reveal_strlit("web");
    reveal_strlit("extension");
    reveal_strlit("privilegedabout");
    reveal_strlit("RDD");
    reveal_strlit("Socket");
    reveal_strlit("Utility");
    reveal_strlit("prealloc");
    reveal_strlit("webIsolated=");
    reveal_strlit("webCOOP+COEP=");
    reveal_strlit("webServiceWorker=");
    reveal_strlit("web=");
    assert("web"@[0] == 'w' && "extension"@[0] == 'e' && "privilegedabout"@[0] == 'p');
    assert("privilegedabout"@[2] == 'i' && "prealloc"@[2] == 'e');
    lemma_no_web_type("extension"@);
    lemma_no_web_type("privilegedabout"@);
    let rdd = "RDD"@ + rest;
    let socket = "Socket"@ + rest;
    let utility = "Utility"@ + rest;
    let prealloc = "prealloc"@ + rest;
    assert(rdd[0] == 'R' && socket[0] == 'S' && utility[0] == 'U' && prealloc[0] == 'p');
    assert(prealloc[2] == 'e');
    lemma_no_web_type(rdd);
    lemma_no_web_type(socket);
    lemma_no_web_type(utility);
    lemma_no_web_type(prealloc);
    assert(rdd.take(3) =~= "RDD"@);
    assert(socket.take(6) =~= "Socket"@);
    assert(utility.take(7) =~= "Utility"@);
    assert(prealloc.take(8) =~= "prealloc"@);
    assert(socket.take(3)[0] == 'S');
    assert(utility.take(3)[0] == 'U' && utility.take(6)[0] == 'U');
    assert(prealloc.take(3)[0] == 'p' && prealloc.take(6)[0] == 'p' && prealloc.take(7)[0] == 'p');
}

/// Every other label keeps the process's own name.
pub proof fn law_other_labels(raw: Seq<char>)
    requires
        !begins(raw, "webIsolated="@),
        !begins(raw, "webCOOP+COEP="@),
        !begins(raw, "webServiceWorker="@),
        !begins(raw, "web="@),
        raw != "web"@,
        raw != "extension"@,
        raw != "privilegedabout"@,
        !begins(raw, "RDD"@),
        !begins(raw, "Socket"@),
        !begins(raw, "Utility"@),
        !begins(raw, "prealloc"@),
    ensures
        friendly(raw) is None,
{
}

/// A web-content label without a host keeps the process's own name.
pub proof fn law_no_host_no_name(kind: Seq<char>, address: Seq<char>)
    requires
        is_web_type(kind),
        address.len() == 0 || address[0] == '^' || is_space(address[0]),
    ensures
        friendly(kind + "="@ + address) is None,
{
    reveal_strlit("webIsolated");
    reveal_strlit("webCOOP+COEP");
    reveal_strlit("webServiceWorker");
    reveal_strlit("web");
    reveal_strlit("extension");
    reveal_strlit("privilegedabout");
    reveal_strlit("RDD");
    reveal_strlit("Socket");
    reveal_strlit("Utility");
    reveal_strlit("prealloc");
    reveal_strlit("=");
    reveal_strlit("http://");
    reveal_strlit("https://");
    let raw = kind + "="@ + address;
    lemma_web_type(kind, address);
    if address.len() >= 7 {
        assert(address.take(7)[0] == address[0]);
    }
    if address.len() >= 8 {
        assert(address.take(8)[0] == address[0]);
    }
    lemma_host_len_is(address, 0);
    assert(web_host(address) is None);
    assert(raw[0] == 'w');
    assert("extension"@[0] == 'e' && "privilegedabout"@[0] == 'p');
    assert(raw.len() > 3);
    assert(raw.take(3)[0] == 'w');
    if raw.len() >= 6 {
        assert(raw.take(6)[0] == 'w');
    }
    if raw.len() >= 7 {
        assert(raw.take(7)[0] == 'w');
    }
    if raw.len() >= 8 {
        assert(raw.take(8)[0] == 'w');
    }
}

/// Where nothing but a scheme stands in the place of a host, the scheme is the
/// name.
pub proof fn law_scheme_alone(kind: Seq<char>, scheme: Seq<char>, attributes: Seq<char>)
    requires
        is_web_type(kind),
        scheme == "http://"@ || scheme == "https://"@,
        attributes.len() == 0 || attributes[0] == '^' || is_space(attributes[0]),
    ensures
        friendly(kind + "="@ + (scheme + attributes)) == Some(
            "firefox · "@ + (if kind == "webServiceWorker"@ {
                scheme + " (service worker)"@
            } else {
                scheme
            }),
        ),
{
    reveal_strlit("http://");
    reveal_strlit("https://");
    let address = scheme + attributes;
    lemma_web_type(kind, address);
    let n = scheme.len() as int;
    assert(address.skip(n) =~= attributes);
    lemma_host_len_is(attributes, 0);
    assert forall|j: int| 0 <= j < n implies address[j] != '^' && !is_space(
        #[trigger] address[j],
    ) by {
        assert(address[j] == scheme[j]);
    }
    lemma_host_len_is(address, n);
    assert(address.take(n) =~= scheme);
    if scheme == "http://"@ {
        assert(address[4] == ':');
        if address.len() >= 8 {
            assert(address.take(8)[4] == ':');
        }
    }
}

/// An entry gives a process a name exactly where its number can be read and
/// its label has a readable name; otherwise it changes nothing.
pub proof fn law_entry_names_its_process(
    names: Map<i32, Seq<char>>,
    label: Seq<char>,
    digits: Seq<char>,
    pid: i32,
    name: Seq<char>,
)
    ensures
        parsed_i32(digits) == Ok::<i32, crate::number::ParseIntError>(pid) && friendly(
            trimmed(label),
        ) == Some(name) ==> with_entry(names, (label, digits)) == names.insert(pid, name),
        parsed_i32(digits) is Err || friendly(trimmed(label)) is None ==> with_entry(
            names,
            (label, digits),
        ) == names,
        with_entries(names, seq![(label, digits)]) == with_entry(names, (label, digits)),
        with_entries(names, Seq::empty()) == names,
{
    let one = seq![(label, digits)];
    assert(one.drop_last() =~= Seq::<(Seq<char>, Seq<char>)>::empty());
    reveal_with_fuel(with_entries, 2);
}

} // verus!
