//! The memory reports that Firefox dumps: which files they are, and what
//! names they give.

use std::collections::HashMap;

use vstd::prelude::*;

use crate::firefox::{entries_from, names_in, parse_process_labels, with_entries};
use crate::number::{
    is_digit, law_signed_round_trip, lemma_decimal, push_signed, signed_decimal,
};
use crate::text::{begins, chars_of, contains_text, ends, ends_with, starts_with, string_texts};

verus! {

broadcast use vstd::std_specs::hash::group_hash_axioms;

/// How the name of a report that the process `main_pid` dumped ends.
pub open spec fn suffix_of(main_pid: i32) -> Seq<char> {
    "-"@ + signed_decimal(main_pid as int) + ".json.gz"@
}

/// How the name of a report that the process `main_pid` dumped ends.
pub fn report_suffix(main_pid: i32) -> (r: String)
    ensures
        r@ == suffix_of(main_pid),
{
    let mut out: String = String::new();
    out.append("-");
    push_signed(&mut out, main_pid);
    out.append(".json.gz");
    assert(out@ =~= suffix_of(main_pid));
    out
}

/// Whether a file of this name is a report with this ending.
pub open spec fn is_report(name: Seq<char>, suffix: Seq<char>) -> bool {
    begins(name, "unified-memory-report-"@) && ends(name, suffix)
}

/// Whether a file of this name is a report with this ending.
pub fn is_report_name(name: &str, suffix: &str) -> (r: bool)
    ensures
        r == is_report(name@, suffix@),
{
    let name: Vec<char> = chars_of(name);
    starts_with(name.as_slice(), "unified-memory-report-") && ends_with(name.as_slice(), suffix)
}

/// The names in a directory listing that are reports with this ending, in
/// the order of the listing.
pub open spec fn reports_among(listing: Seq<Seq<char>>, suffix: Seq<char>) -> Seq<Seq<char>> {
    listing.filter(|n: Seq<char>| is_report(n, suffix))
}

/// The names that were not there before, in their order.
pub open spec fn new_among(now: Seq<Seq<char>>, before: Seq<Seq<char>>) -> Seq<Seq<char>> {
    now.filter(|n: Seq<char>| !before.contains(n))
}

/// The names in a directory listing that are reports with this ending and
/// were not there before, in their order.
pub open spec fn fresh_among(
    listing: Seq<Seq<char>>,
    suffix: Seq<char>,
    before: Seq<Seq<char>>,
) -> Seq<Seq<char>> {
    listing.filter(|n: Seq<char>| is_fresh(n, suffix, before))
}

/// The names in a directory listing that are reports with this ending, in
/// the order of the listing.
pub fn firefox_report_files(listing: &Vec<String>, suffix: &str) -> (r: Vec<String>)
    ensures
        string_texts(r@) == reports_among(string_texts(listing@), suffix@),
{
    let ghost all = string_texts(listing@);
    let ghost keep = |n: Seq<char>| is_report(n, suffix@);
    let mut out: Vec<String> = Vec::new();
    let mut i: usize = 0;
    assert(string_texts(out@) =~= all.take(0).filter(keep)) by {
        reveal(Seq::filter);
    }
    while i < listing.len()
        invariant
            i <= listing.len(),
            all == string_texts(listing@),
            keep == (|n: Seq<char>| is_report(n, suffix@)),
            string_texts(out@) == all.take(i as int).filter(keep),
        decreases listing.len() - i,
    {
        let ghost before = string_texts(out@);
        assert(all.take(i + 1).drop_last() =~= all.take(i as int));
        assert(all.take(i + 1).last() == listing@[i as int]@);
        if is_report_name(listing[i].as_str(), suffix) {
            out.push(listing[i].clone());
            assert(string_texts(out@) =~= before.push(listing@[i as int]@));
        }
        assert(string_texts(out@) == all.take(i + 1).filter(keep)) by {
            reveal(Seq::filter);
        }
        i = i + 1;
    }
    assert(all.take(i as int) =~= all);
    out
}

/// The reports of `now` that were not there `before`, in their order.
pub fn fresh_reports(before: &Vec<String>, now: &Vec<String>) -> (r: Vec<String>)
    ensures
        string_texts(r@) == new_among(string_texts(now@), string_texts(before@)),
{
    let ghost all = string_texts(now@);
    let ghost known = string_texts(before@);
    let ghost keep = |n: Seq<char>| !known.contains(n);
    let mut out: Vec<String> = Vec::new();
    let mut i: usize = 0;
    assert(string_texts(out@) =~= all.take(0).filter(keep)) by {
        reveal(Seq::filter);
    }
    while i < now.len()
        invariant
            i <= now.len(),
            all == string_texts(now@),
            known == string_texts(before@),
            keep == (|n: Seq<char>| !known.contains(n)),
            string_texts(out@) == all.take(i as int).filter(keep),
        decreases now.len() - i,
    {
        let ghost so_far = string_texts(out@);
        assert(all.take(i + 1).drop_last() =~= all.take(i as int));
        assert(all.take(i + 1).last() == now@[i as int]@);
        if !contains_text(before, now[i].as_str()) {
            out.push(now[i].clone());
            assert(string_texts(out@) =~= so_far.push(now@[i as int]@));
        }
        assert(string_texts(out@) == all.take(i + 1).filter(keep)) by {
            reveal(Seq::filter);
        }
        i = i + 1;
    }
    assert(all.take(i as int) =~= all);
    out
}

// ---------------------------------------------------------------- search
/// How long to wait for a report, in milliseconds.
pub const REPORT_WAIT: u128 = 15_000;

/// How long to wait before each look at the reports, in milliseconds.
pub const REPORT_PAUSE: u64 = 500;

/// A search for the report that a process was asked to dump.
pub struct ReportSearch {
    suffix: String,
    before: Vec<String>,
}

/// Whether a file is a report with this ending that was not there before.
pub open spec fn is_fresh(name: Seq<char>, suffix: Seq<char>, before: Seq<Seq<char>>) -> bool {
    is_report(name, suffix) && !before.contains(name)
}

/// How many milliseconds to wait before the next look, where so many went by.
pub open spec fn pause_after(elapsed: u128) -> Option<u64> {
    if elapsed < REPORT_WAIT {
        Some(REPORT_PAUSE)
    } else {
        None
    }
}

impl ReportSearch {
    /// How the name of the report ends.
    pub closed spec fn ending(&self) -> Seq<char> {
        self.suffix@
    }

    /// The reports that were there before the process was asked.
    pub closed spec fn known(&self) -> Seq<Seq<char>> {
        string_texts(self.before@)
    }

    /// A search for a report of the process `main_pid`, given the files that
    /// are there before it is asked.
    pub fn new(main_pid: i32, listing: &Vec<String>) -> (r: ReportSearch)
        ensures
            r.ending() == suffix_of(main_pid),
            r.known() == reports_among(string_texts(listing@), suffix_of(main_pid)),
    {
        let suffix: String = report_suffix(main_pid);
        let before: Vec<String> = firefox_report_files(listing, suffix.as_str());
        ReportSearch { suffix, before }
    }

    /// How many milliseconds to wait before the next look, given how many
    /// went by; `None` gives up.
    pub fn pause(&self, elapsed: u128) -> (r: Option<u64>)
        ensures
            r == pause_after(elapsed),
    {
        if elapsed < REPORT_WAIT {
            Some(REPORT_PAUSE)
        } else {
            None
        }
    }

    /// The files among those that are there now that may be the report, in
    /// their order.
    pub fn fresh(&self, listing: &Vec<String>) -> (r: Vec<String>)
        ensures
            string_texts(r@) == fresh_among(string_texts(listing@), self.ending(), self.known()),
    {
        let now: Vec<String> = firefox_report_files(listing, self.suffix.as_str());
        let out: Vec<String> = fresh_reports(&self.before, &now);
        proof {
            lemma_filter_twice(string_texts(listing@), self.ending(), self.known());
        }
        out
    }
}

/// To keep the reports, and then those that are new, is to keep the new
/// reports.
proof fn lemma_filter_twice(all: Seq<Seq<char>>, suffix: Seq<char>, before: Seq<Seq<char>>)
    ensures
        new_among(reports_among(all, suffix), before) == fresh_among(all, suffix, before),
    decreases all.len(),
{
    reveal(Seq::filter);
    let named = |n: Seq<char>| is_report(n, suffix);
    let new = |n: Seq<char>| !before.contains(n);
    if all.len() > 0 {
        lemma_filter_twice(all.drop_last(), suffix, before);
        let earlier = all.drop_last().filter(named);
        if named(all.last()) {
            assert(earlier.push(all.last()).drop_last() =~= earlier);
        }
    }
}

// --------------------------------------------------------------- reading
/// The text that `flate2::read::GzDecoder` makes of a compressed file, where
/// it can be read to its end and is text.
pub uninterp spec fn gunzipped(bytes: Seq<u8>) -> Option<Seq<char>>;

/// Whether a file has room for the header and the trailer of a compressed
/// file, and begins as one does: with the two identification bytes and the
/// number of the compression method.
pub open spec fn looks_compressed(bytes: Seq<u8>) -> bool {
    bytes.len() >= 18 && bytes[0] == 0x1f && bytes[1] == 0x8b && bytes[2] == 8
}

/// Calls `flate2::read::GzDecoder::new` on the bytes and reads the decoder to
/// its end into a string. The result depends on the bytes alone. Where there
/// is a text, the decoder has read a header of ten bytes, which begins with
/// the identification bytes and the compression method, and a trailer of
/// eight bytes. What the text is for given bytes, and that a file that is cut
/// short further on gives none, is left unsaid.
#[verifier::external_body]
fn gunzip(bytes: &[u8]) -> (r: Option<String>)
    ensures
        match r {
            Some(text) => gunzipped(bytes@) == Some(text@),
            None => gunzipped(bytes@) is None,
        },
        r is Some ==> looks_compressed(bytes@),
{
    let mut text = String::new();
    let mut decoder = flate2::read::GzDecoder::new(bytes);
    std::io::Read::read_to_string(&mut decoder, &mut text).ok().map(|_| text)
}

/// The names that a compressed report gives, where it can be read. A file
/// without room for the header and the trailer, or with another beginning,
/// cannot.
pub fn report_labels(bytes: &[u8]) -> (r: Option<HashMap<i32, String>>)
    ensures
        r is Some == gunzipped(bytes@) is Some,
        !looks_compressed(bytes@) ==> r is None,
        r matches Some(names) ==> names_in(names@) == with_entries(
            Map::empty(),
            entries_from(gunzipped(bytes@)->0, 0),
        ),
{
    match gunzip(bytes) {
        Some(json) => {
            let mut names: HashMap<i32, String> = HashMap::new();
            assert(names_in(names@) =~= Map::empty());
            parse_process_labels(json.as_str(), &mut names);
            Some(names)
        },
        None => None,
    }
}

/// Whether a report that was opened, or not, can be read.
pub open spec fn readable(report: Option<Vec<u8>>) -> bool {
    report matches Some(bytes) && gunzipped(bytes@) is Some
}

/// The first of the reports that can be read, and the names it gives. `None`
/// says to look again later.
pub fn first_readable(reports: &Vec<Option<Vec<u8>>>) -> (r: Option<(usize, HashMap<i32, String>)>)
    ensures
        match r {
            Some((i, names)) => {
                &&& i < reports@.len()
                &&& readable(reports@[i as int])
                &&& looks_compressed(reports@[i as int]->0@)
                &&& forall|j: int| 0 <= j < i ==> !readable(#[trigger] reports@[j])
                &&& names_in(names@) == with_entries(
                    Map::empty(),
                    entries_from(gunzipped(reports@[i as int]->0@)->0, 0),
                )
            },
            None => forall|j: int| 0 <= j < reports@.len() ==> !readable(#[trigger] reports@[j]),
        },
{
    let mut i: usize = 0;
    while i < reports.len()
        invariant
            i <= reports.len(),
            forall|j: int| 0 <= j < i ==> !readable(#[trigger] reports@[j]),
        decreases reports.len() - i,
    {
        if let Some(bytes) = &reports[i] {
            if let Some(names) = report_labels(bytes.as_slice()) {
                return Some((i, names));
            }
        }
        i = i + 1;
    }
    None
}

/// A report that was there before the process was asked is never taken for
/// the one that it was asked for.
pub proof fn law_old_reports_are_left_alone(
    listing: Seq<Seq<char>>,
    later: Seq<Seq<char>>,
    suffix: Seq<char>,
    name: Seq<char>,
)
    requires
        listing.contains(name),
    ensures
        !fresh_among(later, suffix, reports_among(listing, suffix)).contains(name),
{
    let named = |n: Seq<char>| is_report(n, suffix);
    let before = listing.filter(named);
    let fresh = |n: Seq<char>| is_fresh(n, suffix, before);
    let found = later.filter(fresh);
    if found.contains(name) {
        let k = choose|k: int| 0 <= k < found.len() && found[k] == name;
        later.lemma_filter_pred(fresh, k);
        let i = choose|i: int| 0 <= i < listing.len() && listing[i] == name;
        listing.lemma_filter_contains(named, i);
    }
}

/// A report of a process is known by its name, whatever stands between the
/// beginning and the process number.
pub proof fn law_report_name(middle: Seq<char>, main_pid: i32)
    ensures
        is_report("unified-memory-report-"@ + middle + suffix_of(main_pid), suffix_of(main_pid)),
{
    let front = "unified-memory-report-"@;
    let suffix = suffix_of(main_pid);
    let name = front + middle + suffix;
    assert(name.take(front.len() as int) =~= front);
    assert(name.skip(name.len() - suffix.len()) =~= suffix);
}

/// A file is a report exactly where its name begins as reports do and ends as
/// asked for.
pub proof fn law_what_is_a_report(name: Seq<char>, suffix: Seq<char>)
    ensures
        is_report(name, suffix) <==> (exists|rest: Seq<char>|
            name == #[trigger] ("unified-memory-report-"@ + rest)) && (exists|front: Seq<char>|
            name == #[trigger] (front + suffix)),
{
    crate::text::law_begins(name, "unified-memory-report-"@);
    crate::text::law_ends(name, suffix);
}

/// A report is fresh exactly where it is one and was not there before.
pub proof fn law_what_is_fresh(name: Seq<char>, suffix: Seq<char>, before: Seq<Seq<char>>)
    ensures
        is_fresh(name, suffix, before) <==> is_report(name, suffix) && !before.contains(name),
{
}

/// The name of a report ends with the number of the process that dumped it,
/// and the report of one process is never taken for that of another.
pub proof fn law_reports_of_others(name: Seq<char>, main_pid: i32, other: i32)
    requires
        main_pid >= 0,
        other >= 0,
        main_pid != other,
        is_report(name, suffix_of(other)),
    ensures
        suffix_of(main_pid) == "-"@ + signed_decimal(main_pid as int) + ".json.gz"@,
        !is_report(name, suffix_of(main_pid)),
{
    reveal_strlit("-");
    reveal_strlit(".json.gz");
    if is_report(name, suffix_of(main_pid)) {
        let a = signed_decimal(main_pid as int);
        let b = signed_decimal(other as int);
        lemma_decimal(main_pid as nat);
        lemma_decimal(other as nat);
        let sa = suffix_of(main_pid);
        let sb = suffix_of(other);
        assert(sa.len() == a.len() + 9 && sb.len() == b.len() + 9);
        let n = name.len() as int;
        assert forall|i: int| 0 <= i < sa.len() implies name[n - sa.len() + i] == #[trigger] sa[i] by {
            assert(name.skip(n - sa.len())[i] == name[n - sa.len() + i]);
        }
        assert forall|i: int| 0 <= i < sb.len() implies name[n - sb.len() + i] == #[trigger] sb[i] by {
            assert(name.skip(n - sb.len())[i] == name[n - sb.len() + i]);
        }
        if a.len() == b.len() {
            assert forall|i: int| 0 <= i < a.len() implies a[i] == b[i] by {
                assert(sa[i + 1] == a[i]);
                assert(sb[i + 1] == b[i]);
            }
            assert(a =~= b);
            law_signed_round_trip(main_pid);
            law_signed_round_trip(other);
        } else if a.len() > b.len() {
            let i = a.len() - b.len();
            assert(sb[0] == '-');
            assert(sa[i] == a[i - 1]);
            assert(is_digit(a[i - 1]));
            assert(name[n - sa.len() + i] == name[n - sb.len() + 0]);
        } else {
            let i = b.len() - a.len();
            assert(sa[0] == '-');
            assert(sb[i] == b[i - 1]);
            assert(is_digit(b[i - 1]));
            assert(name[n - sb.len() + i] == name[n - sa.len() + 0]);
        }
    }
}

/// The search looks every half second, and for fifteen seconds.
pub proof fn law_search_lasts(elapsed: u128)
    ensures
        elapsed < 15_000 ==> pause_after(elapsed) == Some(500u64),
        elapsed >= 15_000 ==> pause_after(elapsed) is None,
{
}

/// A report can be read exactly where it was opened and its bytes can be
/// decompressed.
pub proof fn law_what_is_readable(bytes: Vec<u8>)
    ensures
        readable(Some(bytes)) <==> gunzipped(bytes@) is Some,
        !readable(None),
{
}

/// Every report of the process that is there now and was not there before is
/// looked at, and nothing else is.
pub proof fn law_fresh_reports_are_found(
    listing: Seq<Seq<char>>,
    suffix: Seq<char>,
    before: Seq<Seq<char>>,
    name: Seq<char>,
)
    ensures
        fresh_among(listing, suffix, before).contains(name) <==> listing.contains(name)
            && is_report(name, suffix) && !before.contains(name),
        reports_among(listing, suffix).contains(name) <==> listing.contains(name) && is_report(
            name,
            suffix,
        ),
        new_among(listing, before).contains(name) <==> listing.contains(name) && !before.contains(
            name,
        ),
{
    lemma_filter_members(listing, |n: Seq<char>| is_fresh(n, suffix, before), name);
    lemma_filter_members(listing, |n: Seq<char>| is_report(n, suffix), name);
    lemma_filter_members(listing, |n: Seq<char>| !before.contains(n), name);
}

/// What is kept of a list are its members with the property.
proof fn lemma_filter_members(
    all: Seq<Seq<char>>,
    keep: spec_fn(Seq<char>) -> bool,
    name: Seq<char>,
)
    ensures
        all.filter(keep).contains(name) <==> all.contains(name) && keep(name),
    decreases all.len(),
{
    reveal(Seq::filter);
    if all.len() > 0 {
        let earlier = all.drop_last();
        lemma_filter_members(earlier, keep, name);
        let kept = earlier.filter(keep);
        let out = all.filter(keep);
        if out.contains(name) {
            let k = choose|k: int| 0 <= k < out.len() && out[k] == name;
            if k < kept.len() {
                assert(kept[k] == name);
                let i = choose|i: int| 0 <= i < earlier.len() && earlier[i] == name;
                assert(all[i] == name);
            } else {
                assert(all[all.len() - 1] == name);
            }
        }
        if all.contains(name) && keep(name) {
            let i = choose|i: int| 0 <= i < all.len() && all[i] == name;
            if i < earlier.len() {
                assert(earlier[i] == name);
                let k = choose|k: int| 0 <= k < kept.len() && kept[k] == name;
                assert(out[k] == name);
            } else {
                assert(out[kept.len() as int] == name);
            }
        }
    }
}

} // verus!
