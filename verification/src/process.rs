//! Processes as `/proc` shows them, and the biggest memory consumers among
//! them.

use std::collections::HashSet;

use vstd::prelude::*;
use vstd::utf8::{decode_utf8, valid_utf8};

use crate::number::{
    decimal, is_digit, law_signed_round_trip, law_unsigned_round_trip, lemma_decimal, parse_i32,
    parse_u64, parsed_i32, parsed_u64, signed_decimal,
};
use crate::text::{
    begins, chars_of, find_beginning, first_beginning, is_space, is_word,
    law_joined_words_are_found, law_lines_cons, law_words_cons, lemma_trim_end, lines, lines_of,
    nth_word, opt_text, string_of, texts, trim, trim_end, trim_start, trimmed,
    with_newlines, without_cr, word_at, words_of,
};

verus! {

broadcast use vstd::std_specs::hash::group_hash_axioms;

// ------------------------------------------------------------ proc files
/// The process number that the name of an entry of `/proc` is, if it is one.
pub open spec fn pid_in_name(name: Seq<char>) -> Option<i32> {
    parsed_i32(name).ok()
}

/// The process number that the name of an entry of `/proc` is, if it is one.
pub fn pid_of_name(name: &str) -> (r: Option<i32>)
    ensures
        r == pid_in_name(name@),
{
    let name: Vec<char> = chars_of(name);
    parse_i32(name.as_slice()).ok()
}

/// The parent's process number in a status file: the second word of the
/// first line that begins with `PPid:`.
pub open spec fn parent_in(status: Seq<char>) -> Option<i32> {
    match first_beginning(lines_of(status), "PPid:"@) {
        Some(line) => match nth_word(line, 1) {
            Some(word) => parsed_i32(word).ok(),
            None => None,
        },
        None => None,
    }
}

/// The parent's process number in a status file.
pub fn parent_pid(status: &str) -> (r: Option<i32>)
    ensures
        r == parent_in(status@),
{
    let status: Vec<char> = chars_of(status);
    let all: Vec<&[char]> = lines(status.as_slice());
    match find_beginning(&all, "PPid:") {
        Some(line) => match word_at(line, 1) {
            Some(word) => parse_i32(word).ok(),
            None => None,
        },
        None => None,
    }
}

/// The number of resident pages in a `statm` file: its second word.
pub open spec fn pages_in(statm: Seq<char>) -> Option<u64> {
    match nth_word(statm, 1) {
        Some(word) => parsed_u64(word).ok(),
        None => None,
    }
}

/// The number of resident pages in a `statm` file.
pub fn resident_pages(statm: &str) -> (r: Option<u64>)
    ensures
        r == pages_in(statm@),
{
    let statm: Vec<char> = chars_of(statm);
    match word_at(statm.as_slice(), 1) {
        Some(word) => parse_u64(word).ok(),
        None => None,
    }
}

/// The score in an `oom_score` file; zero where there is none.
pub open spec fn score_in(file: Option<Seq<char>>) -> i32 {
    match file {
        Some(text) => match parsed_i32(trimmed(text)) {
            Ok(score) => score,
            Err(_) => 0,
        },
        None => 0,
    }
}

/// The name in a `comm` file; a question mark where there is no file.
pub open spec fn name_in(file: Option<Seq<char>>) -> Seq<char> {
    match file {
        Some(text) => trimmed(text),
        None => "?"@,
    }
}

/// `s` without the NUL characters at its end.
pub open spec fn without_nuls(s: Seq<char>) -> Seq<char>
    decreases s.len(),
{
    if s.len() > 0 && s.last() == '\0' {
        without_nuls(s.drop_last())
    } else {
        s
    }
}

/// `s` with a blank for each NUL character.
pub open spec fn blanks_for_nuls(s: Seq<char>) -> Seq<char> {
    s.map_values(
        |c: char|
            if c == '\0' {
                ' '
            } else {
                c
            },
    )
}

/// A command line in one line: the arguments, which NUL characters end, with
/// blanks between them.
pub open spec fn command_line(text: Seq<char>) -> Seq<char> {
    trimmed(blanks_for_nuls(without_nuls(text)))
}

/// A command line in one line: the arguments, which NUL characters end, with
/// blanks between them.
pub fn clean_cmdline(text: &str) -> (r: String)
    ensures
        r@ == command_line(text@),
{
    let all: Vec<char> = chars_of(text);
    let mut end: usize = all.len();
    assert(all@.take(end as int) =~= all@);
    while end > 0 && all[end - 1] == '\0'
        invariant
            end <= all.len(),
            without_nuls(all@.take(end as int)) == without_nuls(all@),
        decreases end,
    {
        assert(all@.take(end as int).drop_last() =~= all@.take(end - 1));
        end = end - 1;
    }
    let ghost kept = all@.take(end as int);
    assert(without_nuls(kept) == kept);
    let mut out: Vec<char> = Vec::new();
    let mut i: usize = 0;
    while i < end
        invariant
            i <= end <= all.len(),
            kept == all@.take(end as int),
            out@ == blanks_for_nuls(kept).take(i as int),
        decreases end - i,
    {
        let c: char = if all[i] == '\0' {
            ' '
        } else {
            all[i]
        };
        out.push(c);
        assert(out@ =~= blanks_for_nuls(kept).take(i + 1));
        i = i + 1;
    }
    assert(out@ =~= blanks_for_nuls(kept));
    string_of(trim(out.as_slice()))
}

/// The text that `String::from_utf8_lossy` makes of bytes.
pub uninterp spec fn utf8_lossy(bytes: Seq<u8>) -> Seq<char>;

/// Calls `String::from_utf8_lossy`, which reads bytes as UTF-8 and puts
/// replacement characters for what is none. Bytes that are UTF-8 are read as
/// what they encode. Which characters come of other bytes depends on the
/// bytes alone, and is left unsaid.
#[verifier::external_body]
fn decode_lossy(bytes: &[u8]) -> (r: String)
    ensures
        r@ == utf8_lossy(bytes@),
        valid_utf8(bytes@) ==> r@ == decode_utf8(bytes@),
{
    String::from_utf8_lossy(bytes).into_owned()
}

// ------------------------------------------------------------ candidates
/// What was read of a process: the files `cmdline`, `statm`, `oom_score` and
/// `comm`, as far as they could be read.
pub struct RawProcess {
    pub pid: i32,
    pub cmdline: Option<Vec<u8>>,
    pub statm: Option<String>,
    pub oom_score: Option<String>,
    pub comm: Option<String>,
}

/// A process that may be killed.
pub struct Candidate {
    pub pid: i32,
    pub comm: String,
    pub cmdline: String,
    pub rss_bytes: u64,
    pub oom_score: i32,
}

/// A candidate, with its texts as sequences of characters.
pub struct CandidateView {
    pub pid: i32,
    pub comm: Seq<char>,
    pub cmdline: Seq<char>,
    pub rss_bytes: u64,
    pub oom_score: i32,
}

impl View for Candidate {
    type V = CandidateView;

    open spec fn view(&self) -> CandidateView {
        CandidateView {
            pid: self.pid,
            comm: self.comm@,
            cmdline: self.cmdline@,
            rss_bytes: self.rss_bytes,
            oom_score: self.oom_score,
        }
    }
}

/// The candidates that a list holds.
pub open spec fn views(v: Seq<Candidate>) -> Seq<CandidateView> {
    v.map_values(|c: Candidate| c@)
}

/// Whether a process may be a candidate: not this program, not the first
/// process, and within the set of processes where there is one.
pub open spec fn may_be_listed(pid: i32, self_pid: i32, within: Option<Set<i32>>) -> bool {
    &&& pid != self_pid
    &&& pid != 1
    &&& within matches Some(set) ==> set.contains(pid)
}

/// The set that an optional hash set holds.
pub open spec fn opt_set(set: Option<&HashSet<i32>>) -> Option<Set<i32>> {
    match set {
        Some(s) => Some(s@),
        None => None,
    }
}

/// Whether a process may be a candidate.
pub fn is_eligible(pid: i32, self_pid: i32, within: Option<&HashSet<i32>>) -> (r: bool)
    ensures
        r == may_be_listed(pid, self_pid, opt_set(within)),
{
    if pid == self_pid || pid == 1 {
        return false;
    }
    match within {
        Some(set) => set.contains(&pid),
        None => true,
    }
}

/// Whether a process has a command line. Kernel threads have an empty one,
/// and a process that vanished has none: neither is listed.
pub open spec fn has_cmdline(raw: RawProcess) -> bool {
    raw.cmdline matches Some(bytes) && bytes@.len() > 0
}

/// The text of bytes that ought to be UTF-8.
pub open spec fn text_of_bytes(bytes: Seq<u8>) -> Seq<char> {
    if valid_utf8(bytes) {
        decode_utf8(bytes)
    } else {
        utf8_lossy(bytes)
    }
}

/// The command line of a process.
pub open spec fn cmdline_of(raw: RawProcess) -> Option<Seq<char>> {
    if has_cmdline(raw) {
        Some(command_line(text_of_bytes(raw.cmdline->0@)))
    } else {
        None
    }
}

/// The number of resident pages of a process.
pub open spec fn pages_of(raw: RawProcess) -> Option<u64> {
    match raw.statm {
        Some(text) => pages_in(text@),
        None => None,
    }
}

/// Whether the resident size of a process that has a command line is a
/// number of bytes of at most 64 bits.
pub open spec fn size_fits(raw: RawProcess, page_size: u64) -> bool {
    has_cmdline(raw) ==> (pages_of(raw) matches Some(pages) ==> pages * page_size <= u64::MAX)
}

/// The candidate that a process is, if it is one.
pub open spec fn candidate_of(raw: RawProcess, page_size: u64) -> Option<CandidateView> {
    match (cmdline_of(raw), pages_of(raw)) {
        (Some(cmdline), Some(pages)) => Some(
            CandidateView {
                pid: raw.pid,
                comm: name_in(opt_text(raw.comm)),
                cmdline,
                rss_bytes: (pages * page_size) as u64,
                oom_score: score_in(opt_text(raw.oom_score)),
            },
        ),
        _ => None,
    }
}

/// The candidates among the processes, in their order.
pub open spec fn candidates_of(
    raws: Seq<RawProcess>,
    page_size: u64,
    self_pid: i32,
    within: Option<Set<i32>>,
) -> Seq<CandidateView>
    decreases raws.len(),
{
    if raws.len() == 0 {
        Seq::empty()
    } else {
        let earlier = candidates_of(raws.drop_last(), page_size, self_pid, within);
        if may_be_listed(raws.last().pid, self_pid, within) {
            match candidate_of(raws.last(), page_size) {
                Some(c) => earlier.push(c),
                None => earlier,
            }
        } else {
            earlier
        }
    }
}

/// Whether the resident size of a process that has a command line is a
/// number of bytes of at most 64 bits.
pub fn rss_fits(raw: &RawProcess, page_size: u64) -> (r: bool)
    ensures
        r == size_fits(*raw, page_size),
{
    if let Some(bytes) = &raw.cmdline {
        if bytes.len() > 0 {
            if let Some(text) = &raw.statm {
                if let Some(pages) = resident_pages(text.as_str()) {
                    return pages.checked_mul(page_size).is_some();
                }
            }
        }
    }
    true
}

/// The candidate that a process is, if it is one.
pub fn candidate(raw: &RawProcess, page_size: u64) -> (r: Option<Candidate>)
    requires
        size_fits(*raw, page_size),
    ensures
        match r {
            Some(c) => candidate_of(*raw, page_size) == Some(c@),
            None => candidate_of(*raw, page_size) is None,
        },
{
    let cmdline: String = match &raw.cmdline {
        Some(bytes) => {
            if bytes.len() == 0 {
                return None;
            }
            let text: String = decode_lossy(bytes.as_slice());
            clean_cmdline(text.as_str())
        },
        None => {
            return None;
        },
    };
    let pages: u64 = match &raw.statm {
        Some(text) => match resident_pages(text.as_str()) {
            Some(pages) => pages,
            None => {
                return None;
            },
        },
        None => {
            return None;
        },
    };
    let oom_score: i32 = match &raw.oom_score {
        Some(text) => {
            let text: Vec<char> = chars_of(text.as_str());
            match parse_i32(trim(text.as_slice())) {
                Ok(score) => score,
                Err(_) => 0,
            }
        },
        None => 0,
    };
    let comm: String = match &raw.comm {
        Some(text) => {
            let text: Vec<char> = chars_of(text.as_str());
            string_of(trim(text.as_slice()))
        },
        None => "?".to_string(),
    };
    Some(Candidate { pid: raw.pid, comm, cmdline, rss_bytes: pages * page_size, oom_score })
}

// --------------------------------------------------------------- ranking
/// The candidates with a resident size of `size`, in their order.
pub open spec fn of_size(s: Seq<CandidateView>, size: u64) -> Seq<CandidateView> {
    s.filter(|c: CandidateView| c.rss_bytes == size)
}

/// Whether the sizes go down.
pub open spec fn descending(s: Seq<CandidateView>) -> bool {
    forall|i: int, j: int|
        #![trigger s[i], s[j]]
        0 <= i <= j < s.len() ==> s[i].rss_bytes >= s[j].rss_bytes
}

/// Whether `out` are the candidates of `input` with the biggest first, and
/// those of the same size in the order in which they came.
pub open spec fn is_ranking(input: Seq<CandidateView>, out: Seq<CandidateView>) -> bool {
    descending(out) && forall|size: u64| #[trigger] of_size(out, size) == of_size(input, size)
}

/// A sequence without anything of a size has none of that size.
proof fn lemma_of_size_empty(s: Seq<CandidateView>, size: u64)
    requires
        forall|i: int| 0 <= i < s.len() ==> (#[trigger] s[i]).rss_bytes != size,
    ensures
        of_size(s, size) == Seq::<CandidateView>::empty(),
    decreases s.len(),
{
    reveal(Seq::filter);
    if s.len() > 0 {
        assert(s.last().rss_bytes != size);
        assert forall|i: int| 0 <= i < s.drop_last().len() implies (#[trigger] s.drop_last()[i]).rss_bytes
            != size by {
            assert(s.drop_last()[i] == s[i]);
        }
        lemma_of_size_empty(s.drop_last(), size);
    }
}

/// `of_size` takes the two parts of a sequence one by one.
proof fn lemma_of_size_add(a: Seq<CandidateView>, b: Seq<CandidateView>, size: u64)
    ensures
        of_size(a + b, size) == of_size(a, size) + of_size(b, size),
{
    Seq::filter_distributes_over_add(a, b, |c: CandidateView| c.rss_bytes == size);
}

/// `of_size` keeps or drops a single candidate.
proof fn lemma_of_size_one(c: CandidateView, size: u64)
    ensures
        of_size(seq![c], size) == if c.rss_bytes == size {
            seq![c]
        } else {
            Seq::empty()
        },
{
    reveal_with_fuel(Seq::filter, 2);
    assert(seq![c].drop_last() =~= Seq::<CandidateView>::empty());
    assert(of_size(seq![c], size) =~= if c.rss_bytes == size {
        seq![c]
    } else {
        Seq::empty()
    });
}

/// A candidate that is put after those that are as big as it keeps the
/// ranking.
proof fn lemma_insert_ranked(
    input: Seq<CandidateView>,
    out: Seq<CandidateView>,
    c: CandidateView,
    at: int,
)
    requires
        is_ranking(input, out),
        0 <= at <= out.len(),
        forall|i: int| 0 <= i < at ==> (#[trigger] out[i]).rss_bytes >= c.rss_bytes,
        forall|i: int| at <= i < out.len() ==> (#[trigger] out[i]).rss_bytes < c.rss_bytes,
    ensures
        is_ranking(input.push(c), out.insert(at, c)),
{
    let new = out.insert(at, c);
    let front = out.take(at);
    let back = out.skip(at);
    assert(new =~= front + seq![c] + back);
    assert(out =~= front + back);
    assert(input.push(c) =~= input + seq![c]);
    assert forall|i: int, j: int|
        #![trigger new[i], new[j]]
        0 <= i <= j < new.len() implies new[i].rss_bytes >= new[j].rss_bytes by {
        let oi = if i < at {
            i
        } else {
            i - 1
        };
        let oj = if j < at {
            j
        } else {
            j - 1
        };
        if i != at {
            assert(new[i] == out[oi]);
        }
        if j != at {
            assert(new[j] == out[oj]);
        }
    }
    assert forall|size: u64| #[trigger] of_size(new, size) == of_size(input.push(c), size) by {
        assert(of_size(out, size) == of_size(input, size));
        lemma_of_size_add(front + seq![c], back, size);
        lemma_of_size_add(front, seq![c], size);
        lemma_of_size_add(front, back, size);
        lemma_of_size_add(input, seq![c], size);
        lemma_of_size_one(c, size);
        if size == c.rss_bytes {
            assert forall|i: int| 0 <= i < back.len() implies (#[trigger] back[i]).rss_bytes
                != size by {
                assert(back[i] == out[at + i]);
            }
            lemma_of_size_empty(back, size);
            assert(of_size(new, size) =~= of_size(input.push(c), size));
        } else {
            assert(of_size(new, size) =~= of_size(input.push(c), size));
        }
    }
}

/// Puts a candidate where its size belongs.
fn insert_ranked(out: &mut Vec<Candidate>, c: Candidate, input: Ghost<Seq<CandidateView>>)
    requires
        is_ranking(input@, views(old(out)@)),
    ensures
        is_ranking(input@.push(c@), views(final(out)@)),
{
    let ghost ranked = views(out@);
    let mut at: usize = 0;
    while at < out.len() && out[at].rss_bytes >= c.rss_bytes
        invariant
            at <= out.len(),
            ranked == views(out@),
            forall|i: int| 0 <= i < at ==> (#[trigger] ranked[i]).rss_bytes >= c.rss_bytes,
        decreases out.len() - at,
    {
        assert(ranked[at as int] == out@[at as int]@);
        at = at + 1;
    }
    proof {
        if at < out.len() {
            assert(ranked[at as int] == out@[at as int]@);
        }
        assert forall|i: int| at <= i < ranked.len() implies (#[trigger] ranked[i]).rss_bytes
            < c.rss_bytes by {
            assert(ranked[at as int].rss_bytes >= ranked[i].rss_bytes);
        }
        lemma_insert_ranked(input@, ranked, c@, at as int);
    }
    let ghost view = c@;
    out.insert(at, c);
    assert(views(out@) =~= ranked.insert(at as int, view));
}

/// The candidates of `raws`, with the biggest first and at most `top` of
/// them.
pub open spec fn is_listing(
    raws: Seq<RawProcess>,
    page_size: u64,
    self_pid: i32,
    within: Option<Set<i32>>,
    top: nat,
    listed: Seq<CandidateView>,
) -> bool {
    exists|ranked: Seq<CandidateView>|
        #![trigger is_ranking(candidates_of(raws, page_size, self_pid, within), ranked)]
        is_ranking(candidates_of(raws, page_size, self_pid, within), ranked) && listed
            == if top <= ranked.len() {
            ranked.take(top as int)
        } else {
            ranked
        }
}

/// The biggest memory consumers: the candidates of `raws`, with the biggest
/// first and at most `top` of them.
pub fn collect_candidates(
    raws: &Vec<RawProcess>,
    top: usize,
    page_size: u64,
    self_pid: i32,
    within: Option<&HashSet<i32>>,
) -> (r: Vec<Candidate>)
    requires
        forall|i: int|
            0 <= i < raws@.len() && may_be_listed(raws@[i].pid, self_pid, opt_set(within))
                ==> size_fits(#[trigger] raws@[i], page_size),
    ensures
        is_listing(raws@, page_size, self_pid, opt_set(within), top as nat, views(r@)),
{
    let ghost set = opt_set(within);
    let mut out: Vec<Candidate> = Vec::new();
    let mut i: usize = 0;
    proof {
        assert(views(out@) =~= Seq::<CandidateView>::empty());
        assert(candidates_of(raws@.take(0), page_size, self_pid, set) =~= Seq::<
            CandidateView,
        >::empty());
    }
    while i < raws.len()
        invariant
            i <= raws.len(),
            set == opt_set(within),
            forall|i: int|
                0 <= i < raws@.len() && may_be_listed(raws@[i].pid, self_pid, set) ==> size_fits(
                    #[trigger] raws@[i],
                    page_size,
                ),
            is_ranking(
                candidates_of(raws@.take(i as int), page_size, self_pid, set),
                views(out@),
            ),
        decreases raws.len() - i,
    {
        let ghost before = candidates_of(raws@.take(i as int), page_size, self_pid, set);
        assert(raws@.take(i + 1).drop_last() =~= raws@.take(i as int));
        assert(raws@.take(i + 1).last() == raws@[i as int]);
        if is_eligible(raws[i].pid, self_pid, within) {
            if let Some(c) = candidate(&raws[i], page_size) {
                insert_ranked(&mut out, c, Ghost(before));
            }
        }
        i = i + 1;
    }
    assert(raws@.take(i as int) =~= raws@);
    let ghost ranked = views(out@);
    out.truncate(top);
    assert(top <= ranked.len() ==> views(out@) =~= ranked.take(top as int));
    out
}

// --------------------------------------------------------------- cgroups
/// The process numbers in a list of lines, one in each.
pub open spec fn pids_in(all: Seq<Seq<char>>) -> Set<i32> {
    Set::new(
        |pid: i32|
            exists|i: int|
                0 <= i < all.len() && parsed_i32(trimmed(#[trigger] all[i])).ok() == Some(pid),
    )
}

/// Adds the process numbers in a `cgroup.procs` file to `out`. Lines that
/// hold none are passed over.
pub fn cgroup_pids(text: &str, out: &mut HashSet<i32>)
    ensures
        final(out)@ == old(out)@.union(pids_in(lines_of(text@))),
{
    let text: Vec<char> = chars_of(text);
    let all: Vec<&[char]> = lines(text.as_slice());
    let ghost whole = texts(all@);
    let ghost start = out@;
    let mut i: usize = 0;
    assert(out@ =~= start.union(pids_in(whole.take(0))));
    while i < all.len()
        invariant
            i <= all.len(),
            whole == texts(all@),
            out@ == start.union(pids_in(whole.take(i as int))),
        decreases all.len() - i,
    {
        let ghost seen = whole.take(i as int);
        let ghost next = whole.take(i + 1);
        let ghost before = out@;
        assert(whole[i as int] == all@[i as int]@);
        assert(next =~= seen.push(whole[i as int]));
        let parsed: Option<i32> = parse_i32(trim(all[i])).ok();
        proof {
            assert forall|pid: i32| pids_in(next).contains(pid) == (pids_in(seen).contains(pid)
                || parsed == Some(pid)) by {
                if pids_in(seen).contains(pid) {
                    let k = choose|k: int|
                        0 <= k < seen.len() && parsed_i32(trimmed(#[trigger] seen[k])).ok() == Some(
                            pid,
                        );
                    assert(next[k] == seen[k]);
                }
                if parsed == Some(pid) {
                    assert(next[i as int] == whole[i as int]);
                }
                if pids_in(next).contains(pid) {
                    let k = choose|k: int|
                        0 <= k < next.len() && parsed_i32(trimmed(#[trigger] next[k])).ok() == Some(
                            pid,
                        );
                    if k < i {
                        assert(seen[k] == next[k]);
                    }
                }
            }
        }
        if let Some(pid) = parsed {
            out.insert(pid);
        }
        assert(out@ =~= start.union(pids_in(next)));
        i = i + 1;
    }
    assert(whole.take(i as int) =~= whole);
}

// ------------------------------------------------------------------ laws
/// In descending order, what is as big as the first comes first of its size.
proof fn lemma_first_of_size(s: Seq<CandidateView>)
    requires
        s.len() > 0,
    ensures
        forall|size: u64| #[trigger]
            of_size(s, size) == (if s[0].rss_bytes == size {
                seq![s[0]]
            } else {
                Seq::empty()
            }) + of_size(s.drop_first(), size),
{
    assert forall|size: u64| #[trigger]
        of_size(s, size) == (if s[0].rss_bytes == size {
            seq![s[0]]
        } else {
            Seq::empty()
        }) + of_size(s.drop_first(), size) by {
        assert(s =~= seq![s[0]] + s.drop_first());
        lemma_of_size_add(seq![s[0]], s.drop_first(), size);
        lemma_of_size_one(s[0], size);
    }
}

/// Something of a size has a place.
proof fn lemma_of_size_member(s: Seq<CandidateView>, size: u64)
    requires
        of_size(s, size).len() > 0,
    ensures
        exists|i: int| 0 <= i < s.len() && (#[trigger] s[i]).rss_bytes == size,
{
    if forall|i: int| 0 <= i < s.len() ==> (#[trigger] s[i]).rss_bytes != size {
        lemma_of_size_empty(s, size);
    }
}

/// There is one ranking of a list of candidates and no other.
pub proof fn law_ranking_is_unique(
    input: Seq<CandidateView>,
    one: Seq<CandidateView>,
    other: Seq<CandidateView>,
)
    requires
        is_ranking(input, one),
        is_ranking(input, other),
    ensures
        one == other,
{
    assert forall|size: u64| #[trigger] of_size(one, size) == of_size(other, size) by {
        assert(of_size(one, size) == of_size(input, size));
    }
    lemma_descending_unique(one, other);
}

/// Two descending lists with the same candidates of each size are the same.
proof fn lemma_descending_unique(one: Seq<CandidateView>, other: Seq<CandidateView>)
    requires
        descending(one),
        descending(other),
        forall|size: u64| #[trigger] of_size(one, size) == of_size(other, size),
    ensures
        one == other,
    decreases one.len(),
{
    if one.len() == 0 {
        if other.len() > 0 {
            lemma_first_of_size(other);
            let size = other[0].rss_bytes;
            lemma_of_size_empty(one, size);
            assert(of_size(one, size).len() == of_size(other, size).len());
        }
        assert(one =~= other);
    } else {
        lemma_first_of_size(one);
        let size = one[0].rss_bytes;
        assert(of_size(other, size).len() > 0) by {
            assert(of_size(one, size) == of_size(other, size));
        }
        lemma_of_size_member(other, size);
        let k = choose|k: int| 0 <= k < other.len() && (#[trigger] other[k]).rss_bytes == size;
        assert(other[0].rss_bytes >= other[k].rss_bytes);
        lemma_first_of_size(other);
        let top = other[0].rss_bytes;
        assert(of_size(one, top).len() > 0) by {
            assert(of_size(one, top) == of_size(other, top));
        }
        lemma_of_size_member(one, top);
        let m = choose|m: int| 0 <= m < one.len() && (#[trigger] one[m]).rss_bytes == top;
        assert(one[0].rss_bytes >= one[m].rss_bytes);
        assert(size == top);
        assert(of_size(one, size)[0] == one[0]);
        assert(of_size(other, size)[0] == other[0]);
        assert(one[0] == other[0]);
        let a = one.drop_first();
        let b = other.drop_first();
        assert forall|s: u64| #[trigger] of_size(a, s) == of_size(b, s) by {
            assert(of_size(one, s) == of_size(other, s));
            let head = if one[0].rss_bytes == s {
                seq![one[0]]
            } else {
                Seq::empty()
            };
            assert(of_size(a, s) =~= of_size(one, s).skip(head.len() as int));
            assert(of_size(b, s) =~= of_size(other, s).skip(head.len() as int));
        }
        assert(descending(a)) by {
            assert forall|i: int, j: int|
                #![trigger a[i], a[j]]
                0 <= i <= j < a.len() implies a[i].rss_bytes >= a[j].rss_bytes by {
                assert(a[i] == one[i + 1] && a[j] == one[j + 1]);
            }
        }
        assert(descending(b)) by {
            assert forall|i: int, j: int|
                #![trigger b[i], b[j]]
                0 <= i <= j < b.len() implies b[i].rss_bytes >= b[j].rss_bytes by {
                assert(b[i] == other[i + 1] && b[j] == other[j + 1]);
            }
        }
        lemma_descending_unique(a, b);
        assert(one =~= seq![one[0]] + a);
        assert(other =~= seq![other[0]] + b);
    }
}

/// What is in a list is among those of its size, and the other way round.
proof fn lemma_of_size_contains(s: Seq<CandidateView>, c: CandidateView)
    ensures
        s.contains(c) == of_size(s, c.rss_bytes).contains(c),
    decreases s.len(),
{
    reveal(Seq::filter);
    if s.len() > 0 {
        let earlier = s.drop_last();
        lemma_of_size_contains(earlier, c);
        let keep = of_size(earlier, c.rss_bytes);
        assert(s =~= earlier.push(s.last()));
        if s.contains(c) {
            let k = choose|k: int| 0 <= k < s.len() && s[k] == c;
            if k < earlier.len() {
                assert(earlier[k] == c);
                let m = choose|m: int| 0 <= m < keep.len() && keep[m] == c;
                assert(of_size(s, c.rss_bytes)[m] == c);
            } else {
                assert(of_size(s, c.rss_bytes).last() == c);
            }
        }
        if of_size(s, c.rss_bytes).contains(c) {
            let all = of_size(s, c.rss_bytes);
            let k = choose|k: int| 0 <= k < all.len() && all[k] == c;
            if k < keep.len() {
                assert(keep[k] == c);
                let m = choose|m: int| 0 <= m < earlier.len() && earlier[m] == c;
                assert(s[m] == c);
            } else {
                assert(s.last() == c);
                assert(s[s.len() - 1] == c);
            }
        }
    }
}

/// A ranking holds the candidates that it ranks, all of them and no other.
pub proof fn law_ranking_keeps_candidates(
    input: Seq<CandidateView>,
    out: Seq<CandidateView>,
    c: CandidateView,
)
    requires
        is_ranking(input, out),
    ensures
        out.contains(c) == input.contains(c),
{
    lemma_of_size_contains(input, c);
    lemma_of_size_contains(out, c);
    assert(of_size(out, c.rss_bytes) == of_size(input, c.rss_bytes));
}

/// A candidate comes from a process that may be listed.
proof fn lemma_candidate_origin(
    raws: Seq<RawProcess>,
    page_size: u64,
    self_pid: i32,
    within: Option<Set<i32>>,
    c: CandidateView,
)
    requires
        candidates_of(raws, page_size, self_pid, within).contains(c),
    ensures
        may_be_listed(c.pid, self_pid, within),
        exists|i: int|
            0 <= i < raws.len() && candidate_of(#[trigger] raws[i], page_size) == Some(c),
    decreases raws.len(),
{
    let all = candidates_of(raws, page_size, self_pid, within);
    let earlier = candidates_of(raws.drop_last(), page_size, self_pid, within);
    let k = choose|k: int| 0 <= k < all.len() && all[k] == c;
    if k < earlier.len() {
        assert(earlier[k] == c);
        lemma_candidate_origin(raws.drop_last(), page_size, self_pid, within, c);
        let i = choose|i: int|
            0 <= i < raws.drop_last().len() && candidate_of(
                #[trigger] raws.drop_last()[i],
                page_size,
            ) == Some(c);
        assert(candidate_of(raws[i], page_size) == Some(c));
    } else {
        assert(candidate_of(raws[raws.len() - 1], page_size) == Some(c));
    }
}

/// Whatever is listed is a process that was read; it is neither this program
/// nor the first process, and it is within the set of processes where there
/// is one.
pub proof fn law_listed_may_be_listed(
    raws: Seq<RawProcess>,
    page_size: u64,
    self_pid: i32,
    within: Option<Set<i32>>,
    top: nat,
    listed: Seq<CandidateView>,
    c: CandidateView,
)
    requires
        is_listing(raws, page_size, self_pid, within, top, listed),
        listed.contains(c),
    ensures
        may_be_listed(c.pid, self_pid, within),
        exists|i: int|
            0 <= i < raws.len() && candidate_of(#[trigger] raws[i], page_size) == Some(c),
{
    let all = candidates_of(raws, page_size, self_pid, within);
    let ranked = choose|ranked: Seq<CandidateView>|
        #![trigger is_ranking(all, ranked)]
        is_ranking(all, ranked) && listed == if top <= ranked.len() {
            ranked.take(top as int)
        } else {
            ranked
        };
    let k = choose|k: int| 0 <= k < listed.len() && listed[k] == c;
    assert(ranked[k] == c);
    law_ranking_keeps_candidates(all, ranked, c);
    lemma_candidate_origin(raws, page_size, self_pid, within, c);
}

/// At most `top` candidates are listed, in descending order, and none that
/// is left out is bigger than one that is listed.
pub proof fn law_biggest_are_listed(
    raws: Seq<RawProcess>,
    page_size: u64,
    self_pid: i32,
    within: Option<Set<i32>>,
    top: nat,
    listed: Seq<CandidateView>,
    c: CandidateView,
)
    requires
        is_listing(raws, page_size, self_pid, within, top, listed),
        candidates_of(raws, page_size, self_pid, within).contains(c),
    ensures
        listed.len() <= top,
        descending(listed),
        listed.contains(c) || (listed.len() == top && forall|i: int|
            0 <= i < listed.len() ==> (#[trigger] listed[i]).rss_bytes >= c.rss_bytes),
{
    let all = candidates_of(raws, page_size, self_pid, within);
    let ranked = choose|ranked: Seq<CandidateView>|
        #![trigger is_ranking(all, ranked)]
        is_ranking(all, ranked) && listed == if top <= ranked.len() {
            ranked.take(top as int)
        } else {
            ranked
        };
    law_ranking_keeps_candidates(all, ranked, c);
    let k = choose|k: int| 0 <= k < ranked.len() && ranked[k] == c;
    if k < listed.len() {
        assert(listed[k] == c);
    } else {
        assert forall|i: int| 0 <= i < listed.len() implies (#[trigger] listed[i]).rss_bytes
            >= c.rss_bytes by {
            assert(listed[i] == ranked[i]);
            assert(ranked[i].rss_bytes >= ranked[k].rss_bytes);
        }
    }
    assert forall|i: int, j: int|
        #![trigger listed[i], listed[j]]
        0 <= i <= j < listed.len() implies listed[i].rss_bytes >= listed[j].rss_bytes by {
        assert(listed[i] == ranked[i] && listed[j] == ranked[j]);
    }
}

/// The parent is read as the kernel writes it: in a status file with a line
/// `PPid:`, a tab and a number, the number is what is read, whatever other
/// lines stand before it and whatever stands after it.
pub proof fn law_parent_is_read(pid: i32, others: Seq<Seq<char>>, rest: Seq<char>)
    requires
        forall|i: int|
            0 <= i < others.len() ==> !begins(without_cr(#[trigger] others[i]), "PPid:"@)
                && !others[i].contains('\n'),
    ensures
        parent_in(
            with_newlines(others) + (("PPid:"@.push('\t') + signed_decimal(pid as int)).push('\n')
                + rest),
        ) == Some(pid),
    decreases others.len(),
{
    let number = signed_decimal(pid as int);
    let line = "PPid:"@.push('\t') + number;
    let text = line.push('\n') + rest;
    reveal_strlit("PPid:");
    if others.len() == 0 {
        assert(with_newlines(others) + text =~= text);
        lemma_number_is_word(pid as int);
        assert forall|i: int| 0 <= i < line.len() implies line[i] != '\n' by {
            if i > 5 {
                assert(line[i] == number[i - 6]);
                assert(!is_space(number[i - 6]));
            }
        }
        law_lines_cons(line, rest);
        assert(without_cr(line) == line) by {
            assert(line.last() == number.last());
            assert(!is_space(number[number.len() - 1]));
        }
        assert(lines_of(text).first() == line);
        assert(line.take(5) =~= "PPid:"@);
        assert(is_word("PPid:"@));
        law_words_cons("PPid:"@, '\t', number);
        law_joined_words_are_found(seq![number]);
        assert(words_of(line) =~= seq!["PPid:"@, number]);
        law_signed_round_trip(pid);
    } else {
        let first = others[0];
        let more = others.drop_first();
        assert(!begins(without_cr(first), "PPid:"@) && !first.contains('\n'));
        assert forall|i: int| 0 <= i < more.len() implies !begins(
            without_cr(#[trigger] more[i]),
            "PPid:"@,
        ) && !more[i].contains('\n') by {
            assert(more[i] == others[i + 1]);
        }
        law_parent_is_read(pid, more, rest);
        let below = with_newlines(more) + text;
        assert(with_newlines(others) + text =~= first.push('\n') + below);
        law_lines_cons(first, below);
        let all = lines_of(first.push('\n') + below);
        assert(all.drop_first() =~= lines_of(below));
        assert(all.first() == without_cr(first));
    }
}

/// A number that is written down is a word.
proof fn lemma_number_is_word(n: int)
    ensures
        is_word(signed_decimal(n)),
{
    let s = signed_decimal(n);
    let d = decimal(
        (if n < 0 {
            -n
        } else {
            n
        }) as nat,
    );
    lemma_decimal(
        (if n < 0 {
            -n
        } else {
            n
        }) as nat,
    );
    assert forall|i: int| 0 <= i < s.len() implies !is_space(#[trigger] s[i]) by {
        if n < 0 {
            if i > 0 {
                assert(s[i] == d[i - 1]);
                assert(is_digit(d[i - 1]));
            }
        } else {
            assert(is_digit(d[i]));
        }
    }
}

/// The resident pages are read as the kernel writes them: the second of the
/// numbers in a `statm` file.
pub proof fn law_pages_are_read(size: u64, pages: u64, rest: Seq<char>)
    ensures
        pages_in(
            decimal(size as nat).push(' ') + (decimal(pages as nat).push(' ') + rest),
        ) == Some(pages),
{
    let a = decimal(size as nat);
    let b = decimal(pages as nat);
    let tail = b.push(' ') + rest;
    lemma_number_is_word(size as int);
    lemma_number_is_word(pages as int);
    law_words_cons(a, ' ', tail);
    law_words_cons(b, ' ', rest);
    let words = words_of(a.push(' ') + tail);
    assert(words[1] == words_of(tail)[0]);
    law_unsigned_round_trip(pages);
}

/// A command line is shown in one line: no NUL character is left in it.
pub proof fn law_command_line_has_no_nul(text: Seq<char>)
    ensures
        !command_line(text).contains('\0'),
{
    let blank = blanks_for_nuls(without_nuls(text));
    lemma_trimmed_part(blank);
    let shown = command_line(text);
    if shown.contains('\0') {
        let k = choose|k: int| 0 <= k < shown.len() && shown[k] == '\0';
        assert(blank.contains(shown[k]));
        let m = choose|m: int| 0 <= m < blank.len() && blank[m] == '\0';
        assert(blank[m] != '\0');
    }
}

/// What is trimmed holds only what was there.
proof fn lemma_trimmed_part(s: Seq<char>)
    ensures
        forall|k: int| 0 <= k < trimmed(s).len() ==> s.contains(#[trigger] trimmed(s)[k]),
{
    let t = trim_start(s);
    lemma_trim_end(t);
    lemma_trim_start_part(s);
    assert forall|k: int| 0 <= k < trimmed(s).len() implies s.contains(
        #[trigger] trimmed(s)[k],
    ) by {
        assert(trimmed(s)[k] == t[k]);
        assert(s.contains(t[k]));
    }
}

/// What is trimmed at the start holds only what was there.
proof fn lemma_trim_start_part(s: Seq<char>)
    ensures
        forall|k: int| 0 <= k < trim_start(s).len() ==> s.contains(#[trigger] trim_start(s)[k]),
    decreases s.len(),
{
    let t = trim_start(s);
    if s.len() > 0 && is_space(s.first()) {
        lemma_trim_start_part(s.drop_first());
        assert forall|k: int| 0 <= k < t.len() implies s.contains(#[trigger] t[k]) by {
            assert(s.drop_first().contains(trim_start(s.drop_first())[k]));
            let m = choose|m: int| 0 <= m < s.drop_first().len() && s.drop_first()[m] == t[k];
            assert(s[m + 1] == t[k]);
        }
    } else {
        assert forall|k: int| 0 <= k < t.len() implies s.contains(#[trigger] t[k]) by {
            assert(s[k] == t[k]);
        }
    }
}

/// Two arguments, each with a NUL after it, are shown with a blank between
/// them.
pub proof fn law_arguments_are_joined(first: Seq<char>, second: Seq<char>)
    requires
        first.len() > 0,
        second.len() > 0,
        !first.contains('\0'),
        !second.contains('\0'),
        !is_space(first[0]),
        !is_space(second.last()),
    ensures
        command_line(first.push('\0') + second.push('\0')) == first.push(' ') + second,
{
    let text = first.push('\0') + second.push('\0');
    let kept = first.push('\0') + second;
    assert(text.drop_last() =~= kept);
    assert(kept.last() == second.last());
    assert(second.contains(second[second.len() - 1]));
    assert(kept.last() != '\0');
    assert(without_nuls(kept) == kept);
    assert(without_nuls(text) == kept);
    let blank = blanks_for_nuls(kept);
    assert(blank =~= first.push(' ') + second) by {
        assert forall|i: int| 0 <= i < kept.len() implies #[trigger] blank[i] == (first.push(' ')
            + second)[i] by {
            if i < first.len() {
                assert(kept[i] == first[i]);
                assert(first.contains(first[i]));
            } else if i > first.len() {
                assert(kept[i] == second[i - first.len() - 1]);
                assert(second.contains(second[i - first.len() - 1]));
            }
        }
    }
    assert(trim_start(blank) == blank) by {
        assert(blank[0] == first[0]);
    }
    assert(trim_end(blank) == blank) by {
        assert(blank.last() == second.last());
    }
}

/// The candidates are the processes that were read, in their order, except
/// for this program, the first process, those outside of the set where there
/// is one, those without a command line, and those whose pages cannot be read.
/// Each stands there with what its files say, and its size is its pages times
/// the size of a page.
pub proof fn law_candidates_are_the_processes(
    raws: Seq<RawProcess>,
    page_size: u64,
    self_pid: i32,
    within: Option<Set<i32>>,
)
    ensures
        candidates_of(raws, page_size, self_pid, within) == raws.filter(
            |raw: RawProcess|
                raw.pid != self_pid && raw.pid != 1 && (within is Some ==> within->0.contains(raw.pid))
                    && raw.cmdline is Some && raw.cmdline->0@.len() > 0 && raw.statm is Some
                    && words_of(raw.statm->0@).len() > 1 && parsed_u64(
                    words_of(raw.statm->0@)[1],
                ) is Ok,
        ).map_values(
            |raw: RawProcess|
                CandidateView {
                    pid: raw.pid,
                    comm: if raw.comm is Some {
                        trimmed(raw.comm->0@)
                    } else {
                        "?"@
                    },
                    cmdline: command_line(
                        if valid_utf8(raw.cmdline->0@) {
                            decode_utf8(raw.cmdline->0@)
                        } else {
                            utf8_lossy(raw.cmdline->0@)
                        },
                    ),
                    rss_bytes: (parsed_u64(words_of(raw.statm->0@)[1])->Ok_0 * page_size) as u64,
                    oom_score: if raw.oom_score is Some && parsed_i32(
                        trimmed(raw.oom_score->0@),
                    ) is Ok {
                        parsed_i32(trimmed(raw.oom_score->0@))->Ok_0
                    } else {
                        0
                    },
                },
        ),
    decreases raws.len(),
{
    reveal(Seq::filter);
    let chosen = |raw: RawProcess|
                raw.pid != self_pid && raw.pid != 1 && (within is Some ==> within->0.contains(raw.pid))
                    && raw.cmdline is Some && raw.cmdline->0@.len() > 0 && raw.statm is Some
                    && words_of(raw.statm->0@).len() > 1 && parsed_u64(
                    words_of(raw.statm->0@)[1],
                ) is Ok;
    let entry = |raw: RawProcess|
                CandidateView {
                    pid: raw.pid,
                    comm: if raw.comm is Some {
                        trimmed(raw.comm->0@)
                    } else {
                        "?"@
                    },
                    cmdline: command_line(
                        if valid_utf8(raw.cmdline->0@) {
                            decode_utf8(raw.cmdline->0@)
                        } else {
                            utf8_lossy(raw.cmdline->0@)
                        },
                    ),
                    rss_bytes: (parsed_u64(words_of(raw.statm->0@)[1])->Ok_0 * page_size) as u64,
                    oom_score: if raw.oom_score is Some && parsed_i32(
                        trimmed(raw.oom_score->0@),
                    ) is Ok {
                        parsed_i32(trimmed(raw.oom_score->0@))->Ok_0
                    } else {
                        0
                    },
                };
    let all = candidates_of(raws, page_size, self_pid, within);
    if raws.len() == 0 {
        assert(all =~= raws.filter(chosen).map_values(entry));
    } else {
        law_candidates_are_the_processes(raws.drop_last(), page_size, self_pid, within);
        let last = raws.last();
        let earlier = raws.drop_last().filter(chosen);
        if chosen(last) {
            assert(candidate_of(last, page_size) == Some(entry(last)));
            assert(earlier.push(last).map_values(entry) =~= earlier.map_values(entry).push(
                entry(last),
            ));
        }
        assert(all =~= raws.filter(chosen).map_values(entry));
    }
}

/// Where a candidate of this size belongs in a ranking: after those that are
/// as big.
spec fn place_for(out: Seq<CandidateView>, size: u64) -> int
    decreases out.len(),
{
    if out.len() == 0 || out.first().rss_bytes < size {
        0
    } else {
        1 + place_for(out.drop_first(), size)
    }
}

/// A place in a ranking has the bigger ones before it and the smaller ones
/// after it.
proof fn lemma_place_for(out: Seq<CandidateView>, size: u64)
    requires
        descending(out),
    ensures
        0 <= place_for(out, size) <= out.len(),
        forall|i: int| 0 <= i < place_for(out, size) ==> (#[trigger] out[i]).rss_bytes >= size,
        forall|i: int|
            place_for(out, size) <= i < out.len() ==> (#[trigger] out[i]).rss_bytes < size,
    decreases out.len(),
{
    if out.len() > 0 {
        let rest = out.drop_first();
        if out.first().rss_bytes < size {
            assert forall|i: int| 0 <= i < out.len() implies (#[trigger] out[i]).rss_bytes
                < size by {
                assert(out[0].rss_bytes >= out[i].rss_bytes);
            }
        } else {
            assert forall|i: int, j: int|
                #![trigger rest[i], rest[j]]
                0 <= i <= j < rest.len() implies rest[i].rss_bytes >= rest[j].rss_bytes by {
                assert(rest[i] == out[i + 1] && rest[j] == out[j + 1]);
            }
            lemma_place_for(rest, size);
            let at = place_for(out, size);
            assert forall|i: int| 0 <= i < at implies (#[trigger] out[i]).rss_bytes >= size by {
                if i > 0 {
                    assert(out[i] == rest[i - 1]);
                }
            }
            assert forall|i: int| at <= i < out.len() implies (#[trigger] out[i]).rss_bytes
                < size by {
                assert(out[i] == rest[i - 1]);
            }
        }
    }
}

/// Candidates, put one by one where they belong.
spec fn ranked(input: Seq<CandidateView>) -> Seq<CandidateView>
    decreases input.len(),
{
    if input.len() == 0 {
        input
    } else {
        let earlier = ranked(input.drop_last());
        earlier.insert(place_for(earlier, input.last().rss_bytes), input.last())
    }
}

/// Candidates that are put where they belong are a ranking, with each as often
/// as it was there.
proof fn lemma_ranked(input: Seq<CandidateView>)
    ensures
        is_ranking(input, ranked(input)),
        ranked(input).to_multiset() == input.to_multiset(),
        ranked(input).len() == input.len(),
    decreases input.len(),
{
    if input.len() > 0 {
        let earlier = input.drop_last();
        let last = input.last();
        lemma_ranked(earlier);
        lemma_place_for(ranked(earlier), last.rss_bytes);
        let at = place_for(ranked(earlier), last.rss_bytes);
        lemma_insert_ranked(earlier, ranked(earlier), last, at);
        assert(earlier.push(last) =~= input);
        vstd::seq_lib::to_multiset_insert(ranked(earlier), at, last);
        vstd::seq_lib::to_multiset_build(earlier, last);
    }
}

/// A ranking keeps those of the same size in the order in which they came.
pub proof fn law_same_size_keeps_order(
    input: Seq<CandidateView>,
    out: Seq<CandidateView>,
    size: u64,
)
    requires
        is_ranking(input, out),
    ensures
        out.filter(|c: CandidateView| c.rss_bytes == size) == input.filter(
            |c: CandidateView| c.rss_bytes == size,
        ),
{
    assert(of_size(out, size) == of_size(input, size));
}

/// The listing: every candidate, as often as it was there, with the biggest
/// first, in the one ranking that there is, cut off after `top`.
pub proof fn law_listing(
    raws: Seq<RawProcess>,
    page_size: u64,
    self_pid: i32,
    within: Option<Set<i32>>,
    top: nat,
    listed: Seq<CandidateView>,
)
    requires
        is_listing(raws, page_size, self_pid, within, top, listed),
    ensures
        exists|all: Seq<CandidateView>|
            {
                let input = candidates_of(raws, page_size, self_pid, within);
                &&& #[trigger] all.to_multiset() == input.to_multiset()
                &&& all.len() == input.len()
                &&& forall|i: int, j: int|
                    #![trigger all[i], all[j]]
                    0 <= i <= j < all.len() ==> all[i].rss_bytes >= all[j].rss_bytes
                &&& is_ranking(input, all)
                &&& listed == all.take(
                    if top <= all.len() {
                        top as int
                    } else {
                        all.len() as int
                    },
                )
            },
{
    let input = candidates_of(raws, page_size, self_pid, within);
    let all = choose|all: Seq<CandidateView>|
        #![trigger is_ranking(input, all)]
        is_ranking(input, all) && listed == if top <= all.len() {
            all.take(top as int)
        } else {
            all
        };
    lemma_ranked(input);
    law_ranking_is_unique(input, all, ranked(input));
    assert(all.take(all.len() as int) =~= all);
    assert(all.to_multiset() == input.to_multiset());
}

/// Nobody is left out: a process that was read, that is neither this program
/// nor the first process, that is in the set where there is one, and that has
/// a command line and a readable number of pages, is listed with its pages
/// times the size of a page, whatever its process number. Where it is not, the
/// list is full of others that are at least as big.
pub proof fn law_every_process_is_listed(
    raws: Seq<RawProcess>,
    page_size: u64,
    self_pid: i32,
    within: Option<Set<i32>>,
    top: nat,
    listed: Seq<CandidateView>,
    i: int,
    pages: u64,
)
    requires
        is_listing(raws, page_size, self_pid, within, top, listed),
        0 <= i < raws.len(),
        raws[i].pid != self_pid,
        raws[i].pid != 1,
        within is Some ==> within->0.contains(raws[i].pid),
        raws[i].cmdline is Some,
        raws[i].cmdline->0@.len() > 0,
        raws[i].statm is Some,
        words_of(raws[i].statm->0@).len() > 1,
        parsed_u64(words_of(raws[i].statm->0@)[1]) == Ok::<u64, crate::number::ParseIntError>(
            pages,
        ),
        pages * page_size <= u64::MAX,
    ensures
        (exists|k: int|
            0 <= k < listed.len() && (#[trigger] listed[k]).pid == raws[i].pid
                && listed[k].rss_bytes == pages * page_size) || (listed.len() == top && forall|k: int|

            0 <= k < listed.len() ==> (#[trigger] listed[k]).rss_bytes >= pages * page_size),
        top >= raws.len() ==> exists|k: int|
            0 <= k < listed.len() && (#[trigger] listed[k]).pid == raws[i].pid
                && listed[k].rss_bytes == pages * page_size,
{
    let all = candidates_of(raws, page_size, self_pid, within);
    let c = candidate_of(raws[i], page_size)->0;
    lemma_candidate_is_there(raws, page_size, self_pid, within, i);
    law_biggest_are_listed(raws, page_size, self_pid, within, top, listed, c);
    if listed.contains(c) {
        let k = choose|k: int| 0 <= k < listed.len() && listed[k] == c;
        assert(listed[k].pid == raws[i].pid);
    }
    if top >= raws.len() {
        lemma_no_more_candidates(raws, page_size, self_pid, within);
        let order = choose|order: Seq<CandidateView>|
            #![trigger is_ranking(all, order)]
            is_ranking(all, order) && listed == if top <= order.len() {
                order.take(top as int)
            } else {
                order
            };
        lemma_ranked(all);
        law_ranking_is_unique(all, order, ranked(all));
        assert(listed =~= order);
        law_ranking_keeps_candidates(all, order, c);
        let k = choose|k: int| 0 <= k < listed.len() && listed[k] == c;
        assert(listed[k].pid == raws[i].pid);
    }
}

/// A process that is a candidate stands among them.
proof fn lemma_candidate_is_there(
    raws: Seq<RawProcess>,
    page_size: u64,
    self_pid: i32,
    within: Option<Set<i32>>,
    i: int,
)
    requires
        0 <= i < raws.len(),
        may_be_listed(raws[i].pid, self_pid, within),
        candidate_of(raws[i], page_size) is Some,
    ensures
        candidates_of(raws, page_size, self_pid, within).contains(
            candidate_of(raws[i], page_size)->0,
        ),
    decreases raws.len(),
{
    let earlier = raws.drop_last();
    let all = candidates_of(raws, page_size, self_pid, within);
    let before = candidates_of(earlier, page_size, self_pid, within);
    let c = candidate_of(raws[i], page_size)->0;
    if i < earlier.len() {
        assert(earlier[i] == raws[i]);
        lemma_candidate_is_there(earlier, page_size, self_pid, within, i);
        let k = choose|k: int| 0 <= k < before.len() && before[k] == c;
        assert(all[k] == c);
    } else {
        assert(all[before.len() as int] == c);
    }
}

/// There are no more candidates than processes.
proof fn lemma_no_more_candidates(
    raws: Seq<RawProcess>,
    page_size: u64,
    self_pid: i32,
    within: Option<Set<i32>>,
)
    ensures
        candidates_of(raws, page_size, self_pid, within).len() <= raws.len(),
    decreases raws.len(),
{
    if raws.len() > 0 {
        lemma_no_more_candidates(raws.drop_last(), page_size, self_pid, within);
    }
}

/// Nobody is listed who may not be: what is listed is a process that was read,
/// neither this program nor the first process, in the set where there is one,
/// with a command line, and with its pages times the size of a page.
pub proof fn law_only_processes_are_listed(
    raws: Seq<RawProcess>,
    page_size: u64,
    self_pid: i32,
    within: Option<Set<i32>>,
    top: nat,
    listed: Seq<CandidateView>,
    k: int,
)
    requires
        is_listing(raws, page_size, self_pid, within, top, listed),
        0 <= k < listed.len(),
    ensures
        listed.len() <= top,
        listed[k].pid != self_pid,
        listed[k].pid != 1,
        within is Some ==> within->0.contains(listed[k].pid),
        exists|i: int|
            0 <= i < raws.len() && (#[trigger] raws[i]).pid == listed[k].pid
                && raws[i].cmdline is Some && raws[i].cmdline->0@.len() > 0 && raws[i].statm is Some
                && words_of(raws[i].statm->0@).len() > 1 && parsed_u64(
                words_of(raws[i].statm->0@)[1],
            ) is Ok && listed[k].rss_bytes == (parsed_u64(words_of(raws[i].statm->0@)[1])->Ok_0
                * page_size) as u64,
{
    let c = listed[k];
    assert(listed.contains(c));
    law_listed_may_be_listed(raws, page_size, self_pid, within, top, listed, c);
    let i = choose|i: int|
        0 <= i < raws.len() && candidate_of(#[trigger] raws[i], page_size) == Some(c);
    assert(raws[i].pid == c.pid);
}

/// Who may be listed: everyone but this program, the first process, and those
/// outside of the set where there is one.
pub proof fn law_who_may_be_listed(pid: i32, self_pid: i32, set: Set<i32>)
    ensures
        may_be_listed(pid, self_pid, None) <==> pid != self_pid && pid != 1,
        may_be_listed(pid, self_pid, Some(set)) <==> pid != self_pid && pid != 1 && set.contains(
            pid,
        ),
{
}

/// A size is refused only where it is one: the process has a command line and
/// a number of pages, and the pages times the size of a page are too many
/// bytes.
pub proof fn law_sizes_that_fit(raw: RawProcess, page_size: u64)
    ensures
        !size_fits(raw, page_size) <==> raw.cmdline is Some && raw.cmdline->0@.len() > 0
            && raw.statm is Some && words_of(raw.statm->0@).len() > 1 && parsed_u64(
            words_of(raw.statm->0@)[1],
        ) is Ok && parsed_u64(words_of(raw.statm->0@)[1])->Ok_0 * page_size > u64::MAX,
{
}

/// Arguments, each with a NUL character after it.
pub open spec fn with_nuls(args: Seq<Seq<char>>) -> Seq<char>
    decreases args.len(),
{
    if args.len() == 0 {
        Seq::empty()
    } else {
        args.first().push('\0') + with_nuls(args.drop_first())
    }
}

/// The arguments without the last NUL character, with a blank for each other
/// one, are the arguments with blanks between them.
proof fn lemma_blanks_between(args: Seq<Seq<char>>)
    requires
        args.len() > 0,
        forall|i: int| 0 <= i < args.len() ==> !(#[trigger] args[i]).contains('\0'),
    ensures
        with_nuls(args).len() > 0,
        with_nuls(args).last() == '\0',
        args.last().len() > 0 ==> with_nuls(args).len() > 1 && with_nuls(args).drop_last().last()
            == args.last().last(),
        blanks_for_nuls(with_nuls(args).drop_last()) == crate::text::joined(args),
    decreases args.len(),
{
    let first = args[0];
    let rest = args.drop_first();
    let text = with_nuls(args);
    assert(!first.contains('\0'));
    assert(blanks_for_nuls(first) =~= first) by {
        assert forall|i: int| 0 <= i < first.len() implies first[i] != '\0' by {
            assert(first.contains(first[i]));
        }
    }
    if rest.len() == 0 {
        assert(with_nuls(rest) =~= Seq::<char>::empty());
        assert(text =~= first.push('\0'));
        assert(text.drop_last() =~= first);
        assert(args.last() == first);
    } else {
        assert forall|i: int| 0 <= i < rest.len() implies !(#[trigger] rest[i]).contains('\0') by {
            assert(rest[i] == args[i + 1]);
        }
        lemma_blanks_between(rest);
        let tail = with_nuls(rest);
        assert(text.last() == tail.last());
        assert(text.drop_last() =~= first.push('\0') + tail.drop_last());
        assert(args.last() == rest.last());
        assert(blanks_for_nuls(text.drop_last()) =~= blanks_for_nuls(first).push(' ')
            + blanks_for_nuls(tail.drop_last()));
    }
}

/// However many arguments a command line has, it is shown with blanks between
/// them.
pub proof fn law_all_arguments_are_joined(args: Seq<Seq<char>>)
    requires
        args.len() > 0,
        forall|i: int| 0 <= i < args.len() ==> !(#[trigger] args[i]).contains('\0'),
        args.first().len() > 0,
        args.last().len() > 0,
        !is_space(args.first().first()),
        !is_space(args.last().last()),
    ensures
        command_line(with_nuls(args)) == crate::text::joined(args),
{
    lemma_blanks_between(args);
    let text = with_nuls(args);
    let kept = text.drop_last();
    let shown = crate::text::joined(args);
    assert(args.contains(args[args.len() - 1]));
    assert(!args[args.len() - 1].contains('\0'));
    assert(args.last().contains(args.last().last()));
    assert(kept.last() != '\0');
    assert(without_nuls(kept) == kept);
    assert(without_nuls(text) == kept);
    assert(shown.len() == kept.len());
    assert(shown.last() == args.last().last()) by {
        assert(blanks_for_nuls(kept).last() == kept.last());
    }
    assert(shown.first() == args.first().first());
    crate::text::law_trimmed_is_the_middle(Seq::empty(), shown, Seq::empty());
    assert(Seq::<char>::empty() + shown + Seq::<char>::empty() =~= shown);
}

/// A command line without NUL characters is shown as it is, without white
/// space at either end.
pub proof fn law_plain_command_line(text: Seq<char>)
    requires
        !text.contains('\0'),
    ensures
        command_line(text) == trimmed(text),
{
    assert forall|i: int| 0 <= i < text.len() implies text[i] != '\0' by {
        assert(text.contains(text[i]));
    }
    assert(without_nuls(text) == text);
    assert(blanks_for_nuls(text) =~= text);
}

/// The processes of a cgroup are read as the kernel writes them: one number in
/// each line, all of them and no others.
pub proof fn law_cgroup_file_is_read(pids: Seq<i32>)
    ensures
        pids_in(lines_of(with_newlines(pids.map_values(|pid: i32| signed_decimal(pid as int)))))
            == pids.to_set(),
{
    let all = pids.map_values(|pid: i32| signed_decimal(pid as int));
    assert forall|i: int| 0 <= i < all.len() implies !(#[trigger] all[i]).contains('\n')
        && without_cr(all[i]) == all[i] && trimmed(all[i]) == all[i] by {
        let s = all[i];
        lemma_number_is_word(pids[i] as int);
        assert(s == signed_decimal(pids[i] as int));
        if s.contains('\n') {
            let k = choose|k: int| 0 <= k < s.len() && s[k] == '\n';
            assert(!is_space(s[k]));
        }
        assert(!is_space(s[s.len() - 1]) && !is_space(s[0]));
        crate::text::law_trimmed_is_the_middle(Seq::empty(), s, Seq::empty());
        assert(Seq::<char>::empty() + s + Seq::<char>::empty() =~= s);
    }
    crate::text::law_lines_are_found(all);
    assert forall|pid: i32| pids_in(all).contains(pid) == pids.to_set().contains(pid) by {
        if pids_in(all).contains(pid) {
            let i = choose|i: int|
                0 <= i < all.len() && parsed_i32(trimmed(#[trigger] all[i])).ok() == Some(pid);
            law_signed_round_trip(pids[i]);
            assert(pids[i] == pid);
        }
        if pids.contains(pid) {
            let i = choose|i: int| 0 <= i < pids.len() && pids[i] == pid;
            law_signed_round_trip(pid);
            assert(parsed_i32(trimmed(all[i])).ok() == Some(pid));
        }
    }
    assert(pids_in(all) =~= pids.to_set());
}

/// A line of a cgroup's file that holds a number counts, wherever it stands,
/// and one that holds none does not matter.
pub proof fn law_cgroup_lines(all: Seq<Seq<char>>, pid: i32)
    ensures
        pids_in(all).contains(pid) <==> exists|i: int|
            0 <= i < all.len() && parsed_i32(trimmed(#[trigger] all[i])) == Ok::<
                i32,
                crate::number::ParseIntError,
            >(pid),
{
    if pids_in(all).contains(pid) {
        let i = choose|i: int|
            0 <= i < all.len() && parsed_i32(trimmed(#[trigger] all[i])).ok() == Some(pid);
        assert(parsed_i32(trimmed(all[i])) == Ok::<i32, crate::number::ParseIntError>(pid));
    }
    if exists|i: int|
        0 <= i < all.len() && parsed_i32(trimmed(#[trigger] all[i])) == Ok::<
            i32,
            crate::number::ParseIntError,
        >(pid) {
        let i = choose|i: int|
            0 <= i < all.len() && parsed_i32(trimmed(#[trigger] all[i])) == Ok::<
                i32,
                crate::number::ParseIntError,
            >(pid);
        assert(parsed_i32(trimmed(all[i])).ok() == Some(pid));
    }
}

/// The pages of a process are the second word of its `statm` file, and where
/// that is no number or there is none, there are none.
pub proof fn law_pages_are_the_second_word(statm: Seq<char>)
    ensures
        words_of(statm).len() > 1 ==> pages_in(statm) == parsed_u64(words_of(statm)[1]).ok(),
        words_of(statm).len() <= 1 ==> pages_in(statm) is None,
{
}

/// A status file without a line that begins with `PPid:` names no parent.
pub proof fn law_no_parent_without_its_line(status: Seq<char>)
    requires
        forall|i: int|
            0 <= i < lines_of(status).len() ==> !begins(#[trigger] lines_of(status)[i], "PPid:"@),
    ensures
        parent_in(status) is None,
{
    crate::text::law_first_beginning(lines_of(status), "PPid:"@);
}

/// Every process number is read from the name of its entry, and a name that is
/// no number is none.
pub proof fn law_entries_name_processes(pid: i32, name: Seq<char>)
    ensures
        pid_in_name(signed_decimal(pid as int)) == Some(pid),
        pid_in_name(name) == Some(pid) <==> parsed_i32(name) == Ok::<
            i32,
            crate::number::ParseIntError,
        >(pid),
{
    law_signed_round_trip(pid);
}

/// A candidate is what its fields say.
pub proof fn law_candidate_is_its_fields(c: Candidate)
    ensures
        c@.pid == c.pid,
        c@.comm == c.comm@,
        c@.cmdline == c.cmdline@,
        c@.rss_bytes == c.rss_bytes,
        c@.oom_score == c.oom_score,
{
}

/// The views of candidates are those of each candidate, in the same order, and
/// a set of processes holds what it holds.
pub proof fn law_views_of_candidates(v: Seq<Candidate>, set: &HashSet<i32>, k: int)
    ensures
        views(v).len() == v.len(),
        0 <= k < v.len() ==> views(v)[k] == v[k]@,
        opt_set(Some(set)) == Some(set@),
        opt_set(None) is None,
{
}

} // verus!
