//! Walks up the tree of processes, and down the tree of cgroups.

use std::collections::HashSet;

use vstd::prelude::*;

use crate::process::{cgroup_pids, parent_in, parent_pid, pids_in};
use crate::text::{
    chars_of, lines_of, opt_str_text, same_text, string_texts, trim, trimmed,
};

verus! {

broadcast use vstd::std_specs::hash::group_hash_axioms;

/// How many steps a walk takes at most.
pub const MAX_STEPS: usize = 32;

/// The parent that a status file, as far as it could be read, names.
pub open spec fn parent_of(status: Option<Seq<char>>) -> Option<i32> {
    match status {
        Some(text) => parent_in(text),
        None => None,
    }
}

/// The process that a walk looks at next, where it has passed so many: the
/// parent, unless that is the first process or the walk is long enough.
pub open spec fn next_up(parent: Option<i32>, passed: nat) -> Option<i32> {
    match parent {
        Some(p) => if p > 1 && passed < MAX_STEPS {
            Some(p)
        } else {
            None
        },
        None => None,
    }
}

// ------------------------------------------------------------- ancestors
/// A walk from a process up to the first one.
pub struct AncestorWalk {
    pids: Vec<i32>,
    next: Option<i32>,
}

impl AncestorWalk {
    /// The processes that were passed.
    pub closed spec fn passed(&self) -> Seq<i32> {
        self.pids@
    }

    /// The process that comes next, if the walk goes on.
    pub closed spec fn upcoming(&self) -> Option<i32> {
        self.next
    }

    /// Whether the walk is not longer than it may be, and where it goes on
    /// it has not reached the end.
    pub open spec fn wf(&self) -> bool {
        &&& self.passed().len() <= MAX_STEPS
        &&& self.upcoming() matches Some(pid) ==> pid > 1 && self.passed().len() < MAX_STEPS
    }

    /// A walk that begins at `pid`.
    pub fn new(pid: i32) -> (r: AncestorWalk)
        ensures
            r.wf(),
            r.passed() == Seq::<i32>::empty(),
            r.upcoming() == next_up(Some(pid), 0),
    {
        AncestorWalk {
            pids: Vec::new(),
            next: if pid > 1 {
                Some(pid)
            } else {
                None
            },
        }
    }

    /// The process whose status file is to be read next; `None` at the end.
    pub fn next(&self) -> (r: Option<i32>)
        ensures
            r == self.upcoming(),
    {
        self.next
    }

    /// Goes up to the parent that the status file of the next process names.
    /// The walk ends at the first process, at a process without a parent, and
    /// after as many steps as it takes at most.
    pub fn step(&mut self, status: Option<&str>)
        requires
            old(self).wf(),
            old(self).upcoming() is Some,
        ensures
            final(self).wf(),
            final(self).passed() == old(self).passed().push(old(self).upcoming()->0),
            final(self).upcoming() == next_up(
                parent_of(opt_str_text(status)),
                old(self).passed().len() + 1,
            ),
    {
        if let Some(pid) = self.next {
            self.pids.push(pid);
        }
        let parent: Option<i32> = match status {
            Some(text) => parent_pid(text),
            None => None,
        };
        self.next = match parent {
            Some(p) => if p > 1 && self.pids.len() < MAX_STEPS {
                Some(p)
            } else {
                None
            },
            None => None,
        };
    }

    /// The processes that were passed.
    pub fn into_pids(self) -> (r: Vec<i32>)
        ensures
            r@ == self.passed(),
    {
        self.pids
    }
}

/// A process and those above it, up to the first process and `n` at most,
/// where `parent` says which process is above which.
pub open spec fn ancestors(parent: spec_fn(i32) -> Option<i32>, pid: Option<i32>, n: nat) -> Seq<
    i32,
>
    decreases n,
{
    match pid {
        Some(p) => if n > 0 && p > 1 {
            seq![p] + ancestors(parent, parent(p), (n - 1) as nat)
        } else {
            Seq::empty()
        },
        None => Seq::empty(),
    }
}

/// What a walk passes in the end: what it has passed, and what is above the
/// process that comes next.
pub open spec fn whole_walk(parent: spec_fn(i32) -> Option<i32>, walk: AncestorWalk) -> Seq<i32> {
    walk.passed() + ancestors(parent, walk.upcoming(), (MAX_STEPS - walk.passed().len()) as nat)
}

/// A new walk passes the process that it begins at and those above it.
pub proof fn law_walk_begins(parent: spec_fn(i32) -> Option<i32>, walk: AncestorWalk, pid: i32)
    requires
        walk.passed() == Seq::<i32>::empty(),
        walk.upcoming() == next_up(Some(pid), 0),
    ensures
        whole_walk(parent, walk) == ancestors(parent, Some(pid), MAX_STEPS as nat),
{
    assert(whole_walk(parent, walk) =~= ancestors(parent, Some(pid), MAX_STEPS as nat));
}

/// A step on a status file that names the right parent does not change what
/// the walk passes in the end.
pub proof fn law_walk_goes_on(
    parent: spec_fn(i32) -> Option<i32>,
    before: AncestorWalk,
    status: Option<Seq<char>>,
    after: AncestorWalk,
)
    requires
        before.wf(),
        before.upcoming() is Some,
        parent_of(status) == parent(before.upcoming()->0),
        after.passed() == before.passed().push(before.upcoming()->0),
        after.upcoming() == next_up(parent_of(status), before.passed().len() + 1),
    ensures
        whole_walk(parent, after) == whole_walk(parent, before),
{
    let pid = before.upcoming()->0;
    let left = (MAX_STEPS - before.passed().len()) as nat;
    assert(ancestors(parent, before.upcoming(), left) == seq![pid] + ancestors(
        parent,
        parent(pid),
        (left - 1) as nat,
    ));
    assert(ancestors(parent, parent(pid), (left - 1) as nat) =~= ancestors(
        parent,
        after.upcoming(),
        (left - 1) as nat,
    ));
    assert(whole_walk(parent, after) =~= whole_walk(parent, before));
}

/// A walk that has ended has passed what it passes.
pub proof fn law_walk_ends(parent: spec_fn(i32) -> Option<i32>, walk: AncestorWalk)
    requires
        walk.upcoming() is None,
    ensures
        whole_walk(parent, walk) == walk.passed(),
{
    assert(whole_walk(parent, walk) =~= walk.passed());
}

// --------------------------------------------------------------- firefox
/// What a step of the search for Firefox's main process found.
#[derive(Clone, Copy, Debug, PartialEq, Eq, Structural)]
pub enum SearchStep {
    /// this is the main process
    Found(i32),
    /// there is none
    Lost,
    /// look at this process next
    Up(i32),
}

/// A search for Firefox's main process, from one of its processes upwards.
pub struct FirefoxSearch {
    pid: i32,
    left: usize,
}

/// Whether a `comm` file, as far as it could be read, names Firefox.
pub open spec fn is_firefox_comm(comm: Option<Seq<char>>) -> bool {
    comm matches Some(text) && trimmed(text) == "firefox"@
}

/// What the search finds at a process, given what was read of it and how
/// many processes may be looked at.
pub open spec fn search_step(
    pid: i32,
    left: nat,
    comm: Option<Seq<char>>,
    status: Option<Seq<char>>,
) -> SearchStep {
    if left == 0 {
        SearchStep::Lost
    } else if is_firefox_comm(comm) {
        SearchStep::Found(pid)
    } else {
        match parent_of(status) {
            Some(p) => if p > 1 && left > 1 {
                SearchStep::Up(p)
            } else {
                SearchStep::Lost
            },
            None => SearchStep::Lost,
        }
    }
}

impl FirefoxSearch {
    /// The process that is looked at.
    pub closed spec fn at(&self) -> i32 {
        self.pid
    }

    /// How many processes may still be looked at.
    pub closed spec fn remaining(&self) -> nat {
        self.left as nat
    }

    /// A search that begins at `pid`.
    pub fn new(pid: i32) -> (r: FirefoxSearch)
        ensures
            r.at() == pid,
            r.remaining() == MAX_STEPS,
    {
        FirefoxSearch { pid, left: MAX_STEPS }
    }

    /// Looks at a process, given its `comm` and `status` files.
    pub fn step(&mut self, comm: Option<&str>, status: Option<&str>) -> (r: SearchStep)
        ensures
            r == search_step(
                old(self).at(),
                old(self).remaining(),
                opt_str_text(comm),
                opt_str_text(status),
            ),
            r matches SearchStep::Up(p) ==> final(self).at() == p && final(self).remaining()
                == old(self).remaining() - 1,
            !(r is Up) ==> *final(self) == *old(self),
    {
        if self.left == 0 {
            return SearchStep::Lost;
        }
        if let Some(text) = comm {
            let text: Vec<char> = chars_of(text);
            if same_text(trim(text.as_slice()), "firefox") {
                return SearchStep::Found(self.pid);
            }
        }
        let parent: Option<i32> = match status {
            Some(text) => parent_pid(text),
            None => None,
        };
        match parent {
            Some(p) => {
                if p > 1 && self.left > 1 {
                    self.pid = p;
                    self.left = self.left - 1;
                    SearchStep::Up(p)
                } else {
                    SearchStep::Lost
                }
            },
            None => SearchStep::Lost,
        }
    }
}

/// Firefox's main process: the first process of that name from `pid`
/// upwards, below the first process, and among the first `n`.
pub open spec fn firefox_main(
    parent: spec_fn(i32) -> Option<i32>,
    is_firefox: spec_fn(i32) -> bool,
    pid: i32,
    n: nat,
) -> Option<i32>
    decreases n,
{
    if n == 0 {
        None
    } else if is_firefox(pid) {
        Some(pid)
    } else {
        match parent(pid) {
            Some(p) => if p > 1 {
                firefox_main(parent, is_firefox, p, (n - 1) as nat)
            } else {
                None
            },
            None => None,
        }
    }
}

/// Each step of the search, on files that say what is so, finds what there
/// is to be found, or leaves the same to be found.
pub proof fn law_search_step(
    parent: spec_fn(i32) -> Option<i32>,
    is_firefox: spec_fn(i32) -> bool,
    pid: i32,
    left: nat,
    comm: Option<Seq<char>>,
    status: Option<Seq<char>>,
)
    requires
        is_firefox(pid) == is_firefox_comm(comm),
        parent(pid) == parent_of(status),
    ensures
        firefox_main(parent, is_firefox, pid, left) == match search_step(pid, left, comm, status) {
            SearchStep::Found(p) => Some(p),
            SearchStep::Lost => None,
            SearchStep::Up(p) => firefox_main(parent, is_firefox, p, (left - 1) as nat),
        },
{
    if left == 1 && !is_firefox(pid) {
        if let Some(p) = parent(pid) {
            assert(firefox_main(parent, is_firefox, p, 0) is None);
        }
    }
}

// --------------------------------------------------------------- cgroups
/// A walk through a cgroup's directory and those below it, which gathers
/// their processes.
pub struct CgroupWalk {
    left: Vec<String>,
    pids: HashSet<i32>,
}

/// A walk through cgroups, as it can be reasoned about.
#[verifier::ext_equal]
pub struct CgroupWalkView {
    /// the directories that are left; the last one comes next
    pub left: Seq<Seq<char>>,
    /// the processes that were gathered
    pub pids: Set<i32>,
}

impl View for CgroupWalk {
    type V = CgroupWalkView;

    closed spec fn view(&self) -> CgroupWalkView {
        CgroupWalkView { left: string_texts(self.left@), pids: self.pids@ }
    }
}

/// The processes that a `cgroup.procs` file, as far as it could be read,
/// lists.
pub open spec fn listed_in(procs: Option<Seq<char>>) -> Set<i32> {
    match procs {
        Some(text) => pids_in(lines_of(text)),
        None => Set::empty(),
    }
}

/// A walk that begins at the directory `dir`.
pub open spec fn walk_from(dir: Seq<char>) -> CgroupWalkView {
    CgroupWalkView { left: seq![dir], pids: Set::empty() }
}

/// The walk after the next directory, given its `cgroup.procs` file and the
/// directories below it.
pub open spec fn after_dir(
    walk: CgroupWalkView,
    procs: Option<Seq<char>>,
    below: Seq<Seq<char>>,
) -> CgroupWalkView {
    CgroupWalkView {
        left: walk.left.drop_last() + below,
        pids: walk.pids.union(listed_in(procs)),
    }
}

impl CgroupWalk {
    /// A walk that begins at the directory `dir`.
    pub fn new(dir: &str) -> (r: CgroupWalk)
        ensures
            r@ == walk_from(dir@),
    {
        let mut left: Vec<String> = Vec::new();
        left.push(dir.to_string());
        assert(string_texts(left@) =~= seq![dir@]);
        CgroupWalk { left, pids: HashSet::new() }
    }

    /// The directory that is to be read next; `None` at the end.
    pub fn next(&self) -> (r: Option<&str>)
        ensures
            opt_str_text(r) == if self@.left.len() > 0 {
                Some(self@.left.last())
            } else {
                None
            },
    {
        let n: usize = self.left.len();
        if n == 0 {
            return None;
        }
        assert(string_texts(self.left@).last() == self.left@[n - 1]@);
        Some(self.left[n - 1].as_str())
    }

    /// Gathers the processes in the `cgroup.procs` file of the next
    /// directory, as far as it could be read, and goes on to the directories
    /// below it.
    pub fn step(&mut self, procs: Option<&str>, below: Vec<String>)
        requires
            old(self)@.left.len() > 0,
        ensures
            final(self)@ == after_dir(
                old(self)@,
                opt_str_text(procs),
                string_texts(below@),
            ),
    {
        let ghost before = string_texts(self.left@);
        let ghost more = string_texts(below@);
        let mut below = below;
        let _ = self.left.pop();
        let ghost kept = self.left@;
        assert(string_texts(kept) =~= before.drop_last());
        self.left.append(&mut below);
        assert(string_texts(self.left@) =~= before.drop_last() + more);
        if let Some(text) = procs {
            cgroup_pids(text, &mut self.pids);
        }
        assert(self@ =~= after_dir(old(self)@, opt_str_text(procs), more));
    }

    /// The processes that were gathered.
    pub fn into_pids(self) -> (r: HashSet<i32>)
        ensures
            r@ == self@.pids,
    {
        self.pids
    }
}

/// Whether the directory `dir` is `n` levels below `top`, where `below` says
/// which directories are directly below which.
pub open spec fn is_below(
    below: spec_fn(Seq<char>) -> Seq<Seq<char>>,
    top: Seq<char>,
    dir: Seq<char>,
    n: nat,
) -> bool
    decreases n,
{
    if n == 0 {
        top == dir
    } else {
        exists|k: int|
            0 <= k < below(top).len() && is_below(
                below,
                #[trigger] below(top)[k],
                dir,
                (n - 1) as nat,
            )
    }
}

/// Whether the directory `dir` is in the tree of `top`: `top` itself, or below
/// it on whatever level.
pub open spec fn in_tree(
    below: spec_fn(Seq<char>) -> Seq<Seq<char>>,
    top: Seq<char>,
    dir: Seq<char>,
) -> bool {
    exists|n: nat| is_below(below, top, dir, n)
}

/// The processes of a cgroup and of those below it, where `procs` says what
/// the `cgroup.procs` file of a directory holds.
pub open spec fn tree_pids(
    procs: spec_fn(Seq<char>) -> Option<Seq<char>>,
    below: spec_fn(Seq<char>) -> Seq<Seq<char>>,
    top: Seq<char>,
) -> Set<i32> {
    Set::new(
        |pid: i32|
            exists|dir: Seq<char>|
                #[trigger] in_tree(below, top, dir) && listed_in(procs(dir)).contains(pid),
    )
}

/// The walk after `n` directories, as long as some are left.
pub open spec fn after_dirs(
    procs: spec_fn(Seq<char>) -> Option<Seq<char>>,
    below: spec_fn(Seq<char>) -> Seq<Seq<char>>,
    walk: CgroupWalkView,
    n: nat,
) -> CgroupWalkView
    decreases n,
{
    if n == 0 || walk.left.len() == 0 {
        walk
    } else {
        let dir = walk.left.last();
        after_dirs(procs, below, after_dir(walk, procs(dir), below(dir)), (n - 1) as nat)
    }
}

/// What a walk gathers in the end: what it has gathered, and the processes of
/// the trees of the directories that are left.
spec fn whole_cgroup_walk(
    procs: spec_fn(Seq<char>) -> Option<Seq<char>>,
    below: spec_fn(Seq<char>) -> Seq<Seq<char>>,
    walk: CgroupWalkView,
) -> Set<i32> {
    Set::new(
        |pid: i32|
            walk.pids.contains(pid) || exists|k: int|
                0 <= k < walk.left.len() && tree_pids(
                    procs,
                    below,
                    #[trigger] walk.left[k],
                ).contains(pid),
    )
}

/// The tree of a directory is the directory and the trees of those directly
/// below it.
proof fn lemma_tree(
    below: spec_fn(Seq<char>) -> Seq<Seq<char>>,
    top: Seq<char>,
    dir: Seq<char>,
)
    ensures
        in_tree(below, top, dir) <==> top == dir || exists|k: int|
            0 <= k < below(top).len() && in_tree(below, #[trigger] below(top)[k], dir),
{
    if in_tree(below, top, dir) && top != dir {
        let n = choose|n: nat| is_below(below, top, dir, n);
        let k = choose|k: int|
            0 <= k < below(top).len() && is_below(
                below,
                #[trigger] below(top)[k],
                dir,
                (n - 1) as nat,
            );
        assert(in_tree(below, below(top)[k], dir));
    }
    if top == dir {
        assert(is_below(below, top, dir, 0));
    }
    if exists|k: int| 0 <= k < below(top).len() && in_tree(below, #[trigger] below(top)[k], dir) {
        let k = choose|k: int|
            0 <= k < below(top).len() && in_tree(below, #[trigger] below(top)[k], dir);
        let child = below(top)[k];
        let n = choose|n: nat| is_below(below, child, dir, n);
        assert(is_below(below, top, dir, n + 1));
    }
}

/// The processes of a tree are those of its directory and those of the trees
/// directly below it.
proof fn lemma_tree_pids(
    procs: spec_fn(Seq<char>) -> Option<Seq<char>>,
    below: spec_fn(Seq<char>) -> Seq<Seq<char>>,
    top: Seq<char>,
    pid: i32,
)
    ensures
        tree_pids(procs, below, top).contains(pid) <==> listed_in(procs(top)).contains(pid)
            || exists|k: int|
            0 <= k < below(top).len() && tree_pids(
                procs,
                below,
                #[trigger] below(top)[k],
            ).contains(pid),
{
    if tree_pids(procs, below, top).contains(pid) {
        let dir = choose|dir: Seq<char>|
            #[trigger] in_tree(below, top, dir) && listed_in(procs(dir)).contains(pid);
        lemma_tree(below, top, dir);
        if top != dir {
            let k = choose|k: int|
                0 <= k < below(top).len() && in_tree(below, #[trigger] below(top)[k], dir);
            assert(tree_pids(procs, below, below(top)[k]).contains(pid));
        }
    }
    if listed_in(procs(top)).contains(pid) {
        lemma_tree(below, top, top);
        assert(in_tree(below, top, top));
    }
    if exists|k: int|
        0 <= k < below(top).len() && tree_pids(procs, below, #[trigger] below(top)[k]).contains(
            pid,
        ) {
        let k = choose|k: int|
            0 <= k < below(top).len() && tree_pids(
                procs,
                below,
                #[trigger] below(top)[k],
            ).contains(pid);
        let dir = choose|dir: Seq<char>|
            #[trigger] in_tree(below, below(top)[k], dir) && listed_in(procs(dir)).contains(pid);
        lemma_tree(below, top, dir);
        assert(in_tree(below, top, dir));
    }
}

/// A step on what the directory holds does not change what the walk gathers
/// in the end.
proof fn lemma_cgroup_step(
    procs: spec_fn(Seq<char>) -> Option<Seq<char>>,
    below: spec_fn(Seq<char>) -> Seq<Seq<char>>,
    walk: CgroupWalkView,
)
    requires
        walk.left.len() > 0,
    ensures
        whole_cgroup_walk(
            procs,
            below,
            after_dir(walk, procs(walk.left.last()), below(walk.left.last())),
        ) == whole_cgroup_walk(procs, below, walk),
{
    let dir = walk.left.last();
    let last = walk.left.len() - 1;
    let next = after_dir(walk, procs(dir), below(dir));
    assert forall|pid: i32|
        whole_cgroup_walk(procs, below, next).contains(pid) == whole_cgroup_walk(
            procs,
            below,
            walk,
        ).contains(pid) by {
        lemma_tree_pids(procs, below, dir, pid);
        if exists|k: int|
            0 <= k < walk.left.len() && tree_pids(procs, below, #[trigger] walk.left[k]).contains(
                pid,
            ) {
            let k = choose|k: int|
                0 <= k < walk.left.len() && tree_pids(
                    procs,
                    below,
                    #[trigger] walk.left[k],
                ).contains(pid);
            if k < last {
                assert(next.left[k] == walk.left[k]);
            } else if !listed_in(procs(dir)).contains(pid) {
                let m = choose|m: int|
                    0 <= m < below(dir).len() && tree_pids(
                        procs,
                        below,
                        #[trigger] below(dir)[m],
                    ).contains(pid);
                assert(next.left[last + m] == below(dir)[m]);
            }
        }
        if exists|k: int|
            0 <= k < next.left.len() && tree_pids(procs, below, #[trigger] next.left[k]).contains(
                pid,
            ) {
            let k = choose|k: int|
                0 <= k < next.left.len() && tree_pids(
                    procs,
                    below,
                    #[trigger] next.left[k],
                ).contains(pid);
            if k < last {
                assert(walk.left[k] == next.left[k]);
            } else {
                assert(below(dir)[k - last] == next.left[k]);
                assert(tree_pids(procs, below, walk.left[last]).contains(pid));
            }
        }
        if listed_in(procs(dir)).contains(pid) {
            assert(tree_pids(procs, below, walk.left[last]).contains(pid));
        }
    }
    assert(whole_cgroup_walk(procs, below, next) =~= whole_cgroup_walk(procs, below, walk));
}

/// What a walk gathers in the end stays the same through every directory.
proof fn lemma_cgroup_steps(
    procs: spec_fn(Seq<char>) -> Option<Seq<char>>,
    below: spec_fn(Seq<char>) -> Seq<Seq<char>>,
    walk: CgroupWalkView,
    n: nat,
)
    ensures
        whole_cgroup_walk(procs, below, after_dirs(procs, below, walk, n)) == whole_cgroup_walk(
            procs,
            below,
            walk,
        ),
    decreases n,
{
    if n > 0 && walk.left.len() > 0 {
        let dir = walk.left.last();
        lemma_cgroup_step(procs, below, walk);
        lemma_cgroup_steps(
            procs,
            below,
            after_dir(walk, procs(dir), below(dir)),
            (n - 1) as nat,
        );
    }
}

/// A walk that has ended, after however many directories, holds the processes
/// of every directory of the tree, and no others.
pub proof fn law_cgroup_walk_gathers_tree(
    procs: spec_fn(Seq<char>) -> Option<Seq<char>>,
    below: spec_fn(Seq<char>) -> Seq<Seq<char>>,
    dir: Seq<char>,
    n: nat,
)
    requires
        after_dirs(procs, below, walk_from(dir), n).left.len() == 0,
    ensures
        after_dirs(procs, below, walk_from(dir), n).pids == tree_pids(procs, below, dir),
{
    let start = walk_from(dir);
    let end = after_dirs(procs, below, start, n);
    lemma_cgroup_steps(procs, below, start, n);
    assert(whole_cgroup_walk(procs, below, end) =~= end.pids);
    assert forall|pid: i32|
        whole_cgroup_walk(procs, below, start).contains(pid) == tree_pids(
            procs,
            below,
            dir,
        ).contains(pid) by {
        assert(start.left[0] == dir);
    }
    assert(whole_cgroup_walk(procs, below, start) =~= tree_pids(procs, below, dir));
}

// ------------------------------------------------------------------ laws
/// A walk goes on to every parent but the first process, for as long as it has
/// passed fewer than 32 processes.
pub proof fn law_walk_goes_up(p: i32, passed: nat)
    ensures
        p > 1 && passed < 32 ==> next_up(Some(p), passed) == Some(p),
        p <= 1 || passed >= 32 ==> next_up(Some(p), passed) is None,
        next_up(None, passed) is None,
{
}

/// A chain of processes, each the parent of the one before it and none the
/// first process, is passed from one end to the other, up to 32 of them.
pub proof fn law_chain_is_passed(
    parent: spec_fn(i32) -> Option<i32>,
    chain: Seq<i32>,
    n: nat,
)
    requires
        0 < chain.len() <= n,
        forall|i: int| 0 <= i < chain.len() ==> #[trigger] chain[i] > 1,
        forall|i: int|
            0 <= i < chain.len() - 1 ==> parent(#[trigger] chain[i]) == Some(chain[i + 1]),
        chain.len() == n || parent(chain.last()) is None || parent(chain.last())->0 <= 1,
    ensures
        ancestors(parent, Some(chain[0]), n) == chain,
    decreases chain.len(),
{
    assert(chain[0] > 1);
    let rest = chain.drop_first();
    if rest.len() == 0 {
        assert(ancestors(parent, parent(chain[0]), (n - 1) as nat) =~= Seq::<i32>::empty());
        assert(ancestors(parent, Some(chain[0]), n) =~= chain);
    } else {
        assert(parent(chain[0]) == Some(chain[1]));
        assert forall|i: int| 0 <= i < rest.len() implies #[trigger] rest[i] > 1 by {
            assert(rest[i] == chain[i + 1]);
        }
        assert forall|i: int| 0 <= i < rest.len() - 1 implies parent(#[trigger] rest[i]) == Some(
            rest[i + 1],
        ) by {
            assert(rest[i] == chain[i + 1]);
        }
        assert(rest.last() == chain.last());
        law_chain_is_passed(parent, rest, (n - 1) as nat);
        assert(ancestors(parent, Some(chain[0]), n) =~= chain);
    }
}

/// What the search finds at a process: one that is called `firefox` is the
/// main process, whatever its number; otherwise the search goes up to the
/// parent, unless that is the first process, is not known, or too many were
/// looked at.
pub proof fn law_search_looks_up(
    pid: i32,
    left: nat,
    comm: Option<Seq<char>>,
    status: Option<Seq<char>>,
    p: i32,
)
    ensures
        left > 0 && comm is Some && trimmed(comm->0) == "firefox"@ ==> search_step(
            pid,
            left,
            comm,
            status,
        ) == SearchStep::Found(pid),
        left > 1 && !(comm is Some && trimmed(comm->0) == "firefox"@) && status is Some
            && parent_in(status->0) == Some(p) && p > 1 ==> search_step(pid, left, comm, status)
            == SearchStep::Up(p),
        !(comm is Some && trimmed(comm->0) == "firefox"@) && (status is None || parent_in(
            status->0,
        ) is None || parent_in(status->0)->0 <= 1) ==> search_step(pid, left, comm, status)
            == SearchStep::Lost,
        left == 0 ==> search_step(pid, left, comm, status) == SearchStep::Lost,
        MAX_STEPS == 32,
{
}

/// The main process is found at the upper end of a chain of parents, where it
/// is the first in the chain that is called so and not further up than `n`.
pub proof fn law_main_process_is_found(
    parent: spec_fn(i32) -> Option<i32>,
    is_firefox: spec_fn(i32) -> bool,
    chain: Seq<i32>,
    n: nat,
)
    requires
        0 < chain.len() <= n,
        forall|i: int| 1 <= i < chain.len() ==> #[trigger] chain[i] > 1,
        forall|i: int|
            0 <= i < chain.len() - 1 ==> parent(#[trigger] chain[i]) == Some(chain[i + 1]),
        forall|i: int| 0 <= i < chain.len() - 1 ==> !is_firefox(#[trigger] chain[i]),
        is_firefox(chain.last()),
    ensures
        firefox_main(parent, is_firefox, chain[0], n) == Some(chain.last()),
    decreases chain.len(),
{
    if chain.len() > 1 {
        let rest = chain.drop_first();
        assert(!is_firefox(chain[0]));
        assert(parent(chain[0]) == Some(chain[1]));
        assert(chain[1] > 1);
        assert forall|i: int| 1 <= i < rest.len() implies #[trigger] rest[i] > 1 by {
            assert(rest[i] == chain[i + 1]);
        }
        assert forall|i: int| 0 <= i < rest.len() - 1 implies parent(#[trigger] rest[i]) == Some(
            rest[i + 1],
        ) by {
            assert(rest[i] == chain[i + 1]);
        }
        assert forall|i: int| 0 <= i < rest.len() - 1 implies !is_firefox(#[trigger] rest[i]) by {
            assert(rest[i] == chain[i + 1]);
        }
        assert(rest.last() == chain.last());
        law_main_process_is_found(parent, is_firefox, rest, (n - 1) as nat);
    }
}

/// The next directory of a walk gives its own processes, and is replaced by
/// those below it; nothing else is lost.
pub proof fn law_directory_is_gathered(
    walk: CgroupWalkView,
    text: Seq<char>,
    below: Seq<Seq<char>>,
    pid: i32,
)
    requires
        walk.left.len() > 0,
    ensures
        after_dir(walk, Some(text), below).pids.contains(pid) <==> walk.pids.contains(pid)
            || pids_in(lines_of(text)).contains(pid),
        after_dir(walk, None, below).pids == walk.pids,
        after_dir(walk, Some(text), below).left == walk.left.drop_last() + below,
        after_dir(walk, None, below).left == walk.left.drop_last() + below,
        walk_from(text).left == seq![text],
        walk_from(text).pids == Set::<i32>::empty(),
{
    assert(after_dir(walk, None, below).pids =~= walk.pids);
}

} // verus!
