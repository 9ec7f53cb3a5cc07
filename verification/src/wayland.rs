//! Finding the Wayland compositor, which shows the dialog: the process that
//! holds the display's socket.

use vstd::prelude::*;

use crate::text::{
    after_prefix, begins, chars_of, contains_text, lines, lines_of, nth_word, opt_str_text,
    same_text, starts_with, string_of, string_texts, strip_prefix, texts, word_at,
};

verus! {

/// The path of the display's socket: below the runtime directory, unless the
/// display is an absolute path.
pub open spec fn socket_path_of(runtime_dir: Seq<char>, display: Option<Seq<char>>) -> Seq<char> {
    let name = match display {
        Some(d) => d,
        None => "wayland-0"@,
    };
    if begins(name, "/"@) {
        name
    } else {
        runtime_dir + "/"@ + name
    }
}

/// The path of the display's socket.
pub fn socket_path(runtime_dir: &str, display: Option<&str>) -> (r: String)
    ensures
        r@ == socket_path_of(runtime_dir@, opt_str_text(display)),
{
    let name: &str = match display {
        Some(d) => d,
        None => "wayland-0",
    };
    let chars: Vec<char> = chars_of(name);
    let mut out: String = String::new();
    if !starts_with(chars.as_slice(), "/") {
        out.append(runtime_dir);
        out.append("/");
    }
    out.append(name);
    assert(out@ =~= socket_path_of(runtime_dir@, opt_str_text(display)));
    out
}

/// The inode of the socket that a line of `/proc/net/unix` lists, if it is
/// bound to `path`: the seventh word, where the eighth is the path.
pub open spec fn inode_in(line: Seq<char>, path: Seq<char>) -> Option<Seq<char>> {
    if nth_word(line, 7) == Some(path) {
        nth_word(line, 6)
    } else {
        None
    }
}

/// The inode of the socket that a line of `/proc/net/unix` lists, if it is
/// bound to `path`.
fn line_inode<'a>(line: &'a [char], path: &str) -> (r: Option<&'a [char]>)
    ensures
        match r {
            Some(inode) => inode_in(line@, path@) == Some(inode@),
            None => inode_in(line@, path@) is None,
        },
{
    match word_at(line, 7) {
        Some(word) => if same_text(word, path) {
            word_at(line, 6)
        } else {
            None
        },
        None => None,
    }
}

/// The inodes of the sockets that are bound to `path`, each once.
pub fn socket_inodes(unix: &str, path: &str) -> (r: Vec<String>)
    ensures
        string_texts(r@).no_duplicates(),
        forall|inode: Seq<char>|
            string_texts(r@).contains(inode) <==> exists|i: int|
                0 <= i < lines_of(unix@).len() && inode_in(#[trigger] lines_of(unix@)[i], path@)
                    == Some(inode),
{
    let text: Vec<char> = chars_of(unix);
    let all: Vec<&[char]> = lines(text.as_slice());
    let ghost whole = texts(all@);
    let mut out: Vec<String> = Vec::new();
    let mut i: usize = 0;
    while i < all.len()
        invariant
            i <= all.len(),
            whole == texts(all@),
            string_texts(out@).no_duplicates(),
            forall|inode: Seq<char>|
                string_texts(out@).contains(inode) <==> exists|j: int|
                    0 <= j < i && inode_in(#[trigger] whole[j], path@) == Some(inode),
        decreases all.len() - i,
    {
        let ghost before = string_texts(out@);
        assert(whole[i as int] == all@[i as int]@);
        if let Some(inode) = line_inode(all[i], path) {
            let name: String = string_of(inode);
            let ghost added = name@;
            let known: bool = contains_text(&out, name.as_str());
            if !known {
                out.push(name);
                assert(string_texts(out@) =~= before.push(added));
                assert forall|a: int, b: int|
                    0 <= a < string_texts(out@).len() && 0 <= b < string_texts(out@).len() && a
                        != b implies string_texts(out@)[a] != string_texts(out@)[b] by {
                    if a == before.len() {
                        assert(before.contains(before[b]));
                    } else if b == before.len() {
                        assert(before.contains(before[a]));
                    }
                }
            }
            assert forall|x: Seq<char>| string_texts(out@).contains(x) <==> (before.contains(x) || x
                == added) by {
                if before.contains(x) {
                    let k = choose|k: int| 0 <= k < before.len() && before[k] == x;
                    assert(string_texts(out@)[k] == x);
                }
                if x == added && !known {
                    assert(string_texts(out@)[before.len() as int] == x);
                }
            }
        }
        assert forall|x: Seq<char>| string_texts(out@).contains(x) <==> exists|j: int|
            0 <= j < i + 1 && inode_in(#[trigger] whole[j], path@) == Some(x) by {
            if string_texts(out@).contains(x) && !before.contains(x) {
                assert(inode_in(whole[i as int], path@) == Some(x));
            }
            if exists|j: int| 0 <= j < i + 1 && inode_in(#[trigger] whole[j], path@) == Some(x) {
                let j = choose|j: int|
                    0 <= j < i + 1 && inode_in(#[trigger] whole[j], path@) == Some(x);
                if j < i {
                    assert(before.contains(x));
                }
            }
        }
        i = i + 1;
    }
    assert(whole == lines_of(unix@));
    out
}

/// The inode that the target of a file descriptor link names, if it is a
/// socket.
pub open spec fn target_inode(target: Seq<char>) -> Option<Seq<char>> {
    match after_prefix(target, "socket:["@) {
        Some(rest) => if rest.len() > 0 && rest.last() == ']' {
            Some(rest.drop_last())
        } else {
            None
        },
        None => None,
    }
}

/// Whether the target of a file descriptor link is one of the sockets.
pub fn holds_socket(target: &str, inodes: &Vec<String>) -> (r: bool)
    ensures
        r == (target_inode(target@) matches Some(inode) && string_texts(inodes@).contains(inode)),
{
    let chars: Vec<char> = chars_of(target);
    match strip_prefix(chars.as_slice(), "socket:[") {
        Some(rest) => {
            if rest.len() == 0 || rest[rest.len() - 1] != ']' {
                return false;
            }
            let inode: &[char] = vstd::slice::slice_subrange(rest, 0, rest.len() - 1);
            assert(inode@ =~= rest@.drop_last());
            let name: String = string_of(inode);
            contains_text(inodes, name.as_str())
        },
        None => false,
    }
}

/// Whether one of the targets of a process's file descriptor links is one of
/// the sockets.
pub open spec fn holds_any(targets: Seq<Seq<char>>, inodes: Seq<Seq<char>>) -> bool {
    exists|i: int|
        0 <= i < targets.len() && (target_inode(#[trigger] targets[i]) matches Some(inode)
            && inodes.contains(inode))
}

/// Whether one of the targets of a process's file descriptor links is one of
/// the sockets.
pub fn holds_one(targets: &Vec<String>, inodes: &Vec<String>) -> (r: bool)
    ensures
        r == holds_any(string_texts(targets@), string_texts(inodes@)),
{
    let ghost all = string_texts(targets@);
    let ghost wanted = string_texts(inodes@);
    let mut i: usize = 0;
    while i < targets.len()
        invariant
            i <= targets.len(),
            all == string_texts(targets@),
            wanted == string_texts(inodes@),
            forall|j: int|
                0 <= j < i ==> !(target_inode(#[trigger] all[j]) matches Some(inode)
                    && wanted.contains(inode)),
        decreases targets.len() - i,
    {
        assert(all[i as int] == targets@[i as int]@);
        if holds_socket(targets[i].as_str(), inodes) {
            return true;
        }
        i = i + 1;
    }
    false
}

// ---------------------------------------------------------------- search
/// A search for the process that holds the display's socket.
pub struct CompositorSearch {
    inodes: Vec<String>,
    found: Option<i32>,
}

/// What the search has found after one more process, given the targets of its
/// file descriptor links. The first process that holds a socket counts.
pub open spec fn found_after(
    found: Option<i32>,
    inodes: Seq<Seq<char>>,
    pid: i32,
    targets: Seq<Seq<char>>,
) -> Option<i32> {
    if found is None && holds_any(targets, inodes) {
        Some(pid)
    } else {
        found
    }
}

impl CompositorSearch {
    /// The inodes of the display's sockets.
    pub closed spec fn wanted(&self) -> Seq<Seq<char>> {
        string_texts(self.inodes@)
    }

    /// The process that was found.
    pub closed spec fn holder(&self) -> Option<i32> {
        self.found
    }

    /// A search for the process that holds a socket bound to `path`, given
    /// `/proc/net/unix`.
    pub fn new(unix: &str, path: &str) -> (r: CompositorSearch)
        ensures
            r.holder() is None,
            forall|inode: Seq<char>|
                r.wanted().contains(inode) <==> exists|i: int|
                    0 <= i < lines_of(unix@).len() && inode_in(
                        #[trigger] lines_of(unix@)[i],
                        path@,
                    ) == Some(inode),
    {
        CompositorSearch { inodes: socket_inodes(unix, path), found: None }
    }

    /// Whether to look at one more process: there is a socket, and its holder
    /// was not found yet.
    pub fn goes_on(&self) -> (r: bool)
        ensures
            r == (self.wanted().len() > 0 && self.holder() is None),
    {
        assert(string_texts(self.inodes@).len() == self.inodes@.len());
        self.inodes.len() > 0 && self.found.is_none()
    }

    /// Looks at a process, given the targets of its file descriptor links.
    pub fn look(&mut self, pid: i32, targets: &Vec<String>)
        ensures
            final(self).wanted() == old(self).wanted(),
            final(self).holder() == found_after(
                old(self).holder(),
                old(self).wanted(),
                pid,
                string_texts(targets@),
            ),
    {
        if self.found.is_none() && holds_one(targets, &self.inodes) {
            self.found = Some(pid);
        }
    }

    /// The process that was found.
    pub fn result(&self) -> (r: Option<i32>)
        ensures
            r == self.holder(),
    {
        self.found
    }
}

// ------------------------------------------------------------------ laws
/// What the search has found after it looked at processes one after the
/// other, each with the targets of its file descriptor links.
pub open spec fn found_among(
    inodes: Seq<Seq<char>>,
    processes: Seq<(i32, Seq<Seq<char>>)>,
) -> Option<i32>
    decreases processes.len(),
{
    if processes.len() == 0 {
        None
    } else {
        found_after(
            found_among(inodes, processes.drop_last()),
            inodes,
            processes.last().0,
            processes.last().1,
        )
    }
}

/// The compositor is the first process that holds one of the sockets: it is
/// found where it stands in whatever place and none before it holds one.
pub proof fn law_first_holder_is_found(
    inodes: Seq<Seq<char>>,
    processes: Seq<(i32, Seq<Seq<char>>)>,
    k: int,
)
    requires
        0 <= k < processes.len(),
        holds_any(processes[k].1, inodes),
        forall|j: int| 0 <= j < k ==> !holds_any((#[trigger] processes[j]).1, inodes),
    ensures
        found_among(inodes, processes) == Some(processes[k].0),
    decreases processes.len(),
{
    let earlier = processes.drop_last();
    if k < earlier.len() {
        assert forall|j: int| 0 <= j < k implies !holds_any((#[trigger] earlier[j]).1, inodes) by {
            assert(earlier[j] == processes[j]);
        }
        law_first_holder_is_found(inodes, earlier, k);
    } else {
        assert forall|j: int| 0 <= j < earlier.len() implies !holds_any(
            (#[trigger] earlier[j]).1,
            inodes,
        ) by {
            assert(earlier[j] == processes[j]);
        }
        law_without_holder_none_is_found(inodes, earlier);
    }
}

/// Where no process holds one of the sockets, none is found.
pub proof fn law_without_holder_none_is_found(
    inodes: Seq<Seq<char>>,
    processes: Seq<(i32, Seq<Seq<char>>)>,
)
    requires
        forall|j: int|
            0 <= j < processes.len() ==> !holds_any((#[trigger] processes[j]).1, inodes),
    ensures
        found_among(inodes, processes) is None,
    decreases processes.len(),
{
    if processes.len() > 0 {
        let earlier = processes.drop_last();
        assert forall|j: int| 0 <= j < earlier.len() implies !holds_any(
            (#[trigger] earlier[j]).1,
            inodes,
        ) by {
            assert(earlier[j] == processes[j]);
        }
        law_without_holder_none_is_found(inodes, earlier);
        assert(!holds_any(processes[processes.len() - 1].1, inodes));
    }
}

/// Where there is no socket, no process holds one, and none is found.
pub proof fn law_without_socket_none_is_found(
    targets: Seq<Seq<char>>,
    processes: Seq<(i32, Seq<Seq<char>>)>,
)
    ensures
        !holds_any(targets, Seq::empty()),
        found_among(Seq::empty(), processes) is None,
{
    law_without_holder_none_is_found(Seq::empty(), processes);
}

/// The link of a file descriptor that is a socket names the socket's inode.
pub proof fn law_socket_link(inode: Seq<char>)
    ensures
        target_inode("socket:["@ + inode.push(']')) == Some(inode),
{
    let target = "socket:["@ + inode.push(']');
    let n = "socket:["@.len() as int;
    assert(target.take(n) =~= "socket:["@);
    assert(target.skip(n) =~= inode.push(']'));
    assert(inode.push(']').drop_last() =~= inode);
}

/// The socket is the one that the display names: an absolute path as it is,
/// any other one below the runtime directory, and `wayland-0` where none is
/// named.
pub proof fn law_socket_path(runtime_dir: Seq<char>, display: Seq<char>)
    ensures
        display.len() > 0 && display[0] == '/' ==> socket_path_of(runtime_dir, Some(display))
            == display,
        display.len() == 0 || display[0] != '/' ==> socket_path_of(runtime_dir, Some(display))
            == runtime_dir + "/"@ + display,
        socket_path_of(runtime_dir, None) == runtime_dir + "/"@ + "wayland-0"@,
{
    reveal_strlit("/");
    reveal_strlit("wayland-0");
    if display.len() > 0 {
        assert(display.take(1)[0] == display[0]);
        if display[0] == '/' {
            assert(display.take(1) =~= "/"@);
        }
    }
    assert("wayland-0"@.take(1)[0] == 'w');
}

/// A line lists an inode for a path exactly where the path is its eighth word
/// and the inode its seventh one.
pub proof fn law_inode_of_a_line(line: Seq<char>, path: Seq<char>, inode: Seq<char>)
    ensures
        inode_in(line, path) == Some(inode) <==> crate::text::words_of(line).len() > 7
            && crate::text::words_of(line)[7] == path && crate::text::words_of(line)[6] == inode,
{
}

/// A link names an inode exactly where it is the link of that socket.
pub proof fn law_only_socket_links(target: Seq<char>, inode: Seq<char>)
    ensures
        target_inode(target) == Some(inode) <==> target == "socket:["@ + inode.push(']'),
{
    let front = "socket:["@;
    let n = front.len() as int;
    law_socket_link(inode);
    if target_inode(target) == Some(inode) {
        let rest = target.skip(n);
        assert(rest =~= inode.push(']'));
        assert(target =~= front + rest);
    }
}

/// A process holds one of the sockets exactly where one of its links is the
/// link of one of the inodes, in whatever place either stands.
pub proof fn law_holder_has_a_link(targets: Seq<Seq<char>>, inodes: Seq<Seq<char>>)
    ensures
        holds_any(targets, inodes) <==> exists|i: int, k: int|
            #![trigger targets[i], inodes[k]]
            0 <= i < targets.len() && 0 <= k < inodes.len() && targets[i] == "socket:["@
                + inodes[k].push(']'),
{
    if holds_any(targets, inodes) {
        let i = choose|i: int|
            0 <= i < targets.len() && (target_inode(#[trigger] targets[i]) matches Some(inode)
                && inodes.contains(inode));
        let inode = target_inode(targets[i])->0;
        law_only_socket_links(targets[i], inode);
        let k = choose|k: int| 0 <= k < inodes.len() && inodes[k] == inode;
        assert(targets[i] == "socket:["@ + inodes[k].push(']'));
    }
    if exists|i: int, k: int|
        #![trigger targets[i], inodes[k]]
        0 <= i < targets.len() && 0 <= k < inodes.len() && targets[i] == "socket:["@
            + inodes[k].push(']') {
        let (i, k) = choose|i: int, k: int|
            #![trigger targets[i], inodes[k]]
            0 <= i < targets.len() && 0 <= k < inodes.len() && targets[i] == "socket:["@
                + inodes[k].push(']');
        law_only_socket_links(targets[i], inodes[k]);
        assert(inodes.contains(inodes[k]));
    }
}

/// The search keeps the first holder, and takes a process for one exactly
/// where it holds one of the sockets.
pub proof fn law_search_keeps_the_first(
    pid: i32,
    other: i32,
    inodes: Seq<Seq<char>>,
    targets: Seq<Seq<char>>,
)
    ensures
        found_after(Some(other), inodes, pid, targets) == Some(other),
        holds_any(targets, inodes) ==> found_after(None, inodes, pid, targets) == Some(pid),
        !holds_any(targets, inodes) ==> found_after(None, inodes, pid, targets) is None,
{
}

} // verus!
