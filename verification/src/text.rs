//! Text as sequences of characters: lines, words, trimming and prefixes.

use vstd::prelude::*;
use vstd::slice::slice_subrange;

verus! {

/// `String::push` appends one character to the end of the string.
pub assume_specification[ String::push ](string: &mut String, ch: char)
    ensures
        final(string)@ == old(string)@.push(ch),
;

// ------------------------------------------------------------ characters
/// The characters with the Unicode property `White_Space`.
pub open spec fn is_space(c: char) -> bool {
    ||| '\u{9}' <= c <= '\u{d}'
    ||| c == '\u{20}'
    ||| c == '\u{85}'
    ||| c == '\u{a0}'
    ||| c == '\u{1680}'
    ||| '\u{2000}' <= c <= '\u{200a}'
    ||| c == '\u{2028}'
    ||| c == '\u{2029}'
    ||| c == '\u{202f}'
    ||| c == '\u{205f}'
    ||| c == '\u{3000}'
}

/// Whether `c` is white space.
pub fn is_whitespace(c: char) -> (r: bool)
    ensures
        r == is_space(c),
{
    ('\u{9}' <= c && c <= '\u{d}') || c == '\u{20}' || c == '\u{85}' || c == '\u{a0}'
        || c == '\u{1680}' || ('\u{2000}' <= c && c <= '\u{200a}') || c == '\u{2028}'
        || c == '\u{2029}' || c == '\u{202f}' || c == '\u{205f}' || c == '\u{3000}'
}

/// The characters of `s`, one by one.
pub fn chars_of(s: &str) -> (r: Vec<char>)
    ensures
        r@ == s@,
{
    let mut out: Vec<char> = Vec::new();
    for c in it: s.chars()
        invariant
            it.seq() == s@,
            out@ == s@.take(it.index() as int),
    {
        out.push(c);
    }
    out
}

/// The string made of the characters `s`.
pub fn string_of(s: &[char]) -> (r: String)
    ensures
        r@ == s@,
{
    let mut out: String = String::new();
    let mut i: usize = 0;
    while i < s.len()
        invariant
            i <= s.len(),
            out@ == s@.take(i as int),
        decreases s.len() - i,
    {
        out.push(s[i]);
        i = i + 1;
    }
    out
}

// -------------------------------------------------------------- prefixes
/// Whether `s` begins with `p`.
pub open spec fn begins(s: Seq<char>, p: Seq<char>) -> bool {
    p.len() <= s.len() && s.take(p.len() as int) == p
}

/// Whether `s` ends with `p`.
pub open spec fn ends(s: Seq<char>, p: Seq<char>) -> bool {
    p.len() <= s.len() && s.skip(s.len() - p.len()) == p
}

/// What is left of `s` after the prefix `p`.
pub open spec fn after_prefix(s: Seq<char>, p: Seq<char>) -> Option<Seq<char>> {
    if begins(s, p) {
        Some(s.skip(p.len() as int))
    } else {
        None
    }
}

/// Whether `s` begins with `p`.
pub fn starts_with(s: &[char], p: &str) -> (r: bool)
    ensures
        r == begins(s@, p@),
{
    let want: Vec<char> = chars_of(p);
    if want.len() > s.len() {
        return false;
    }
    let mut i: usize = 0;
    while i < want.len()
        invariant
            i <= want.len() <= s.len(),
            want@ == p@,
            s@.take(i as int) == p@.take(i as int),
        decreases want.len() - i,
    {
        if s[i] != want[i] {
            assert(s@.take(p@.len() as int)[i as int] != p@[i as int]);
            return false;
        }
        assert(s@.take(i + 1) =~= s@.take(i as int).push(s@[i as int]));
        assert(p@.take(i + 1) =~= p@.take(i as int).push(p@[i as int]));
        i = i + 1;
    }
    assert(p@.take(p@.len() as int) =~= p@);
    true
}

/// What is left of `s` after the prefix `p`, if `s` begins with it.
pub fn strip_prefix<'a>(s: &'a [char], p: &str) -> (r: Option<&'a [char]>)
    ensures
        match r {
            Some(rest) => after_prefix(s@, p@) == Some(rest@),
            None => after_prefix(s@, p@) is None,
        },
{
    if starts_with(s, p) {
        let n: usize = chars_of(p).len();
        Some(slice_subrange(s, n, s.len()))
    } else {
        None
    }
}

/// Whether `s` is exactly `t`.
pub fn same_text(s: &[char], t: &str) -> (r: bool)
    ensures
        r == (s@ == t@),
{
    let n: usize = chars_of(t).len();
    if n != s.len() {
        return false;
    }
    assert(s@.take(n as int) =~= s@);
    starts_with(s, t)
}

/// Whether `s` ends with `p`.
pub fn ends_with(s: &[char], p: &str) -> (r: bool)
    ensures
        r == ends(s@, p@),
{
    let n: usize = chars_of(p).len();
    if n > s.len() {
        return false;
    }
    same_text(slice_subrange(s, s.len() - n, s.len()), p)
}

/// Whether the two strings hold the same characters.
pub fn same_str(s: &str, t: &str) -> (r: bool)
    ensures
        r == (s@ == t@),
{
    let s: Vec<char> = chars_of(s);
    same_text(s.as_slice(), t)
}

/// Whether `p` occurs somewhere in `s`.
pub open spec fn occurs(s: Seq<char>, p: Seq<char>) -> bool {
    exists|i: int| 0 <= i <= s.len() && begins(#[trigger] s.skip(i), p)
}

/// Whether `p` occurs somewhere in `s`.
pub fn contains(s: &[char], p: &str) -> (r: bool)
    ensures
        r == occurs(s@, p@),
{
    let mut i: usize = 0;
    loop
        invariant
            i <= s.len(),
            forall|j: int| 0 <= j < i ==> !begins(#[trigger] s@.skip(j), p@),
        decreases s.len() - i,
    {
        let rest: &[char] = slice_subrange(s, i, s.len());
        assert(rest@ =~= s@.skip(i as int));
        if starts_with(rest, p) {
            return true;
        }
        if i == s.len() {
            return false;
        }
        i = i + 1;
    }
}

// -------------------------------------------------------------- trimming
/// `s` without the white space at its start.
pub open spec fn trim_start(s: Seq<char>) -> Seq<char>
    decreases s.len(),
{
    if s.len() > 0 && is_space(s.first()) {
        trim_start(s.drop_first())
    } else {
        s
    }
}

/// `s` without the white space at its end.
pub open spec fn trim_end(s: Seq<char>) -> Seq<char>
    decreases s.len(),
{
    if s.len() > 0 && is_space(s.last()) {
        trim_end(s.drop_last())
    } else {
        s
    }
}

/// `s` without the white space at either end.
pub open spec fn trimmed(s: Seq<char>) -> Seq<char> {
    trim_end(trim_start(s))
}

/// `s` without the white space at either end.
pub fn trim(s: &[char]) -> (r: &[char])
    ensures
        r@ == trimmed(s@),
{
    let mut from: usize = 0;
    assert(s@.skip(0) =~= s@);
    while from < s.len() && is_whitespace(s[from])
        invariant
            from <= s.len(),
            trim_start(s@.skip(from as int)) == trim_start(s@),
        decreases s.len() - from,
    {
        assert(s@.skip(from as int).drop_first() =~= s@.skip(from + 1));
        from = from + 1;
    }
    let ghost t = s@.skip(from as int);
    assert(trim_start(t) == t);
    let mut to: usize = s.len();
    assert(s@.subrange(from as int, to as int) =~= t);
    while from < to && is_whitespace(s[to - 1])
        invariant
            from <= to <= s.len(),
            trim_end(s@.subrange(from as int, to as int)) == trim_end(t),
        decreases to,
    {
        let ghost u = s@.subrange(from as int, to as int);
        assert(u.drop_last() =~= s@.subrange(from as int, to - 1));
        to = to - 1;
    }
    slice_subrange(s, from, to)
}

// ----------------------------------------------------------------- lines
/// Where the first `c` stands in `s`, or the length of `s` where there is none.
pub open spec fn position(s: Seq<char>, c: char) -> int
    decreases s.len(),
{
    if s.len() == 0 || s.first() == c {
        0
    } else {
        1 + position(s.drop_first(), c)
    }
}

/// `line` without a carriage return at its end.
pub open spec fn without_cr(line: Seq<char>) -> Seq<char> {
    if line.len() > 0 && line.last() == '\r' {
        line.drop_last()
    } else {
        line
    }
}

/// The lines of `s`. A line ends in a line feed, or in a carriage return and
/// a line feed; the last one may go without.
pub open spec fn lines_of(s: Seq<char>) -> Seq<Seq<char>>
    decreases s.len(),
    via lines_of_terminates
{
    if s.len() == 0 {
        Seq::empty()
    } else {
        let end = position(s, '\n');
        if end < s.len() {
            seq![without_cr(s.take(end))] + lines_of(s.skip(end + 1))
        } else {
            seq![s]
        }
    }
}

#[via_fn]
proof fn lines_of_terminates(s: Seq<char>) {
    lemma_position(s, '\n');
}

/// `position` finds the first occurrence.
pub proof fn lemma_position(s: Seq<char>, c: char)
    ensures
        0 <= position(s, c) <= s.len(),
        position(s, c) < s.len() ==> s[position(s, c)] == c,
        forall|i: int| 0 <= i < position(s, c) ==> s[i] != c,
    decreases s.len(),
{
    if s.len() != 0 && s.first() != c {
        lemma_position(s.drop_first(), c);
        assert forall|i: int| 0 <= i < position(s, c) implies s[i] != c by {
            if i > 0 {
                assert(s[i] == s.drop_first()[i - 1]);
            }
        }
    }
}

/// Nothing but the first occurrence is what `position` finds.
pub proof fn lemma_position_is(s: Seq<char>, c: char, i: int)
    requires
        0 <= i <= s.len(),
        i < s.len() ==> s[i] == c,
        forall|j: int| 0 <= j < i ==> s[j] != c,
    ensures
        position(s, c) == i,
{
    lemma_position(s, c);
    let p = position(s, c);
    if p < i {
        assert(s[p] != c);
    }
}

/// The texts that a list of slices holds.
pub open spec fn texts(v: Seq<&[char]>) -> Seq<Seq<char>> {
    v.map_values(|s: &[char]| s@)
}

/// The position of the first `c` in `s` at or after `from`, or the length.
pub fn find_char(s: &[char], from: usize, c: char) -> (r: usize)
    requires
        from <= s.len(),
    ensures
        from <= r <= s.len(),
        r == from + position(s@.skip(from as int), c),
{
    let mut i: usize = from;
    while i < s.len() && s[i] != c
        invariant
            from <= i <= s.len(),
            forall|j: int| from <= j < i ==> s[j] != c,
        decreases s.len() - i,
    {
        i = i + 1;
    }
    proof {
        lemma_position_is(s@.skip(from as int), c, i - from);
    }
    i
}

/// The lines of `s`.
pub fn lines(s: &[char]) -> (r: Vec<&[char]>)
    ensures
        texts(r@) == lines_of(s@),
{
    let mut out: Vec<&[char]> = Vec::new();
    let mut from: usize = 0;
    assert(s@.skip(0) =~= s@);
    assert(texts(out@) + lines_of(s@) =~= lines_of(s@));
    while from < s.len()
        invariant
            from <= s.len(),
            texts(out@) + lines_of(s@.skip(from as int)) == lines_of(s@),
        decreases s.len() - from,
    {
        let ghost rest = s@.skip(from as int);
        let ghost before = texts(out@);
        let end: usize = find_char(s, from, '\n');
        if end < s.len() {
            let stop: usize = if from < end && s[end - 1] == '\r' {
                end - 1
            } else {
                end
            };
            let line: &[char] = slice_subrange(s, from, stop);
            assert(rest.take(end - from) =~= s@.subrange(from as int, end as int));
            assert(line@ =~= without_cr(rest.take(end - from)));
            out.push(line);
            assert(texts(out@) =~= before.push(line@));
            assert(rest.skip(end - from + 1) =~= s@.skip(end + 1));
            assert(texts(out@) + lines_of(s@.skip(end + 1)) =~= before + (seq![line@] + lines_of(
                s@.skip(end + 1),
            )));
            from = end + 1;
        } else {
            let line: &[char] = slice_subrange(s, from, s.len());
            assert(line@ =~= rest);
            out.push(line);
            assert(texts(out@) =~= before + seq![rest]);
            from = s.len();
            assert(lines_of(s@.skip(from as int)) =~= Seq::<Seq<char>>::empty());
            assert(texts(out@) + lines_of(s@.skip(from as int)) =~= texts(out@));
        }
    }
    assert(lines_of(s@.skip(from as int)) =~= Seq::<Seq<char>>::empty());
    assert(texts(out@) + lines_of(s@.skip(from as int)) =~= texts(out@));
    out
}

/// The first of `items` that begins with `p`.
pub open spec fn first_beginning(items: Seq<Seq<char>>, p: Seq<char>) -> Option<Seq<char>>
    decreases items.len(),
{
    if items.len() == 0 {
        None
    } else if begins(items.first(), p) {
        Some(items.first())
    } else {
        first_beginning(items.drop_first(), p)
    }
}

/// What follows `p` in the first of `items` that begins with `p`.
pub open spec fn first_after(items: Seq<Seq<char>>, p: Seq<char>) -> Option<Seq<char>> {
    match first_beginning(items, p) {
        Some(item) => after_prefix(item, p),
        None => None,
    }
}

/// The first of `items` that begins with `p`.
pub fn find_beginning<'a>(items: &Vec<&'a [char]>, p: &str) -> (r: Option<&'a [char]>)
    ensures
        match r {
            Some(item) => first_beginning(texts(items@), p@) == Some(item@),
            None => first_beginning(texts(items@), p@) is None,
        },
{
    let ghost all = texts(items@);
    let mut i: usize = 0;
    assert(all.skip(0) =~= all);
    while i < items.len()
        invariant
            i <= items.len(),
            all == texts(items@),
            first_beginning(all, p@) == first_beginning(all.skip(i as int), p@),
        decreases items.len() - i,
    {
        assert(all[i as int] == items@[i as int]@);
        if starts_with(items[i], p) {
            return Some(items[i]);
        }
        assert(all.skip(i as int).drop_first() =~= all.skip(i + 1));
        i = i + 1;
    }
    None
}

// ----------------------------------------------------------------- words
/// How many characters stand before the first white space in `s`.
pub open spec fn word_len(s: Seq<char>) -> int
    decreases s.len(),
{
    if s.len() == 0 || is_space(s.first()) {
        0
    } else {
        1 + word_len(s.drop_first())
    }
}

/// The parts of `s` that white space separates.
pub open spec fn words_of(s: Seq<char>) -> Seq<Seq<char>>
    decreases s.len(),
    via words_of_terminates
{
    if s.len() == 0 {
        Seq::empty()
    } else if is_space(s.first()) {
        words_of(s.drop_first())
    } else {
        seq![s.take(word_len(s))] + words_of(s.skip(word_len(s)))
    }
}

#[via_fn]
proof fn words_of_terminates(s: Seq<char>) {
    lemma_word_len(s);
}

/// `word_len` counts up to the first white space.
pub proof fn lemma_word_len(s: Seq<char>)
    ensures
        0 <= word_len(s) <= s.len(),
        word_len(s) < s.len() ==> is_space(s[word_len(s)]),
        forall|i: int| 0 <= i < word_len(s) ==> !is_space(#[trigger] s[i]),
        s.len() > 0 && !is_space(s.first()) ==> word_len(s) > 0,
    decreases s.len(),
{
    if s.len() != 0 && !is_space(s.first()) {
        lemma_word_len(s.drop_first());
        assert forall|i: int| 0 <= i < word_len(s) implies !is_space(#[trigger] s[i]) by {
            if i > 0 {
                assert(s[i] == s.drop_first()[i - 1]);
            }
        }
    }
}

/// Nothing but the first white space is where a word ends.
pub proof fn lemma_word_len_is(s: Seq<char>, i: int)
    requires
        0 <= i <= s.len(),
        i < s.len() ==> is_space(s[i]),
        forall|j: int| 0 <= j < i ==> !is_space(#[trigger] s[j]),
    ensures
        word_len(s) == i,
{
    lemma_word_len(s);
    let p = word_len(s);
    if p < i {
        assert(!is_space(s[p]));
    }
    if i < p {
        assert(!is_space(s[i]));
    }
}

/// The parts of `s` that white space separates.
pub fn words(s: &[char]) -> (r: Vec<&[char]>)
    ensures
        texts(r@) == words_of(s@),
{
    let mut out: Vec<&[char]> = Vec::new();
    let mut from: usize = 0;
    assert(s@.skip(0) =~= s@);
    assert(texts(out@) + words_of(s@) =~= words_of(s@));
    while from < s.len()
        invariant
            from <= s.len(),
            texts(out@) + words_of(s@.skip(from as int)) == words_of(s@),
        decreases s.len() - from,
    {
        let ghost rest = s@.skip(from as int);
        let ghost before = texts(out@);
        if is_whitespace(s[from]) {
            assert(rest.drop_first() =~= s@.skip(from + 1));
            from = from + 1;
        } else {
            let mut end: usize = from;
            while end < s.len() && !is_whitespace(s[end])
                invariant
                    from <= end <= s.len(),
                    forall|j: int| from <= j < end ==> !is_space(#[trigger] s[j]),
                decreases s.len() - end,
            {
                end = end + 1;
            }
            proof {
                lemma_word_len_is(rest, end - from);
                lemma_word_len(rest);
            }
            let word: &[char] = slice_subrange(s, from, end);
            assert(word@ =~= rest.take(end - from));
            out.push(word);
            assert(texts(out@) =~= before.push(word@));
            assert(rest.skip(end - from) =~= s@.skip(end as int));
            assert(texts(out@) + words_of(s@.skip(end as int)) =~= before + (seq![word@]
                + words_of(s@.skip(end as int))));
            from = end;
        }
    }
    assert(words_of(s@.skip(from as int)) =~= Seq::<Seq<char>>::empty());
    assert(texts(out@) + words_of(s@.skip(from as int)) =~= texts(out@));
    out
}

/// The word of `s` with the number `n`, counted from zero.
pub open spec fn nth_word(s: Seq<char>, n: int) -> Option<Seq<char>> {
    if 0 <= n < words_of(s).len() {
        Some(words_of(s)[n])
    } else {
        None
    }
}

/// The word of `s` with the number `n`, counted from zero.
pub fn word_at(s: &[char], n: usize) -> (r: Option<&[char]>)
    ensures
        match r {
            Some(w) => nth_word(s@, n as int) == Some(w@),
            None => nth_word(s@, n as int) is None,
        },
{
    let all: Vec<&[char]> = words(s);
    assert(texts(all@).len() == all@.len());
    if n < all.len() {
        assert(texts(all@)[n as int] == all@[n as int]@);
        Some(all[n])
    } else {
        None
    }
}

// --------------------------------------------------------------- strings
/// The texts that a list of strings holds.
pub open spec fn string_texts(v: Seq<String>) -> Seq<Seq<char>> {
    v.map_values(|s: String| s@)
}

/// The text that an optional string holds.
pub open spec fn opt_text(s: Option<String>) -> Option<Seq<char>> {
    match s {
        Some(t) => Some(t@),
        None => None,
    }
}

/// The text that an optional string slice holds.
pub open spec fn opt_str_text(s: Option<&str>) -> Option<Seq<char>> {
    match s {
        Some(t) => Some(t@),
        None => None,
    }
}

/// Whether `t` is one of the strings.
pub fn contains_text(v: &Vec<String>, t: &str) -> (r: bool)
    ensures
        r == string_texts(v@).contains(t@),
{
    let ghost all = string_texts(v@);
    let mut i: usize = 0;
    while i < v.len()
        invariant
            i <= v.len(),
            all == string_texts(v@),
            forall|j: int| 0 <= j < i ==> #[trigger] all[j] != t@,
        decreases v.len() - i,
    {
        assert(all[i as int] == v@[i as int]@);
        if same_str(v[i].as_str(), t) {
            return true;
        }
        i = i + 1;
    }
    false
}

// ------------------------------------------------------------------ laws
/// Whether `s` is a word: not empty, and without white space.
pub open spec fn is_word(s: Seq<char>) -> bool {
    s.len() > 0 && forall|i: int| 0 <= i < s.len() ==> !is_space(#[trigger] s[i])
}

/// Words with a blank between each two.
pub open spec fn joined(words: Seq<Seq<char>>) -> Seq<char>
    decreases words.len(),
{
    if words.len() == 0 {
        Seq::empty()
    } else if words.len() == 1 {
        words.first()
    } else {
        words.first().push(' ') + joined(words.drop_first())
    }
}

/// A word, white space and more text are that word and the words of the
/// text.
pub proof fn law_words_cons(word: Seq<char>, space: char, rest: Seq<char>)
    requires
        is_word(word),
        is_space(space),
    ensures
        words_of(word.push(space) + rest) == seq![word] + words_of(rest),
{
    let s = word.push(space) + rest;
    assert forall|j: int| 0 <= j < word.len() implies !is_space(#[trigger] s[j]) by {
        assert(s[j] == word[j]);
    }
    assert(s[word.len() as int] == space);
    lemma_word_len_is(s, word.len() as int);
    assert(s.take(word.len() as int) =~= word);
    let after = s.skip(word.len() as int);
    assert(after.first() == space);
    assert(after.drop_first() =~= rest);
    assert(words_of(after) == words_of(rest));
    assert(!is_space(s[0]));
}

/// Words that are joined by blanks are found again.
pub proof fn law_joined_words_are_found(words: Seq<Seq<char>>)
    requires
        forall|i: int| 0 <= i < words.len() ==> is_word(#[trigger] words[i]),
    ensures
        words_of(joined(words)) == words,
    decreases words.len(),
{
    if words.len() == 0 {
        assert(words_of(joined(words)) =~= words);
    } else if words.len() == 1 {
        let word = words[0];
        assert(is_word(word));
        lemma_word_len_is(word, word.len() as int);
        assert(word.take(word.len() as int) =~= word);
        assert(words_of(word.skip(word.len() as int)) =~= Seq::<Seq<char>>::empty());
        assert(!is_space(word[0]));
        assert(words_of(joined(words)) =~= words);
    } else {
        let rest = words.drop_first();
        assert forall|i: int| 0 <= i < rest.len() implies is_word(#[trigger] rest[i]) by {
            assert(rest[i] == words[i + 1]);
        }
        assert(is_word(words[0]));
        law_joined_words_are_found(rest);
        law_words_cons(words[0], ' ', joined(rest));
        assert(seq![words[0]] + rest =~= words);
    }
}

/// Lines with a line feed after each.
pub open spec fn with_newlines(all: Seq<Seq<char>>) -> Seq<char>
    decreases all.len(),
{
    if all.len() == 0 {
        Seq::empty()
    } else {
        all.first().push('\n') + with_newlines(all.drop_first())
    }
}

/// A line, a line feed and more text are that line and the lines of the
/// text. A carriage return before the line feed is no part of the line.
pub proof fn law_lines_cons(line: Seq<char>, rest: Seq<char>)
    requires
        forall|i: int| 0 <= i < line.len() ==> line[i] != '\n',
    ensures
        lines_of(line.push('\n') + rest) == seq![without_cr(line)] + lines_of(rest),
{
    let s = line.push('\n') + rest;
    assert forall|j: int| 0 <= j < line.len() implies s[j] != '\n' by {
        assert(s[j] == line[j]);
    }
    assert(s[line.len() as int] == '\n');
    lemma_position_is(s, '\n', line.len() as int);
    assert(s.take(line.len() as int) =~= line);
    assert(s.skip(line.len() as int + 1) =~= rest);
}

/// Trimming once is enough.
pub proof fn law_trim_is_idempotent(s: Seq<char>)
    ensures
        trimmed(trimmed(s)) == trimmed(s),
{
    lemma_trim_start(s);
    lemma_trim_end(trim_start(s));
    let t = trimmed(s);
    if t.len() > 0 {
        assert(t[0] == trim_start(s)[0]);
        assert(trim_start(t) == t);
    }
}

/// What `trim_start` leaves does not begin with white space.
proof fn lemma_trim_start(s: Seq<char>)
    ensures
        trim_start(s).len() > 0 ==> !is_space(trim_start(s)[0]),
    decreases s.len(),
{
    if s.len() > 0 && is_space(s.first()) {
        lemma_trim_start(s.drop_first());
    }
}

/// What `trim_end` leaves is a beginning that does not end in white space.
pub proof fn lemma_trim_end(s: Seq<char>)
    ensures
        trim_end(s).len() <= s.len(),
        trim_end(s) == s.take(trim_end(s).len() as int),
        trim_end(s).len() > 0 ==> !is_space(trim_end(s).last()),
        trim_end(trim_end(s)) == trim_end(s),
    decreases s.len(),
{
    if s.len() > 0 && is_space(s.last()) {
        lemma_trim_end(s.drop_last());
        assert(s.take(trim_end(s).len() as int) =~= s.drop_last().take(trim_end(s).len() as int));
    } else {
        assert(s.take(s.len() as int) =~= s);
    }
}

/// The first item that begins with `p` comes after items that do not.
pub proof fn lemma_first_beginning(items: Seq<Seq<char>>, p: Seq<char>, k: int)
    requires
        0 <= k < items.len(),
        begins(items[k], p),
        forall|i: int| 0 <= i < k ==> !begins(#[trigger] items[i], p),
    ensures
        first_beginning(items, p) == Some(items[k]),
    decreases k,
{
    if k > 0 {
        assert(!begins(items[0], p));
        let rest = items.drop_first();
        assert forall|i: int| 0 <= i < k - 1 implies !begins(#[trigger] rest[i], p) by {
            assert(rest[i] == items[i + 1]);
        }
        lemma_first_beginning(rest, p, k - 1);
    }
}

/// A text without a line feed is one line, and an empty text has none.
pub proof fn law_last_line(line: Seq<char>)
    requires
        !line.contains('\n'),
    ensures
        line.len() > 0 ==> lines_of(line) == seq![line],
        line.len() == 0 ==> lines_of(line).len() == 0,
{
    if line.len() > 0 {
        assert forall|j: int| 0 <= j < line.len() implies line[j] != '\n' by {
            assert(line.contains(line[j]));
        }
        lemma_position_is(line, '\n', line.len() as int);
    }
}

/// White space in front of a text does not change its words, and a text of
/// nothing but white space has none.
pub proof fn law_leading_space(spaces: Seq<char>, rest: Seq<char>)
    requires
        forall|i: int| 0 <= i < spaces.len() ==> is_space(#[trigger] spaces[i]),
    ensures
        words_of(spaces + rest) == words_of(rest),
        words_of(spaces).len() == 0,
    decreases spaces.len(),
{
    if spaces.len() == 0 {
        assert(spaces + rest =~= rest);
    } else {
        let fewer = spaces.drop_first();
        assert forall|i: int| 0 <= i < fewer.len() implies is_space(#[trigger] fewer[i]) by {
            assert(fewer[i] == spaces[i + 1]);
        }
        law_leading_space(fewer, rest);
        assert(is_space(spaces[0]));
        assert((spaces + rest).drop_first() =~= fewer + rest);
        assert((spaces + rest).first() == spaces[0]);
    }
}

/// What is trimmed is what stands between the white space at either end.
pub proof fn law_trimmed_is_the_middle(front: Seq<char>, middle: Seq<char>, back: Seq<char>)
    requires
        forall|i: int| 0 <= i < front.len() ==> is_space(#[trigger] front[i]),
        forall|i: int| 0 <= i < back.len() ==> is_space(#[trigger] back[i]),
        middle.len() > 0 ==> !is_space(middle.first()) && !is_space(middle.last()),
    ensures
        trimmed(front + middle + back) == middle,
    decreases front.len() + back.len(),
{
    let s = front + middle + back;
    if front.len() > 0 {
        let fewer = front.drop_first();
        assert forall|i: int| 0 <= i < fewer.len() implies is_space(#[trigger] fewer[i]) by {
            assert(fewer[i] == front[i + 1]);
        }
        assert(is_space(front[0]));
        assert(s.drop_first() =~= fewer + middle + back);
        law_trimmed_is_the_middle(fewer, middle, back);
    } else if middle.len() == 0 {
        assert(s =~= back);
        if back.len() > 0 {
            let fewer = back.drop_first();
            assert forall|i: int| 0 <= i < fewer.len() implies is_space(#[trigger] fewer[i]) by {
                assert(fewer[i] == back[i + 1]);
            }
            assert(is_space(back[0]));
            law_trimmed_is_the_middle(front, middle, fewer);
            assert(front + middle + fewer =~= fewer);
        } else {
            assert(s =~= middle);
        }
    } else {
        assert(s[0] == middle[0]);
        assert(trim_start(s) == s);
        lemma_trim_back(middle, back);
        assert(s =~= middle + back);
    }
}

/// White space at the end is what `trim_end` leaves out.
proof fn lemma_trim_back(middle: Seq<char>, back: Seq<char>)
    requires
        forall|i: int| 0 <= i < back.len() ==> is_space(#[trigger] back[i]),
        middle.len() > 0,
        !is_space(middle.last()),
    ensures
        trim_end(middle + back) == middle,
    decreases back.len(),
{
    let s = middle + back;
    if back.len() == 0 {
        assert(s =~= middle);
    } else {
        let fewer = back.drop_last();
        assert forall|i: int| 0 <= i < fewer.len() implies is_space(#[trigger] fewer[i]) by {
            assert(fewer[i] == back[i]);
        }
        assert(is_space(back[back.len() - 1]));
        assert(s.drop_last() =~= middle + fewer);
        lemma_trim_back(middle, fewer);
    }
}

/// A text begins with another where something follows that one to make it.
pub proof fn law_begins(s: Seq<char>, p: Seq<char>)
    ensures
        begins(s, p) <==> exists|rest: Seq<char>| s == #[trigger] (p + rest),
{
    if begins(s, p) {
        assert(s =~= p + s.skip(p.len() as int));
    }
    if exists|rest: Seq<char>| s == #[trigger] (p + rest) {
        let rest = choose|rest: Seq<char>| s == #[trigger] (p + rest);
        assert(s.take(p.len() as int) =~= p);
    }
}

/// A text ends with another where something stands before that one to make it.
pub proof fn law_ends(s: Seq<char>, p: Seq<char>)
    ensures
        ends(s, p) <==> exists|front: Seq<char>| s == #[trigger] (front + p),
{
    if ends(s, p) {
        assert(s =~= s.take(s.len() - p.len()) + p);
    }
    if exists|front: Seq<char>| s == #[trigger] (front + p) {
        let front = choose|front: Seq<char>| s == #[trigger] (front + p);
        assert(s.skip(s.len() - p.len()) =~= p);
    }
}

/// A text occurs in another where it stands between two parts of it.
pub proof fn law_occurs(front: Seq<char>, p: Seq<char>, back: Seq<char>)
    ensures
        occurs(front + p + back, p),
{
    let s = front + p + back;
    assert(s.skip(front.len() as int).take(p.len() as int) =~= p);
    assert(begins(s.skip(front.len() as int), p));
}

/// A text that occurs in another stands between two parts of it.
pub proof fn law_occurrence_has_a_place(s: Seq<char>, p: Seq<char>)
    requires
        occurs(s, p),
    ensures
        exists|i: int| 0 <= i && i + p.len() <= s.len() && #[trigger] s.subrange(i, i + p.len()) == p,
{
    let i = choose|i: int| 0 <= i <= s.len() && begins(#[trigger] s.skip(i), p);
    assert(s.subrange(i, i + p.len()) =~= s.skip(i).take(p.len() as int));
}

/// The first item that begins with a text is found: in whatever place it
/// stands, where none before it does. Where none does, none is found.
pub proof fn law_first_beginning(items: Seq<Seq<char>>, p: Seq<char>)
    ensures
        forall|k: int|
            0 <= k < items.len() && begins(#[trigger] items[k], p) && (forall|j: int|
                0 <= j < k ==> !begins(#[trigger] items[j], p)) ==> first_beginning(items, p)
                == Some(items[k]),
        (forall|j: int| 0 <= j < items.len() ==> !begins(#[trigger] items[j], p))
            ==> first_beginning(items, p) is None,
    decreases items.len(),
{
    assert forall|k: int|
        0 <= k < items.len() && begins(#[trigger] items[k], p) && (forall|j: int|
            0 <= j < k ==> !begins(#[trigger] items[j], p)) implies first_beginning(items, p)
        == Some(items[k]) by {
        lemma_first_beginning(items, p, k);
    }
    if items.len() > 0 && forall|j: int|
        0 <= j < items.len() ==> !begins(#[trigger] items[j], p) {
        let rest = items.drop_first();
        assert(!begins(items[0], p));
        assert forall|j: int| 0 <= j < rest.len() implies !begins(#[trigger] rest[j], p) by {
            assert(rest[j] == items[j + 1]);
        }
        law_first_beginning(rest, p);
    }
}

/// What follows the text in the first item that begins with it is found.
pub proof fn law_first_after(items: Seq<Seq<char>>, p: Seq<char>, k: int, rest: Seq<char>)
    requires
        0 <= k < items.len(),
        items[k] == p + rest,
        forall|j: int| 0 <= j < k ==> !begins(#[trigger] items[j], p),
    ensures
        first_after(items, p) == Some(rest),
{
    law_begins(items[k], p);
    law_first_beginning(items, p);
    assert(items[k].skip(p.len() as int) =~= rest);
}

/// Lines with a line feed after each are found again.
pub proof fn law_lines_are_found(all: Seq<Seq<char>>)
    requires
        forall|i: int|
            0 <= i < all.len() ==> !(#[trigger] all[i]).contains('\n') && without_cr(all[i])
                == all[i],
    ensures
        lines_of(with_newlines(all)) == all,
    decreases all.len(),
{
    if all.len() == 0 {
        assert(lines_of(with_newlines(all)) =~= all);
    } else {
        let rest = all.drop_first();
        assert(!all[0].contains('\n') && without_cr(all[0]) == all[0]);
        assert forall|i: int| 0 <= i < all[0].len() implies all[0][i] != '\n' by {
            assert(all[0].contains(all[0][i]));
        }
        assert forall|i: int| 0 <= i < rest.len() implies !(#[trigger] rest[i]).contains('\n')
            && without_cr(rest[i]) == rest[i] by {
            assert(rest[i] == all[i + 1]);
        }
        law_lines_are_found(rest);
        law_lines_cons(all[0], with_newlines(rest));
        assert(seq![all[0]] + rest =~= all);
    }
}

/// Of the characters of ASCII the blank, the tab, the line feed, the vertical
/// tab, the form feed and the carriage return are white space, and no others.
pub proof fn law_white_space(c: char)
    requires
        (c as u32) < 0x80,
    ensures
        is_space(c) <==> c == ' ' || c == '\t' || c == '\n' || c == '\u{b}' || c == '\u{c}' || c
            == '\r',
{
}

/// Beyond ASCII the characters that are white space are the next line, the
/// spaces of the typesetters, and the two separators.
pub proof fn law_other_white_space(c: char)
    requires
        c as u32 >= 0x80,
    ensures
        is_space(c) <==> seq![0x85int, 0xa0, 0x1680, 0x2028, 0x2029, 0x202f, 0x205f, 0x3000].contains(
            c as int,
        ) || 0x2000 <= c as int <= 0x200a,
{
    let all = seq![0x85int, 0xa0, 0x1680, 0x2028, 0x2029, 0x202f, 0x205f, 0x3000];
    assert(all[0] == 0x85 && all[1] == 0xa0 && all[2] == 0x1680 && all[3] == 0x2028);
    assert(all[4] == 0x2029 && all[5] == 0x202f && all[6] == 0x205f && all[7] == 0x3000);
}

/// The words of a text have numbers, from zero on, and a number that is too
/// high has no word.
pub proof fn law_words_have_numbers(s: Seq<char>, n: int)
    ensures
        0 <= n < words_of(s).len() ==> nth_word(s, n) == Some(words_of(s)[n]),
        n >= words_of(s).len() ==> nth_word(s, n) is None,
{
}

/// The texts of strings are those of each string, in the same order.
pub proof fn law_texts_of_strings(
    v: Seq<String>,
    w: Seq<&[char]>,
    s: &str,
    owned: String,
    k: int,
)
    ensures
        string_texts(v).len() == v.len(),
        0 <= k < v.len() ==> string_texts(v)[k] == v[k]@,
        texts(w).len() == w.len(),
        0 <= k < w.len() ==> texts(w)[k] == w[k]@,
        opt_str_text(Some(s)) == Some(s@),
        opt_str_text(None) is None,
        opt_text(Some(owned)) == Some(owned@),
        opt_text(None) is None,
{
}

/// A line ends in a line feed, or in a carriage return and a line feed; one
/// carriage return is left out, and nothing else of the line is.
pub proof fn law_line_ends(line: Seq<char>, rest: Seq<char>)
    requires
        !line.contains('\n'),
    ensures
        lines_of(line.push('\r').push('\n') + rest) == seq![line] + lines_of(rest),
        line.len() == 0 || line.last() != '\r' ==> lines_of(line.push('\n') + rest) == seq![line]
            + lines_of(rest),
{
    let returned = line.push('\r');
    assert forall|j: int| 0 <= j < returned.len() implies returned[j] != '\n' by {
        if j < line.len() {
            assert(line.contains(line[j]));
        }
    }
    law_lines_cons(returned, rest);
    assert forall|j: int| 0 <= j < line.len() implies line[j] != '\n' by {
        assert(line.contains(line[j]));
    }
    law_lines_cons(line, rest);
    assert(returned.drop_last() =~= line);
}

} // verus!
