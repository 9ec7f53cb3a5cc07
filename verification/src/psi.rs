//! Pressure Stall Information: what the pressure files say, and which of them
//! are watched.

use vstd::prelude::*;

use crate::config::Config;
use crate::number::{
    decimal, law_unsigned_round_trip, lemma_decimal, parse_u64, parsed_u64,
};
use crate::text::{
    begins, chars_of, find_beginning, first_after, first_beginning, is_space, is_word, joined,
    law_joined_words_are_found, law_lines_cons, lemma_first_beginning, lines, lines_of,
    opt_str_text, opt_text, starts_with, string_of, strip_prefix, with_newlines, without_cr, words,
    words_of,
};

verus! {

/// The system-wide pressure file.
pub const PSI_MEMORY: &'static str = "/proc/pressure/memory";

// -------------------------------------------------------- pressure files
/// The line of a pressure file for this kind.
pub open spec fn line_of(kind: Seq<char>, text: Seq<char>) -> Option<Seq<char>> {
    first_beginning(lines_of(text), kind)
}

/// What follows `key` in the line of a pressure file for this kind.
pub open spec fn field_of(kind: Seq<char>, key: Seq<char>, text: Seq<char>) -> Option<Seq<char>> {
    match line_of(kind, text) {
        Some(line) => first_after(words_of(line), key),
        None => None,
    }
}

/// What follows `key` in the line of a pressure file for this kind.
fn field(kind: &str, key: &str, psi_text: &str) -> (r: Option<String>)
    ensures
        opt_text(r) == field_of(kind@, key@, psi_text@),
{
    let text: Vec<char> = chars_of(psi_text);
    let all: Vec<&[char]> = lines(text.as_slice());
    match find_beginning(&all, kind) {
        Some(line) => {
            let parts: Vec<&[char]> = words(line);
            match find_beginning(&parts, key) {
                Some(word) => match strip_prefix(word, key) {
                    Some(value) => Some(string_of(value)),
                    None => None,
                },
                None => None,
            }
        },
        None => None,
    }
}

/// The ten-second average, as it is written, for `kind`.
pub fn avg10_text(kind: &str, psi_text: &str) -> (r: Option<String>)
    ensures
        opt_text(r) == field_of(kind@, "avg10="@, psi_text@),
{
    field(kind, "avg10=", psi_text)
}

/// The running stall counter for `kind`, in microseconds; zero where there
/// is none.
pub open spec fn total_of(kind: Seq<char>, text: Seq<char>) -> u64 {
    match field_of(kind, "total="@, text) {
        Some(value) => match parsed_u64(value) {
            Ok(n) => n,
            Err(_) => 0,
        },
        None => 0,
    }
}

/// The running stall counter (`total=<us>`) for `kind`.
pub fn total_us_of(kind: &str, psi_text: &str) -> (r: u64)
    ensures
        r == total_of(kind@, psi_text@),
{
    match field(kind, "total=", psi_text) {
        Some(value) => {
            let value: Vec<char> = chars_of(value.as_str());
            match parse_u64(value.as_slice()) {
                Ok(n) => n,
                Err(_) => 0,
            }
        },
        None => 0,
    }
}

/// The line that the dialog shows; nothing where there is none.
pub open spec fn shown_line(kind: Seq<char>, text: Option<Seq<char>>) -> Seq<char> {
    match text {
        Some(t) => match line_of(kind, t) {
            Some(line) => line,
            None => ""@,
        },
        None => ""@,
    }
}

/// The line of a pressure file, as far as it could be read, that the dialog
/// shows.
pub fn psi_line(kind: &str, psi_text: Option<&str>) -> (r: String)
    ensures
        r@ == shown_line(kind@, opt_str_text(psi_text)),
{
    if let Some(text) = psi_text {
        let text: Vec<char> = chars_of(text);
        let all: Vec<&[char]> = lines(text.as_slice());
        if let Some(line) = find_beginning(&all, kind) {
            return string_of(line);
        }
    }
    "".to_string()
}

/// The second word of the line of `/proc/meminfo` that begins with `name`.
pub open spec fn meminfo_value(name: Seq<char>, meminfo: Seq<char>) -> Option<Seq<char>> {
    match first_beginning(lines_of(meminfo), name) {
        Some(line) => crate::text::nth_word(line, 1),
        None => None,
    }
}

/// The number, as it is written, in the line of `/proc/meminfo` that begins
/// with `name`.
pub fn meminfo_text(name: &str, meminfo: &str) -> (r: Option<String>)
    ensures
        opt_text(r) == meminfo_value(name@, meminfo@),
{
    let text: Vec<char> = chars_of(meminfo);
    let all: Vec<&[char]> = lines(text.as_slice());
    match find_beginning(&all, name) {
        Some(line) => match crate::text::word_at(line, 1) {
            Some(word) => Some(string_of(word)),
            None => None,
        },
        None => None,
    }
}

// --------------------------------------------------------------- sources
/// A pressure file that is to be watched.
pub struct SourcePlan {
    /// `system` or the cgroup's name, shown in the dialog
    pub label: String,
    /// the pressure file
    pub pressure_path: String,
    /// cgroup directory; candidates are limited to its member processes
    pub cgroup_dir: Option<String>,
}

/// One watched pressure file.
pub struct PsiSource<T> {
    /// `system` or the cgroup's name, shown in the dialog
    pub label: String,
    /// the pressure file, for re-reading stats
    pub pressure_path: String,
    /// cgroup directory; candidates are limited to its member processes
    pub cgroup_dir: Option<String>,
    /// armed trigger, or `None` to poll the average (fallback)
    pub trigger: Option<T>,
}

/// A plan, with its texts as sequences of characters.
pub struct PlanView {
    pub label: Seq<char>,
    pub pressure_path: Seq<char>,
    pub cgroup_dir: Option<Seq<char>>,
}

impl View for SourcePlan {
    type V = PlanView;

    open spec fn view(&self) -> PlanView {
        PlanView {
            label: self.label@,
            pressure_path: self.pressure_path@,
            cgroup_dir: opt_text(self.cgroup_dir),
        }
    }
}

impl<T> PsiSource<T> {
    /// The plan that the source was made from.
    pub open spec fn plan(&self) -> PlanView {
        PlanView {
            label: self.label@,
            pressure_path: self.pressure_path@,
            cgroup_dir: opt_text(self.cgroup_dir),
        }
    }
}

/// The plan for the whole system.
pub open spec fn system_plan() -> PlanView {
    PlanView { label: "system"@, pressure_path: PSI_MEMORY@, cgroup_dir: None }
}

/// The directory of a cgroup: an absolute path, or one below the directory
/// of all cgroups.
pub open spec fn cgroup_dir_of(cgroup: Seq<char>) -> Seq<char> {
    if begins(cgroup, "/"@) {
        cgroup
    } else {
        "/sys/fs/cgroup/"@ + cgroup
    }
}

/// What follows the last slash.
pub open spec fn last_segment(path: Seq<char>) -> Seq<char>
    decreases path.len(),
{
    if path.len() == 0 || path.last() == '/' {
        Seq::empty()
    } else {
        last_segment(path.drop_last()).push(path.last())
    }
}

/// The name of the cgroup in a directory: the last part of the path. Slashes
/// at the end of the path do not matter.
pub open spec fn cgroup_name(path: Seq<char>) -> Seq<char>
    decreases path.len(),
{
    if path.len() > 0 && path.last() == '/' {
        cgroup_name(path.drop_last())
    } else {
        last_segment(path)
    }
}

/// The plan for a cgroup: it has the cgroup's name.
pub open spec fn cgroup_plan(cgroup: Seq<char>) -> PlanView {
    let dir = cgroup_dir_of(cgroup);
    PlanView {
        label: cgroup_name(dir),
        pressure_path: dir + "/memory.pressure"@,
        cgroup_dir: Some(dir),
    }
}

/// The name of the cgroup in a directory.
fn name_of_dir(path: &str) -> (r: String)
    ensures
        r@ == cgroup_name(path@),
{
    let all: Vec<char> = chars_of(path);
    let mut to: usize = all.len();
    assert(all@.take(to as int) =~= all@);
    while to > 0 && all[to - 1] == '/'
        invariant
            to <= all.len(),
            cgroup_name(all@.take(to as int)) == cgroup_name(all@),
        decreases to,
    {
        assert(all@.take(to as int).drop_last() =~= all@.take(to - 1));
        to = to - 1;
    }
    let ghost kept = all@.take(to as int);
    assert(cgroup_name(kept) == last_segment(kept));
    let mut from: usize = to;
    assert(kept.take(from as int) =~= kept);
    assert(last_segment(kept) =~= last_segment(kept) + kept.skip(from as int));
    while from > 0 && all[from - 1] != '/'
        invariant
            from <= to <= all.len(),
            kept == all@.take(to as int),
            last_segment(kept) == last_segment(kept.take(from as int)) + kept.skip(from as int),
        decreases from,
    {
        let ghost front = kept.take(from as int);
        assert(front.drop_last() =~= kept.take(from - 1));
        assert(front.last() == all@[from - 1]);
        assert(last_segment(front.drop_last()).push(front.last()) + kept.skip(from as int)
            =~= last_segment(front.drop_last()) + kept.skip(from - 1));
        from = from - 1;
    }
    assert(from > 0 ==> kept.take(from as int).last() == '/');
    assert(last_segment(kept) =~= kept.skip(from as int));
    assert(all@.subrange(from as int, to as int) =~= kept.skip(from as int));
    string_of(vstd::slice::slice_subrange(all.as_slice(), from, to))
}

/// The plans for what is to be watched: the whole system, and the cgroups in
/// their order.
pub open spec fn plans_for(cgroups: Seq<String>) -> Seq<PlanView> {
    seq![system_plan()] + cgroups.map_values(|c: String| cgroup_plan(c@))
}

/// The plans that a list holds.
pub open spec fn plan_views(v: Seq<SourcePlan>) -> Seq<PlanView> {
    v.map_values(|p: SourcePlan| p@)
}

/// The plans for what is to be watched.
pub fn plan_sources(cfg: &Config) -> (r: Vec<SourcePlan>)
    ensures
        plan_views(r@) == plans_for(cfg.cgroups@),
{
    let mut out: Vec<SourcePlan> = Vec::new();
    out.push(
        SourcePlan {
            label: "system".to_string(),
            pressure_path: PSI_MEMORY.to_string(),
            cgroup_dir: None,
        },
    );
    let ghost whole = plans_for(cfg.cgroups@);
    let mut i: usize = 0;
    assert(plan_views(out@) =~= whole.take(1));
    while i < cfg.cgroups.len()
        invariant
            i <= cfg.cgroups.len(),
            whole == plans_for(cfg.cgroups@),
            plan_views(out@) == whole.take(i + 1),
        decreases cfg.cgroups.len() - i,
    {
        let name: &str = cfg.cgroups[i].as_str();
        let chars: Vec<char> = chars_of(name);
        let mut dir: String = String::new();
        if !starts_with(chars.as_slice(), "/") {
            dir.append("/sys/fs/cgroup/");
        }
        dir.append(name);
        assert(dir@ =~= cgroup_dir_of(name@));
        let label: String = name_of_dir(dir.as_str());
        let mut path: String = dir.clone();
        path.append("/memory.pressure");
        let ghost before = plan_views(out@);
        let plan: SourcePlan = SourcePlan { label, pressure_path: path, cgroup_dir: Some(dir) };
        let ghost view = plan@;
        out.push(plan);
        assert(view == cgroup_plan(name@));
        assert(whole[i + 1] == view);
        assert(plan_views(out@) =~= before.push(view));
        assert(plan_views(out@) =~= whole.take(i + 2));
        i = i + 1;
    }
    assert(whole.take(i + 1) =~= whole);
    out
}

/// Whether a plan becomes a source: that of the system in any case, that of
/// a cgroup only where a trigger could be armed.
pub open spec fn becomes_source<T>(plan: PlanView, trigger: Option<T>) -> bool {
    plan.cgroup_dir is None || trigger is Some
}

/// The source that a plan becomes, if it becomes one.
pub fn to_source<T>(plan: SourcePlan, trigger: Option<T>) -> (r: Option<PsiSource<T>>)
    ensures
        r is Some == becomes_source(plan@, trigger),
        r matches Some(source) ==> source.plan() == plan@ && source.trigger == trigger,
{
    if plan.cgroup_dir.is_none() || trigger.is_some() {
        Some(
            PsiSource {
                label: plan.label,
                pressure_path: plan.pressure_path,
                cgroup_dir: plan.cgroup_dir,
                trigger,
            },
        )
    } else {
        None
    }
}

/// What is known of a source: its plan and its trigger.
pub open spec fn source_views<T>(v: Seq<PsiSource<T>>) -> Seq<(PlanView, Option<T>)> {
    v.map_values(|s: PsiSource<T>| (s.plan(), s.trigger))
}

/// The sources that the plans become, given what arming each trigger gave.
pub open spec fn sources_for<T>(
    plans: Seq<PlanView>,
    triggers: Seq<Option<T>>,
) -> Seq<(PlanView, Option<T>)>
    decreases plans.len(),
{
    if plans.len() == 0 {
        Seq::empty()
    } else {
        let rest = sources_for(plans.drop_first(), triggers.drop_first());
        if becomes_source(plans.first(), triggers.first()) {
            seq![(plans.first(), triggers.first())] + rest
        } else {
            rest
        }
    }
}

/// The sources that the plans become, given what arming each trigger gave.
pub fn setup_sources<T>(plans: Vec<SourcePlan>, triggers: Vec<Option<T>>) -> (r: Vec<PsiSource<T>>)
    requires
        plans@.len() == triggers@.len(),
    ensures
        source_views(r@) == sources_for(plan_views(plans@), triggers@),
{
    let ghost whole = sources_for(plan_views(plans@), triggers@);
    let mut plans = plans;
    let mut triggers = triggers;
    let mut out: Vec<PsiSource<T>> = Vec::new();
    assert(source_views(out@) + whole =~= whole);
    while plans.len() > 0
        invariant
            plans@.len() == triggers@.len(),
            source_views(out@) + sources_for(plan_views(plans@), triggers@) == whole,
        decreases plans@.len(),
    {
        let ghost before = source_views(out@);
        let ghost all = plan_views(plans@);
        let ghost armed = triggers@;
        let plan: SourcePlan = plans.remove(0);
        let trigger: Option<T> = triggers.remove(0);
        assert(plan_views(plans@) =~= all.drop_first());
        assert(triggers@ =~= armed.drop_first());
        assert(plan@ == all.first());
        let ghost rest = sources_for(plan_views(plans@), triggers@);
        if let Some(source) = to_source(plan, trigger) {
            let ghost view = (source.plan(), source.trigger);
            out.push(source);
            assert(source_views(out@) =~= before.push(view));
            assert(before.push(view) + rest =~= before + (seq![view] + rest));
        }
    }
    assert(source_views(out@) + sources_for(plan_views(plans@), triggers@) =~= source_views(out@));
    out
}

// ------------------------------------------------------------------ laws
/// A field of a pressure file is read as it is written: where a line begins
/// with the kind and is made of words, and the first word that begins with
/// the key is the key and a value, the value is what is read, whatever lines
/// of other kinds stand before it and whatever stands after it.
pub proof fn law_field_is_read(
    kind: Seq<char>,
    key: Seq<char>,
    value: Seq<char>,
    words: Seq<Seq<char>>,
    k: int,
    others: Seq<Seq<char>>,
    rest: Seq<char>,
)
    requires
        0 <= k < words.len(),
        words[k] == key + value,
        forall|i: int| 0 <= i < k ==> !begins(#[trigger] words[i], key),
        forall|i: int| 0 <= i < words.len() ==> is_word(#[trigger] words[i]),
        begins(joined(words), kind),
        forall|i: int|
            0 <= i < others.len() ==> !begins(without_cr(#[trigger] others[i]), kind)
                && !others[i].contains('\n'),
    ensures
        field_of(kind, key, with_newlines(others) + (joined(words).push('\n') + rest)) == Some(
            value,
        ),
    decreases others.len(),
{
    let line = joined(words);
    let text = line.push('\n') + rest;
    if others.len() == 0 {
        assert(with_newlines(others) + text =~= text);
        law_joined_words_are_found(words);
        lemma_joined_chars(words);
        law_lines_cons(line, rest);
        assert(without_cr(line) == line) by {
            if line.len() > 0 {
                assert(line[line.len() - 1] != '\r');
            }
        }
        assert(first_beginning(lines_of(text), kind) == Some(line)) by {
            assert(lines_of(text).first() == line);
        }
        assert(words[k].take(key.len() as int) =~= key);
        lemma_first_beginning(words, key, k);
        assert(words[k].skip(key.len() as int) =~= value);
    } else {
        let first = others[0];
        let more = others.drop_first();
        assert(!begins(without_cr(first), kind) && !first.contains('\n'));
        assert forall|i: int| 0 <= i < more.len() implies !begins(
            without_cr(#[trigger] more[i]),
            kind,
        ) && !more[i].contains('\n') by {
            assert(more[i] == others[i + 1]);
        }
        law_field_is_read(kind, key, value, words, k, more, rest);
        let below = with_newlines(more) + text;
        assert(with_newlines(others) + text =~= first.push('\n') + below);
        law_lines_cons(first, below);
        let all = lines_of(first.push('\n') + below);
        assert(all.drop_first() =~= lines_of(below));
        assert(all.first() == without_cr(first));
    }
}

/// Words that are joined by blanks hold neither a line feed nor a carriage
/// return.
proof fn lemma_joined_chars(words: Seq<Seq<char>>)
    requires
        forall|i: int| 0 <= i < words.len() ==> is_word(#[trigger] words[i]),
    ensures
        forall|i: int|
            0 <= i < joined(words).len() ==> joined(words)[i] != '\n' && #[trigger] joined(words)[i]
                != '\r',
    decreases words.len(),
{
    let s = joined(words);
    if words.len() > 0 {
        let first = words[0];
        assert(is_word(first));
        let rest = words.drop_first();
        assert forall|i: int| 0 <= i < rest.len() implies is_word(#[trigger] rest[i]) by {
            assert(rest[i] == words[i + 1]);
        }
        lemma_joined_chars(rest);
        assert forall|i: int| 0 <= i < s.len() implies s[i] != '\n' && #[trigger] s[i] != '\r' by {
            if i < first.len() {
                assert(s[i] == first[i]);
                assert(!is_space(first[i]));
            } else if i > first.len() {
                assert(s[i] == joined(rest)[i - first.len() - 1]);
            }
        }
    }
}

/// The running stall counter is read as the kernel writes it: in a line
/// `<kind> avg10=<a> avg60=<b> avg300=<c> total=<n>`, of either kind, the
/// counter is `n` and the ten-second average is `a`.
pub proof fn law_pressure_line_is_read(
    kind: Seq<char>,
    a: Seq<char>,
    b: Seq<char>,
    c: Seq<char>,
    n: u64,
    others: Seq<Seq<char>>,
    rest: Seq<char>,
)
    requires
        kind == "some"@ || kind == "full"@,
        is_word(a),
        is_word(b),
        is_word(c),
        forall|i: int|
            0 <= i < others.len() ==> !begins(without_cr(#[trigger] others[i]), kind)
                && !others[i].contains('\n'),
    ensures
        ({
            let line = joined(
                seq![
                    kind,
                    "avg10="@ + a,
                    "avg60="@ + b,
                    "avg300="@ + c,
                    "total="@ + decimal(n as nat),
                ],
            );
            let text = with_newlines(others) + (line.push('\n') + rest);
            &&& total_of(kind, text) == n
            &&& field_of(kind, "avg10="@, text) == Some(a)
        }),
{
    reveal_strlit("some");
    reveal_strlit("full");
    reveal_strlit("avg10=");
    reveal_strlit("avg60=");
    reveal_strlit("avg300=");
    reveal_strlit("total=");
    let d = decimal(n as nat);
    let words = seq![kind, "avg10="@ + a, "avg60="@ + b, "avg300="@ + c, "total="@ + d];
    lemma_decimal(n as nat);
    assert(is_word(kind));
    assert(is_word(d)) by {
        assert forall|i: int| 0 <= i < d.len() implies !is_space(#[trigger] d[i]) by {
            assert(crate::number::is_digit(d[i]));
        }
    }
    lemma_word_after("avg10="@, a);
    lemma_word_after("avg60="@, b);
    lemma_word_after("avg300="@, c);
    lemma_word_after("total="@, d);
    assert forall|i: int| 0 <= i < words.len() implies is_word(#[trigger] words[i]) by {}
    let line = joined(words);
    assert(begins(line, kind)) by {
        assert(line.take(kind.len() as int) =~= kind);
    }
    assert forall|i: int| 0 <= i < 4 implies !begins(#[trigger] words[i], "total="@) by {
        if words[i].len() >= 6 {
            assert(words[i].take(6)[0] == words[i][0]);
        }
    }
    law_field_is_read(kind, "total="@, d, words, 4, others, rest);
    law_unsigned_round_trip(n);
    assert forall|i: int| 0 <= i < 1 implies !begins(#[trigger] words[i], "avg10="@) by {}
    law_field_is_read(kind, "avg10="@, a, words, 1, others, rest);
}

/// A word with a word in front of it is one.
proof fn lemma_word_after(front: Seq<char>, back: Seq<char>)
    requires
        is_word(front),
        is_word(back),
    ensures
        is_word(front + back),
{
    let s = front + back;
    assert forall|i: int| 0 <= i < s.len() implies !is_space(#[trigger] s[i]) by {
        if i < front.len() {
            assert(s[i] == front[i]);
        } else {
            assert(s[i] == back[i - front.len()]);
        }
    }
}

/// What follows the last slash of a path that ends in a part without slashes
/// is that part.
proof fn lemma_last_segment(front: Seq<char>, name: Seq<char>)
    requires
        front.len() > 0 ==> front.last() == '/',
        !name.contains('/'),
    ensures
        last_segment(front + name) == name,
    decreases name.len(),
{
    let path = front + name;
    if name.len() == 0 {
        assert(path =~= front);
        assert(last_segment(path) =~= name);
    } else {
        let shorter = name.drop_last();
        assert(name.contains(name.last()));
        if shorter.contains('/') {
            let k = choose|k: int| 0 <= k < shorter.len() && shorter[k] == '/';
            assert(name[k] == '/');
        }
        lemma_last_segment(front, shorter);
        assert(path.drop_last() =~= front + shorter);
        assert(path.last() == name.last());
        assert(last_segment(path) =~= name);
    }
}

/// Slashes at the end of a path do not change the name of the cgroup.
proof fn lemma_slashes_dropped(path: Seq<char>, slashes: Seq<char>)
    requires
        forall|i: int| 0 <= i < slashes.len() ==> slashes[i] == '/',
    ensures
        cgroup_name(path + slashes) == cgroup_name(path),
    decreases slashes.len(),
{
    if slashes.len() == 0 {
        assert(path + slashes =~= path);
    } else {
        lemma_slashes_dropped(path, slashes.drop_last());
        assert((path + slashes).last() == slashes[slashes.len() - 1]);
        assert((path + slashes).drop_last() =~= path + slashes.drop_last());
    }
}

/// A cgroup is shown by its name: whether it is given by an absolute path or
/// by a relative one, with whatever directories in front of the name and with
/// any number of slashes after it, the label is the name.
pub proof fn law_cgroup_is_named(front: Seq<char>, name: Seq<char>, slashes: Seq<char>)
    requires
        front.len() > 0 ==> front.last() == '/',
        name.len() > 0,
        !name.contains('/'),
        forall|i: int| 0 <= i < slashes.len() ==> slashes[i] == '/',
    ensures
        cgroup_plan(front + name + slashes).label == name,
{
    reveal_strlit("/sys/fs/cgroup/");
    let cgroup = front + name + slashes;
    let dir = cgroup_dir_of(cgroup);
    let above = if begins(cgroup, "/"@) {
        front
    } else {
        "/sys/fs/cgroup/"@ + front
    };
    assert(dir =~= above + name + slashes);
    assert(above.len() > 0 ==> above.last() == '/');
    lemma_slashes_dropped(above + name, slashes);
    assert((above + name).last() == name.last());
    assert(name.contains(name.last()));
    lemma_last_segment(above, name);
}

/// The name of a cgroup holds no slash, and only a path of nothing but slashes
/// has an empty one.
pub proof fn law_cgroup_names(path: Seq<char>)
    ensures
        !cgroup_name(path).contains('/'),
        cgroup_name(path).len() == 0 <==> forall|i: int| 0 <= i < path.len() ==> path[i] == '/',
    decreases path.len(),
{
    if path.len() > 0 && path.last() == '/' {
        let front = path.drop_last();
        law_cgroup_names(front);
        if forall|i: int| 0 <= i < front.len() ==> front[i] == '/' {
            assert forall|i: int| 0 <= i < path.len() implies path[i] == '/' by {
                if i < front.len() {
                    assert(path[i] == front[i]);
                }
            }
        }
        if forall|i: int| 0 <= i < path.len() ==> path[i] == '/' {
            assert forall|i: int| 0 <= i < front.len() implies front[i] == '/' by {
                assert(path[i] == front[i]);
            }
        }
    } else {
        lemma_segment_has_no_slash(path);
        if path.len() > 0 {
            assert(path[path.len() - 1] != '/');
        }
    }
}

/// What follows the last slash holds none.
proof fn lemma_segment_has_no_slash(path: Seq<char>)
    ensures
        !last_segment(path).contains('/'),
    decreases path.len(),
{
    if path.len() > 0 && path.last() != '/' {
        let name = last_segment(path.drop_last());
        lemma_segment_has_no_slash(path.drop_last());
        if last_segment(path).contains('/') {
            let k = choose|k: int|
                0 <= k < last_segment(path).len() && last_segment(path)[k] == '/';
            assert(name[k] == '/');
        }
    }
}

/// The system is always watched, and first; whether its trigger could be
/// armed only says how.
pub proof fn law_system_is_watched<T>(cgroups: Seq<String>, triggers: Seq<Option<T>>)
    requires
        triggers.len() == plans_for(cgroups).len(),
    ensures
        sources_for(plans_for(cgroups), triggers).len() > 0,
        sources_for(plans_for(cgroups), triggers)[0] == (system_plan(), triggers[0]),
{
    assert(plans_for(cgroups).first() == system_plan());
}

/// Every source but that of the system has a trigger.
pub proof fn law_cgroups_are_armed<T>(
    plans: Seq<PlanView>,
    triggers: Seq<Option<T>>,
    i: int,
)
    requires
        triggers.len() == plans.len(),
        0 <= i < sources_for(plans, triggers).len(),
    ensures
        sources_for(plans, triggers)[i].0.cgroup_dir is Some ==> sources_for(
            plans,
            triggers,
        )[i].1 is Some,
    decreases plans.len(),
{
    let all = sources_for(plans, triggers);
    let rest = sources_for(plans.drop_first(), triggers.drop_first());
    if becomes_source(plans.first(), triggers.first()) {
        if i > 0 {
            law_cgroups_are_armed(plans.drop_first(), triggers.drop_first(), i - 1);
            assert(all[i] == rest[i - 1]);
        }
    } else {
        law_cgroups_are_armed(plans.drop_first(), triggers.drop_first(), i);
    }
}

/// A cgroup is watched in its own directory: an absolute path is taken as it
/// is, and any other one is looked for below the directory of all cgroups.
pub proof fn law_cgroup_directory(cgroup: Seq<char>)
    ensures
        cgroup.len() > 0 && cgroup[0] == '/' ==> cgroup_plan(cgroup).cgroup_dir == Some(cgroup)
            && cgroup_plan(cgroup).pressure_path == cgroup + "/memory.pressure"@,
        cgroup.len() == 0 || cgroup[0] != '/' ==> cgroup_plan(cgroup).cgroup_dir == Some(
            "/sys/fs/cgroup/"@ + cgroup,
        ) && cgroup_plan(cgroup).pressure_path == "/sys/fs/cgroup/"@ + cgroup
            + "/memory.pressure"@,
{
    reveal_strlit("/");
    if cgroup.len() > 0 {
        assert(cgroup.take(1)[0] == cgroup[0]);
        if cgroup[0] == '/' {
            assert(cgroup.take(1) =~= "/"@);
        }
    }
}

/// What is watched: the system first, by the system-wide file, and then each
/// cgroup that was asked for, in order.
pub proof fn law_what_is_watched(cgroups: Seq<String>)
    ensures
        plans_for(cgroups).len() == cgroups.len() + 1,
        plans_for(cgroups)[0] == (PlanView {
            label: "system"@,
            pressure_path: "/proc/pressure/memory"@,
            cgroup_dir: None,
        }),
        forall|i: int|
            0 <= i < cgroups.len() ==> #[trigger] plans_for(cgroups)[i + 1] == cgroup_plan(
                cgroups[i]@,
            ),
{
}

/// The sources are the plans with their triggers, in order, without the
/// cgroups whose trigger could not be armed.
pub proof fn law_sources_are_the_armed_plans<T>(
    plans: Seq<PlanView>,
    triggers: Seq<Option<T>>,
)
    requires
        triggers.len() == plans.len(),
    ensures
        sources_for(plans, triggers) == Seq::new(
            plans.len(),
            |i: int| (plans[i], triggers[i]),
        ).filter(|p: (PlanView, Option<T>)| p.0.cgroup_dir is None || p.1 is Some),
    decreases plans.len(),
{
    reveal(Seq::filter);
    let keep = |p: (PlanView, Option<T>)| p.0.cgroup_dir is None || p.1 is Some;
    let all = Seq::new(plans.len(), |i: int| (plans[i], triggers[i]));
    if plans.len() == 0 {
        assert(sources_for(plans, triggers) =~= all.filter(keep));
    } else {
        let more = plans.drop_first();
        let armed = triggers.drop_first();
        law_sources_are_the_armed_plans(more, armed);
        let rest = Seq::new(more.len(), |i: int| (more[i], armed[i]));
        let first = seq![(plans.first(), triggers.first())];
        assert(all =~= first + rest);
        Seq::filter_distributes_over_add(first, rest, keep);
        assert(first.drop_last() =~= Seq::<(PlanView, Option<T>)>::empty());
        reveal_with_fuel(Seq::filter, 2);
        assert(first.filter(keep) =~= if keep(first[0]) {
            first
        } else {
            Seq::empty()
        });
        assert(sources_for(plans, triggers) =~= all.filter(keep));
    }
}

/// Where no line of a pressure file begins with the kind, there is no average,
/// the counter is zero, and no line is shown.
pub proof fn law_kind_is_missing(kind: Seq<char>, key: Seq<char>, text: Seq<char>)
    requires
        forall|i: int|
            0 <= i < lines_of(text).len() ==> !begins(#[trigger] lines_of(text)[i], kind),
    ensures
        field_of(kind, key, text) is None,
        total_of(kind, text) == 0,
        shown_line(kind, Some(text)) == ""@,
        shown_line(kind, None) == ""@,
{
    crate::text::law_first_beginning(lines_of(text), kind);
}

/// The line that is shown is the first one that begins with the kind, in
/// whatever place it stands.
pub proof fn law_line_is_shown(kind: Seq<char>, text: Seq<char>, k: int)
    requires
        0 <= k < lines_of(text).len(),
        begins(lines_of(text)[k], kind),
        forall|j: int| 0 <= j < k ==> !begins(#[trigger] lines_of(text)[j], kind),
    ensures
        shown_line(kind, Some(text)) == lines_of(text)[k],
{
    crate::text::law_first_beginning(lines_of(text), kind);
}

/// The counter is the number behind `total=` in the first word that begins so,
/// of the first line that begins with the kind. Where that is no number, or
/// there is no such word, the counter is zero.
pub proof fn law_counter_is_the_number(kind: Seq<char>, text: Seq<char>, k: int, value: Seq<char>)
    requires
        0 <= k < lines_of(text).len(),
        begins(lines_of(text)[k], kind),
        forall|j: int| 0 <= j < k ==> !begins(#[trigger] lines_of(text)[j], kind),
    ensures
        (exists|m: int|
            0 <= m < words_of(lines_of(text)[k]).len() && #[trigger] words_of(lines_of(text)[k])[m]
                == "total="@ + value && (forall|j: int|
                0 <= j < m ==> !begins(#[trigger] words_of(lines_of(text)[k])[j], "total="@)))
            ==> total_of(kind, text) == match parsed_u64(value) {
            Ok(n) => n,
            Err(_) => 0,
        },
        (forall|j: int|
            0 <= j < words_of(lines_of(text)[k]).len() ==> !begins(
                #[trigger] words_of(lines_of(text)[k])[j],
                "total="@,
            )) ==> total_of(kind, text) == 0,
{
    crate::text::law_first_beginning(lines_of(text), kind);
    let words = words_of(lines_of(text)[k]);
    crate::text::law_first_beginning(words, "total="@);
    if exists|m: int|
        0 <= m < words.len() && #[trigger] words[m] == "total="@ + value && (forall|j: int|
            0 <= j < m ==> !begins(#[trigger] words[j], "total="@)) {
        let m = choose|m: int|
            0 <= m < words.len() && #[trigger] words[m] == "total="@ + value && (forall|j: int|
                0 <= j < m ==> !begins(#[trigger] words[j], "total="@));
        crate::text::law_first_after(words, "total="@, m, value);
    }
}

/// The number of a line of `/proc/meminfo` is the second word of the first
/// line that begins with the name; without such a line or word there is none.
pub proof fn law_meminfo_is_read(name: Seq<char>, meminfo: Seq<char>, k: int)
    ensures
        0 <= k < lines_of(meminfo).len() && begins(lines_of(meminfo)[k], name) && (forall|j: int|
            0 <= j < k ==> !begins(#[trigger] lines_of(meminfo)[j], name)) ==> meminfo_value(
            name,
            meminfo,
        ) == (if words_of(lines_of(meminfo)[k]).len() > 1 {
            Some(words_of(lines_of(meminfo)[k])[1])
        } else {
            None
        }),
        (forall|j: int|
            0 <= j < lines_of(meminfo).len() ==> !begins(#[trigger] lines_of(meminfo)[j], name))
            ==> meminfo_value(name, meminfo) is None,
{
    crate::text::law_first_beginning(lines_of(meminfo), name);
}

/// A plan and a source are what their fields say.
pub proof fn law_plans_are_their_fields<T>(plan: SourcePlan, source: PsiSource<T>)
    ensures
        plan@.label == plan.label@,
        plan@.pressure_path == plan.pressure_path@,
        plan@.cgroup_dir == opt_text(plan.cgroup_dir),
        source.plan().label == source.label@,
        source.plan().pressure_path == source.pressure_path@,
        source.plan().cgroup_dir == opt_text(source.cgroup_dir),
{
}

/// The views of plans and sources are those of each of them, in the same
/// order.
pub proof fn law_views_of_sources<T>(plans: Seq<SourcePlan>, sources: Seq<PsiSource<T>>, k: int)
    ensures
        plan_views(plans).len() == plans.len(),
        0 <= k < plans.len() ==> plan_views(plans)[k] == plans[k]@,
        source_views(sources).len() == sources.len(),
        0 <= k < sources.len() ==> source_views(sources)[k].0 == sources[k].plan()
            && source_views(sources)[k].1 == sources[k].trigger,
{
}

} // verus!
