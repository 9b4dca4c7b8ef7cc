//! The text form of a task list: a bidirectional converter between a
//! `List` and the TODO file grammar.
//!
//! Writing renders a header, two date lines, the open tasks sorted by
//! creation time, and — when any exist — the completed tasks sorted by
//! completion time.  Reading accepts that grammar back, tolerating blank
//! lines between the metadata lines and either an em-dash or an ASCII
//! hyphen after `TODO`.

use vstd::prelude::*;

use crate::error::ParseError;
use crate::list::{List, ListV};
use crate::task::{Priority, Task, TaskV};
use crate::text;
use crate::time::DateTime;
use crate::version::Version;

verus! {

// ---------------------------------------------------------------------------
// ordering of tasks in the file
// ---------------------------------------------------------------------------

/// The sort key of a completed task: its completion time, or its creation
/// time when none was recorded.
pub open spec fn completed_key(t: TaskV) -> DateTime {
    match t.completed_at_time {
        Some(x) => x,
        None => t.created_at_time,
    }
}

pub open spec fn created_key(t: TaskV) -> DateTime {
    t.created_at_time
}

/// Stable insertion: `t` goes before the first element with a strictly
/// larger key, after every element with an equal one.
pub open spec fn spec_insert_sorted(t: TaskV, s: Seq<TaskV>, key: spec_fn(TaskV) -> DateTime)
    -> Seq<TaskV>
    decreases s.len(),
{
    if s.len() == 0 {
        seq![t]
    } else if key(t).spec_lt(key(s[0])) {
        seq![t] + s
    } else {
        seq![s[0]] + spec_insert_sorted(t, s.drop_first(), key)
    }
}

/// Stable insertion sort, ascending by `key`.
pub open spec fn spec_sort_by(s: Seq<TaskV>, key: spec_fn(TaskV) -> DateTime) -> Seq<TaskV>
    decreases s.len(),
{
    if s.len() == 0 {
        s
    } else {
        spec_insert_sorted(s.last(), spec_sort_by(s.drop_last(), key), key)
    }
}

// ---------------------------------------------------------------------------
// the rendered lines
// ---------------------------------------------------------------------------

pub open spec fn spec_priority_suffix(p: Priority) -> Seq<char> {
    match p {
        Priority::High => " (high)"@,
        Priority::Medium => Seq::empty(),
        Priority::Low => " (low)"@,
    }
}

pub open spec fn spec_tags_suffix(tags: Seq<Seq<char>>) -> Seq<char> {
    if tags.len() == 0 {
        Seq::empty()
    } else {
        seq![' '] + text::spec_join(tags.map_values(|t: Seq<char>| seq!['#'] + t), ' ')
    }
}

/// The task's first line: checkbox, description, priority, tags.
pub open spec fn spec_task_line(t: TaskV) -> Seq<char> {
    "- ["@ + (if t.completed {
        seq!['x']
    } else {
        seq![' ']
    }) + "] "@ + t.description + spec_priority_suffix(t.priority) + spec_tags_suffix(t.tags)
}

pub open spec fn spec_opt_version_line(prefix: Seq<char>, v: Option<Version>) -> Seq<Seq<char>> {
    match v {
        Some(x) => seq![prefix + x.spec_chars()],
        None => Seq::empty(),
    }
}

pub open spec fn spec_opt_commit_line(prefix: Seq<char>, c: Option<Seq<char>>) -> Seq<
    Seq<char>,
> {
    match c {
        Some(x) => seq![prefix + x],
        None => Seq::empty(),
    }
}

/// The indented metadata lines under a task.
pub open spec fn spec_meta_lines(t: TaskV) -> Seq<Seq<char>> {
    seq!["      @created "@ + t.created_at_time.spec_datetime_chars()] + spec_opt_version_line(
        "      @created_version "@,
        t.created_at_version,
    ) + spec_opt_commit_line("      @created_commit "@, t.created_at_commit) + (if t.completed {
        (match t.completed_at_time {
            Some(x) => seq!["      @completed "@ + x.spec_datetime_chars()],
            None => Seq::empty(),
        }) + spec_opt_version_line("      @completed_version "@, t.completed_at_version)
            + spec_opt_commit_line("      @completed_commit "@, t.completed_at_commit)
    } else {
        Seq::empty()
    })
}

/// One task's block: its line, its metadata lines, a blank line.
pub open spec fn spec_task_block(t: TaskV) -> Seq<Seq<char>> {
    seq![spec_task_line(t)] + spec_meta_lines(t) + seq![Seq::<char>::empty()]
}

pub open spec fn spec_task_blocks(ts: Seq<TaskV>) -> Seq<Seq<char>>
    decreases ts.len(),
{
    if ts.len() == 0 {
        Seq::empty()
    } else {
        spec_task_blocks(ts.drop_last()) + spec_task_block(ts.last())
    }
}

/// The header: `# TODO — {name} v{version}`.
pub open spec fn spec_header_line(l: ListV) -> Seq<char> {
    "# TODO — "@ + l.project_name + " v"@ + l.project_version.spec_chars()
}

/// Every line of the serialized list, in order.
pub open spec fn spec_serialize_lines(l: ListV) -> Seq<Seq<char>> {
    let incomplete = spec_sort_by(
        l.tasks.filter(|t: TaskV| !t.completed),
        |t: TaskV| created_key(t),
    );
    let completed = spec_sort_by(
        l.tasks.filter(|t: TaskV| t.completed),
        |t: TaskV| completed_key(t),
    );
    seq![
        spec_header_line(l),
        Seq::<char>::empty(),
        "@created: "@ + l.created_at.spec_date_chars(),
        "@modified: "@ + l.modified_at.spec_date_chars(),
        Seq::<char>::empty(),
        "## Tasks"@,
        Seq::<char>::empty(),
    ] + spec_task_blocks(incomplete) + (if completed.len() > 0 {
        seq![Seq::<char>::empty(), "## Completed"@, Seq::<char>::empty()] + spec_task_blocks(
            completed,
        )
    } else {
        Seq::empty()
    })
}

/// Each line followed by a newline, concatenated.
pub open spec fn spec_unlines(ls: Seq<Seq<char>>) -> Seq<char>
    decreases ls.len(),
{
    if ls.len() == 0 {
        Seq::empty()
    } else {
        spec_unlines(ls.drop_last()) + ls.last() + seq!['\n']
    }
}

/// The full text of the serialized list.
pub open spec fn spec_serialize(l: ListV) -> Seq<char> {
    spec_unlines(spec_serialize_lines(l))
}


// ---------------------------------------------------------------------------
// executable serialization
// ---------------------------------------------------------------------------

/// The sort key in use: completion-time order or creation-time order.
pub open spec fn key_of(completed_order: bool) -> spec_fn(TaskV) -> DateTime {
    if completed_order {
        |t: TaskV| completed_key(t)
    } else {
        |t: TaskV| created_key(t)
    }
}

fn task_key(t: &Task, completed_order: bool) -> (r: DateTime)
    ensures
        r == key_of(completed_order)(t@),
{
    if completed_order {
        match &t.completed_at_time {
            Some(x) => *x,
            None => t.created_at_time,
        }
    } else {
        t.created_at_time
    }
}

proof fn lemma_insert_sorted_split(
    t: TaskV,
    s: Seq<TaskV>,
    key: spec_fn(TaskV) -> DateTime,
    idx: int,
)
    requires
        0 <= idx <= s.len(),
        forall|k: int| 0 <= k < idx ==> !key(t).spec_lt(key(#[trigger] s[k])),
        idx < s.len() ==> key(t).spec_lt(key(s[idx])),
    ensures
        spec_insert_sorted(t, s, key) == s.take(idx) + seq![t] + s.skip(idx),
    decreases idx,
{
    if idx == 0 {
        if s.len() == 0 {
            assert(spec_insert_sorted(t, s, key) =~= s.take(0) + seq![t] + s.skip(0));
        } else {
            assert(spec_insert_sorted(t, s, key) =~= s.take(0) + seq![t] + s.skip(0));
        }
    } else {
        assert(!key(t).spec_lt(key(s[0])));
        lemma_insert_sorted_split(t, s.drop_first(), key, idx - 1);
        assert(s.drop_first().take(idx - 1) =~= s.take(idx).drop_first());
        assert(s.drop_first().skip(idx - 1) =~= s.skip(idx));
        assert(spec_insert_sorted(t, s, key) =~= s.take(idx) + seq![t] + s.skip(idx));
    }
}

fn insert_sorted_ref<'a>(out: &mut Vec<&'a Task>, t: &'a Task, completed_order: bool)
    ensures
        final(out).deep_view() == spec_insert_sorted(
            t@,
            old(out).deep_view(),
            key_of(completed_order),
        ),
{
    let ghost key = key_of(completed_order);
    let tk = task_key(t, completed_order);
    let n = out.len();
    let mut idx: usize = 0;
    loop
        invariant
            idx <= n,
            n == out@.len(),
            n == out.deep_view().len(),
            tk == key_of(completed_order)(t@),
            key == key_of(completed_order),
            forall|k: int| 0 <= k < idx ==> !key(t@).spec_lt(key(#[trigger] out.deep_view()[k])),
        ensures
            idx <= n,
            forall|k: int| 0 <= k < idx ==> !key(t@).spec_lt(key(#[trigger] out.deep_view()[k])),
            idx < n ==> key(t@).spec_lt(key(out.deep_view()[idx as int])),
        decreases n - idx,
    {
        if idx == n {
            break;
        }
        let ok = task_key(&out[idx], completed_order);
        proof {
            assert(out@[idx as int]@ == out.deep_view()[idx as int]);
        }
        if tk.lt(&ok) {
            break;
        }
        idx = idx + 1;
    }
    proof {
        lemma_insert_sorted_split(t@, out.deep_view(), key, idx as int);
    }
    let ghost prev = out.deep_view();
    out.insert(idx, t);
    proof {
        assert(out.deep_view() =~= prev.take(idx as int) + seq![t@] + prev.skip(idx as int));
    }
}

/// Sorts task references ascending by the chosen key; equal keys keep their
/// order.
fn sort_tasks<'a>(ts: &Vec<&'a Task>, completed_order: bool) -> (r: Vec<&'a Task>)
    ensures
        r.deep_view() == spec_sort_by(ts.deep_view(), key_of(completed_order)),
{
    let mut out: Vec<&Task> = Vec::new();
    let n = ts.len();
    let mut i: usize = 0;
    proof {
        assert(ts.deep_view().take(0int) =~= Seq::<TaskV>::empty());
    }
    while i < n
        invariant
            i <= n,
            n == ts@.len(),
            n == ts.deep_view().len(),
            out.deep_view() == spec_sort_by(ts.deep_view().take(i as int), key_of(completed_order)),
        decreases n - i,
    {
        insert_sorted_ref(&mut out, &ts[i], completed_order);
        proof {
            assert(ts@[i as int]@ == ts.deep_view()[i as int]);
            assert(ts.deep_view().take(i as int + 1).drop_last() =~= ts.deep_view().take(i as int));
            assert(ts.deep_view().take(i as int + 1).last() == ts.deep_view()[i as int]);
        }
        i = i + 1;
    }
    proof {
        assert(ts.deep_view().take(n as int) =~= ts.deep_view());
    }
    out
}

/// The tasks with the given completion state, in list order.
fn filter_by_completed<'a>(tasks: &'a Vec<Task>, want: bool) -> (r: Vec<&'a Task>)
    ensures
        r.deep_view() == tasks.deep_view().filter(|t: TaskV| t.completed == want),
{
    let ghost pred = |t: TaskV| t.completed == want;
    let mut out: Vec<&Task> = Vec::new();
    let n = tasks.len();
    let mut i: usize = 0;
    proof {
        reveal(Seq::filter);
        assert(tasks.deep_view().take(0int).filter(pred) =~= Seq::<TaskV>::empty());
    }
    while i < n
        invariant
            i <= n,
            n == tasks@.len(),
            n == tasks.deep_view().len(),
            out.deep_view() == tasks.deep_view().take(i as int).filter(pred),
            pred == (|t: TaskV| t.completed == want),
        decreases n - i,
    {
        proof {
            assert(tasks@[i as int]@ == tasks.deep_view()[i as int]);
            crate::seqs::lemma_filter_take_step(tasks.deep_view(), pred, i as int);
        }
        if tasks[i].completed == want {
            let ghost prev = out.deep_view();
            out.push(&tasks[i]);
            proof {
                assert(out.deep_view() =~= prev.push(tasks.deep_view()[i as int]));
            }
        }
        i = i + 1;
    }
    proof {
        crate::seqs::lemma_take_all(tasks.deep_view());
    }
    out
}

fn push_line(lines: &mut Vec<Vec<char>>, line: Vec<char>)
    ensures
        final(lines).deep_view() == old(lines).deep_view().push(line@),
{
    let ghost prev = lines.deep_view();
    let ghost lv = line@;
    lines.push(line);
    proof {
        assert(lines.deep_view() =~~= prev.push(lv));
    }
}

/// Renders the task's first line.
fn render_task_line(t: &Task) -> (r: Vec<char>)
    ensures
        r@ == spec_task_line(t@),
{
    let mut out: Vec<char> = Vec::new();
    text::push_str_chars(&mut out, "- [");
    if t.completed {
        out.push('x');
    } else {
        out.push(' ');
    }
    text::push_str_chars(&mut out, "] ");
    let desc = text::str_to_chars(t.description.as_str());
    text::push_all(&mut out, &desc);
    match t.priority {
        Priority::High => {
            text::push_str_chars(&mut out, " (high)");
        },
        Priority::Medium => {},
        Priority::Low => {
            text::push_str_chars(&mut out, " (low)");
        },
    }
    proof {
        assert(out@ =~= "- ["@ + (if t@.completed {
            seq!['x']
        } else {
            seq![' ']
        }) + "] "@ + t@.description + spec_priority_suffix(t@.priority));
    }
    if t.tags.len() > 0 {
        out.push(' ');
        let mut parts: Vec<Vec<char>> = Vec::new();
        let n = t.tags.len();
        let mut i: usize = 0;
        while i < n
            invariant
                i <= n,
                n == t.tags@.len(),
                n == t@.tags.len(),
                parts.deep_view() =~= t@.tags.take(i as int).map_values(
                    |x: Seq<char>| seq!['#'] + x,
                ),
            decreases n - i,
        {
            let mut p: Vec<char> = Vec::new();
            p.push('#');
            let tg = text::str_to_chars(t.tags[i].as_str());
            text::push_all(&mut p, &tg);
            let ghost prev = parts.deep_view();
            let ghost pv = p@;
            parts.push(p);
            proof {
                assert(t.tags@[i as int]@ == t@.tags[i as int]);
                assert(pv =~= seq!['#'] + t@.tags[i as int]);
                assert(parts.deep_view() =~~= prev.push(pv));
                assert(parts.deep_view() =~= t@.tags.take(i as int + 1).map_values(
                    |x: Seq<char>| seq!['#'] + x,
                ));
            }
            i = i + 1;
        }
        proof {
            assert(t@.tags.take(n as int) =~= t@.tags);
        }
        let joined = text::join_with(&parts, ' ');
        text::push_all(&mut out, &joined);
        proof {
            assert(out@ =~= spec_task_line(t@));
        }
        out
    } else {
        proof {
            assert(spec_tags_suffix(t@.tags) =~= Seq::<char>::empty());
            assert(out@ =~= spec_task_line(t@));
        }
        out
    }
}

fn push_meta_datetime(lines: &mut Vec<Vec<char>>, prefix: &str, dt: &DateTime)
    ensures
        final(lines).deep_view() == old(lines).deep_view().push(
            prefix@ + dt.spec_datetime_chars(),
        ),
{
    let mut line: Vec<char> = Vec::new();
    text::push_str_chars(&mut line, prefix);
    dt.push_datetime_chars(&mut line);
    push_line(lines, line);
}

fn push_opt_version(lines: &mut Vec<Vec<char>>, prefix: &str, v: &Option<Version>)
    ensures
        final(lines).deep_view() == old(lines).deep_view() + spec_opt_version_line(prefix@, *v),
{
    match v {
        None => {
            proof {
                assert(lines.deep_view() =~= old(lines).deep_view() + spec_opt_version_line(
                    prefix@,
                    *v,
                ));
            }
        },
        Some(x) => {
            let mut line: Vec<char> = Vec::new();
            text::push_str_chars(&mut line, prefix);
            let vs = x.version_string();
            let vc = text::str_to_chars(vs.as_str());
            text::push_all(&mut line, &vc);
            push_line(lines, line);
            proof {
                assert(lines.deep_view() =~= old(lines).deep_view() + spec_opt_version_line(
                    prefix@,
                    *v,
                ));
            }
        },
    }
}

fn push_opt_commit(lines: &mut Vec<Vec<char>>, prefix: &str, c: &Option<String>)
    ensures
        final(lines).deep_view() == old(lines).deep_view() + spec_opt_commit_line(
            prefix@,
            crate::task::view_opt_string(*c),
        ),
{
    match c {
        None => {
            proof {
                assert(lines.deep_view() =~= old(lines).deep_view() + spec_opt_commit_line(
                    prefix@,
                    crate::task::view_opt_string(*c),
                ));
            }
        },
        Some(x) => {
            let mut line: Vec<char> = Vec::new();
            text::push_str_chars(&mut line, prefix);
            let xc = text::str_to_chars(x.as_str());
            text::push_all(&mut line, &xc);
            push_line(lines, line);
            proof {
                assert(lines.deep_view() =~= old(lines).deep_view() + spec_opt_commit_line(
                    prefix@,
                    crate::task::view_opt_string(*c),
                ));
            }
        },
    }
}

/// Renders one task's block of lines.
#[verifier::rlimit(60)]
fn push_task_block(lines: &mut Vec<Vec<char>>, t: &Task)
    ensures
        final(lines).deep_view() == old(lines).deep_view() + spec_task_block(t@),
{
    let line = render_task_line(t);
    push_line(lines, line);
    push_meta_datetime(lines, "      @created ", &t.created_at_time);
    push_opt_version(lines, "      @created_version ", &t.created_at_version);
    push_opt_commit(lines, "      @created_commit ", &t.created_at_commit);
    if t.completed {
        match &t.completed_at_time {
            Some(x) => {
                push_meta_datetime(lines, "      @completed ", x);
            },
            None => {},
        }
        push_opt_version(lines, "      @completed_version ", &t.completed_at_version);
        push_opt_commit(lines, "      @completed_commit ", &t.completed_at_commit);
    }
    push_line(lines, Vec::new());
    proof {
        assert(lines.deep_view() =~= old(lines).deep_view() + spec_task_block(t@));
    }
}

fn push_task_blocks(lines: &mut Vec<Vec<char>>, ts: &Vec<&Task>)
    ensures
        final(lines).deep_view() == old(lines).deep_view() + spec_task_blocks(ts.deep_view()),
{
    let n = ts.len();
    let mut i: usize = 0;
    proof {
        assert(lines.deep_view() =~= old(lines).deep_view() + spec_task_blocks(
            ts.deep_view().take(0int),
        ));
    }
    while i < n
        invariant
            i <= n,
            n == ts@.len(),
            n == ts.deep_view().len(),
            lines.deep_view() == old(lines).deep_view() + spec_task_blocks(
                ts.deep_view().take(i as int),
            ),
        decreases n - i,
    {
        push_task_block(lines, &ts[i]);
        proof {
            assert(ts@[i as int]@ == ts.deep_view()[i as int]);
            assert(ts.deep_view().take(i as int + 1).drop_last() =~= ts.deep_view().take(
                i as int,
            ));
            assert(ts.deep_view().take(i as int + 1).last() == ts.deep_view()[i as int]);
        }
        i = i + 1;
    }
    proof {
        assert(ts.deep_view().take(n as int) =~= ts.deep_view());
    }
}

fn unlines(lines: &Vec<Vec<char>>) -> (r: Vec<char>)
    ensures
        r@ == spec_unlines(lines.deep_view()),
{
    let mut out: Vec<char> = Vec::new();
    let n = lines.len();
    let mut i: usize = 0;
    proof {
        assert(spec_unlines(lines.deep_view().take(0int)) =~= Seq::<char>::empty());
    }
    while i < n
        invariant
            i <= n,
            n == lines@.len(),
            n == lines.deep_view().len(),
            out@ == spec_unlines(lines.deep_view().take(i as int)),
        decreases n - i,
    {
        text::push_all(&mut out, &lines[i]);
        out.push('\n');
        proof {
            assert(lines@[i as int]@ == lines.deep_view()[i as int]);
            assert(lines.deep_view().take(i as int + 1).drop_last() =~= lines.deep_view().take(
                i as int,
            ));
            assert(lines.deep_view().take(i as int + 1).last() == lines.deep_view()[i as int]);
            assert(out@ =~= spec_unlines(lines.deep_view().take(i as int + 1)));
        }
        i = i + 1;
    }
    proof {
        assert(lines.deep_view().take(n as int) =~= lines.deep_view());
    }
    out
}

/// Serializes the list to its text form.
pub fn serialize(list: &List) -> (r: String)
    ensures
        r@ == spec_serialize(list@),
{
    let mut lines: Vec<Vec<char>> = Vec::new();
    let mut header: Vec<char> = Vec::new();
    text::push_str_chars(&mut header, "# TODO — ");
    let name = text::str_to_chars(list.project_name.as_str());
    text::push_all(&mut header, &name);
    text::push_str_chars(&mut header, " v");
    let vs = list.project_version.version_string();
    let vc = text::str_to_chars(vs.as_str());
    text::push_all(&mut header, &vc);
    proof {
        assert(header@ =~= spec_header_line(list@));
    }
    push_line(&mut lines, header);
    push_line(&mut lines, Vec::new());
    let mut created: Vec<char> = Vec::new();
    text::push_str_chars(&mut created, "@created: ");
    list.created_at.push_date_chars(&mut created);
    push_line(&mut lines, created);
    let mut modified: Vec<char> = Vec::new();
    text::push_str_chars(&mut modified, "@modified: ");
    list.modified_at.push_date_chars(&mut modified);
    push_line(&mut lines, modified);
    push_line(&mut lines, Vec::new());
    let section = text::str_to_chars("## Tasks");
    push_line(&mut lines, section);
    push_line(&mut lines, Vec::new());
    let ghost prefix = lines.deep_view();
    let incomplete_raw = filter_by_completed(&list.tasks, false);
    let incomplete = sort_tasks(&incomplete_raw, false);
    let completed_raw = filter_by_completed(&list.tasks, true);
    let completed = sort_tasks(&completed_raw, true);
    proof {
        assert(incomplete.deep_view() == spec_sort_by(
            list@.tasks.filter(|t: TaskV| !t.completed),
            |t: TaskV| created_key(t),
        )) by {
            assert((|t: TaskV| t.completed == false) == (|t: TaskV| !t.completed))
                by {
                assert forall|t: TaskV| (t.completed == false) == !t.completed by {}
            }
            assert(key_of(false) == (|t: TaskV| created_key(t)));
        }
        assert(completed.deep_view() == spec_sort_by(
            list@.tasks.filter(|t: TaskV| t.completed),
            |t: TaskV| completed_key(t),
        )) by {
            assert((|t: TaskV| t.completed == true) == (|t: TaskV| t.completed)) by {
                assert forall|t: TaskV| (t.completed == true) == t.completed by {}
            }
            assert(key_of(true) == (|t: TaskV| completed_key(t)));
        }
    }
    push_task_blocks(&mut lines, &incomplete);
    if completed.len() > 0 {
        push_line(&mut lines, Vec::new());
        let section2 = text::str_to_chars("## Completed");
        push_line(&mut lines, section2);
        push_line(&mut lines, Vec::new());
        push_task_blocks(&mut lines, &completed);
    }
    proof {
        assert(completed.deep_view().len() == completed@.len());
        assert(lines.deep_view() =~= spec_serialize_lines(list@));
    }
    let out = unlines(&lines);
    text::chars_to_string(&out)
}


// ---------------------------------------------------------------------------
// the parse direction, specified
// ---------------------------------------------------------------------------

/// Repeatedly removes the prefix `p`, as `str::trim_start_matches` does.
pub open spec fn spec_strip_str_rep(s: Seq<char>, p: Seq<char>) -> Seq<char>
    decreases s.len(),
{
    if p.len() > 0 && text::has_prefix(s, p) {
        spec_strip_str_rep(s.skip(p.len() as int), p)
    } else {
        s
    }
}

/// Repeatedly removes leading characters drawn from a class.
pub open spec fn spec_strip_chars_rep(s: Seq<char>, a: spec_fn(char) -> bool) -> Seq<char>
    decreases s.len(),
{
    if s.len() > 0 && a(s[0]) {
        spec_strip_chars_rep(s.drop_first(), a)
    } else {
        s
    }
}

/// What parsing the header line yields: the project name and the version
/// found after the last ` v`.
pub open spec fn spec_parse_header(line: Seq<char>) -> Result<(Seq<char>, Version), Seq<char>> {
    let l1 = text::spec_trim(spec_strip_chars_rep(line, |c: char| c == '#'));
    if !(text::has_prefix(l1, "TODO —"@) || text::has_prefix(l1, "TODO -"@)) {
        Err("Invalid header format: expected 'TODO — [PROJECT] v[VERSION]'"@)
    } else {
        let l2 = text::spec_trim(
            spec_strip_str_rep(spec_strip_str_rep(l1, "TODO —"@), "TODO -"@),
        );
        match text::spec_rfind_sub(l2, " v"@) {
            None => Err("No version found in header"@),
            Some(i) => {
                let name = text::spec_trim(l2.take(i));
                let vstr = text::spec_trim(l2.skip(i + 2));
                match Version::spec_parse(vstr) {
                    Err(e) => Err("Failed to parse version in header"@),
                    Ok(v) => Ok((name, v)),
                }
            },
        }
    }
}

/// What parsing a `@created:`/`@modified:` date line yields: the date after
/// the first colon.
pub open spec fn spec_parse_date_line(line: Seq<char>) -> Result<DateTime, Seq<char>> {
    let parts = text::spec_split(line, ':');
    if parts.len() < 2 {
        Err("Invalid date line format"@)
    } else {
        match DateTime::spec_parse_date(text::spec_trim(parts[1])) {
            Some(d) => Ok(d),
            None => Err("Failed to parse date"@),
        }
    }
}

/// Walks the date metadata after the header: date lines in either order,
/// blank lines tolerated; stops at the first other non-blank line.  Yields
/// the stop index and what was found.
pub open spec fn spec_scan_meta(
    lines: Seq<Seq<char>>,
    i: int,
    c: Option<DateTime>,
    m: Option<DateTime>,
) -> Result<(int, Option<DateTime>, Option<DateTime>), Seq<char>>
    decreases lines.len() - i,
{
    if i < 0 || i >= lines.len() {
        Ok((i, c, m))
    } else if text::has_prefix(lines[i], "@created:"@) {
        match spec_parse_date_line(lines[i]) {
            Err(e) => Err(e),
            Ok(d) => spec_scan_meta(lines, i + 1, Some(d), m),
        }
    } else if text::has_prefix(lines[i], "@modified:"@) {
        match spec_parse_date_line(lines[i]) {
            Err(e) => Err(e),
            Ok(d) => spec_scan_meta(lines, i + 1, c, Some(d)),
        }
    } else if text::spec_trim(lines[i]).len() == 0 {
        spec_scan_meta(lines, i + 1, c, m)
    } else {
        Ok((i, c, m))
    }
}

/// The first line at or after `i` that reads `## Tasks` or `## Completed`.
pub open spec fn spec_find_section(lines: Seq<Seq<char>>, i: int) -> Option<int>
    decreases lines.len() - i,
{
    if i < 0 || i >= lines.len() {
        None
    } else if text::spec_trim(lines[i]) == "## Tasks"@ || text::spec_trim(lines[i])
        == "## Completed"@ {
        Some(i)
    } else {
        spec_find_section(lines, i + 1)
    }
}

/// Groups the remaining lines into task blocks: a line starting `- [` opens
/// a block; later non-blank lines belong to the open block.
pub open spec fn spec_blocks(lines: Seq<Seq<char>>, i: int, cur: Seq<Seq<char>>) -> Seq<
    Seq<Seq<char>>,
>
    decreases lines.len() - i,
{
    if i < 0 || i >= lines.len() {
        if cur.len() > 0 {
            seq![cur]
        } else {
            Seq::empty()
        }
    } else if text::has_prefix(lines[i], "- ["@) {
        if cur.len() > 0 {
            seq![cur] + spec_blocks(lines, i + 1, seq![lines[i]])
        } else {
            spec_blocks(lines, i + 1, seq![lines[i]])
        }
    } else if cur.len() > 0 && text::spec_trim(lines[i]).len() > 0 {
        spec_blocks(lines, i + 1, cur.push(lines[i]))
    } else {
        spec_blocks(lines, i + 1, cur)
    }
}

/// Folds the tokens of a task line: `#`-tokens become tags, the literal
/// priority tokens set the priority, the rest is description.
pub open spec fn spec_scan_tokens(
    toks: Seq<Seq<char>>,
    i: int,
    desc: Seq<Seq<char>>,
    prio: Priority,
    tags: Seq<Seq<char>>,
) -> (Seq<Seq<char>>, Priority, Seq<Seq<char>>)
    decreases toks.len() - i,
{
    if i < 0 || i >= toks.len() {
        (desc, prio, tags)
    } else {
        let tk = toks[i];
        if tk.len() > 0 && tk[0] == '#' {
            spec_scan_tokens(
                toks,
                i + 1,
                desc,
                prio,
                tags.push(spec_strip_chars_rep(tk, |c: char| c == '#')),
            )
        } else if tk == "(high)"@ {
            spec_scan_tokens(toks, i + 1, desc, Priority::High, tags)
        } else if tk == "(low)"@ {
            spec_scan_tokens(toks, i + 1, desc, Priority::Low, tags)
        } else if tk == "(medium)"@ {
            spec_scan_tokens(toks, i + 1, desc, Priority::Medium, tags)
        } else {
            spec_scan_tokens(toks, i + 1, desc.push(tk), prio, tags)
        }
    }
}

/// What parsing a task line's content yields: description, priority, tags.
pub open spec fn spec_parse_content(content: Seq<char>) -> Result<
    (Seq<char>, Priority, Seq<Seq<char>>),
    Seq<char>,
> {
    let (desc_parts, prio, tags) = spec_scan_tokens(
        text::spec_tokens(content),
        0,
        Seq::empty(),
        Priority::Medium,
        Seq::empty(),
    );
    let desc = text::spec_join(desc_parts, ' ');
    if desc.len() == 0 {
        Err("Task has no description"@)
    } else {
        Ok((desc, prio, tags))
    }
}

/// The metadata gathered from a task's indented lines.
pub struct MetaV {
    pub created_at_time: Option<DateTime>,
    pub created_at_version: Option<Version>,
    pub created_at_commit: Option<Seq<char>>,
    pub completed_at_time: Option<DateTime>,
    pub completed_at_version: Option<Version>,
    pub completed_at_commit: Option<Seq<char>>,
}

pub open spec fn empty_meta() -> MetaV {
    MetaV {
        created_at_time: None,
        created_at_version: None,
        created_at_commit: None,
        completed_at_time: None,
        completed_at_version: None,
        completed_at_commit: None,
    }
}

/// Folds a task's metadata lines, matched by their literal prefixes.
pub open spec fn spec_scan_task_meta(lines: Seq<Seq<char>>, i: int, acc: MetaV) -> Result<
    MetaV,
    Seq<char>,
>
    decreases lines.len() - i,
{
    if i < 0 || i >= lines.len() {
        Ok(acc)
    } else {
        let l = text::spec_trim(lines[i]);
        if text::has_prefix(l, "@created "@) {
            let value = text::spec_trim(l.skip(9));
            match DateTime::spec_parse_datetime(value) {
                Some(d) => spec_scan_task_meta(
                    lines,
                    i + 1,
                    MetaV { created_at_time: Some(d), ..acc },
                ),
                None => Err("Failed to parse datetime: "@ + value),
            }
        } else if text::has_prefix(l, "@created_version "@) {
            match Version::spec_parse(text::spec_trim(l.skip(17))) {
                Ok(v) => spec_scan_task_meta(
                    lines,
                    i + 1,
                    MetaV { created_at_version: Some(v), ..acc },
                ),
                Err(e) => Err(e),
            }
        } else if text::has_prefix(l, "@created_commit "@) {
            spec_scan_task_meta(
                lines,
                i + 1,
                MetaV { created_at_commit: Some(text::spec_trim(l.skip(16))), ..acc },
            )
        } else if text::has_prefix(l, "@completed "@) {
            let value = text::spec_trim(l.skip(11));
            match DateTime::spec_parse_datetime(value) {
                Some(d) => spec_scan_task_meta(
                    lines,
                    i + 1,
                    MetaV { completed_at_time: Some(d), ..acc },
                ),
                None => Err("Failed to parse datetime: "@ + value),
            }
        } else if text::has_prefix(l, "@completed_version "@) {
            match Version::spec_parse(text::spec_trim(l.skip(19))) {
                Ok(v) => spec_scan_task_meta(
                    lines,
                    i + 1,
                    MetaV { completed_at_version: Some(v), ..acc },
                ),
                Err(e) => Err(e),
            }
        } else if text::has_prefix(l, "@completed_commit "@) {
            spec_scan_task_meta(
                lines,
                i + 1,
                MetaV { completed_at_commit: Some(text::spec_trim(l.skip(18))), ..acc },
            )
        } else {
            spec_scan_task_meta(lines, i + 1, acc)
        }
    }
}

/// The content of a task line: what is left after the checkbox.
pub open spec fn spec_task_content(first: Seq<char>) -> Seq<char> {
    text::spec_trim(
        spec_strip_chars_rep(
            spec_strip_chars_rep(
                spec_strip_str_rep(first, "- ["@),
                |c: char| c == 'x' || c == 'X' || c == ' ',
            ),
            |c: char| c == ']',
        ),
    )
}

/// What parsing one task block yields.
pub open spec fn spec_parse_task(block: Seq<Seq<char>>) -> Result<TaskV, Seq<char>> {
    if block.len() == 0 {
        Err("Empty task lines"@)
    } else {
        let first = block[0];
        let completed = text::spec_contains(first, "[x]"@) || text::spec_contains(
            first,
            "[X]"@,
        );
        let content = spec_task_content(first);
        match spec_parse_content(content) {
            Err(e) => Err(e),
            Ok((desc, prio, tags)) => match spec_scan_task_meta(block.skip(1), 0, empty_meta()) {
                Err(e) => Err(e),
                Ok(meta) => match meta.created_at_time {
                    None => Err("Task missing @created timestamp"@),
                    Some(created) => Ok(
                        TaskV {
                            description: desc,
                            priority: prio,
                            tags: tags,
                            completed: completed,
                            created_at_time: created,
                            created_at_version: meta.created_at_version,
                            created_at_commit: meta.created_at_commit,
                            completed_at_time: meta.completed_at_time,
                            completed_at_version: meta.completed_at_version,
                            completed_at_commit: meta.completed_at_commit,
                        },
                    ),
                },
            },
        }
    }
}

/// Parses every block in order; the first failure wins.
pub open spec fn spec_parse_blocks(blocks: Seq<Seq<Seq<char>>>) -> Result<Seq<TaskV>, Seq<char>>
    decreases blocks.len(),
{
    if blocks.len() == 0 {
        Ok(Seq::empty())
    } else {
        match spec_parse_task(blocks[0]) {
            Err(e) => Err(e),
            Ok(t) => match spec_parse_blocks(blocks.drop_first()) {
                Err(e) => Err(e),
                Ok(ts) => Ok(seq![t] + ts),
            },
        }
    }
}

/// What parsing a whole TODO text yields.
pub open spec fn spec_deserialize(s: Seq<char>) -> Result<ListV, Seq<char>> {
    let lines = text::spec_lines(s);
    if lines.len() == 0 {
        Err("Empty TODO file"@)
    } else {
        match spec_parse_header(lines[0]) {
            Err(e) => Err(e),
            Ok((name, ver)) => match spec_scan_meta(lines, 1, None, None) {
                Err(e) => Err(e),
                Ok((idx, c, m)) => match c {
                    None => Err("Missing @created metadata"@),
                    Some(created) => match m {
                        None => Err("Missing @modified metadata"@),
                        Some(modified) => {
                            let tasks_r = match spec_find_section(lines, idx) {
                                None => Ok(Seq::<TaskV>::empty()),
                                Some(si) => spec_parse_blocks(
                                    spec_blocks(lines, si + 1, Seq::empty()),
                                ),
                            };
                            match tasks_r {
                                Err(e) => Err(e),
                                Ok(ts) => Ok(
                                    ListV {
                                        project_name: name,
                                        project_version: ver,
                                        created_at: created,
                                        modified_at: modified,
                                        tasks: ts,
                                    },
                                ),
                            }
                        },
                    },
                },
            },
        }
    }
}


// ---------------------------------------------------------------------------
// executable parsing
// ---------------------------------------------------------------------------

fn strip_str_rep(v: &Vec<char>, p: &Vec<char>) -> (r: Vec<char>)
    ensures
        r@ == spec_strip_str_rep(v@, p@),
{
    let n = v.len();
    let m = p.len();
    let mut i: usize = 0;
    proof {
        assert(v@.skip(0) =~= v@);
    }
    loop
        invariant
            i <= n,
            n == v@.len(),
            m == p@.len(),
            spec_strip_str_rep(v@, p@) == spec_strip_str_rep(v@.skip(i as int), p@),
        ensures
            i <= n,
            spec_strip_str_rep(v@, p@) == v@.skip(i as int),
        decreases n - i,
    {
        if m == 0 || m > n - i || !text::match_at(v, p, i) {
            proof {
                let cur = v@.skip(i as int);
                if m > 0 && m <= n - i {
                    assert(cur.take(m as int) =~= v@.subrange(i as int, i as int + m as int));
                }
                assert(spec_strip_str_rep(cur, p@) == cur);
            }
            break;
        }
        proof {
            let cur = v@.skip(i as int);
            assert(cur.take(m as int) =~= v@.subrange(i as int, i as int + m as int));
            assert(text::has_prefix(cur, p@));
            assert(cur.skip(m as int) =~= v@.skip(i as int + m as int));
        }
        i = i + m;
    }
    proof {
        assert(v@.skip(i as int) =~= v@.subrange(i as int, n as int));
    }
    text::subvec(v, i, n)
}

fn strip_hashes(v: &Vec<char>) -> (r: Vec<char>)
    ensures
        r@ == spec_strip_chars_rep(v@, |c: char| c == '#'),
{
    let ghost cl = |c: char| c == '#';
    let n = v.len();
    let mut i: usize = 0;
    proof {
        assert(v@.skip(0) =~= v@);
    }
    while i < n && v[i] == '#'
        invariant
            i <= n,
            n == v@.len(),
            spec_strip_chars_rep(v@, cl) == spec_strip_chars_rep(v@.skip(i as int), cl),
            cl == (|c: char| c == '#'),
        decreases n - i,
    {
        proof {
            assert(v@.skip(i as int).drop_first() =~= v@.skip(i as int + 1));
        }
        i = i + 1;
    }
    proof {
        assert(spec_strip_chars_rep(v@.skip(i as int), cl) == v@.skip(i as int));
        assert(v@.skip(i as int) =~= v@.subrange(i as int, n as int));
    }
    text::subvec(v, i, n)
}

fn strip_checkbox(v: &Vec<char>) -> (r: Vec<char>)
    ensures
        r@ == spec_strip_chars_rep(v@, |c: char| c == 'x' || c == 'X' || c == ' '),
{
    let ghost cl = |c: char| c == 'x' || c == 'X' || c == ' ';
    let n = v.len();
    let mut i: usize = 0;
    proof {
        assert(v@.skip(0) =~= v@);
    }
    while i < n && (v[i] == 'x' || v[i] == 'X' || v[i] == ' ')
        invariant
            i <= n,
            n == v@.len(),
            spec_strip_chars_rep(v@, cl) == spec_strip_chars_rep(v@.skip(i as int), cl),
            cl == (|c: char| c == 'x' || c == 'X' || c == ' '),
        decreases n - i,
    {
        proof {
            assert(v@.skip(i as int).drop_first() =~= v@.skip(i as int + 1));
        }
        i = i + 1;
    }
    proof {
        assert(spec_strip_chars_rep(v@.skip(i as int), cl) == v@.skip(i as int));
        assert(v@.skip(i as int) =~= v@.subrange(i as int, n as int));
    }
    text::subvec(v, i, n)
}

fn strip_brackets(v: &Vec<char>) -> (r: Vec<char>)
    ensures
        r@ == spec_strip_chars_rep(v@, |c: char| c == ']'),
{
    let ghost cl = |c: char| c == ']';
    let n = v.len();
    let mut i: usize = 0;
    proof {
        assert(v@.skip(0) =~= v@);
    }
    while i < n && v[i] == ']'
        invariant
            i <= n,
            n == v@.len(),
            spec_strip_chars_rep(v@, cl) == spec_strip_chars_rep(v@.skip(i as int), cl),
            cl == (|c: char| c == ']'),
        decreases n - i,
    {
        proof {
            assert(v@.skip(i as int).drop_first() =~= v@.skip(i as int + 1));
        }
        i = i + 1;
    }
    proof {
        assert(spec_strip_chars_rep(v@.skip(i as int), cl) == v@.skip(i as int));
        assert(v@.skip(i as int) =~= v@.subrange(i as int, n as int));
    }
    text::subvec(v, i, n)
}

fn parse_date_line_x(line: &Vec<char>) -> (r: Result<DateTime, ParseError>)
    ensures
        r matches Ok(d) ==> spec_parse_date_line(line@) == Ok::<DateTime, Seq<char>>(d),
        r matches Err(e) ==> spec_parse_date_line(line@) == Err::<DateTime, Seq<char>>(
            e.message@,
        ),
{
    let parts = text::split_char(line, ':');
    if parts.len() < 2 {
        return Err(ParseError::new("Invalid date line format".to_owned()));
    }
    proof {
        assert(parts@[1]@ == parts.deep_view()[1]);
    }
    let ds = text::trim(&parts[1]);
    match DateTime::parse_date(&ds) {
        Some(d) => Ok(d),
        None => Err(ParseError::new("Failed to parse date".to_owned())),
    }
}

fn parse_header_x(line: &Vec<char>) -> (r: Result<(Vec<char>, Version), ParseError>)
    ensures
        r matches Ok(p) ==> spec_parse_header(line@) == Ok::<(Seq<char>, Version), Seq<char>>(
            (p.0@, p.1),
        ),
        r matches Err(e) ==> spec_parse_header(line@) == Err::<(Seq<char>, Version), Seq<char>>(
            e.message@,
        ),
{
    let l1 = text::trim(&strip_hashes(line));
    let lit_em = text::str_to_chars("TODO —");
    let lit_ascii = text::str_to_chars("TODO -");
    if !(text::starts_with(&l1, &lit_em) || text::starts_with(&l1, &lit_ascii)) {
        return Err(
            ParseError::new(
                "Invalid header format: expected 'TODO — [PROJECT] v[VERSION]'".to_owned(),
            ),
        );
    }
    let l2 = text::trim(&strip_str_rep(&strip_str_rep(&l1, &lit_em), &lit_ascii));
    let lit_v = text::str_to_chars(" v");
    let l2len = l2.len();
    match text::rfind_sub(&l2, &lit_v) {
        None => Err(ParseError::new("No version found in header".to_owned())),
        Some(i) => {
            proof {
                reveal_strlit(" v");
                assert(lit_v@.len() == 2);
                text::lemma_rfind_bounds(l2@, lit_v@);
                assert(i as int + 2 <= l2@.len());
                assert(l2@.subrange(0, i as int) =~= l2@.take(i as int));
            }
            let name = text::trim(&text::subvec(&l2, 0, i));
            proof {
                assert(l2@.subrange(i as int + 2, l2@.len() as int) =~= l2@.skip(i as int + 2));
            }
            let vstr = text::trim(&text::subvec(&l2, i + 2, l2len));
            match Version::parse_chars(&vstr) {
                Err(_) => Err(ParseError::new("Failed to parse version in header".to_owned())),
                Ok(v) => Ok((name, v)),
            }
        },
    }
}

struct MetaAcc {
    created_at_time: Option<DateTime>,
    created_at_version: Option<Version>,
    created_at_commit: Option<Vec<char>>,
    completed_at_time: Option<DateTime>,
    completed_at_version: Option<Version>,
    completed_at_commit: Option<Vec<char>>,
}

impl MetaAcc {
    spec fn view_meta(&self) -> MetaV {
        MetaV {
            created_at_time: self.created_at_time,
            created_at_version: self.created_at_version,
            created_at_commit: match self.created_at_commit {
                Some(ref x) => Some(x@),
                None => None,
            },
            completed_at_time: self.completed_at_time,
            completed_at_version: self.completed_at_version,
            completed_at_commit: match self.completed_at_commit {
                Some(ref x) => Some(x@),
                None => None,
            },
        }
    }
}

fn option_chars_to_string(o: &Option<Vec<char>>) -> (r: Option<String>)
    ensures
        crate::task::view_opt_string(r) == match o {
            Some(x) => Some::<Seq<char>>(x@),
            None => None::<Seq<char>>,
        },
{
    match o {
        Some(x) => Some(text::chars_to_string(x)),
        None => None,
    }
}

/// Parses one task block.
#[verifier::rlimit(80)]
fn parse_task_x(block: &Vec<Vec<char>>) -> (r: Result<Task, ParseError>)
    ensures
        r matches Ok(t) ==> spec_parse_task(block.deep_view()) == Ok::<TaskV, Seq<char>>(t@),
        r matches Err(e) ==> spec_parse_task(block.deep_view()) == Err::<TaskV, Seq<char>>(
            e.message@,
        ),
{
    let ghost bv = block.deep_view();
    if block.len() == 0 {
        return Err(ParseError::new("Empty task lines".to_owned()));
    }
    proof {
        assert(block@[0]@ == bv[0]);
    }
    let first = &block[0];
    let lit_x = text::str_to_chars("[x]");
    let lit_bigx = text::str_to_chars("[X]");
    let completed = text::contains_sub(first, &lit_x) || text::contains_sub(first, &lit_bigx);
    proof {
        assert(completed == (text::spec_contains(bv[0], "[x]"@) || text::spec_contains(
            bv[0],
            "[X]"@,
        )));
    }
    let lit_dash = text::str_to_chars("- [");
    let content = text::trim(&strip_brackets(&strip_checkbox(&strip_str_rep(first, &lit_dash))));
    proof {
        assert(content@ == spec_task_content(bv[0]));
    }
    // task line content: tokens
    let toks = text::split_ws(&content);
    let ghost tv = toks.deep_view();
    let mut desc_parts: Vec<Vec<char>> = Vec::new();
    let mut prio = Priority::Medium;
    let mut tags: Vec<Vec<char>> = Vec::new();
    let lit_high = text::str_to_chars("(high)");
    let lit_low = text::str_to_chars("(low)");
    let lit_medium = text::str_to_chars("(medium)");
    let tn = toks.len();
    let mut i: usize = 0;
    proof {
        assert(desc_parts.deep_view() =~~= Seq::<Seq<char>>::empty());
        assert(tags.deep_view() =~~= Seq::<Seq<char>>::empty());
    }
    while i < tn
        invariant
            i <= tn,
            tn == toks@.len(),
            tn == tv.len(),
            tv == toks.deep_view(),
            lit_high@ == "(high)"@,
            lit_low@ == "(low)"@,
            lit_medium@ == "(medium)"@,
            spec_scan_tokens(tv, 0, Seq::empty(), Priority::Medium, Seq::empty())
                == spec_scan_tokens(tv, i as int, desc_parts.deep_view(), prio, tags.deep_view()),
        decreases tn - i,
    {
        proof {
            assert(toks@[i as int]@ == tv[i as int]);
        }
        let tk = &toks[i];
        if tk.len() > 0 && tk[0] == '#' {
            let stripped = strip_hashes(tk);
            let ghost prev = tags.deep_view();
            tags.push(stripped);
            proof {
                assert(tags.deep_view() =~~= prev.push(
                    spec_strip_chars_rep(tv[i as int], |c: char| c == '#'),
                ));
            }
        } else if text::chars_eq(tk, &lit_high) {
            prio = Priority::High;
        } else if text::chars_eq(tk, &lit_low) {
            prio = Priority::Low;
        } else if text::chars_eq(tk, &lit_medium) {
            prio = Priority::Medium;
        } else {
            let ghost prev = desc_parts.deep_view();
            desc_parts.push(text::subvec(tk, 0, tk.len()));
            proof {
                assert(tv[i as int].subrange(0, tv[i as int].len() as int) =~= tv[i as int]);
                assert(desc_parts.deep_view() =~~= prev.push(tv[i as int]));
            }
        }
        i = i + 1;
    }
    let desc_chars = text::join_with(&desc_parts, ' ');
    if desc_chars.len() == 0 {
        return Err(ParseError::new("Task has no description".to_owned()));
    }
    // metadata lines
    let ghost mlines = bv.skip(1);
    let mut acc = MetaAcc {
        created_at_time: None,
        created_at_version: None,
        created_at_commit: None,
        completed_at_time: None,
        completed_at_version: None,
        completed_at_commit: None,
    };
    proof {
        reveal_strlit("@created ");
        reveal_strlit("@created_version ");
        reveal_strlit("@created_commit ");
        reveal_strlit("@completed ");
        reveal_strlit("@completed_version ");
        reveal_strlit("@completed_commit ");
    }
    let p_created = text::str_to_chars("@created ");
    let p_cver = text::str_to_chars("@created_version ");
    let p_ccom = text::str_to_chars("@created_commit ");
    let p_done = text::str_to_chars("@completed ");
    let p_dver = text::str_to_chars("@completed_version ");
    let p_dcom = text::str_to_chars("@completed_commit ");
    let bn = block.len();
    let mut j: usize = 1;
    proof {
        assert(acc.view_meta() == empty_meta());
        assert(p_created@.len() == 9);
        assert(p_cver@.len() == 17);
        assert(p_ccom@.len() == 16);
        assert(p_done@.len() == 11);
        assert(p_dver@.len() == 19);
        assert(p_dcom@.len() == 18);
        assert(spec_parse_content(spec_task_content(bv[0])) == Ok::<
            (Seq<char>, Priority, Seq<Seq<char>>),
            Seq<char>,
        >((desc_chars@, prio, tags.deep_view())));
    }
    while j < bn
        invariant
            1 <= j <= bn,
            bn == block@.len(),
            bn == bv.len(),
            bv == block.deep_view(),
            mlines == bv.skip(1),
            p_created@ == "@created "@,
            p_cver@ == "@created_version "@,
            p_ccom@ == "@created_commit "@,
            p_done@ == "@completed "@,
            p_dver@ == "@completed_version "@,
            p_dcom@ == "@completed_commit "@,
            p_created@.len() == 9,
            p_cver@.len() == 17,
            p_ccom@.len() == 16,
            p_done@.len() == 11,
            p_dver@.len() == 19,
            p_dcom@.len() == 18,
            spec_parse_content(spec_task_content(bv[0])) == Ok::<
                (Seq<char>, Priority, Seq<Seq<char>>),
                Seq<char>,
            >((desc_chars@, prio, tags.deep_view())),
            spec_scan_task_meta(mlines, 0, empty_meta()) == spec_scan_task_meta(
                mlines,
                j - 1,
                acc.view_meta(),
            ),
        decreases bn - j,
    {
        proof {
            assert(block@[j as int]@ == bv[j as int]);
            assert(mlines[j - 1] == bv[j as int]);
        }
        let l = text::trim(&block[j]);
        if text::starts_with(&l, &p_created) {
            proof {
                assert(l@.subrange(9, l@.len() as int) =~= l@.skip(9));
            }
            let value = text::trim(&text::subvec(&l, 9, l.len()));
            match DateTime::parse_datetime(&value) {
                Some(d) => {
                    acc.created_at_time = Some(d);
                },
                None => {
                    let mut msg = text::str_to_chars("Failed to parse datetime: ");
                    text::push_all(&mut msg, &value);
                    proof {
                        assert(spec_scan_task_meta(mlines, 0, empty_meta()) == Err::<
                            MetaV,
                            Seq<char>,
                        >(msg@));
                        assert(spec_parse_task(bv) == Err::<TaskV, Seq<char>>(msg@));
                    }
                    return Err(ParseError::new(text::chars_to_string(&msg)));
                },
            }
        } else if text::starts_with(&l, &p_cver) {
            proof {
                assert(l@.subrange(17, l@.len() as int) =~= l@.skip(17));
            }
            let value = text::trim(&text::subvec(&l, 17, l.len()));
            match Version::parse_chars(&value) {
                Ok(v) => {
                    acc.created_at_version = Some(v);
                },
                Err(e) => {
                    proof {
                        assert(spec_scan_task_meta(mlines, 0, empty_meta()) == Err::<
                            MetaV,
                            Seq<char>,
                        >(e.message@));
                        assert(spec_parse_task(bv) == Err::<TaskV, Seq<char>>(e.message@));
                    }
                    return Err(e);
                },
            }
        } else if text::starts_with(&l, &p_ccom) {
            proof {
                assert(l@.subrange(16, l@.len() as int) =~= l@.skip(16));
            }
            let value = text::trim(&text::subvec(&l, 16, l.len()));
            acc.created_at_commit = Some(value);
        } else if text::starts_with(&l, &p_done) {
            proof {
                assert(l@.subrange(11, l@.len() as int) =~= l@.skip(11));
            }
            let value = text::trim(&text::subvec(&l, 11, l.len()));
            match DateTime::parse_datetime(&value) {
                Some(d) => {
                    acc.completed_at_time = Some(d);
                },
                None => {
                    let mut msg = text::str_to_chars("Failed to parse datetime: ");
                    text::push_all(&mut msg, &value);
                    proof {
                        assert(spec_scan_task_meta(mlines, 0, empty_meta()) == Err::<
                            MetaV,
                            Seq<char>,
                        >(msg@));
                        assert(spec_parse_task(bv) == Err::<TaskV, Seq<char>>(msg@));
                    }
                    return Err(ParseError::new(text::chars_to_string(&msg)));
                },
            }
        } else if text::starts_with(&l, &p_dver) {
            proof {
                assert(l@.subrange(19, l@.len() as int) =~= l@.skip(19));
            }
            let value = text::trim(&text::subvec(&l, 19, l.len()));
            match Version::parse_chars(&value) {
                Ok(v) => {
                    acc.completed_at_version = Some(v);
                },
                Err(e) => {
                    proof {
                        assert(spec_scan_task_meta(mlines, 0, empty_meta()) == Err::<
                            MetaV,
                            Seq<char>,
                        >(e.message@));
                        assert(spec_parse_task(bv) == Err::<TaskV, Seq<char>>(e.message@));
                    }
                    return Err(e);
                },
            }
        } else if text::starts_with(&l, &p_dcom) {
            proof {
                assert(l@.subrange(18, l@.len() as int) =~= l@.skip(18));
            }
            let value = text::trim(&text::subvec(&l, 18, l.len()));
            acc.completed_at_commit = Some(value);
        }
        j = j + 1;
    }
    let created = match &acc.created_at_time {
        Some(d) => *d,
        None => {
            return Err(ParseError::new("Task missing @created timestamp".to_owned()));
        },
    };
    // assemble the task
    let mut tag_strings: Vec<String> = Vec::new();
    let m = tags.len();
    let mut k: usize = 0;
    while k < m
        invariant
            k <= m,
            m == tags@.len(),
            m == tags.deep_view().len(),
            tag_strings.deep_view() == tags.deep_view().take(k as int),
        decreases m - k,
    {
        let ghost prev = tag_strings.deep_view();
        tag_strings.push(text::chars_to_string(&tags[k]));
        proof {
            assert(tags@[k as int]@ == tags.deep_view()[k as int]);
            assert(tag_strings.deep_view() =~~= prev.push(tags.deep_view()[k as int]));
            assert(tag_strings.deep_view() =~~= tags.deep_view().take(k as int + 1));
        }
        k = k + 1;
    }
    proof {
        assert(tags.deep_view().take(m as int) =~= tags.deep_view());
    }
    let t = Task {
        description: text::chars_to_string(&desc_chars),
        priority: prio,
        tags: tag_strings,
        completed,
        created_at_time: created,
        created_at_version: acc.created_at_version,
        created_at_commit: option_chars_to_string(&acc.created_at_commit),
        completed_at_time: acc.completed_at_time,
        completed_at_version: acc.completed_at_version,
        completed_at_commit: option_chars_to_string(&acc.completed_at_commit),
    };
    Ok(t)
}

/// Parses a TODO text back into a list.
#[verifier::rlimit(80)]
pub fn deserialize(content: &str) -> (r: Result<List, ParseError>)
    ensures
        r matches Ok(l) ==> spec_deserialize(content@) == Ok::<ListV, Seq<char>>(l@),
        r matches Err(e) ==> spec_deserialize(content@) == Err::<ListV, Seq<char>>(e.message@),
{
    let chars = text::str_to_chars(content);
    let dlines = text::lines_of(&chars);
    let ghost lv = text::spec_lines(content@);
    proof {
        assert(dlines.deep_view() == lv);
    }
    let n = dlines.len();
    if n == 0 {
        return Err(ParseError::new("Empty TODO file".to_owned()));
    }
    proof {
        assert(dlines@[0]@ == lv[0]);
    }
    let (name_chars, project_version) = match parse_header_x(&dlines[0]) {
        Ok(p) => p,
        Err(e) => {
            return Err(e);
        },
    };
    // metadata lines
    let lit_created = text::str_to_chars("@created:");
    let lit_modified = text::str_to_chars("@modified:");
    let mut created: Option<DateTime> = None;
    let mut modified: Option<DateTime> = None;
    let mut i: usize = 1;
    loop
        invariant
            1 <= i <= n,
            n > 0,
            n == dlines@.len(),
            n == lv.len(),
            lv == dlines.deep_view(),
            lv == text::spec_lines(content@),
            lit_created@ == "@created:"@,
            lit_modified@ == "@modified:"@,
            spec_parse_header(lv[0]) == Ok::<(Seq<char>, Version), Seq<char>>(
                (name_chars@, project_version),
            ),
            spec_scan_meta(lv, 1, None, None) == spec_scan_meta(lv, i as int, created, modified),
        ensures
            1 <= i <= n,
            spec_scan_meta(lv, 1, None, None) == Ok::<
                (int, Option<DateTime>, Option<DateTime>),
                Seq<char>,
            >((i as int, created, modified)),
        decreases n - i,
    {
        if i >= n {
            break;
        }
        proof {
            assert(dlines@[i as int]@ == lv[i as int]);
        }
        if text::starts_with(&dlines[i], &lit_created) {
            match parse_date_line_x(&dlines[i]) {
                Ok(d) => {
                    created = Some(d);
                },
                Err(e) => {
                    proof {
                        assert(spec_scan_meta(lv, 1, None, None) == Err::<
                            (int, Option<DateTime>, Option<DateTime>),
                            Seq<char>,
                        >(e.message@));
                        assert(spec_deserialize(content@) == Err::<ListV, Seq<char>>(
                            e.message@,
                        ));
                    }
                    return Err(e);
                },
            }
        } else if text::starts_with(&dlines[i], &lit_modified) {
            match parse_date_line_x(&dlines[i]) {
                Ok(d) => {
                    modified = Some(d);
                },
                Err(e) => {
                    proof {
                        assert(spec_scan_meta(lv, 1, None, None) == Err::<
                            (int, Option<DateTime>, Option<DateTime>),
                            Seq<char>,
                        >(e.message@));
                        assert(spec_deserialize(content@) == Err::<ListV, Seq<char>>(
                            e.message@,
                        ));
                    }
                    return Err(e);
                },
            }
        } else {
            let t = text::trim(&dlines[i]);
            if t.len() == 0 {
            } else {
                break;
            }
        }
        i = i + 1;
    }
    let created = match &created {
        Some(d) => *d,
        None => {
            return Err(ParseError::new("Missing @created metadata".to_owned()));
        },
    };
    let modified = match &modified {
        Some(d) => *d,
        None => {
            return Err(ParseError::new("Missing @modified metadata".to_owned()));
        },
    };
    // find the first section header
    let lit_tasks = text::str_to_chars("## Tasks");
    let lit_done = text::str_to_chars("## Completed");
    let mut si: usize = i;
    let mut found = false;
    loop
        invariant_except_break
            !found,
        invariant
            i <= si <= n,
            n == dlines@.len(),
            n == lv.len(),
            lv == dlines.deep_view(),
            lit_tasks@ == "## Tasks"@,
            lit_done@ == "## Completed"@,
            spec_find_section(lv, i as int) == spec_find_section(lv, si as int),
        ensures
            i <= si <= n,
            found ==> spec_find_section(lv, i as int) == Some(si as int),
            !found ==> spec_find_section(lv, i as int) is None,
        decreases n - si,
    {
        if si >= n {
            break;
        }
        proof {
            assert(dlines@[si as int]@ == lv[si as int]);
        }
        let t = text::trim(&dlines[si]);
        if text::chars_eq(&t, &lit_tasks) || text::chars_eq(&t, &lit_done) {
            found = true;
            break;
        }
        si = si + 1;
    }
    let mut tasks: Vec<Task> = Vec::new();
    if found {
        // group the remaining lines into blocks
        let mut blocks: Vec<Vec<Vec<char>>> = Vec::new();
        let mut cur: Vec<Vec<char>> = Vec::new();
        let lit_open = text::str_to_chars("- [");
        let mut j: usize = si + 1;
        let ghost whole = spec_blocks(lv, si as int + 1, Seq::empty());
        proof {
            assert(cur.deep_view() =~~= Seq::<Seq<char>>::empty());
        }
        while j < n
            invariant
                si + 1 <= j <= n,
                n == dlines@.len(),
                n == lv.len(),
                lv == dlines.deep_view(),
                lit_open@ == "- ["@,
                whole == blocks.deep_view() + spec_blocks(lv, j as int, cur.deep_view()),
            decreases n - j,
        {
            proof {
                assert(dlines@[j as int]@ == lv[j as int]);
            }
            if text::starts_with(&dlines[j], &lit_open) {
                if cur.len() > 0 {
                    let ghost prev_blocks = blocks.deep_view();
                    let ghost prev_cur = cur.deep_view();
                    blocks.push(cur);
                    proof {
                        assert(blocks.deep_view() =~~= prev_blocks.push(prev_cur));
                    }
                    cur = Vec::new();
                    cur.push(text::subvec(&dlines[j], 0, dlines[j].len()));
                    proof {
                        assert(lv[j as int].subrange(0, lv[j as int].len() as int) =~= lv[j as int]);
                        assert(cur.deep_view() =~~= seq![lv[j as int]]);
                        assert(blocks.deep_view() + spec_blocks(lv, j as int + 1, cur.deep_view())
                            =~~= prev_blocks + (seq![prev_cur] + spec_blocks(
                            lv,
                            j as int + 1,
                            seq![lv[j as int]],
                        )));
                    }
                } else {
                    cur.push(text::subvec(&dlines[j], 0, dlines[j].len()));
                    proof {
                        assert(lv[j as int].subrange(0, lv[j as int].len() as int) =~= lv[j as int]);
                        assert(cur.deep_view() =~~= seq![lv[j as int]]);
                    }
                }
            } else {
                let t = text::trim(&dlines[j]);
                if cur.len() > 0 && t.len() > 0 {
                    let ghost prev_cur = cur.deep_view();
                    cur.push(text::subvec(&dlines[j], 0, dlines[j].len()));
                    proof {
                        assert(lv[j as int].subrange(0, lv[j as int].len() as int) =~= lv[j as int]);
                        assert(cur.deep_view() =~~= prev_cur.push(lv[j as int]));
                    }
                }
            }
            j = j + 1;
        }
        if cur.len() > 0 {
            let ghost prev_blocks = blocks.deep_view();
            let ghost prev_cur = cur.deep_view();
            blocks.push(cur);
            proof {
                assert(blocks.deep_view() =~~= prev_blocks.push(prev_cur));
                assert(whole =~~= blocks.deep_view());
            }
        } else {
            proof {
                assert(whole =~~= blocks.deep_view());
            }
        }
        // parse each block
        let ghost bs = blocks.deep_view();
        let bm = blocks.len();
        let mut k: usize = 0;
        proof {
            assert(bs.skip(0) =~= bs);
            assert(tasks.deep_view() =~~= Seq::<TaskV>::empty());
            assert forall|ts: Seq<TaskV>|
                spec_parse_blocks(bs.skip(0)) == Ok::<Seq<TaskV>, Seq<char>>(ts)
                    implies spec_parse_blocks(bs) == Ok::<Seq<TaskV>, Seq<char>>(
                tasks.deep_view() + ts,
            ) by {
                assert(tasks.deep_view() + ts =~= ts);
            }
        }
        while k < bm
            invariant
                k <= bm,
                bm == blocks@.len(),
                bm == bs.len(),
                bs == blocks.deep_view(),
                n > 0,
                n == lv.len(),
                lv == text::spec_lines(content@),
                spec_parse_header(lv[0]) == Ok::<(Seq<char>, Version), Seq<char>>(
                    (name_chars@, project_version),
                ),
                spec_scan_meta(lv, 1, None, None) == Ok::<
                    (int, Option<DateTime>, Option<DateTime>),
                    Seq<char>,
                >((i as int, Some(created), Some(modified))),
                spec_find_section(lv, i as int) == Some(si as int),
                whole == bs,
                whole == spec_blocks(lv, si as int + 1, Seq::empty()),
                forall|ts: Seq<TaskV>|
                    spec_parse_blocks(bs.skip(k as int)) == Ok::<Seq<TaskV>, Seq<char>>(ts)
                        ==> spec_parse_blocks(bs) == Ok::<Seq<TaskV>, Seq<char>>(
                        tasks.deep_view() + ts,
                    ),
                forall|e: Seq<char>|
                    spec_parse_blocks(bs.skip(k as int)) == Err::<Seq<TaskV>, Seq<char>>(e)
                        ==> spec_parse_blocks(bs) == Err::<Seq<TaskV>, Seq<char>>(e),
            decreases bm - k,
        {
            proof {
                assert(blocks@[k as int].deep_view() == bs[k as int]);
                assert(bs.skip(k as int)[0] == bs[k as int]);
                assert(bs.skip(k as int).drop_first() =~= bs.skip(k as int + 1));
            }
            match parse_task_x(&blocks[k]) {
                Ok(t) => {
                    let ghost prev_tasks = tasks.deep_view();
                    let ghost tvw = t@;
                    tasks.push(t);
                    proof {
                        assert(tasks.deep_view() =~~= prev_tasks.push(tvw));
                        assert forall|ts: Seq<TaskV>|
                            spec_parse_blocks(bs.skip(k as int + 1)) == Ok::<
                                Seq<TaskV>,
                                Seq<char>,
                            >(ts) implies spec_parse_blocks(bs) == Ok::<Seq<TaskV>, Seq<char>>(
                            tasks.deep_view() + ts,
                        ) by {
                            assert(spec_parse_blocks(bs.skip(k as int)) == Ok::<
                                Seq<TaskV>,
                                Seq<char>,
                            >(seq![tvw] + ts));
                            assert(prev_tasks + (seq![tvw] + ts) =~= tasks.deep_view() + ts);
                        }
                    }
                },
                Err(e) => {
                    proof {
                        assert(spec_parse_blocks(bs.skip(k as int)) == Err::<
                            Seq<TaskV>,
                            Seq<char>,
                        >(e.message@));
                        assert(spec_parse_blocks(bs) == Err::<Seq<TaskV>, Seq<char>>(
                            e.message@,
                        ));
                        assert(bs == whole);
                        assert(spec_find_section(lv, i as int) == Some(si as int));
                        assert(spec_deserialize(content@) == Err::<ListV, Seq<char>>(
                            e.message@,
                        ));
                    }
                    return Err(e);
                },
            }
            k = k + 1;
        }
        proof {
            assert(bs.skip(bm as int) =~= Seq::<Seq<Seq<char>>>::empty());
            assert(spec_parse_blocks(bs.skip(bm as int)) == Ok::<Seq<TaskV>, Seq<char>>(
                Seq::empty(),
            ));
            assert(tasks.deep_view() + Seq::<TaskV>::empty() =~= tasks.deep_view());
        }
    }
    proof {
        if !found {
            assert(tasks.deep_view() =~~= Seq::<TaskV>::empty());
        }
    }
    let list = List {
        project_name: text::chars_to_string(&name_chars),
        project_version,
        created_at: created,
        modified_at: modified,
        tasks,
    };
    Ok(list)
}

impl List {
    /// The list in its text form.
    pub fn to_todo_string(&self) -> (r: String)
        ensures
            r@ == spec_serialize(self@),
    {
        serialize(self)
    }

    /// Parses a list from its text form.
    pub fn from_todo_string(content: &str) -> (r: Result<List, ParseError>)
        ensures
            r matches Ok(l) ==> spec_deserialize(content@) == Ok::<ListV, Seq<char>>(l@),
            r matches Err(e) ==> spec_deserialize(content@) == Err::<ListV, Seq<char>>(
                e.message@,
            ),
    {
        deserialize(content)
    }
}


// ---------------------------------------------------------------------------
// the round trip: what it asks of a list, and helper facts
// ---------------------------------------------------------------------------

pub open spec fn ws_free(s: Seq<char>) -> bool {
    forall|i: int| 0 <= i < s.len() ==> !text::is_space(#[trigger] s[i])
}

/// A word of a description that reads back as itself: nonempty, free of
/// whitespace, not a tag token, not a priority token.
pub open spec fn token_safe(tok: Seq<char>) -> bool {
    tok.len() > 0 && ws_free(tok) && tok[0] != '#' && tok != "(high)"@ && tok != "(low)"@
        && tok != "(medium)"@
}

/// A commit hash the format keeps: nonempty, no surrounding whitespace, no
/// newline.
pub open spec fn commit_safe(c: Option<Seq<char>>) -> bool {
    match c {
        Some(x) => x.len() > 0 && text::spec_trim(x) == x && text::no_char(x, '\n') && !(
        x.last() == '\r'),
        None => true,
    }
}

pub open spec fn opt_version_safe(v: Option<Version>) -> bool {
    match v {
        Some(x) => !x.is_prerelease,
        None => true,
    }
}

pub open spec fn tag_safe(tag: Seq<char>) -> bool {
    ws_free(tag) && (tag.len() > 0 ==> tag[0] != '#')
}

/// What the text format can carry of one task without loss.
pub open spec fn task_round_trip_safe(t: TaskV) -> bool {
    let toks = text::spec_tokens(t.description);
    &&& toks.len() > 0
    &&& t.description == text::spec_join(toks, ' ')
    &&& forall|k: int| 0 <= k < toks.len() ==> token_safe(#[trigger] toks[k])
    &&& forall|k: int| 0 <= k < t.tags.len() ==> tag_safe(#[trigger] t.tags[k])
    &&& t.created_at_time.well_formed()
    &&& match t.completed_at_time {
        Some(x) => x.well_formed(),
        None => true,
    }
    &&& opt_version_safe(t.created_at_version)
    &&& opt_version_safe(t.completed_at_version)
    &&& commit_safe(t.created_at_commit)
    &&& commit_safe(t.completed_at_commit)
    &&& (!t.completed ==> t.completed_at_time is None && t.completed_at_version is None
        && t.completed_at_commit is None)
    &&& (!t.completed ==> !text::spec_contains(spec_task_line(t), "[x]"@)
        && !text::spec_contains(spec_task_line(t), "[X]"@))
}

/// What the text format can carry of a whole list without loss: safe
/// fields, day-truncated dates, no prerelease project version, and the
/// tasks already in the order the file writes them.
pub open spec fn list_round_trip_safe(l: ListV) -> bool {
    &&& l.project_name.len() > 0
    &&& text::spec_trim(l.project_name) == l.project_name
    &&& text::no_char(l.project_name, '\n')
    &&& !l.project_version.is_prerelease
    &&& l.created_at.well_formed() && l.created_at.is_midnight()
    &&& l.modified_at.well_formed() && l.modified_at.is_midnight()
    &&& forall|k: int| 0 <= k < l.tasks.len() ==> task_round_trip_safe(#[trigger] l.tasks[k])
    &&& l.tasks == spec_sort_by(l.tasks.filter(|t: TaskV| !t.completed), |t: TaskV| created_key(t))
        + spec_sort_by(l.tasks.filter(|t: TaskV| t.completed), |t: TaskV| completed_key(t))
}

proof fn lemma_no_char_concat(a: Seq<char>, b: Seq<char>, c: char)
    requires
        text::no_char(a, c),
        text::no_char(b, c),
    ensures
        text::no_char(a + b, c),
{
    assert forall|i: int| 0 <= i < (a + b).len() implies #[trigger] (a + b)[i] != c by {
        if i < a.len() {
            assert((a + b)[i] == a[i]);
        } else {
            assert((a + b)[i] == b[i - a.len()]);
        }
    }
}

proof fn lemma_join_no_char(parts: Seq<Seq<char>>, sep: char, c: char)
    requires
        forall|k: int| 0 <= k < parts.len() ==> text::no_char(#[trigger] parts[k], c),
        sep != c,
    ensures
        text::no_char(text::spec_join(parts, sep), c),
    decreases parts.len(),
{
    if parts.len() == 0 {
    } else if parts.len() == 1 {
    } else {
        lemma_join_no_char(parts.drop_first(), sep, c);
        lemma_no_char_concat(parts[0], seq![sep], c);
        lemma_no_char_concat(parts[0] + seq![sep], text::spec_join(parts.drop_first(), sep), c);
        assert(text::spec_join(parts, sep) =~= (parts[0] + seq![sep]) + text::spec_join(
            parts.drop_first(),
            sep,
        ));
    }
}

proof fn lemma_ws_free_no_char(s: Seq<char>, c: char)
    requires
        ws_free(s),
        text::is_space(c),
    ensures
        text::no_char(s, c),
{
    assert forall|i: int| 0 <= i < s.len() implies #[trigger] s[i] != c by {
        assert(!text::is_space(s[i]));
    }
}

proof fn lemma_lit_no_newline(s: Seq<char>)
    requires
        forall|i: int| 0 <= i < s.len() ==> text::is_digit(#[trigger] s[i]),
    ensures
        text::no_char(s, '\n'),
{
    assert forall|i: int| 0 <= i < s.len() implies #[trigger] s[i] != '\n' by {
        assert(text::is_digit(s[i]));
    }
}

/// A safe task's first line: a proper line that announces a task.
proof fn lemma_task_line_wf(t: TaskV)
    requires
        task_round_trip_safe(t),
    ensures
        text::line_ok(spec_task_line(t)),
        text::has_prefix(spec_task_line(t), "- ["@),
        spec_task_line(t).len() > 0,
        value_last_not_space(spec_task_line(t)),
{
    let toks = text::spec_tokens(t.description);
    let line = spec_task_line(t);
    reveal_strlit("- [");
    reveal_strlit("] ");
    reveal_strlit(" (high)");
    reveal_strlit(" (low)");
    // description has no newline
    assert(text::no_char(t.description, '\n')) by {
        assert forall|k: int|
            0 <= k < toks.len() implies text::no_char(#[trigger] toks[k], '\n') by {
            lemma_ws_free_no_char(toks[k], '\n');
        }
        lemma_join_no_char(toks, ' ', '\n');
    }
    assert(text::no_char(spec_priority_suffix(t.priority), '\n')) by {
        match t.priority {
            Priority::High => {
                assert(forall|i: int|
                    0 <= i < " (high)"@.len() ==> #[trigger] " (high)"@[i] != '\n');
            },
            Priority::Medium => {},
            Priority::Low => {
                assert(forall|i: int|
                    0 <= i < " (low)"@.len() ==> #[trigger] " (low)"@[i] != '\n');
            },
        }
    }
    let hashed = t.tags.map_values(|x: Seq<char>| seq!['#'] + x);
    assert(text::no_char(spec_tags_suffix(t.tags), '\n')) by {
        if t.tags.len() > 0 {
            assert forall|k: int|
                0 <= k < hashed.len() implies text::no_char(#[trigger] hashed[k], '\n') by {
                lemma_ws_free_no_char(t.tags[k], '\n');
                lemma_no_char_concat(seq!['#'], t.tags[k], '\n');
            }
            lemma_join_no_char(hashed, ' ', '\n');
            lemma_no_char_concat(seq![' '], text::spec_join(hashed, ' '), '\n');
        }
    }
    assert(text::no_char(line, '\n')) by {
        assert(forall|i: int| 0 <= i < "- ["@.len() ==> #[trigger] "- ["@[i] != '\n');
        assert(forall|i: int| 0 <= i < "] "@.len() ==> #[trigger] "] "@[i] != '\n');
        let cb: Seq<char> = if t.completed {
            seq!['x']
        } else {
            seq![' ']
        };
        lemma_no_char_concat("- ["@, cb, '\n');
        lemma_no_char_concat("- ["@ + cb, "] "@, '\n');
        lemma_no_char_concat("- ["@ + cb + "] "@, t.description, '\n');
        lemma_no_char_concat(
            "- ["@ + cb + "] "@ + t.description,
            spec_priority_suffix(t.priority),
            '\n',
        );
        lemma_no_char_concat(
            "- ["@ + cb + "] "@ + t.description + spec_priority_suffix(t.priority),
            spec_tags_suffix(t.tags),
            '\n',
        );
    }
    // the line ends in a visible character
    assert(!text::is_space(line.last())) by {
        if t.tags.len() > 0 {
            let joined = text::spec_join(hashed, ' ');
            lemma_join_last_of_last(hashed, ' ');
            let lastpart = hashed[hashed.len() - 1];
            assert(lastpart.len() > 1 ==> !text::is_space(lastpart.last())) by {
                if t.tags[t.tags.len() - 1].len() > 0 {
                    assert(lastpart.last() == t.tags[t.tags.len() - 1].last());
                    assert(!text::is_space(t.tags[t.tags.len() - 1].last()));
                }
            }
            assert(line.last() == joined.last());
            if lastpart.len() == 1 {
                assert(lastpart.last() == '#');
            }
        } else {
            match t.priority {
                Priority::High => {
                    assert(line.last() == " (high)"@[6]);
                },
                Priority::Low => {
                    assert(line.last() == " (low)"@[5]);
                },
                Priority::Medium => {
                    assert(line.last() == t.description.last());
                    lemma_join_last_of_last(toks, ' ');
                    assert(!text::is_space(t.description.last()));
                },
            }
        }
    }
    assert(line.take(3) =~= "- ["@);
}

/// The last character of a nonempty join is the last character of its last
/// nonempty piece.
proof fn lemma_join_last_of_last(parts: Seq<Seq<char>>, sep: char)
    requires
        parts.len() > 0,
        parts[parts.len() - 1].len() > 0,
    ensures
        text::spec_join(parts, sep).len() > 0,
        text::spec_join(parts, sep).last() == parts[parts.len() - 1].last(),
    decreases parts.len(),
{
    if parts.len() == 1 {
    } else {
        lemma_join_last_of_last(parts.drop_first(), sep);
        assert(parts.drop_first()[parts.drop_first().len() - 1] == parts[parts.len() - 1]);
        let j = text::spec_join(parts, sep);
        let jr = text::spec_join(parts.drop_first(), sep);
        assert(j =~= parts[0] + seq![sep] + jr);
        assert(j.last() == jr.last());
    }
}

/// A safe task's metadata lines are proper indented lines: nonblank, no
/// newline, no trailing carriage return, and none opens a new task.
proof fn lemma_meta_lines_wf(t: TaskV)
    requires
        task_round_trip_safe(t),
    ensures
        forall|k: int|
            0 <= k < spec_meta_lines(t).len() ==> text::line_ok(#[trigger] spec_meta_lines(t)[k])
                && spec_meta_lines(t)[k].len() > 0 && spec_meta_lines(t)[k][0] == ' '
                && text::spec_trim(spec_meta_lines(t)[k]).len() > 0,
{
    let ms = spec_meta_lines(t);
    assert forall|k: int|
        0 <= k < ms.len() implies text::line_ok(#[trigger] ms[k]) && ms[k].len() > 0 && ms[k][0]
        == ' ' && text::spec_trim(ms[k]).len() > 0 by {
        lemma_meta_line_wf_at(t, k);
    }
}

proof fn lemma_meta_line_value_wf(prefix: Seq<char>, value: Seq<char>)
    requires
        prefix.len() > 0,
        prefix[0] == ' ',
        text::no_char(prefix, '\n'),
        value.len() > 0,
        text::no_char(value, '\n'),
        !(value.last() == '\r'),
        !text::is_space(value.last()),
    ensures
        text::line_ok(prefix + value),
        (prefix + value).len() > 0,
        (prefix + value)[0] == ' ',
        text::spec_trim(prefix + value).len() > 0,
{
    let l = prefix + value;
    lemma_no_char_concat(prefix, value, '\n');
    assert(l.last() == value.last());
    lemma_trim_keeps_last_word(l);
}

/// A line whose last character is not whitespace trims to something
/// nonempty.
proof fn lemma_trim_keeps_last_word(l: Seq<char>)
    requires
        l.len() > 0,
        !text::is_space(l.last()),
    ensures
        text::spec_trim(l).len() > 0,
        text::spec_trim(l).last() == l.last(),
        text::spec_trim(l).len() > 0 ==> text::spec_trim(l)[0] == text::spec_trim_start(
            l,
        )[0],
{
    lemma_trim_start_keeps_last(l);
    let m = text::spec_trim_start(l);
    assert(text::spec_trim_end(m) == m);
}

proof fn lemma_trim_start_le(s: Seq<char>)
    ensures
        text::spec_trim_start(s).len() <= s.len(),
    decreases s.len(),
{
    if s.len() > 0 && text::is_space(s[0]) {
        lemma_trim_start_le(s.drop_first());
    }
}

proof fn lemma_trim_end_le(s: Seq<char>)
    ensures
        text::spec_trim_end(s).len() <= s.len(),
    decreases s.len(),
{
    if s.len() > 0 && text::is_space(s.last()) {
        lemma_trim_end_le(s.drop_last());
    }
}

/// A string equal to its own trim has no whitespace at either end.
proof fn lemma_trim_id_chars(s: Seq<char>)
    requires
        s.len() > 0,
        text::spec_trim(s) == s,
    ensures
        !text::is_space(s[0]),
        !text::is_space(s.last()),
{
    if text::is_space(s[0]) {
        lemma_trim_start_le(s.drop_first());
        lemma_trim_end_le(text::spec_trim_start(s));
        assert(text::spec_trim(s).len() < s.len());
    }
    assert(text::spec_trim_start(s) == s);
    if text::is_space(s.last()) {
        lemma_trim_end_le(s.drop_last());
        assert(text::spec_trim_end(s).len() < s.len());
    }
}

proof fn lemma_trim_start_keeps_last(l: Seq<char>)
    requires
        l.len() > 0,
        !text::is_space(l.last()),
    ensures
        text::spec_trim_start(l).len() > 0,
        text::spec_trim_start(l).last() == l.last(),
    decreases l.len(),
{
    if text::is_space(l[0]) {
        assert(l.drop_first().last() == l.last());
        lemma_trim_start_keeps_last(l.drop_first());
    }
}

proof fn lemma_meta_line_wf_at(t: TaskV, k: int)
    requires
        task_round_trip_safe(t),
        0 <= k < spec_meta_lines(t).len(),
    ensures
        text::line_ok(spec_meta_lines(t)[k]),
        spec_meta_lines(t)[k].len() > 0,
        spec_meta_lines(t)[k][0] == ' ',
        text::spec_trim(spec_meta_lines(t)[k]).len() > 0,
{
    reveal_strlit("      @created ");
    reveal_strlit("      @created_version ");
    reveal_strlit("      @created_commit ");
    reveal_strlit("      @completed ");
    reveal_strlit("      @completed_version ");
    reveal_strlit("      @completed_commit ");
    let ms = spec_meta_lines(t);
    lemma_meta_parts_wf(t);
    assert(text::line_ok(ms[k]) && ms[k].len() > 0 && ms[k][0] == ' ' && text::spec_trim(
        ms[k],
    ).len() > 0);
}

/// Each possible metadata line of a safe task is well formed.
proof fn lemma_meta_parts_wf(t: TaskV)
    requires
        task_round_trip_safe(t),
    ensures
        forall|k: int|
            0 <= k < spec_meta_lines(t).len() ==> text::line_ok(#[trigger] spec_meta_lines(t)[k])
                && spec_meta_lines(t)[k].len() > 0 && spec_meta_lines(t)[k][0] == ' '
                && text::spec_trim(spec_meta_lines(t)[k]).len() > 0,
{
    reveal_strlit("      @created ");
    reveal_strlit("      @created_version ");
    reveal_strlit("      @created_commit ");
    reveal_strlit("      @completed ");
    reveal_strlit("      @completed_version ");
    reveal_strlit("      @completed_commit ");
    let created_line = "      @created "@ + t.created_at_time.spec_datetime_chars();
    crate::time::lemma_datetime_chars_no_newline(t.created_at_time);
    lemma_datetime_last_not_space(t.created_at_time);
    assert(forall|i: int|
        0 <= i < "      @created "@.len() ==> #[trigger] "      @created "@[i] != '\n');
    lemma_meta_line_value_wf("      @created "@, t.created_at_time.spec_datetime_chars());
    match t.created_at_version {
        Some(v) => {
            lemma_version_chars_plain(v);
            lemma_meta_line_value_wf("      @created_version "@, v.spec_chars());
        },
        None => {},
    }
    match t.created_at_commit {
        Some(c) => {
            lemma_trim_id_chars(c);
            lemma_meta_line_value_wf("      @created_commit "@, c);
        },
        None => {},
    }
    if t.completed {
        match t.completed_at_time {
            Some(x) => {
                crate::time::lemma_datetime_chars_no_newline(x);
                lemma_datetime_last_not_space(x);
                lemma_meta_line_value_wf("      @completed "@, x.spec_datetime_chars());
            },
            None => {},
        }
        match t.completed_at_version {
            Some(v) => {
                lemma_version_chars_plain(v);
                lemma_meta_line_value_wf("      @completed_version "@, v.spec_chars());
            },
            None => {},
        }
        match t.completed_at_commit {
            Some(c) => {
                lemma_trim_id_chars(c);
                lemma_meta_line_value_wf("      @completed_commit "@, c);
            },
            None => {},
        }
    }
    assert forall|k: int|
        0 <= k < spec_meta_lines(t).len() implies text::line_ok(
        #[trigger] spec_meta_lines(t)[k],
    ) && spec_meta_lines(t)[k].len() > 0 && spec_meta_lines(t)[k][0] == ' ' && text::spec_trim(
        spec_meta_lines(t)[k],
    ).len() > 0 by {
        lemma_meta_lines_index(t, k);
    }
}

/// Each index of the metadata lines is one of the six concrete lines.
proof fn lemma_meta_lines_index(t: TaskV, k: int)
    requires
        0 <= k < spec_meta_lines(t).len(),
    ensures
        ({
            ||| spec_meta_lines(t)[k] == "      @created "@
                + t.created_at_time.spec_datetime_chars()
            ||| (t.created_at_version matches Some(v) && spec_meta_lines(t)[k]
                == "      @created_version "@ + v.spec_chars())
            ||| (t.created_at_commit matches Some(c) && spec_meta_lines(t)[k]
                == "      @created_commit "@ + c)
            ||| (t.completed_at_time matches Some(x) && t.completed && spec_meta_lines(t)[k]
                == "      @completed "@ + x.spec_datetime_chars())
            ||| (t.completed_at_version matches Some(v) && t.completed && spec_meta_lines(t)[k]
                == "      @completed_version "@ + v.spec_chars())
            ||| (t.completed_at_commit matches Some(c) && t.completed && spec_meta_lines(t)[k]
                == "      @completed_commit "@ + c)
        }),
{
}

/// A timestamp's text ends in a digit.
proof fn lemma_datetime_last_not_space(dt: crate::time::DateTime)
    ensures
        dt.spec_datetime_chars().len() > 0,
        !text::is_space(dt.spec_datetime_chars().last()),
        !(dt.spec_datetime_chars().last() == '\r'),
{
    let p5 = text::spec_pad_digits(dt.minute as int, 2);
    text::lemma_parse_of_padded(dt.minute, 2);
    assert(dt.spec_datetime_chars().last() == p5.last());
    assert(text::is_digit(p5.last()));
}

/// A stable version's text is digits and dots only.
proof fn lemma_version_chars_plain(v: Version)
    requires
        !v.is_prerelease,
    ensures
        v.spec_chars().len() > 0,
        forall|i: int|
            0 <= i < v.spec_chars().len() ==> text::is_digit(#[trigger] v.spec_chars()[i])
                || v.spec_chars()[i] == '.',
        !text::is_space(v.spec_chars().last()),
        text::no_char(v.spec_chars(), '\n'),
        !(v.spec_chars().last() == '\r'),
        value_last_not_space(v.spec_chars()),
    decreases v.major,
{
    let d1 = text::spec_dec_digits(v.major as int);
    let d2 = text::spec_dec_digits(v.minor as int);
    let d3 = text::spec_dec_digits(v.patch as int);
    text::lemma_dec_digits_ok(v.major as int);
    text::lemma_dec_digits_ok(v.minor as int);
    text::lemma_dec_digits_ok(v.patch as int);
    let s = v.spec_chars();
    assert(s =~= d1 + seq!['.'] + d2 + seq!['.'] + d3);
    assert forall|i: int| 0 <= i < s.len() implies text::is_digit(#[trigger] s[i]) || s[i]
        == '.' by {
        if i < d1.len() {
            assert(s[i] == d1[i]);
        } else if i == d1.len() {
        } else if i < d1.len() + 1 + d2.len() {
            assert(s[i] == d2[i - d1.len() - 1]);
        } else if i == d1.len() + 1 + d2.len() {
        } else {
            assert(s[i] == d3[i - d1.len() - d2.len() - 2]);
        }
    }
    assert(s.last() == d3.last());
    assert(text::is_digit(s.last()));
    assert forall|i: int| 0 <= i < s.len() implies #[trigger] s[i] != '\n' by {
        assert(text::is_digit(s[i]) || s[i] == '.');
    }
}

/// A value whose last character is not whitespace.
pub open spec fn value_last_not_space(s: Seq<char>) -> bool {
    s.len() > 0 && !text::is_space(s.last())
}


proof fn lemma_strip_str_once(s: Seq<char>, p: Seq<char>)
    requires
        p.len() > 0,
        text::has_prefix(s, p),
        !text::has_prefix(s.skip(p.len() as int), p),
    ensures
        spec_strip_str_rep(s, p) == s.skip(p.len() as int),
{
    assert(spec_strip_str_rep(s.skip(p.len() as int), p) == s.skip(p.len() as int));
}

proof fn lemma_trim_ws_free(s: Seq<char>)
    requires
        forall|i: int| 0 <= i < s.len() ==> !text::is_space(#[trigger] s[i]),
    ensures
        text::spec_trim(s) == s,
{
    if s.len() > 0 {
        assert(text::spec_trim_start(s) == s);
        assert(text::spec_trim_end(s) == s);
    } else {
        assert(text::spec_trim_start(s) == s);
        assert(text::spec_trim_end(s) == s);
    }
}

/// The header line parses back to the name and version it was written
/// from.
proof fn lemma_header_parse(l: ListV)
    requires
        list_round_trip_safe(l),
    ensures
        spec_parse_header(spec_header_line(l)) == Ok::<(Seq<char>, Version), Seq<char>>(
            (l.project_name, l.project_version),
        ),
{
    reveal_strlit("# TODO — ");
    reveal_strlit("TODO —");
    reveal_strlit("TODO -");
    reveal_strlit(" v");
    reveal_strlit(" ");
    let name = l.project_name;
    let vchars = l.project_version.spec_chars();
    lemma_version_chars_plain(l.project_version);
    lemma_trim_id_chars(name);
    let line = spec_header_line(l);
    assert(line =~= "# TODO — "@ + name + " v"@ + vchars);
    // one leading hash is stripped
    let s1 = spec_strip_chars_rep(line, |c: char| c == '#');
    assert(line[0] == '#');
    assert(line.drop_first()[0] == ' ');
    assert(s1 == line.drop_first()) by {
        assert(spec_strip_chars_rep(line.drop_first(), |c: char| c == '#')
            == line.drop_first());
    }
    // trimming leaves `TODO — name vX.Y.Z`
    let core = "TODO —"@ + (" "@ + name + " v"@ + vchars);
    assert(s1 =~= seq![' '] + core);
    let l1 = text::spec_trim(s1);
    assert(text::spec_trim_start(s1) == text::spec_trim_start(core)) by {
        assert(s1.drop_first() =~= core);
    }
    assert(core[0] == 'T');
    assert(text::spec_trim_start(core) == core);
    assert(core.last() == vchars.last());
    assert(text::spec_trim_end(core) == core);
    assert(l1 == core);
    assert(text::has_prefix(l1, "TODO —"@)) by {
        assert(l1.take(6) =~= "TODO —"@);
    }
    // the em-dash marker is stripped once, the ascii marker not at all
    let after = " "@ + name + " v"@ + vchars;
    assert(l1.skip(6) =~= after);
    lemma_strip_str_once(l1, "TODO —"@);
    assert(!text::has_prefix(after, "TODO —"@)) by {
        assert(after[0] == ' ');
        if text::has_prefix(after, "TODO —"@) {
            assert(after.take(6)[0] == "TODO —"@[0]);
        }
    }
    assert(!text::has_prefix(after, "TODO -"@)) by {
        assert(after[0] == ' ');
        if text::has_prefix(after, "TODO -"@) {
            assert(after.take(6)[0] == "TODO -"@[0]);
        }
    }
    assert(spec_strip_str_rep(after, "TODO -"@) == after);
    let l2 = text::spec_trim(after);
    assert(!text::is_space(name[0]));
    assert(text::spec_trim_start(after) == name + " v"@ + vchars) by {
        assert(after.drop_first() =~= name + " v"@ + vchars);
        assert((name + " v"@ + vchars)[0] == name[0]);
        assert(text::spec_trim_start(name + " v"@ + vchars) == name + " v"@ + vchars);
    }
    assert((name + " v"@ + vchars).last() == vchars.last());
    assert(text::spec_trim_end(name + " v"@ + vchars) == name + " v"@ + vchars);
    assert(l2 == name + " v"@ + vchars);
    // the last ` v` stands right after the name
    let k = name.len() as int;
    assert(l2.subrange(k, k + 2) =~= " v"@);
    assert forall|j: int|
        k < j && j + 2 <= l2.len() implies #[trigger] l2.subrange(j, j + 2) != " v"@ by {
        if j == k + 1 {
            assert(l2[j] == 'v');
            assert(l2.subrange(j, j + 2)[0] == 'v');
        } else {
            assert(l2[j] == vchars[j - k - 2]);
            assert(text::is_digit(l2[j]) || l2[j] == '.');
            assert(l2.subrange(j, j + 2)[0] == l2[j]);
        }
    }
    text::lemma_rfind_exact(l2, " v"@, k);
    assert(l2.take(k) =~= name);
    assert(l2.skip(k + 2) =~= vchars);
    assert forall|i: int| 0 <= i < vchars.len() implies !text::is_space(
        #[trigger] vchars[i],
    ) by {
        assert(text::is_digit(vchars[i]) || vchars[i] == '.');
    }
    lemma_trim_ws_free(vchars);
    crate::version::lemma_version_string_parses(l.project_version);
}

/// A date metadata line parses back to its day at midnight.
proof fn lemma_date_line_parse(marker: Seq<char>, tail: Seq<char>, d: crate::time::DateTime)
    requires
        d.well_formed(),
        d.is_midnight(),
        marker == tail + ":"@ + " "@,
        text::no_char(tail, ':'),
    ensures
        spec_parse_date_line(marker + d.spec_date_chars()) == Ok::<
            crate::time::DateTime,
            Seq<char>,
        >(d),
{
    reveal_strlit(":");
    reveal_strlit(" ");
    let date = d.spec_date_chars();
    crate::time::lemma_date_chars_no_space(d);
    let line = marker + date;
    let rest = " "@ + date;
    assert(line =~= tail + seq![':'] + rest);
    assert(text::no_char(rest, ':')) by {
        assert forall|i: int| 0 <= i < rest.len() implies #[trigger] rest[i] != ':' by {
            if i == 0 {
            } else {
                assert(rest[i] == date[i - 1]);
                assert(!text::is_space(date[i - 1]) && (text::is_digit(date[i - 1]) || date[i
                    - 1] == '-')) by {
                    crate::time::lemma_date_chars_shape(d, i - 1);
                }
            }
        }
    }
    text::lemma_split_concat(tail, rest, ':');
    text::lemma_split_single(rest, ':');
    let parts = text::spec_split(line, ':');
    assert(parts =~= seq![tail, rest]);
    assert(text::spec_trim(rest) == date) by {
        assert(rest.drop_first() =~= date);
        assert(!text::is_space(date[0]));
        assert(text::spec_trim_start(date) == date);
        assert(!text::is_space(date.last()));
        assert(text::spec_trim_end(date) == date);
        assert(text::spec_trim_start(rest) == date);
    }
    crate::time::lemma_date_chars_parse(d);
    assert(crate::time::DateTime { hour: 0, minute: 0, ..d } == d);
}


proof fn lemma_scan_tokens_shift(toks: Seq<Seq<char>>, i: int, d: Seq<Seq<char>>, p: Priority, g: Seq<Seq<char>>)
    requires
        0 <= i <= toks.len(),
    ensures
        spec_scan_tokens(toks, i, d, p, g) == spec_scan_tokens(toks.skip(i), 0, d, p, g),
    decreases toks.len() - i,
{
    if i < toks.len() {
        assert(toks.skip(i)[0] == toks[i]);
        let tk = toks[i];
        assert(toks.skip(i).skip(1) =~= toks.skip(i + 1));
        if tk.len() > 0 && tk[0] == '#' {
            let g2 = g.push(spec_strip_chars_rep(tk, |c: char| c == '#'));
            lemma_scan_tokens_shift(toks, i + 1, d, p, g2);
            lemma_scan_tokens_shift(toks.skip(i), 1, d, p, g2);
        } else if tk == "(high)"@ {
            lemma_scan_tokens_shift(toks, i + 1, d, Priority::High, g);
            lemma_scan_tokens_shift(toks.skip(i), 1, d, Priority::High, g);
        } else if tk == "(low)"@ {
            lemma_scan_tokens_shift(toks, i + 1, d, Priority::Low, g);
            lemma_scan_tokens_shift(toks.skip(i), 1, d, Priority::Low, g);
        } else if tk == "(medium)"@ {
            lemma_scan_tokens_shift(toks, i + 1, d, Priority::Medium, g);
            lemma_scan_tokens_shift(toks.skip(i), 1, d, Priority::Medium, g);
        } else {
            lemma_scan_tokens_shift(toks, i + 1, d.push(tk), p, g);
            lemma_scan_tokens_shift(toks.skip(i), 1, d.push(tk), p, g);
        }
    } else {
        assert(toks.skip(i) =~= Seq::<Seq<char>>::empty());
    }
}

/// Scanning safe description tokens only accumulates them.
proof fn lemma_scan_desc_tokens(toks: Seq<Seq<char>>, tail: Seq<Seq<char>>, d: Seq<Seq<char>>, p: Priority, g: Seq<Seq<char>>)
    requires
        forall|k: int| 0 <= k < toks.len() ==> token_safe(#[trigger] toks[k]),
    ensures
        spec_scan_tokens(toks + tail, 0, d, p, g) == spec_scan_tokens(tail, 0, d + toks, p, g),
    decreases toks.len(),
{
    let all = toks + tail;
    if toks.len() == 0 {
        assert(all =~= tail);
        assert(d + toks =~= d);
    } else {
        let tk = toks[0];
        assert(all[0] == tk);
        assert(token_safe(tk));
        assert(spec_scan_tokens(all, 0, d, p, g) == spec_scan_tokens(all, 1, d.push(tk), p, g));
        lemma_scan_tokens_shift(all, 1, d.push(tk), p, g);
        assert(all.skip(1) =~= toks.drop_first() + tail);
        lemma_scan_desc_tokens(toks.drop_first(), tail, d.push(tk), p, g);
        assert(d.push(tk) + toks.drop_first() =~= d + toks);
    }
}

/// Scanning the rendered tag tokens recovers the tags.
proof fn lemma_scan_tag_tokens(tags: Seq<Seq<char>>, d: Seq<Seq<char>>, p: Priority, g: Seq<Seq<char>>)
    requires
        forall|k: int| 0 <= k < tags.len() ==> tag_safe(#[trigger] tags[k]),
    ensures
        spec_scan_tokens(tags.map_values(|x: Seq<char>| seq!['#'] + x), 0, d, p, g) == (
        d,
        p,
        g + tags,
        ),
    decreases tags.len(),
{
    let hashed = tags.map_values(|x: Seq<char>| seq!['#'] + x);
    if tags.len() == 0 {
        assert(g + tags =~= g);
    } else {
        let tk = hashed[0];
        assert(tk =~= seq!['#'] + tags[0]);
        assert(tk[0] == '#');
        assert(spec_strip_chars_rep(tk, |c: char| c == '#') == tags[0]) by {
            assert(tk.drop_first() =~= tags[0]);
            if tags[0].len() > 0 {
                assert(tags[0][0] != '#');
                assert(spec_strip_chars_rep(tags[0], |c: char| c == '#') == tags[0]);
            } else {
                assert(spec_strip_chars_rep(tags[0], |c: char| c == '#') == tags[0]);
            }
        }
        assert(spec_scan_tokens(hashed, 0, d, p, g) == spec_scan_tokens(
            hashed,
            1,
            d,
            p,
            g.push(tags[0]),
        ));
        lemma_scan_tokens_shift(hashed, 1, d, p, g.push(tags[0]));
        assert(hashed.skip(1) =~= tags.drop_first().map_values(|x: Seq<char>| seq!['#'] + x));
        lemma_scan_tag_tokens(tags.drop_first(), d, p, g.push(tags[0]));
        assert(g.push(tags[0]) + tags.drop_first() =~= g + tags);
    }
}

/// The content of a safe task's line parses back to its description,
/// priority, and tags.
proof fn lemma_task_content_parse(t: TaskV)
    requires
        task_round_trip_safe(t),
    ensures
        spec_parse_content(spec_task_content(spec_task_line(t))) == Ok::<
            (Seq<char>, Priority, Seq<Seq<char>>),
            Seq<char>,
        >((t.description, t.priority, t.tags)),
{
    reveal_strlit("- [");
    reveal_strlit("] ");
    reveal_strlit(" (high)");
    reveal_strlit(" (low)");
    reveal_strlit("(high)");
    reveal_strlit("(low)");
    reveal_strlit("(medium)");
    reveal_strlit(" ");
    let line = spec_task_line(t);
    let cb: Seq<char> = if t.completed {
        seq!['x']
    } else {
        seq![' ']
    };
    let rest = t.description + spec_priority_suffix(t.priority) + spec_tags_suffix(t.tags);
    let toks = text::spec_tokens(t.description);
    lemma_task_line_wf(t);
    assert(line =~= "- ["@ + (cb + "] "@ + rest));
    // strip the opener once
    assert(text::has_prefix(line, "- ["@)) by {
        assert(line.take(3) =~= "- ["@);
    }
    assert(line.skip(3) =~= cb + "] "@ + rest);
    assert(!text::has_prefix(cb + "] "@ + rest, "- ["@)) by {
        assert((cb + "] "@ + rest)[0] == cb[0]);
        if text::has_prefix(cb + "] "@ + rest, "- ["@) {
            assert((cb + "] "@ + rest).take(3)[0] == "- ["@[0]);
        }
    }
    lemma_strip_str_once(line, "- ["@);
    let s1 = cb + "] "@ + rest;
    // strip the checkbox character, stopping at the bracket
    let ckcl = |c: char| c == 'x' || c == 'X' || c == ' ';
    assert(spec_strip_chars_rep(s1, ckcl) == "] "@ + rest) by {
        assert(s1[0] == cb[0]);
        assert(s1.drop_first() =~= "] "@ + rest);
        assert(("] "@ + rest)[0] == ']');
        assert(spec_strip_chars_rep("] "@ + rest, ckcl) == "] "@ + rest);
    }
    // strip the bracket, stopping at the space
    let brcl = |c: char| c == ']';
    assert(spec_strip_chars_rep("] "@ + rest, brcl) == seq![' '] + rest) by {
        assert(("] "@ + rest).drop_first() =~= seq![' '] + rest);
        assert((seq![' '] + rest)[0] == ' ');
        assert(spec_strip_chars_rep(seq![' '] + rest, brcl) == seq![' '] + rest);
    }
    // trim the separating space
    let content = spec_task_content(line);
    assert(rest[0] == t.description[0]);
    assert(t.description[0] == toks[0][0]) by {
        lemma_join_first_of_first(toks, ' ');
    }
    assert(!text::is_space(rest[0]));
    assert(content == rest) by {
        assert(text::spec_trim_start(seq![' '] + rest) == text::spec_trim_start(rest)) by {
            assert((seq![' '] + rest).drop_first() =~= rest);
        }
        assert(text::spec_trim_start(rest) == rest);
        assert(rest.len() > 0);
        assert(line.last() == rest.last());
        assert(!text::is_space(rest.last()));
        assert(text::spec_trim_end(rest) == rest);
    }
    // the content is the single-space join of all the tokens
    let ptoks: Seq<Seq<char>> = match t.priority {
        Priority::High => seq!["(high)"@],
        Priority::Medium => Seq::empty(),
        Priority::Low => seq!["(low)"@],
    };
    let hashed = t.tags.map_values(|x: Seq<char>| seq!['#'] + x);
    let all_toks = toks + ptoks + hashed;
    assert(rest == text::spec_join(all_toks, ' ')) by {
        let dp = toks + ptoks;
        assert(text::spec_join(dp, ' ') == t.description + spec_priority_suffix(t.priority))
            by {
            match t.priority {
                Priority::Medium => {
                    assert(dp =~= toks);
                },
                Priority::High => {
                    text::lemma_join_concat(toks, seq!["(high)"@], ' ');
                    assert(text::spec_join(seq!["(high)"@], ' ') == "(high)"@);
                    assert(t.description + spec_priority_suffix(t.priority) =~= text::spec_join(
                        toks,
                        ' ',
                    ) + seq![' '] + "(high)"@);
                },
                Priority::Low => {
                    text::lemma_join_concat(toks, seq!["(low)"@], ' ');
                    assert(text::spec_join(seq!["(low)"@], ' ') == "(low)"@);
                    assert(t.description + spec_priority_suffix(t.priority) =~= text::spec_join(
                        toks,
                        ' ',
                    ) + seq![' '] + "(low)"@);
                },
            }
        }
        if t.tags.len() == 0 {
            assert(all_toks =~= dp);
            assert(rest =~= t.description + spec_priority_suffix(t.priority));
        } else {
            text::lemma_join_concat(dp, hashed, ' ');
            assert(all_toks =~= dp + hashed);
            assert(rest =~= text::spec_join(dp, ' ') + seq![' '] + text::spec_join(
                hashed,
                ' ',
            ));
        }
    }
    // tokens split back apart
    assert forall|k: int| 0 <= k < all_toks.len() implies (#[trigger] all_toks[k]).len() > 0
        && ws_free(all_toks[k]) by {
        if k < toks.len() {
            assert(all_toks[k] == toks[k]);
        } else if k < toks.len() + ptoks.len() {
            assert(all_toks[k] == ptoks[k - toks.len()]);
            match t.priority {
                Priority::High => {
                    assert(ptoks[0] == "(high)"@);
                    assert forall|i: int| 0 <= i < "(high)"@.len() implies !text::is_space(
                        #[trigger] "(high)"@[i],
                    ) by {}
                },
                Priority::Low => {
                    assert(ptoks[0] == "(low)"@);
                    assert forall|i: int| 0 <= i < "(low)"@.len() implies !text::is_space(
                        #[trigger] "(low)"@[i],
                    ) by {}
                },
                Priority::Medium => {},
            }
        } else {
            assert(all_toks[k] == hashed[k - toks.len() - ptoks.len()]);
            let tag = t.tags[k - toks.len() - ptoks.len()];
            assert(hashed[k - toks.len() - ptoks.len()] =~= seq!['#'] + tag);
            assert forall|i: int| 0 <= i < (seq!['#'] + tag).len() implies !text::is_space(
                #[trigger] (seq!['#'] + tag)[i],
            ) by {
                if i == 0 {
                } else {
                    assert((seq!['#'] + tag)[i] == tag[i - 1]);
                }
            }
        }
    }
    text::lemma_tokens_of_join(all_toks);
    assert(text::spec_tokens(content) == all_toks);
    // folding the tokens rebuilds the fields
    lemma_scan_desc_tokens(toks, ptoks + hashed, Seq::empty(), Priority::Medium, Seq::empty());
    assert(toks + ptoks + hashed =~= toks + (ptoks + hashed));
    assert(Seq::<Seq<char>>::empty() + toks =~= toks);
    match t.priority {
        Priority::Medium => {
            assert(ptoks + hashed =~= hashed);
            lemma_scan_tag_tokens(t.tags, toks, Priority::Medium, Seq::empty());
            assert(Seq::<Seq<char>>::empty() + t.tags =~= t.tags);
        },
        Priority::High => {
            assert((ptoks + hashed)[0] == "(high)"@);
            assert("(high)"@.len() > 0 && "(high)"@[0] == '(');
            assert(spec_scan_tokens(ptoks + hashed, 0, toks, Priority::Medium, Seq::empty())
                == spec_scan_tokens(ptoks + hashed, 1, toks, Priority::High, Seq::empty()));
            lemma_scan_tokens_shift(ptoks + hashed, 1, toks, Priority::High, Seq::empty());
            assert((ptoks + hashed).skip(1) =~= hashed);
            lemma_scan_tag_tokens(t.tags, toks, Priority::High, Seq::empty());
            assert(Seq::<Seq<char>>::empty() + t.tags =~= t.tags);
        },
        Priority::Low => {
            assert((ptoks + hashed)[0] == "(low)"@);
            assert("(low)"@.len() > 0 && "(low)"@[0] == '(');
            assert("(low)"@ != "(high)"@) by {
                assert("(low)"@.len() != "(high)"@.len());
            }
            assert(spec_scan_tokens(ptoks + hashed, 0, toks, Priority::Medium, Seq::empty())
                == spec_scan_tokens(ptoks + hashed, 1, toks, Priority::Low, Seq::empty()));
            lemma_scan_tokens_shift(ptoks + hashed, 1, toks, Priority::Low, Seq::empty());
            assert((ptoks + hashed).skip(1) =~= hashed);
            lemma_scan_tag_tokens(t.tags, toks, Priority::Low, Seq::empty());
            assert(Seq::<Seq<char>>::empty() + t.tags =~= t.tags);
        },
    }
    assert(text::spec_join(toks, ' ').len() > 0) by {
        text::lemma_join_nonempty(toks, ' ');
    }
}

/// The first character of a nonempty join is the first character of its
/// first piece.
proof fn lemma_join_first_of_first(parts: Seq<Seq<char>>, sep: char)
    requires
        parts.len() > 0,
        parts[0].len() > 0,
    ensures
        text::spec_join(parts, sep).len() > 0,
        text::spec_join(parts, sep)[0] == parts[0][0],
{
    if parts.len() == 1 {
    } else {
        let j = text::spec_join(parts, sep);
        assert(j =~= parts[0] + seq![sep] + text::spec_join(parts.drop_first(), sep));
        assert(j[0] == parts[0][0]);
    }
}


proof fn lemma_scan_meta_shift(lines: Seq<Seq<char>>, i: int, acc: MetaV)
    requires
        0 <= i <= lines.len(),
    ensures
        spec_scan_task_meta(lines, i, acc) == spec_scan_task_meta(lines.skip(i), 0, acc),
    decreases lines.len() - i,
{
    if i >= lines.len() {
        assert(lines.skip(i) =~= Seq::<Seq<char>>::empty());
    } else {
        assert(lines.skip(i)[0] == lines[i]);
        assert(lines.skip(i).skip(1) =~= lines.skip(i + 1));
        let l = text::spec_trim(lines[i]);
        if text::has_prefix(l, "@created "@) {
            match crate::time::DateTime::spec_parse_datetime(text::spec_trim(l.skip(9))) {
                Some(d) => {
                    let acc2 = MetaV { created_at_time: Some(d), ..acc };
                    lemma_scan_meta_shift(lines, i + 1, acc2);
                    lemma_scan_meta_shift(lines.skip(i), 1, acc2);
                },
                None => {},
            }
        } else if text::has_prefix(l, "@created_version "@) {
            match Version::spec_parse(text::spec_trim(l.skip(17))) {
                Ok(v) => {
                    let acc2 = MetaV { created_at_version: Some(v), ..acc };
                    lemma_scan_meta_shift(lines, i + 1, acc2);
                    lemma_scan_meta_shift(lines.skip(i), 1, acc2);
                },
                Err(_) => {},
            }
        } else if text::has_prefix(l, "@created_commit "@) {
            let acc2 = MetaV { created_at_commit: Some(text::spec_trim(l.skip(16))), ..acc };
            lemma_scan_meta_shift(lines, i + 1, acc2);
            lemma_scan_meta_shift(lines.skip(i), 1, acc2);
        } else if text::has_prefix(l, "@completed "@) {
            match crate::time::DateTime::spec_parse_datetime(text::spec_trim(l.skip(11))) {
                Some(d) => {
                    let acc2 = MetaV { completed_at_time: Some(d), ..acc };
                    lemma_scan_meta_shift(lines, i + 1, acc2);
                    lemma_scan_meta_shift(lines.skip(i), 1, acc2);
                },
                None => {},
            }
        } else if text::has_prefix(l, "@completed_version "@) {
            match Version::spec_parse(text::spec_trim(l.skip(19))) {
                Ok(v) => {
                    let acc2 = MetaV { completed_at_version: Some(v), ..acc };
                    lemma_scan_meta_shift(lines, i + 1, acc2);
                    lemma_scan_meta_shift(lines.skip(i), 1, acc2);
                },
                Err(_) => {},
            }
        } else if text::has_prefix(l, "@completed_commit "@) {
            let acc2 = MetaV { completed_at_commit: Some(text::spec_trim(l.skip(18))), ..acc };
            lemma_scan_meta_shift(lines, i + 1, acc2);
            lemma_scan_meta_shift(lines.skip(i), 1, acc2);
        } else {
            lemma_scan_meta_shift(lines, i + 1, acc);
            lemma_scan_meta_shift(lines.skip(i), 1, acc);
        }
    }
}

proof fn lemma_trim_start_spaces(s: Seq<char>, k: int)
    requires
        0 <= k <= s.len(),
        forall|j: int| 0 <= j < k ==> text::is_space(#[trigger] s[j]),
        k < s.len() ==> !text::is_space(s[k]),
    ensures
        text::spec_trim_start(s) == s.skip(k),
    decreases k,
{
    if k == 0 {
        if s.len() > 0 {
            assert(text::spec_trim_start(s) == s);
        }
        assert(s.skip(0) =~= s);
    } else {
        assert(text::is_space(s[0]));
        lemma_trim_start_spaces(s.drop_first(), k - 1);
        assert(s.drop_first().skip(k - 1) =~= s.skip(k));
    }
}

/// The trimmed form of an indented metadata line: the marker and its
/// value.
proof fn lemma_trim_indented(marker: Seq<char>, value: Seq<char>)
    requires
        marker.len() > 6,
        forall|j: int| 0 <= j < 6 ==> text::is_space(#[trigger] marker[j]),
        marker[6] == '@',
        value_last_not_space(value),
    ensures
        text::spec_trim(marker + value) == marker.skip(6) + value,
{
    let s = marker + value;
    assert(forall|j: int| 0 <= j < 6 ==> #[trigger] s[j] == marker[j]);
    assert(s[6] == '@');
    assert(!text::is_space(s[6]));
    lemma_trim_start_spaces(s, 6);
    assert(s.skip(6) =~= marker.skip(6) + value);
    assert(s.skip(6).last() == value.last());
    assert(text::spec_trim_end(s.skip(6)) == s.skip(6));
}

/// A prefix check refuted by one differing character.
proof fn lemma_not_prefix_at(s: Seq<char>, p: Seq<char>, k: int)
    requires
        0 <= k < p.len(),
        k < s.len() ==> s[k] != p[k],
    ensures
        !text::has_prefix(s, p),
{
    if text::has_prefix(s, p) {
        assert(s.take(p.len() as int)[k] == p[k]);
    }
}


proof fn lemma_value_trim_dt(dt: crate::time::DateTime)
    ensures
        text::spec_trim(dt.spec_datetime_chars()) == dt.spec_datetime_chars(),
        value_last_not_space(dt.spec_datetime_chars()),
{
    crate::time::lemma_date_chars_no_space(dt);
    lemma_datetime_last_not_space(dt);
    let s = dt.spec_datetime_chars();
    assert(s[0] == dt.spec_date_chars()[0]);
    assert(!text::is_space(s[0]));
    assert(text::spec_trim_start(s) == s);
    assert(text::spec_trim_end(s) == s);
}

proof fn lemma_value_trim_version(v: Version)
    requires
        !v.is_prerelease,
    ensures
        text::spec_trim(v.spec_chars()) == v.spec_chars(),
        value_last_not_space(v.spec_chars()),
{
    lemma_version_chars_plain(v);
    let s = v.spec_chars();
    assert(!text::is_space(s[0])) by {
        assert(text::is_digit(s[0]) || s[0] == '.');
    }
    assert(text::spec_trim_start(s) == s);
    assert(text::spec_trim_end(s) == s);
}

proof fn lemma_peel_created(dt: crate::time::DateTime, rest: Seq<Seq<char>>, acc: MetaV)
    requires
        dt.well_formed(),
    ensures
        spec_scan_task_meta(seq!["      @created "@ + dt.spec_datetime_chars()] + rest, 0, acc)
            == spec_scan_task_meta(rest, 0, MetaV { created_at_time: Some(dt), ..acc }),
{
    reveal_strlit("      @created ");
    reveal_strlit("@created ");
    let value = dt.spec_datetime_chars();
    let line = "      @created "@ + value;
    let all = seq![line] + rest;
    assert(all[0] == line);
    lemma_value_trim_dt(dt);
    lemma_trim_indented("      @created "@, value);
    let l = text::spec_trim(line);
    assert("      @created "@.skip(6) =~= "@created "@);
    assert(l == "@created "@ + value);
    assert(text::has_prefix(l, "@created "@)) by {
        assert(l.take(9) =~= "@created "@);
    }
    assert(l.skip(9) =~= value);
    crate::time::lemma_datetime_chars_parse(dt);
    let acc2 = MetaV { created_at_time: Some(dt), ..acc };
    assert(spec_scan_task_meta(all, 0, acc) == spec_scan_task_meta(all, 1, acc2));
    lemma_scan_meta_shift(all, 1, acc2);
    assert(all.skip(1) =~= rest);
}

proof fn lemma_peel_cver(v: Version, rest: Seq<Seq<char>>, acc: MetaV)
    requires
        !v.is_prerelease,
    ensures
        spec_scan_task_meta(
            seq!["      @created_version "@ + v.spec_chars()] + rest,
            0,
            acc,
        ) == spec_scan_task_meta(rest, 0, MetaV { created_at_version: Some(v), ..acc }),
{
    reveal_strlit("      @created_version ");
    reveal_strlit("@created_version ");
    reveal_strlit("@created ");
    let value = v.spec_chars();
    let line = "      @created_version "@ + value;
    let all = seq![line] + rest;
    assert(all[0] == line);
    lemma_value_trim_version(v);
    lemma_trim_indented("      @created_version "@, value);
    let l = text::spec_trim(line);
    assert("      @created_version "@.skip(6) =~= "@created_version "@);
    assert(l == "@created_version "@ + value);
    lemma_not_prefix_at(l, "@created "@, 8);
    assert(text::has_prefix(l, "@created_version "@)) by {
        assert(l.take(17) =~= "@created_version "@);
    }
    assert(l.skip(17) =~= value);
    crate::version::lemma_version_string_parses(v);
    let acc2 = MetaV { created_at_version: Some(v), ..acc };
    assert(spec_scan_task_meta(all, 0, acc) == spec_scan_task_meta(all, 1, acc2));
    lemma_scan_meta_shift(all, 1, acc2);
    assert(all.skip(1) =~= rest);
}

proof fn lemma_peel_ccom(c: Seq<char>, rest: Seq<Seq<char>>, acc: MetaV)
    requires
        commit_safe(Some(c)),
    ensures
        spec_scan_task_meta(seq!["      @created_commit "@ + c] + rest, 0, acc)
            == spec_scan_task_meta(rest, 0, MetaV { created_at_commit: Some(c), ..acc }),
{
    reveal_strlit("      @created_commit ");
    reveal_strlit("@created_commit ");
    reveal_strlit("@created ");
    reveal_strlit("@created_version ");
    let line = "      @created_commit "@ + c;
    let all = seq![line] + rest;
    assert(all[0] == line);
    lemma_trim_id_chars(c);
    lemma_trim_indented("      @created_commit "@, c);
    let l = text::spec_trim(line);
    assert("      @created_commit "@.skip(6) =~= "@created_commit "@);
    assert(l == "@created_commit "@ + c);
    lemma_not_prefix_at(l, "@created "@, 8);
    lemma_not_prefix_at(l, "@created_version "@, 9);
    assert(text::has_prefix(l, "@created_commit "@)) by {
        assert(l.take(16) =~= "@created_commit "@);
    }
    assert(l.skip(16) =~= c);
    let acc2 = MetaV { created_at_commit: Some(c), ..acc };
    assert(spec_scan_task_meta(all, 0, acc) == spec_scan_task_meta(all, 1, acc2));
    lemma_scan_meta_shift(all, 1, acc2);
    assert(all.skip(1) =~= rest);
}

proof fn lemma_peel_done(dt: crate::time::DateTime, rest: Seq<Seq<char>>, acc: MetaV)
    requires
        dt.well_formed(),
    ensures
        spec_scan_task_meta(seq!["      @completed "@ + dt.spec_datetime_chars()] + rest, 0, acc)
            == spec_scan_task_meta(rest, 0, MetaV { completed_at_time: Some(dt), ..acc }),
{
    reveal_strlit("      @completed ");
    reveal_strlit("@completed ");
    reveal_strlit("@created ");
    reveal_strlit("@created_version ");
    reveal_strlit("@created_commit ");
    let value = dt.spec_datetime_chars();
    let line = "      @completed "@ + value;
    let all = seq![line] + rest;
    assert(all[0] == line);
    lemma_value_trim_dt(dt);
    lemma_trim_indented("      @completed "@, value);
    let l = text::spec_trim(line);
    assert("      @completed "@.skip(6) =~= "@completed "@);
    assert(l == "@completed "@ + value);
    lemma_not_prefix_at(l, "@created "@, 2);
    lemma_not_prefix_at(l, "@created_version "@, 2);
    lemma_not_prefix_at(l, "@created_commit "@, 2);
    assert(text::has_prefix(l, "@completed "@)) by {
        assert(l.take(11) =~= "@completed "@);
    }
    assert(l.skip(11) =~= value);
    crate::time::lemma_datetime_chars_parse(dt);
    let acc2 = MetaV { completed_at_time: Some(dt), ..acc };
    assert(spec_scan_task_meta(all, 0, acc) == spec_scan_task_meta(all, 1, acc2));
    lemma_scan_meta_shift(all, 1, acc2);
    assert(all.skip(1) =~= rest);
}

proof fn lemma_peel_dver(v: Version, rest: Seq<Seq<char>>, acc: MetaV)
    requires
        !v.is_prerelease,
    ensures
        spec_scan_task_meta(
            seq!["      @completed_version "@ + v.spec_chars()] + rest,
            0,
            acc,
        ) == spec_scan_task_meta(rest, 0, MetaV { completed_at_version: Some(v), ..acc }),
{
    reveal_strlit("      @completed_version ");
    reveal_strlit("@completed_version ");
    reveal_strlit("@completed ");
    reveal_strlit("@created ");
    reveal_strlit("@created_version ");
    reveal_strlit("@created_commit ");
    let value = v.spec_chars();
    let line = "      @completed_version "@ + value;
    let all = seq![line] + rest;
    assert(all[0] == line);
    lemma_value_trim_version(v);
    lemma_trim_indented("      @completed_version "@, value);
    let l = text::spec_trim(line);
    assert("      @completed_version "@.skip(6) =~= "@completed_version "@);
    assert(l == "@completed_version "@ + value);
    lemma_not_prefix_at(l, "@created "@, 2);
    lemma_not_prefix_at(l, "@created_version "@, 2);
    lemma_not_prefix_at(l, "@created_commit "@, 2);
    lemma_not_prefix_at(l, "@completed "@, 10);
    assert(text::has_prefix(l, "@completed_version "@)) by {
        assert(l.take(19) =~= "@completed_version "@);
    }
    assert(l.skip(19) =~= value);
    crate::version::lemma_version_string_parses(v);
    let acc2 = MetaV { completed_at_version: Some(v), ..acc };
    assert(spec_scan_task_meta(all, 0, acc) == spec_scan_task_meta(all, 1, acc2));
    lemma_scan_meta_shift(all, 1, acc2);
    assert(all.skip(1) =~= rest);
}

proof fn lemma_peel_dcom(c: Seq<char>, rest: Seq<Seq<char>>, acc: MetaV)
    requires
        commit_safe(Some(c)),
    ensures
        spec_scan_task_meta(seq!["      @completed_commit "@ + c] + rest, 0, acc)
            == spec_scan_task_meta(rest, 0, MetaV { completed_at_commit: Some(c), ..acc }),
{
    reveal_strlit("      @completed_commit ");
    reveal_strlit("@completed_commit ");
    reveal_strlit("@completed ");
    reveal_strlit("@completed_version ");
    reveal_strlit("@created ");
    reveal_strlit("@created_version ");
    reveal_strlit("@created_commit ");
    let line = "      @completed_commit "@ + c;
    let all = seq![line] + rest;
    assert(all[0] == line);
    lemma_trim_id_chars(c);
    lemma_trim_indented("      @completed_commit "@, c);
    let l = text::spec_trim(line);
    assert("      @completed_commit "@.skip(6) =~= "@completed_commit "@);
    assert(l == "@completed_commit "@ + c);
    lemma_not_prefix_at(l, "@created "@, 2);
    lemma_not_prefix_at(l, "@created_version "@, 2);
    lemma_not_prefix_at(l, "@created_commit "@, 2);
    lemma_not_prefix_at(l, "@completed "@, 10);
    lemma_not_prefix_at(l, "@completed_version "@, 11);
    assert(text::has_prefix(l, "@completed_commit "@)) by {
        assert(l.take(18) =~= "@completed_commit "@);
    }
    assert(l.skip(18) =~= c);
    let acc2 = MetaV { completed_at_commit: Some(c), ..acc };
    assert(spec_scan_task_meta(all, 0, acc) == spec_scan_task_meta(all, 1, acc2));
    lemma_scan_meta_shift(all, 1, acc2);
    assert(all.skip(1) =~= rest);
}

proof fn lemma_peel_section_line(rest: Seq<Seq<char>>, acc: MetaV)
    ensures
        spec_scan_task_meta(seq!["## Completed"@] + rest, 0, acc) == spec_scan_task_meta(
            rest,
            0,
            acc,
        ),
{
    reveal_strlit("## Completed");
    reveal_strlit("@created ");
    reveal_strlit("@created_version ");
    reveal_strlit("@created_commit ");
    reveal_strlit("@completed ");
    reveal_strlit("@completed_version ");
    reveal_strlit("@completed_commit ");
    let line = "## Completed"@;
    let all = seq![line] + rest;
    assert(all[0] == line);
    assert(text::spec_trim(line) == line) by {
        assert(!text::is_space(line[0]));
        assert(text::spec_trim_start(line) == line);
        assert(!text::is_space(line.last()));
        assert(text::spec_trim_end(line) == line);
    }
    let l = text::spec_trim(line);
    lemma_not_prefix_at(l, "@created "@, 0);
    lemma_not_prefix_at(l, "@created_version "@, 0);
    lemma_not_prefix_at(l, "@created_commit "@, 0);
    lemma_not_prefix_at(l, "@completed "@, 0);
    lemma_not_prefix_at(l, "@completed_version "@, 0);
    lemma_not_prefix_at(l, "@completed_commit "@, 0);
    assert(spec_scan_task_meta(all, 0, acc) == spec_scan_task_meta(all, 1, acc));
    lemma_scan_meta_shift(all, 1, acc);
    assert(all.skip(1) =~= rest);
}

/// The metadata lines of a safe task, with an optional trailing section
/// header, fold to exactly the task's recorded fields.
#[verifier::rlimit(100)]
proof fn lemma_task_meta_parse(t: TaskV, extra: Seq<Seq<char>>)
    requires
        task_round_trip_safe(t),
        extra == Seq::<Seq<char>>::empty() || extra == seq!["## Completed"@],
    ensures
        spec_scan_task_meta(spec_meta_lines(t) + extra, 0, empty_meta()) == Ok::<
            MetaV,
            Seq<char>,
        >(
            MetaV {
                created_at_time: Some(t.created_at_time),
                created_at_version: t.created_at_version,
                created_at_commit: t.created_at_commit,
                completed_at_time: t.completed_at_time,
                completed_at_version: t.completed_at_version,
                completed_at_commit: t.completed_at_commit,
            },
        ),
{
    let a: Seq<Seq<char>> = seq!["      @created "@ + t.created_at_time.spec_datetime_chars()];
    let b = spec_opt_version_line("      @created_version "@, t.created_at_version);
    let c = spec_opt_commit_line("      @created_commit "@, t.created_at_commit);
    let d: Seq<Seq<char>> = if t.completed {
        match t.completed_at_time {
            Some(x) => seq!["      @completed "@ + x.spec_datetime_chars()],
            None => Seq::empty(),
        }
    } else {
        Seq::empty()
    };
    let e: Seq<Seq<char>> = if t.completed {
        spec_opt_version_line("      @completed_version "@, t.completed_at_version)
    } else {
        Seq::empty()
    };
    let f: Seq<Seq<char>> = if t.completed {
        spec_opt_commit_line("      @completed_commit "@, t.completed_at_commit)
    } else {
        Seq::empty()
    };
    let ml = spec_meta_lines(t) + extra;
    assert(ml =~= a + (b + (c + (d + (e + (f + extra))))));
    let acc0 = empty_meta();
    lemma_peel_created(t.created_at_time, b + (c + (d + (e + (f + extra)))), acc0);
    let acc1 = MetaV { created_at_time: Some(t.created_at_time), ..acc0 };
    let acc2 = match t.created_at_version {
        Some(v) => {
            lemma_peel_cver(v, c + (d + (e + (f + extra))), acc1);
            assert(b =~= seq!["      @created_version "@ + v.spec_chars()]);
            assert(b + (c + (d + (e + (f + extra)))) =~= seq![
                "      @created_version "@ + v.spec_chars()
            ] + (c + (d + (e + (f + extra)))));
            MetaV { created_at_version: Some(v), ..acc1 }
        },
        None => {
            assert(b + (c + (d + (e + (f + extra)))) =~= c + (d + (e + (f + extra))));
            acc1
        },
    };
    let acc3 = match t.created_at_commit {
        Some(x) => {
            lemma_peel_ccom(x, d + (e + (f + extra)), acc2);
            assert(c + (d + (e + (f + extra))) =~= seq!["      @created_commit "@ + x] + (d + (e
                + (f + extra))));
            MetaV { created_at_commit: Some(x), ..acc2 }
        },
        None => {
            assert(c + (d + (e + (f + extra))) =~= d + (e + (f + extra)));
            acc2
        },
    };
    let acc4 = match t.completed_at_time {
        Some(x) => {
            assert(t.completed);
            lemma_peel_done(x, e + (f + extra), acc3);
            assert(d + (e + (f + extra)) =~= seq!["      @completed "@
                + x.spec_datetime_chars()] + (e + (f + extra)));
            MetaV { completed_at_time: Some(x), ..acc3 }
        },
        None => {
            assert(d =~= Seq::<Seq<char>>::empty());
            assert(d + (e + (f + extra)) =~= e + (f + extra));
            acc3
        },
    };
    let acc5 = match t.completed_at_version {
        Some(v) => {
            assert(t.completed);
            lemma_peel_dver(v, f + extra, acc4);
            assert(e + (f + extra) =~= seq!["      @completed_version "@ + v.spec_chars()] + (f
                + extra));
            MetaV { completed_at_version: Some(v), ..acc4 }
        },
        None => {
            assert(e =~= Seq::<Seq<char>>::empty());
            assert(e + (f + extra) =~= f + extra);
            acc4
        },
    };
    let acc6 = match t.completed_at_commit {
        Some(x) => {
            assert(t.completed);
            lemma_peel_dcom(x, extra, acc5);
            assert(f + extra =~= seq!["      @completed_commit "@ + x] + extra);
            MetaV { completed_at_commit: Some(x), ..acc5 }
        },
        None => {
            assert(f =~= Seq::<Seq<char>>::empty());
            assert(f + extra =~= extra);
            acc5
        },
    };
    if extra.len() > 0 {
        lemma_peel_section_line(Seq::empty(), acc6);
        assert(extra =~= seq!["## Completed"@] + Seq::<Seq<char>>::empty());
    }
    assert(spec_scan_task_meta(Seq::<Seq<char>>::empty(), 0, acc6) == Ok::<MetaV, Seq<char>>(
        acc6,
    ));
    assert(acc6 == MetaV {
        created_at_time: Some(t.created_at_time),
        created_at_version: t.created_at_version,
        created_at_commit: t.created_at_commit,
        completed_at_time: t.completed_at_time,
        completed_at_version: t.completed_at_version,
        completed_at_commit: t.completed_at_commit,
    });
}


/// The lines that one task contributes before the next block opener.
pub open spec fn parsed_block(t: TaskV) -> Seq<Seq<char>> {
    seq![spec_task_line(t)] + spec_meta_lines(t)
}

/// One whole task block parses back to its task.
proof fn lemma_parse_task_block(t: TaskV, extra: Seq<Seq<char>>)
    requires
        task_round_trip_safe(t),
        extra == Seq::<Seq<char>>::empty() || extra == seq!["## Completed"@],
    ensures
        spec_parse_task(parsed_block(t) + extra) == Ok::<TaskV, Seq<char>>(t),
{
    reveal_strlit("[x]");
    reveal_strlit("[X]");
    reveal_strlit("- [");
    reveal_strlit("] ");
    let block = parsed_block(t) + extra;
    let line = spec_task_line(t);
    assert(block.len() > 0);
    assert(block[0] == line);
    // the checkbox decides the completed flag
    if t.completed {
        assert(text::spec_contains(line, "[x]"@)) by {
            assert(line =~= "- ["@ + seq!['x'] + "] "@ + t.description + spec_priority_suffix(
                t.priority,
            ) + spec_tags_suffix(t.tags));
            assert(line.subrange(2, 5) =~= "[x]"@);
            text::lemma_contains_witness(line, "[x]"@, 2);
        }
    }
    lemma_task_content_parse(t);
    assert(block.skip(1) =~= spec_meta_lines(t) + extra);
    lemma_task_meta_parse(t, extra);
    if !t.completed {
        assert(t.completed_at_time is None);
    }
}

proof fn lemma_blocks_shift(lines: Seq<Seq<char>>, i: int, cur: Seq<Seq<char>>)
    requires
        0 <= i <= lines.len(),
    ensures
        spec_blocks(lines, i, cur) == spec_blocks(lines.skip(i), 0, cur),
    decreases lines.len() - i,
{
    if i >= lines.len() {
        assert(lines.skip(i) =~= Seq::<Seq<char>>::empty());
    } else {
        assert(lines.skip(i)[0] == lines[i]);
        assert(lines.skip(i).skip(1) =~= lines.skip(i + 1));
        if text::has_prefix(lines[i], "- ["@) {
            lemma_blocks_shift(lines, i + 1, seq![lines[i]]);
            lemma_blocks_shift(lines.skip(i), 1, seq![lines[i]]);
        } else if cur.len() > 0 && text::spec_trim(lines[i]).len() > 0 {
            lemma_blocks_shift(lines, i + 1, cur.push(lines[i]));
            lemma_blocks_shift(lines.skip(i), 1, cur.push(lines[i]));
        } else {
            lemma_blocks_shift(lines, i + 1, cur);
            lemma_blocks_shift(lines.skip(i), 1, cur);
        }
    }
}

/// Metadata lines are absorbed into the open block.
proof fn lemma_absorb_metas(ms: Seq<Seq<char>>, rest: Seq<Seq<char>>, cur: Seq<Seq<char>>)
    requires
        cur.len() > 0,
        forall|k: int|
            0 <= k < ms.len() ==> text::spec_trim(#[trigger] ms[k]).len() > 0 && !text::has_prefix(
                ms[k],
                "- ["@,
            ),
    ensures
        spec_blocks(ms + rest, 0, cur) == spec_blocks(rest, 0, cur + ms),
    decreases ms.len(),
{
    if ms.len() == 0 {
        assert(ms + rest =~= rest);
        assert(cur + ms =~= cur);
    } else {
        let all = ms + rest;
        assert(all[0] == ms[0]);
        assert(spec_blocks(all, 0, cur) == spec_blocks(all, 1, cur.push(ms[0])));
        lemma_blocks_shift(all, 1, cur.push(ms[0]));
        assert(all.skip(1) =~= ms.drop_first() + rest);
        lemma_absorb_metas(ms.drop_first(), rest, cur.push(ms[0]));
        assert(cur.push(ms[0]) + ms.drop_first() =~= cur + ms);
    }
}

pub open spec fn maybe_close(cur: Seq<Seq<char>>) -> Seq<Seq<Seq<char>>> {
    if cur.len() > 0 {
        seq![cur]
    } else {
        Seq::empty()
    }
}

/// One rendered block opens a fresh group, closing whatever was open.
proof fn lemma_block_group(t: TaskV, later: Seq<Seq<char>>, cur: Seq<Seq<char>>)
    requires
        task_round_trip_safe(t),
    ensures
        spec_blocks(spec_task_block(t) + later, 0, cur) == maybe_close(cur) + spec_blocks(
            later,
            0,
            parsed_block(t),
        ),
{
    let line = spec_task_line(t);
    let ms = spec_meta_lines(t);
    lemma_task_line_wf(t);
    lemma_meta_lines_wf(t);
    let all = spec_task_block(t) + later;
    assert(all[0] == line);
    assert(text::has_prefix(line, "- ["@));
    assert(all.skip(1) =~= ms + (seq![Seq::<char>::empty()] + later));
    if cur.len() > 0 {
        assert(spec_blocks(all, 0, cur) == seq![cur] + spec_blocks(all, 1, seq![line]));
    } else {
        assert(spec_blocks(all, 0, cur) == spec_blocks(all, 1, seq![line]));
    }
    lemma_blocks_shift(all, 1, seq![line]);
    assert forall|k: int|
        0 <= k < ms.len() implies text::spec_trim(#[trigger] ms[k]).len() > 0
        && !text::has_prefix(ms[k], "- ["@) by {
        reveal_strlit("- [");
        lemma_not_prefix_at(ms[k], "- ["@, 0);
    }
    lemma_absorb_metas(ms, seq![Seq::<char>::empty()] + later, seq![line]);
    // the blank line after the block is skipped, the block stays open
    let blank_then = seq![Seq::<char>::empty()] + later;
    assert(blank_then[0] == Seq::<char>::empty());
    assert(text::spec_trim(Seq::<char>::empty()).len() == 0);
    assert(!text::has_prefix(Seq::<char>::empty(), "- ["@)) by {
        reveal_strlit("- [");
    }
    assert(spec_blocks(blank_then, 0, seq![line] + ms) == spec_blocks(
        blank_then,
        1,
        seq![line] + ms,
    ));
    lemma_blocks_shift(blank_then, 1, seq![line] + ms);
    assert(blank_then.skip(1) =~= later);
    assert(parsed_block(t) =~= seq![line] + ms);
}

pub open spec fn parsed_blocks_of(ts: Seq<TaskV>) -> Seq<Seq<Seq<char>>> {
    ts.map_values(|t: TaskV| parsed_block(t))
}

proof fn lemma_task_blocks_cons(ts: Seq<TaskV>)
    requires
        ts.len() > 0,
    ensures
        spec_task_blocks(ts) == spec_task_block(ts[0]) + spec_task_blocks(ts.drop_first()),
    decreases ts.len(),
{
    if ts.len() == 1 {
        assert(ts.drop_last() =~= Seq::<TaskV>::empty());
        assert(ts.drop_first() =~= Seq::<TaskV>::empty());
        assert(spec_task_blocks(ts) =~= spec_task_block(ts[0]) + spec_task_blocks(
            ts.drop_first(),
        ));
    } else {
        lemma_task_blocks_cons(ts.drop_last());
        assert(ts.drop_last()[0] == ts[0]);
        assert(ts.drop_last().drop_first() =~= ts.drop_first().drop_last());
        assert(ts.drop_first().last() == ts.last());
        assert(spec_task_blocks(ts) =~= spec_task_block(ts[0]) + spec_task_blocks(
            ts.drop_first(),
        ));
    }
}

/// Grouping the rendered blocks of several tasks: every block but the last
/// is closed by the next opener; the last stays open into what follows.
proof fn lemma_tasks_blocks(ts: Seq<TaskV>, later: Seq<Seq<char>>, cur: Seq<Seq<char>>)
    requires
        ts.len() > 0,
        forall|k: int| 0 <= k < ts.len() ==> task_round_trip_safe(#[trigger] ts[k]),
    ensures
        spec_blocks(spec_task_blocks(ts) + later, 0, cur) == maybe_close(cur) + parsed_blocks_of(
            ts.drop_last(),
        ) + spec_blocks(later, 0, parsed_block(ts.last())),
    decreases ts.len(),
{
    lemma_task_blocks_cons(ts);
    if ts.len() == 1 {
        assert(spec_task_blocks(ts.drop_first()) =~= Seq::<Seq<char>>::empty());
        assert(spec_task_blocks(ts) + later =~= spec_task_block(ts[0]) + later);
        lemma_block_group(ts[0], later, cur);
        assert(parsed_blocks_of(ts.drop_last()) =~= Seq::<Seq<Seq<char>>>::empty());
        assert(maybe_close(cur) + parsed_blocks_of(ts.drop_last()) + spec_blocks(
            later,
            0,
            parsed_block(ts.last()),
        ) =~= maybe_close(cur) + spec_blocks(later, 0, parsed_block(ts[0])));
    } else {
        assert(spec_task_blocks(ts) + later =~= spec_task_block(ts[0]) + (spec_task_blocks(
            ts.drop_first(),
        ) + later));
        lemma_block_group(ts[0], spec_task_blocks(ts.drop_first()) + later, cur);
        lemma_tasks_blocks(ts.drop_first(), later, parsed_block(ts[0]));
        assert(parsed_block(ts[0]).len() > 0);
        assert(maybe_close(parsed_block(ts[0])) =~= seq![parsed_block(ts[0])]);
        assert(ts.drop_first().last() == ts.last());
        assert(ts.drop_first().drop_last() =~= ts.drop_last().drop_first());
        assert(parsed_blocks_of(ts.drop_last()) =~~= seq![parsed_block(ts[0])]
            + parsed_blocks_of(ts.drop_first().drop_last()));
        assert(maybe_close(cur) + (seq![parsed_block(ts[0])] + parsed_blocks_of(
            ts.drop_first().drop_last(),
        ) + spec_blocks(later, 0, parsed_block(ts.last()))) =~= maybe_close(cur)
            + parsed_blocks_of(ts.drop_last()) + spec_blocks(
            later,
            0,
            parsed_block(ts.last()),
        ));
    }
}

/// Parsing a list of blocks that each parse cleanly yields the tasks.
proof fn lemma_parse_blocks_ok(blocks: Seq<Seq<Seq<char>>>, ts: Seq<TaskV>)
    requires
        blocks.len() == ts.len(),
        forall|k: int|
            0 <= k < blocks.len() ==> spec_parse_task(#[trigger] blocks[k]) == Ok::<
                TaskV,
                Seq<char>,
            >(ts[k]),
    ensures
        spec_parse_blocks(blocks) == Ok::<Seq<TaskV>, Seq<char>>(ts),
    decreases blocks.len(),
{
    if blocks.len() == 0 {
        assert(ts =~= Seq::<TaskV>::empty());
    } else {
        lemma_parse_blocks_ok(blocks.drop_first(), ts.drop_first());
        assert(seq![ts[0]] + ts.drop_first() =~= ts);
    }
}


/// Every rendered line of the document is a proper line.
proof fn lemma_doc_lines_wf(l: ListV)
    requires
        list_round_trip_safe(l),
    ensures
        forall|k: int|
            0 <= k < spec_serialize_lines(l).len() ==> text::line_ok(
                #[trigger] spec_serialize_lines(l)[k],
            ),
{
    reveal_strlit("# TODO — ");
    reveal_strlit(" v");
    reveal_strlit("@created: ");
    reveal_strlit("@modified: ");
    reveal_strlit("## Tasks");
    reveal_strlit("## Completed");
    let inc = spec_sort_by(l.tasks.filter(|t: TaskV| !t.completed), |t: TaskV| created_key(t));
    let comp = spec_sort_by(l.tasks.filter(|t: TaskV| t.completed), |t: TaskV| completed_key(t));
    assert(forall|k: int| 0 <= k < inc.len() ==> #[trigger] inc[k] == l.tasks[k]);
    assert(forall|k: int|
        0 <= k < comp.len() ==> #[trigger] comp[k] == l.tasks[k + inc.len()]);
    let lines = spec_serialize_lines(l);
    lemma_version_chars_plain(l.project_version);
    let header = spec_header_line(l);
    assert(text::line_ok(header)) by {
        let vchars = l.project_version.spec_chars();
        assert(forall|i: int|
            0 <= i < "# TODO — "@.len() ==> #[trigger] "# TODO — "@[i] != '\n');
        assert(forall|i: int| 0 <= i < " v"@.len() ==> #[trigger] " v"@[i] != '\n');
        lemma_no_char_concat("# TODO — "@, l.project_name, '\n');
        lemma_no_char_concat("# TODO — "@ + l.project_name, " v"@, '\n');
        lemma_no_char_concat("# TODO — "@ + l.project_name + " v"@, vchars, '\n');
        assert(header.last() == vchars.last());
        assert(!text::is_space(vchars.last()));
    }
    let cline = "@created: "@ + l.created_at.spec_date_chars();
    let mline = "@modified: "@ + l.modified_at.spec_date_chars();
    assert(text::line_ok(cline) && text::line_ok(mline)) by {
        crate::time::lemma_date_chars_no_space(l.created_at);
        crate::time::lemma_date_chars_no_space(l.modified_at);
        assert(forall|i: int|
            0 <= i < "@created: "@.len() ==> #[trigger] "@created: "@[i] != '\n');
        assert(forall|i: int|
            0 <= i < "@modified: "@.len() ==> #[trigger] "@modified: "@[i] != '\n');
        assert(text::no_char(l.created_at.spec_date_chars(), '\n')) by {
            assert forall|i: int|
                0 <= i < l.created_at.spec_date_chars().len() implies #[trigger] l.created_at
                .spec_date_chars()[i] != '\n' by {
                assert(!text::is_space(l.created_at.spec_date_chars()[i]));
            }
        }
        assert(text::no_char(l.modified_at.spec_date_chars(), '\n')) by {
            assert forall|i: int|
                0 <= i < l.modified_at.spec_date_chars().len() implies #[trigger] l.modified_at
                .spec_date_chars()[i] != '\n' by {
                assert(!text::is_space(l.modified_at.spec_date_chars()[i]));
            }
        }
        lemma_no_char_concat("@created: "@, l.created_at.spec_date_chars(), '\n');
        lemma_no_char_concat("@modified: "@, l.modified_at.spec_date_chars(), '\n');
        assert(cline.last() == l.created_at.spec_date_chars().last());
        assert(mline.last() == l.modified_at.spec_date_chars().last());
    }
    assert(text::line_ok("## Tasks"@)) by {
        assert(forall|i: int| 0 <= i < "## Tasks"@.len() ==> #[trigger] "## Tasks"@[i] != '\n');
    }
    assert(text::line_ok("## Completed"@)) by {
        assert(forall|i: int|
            0 <= i < "## Completed"@.len() ==> #[trigger] "## Completed"@[i] != '\n');
    }
    assert(text::line_ok(Seq::<char>::empty()));
    lemma_task_blocks_wf(inc);
    lemma_task_blocks_wf(comp);
    let seq7 = seq![
        header,
        Seq::<char>::empty(),
        cline,
        mline,
        Seq::<char>::empty(),
        "## Tasks"@,
        Seq::<char>::empty(),
    ];
    assert forall|k: int| 0 <= k < lines.len() implies text::line_ok(
        #[trigger] lines[k],
    ) by {
        if k < 7 {
            assert(lines[k] == seq7[k]);
        } else if k < 7 + spec_task_blocks(inc).len() {
            assert(lines[k] == spec_task_blocks(inc)[k - 7]);
        } else if comp.len() > 0 {
            let tail = seq![Seq::<char>::empty(), "## Completed"@, Seq::<char>::empty()]
                + spec_task_blocks(comp);
            assert(lines[k] == tail[k - 7 - spec_task_blocks(inc).len()]);
            let j = k - 7 - spec_task_blocks(inc).len();
            if j >= 3 {
                assert(tail[j] == spec_task_blocks(comp)[j - 3]);
            }
        }
    }
}

/// Every line in the rendered blocks of safe tasks is a proper line.
proof fn lemma_task_blocks_wf(ts: Seq<TaskV>)
    requires
        forall|k: int| 0 <= k < ts.len() ==> task_round_trip_safe(#[trigger] ts[k]),
    ensures
        forall|k: int|
            0 <= k < spec_task_blocks(ts).len() ==> text::line_ok(
                #[trigger] spec_task_blocks(ts)[k],
            ),
    decreases ts.len(),
{
    if ts.len() > 0 {
        lemma_task_blocks_wf(ts.drop_last());
        let t = ts.last();
        lemma_task_line_wf(t);
        lemma_meta_lines_wf(t);
        let b = spec_task_block(t);
        assert forall|k: int| 0 <= k < b.len() implies text::line_ok(#[trigger] b[k]) by {
            if k == 0 {
                assert(b[k] == spec_task_line(t));
            } else if k < 1 + spec_meta_lines(t).len() {
                assert(b[k] == spec_meta_lines(t)[k - 1]);
            } else {
                assert(b[k] == Seq::<char>::empty());
            }
        }
        assert forall|k: int| 0 <= k < spec_task_blocks(ts).len() implies text::line_ok(
            #[trigger] spec_task_blocks(ts)[k],
        ) by {
            if k < spec_task_blocks(ts.drop_last()).len() {
                assert(spec_task_blocks(ts)[k] == spec_task_blocks(ts.drop_last())[k]);
            } else {
                assert(spec_task_blocks(ts)[k] == b[k - spec_task_blocks(
                    ts.drop_last(),
                ).len()]);
            }
        }
    }
}

/// The date metadata after the header scans to the two dates and stops at
/// the first section header.
#[verifier::rlimit(100)]
proof fn lemma_scan_meta_doc(l: ListV)
    requires
        list_round_trip_safe(l),
    ensures
        spec_scan_meta(spec_serialize_lines(l), 1, None, None) == Ok::<
            (int, Option<crate::time::DateTime>, Option<crate::time::DateTime>),
            Seq<char>,
        >((5, Some(l.created_at), Some(l.modified_at))),
        spec_find_section(spec_serialize_lines(l), 5) == Some(5int),
{
    reveal_strlit("@created: ");
    reveal_strlit("@created:");
    reveal_strlit("@created");
    reveal_strlit("@modified: ");
    reveal_strlit("@modified:");
    reveal_strlit("@modified");
    reveal_strlit(":");
    reveal_strlit(" ");
    reveal_strlit("## Tasks");
    reveal_strlit("## Completed");
    let lines = spec_serialize_lines(l);
    let cline = "@created: "@ + l.created_at.spec_date_chars();
    let mline = "@modified: "@ + l.modified_at.spec_date_chars();
    assert(lines.len() >= 7);
    assert(lines[1] == Seq::<char>::empty());
    assert(lines[2] == cline);
    assert(lines[3] == mline);
    assert(lines[4] == Seq::<char>::empty());
    assert(lines[5] == "## Tasks"@);
    // the blank line after the header is skipped
    assert(!text::has_prefix(Seq::<char>::empty(), "@created:"@));
    assert(!text::has_prefix(Seq::<char>::empty(), "@modified:"@));
    assert(text::spec_trim(Seq::<char>::empty()).len() == 0);
    assert(spec_scan_meta(lines, 1, None, None) == spec_scan_meta(lines, 2, None, None));
    // the created line is read
    assert(text::has_prefix(cline, "@created:"@)) by {
        assert(cline.take(9) =~= "@created:"@);
    }
    assert("@created: "@ =~= "@created"@ + ":"@ + " "@);
    assert(text::no_char("@created"@, ':')) by {
        assert(forall|i: int| 0 <= i < "@created"@.len() ==> #[trigger] "@created"@[i] != ':');
    }
    lemma_date_line_parse("@created: "@, "@created"@, l.created_at);
    assert(spec_scan_meta(lines, 2, None, None) == spec_scan_meta(
        lines,
        3,
        Some(l.created_at),
        None,
    ));
    // the modified line is read
    lemma_not_prefix_at(mline, "@created:"@, 1);
    assert(text::has_prefix(mline, "@modified:"@)) by {
        assert(mline.take(10) =~= "@modified:"@);
    }
    assert("@modified: "@ =~= "@modified"@ + ":"@ + " "@);
    assert(text::no_char("@modified"@, ':')) by {
        assert(forall|i: int|
            0 <= i < "@modified"@.len() ==> #[trigger] "@modified"@[i] != ':');
    }
    lemma_date_line_parse("@modified: "@, "@modified"@, l.modified_at);
    assert(spec_scan_meta(lines, 3, Some(l.created_at), None) == spec_scan_meta(
        lines,
        4,
        Some(l.created_at),
        Some(l.modified_at),
    ));
    // the blank line before the section is skipped
    assert(spec_scan_meta(lines, 4, Some(l.created_at), Some(l.modified_at)) == spec_scan_meta(
        lines,
        5,
        Some(l.created_at),
        Some(l.modified_at),
    ));
    // the section header stops the scan
    lemma_not_prefix_at("## Tasks"@, "@created:"@, 0);
    lemma_not_prefix_at("## Tasks"@, "@modified:"@, 0);
    assert(text::spec_trim("## Tasks"@) == "## Tasks"@) by {
        assert(!text::is_space("## Tasks"@[0]));
        assert(text::spec_trim_start("## Tasks"@) == "## Tasks"@);
        assert(!text::is_space("## Tasks"@.last()));
        assert(text::spec_trim_end("## Tasks"@) == "## Tasks"@);
    }
    assert(spec_scan_meta(lines, 5, Some(l.created_at), Some(l.modified_at)) == Ok::<
        (int, Option<crate::time::DateTime>, Option<crate::time::DateTime>),
        Seq<char>,
    >((5, Some(l.created_at), Some(l.modified_at))));
}

/// The grouped blocks of the whole document, by which sections exist.
pub open spec fn doc_blocks(l: ListV) -> Seq<Seq<Seq<char>>> {
    let inc = spec_sort_by(l.tasks.filter(|t: TaskV| !t.completed), |t: TaskV| created_key(t));
    let comp = spec_sort_by(l.tasks.filter(|t: TaskV| t.completed), |t: TaskV| completed_key(t));
    if inc.len() == 0 && comp.len() == 0 {
        Seq::empty()
    } else if comp.len() == 0 {
        parsed_blocks_of(inc.drop_last()) + seq![parsed_block(inc.last())]
    } else if inc.len() == 0 {
        parsed_blocks_of(comp.drop_last()) + seq![parsed_block(comp.last())]
    } else {
        parsed_blocks_of(inc.drop_last()) + seq![parsed_block(inc.last()).push("## Completed"@)]
            + parsed_blocks_of(comp.drop_last()) + seq![parsed_block(comp.last())]
    }
}

/// The document's lines after the first section header group into exactly
/// the blocks of its tasks.
#[verifier::rlimit(100)]
proof fn lemma_grouped_blocks(l: ListV)
    requires
        list_round_trip_safe(l),
    ensures
        spec_blocks(spec_serialize_lines(l), 6, Seq::empty()) == doc_blocks(l),
{
    reveal_strlit("## Completed");
    reveal_strlit("- [");
    let inc = spec_sort_by(l.tasks.filter(|t: TaskV| !t.completed), |t: TaskV| created_key(t));
    let comp = spec_sort_by(l.tasks.filter(|t: TaskV| t.completed), |t: TaskV| completed_key(t));
    assert(forall|k: int| 0 <= k < inc.len() ==> #[trigger] inc[k] == l.tasks[k]);
    assert(forall|k: int|
        0 <= k < comp.len() ==> #[trigger] comp[k] == l.tasks[k + inc.len()]);
    assert(forall|k: int| 0 <= k < inc.len() ==> task_round_trip_safe(#[trigger] inc[k]));
    assert(forall|k: int| 0 <= k < comp.len() ==> task_round_trip_safe(#[trigger] comp[k]));
    let lines = spec_serialize_lines(l);
    lemma_blocks_shift(lines, 6, Seq::empty());
    let sec_tail: Seq<Seq<char>> = if comp.len() > 0 {
        seq![Seq::<char>::empty(), "## Completed"@, Seq::<char>::empty()] + spec_task_blocks(
            comp,
        )
    } else {
        Seq::empty()
    };
    assert(lines.skip(6) =~= seq![Seq::<char>::empty()] + (spec_task_blocks(inc) + sec_tail));
    let after_blank = spec_task_blocks(inc) + sec_tail;
    assert(spec_blocks(seq![Seq::<char>::empty()] + after_blank, 0, Seq::empty())
        == spec_blocks(seq![Seq::<char>::empty()] + after_blank, 1, Seq::empty())) by {
        assert((seq![Seq::<char>::empty()] + after_blank)[0] == Seq::<char>::empty());
        lemma_not_prefix_at(Seq::<char>::empty(), "- ["@, 0);
    }
    lemma_blocks_shift(seq![Seq::<char>::empty()] + after_blank, 1, Seq::empty());
    assert((seq![Seq::<char>::empty()] + after_blank).skip(1) =~= after_blank);
    let blocks = spec_blocks(lines, 6int, Seq::<Seq<char>>::empty());
    assert(blocks == spec_blocks(after_blank, 0, Seq::empty()));
    if comp.len() > 0 {
        assert(text::spec_trim("## Completed"@) == "## Completed"@) by {
            assert(!text::is_space("## Completed"@[0]));
            assert(text::spec_trim_start("## Completed"@) == "## Completed"@);
            assert(!text::is_space("## Completed"@.last()));
            assert(text::spec_trim_end("## Completed"@) == "## Completed"@);
        }
    }
    if inc.len() == 0 && comp.len() == 0 {
        assert(after_blank =~= Seq::<Seq<char>>::empty());
        assert(blocks =~= doc_blocks(l));
    } else if inc.len() > 0 && comp.len() == 0 {
        assert(after_blank =~= spec_task_blocks(inc) + Seq::<Seq<char>>::empty());
        lemma_tasks_blocks(inc, Seq::empty(), Seq::empty());
        assert(spec_blocks(Seq::<Seq<char>>::empty(), 0, parsed_block(inc.last())) =~= seq![
            parsed_block(inc.last())
        ]) by {
            assert(parsed_block(inc.last()).len() > 0);
        }
        assert(blocks =~= parsed_blocks_of(inc.drop_last()) + seq![parsed_block(inc.last())]);
    } else if inc.len() == 0 {
        assert(after_blank =~= sec_tail);
        assert(sec_tail =~= seq![Seq::<char>::empty(), "## Completed"@, Seq::<char>::empty()]
            + spec_task_blocks(comp));
        assert(spec_blocks(sec_tail, 0, Seq::empty()) == spec_blocks(
            spec_task_blocks(comp),
            0,
            Seq::empty(),
        )) by {
            assert(sec_tail[0] == Seq::<char>::empty());
            lemma_not_prefix_at(Seq::<char>::empty(), "- ["@, 0);
            lemma_blocks_shift(sec_tail, 1, Seq::empty());
            let r1 = sec_tail.skip(1);
            assert(r1 =~= seq!["## Completed"@, Seq::<char>::empty()] + spec_task_blocks(comp));
            assert(r1[0] == "## Completed"@);
            lemma_not_prefix_at("## Completed"@, "- ["@, 0);
            lemma_blocks_shift(r1, 1, Seq::empty());
            let r2 = r1.skip(1);
            assert(r2 =~= seq![Seq::<char>::empty()] + spec_task_blocks(comp));
            assert(r2[0] == Seq::<char>::empty());
            lemma_blocks_shift(r2, 1, Seq::empty());
            assert(r2.skip(1) =~= spec_task_blocks(comp));
        }
        assert(spec_task_blocks(comp) + Seq::<Seq<char>>::empty() =~= spec_task_blocks(comp));
        lemma_tasks_blocks(comp, Seq::empty(), Seq::empty());
        assert(spec_blocks(Seq::<Seq<char>>::empty(), 0, parsed_block(comp.last())) =~= seq![
            parsed_block(comp.last())
        ]) by {
            assert(parsed_block(comp.last()).len() > 0);
        }
        assert(blocks =~= parsed_blocks_of(comp.drop_last()) + seq![parsed_block(comp.last())]);
    } else {
        lemma_tasks_blocks(inc, sec_tail, Seq::empty());
        let open0 = parsed_block(inc.last());
        assert(open0.len() > 0);
        assert(sec_tail[0] == Seq::<char>::empty());
        lemma_not_prefix_at(Seq::<char>::empty(), "- ["@, 0);
        assert(spec_blocks(sec_tail, 0, open0) == spec_blocks(sec_tail, 1, open0));
        lemma_blocks_shift(sec_tail, 1, open0);
        let r1 = sec_tail.skip(1);
        assert(r1 =~= seq!["## Completed"@, Seq::<char>::empty()] + spec_task_blocks(comp));
        assert(r1[0] == "## Completed"@);
        lemma_not_prefix_at("## Completed"@, "- ["@, 0);
        let open1 = open0.push("## Completed"@);
        assert(spec_blocks(r1, 0, open0) == spec_blocks(r1, 1, open1));
        lemma_blocks_shift(r1, 1, open1);
        let r2 = r1.skip(1);
        assert(r2 =~= seq![Seq::<char>::empty()] + spec_task_blocks(comp));
        assert(r2[0] == Seq::<char>::empty());
        assert(spec_blocks(r2, 0, open1) == spec_blocks(r2, 1, open1));
        lemma_blocks_shift(r2, 1, open1);
        assert(r2.skip(1) =~= spec_task_blocks(comp));
        assert(spec_task_blocks(comp) + Seq::<Seq<char>>::empty() =~= spec_task_blocks(comp));
        lemma_tasks_blocks(comp, Seq::empty(), open1);
        assert(spec_blocks(Seq::<Seq<char>>::empty(), 0, parsed_block(comp.last())) =~= seq![
            parsed_block(comp.last())
        ]) by {
            assert(parsed_block(comp.last()).len() > 0);
        }
        assert(maybe_close(open1) =~= seq![open1]);
        assert(blocks =~= parsed_blocks_of(inc.drop_last()) + seq![open1] + parsed_blocks_of(
            comp.drop_last(),
        ) + seq![parsed_block(comp.last())]);
        assert(blocks =~= doc_blocks(l));
    }
}

/// The grouped blocks parse back to exactly the list's tasks.
#[verifier::rlimit(100)]
proof fn lemma_parsed_doc_blocks(l: ListV)
    requires
        list_round_trip_safe(l),
    ensures
        spec_parse_blocks(doc_blocks(l)) == Ok::<Seq<TaskV>, Seq<char>>(l.tasks),
{
    let inc = spec_sort_by(l.tasks.filter(|t: TaskV| !t.completed), |t: TaskV| created_key(t));
    let comp = spec_sort_by(l.tasks.filter(|t: TaskV| t.completed), |t: TaskV| completed_key(t));
    assert(forall|k: int| 0 <= k < inc.len() ==> #[trigger] inc[k] == l.tasks[k]);
    assert(forall|k: int|
        0 <= k < comp.len() ==> #[trigger] comp[k] == l.tasks[k + inc.len()]);
    assert(forall|k: int| 0 <= k < inc.len() ==> task_round_trip_safe(#[trigger] inc[k]));
    assert(forall|k: int| 0 <= k < comp.len() ==> task_round_trip_safe(#[trigger] comp[k]));
    let blocks = doc_blocks(l);
    if inc.len() == 0 && comp.len() == 0 {
        lemma_parse_blocks_ok(blocks, Seq::empty());
        assert(l.tasks =~= Seq::<TaskV>::empty());
    } else if inc.len() > 0 && comp.len() == 0 {
        assert(blocks.len() == inc.len());
        assert forall|k: int| 0 <= k < blocks.len() implies spec_parse_task(
            #[trigger] blocks[k],
        ) == Ok::<TaskV, Seq<char>>(inc[k]) by {
            if k < inc.len() - 1 {
                assert(blocks[k] == parsed_block(inc.drop_last()[k]));
                assert(inc.drop_last()[k] == inc[k]);
                lemma_parse_task_block(inc[k], Seq::empty());
                assert(parsed_block(inc[k]) + Seq::<Seq<char>>::empty() =~= parsed_block(
                    inc[k],
                ));
            } else {
                assert(blocks[k] == parsed_block(inc.last()));
                lemma_parse_task_block(inc.last(), Seq::empty());
                assert(parsed_block(inc.last()) + Seq::<Seq<char>>::empty() =~= parsed_block(
                    inc.last(),
                ));
            }
        }
        lemma_parse_blocks_ok(blocks, inc);
        assert(l.tasks =~= inc);
    } else if inc.len() == 0 {
        assert(blocks.len() == comp.len());
        assert forall|k: int| 0 <= k < blocks.len() implies spec_parse_task(
            #[trigger] blocks[k],
        ) == Ok::<TaskV, Seq<char>>(comp[k]) by {
            if k < comp.len() - 1 {
                assert(blocks[k] == parsed_block(comp.drop_last()[k]));
                assert(comp.drop_last()[k] == comp[k]);
                lemma_parse_task_block(comp[k], Seq::empty());
                assert(parsed_block(comp[k]) + Seq::<Seq<char>>::empty() =~= parsed_block(
                    comp[k],
                ));
            } else {
                assert(blocks[k] == parsed_block(comp.last()));
                lemma_parse_task_block(comp.last(), Seq::empty());
                assert(parsed_block(comp.last()) + Seq::<Seq<char>>::empty() =~= parsed_block(
                    comp.last(),
                ));
            }
        }
        lemma_parse_blocks_ok(blocks, comp);
        assert(l.tasks =~= comp);
    } else {
        let open1 = parsed_block(inc.last()).push("## Completed"@);
        assert(blocks.len() == inc.len() + comp.len());
        let ts = inc + comp;
        assert forall|k: int| 0 <= k < blocks.len() implies spec_parse_task(
            #[trigger] blocks[k],
        ) == Ok::<TaskV, Seq<char>>(ts[k]) by {
            if k < inc.len() - 1 {
                assert(blocks[k] == parsed_block(inc.drop_last()[k]));
                assert(inc.drop_last()[k] == inc[k]);
                assert(ts[k] == inc[k]);
                lemma_parse_task_block(inc[k], Seq::empty());
                assert(parsed_block(inc[k]) + Seq::<Seq<char>>::empty() =~= parsed_block(
                    inc[k],
                ));
            } else if k == inc.len() - 1 {
                assert(blocks[k] == open1);
                assert(ts[k] == inc.last());
                lemma_parse_task_block(inc.last(), seq!["## Completed"@]);
                assert(parsed_block(inc.last()) + seq!["## Completed"@] =~= open1);
            } else if k < inc.len() + comp.len() - 1 {
                assert(blocks[k] == parsed_blocks_of(comp.drop_last())[k - inc.len()]);
                assert(comp.drop_last()[k - inc.len()] == comp[k - inc.len()]);
                assert(ts[k] == comp[k - inc.len()]);
                lemma_parse_task_block(comp[k - inc.len()], Seq::empty());
                assert(parsed_block(comp[k - inc.len()]) + Seq::<Seq<char>>::empty()
                    =~= parsed_block(comp[k - inc.len()]));
            } else {
                assert(blocks[k] == parsed_block(comp.last()));
                assert(ts[k] == comp.last());
                lemma_parse_task_block(comp.last(), Seq::empty());
                assert(parsed_block(comp.last()) + Seq::<Seq<char>>::empty() =~= parsed_block(
                    comp.last(),
                ));
            }
        }
        lemma_parse_blocks_ok(blocks, ts);
        assert(l.tasks =~= ts);
    }
}

/// A serialized list reads back as itself.  This asks that the list's
/// fields survive the format: tasks ordered as the file writes them,
/// dates at day precision, task times at minute precision, normalized
/// descriptions and tags, nonempty trimmed commits, and no prerelease
/// versions (the parser never produces one).
#[verifier::rlimit(100)]
pub proof fn lemma_round_trip(l: ListV)
    requires
        list_round_trip_safe(l),
    ensures
        spec_deserialize(spec_serialize(l)) == Ok::<ListV, Seq<char>>(l),
{
    let lines = spec_serialize_lines(l);
    lemma_doc_lines_wf(l);
    text::lemma_lines_unlines(lines);
    assert(text::spec_lines(spec_serialize(l)) == lines);
    assert(lines.len() >= 7);
    assert(lines[0] == spec_header_line(l));
    lemma_header_parse(l);
    lemma_scan_meta_doc(l);
    lemma_grouped_blocks(l);
    lemma_parsed_doc_blocks(l);
    assert(spec_deserialize(spec_serialize(l)) == Ok::<ListV, Seq<char>>(ListV {
        project_name: l.project_name,
        project_version: l.project_version,
        created_at: l.created_at,
        modified_at: l.modified_at,
        tasks: l.tasks,
    }));
    assert(ListV {
        project_name: l.project_name,
        project_version: l.project_version,
        created_at: l.created_at,
        modified_at: l.modified_at,
        tasks: l.tasks,
    } == l);
}

} // verus!
