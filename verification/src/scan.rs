//! Reading completed work out of commit messages: record parsing, the
//! `done:` section, and fuzzy matching of tasks against descriptions.

use vstd::prelude::*;

use crate::task::Task;
use crate::text;
use crate::time::DateTime;
use crate::trusted::{self, fuzzy_score_of};

verus! {

/// A moment as seconds since the Unix epoch.
#[derive(Debug, Clone, Copy, PartialEq, Eq, Structural)]
pub struct UnixTime {
    pub secs: i64,
}

impl UnixTime {
    pub fn timestamp(&self) -> (r: i64)
        ensures
            r == self.secs,
    {
        self.secs
    }
}

/// The model of a parsed commit record.
pub struct CommitV {
    pub hash: Seq<char>,
    pub done_items: Seq<Seq<char>>,
    pub date: i64,
}

/// One commit with completed-work lines in its message.
#[derive(Debug)]
pub struct Commit {
    pub hash: String,
    pub done_items: Vec<String>,
    pub date: UnixTime,
}

impl View for Commit {
    type V = CommitV;

    open spec fn view(&self) -> CommitV {
        CommitV {
            hash: self.hash@,
            done_items: self.done_items.deep_view(),
            date: self.date.secs,
        }
    }
}

impl DeepView for Commit {
    type V = CommitV;

    open spec fn deep_view(&self) -> CommitV {
        self.view()
    }
}

/// A signed decimal as `str::parse::<i64>` reads it, except that the most
/// negative value is not accepted; a failed parse falls back to zero.
pub open spec fn spec_ts_of(s: Seq<char>) -> int {
    if s.len() > 0 && s[0] == '-' {
        match text::spec_parse_u64(s.skip(1)) {
            Some(m) => if m <= i64::MAX {
                -(m as int)
            } else {
                0
            },
            None => 0,
        }
    } else {
        match text::spec_parse_u64(s) {
            Some(m) => if m <= i64::MAX {
                m as int
            } else {
                0
            },
            None => 0,
        }
    }
}

fn ts_of(v: &Vec<char>) -> (r: i64)
    ensures
        r == spec_ts_of(v@),
{
    if v.len() > 0 && v[0] == '-' {
        let rest = text::subvec(v, 1, v.len());
        proof {
            assert(rest@ =~= v@.skip(1));
        }
        match text::parse_u64(&rest) {
            Some(m) => {
                if m <= i64::MAX as u64 {
                    -(m as i64)
                } else {
                    0
                }
            },
            None => 0,
        }
    } else {
        match text::parse_u64(v) {
            Some(m) => {
                if m <= i64::MAX as u64 {
                    m as i64
                } else {
                    0
                }
            },
            None => 0,
        }
    }
}

/// The cleaned items of the `done:` section: after the case-insensitive
/// marker line, each non-blank line with leading `-`/`*` bullets removed,
/// up to the first blank line or next `...:` header.
pub open spec fn spec_extract(
    lines: Seq<Seq<char>>,
    i: int,
    in_done: bool,
    prefix_lower: Seq<char>,
) -> Seq<Seq<char>>
    decreases lines.len() - i,
{
    if i < 0 || i >= lines.len() {
        Seq::empty()
    } else {
        let t = text::spec_trim(lines[i]);
        if text::spec_ascii_lower(t) == prefix_lower {
            spec_extract(lines, i + 1, true, prefix_lower)
        } else if in_done {
            if t.len() == 0 {
                Seq::empty()
            } else if t.last() == ':' {
                Seq::empty()
            } else {
                let cleaned = text::spec_trim(
                    crate::todo_text::spec_strip_chars_rep(
                        t,
                        |c: char| c == '-' || c == '*',
                    ),
                );
                if cleaned.len() > 0 {
                    seq![cleaned] + spec_extract(lines, i + 1, true, prefix_lower)
                } else {
                    spec_extract(lines, i + 1, true, prefix_lower)
                }
            }
        } else {
            spec_extract(lines, i + 1, false, prefix_lower)
        }
    }
}

fn strip_bullets(v: &Vec<char>) -> (r: Vec<char>)
    ensures
        r@ == crate::todo_text::spec_strip_chars_rep(v@, |c: char| c == '-' || c == '*'),
{
    let ghost cl = |c: char| c == '-' || c == '*';
    let n = v.len();
    let mut i: usize = 0;
    proof {
        assert(v@.skip(0) =~= v@);
    }
    while i < n && (v[i] == '-' || v[i] == '*')
        invariant
            i <= n,
            n == v@.len(),
            crate::todo_text::spec_strip_chars_rep(v@, cl) == crate::todo_text::spec_strip_chars_rep(
                v@.skip(i as int),
                cl,
            ),
            cl == (|c: char| c == '-' || c == '*'),
        decreases n - i,
    {
        proof {
            assert(v@.skip(i as int).drop_first() =~= v@.skip(i as int + 1));
        }
        i = i + 1;
    }
    proof {
        assert(crate::todo_text::spec_strip_chars_rep(v@.skip(i as int), cl) == v@.skip(
            i as int,
        ));
        assert(v@.skip(i as int) =~= v@.subrange(i as int, n as int));
    }
    text::subvec(v, i, n)
}

/// Pulls the `done:` items out of a commit message.
pub fn extract_done_items(message: &str, done_prefix: &str) -> (r: Vec<String>)
    ensures
        r.deep_view() == spec_extract(
            text::spec_lines(message@),
            0,
            false,
            text::spec_ascii_lower(done_prefix@),
        ),
{
    let chars = text::str_to_chars(message);
    let dlines = text::lines_of(&chars);
    let ghost lv = text::spec_lines(message@);
    proof {
        assert(dlines.deep_view() == lv);
    }
    let prefix = text::str_to_chars(done_prefix);
    let ghost pl = text::spec_ascii_lower(done_prefix@);
    let mut out: Vec<String> = Vec::new();
    let mut in_done = false;
    let n = dlines.len();
    let mut i: usize = 0;
    proof {
        assert(out.deep_view() =~~= Seq::<Seq<char>>::empty());
    }
    while i < n
        invariant
            i <= n,
            n == dlines@.len(),
            n == lv.len(),
            lv == dlines.deep_view(),
            lv == text::spec_lines(message@),
            prefix@ == done_prefix@,
            pl == text::spec_ascii_lower(done_prefix@),
            out.deep_view() + spec_extract(lv, i as int, in_done, pl) == spec_extract(
                lv,
                0,
                false,
                pl,
            ),
        decreases n - i,
    {
        proof {
            assert(dlines@[i as int]@ == lv[i as int]);
        }
        let t = text::trim(&dlines[i]);
        if text::eq_ignore_ascii_case(&t, &prefix) {
            in_done = true;
        } else if in_done {
            if t.len() == 0 {
                proof {
                    assert(spec_extract(lv, i as int, in_done, pl) =~~= Seq::<
                        Seq<char>,
                    >::empty());
                    assert(out.deep_view() =~~= spec_extract(lv, 0, false, pl));
                }
                return out;
            }
            if t[t.len() - 1] == ':' {
                proof {
                    assert(spec_extract(lv, i as int, in_done, pl) =~~= Seq::<
                        Seq<char>,
                    >::empty());
                    assert(out.deep_view() =~~= spec_extract(lv, 0, false, pl));
                }
                return out;
            }
            let cleaned = text::trim(&strip_bullets(&t));
            if cleaned.len() > 0 {
                let ghost prev = out.deep_view();
                let ghost cv = cleaned@;
                out.push(text::chars_to_string(&cleaned));
                proof {
                    assert(out.deep_view() =~~= prev.push(cv));
                }
            }
        }
        i = i + 1;
    }
    proof {
        assert(out.deep_view() =~~= spec_extract(lv, 0, false, pl));
    }
    out
}

/// What one raw record between separators yields: hash, timestamp, and the
/// done items of the body; a record without items is dropped.
pub open spec fn spec_commit_of(t: Seq<char>, prefix_lower: Seq<char>) -> Option<CommitV> {
    let trio: (Seq<char>, Seq<char>, Seq<char>) = match text::spec_find_char(t, '\u{1f}', 0) {
        None => (t, "0"@, Seq::empty()),
        Some(i1) => match text::spec_find_char(t, '\u{1f}', i1 + 1) {
            None => (t.take(i1), t.skip(i1 + 1), Seq::empty()),
            Some(i2) => (
                t.take(i1),
                t.subrange(i1 + 1, i2),
                text::spec_trim(t.skip(i2 + 1)),
            ),
        },
    };
    let items = spec_extract(text::spec_lines(trio.2), 0, false, prefix_lower);
    if items.len() > 0 {
        Some(CommitV { hash: trio.0, done_items: items, date: spec_ts_of(trio.1) as i64 })
    } else {
        None
    }
}

/// The commits parsed out of the raw records, in order.
pub open spec fn spec_parse_commits(records: Seq<Seq<char>>, i: int, prefix_lower: Seq<char>)
    -> Seq<CommitV>
    decreases records.len() - i,
{
    if i < 0 || i >= records.len() {
        Seq::empty()
    } else {
        let t = text::spec_trim(records[i]);
        if t.len() == 0 {
            spec_parse_commits(records, i + 1, prefix_lower)
        } else {
            match spec_commit_of(t, prefix_lower) {
                Some(c) => seq![c] + spec_parse_commits(records, i + 1, prefix_lower),
                None => spec_parse_commits(records, i + 1, prefix_lower),
            }
        }
    }
}

/// Parses the record-separated output of a commit-log listing: each record
/// holds hash, Unix timestamp, and message, unit-separated.  An unreadable
/// timestamp counts as the epoch.  Only commits with done items are kept.
#[verifier::rlimit(40)]
pub fn parse_commits(input: &str, done_prefix: &str) -> (r: Vec<Commit>)
    ensures
        r.deep_view() == spec_parse_commits(
            text::spec_split(input@, '\u{1e}'),
            0,
            text::spec_ascii_lower(done_prefix@),
        ),
{
    let chars = text::str_to_chars(input);
    let records = text::split_char(&chars, '\u{1e}');
    let ghost rv = records.deep_view();
    let ghost pl = text::spec_ascii_lower(done_prefix@);
    let mut out: Vec<Commit> = Vec::new();
    let n = records.len();
    let mut i: usize = 0;
    proof {
        assert(out.deep_view() =~~= Seq::<CommitV>::empty());
    }
    while i < n
        invariant
            i <= n,
            n == records@.len(),
            n == rv.len(),
            rv == records.deep_view(),
            rv == text::spec_split(input@, '\u{1e}'),
            pl == text::spec_ascii_lower(done_prefix@),
            out.deep_view() + spec_parse_commits(rv, i as int, pl) == spec_parse_commits(
                rv,
                0,
                pl,
            ),
        decreases n - i,
    {
        proof {
            assert(records@[i as int]@ == rv[i as int]);
        }
        let t = text::trim(&records[i]);
        if t.len() > 0 {
            let tn = t.len();
            let (hash, ts, body) = match text::find_char(&t, '\u{1f}', 0) {
                None => {
                    let b: Vec<char> = Vec::new();
                    proof {
                        reveal_strlit("0");
                        assert(("0")@ =~= seq!['0']);
                    }
                    (
                        text::subvec(&t, 0, tn),
                        text::str_to_chars("0"),
                        b,
                    )
                },
                Some(i1) => {
                    proof {
                        text::lemma_find_char_ge(t@, '\u{1f}', 0);
                    }
                    match text::find_char(&t, '\u{1f}', i1 + 1) {
                        None => {
                            let b: Vec<char> = Vec::new();
                            proof {
                                assert(t@.subrange(0, i1 as int) =~= t@.take(i1 as int));
                                assert(t@.subrange(i1 as int + 1, tn as int) =~= t@.skip(
                                    i1 as int + 1,
                                ));
                            }
                            (text::subvec(&t, 0, i1), text::subvec(&t, i1 + 1, tn), b)
                        },
                        Some(i2) => {
                            proof {
                                text::lemma_find_char_ge(t@, '\u{1f}', i1 as int + 1);
                                assert(t@.subrange(0, i1 as int) =~= t@.take(i1 as int));
                                assert(t@.subrange(i2 as int + 1, tn as int) =~= t@.skip(
                                    i2 as int + 1,
                                ));
                            }
                            (
                                text::subvec(&t, 0, i1),
                                text::subvec(&t, i1 + 1, i2),
                                text::trim(&text::subvec(&t, i2 + 1, tn)),
                            )
                        },
                    }
                },
            };
            let ts_v = ts_of(&ts);
            let body_s = text::chars_to_string(&body);
            let items = extract_done_items(body_s.as_str(), done_prefix);
            if items.len() > 0 {
                let ghost prev = out.deep_view();
                let c = Commit {
                    hash: text::chars_to_string(&hash),
                    done_items: items,
                    date: UnixTime { secs: ts_v },
                };
                let ghost cv = c@;
                out.push(c);
                proof {
                    assert(out.deep_view() =~~= prev.push(cv));
                    assert(cv == spec_commit_of(text::spec_trim(rv[i as int]), pl)->Some_0);
                }
            } else {
                proof {
                    assert(spec_commit_of(text::spec_trim(rv[i as int]), pl) is None);
                }
            }
        }
        i = i + 1;
    }
    proof {
        assert(out.deep_view() =~~= spec_parse_commits(rv, 0, pl));
    }
    out
}

/// Whether a task takes part in the match: with `only_open` set, completed
/// tasks are left out.
pub open spec fn considered(t: crate::task::TaskV, only_open: bool) -> bool {
    only_open ==> !t.completed
}

/// The best fuzzy match for a query among the tasks: the first task with
/// the strictly highest score.
pub fn find_best_match(tasks: &Vec<Task>, query: &str, only_open: bool) -> (r: Option<
    (usize, i64),
>)
    ensures
        r is None ==> forall|k: int|
            0 <= k < tasks.deep_view().len() && considered(
                #[trigger] tasks.deep_view()[k],
                only_open,
            ) ==> fuzzy_score_of(tasks.deep_view()[k].description, query@) is None,
        r matches Some(p) ==> 0 <= p.0 < tasks.deep_view().len() && considered(
            tasks.deep_view()[p.0 as int],
            only_open,
        ) && fuzzy_score_of(tasks.deep_view()[p.0 as int].description, query@) == Some(p.1) && (
        forall|k: int|
            0 <= k < tasks.deep_view().len() && considered(
                #[trigger] tasks.deep_view()[k],
                only_open,
            ) ==> (fuzzy_score_of(tasks.deep_view()[k].description, query@) matches Some(t)
                ==> t <= p.1)),
{
    let ghost tv = tasks.deep_view();
    let mut best: Option<(usize, i64)> = None;
    let n = tasks.len();
    let mut i: usize = 0;
    while i < n
        invariant
            i <= n,
            n == tasks@.len(),
            n == tv.len(),
            tv == tasks.deep_view(),
            best is None ==> forall|k: int|
                0 <= k < i && considered(#[trigger] tv[k], only_open) ==> fuzzy_score_of(
                    tv[k].description,
                    query@,
                ) is None,
            best matches Some(p) ==> 0 <= p.0 < i && considered(tv[p.0 as int], only_open)
                && fuzzy_score_of(tv[p.0 as int].description, query@) == Some(p.1) && (forall|
            k: int|
                0 <= k < i && considered(#[trigger] tv[k], only_open) ==> (fuzzy_score_of(
                    tv[k].description,
                    query@,
                ) matches Some(t) ==> t <= p.1)),
        decreases n - i,
    {
        proof {
            assert(tasks@[i as int]@ == tv[i as int]);
        }
        let skip = only_open && tasks[i].completed;
        if !skip {
            match trusted::fuzzy_score(tasks[i].description.as_str(), query) {
                Some(score) => {
                    let better = match &best {
                        Some(p) => score > p.1,
                        None => true,
                    };
                    if better {
                        best = Some((i, score));
                    }
                },
                None => {},
            }
        }
        i = i + 1;
    }
    best
}

/// The best commit match for one task: the highest fuzzy score of the
/// task's description against any done item of a commit not older than the
/// task.
pub fn best_commit_match(description: &String, created: &DateTime, commits: &Vec<Commit>) -> (r:
    Option<(String, i64, String)>)
    requires
        created.well_formed(),
        created.year >= 1,
    ensures
        r matches Some(m) ==> exists|k: int, j: int|
            0 <= k < commits.deep_view().len() && (#[trigger] commits.deep_view()[k]).date
                >= created.spec_unix_seconds() && 0 <= j < commits.deep_view()[
                k].done_items.len() && commits.deep_view()[k].hash == m.0@ && (
            #[trigger] commits.deep_view()[k].done_items[j]) == m.2@ && fuzzy_score_of(
                description@,
                m.2@,
            ) == Some(m.1),
        r matches Some(m) ==> forall|k: int, j: int|
            0 <= k < commits.deep_view().len() && (#[trigger] commits.deep_view()[k]).date
                >= created.spec_unix_seconds() && 0 <= j < commits.deep_view()[
                k].done_items.len() ==> (fuzzy_score_of(
                description@,
                #[trigger] commits.deep_view()[k].done_items[j],
            ) matches Some(t) ==> t <= m.1),
        r is None ==> forall|k: int, j: int|
            0 <= k < commits.deep_view().len() && (#[trigger] commits.deep_view()[k]).date
                >= created.spec_unix_seconds() && 0 <= j < commits.deep_view()[
                k].done_items.len() ==> fuzzy_score_of(
                description@,
                #[trigger] commits.deep_view()[k].done_items[j],
            ) is None,
{
    let ghost cvw = commits.deep_view();
    let created_secs = created.unix_seconds();
    let mut best: Option<(String, i64, String)> = None;
    let n = commits.len();
    let mut k: usize = 0;
    while k < n
        invariant
            k <= n,
            n == commits@.len(),
            n == cvw.len(),
            cvw == commits.deep_view(),
            created_secs == created.spec_unix_seconds(),
            best matches Some(m) ==> exists|a: int, b: int|
                0 <= a < cvw.len() && (#[trigger] cvw[a]).date >= created_secs && 0 <= b < cvw[
                    a].done_items.len() && cvw[a].hash == m.0@ && (#[trigger] cvw[
                a].done_items[b]) == m.2@ && fuzzy_score_of(description@, m.2@) == Some(m.1),
            best matches Some(m) ==> forall|a: int, b: int|
                0 <= a < k && (#[trigger] cvw[a]).date >= created_secs && 0 <= b < cvw[
                    a].done_items.len() ==> (fuzzy_score_of(
                    description@,
                    #[trigger] cvw[a].done_items[b],
                ) matches Some(t) ==> t <= m.1),
            best is None ==> forall|a: int, b: int|
                0 <= a < k && (#[trigger] cvw[a]).date >= created_secs && 0 <= b < cvw[
                    a].done_items.len() ==> fuzzy_score_of(
                    description@,
                    #[trigger] cvw[a].done_items[b],
                ) is None,
        decreases n - k,
    {
        proof {
            assert(commits@[k as int]@ == cvw[k as int]);
        }
        if commits[k].date.secs >= created_secs {
            let items = &commits[k].done_items;
            let m = items.len();
            let mut j: usize = 0;
            while j < m
                invariant
                    j <= m,
                    k < n,
                    m == items@.len(),
                    m == cvw[k as int].done_items.len(),
                    items.deep_view() == cvw[k as int].done_items,
                    n == commits@.len(),
                    n == cvw.len(),
                    cvw == commits.deep_view(),
                    commits@[k as int]@ == cvw[k as int],
                    cvw[k as int].date >= created_secs,
                    created_secs == created.spec_unix_seconds(),
                    best matches Some(m2) ==> exists|a: int, b: int|
                        0 <= a < cvw.len() && (#[trigger] cvw[a]).date >= created_secs && 0 <= b
                            < cvw[a].done_items.len() && cvw[a].hash == m2.0@ && (#[trigger] cvw[
                        a].done_items[b]) == m2.2@ && fuzzy_score_of(description@, m2.2@) == Some(
                            m2.1,
                        ),
                    best matches Some(m2) ==> forall|a: int, b: int|
                        0 <= a < k && (#[trigger] cvw[a]).date >= created_secs && 0 <= b < cvw[
                            a].done_items.len() ==> (fuzzy_score_of(
                            description@,
                            #[trigger] cvw[a].done_items[b],
                        ) matches Some(t) ==> t <= m2.1),
                    best matches Some(m2) ==> forall|b: int|
                        0 <= b < j ==> (fuzzy_score_of(
                            description@,
                            #[trigger] cvw[k as int].done_items[b],
                        ) matches Some(t) ==> t <= m2.1),
                    best is None ==> forall|a: int, b: int|
                        0 <= a < k && (#[trigger] cvw[a]).date >= created_secs && 0 <= b < cvw[
                            a].done_items.len() ==> fuzzy_score_of(
                            description@,
                            #[trigger] cvw[a].done_items[b],
                        ) is None,
                    best is None ==> forall|b: int|
                        0 <= b < j ==> fuzzy_score_of(
                            description@,
                            #[trigger] cvw[k as int].done_items[b],
                        ) is None,
                decreases m - j,
            {
                proof {
                    assert(items@[j as int]@ == cvw[k as int].done_items[j as int]);
                }
                match trusted::fuzzy_score(description.as_str(), items[j].as_str()) {
                    Some(score) => {
                        let better = match &best {
                            Some(m2) => score > m2.1,
                            None => true,
                        };
                        if better {
                            best = Some((commits[k].hash.clone(), score, items[j].clone()));
                        }
                    },
                    None => {},
                }
                j = j + 1;
            }
        }
        k = k + 1;
    }
    best
}

} // verus!
