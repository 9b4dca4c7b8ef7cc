//! Releases and the changelog: version-scoped groups of changes, range
//! filtering, and the markdown rendering.

use vstd::prelude::*;

use crate::history::{Change, ChangeV, HistoryEntry, HistoryEntryV, HistoryStorage};
use crate::history;
use crate::seqs;
use crate::task::{Priority, Task, TaskV};
use crate::text;
use crate::time::DateTime;
use crate::trusted;
use crate::version::Version;

verus! {

/// The mathematical model of a release: the version, its date, and the
/// changes bucketed by priority and by tag.
pub struct ReleaseV {
    pub version: Version,
    pub date: DateTime,
    pub high: Seq<ChangeV>,
    pub medium: Seq<ChangeV>,
    pub low: Seq<ChangeV>,
    pub tags: Seq<(Seq<char>, Seq<ChangeV>)>,
}

/// A version-scoped group of changes, derived on demand and never
/// persisted.
#[derive(Debug)]
pub struct Release {
    pub version: Version,
    pub date: DateTime,
    pub high: Vec<Change>,
    pub medium: Vec<Change>,
    pub low: Vec<Change>,
    pub changes_by_tag: Vec<(String, Vec<Change>)>,
}

impl View for Release {
    type V = ReleaseV;

    open spec fn view(&self) -> ReleaseV {
        ReleaseV {
            version: self.version,
            date: self.date,
            high: self.high.deep_view(),
            medium: self.medium.deep_view(),
            low: self.low.deep_view(),
            tags: Seq::new(
                self.changes_by_tag@.len(),
                |i: int|
                    (self.changes_by_tag@[i].0@, self.changes_by_tag@[i].1.deep_view()),
            ),
        }
    }
}

pub open spec fn change_has_priority(c: ChangeV, p: Priority) -> bool {
    c.priority == p
}

pub open spec fn change_has_tag(c: ChangeV, t: Seq<char>) -> bool {
    c.tags.contains(t)
}

/// The tags of the changes, concatenated in order.
pub open spec fn spec_concat_tags(cs: Seq<ChangeV>) -> Seq<Seq<char>>
    decreases cs.len(),
{
    if cs.len() == 0 {
        Seq::empty()
    } else {
        spec_concat_tags(cs.drop_last()) + cs.last().tags
    }
}

/// First occurrences kept, later repeats dropped.
pub open spec fn spec_dedup(s: Seq<Seq<char>>) -> Seq<Seq<char>>
    decreases s.len(),
{
    if s.len() == 0 {
        Seq::empty()
    } else if spec_dedup(s.drop_last()).contains(s.last()) {
        spec_dedup(s.drop_last())
    } else {
        spec_dedup(s.drop_last()).push(s.last())
    }
}

fn clone_change(c: &Change) -> (r: Change)
    ensures
        r@ == c@,
{
    let r = Change {
        description: c.description.clone(),
        priority: c.priority,
        tags: history::clone_strings(&c.tags),
        commit: match &c.commit {
            Some(x) => Some(x.clone()),
            None => None,
        },
        completed_at: c.completed_at,
    };
    proof {
        assert(r@ =~~= c@);
    }
    r
}

/// The changes with the given priority, in order, copied.
fn changes_with_priority(changes: &Vec<&Change>, p: Priority) -> (r: Vec<Change>)
    ensures
        r.deep_view() == changes.deep_view().filter(|c: ChangeV| change_has_priority(c, p)),
{
    let ghost pred = |c: ChangeV| change_has_priority(c, p);
    let mut out: Vec<Change> = Vec::new();
    let n = changes.len();
    let mut i: usize = 0;
    proof {
        reveal(Seq::filter);
        assert(changes.deep_view().take(0int).filter(pred) =~= Seq::<ChangeV>::empty());
    }
    while i < n
        invariant
            i <= n,
            n == changes@.len(),
            n == changes.deep_view().len(),
            out.deep_view() == changes.deep_view().take(i as int).filter(pred),
            pred == (|c: ChangeV| change_has_priority(c, p)),
        decreases n - i,
    {
        proof {
            assert(changes@[i as int]@ == changes.deep_view()[i as int]);
            seqs::lemma_filter_take_step(changes.deep_view(), pred, i as int);
        }
        if changes[i].priority == p {
            let ghost prev = out.deep_view();
            let copy = clone_change(&changes[i]);
            out.push(copy);
            proof {
                assert(out.deep_view() =~~= prev.push(changes.deep_view()[i as int]));
            }
        }
        i = i + 1;
    }
    proof {
        seqs::lemma_take_all(changes.deep_view());
    }
    out
}

/// The changes carrying the given tag, in order, copied.
fn changes_with_tag(changes: &Vec<&Change>, t: &String) -> (r: Vec<Change>)
    ensures
        r.deep_view() == changes.deep_view().filter(|c: ChangeV| change_has_tag(c, t@)),
{
    let ghost pred = |c: ChangeV| change_has_tag(c, t@);
    let mut out: Vec<Change> = Vec::new();
    let n = changes.len();
    let mut i: usize = 0;
    proof {
        reveal(Seq::filter);
        assert(changes.deep_view().take(0int).filter(pred) =~= Seq::<ChangeV>::empty());
    }
    while i < n
        invariant
            i <= n,
            n == changes@.len(),
            n == changes.deep_view().len(),
            out.deep_view() == changes.deep_view().take(i as int).filter(pred),
            pred == (|c: ChangeV| change_has_tag(c, t@)),
        decreases n - i,
    {
        proof {
            assert(changes@[i as int]@ == changes.deep_view()[i as int]);
            seqs::lemma_filter_take_step(changes.deep_view(), pred, i as int);
        }
        if crate::task::string_list_contains(&changes[i].tags, t) {
            let ghost prev = out.deep_view();
            let copy = clone_change(&changes[i]);
            out.push(copy);
            proof {
                assert(out.deep_view() =~~= prev.push(changes.deep_view()[i as int]));
            }
        }
        i = i + 1;
    }
    proof {
        seqs::lemma_take_all(changes.deep_view());
    }
    out
}

/// The distinct tags of the changes, in first-appearance order.
fn distinct_tags(changes: &Vec<&Change>) -> (r: Vec<String>)
    ensures
        r.deep_view() == spec_dedup(spec_concat_tags(changes.deep_view())),
{
    let mut keys: Vec<String> = Vec::new();
    let n = changes.len();
    let mut i: usize = 0;
    proof {
        assert(spec_concat_tags(changes.deep_view().take(0int)) =~= Seq::<Seq<char>>::empty());
        assert(keys.deep_view() =~~= Seq::<Seq<char>>::empty());
    }
    while i < n
        invariant
            i <= n,
            n == changes@.len(),
            n == changes.deep_view().len(),
            keys.deep_view() == spec_dedup(spec_concat_tags(changes.deep_view().take(i as int))),
        decreases n - i,
    {
        proof {
            assert(changes@[i as int]@ == changes.deep_view()[i as int]);
        }
        let tags = &changes[i].tags;
        let m = tags.len();
        let ghost base = spec_concat_tags(changes.deep_view().take(i as int));
        let ghost ctags = changes.deep_view()[i as int].tags;
        let mut j: usize = 0;
        proof {
            assert(base + ctags.take(0int) =~= base);
        }
        while j < m
            invariant
                j <= m,
                m == tags@.len(),
                m == ctags.len(),
                ctags == changes.deep_view()[i as int].tags,
                tags.deep_view() == ctags,
                keys.deep_view() == spec_dedup(base + ctags.take(j as int)),
            decreases m - j,
        {
            proof {
                assert(tags@[j as int]@ == ctags[j as int]);
                assert((base + ctags.take(j as int + 1)).drop_last() =~= base + ctags.take(
                    j as int,
                ));
                assert((base + ctags.take(j as int + 1)).last() == ctags[j as int]);
            }
            if !crate::task::string_list_contains(&keys, &tags[j]) {
                let ghost prev = keys.deep_view();
                keys.push(tags[j].clone());
                proof {
                    assert(keys.deep_view() =~~= prev.push(ctags[j as int]));
                }
            }
            j = j + 1;
        }
        proof {
            assert(ctags.take(m as int) =~= ctags);
            assert(changes.deep_view().take(i as int + 1).drop_last() =~= changes.deep_view()
                .take(i as int));
            assert(changes.deep_view().take(i as int + 1).last() == changes.deep_view()[
                i as int]);
            assert(spec_concat_tags(changes.deep_view().take(i as int + 1)) =~~= base + ctags);
        }
        i = i + 1;
    }
    proof {
        seqs::lemma_take_all(changes.deep_view());
    }
    keys
}

impl Release {
    /// Groups changes under one version into priority and tag buckets.
    pub fn from_changes(version: Version, date: DateTime, changes: &Vec<&Change>) -> (r:
        Release)
        ensures
            r@.version == version,
            r@.date == date,
            r@.high == changes.deep_view().filter(
                |c: ChangeV| change_has_priority(c, Priority::High),
            ),
            r@.medium == changes.deep_view().filter(
                |c: ChangeV| change_has_priority(c, Priority::Medium),
            ),
            r@.low == changes.deep_view().filter(
                |c: ChangeV| change_has_priority(c, Priority::Low),
            ),
            r@.tags.len() == spec_dedup(spec_concat_tags(changes.deep_view())).len(),
            forall|i: int|
                0 <= i < r@.tags.len() ==> (#[trigger] r@.tags[i]).0 == spec_dedup(
                    spec_concat_tags(changes.deep_view()),
                )[i] && r@.tags[i].1 == changes.deep_view().filter(
                    |c: ChangeV| change_has_tag(c, r@.tags[i].0),
                ),
    {
        let high = changes_with_priority(changes, Priority::High);
        let medium = changes_with_priority(changes, Priority::Medium);
        let low = changes_with_priority(changes, Priority::Low);
        let keys = distinct_tags(changes);
        let mut by_tag: Vec<(String, Vec<Change>)> = Vec::new();
        let m = keys.len();
        let mut j: usize = 0;
        while j < m
            invariant
                j <= m,
                m == keys@.len(),
                m == keys.deep_view().len(),
                keys.deep_view() == spec_dedup(spec_concat_tags(changes.deep_view())),
                by_tag@.len() == j,
                forall|t: int|
                    0 <= t < j ==> (#[trigger] by_tag@[t]).0@ == keys.deep_view()[t]
                        && by_tag@[t].1.deep_view() == changes.deep_view().filter(
                        |c: ChangeV| change_has_tag(c, keys.deep_view()[t]),
                    ),
            decreases m - j,
        {
            proof {
                assert(keys@[j as int]@ == keys.deep_view()[j as int]);
            }
            let group = changes_with_tag(changes, &keys[j]);
            by_tag.push((keys[j].clone(), group));
            j = j + 1;
        }
        let r = Release { version, date, high, medium, low, changes_by_tag: by_tag };
        proof {
            assert forall|i: int| 0 <= i < r@.tags.len() implies (#[trigger] r@.tags[i]).0
                == spec_dedup(spec_concat_tags(changes.deep_view()))[i] && r@.tags[i].1
                == changes.deep_view().filter(
                |c: ChangeV| change_has_tag(c, r@.tags[i].0),
            ) by {
                assert(r@.tags[i].0 == by_tag@[i].0@);
                assert(r@.tags[i].1 == by_tag@[i].1.deep_view());
            }
        }
        r
    }

    /// Builds a release from completed tasks: the date is the latest
    /// completion time among them, or the present moment if none carries
    /// one.
    pub fn from_tasks(version: Version, tasks: &Vec<&Task>) -> (r: Release)
        ensures
            r@.version == version,
            spec_max_completed(tasks.deep_view()) matches Some(d) ==> r@.date == d,
    {
        let mut date: Option<DateTime> = None;
        let n = tasks.len();
        let mut i: usize = 0;
        while i < n
            invariant
                i <= n,
                n == tasks@.len(),
                n == tasks.deep_view().len(),
                date == spec_max_completed(tasks.deep_view().take(i as int)),
            decreases n - i,
        {
            proof {
                assert(tasks@[i as int]@ == tasks.deep_view()[i as int]);
                assert(tasks.deep_view().take(i as int + 1).drop_last() =~= tasks.deep_view()
                    .take(i as int));
                assert(tasks.deep_view().take(i as int + 1).last() == tasks.deep_view()[
                    i as int]);
            }
            match &tasks[i].completed_at_time {
                Some(t) => {
                    match &date {
                        Some(d) => {
                            if d.lt(t) {
                                date = Some(*t);
                            }
                        },
                        None => {
                            date = Some(*t);
                        },
                    }
                },
                None => {},
            }
            i = i + 1;
        }
        proof {
            seqs::lemma_take_all(tasks.deep_view());
        }
        let date = match &date {
            Some(d) => *d,
            None => trusted::now_datetime(),
        };
        let mut changes: Vec<Change> = Vec::new();
        let mut k: usize = 0;
        while k < n
            invariant
                k <= n,
                n == tasks@.len(),
                changes@.len() == k,
            decreases n - k,
        {
            changes.push(Change::from_task(&tasks[k]));
            k = k + 1;
        }
        let mut refs: Vec<&Change> = Vec::new();
        let mut k2: usize = 0;
        while k2 < n
            invariant
                k2 <= n,
                n == changes@.len(),
                refs@.len() == k2,
            decreases n - k2,
        {
            refs.push(&changes[k2]);
            k2 = k2 + 1;
        }
        let grouped = Release::from_changes(version, date, &refs);
        grouped
    }
}

/// The latest completion time among the tasks, if any carries one.
pub open spec fn spec_max_completed(ts: Seq<TaskV>) -> Option<DateTime>
    decreases ts.len(),
{
    if ts.len() == 0 {
        None
    } else {
        let rest = spec_max_completed(ts.drop_last());
        match ts.last().completed_at_time {
            Some(t) => match rest {
                Some(d) => if d.spec_lt(t) {
                    Some(t)
                } else {
                    Some(d)
                },
                None => Some(t),
            },
            None => rest,
        }
    }
}

/// The mathematical model of a changelog.
pub struct LogV {
    pub project_name: Seq<char>,
    pub releases: Seq<ReleaseV>,
    pub generated_at: DateTime,
}

/// A changelog: the project's releases and a generation date.
#[derive(Debug)]
pub struct Log {
    pub project_name: String,
    pub releases: Vec<Release>,
    pub generated_at: DateTime,
}

impl View for Log {
    type V = LogV;

    open spec fn view(&self) -> LogV {
        LogV {
            project_name: self.project_name@,
            releases: self.releases.deep_view(),
            generated_at: self.generated_at,
        }
    }
}

impl DeepView for Release {
    type V = ReleaseV;

    open spec fn deep_view(&self) -> ReleaseV {
        self.view()
    }
}

/// The version a caller's optional bound names.
pub open spec fn view_opt_version(o: Option<&Version>) -> Option<Version> {
    match o {
        Some(v) => Some(*v),
        None => None,
    }
}

/// Whether a version lies within the optional inclusive bounds.
pub open spec fn version_in_bounds(v: Version, from: Option<Version>, to: Option<Version>)
    -> bool {
    (match from {
        Some(f) => f.spec_le(v),
        None => true,
    }) && (match to {
        Some(t) => v.spec_le(t),
        None => true,
    })
}

impl Log {
    /// A changelog over version-grouped tasks, generated now.
    pub fn from_tasks(project_name: String, groups: &Vec<(Version, Vec<&Task>)>) -> (r: Log)
        ensures
            r@.project_name == project_name@,
            r@.releases.len() == groups@.len(),
            forall|i: int|
                0 <= i < groups@.len() ==> (#[trigger] r@.releases[i]).version == groups@[i].0,
            r@.generated_at.well_formed(),
    {
        let mut releases: Vec<Release> = Vec::new();
        let n = groups.len();
        let mut i: usize = 0;
        while i < n
            invariant
                i <= n,
                n == groups@.len(),
                releases@.len() == i,
                forall|k: int|
                    0 <= k < i ==> (#[trigger] releases.deep_view()[k]).version == groups@[k].0,
            decreases n - i,
    {
            let rel = Release::from_tasks(groups[i].0, &groups[i].1);
            let ghost rv = rel@;
            let ghost prev = releases.deep_view();
            releases.push(rel);
            proof {
                assert(releases.deep_view() =~~= prev.push(rv));
            }
            i = i + 1;
        }
        Log { project_name, releases, generated_at: trusted::now_datetime() }
    }

    /// The changelog restricted to releases within the inclusive version
    /// bounds.
    pub fn filter_versions(&self, from: Option<&Version>, to: Option<&Version>) -> (r: Log)
        ensures
            r@.project_name == self@.project_name,
            r@.generated_at == self@.generated_at,
            r@.releases == self@.releases.filter(
                |rel: ReleaseV|
                    version_in_bounds(rel.version, view_opt_version(from), view_opt_version(to)),
            ),
    {
        let ghost fromv: Option<Version> = view_opt_version(from);
        let ghost tov: Option<Version> = view_opt_version(to);
        let ghost pred = |rel: ReleaseV|
            version_in_bounds(rel.version, view_opt_version(from), view_opt_version(to));
        let mut out: Vec<Release> = Vec::new();
        let n = self.releases.len();
        let mut i: usize = 0;
        proof {
            reveal(Seq::filter);
            assert(self@.releases.take(0int).filter(pred) =~= Seq::<ReleaseV>::empty());
        }
        while i < n
            invariant
                i <= n,
                n == self.releases@.len(),
                n == self@.releases.len(),
                out.deep_view() == self@.releases.take(i as int).filter(pred),
                fromv == view_opt_version(from),
                tov == view_opt_version(to),
                pred == (|rel: ReleaseV|
                    version_in_bounds(rel.version, view_opt_version(from), view_opt_version(to))),
            decreases n - i,
        {
            proof {
                assert(self.releases@[i as int]@ == self@.releases[i as int]);
                seqs::lemma_filter_take_step(self@.releases, pred, i as int);
            }
            let after_from = match from {
                Some(f) => f.le(&self.releases[i].version),
                None => true,
            };
            let before_to = match to {
                Some(t) => self.releases[i].version.le(t),
                None => true,
            };
            proof {
                assert((after_from && before_to) == pred(self@.releases[i as int]));
            }
            if after_from && before_to {
                let ghost prev = out.deep_view();
                let rel = clone_release(&self.releases[i]);
                let ghost rv = rel@;
                out.push(rel);
                proof {
                    assert(out.deep_view() =~~= prev.push(rv));
                    assert(rv == self@.releases[i as int]);
                }
            }
            i = i + 1;
        }
        proof {
            seqs::lemma_take_all(self@.releases);
        }
        Log {
            project_name: self.project_name.clone(),
            releases: out,
            generated_at: self.generated_at,
        }
    }

    /// A changelog built from the ledger: the versioned entries grouped by
    /// version, newest release first, restricted to the inclusive bounds.
    pub fn from_history(
        project_name: String,
        h: &HistoryStorage,
        from: Option<&Version>,
        to: Option<&Version>,
    ) -> (r: Log)
        ensures
            r@.project_name == project_name@,
            r@.generated_at.well_formed(),
            forall|i: int, j: int|
                0 <= i < j < r@.releases.len() ==> (#[trigger] r@.releases[j]).version.spec_lt(
                    (#[trigger] r@.releases[i]).version,
                ),
            forall|i: int|
                0 <= i < r@.releases.len() ==> history::has_entry_at_version(
                    h@,
                    (#[trigger] r@.releases[i]).version,
                ) && version_in_bounds(
                    r@.releases[i].version,
                    view_opt_version(from),
                    view_opt_version(to),
                ),
    {
        let groups = h.entries_by_version();
        let mut releases: Vec<Release> = Vec::new();
        let n = groups.len();
        let mut i: usize = n;
        while i > 0
            invariant
                i <= n,
                n == groups@.len(),
                forall|a: int, b: int| 0 <= a < b < groups@.len() ==> groups@[a].0.spec_lt(
                    groups@[b].0,
                ),
                forall|a: int|
                    0 <= a < groups@.len() ==> history::has_entry_at_version(
                        h@,
                        (#[trigger] groups@[a]).0,
                    ),
                forall|k: int|
                    0 <= k < releases@.len() ==> exists|g: int|
                        i <= g < n && (#[trigger] releases.deep_view()[k]).version == groups@[
                            g].0,
                forall|k: int|
                    0 <= k < releases@.len() ==> version_in_bounds(
                        (#[trigger] releases.deep_view()[k]).version,
                        view_opt_version(from),
                        view_opt_version(to),
                    ),
                forall|k1: int, k2: int|
                    0 <= k1 < k2 < releases@.len() ==> (#[trigger] releases.deep_view()[
                    k2]).version.spec_lt((#[trigger] releases.deep_view()[k1]).version),
                forall|k: int, g: int|
                    0 <= k < releases@.len() && i <= g < n && (#[trigger] releases.deep_view()[
                    k]).version == (#[trigger] groups@[g]).0 ==> g >= i,
            decreases i,
        {
            i = i - 1;
            let version = groups[i].0;
            let after_from = match from {
                Some(f) => f.le(&version),
                None => true,
            };
            let before_to = match to {
                Some(t) => version.le(t),
                None => true,
            };
            if after_from && before_to {
                let entries = &groups[i].1;
                let mut date: Option<DateTime> = None;
                let en = entries.len();
                let mut k: usize = 0;
                while k < en
                    invariant
                        k <= en,
                        en == entries@.len(),
                    decreases en - k,
                {
                    match &date {
                        Some(d) => {
                            if d.lt(&entries[k].change.completed_at) {
                                date = Some(entries[k].change.completed_at);
                            }
                        },
                        None => {
                            date = Some(entries[k].change.completed_at);
                        },
                    }
                    k = k + 1;
                }
                let date = match &date {
                    Some(d) => *d,
                    None => trusted::now_datetime(),
                };
                let mut changes: Vec<&Change> = Vec::new();
                let mut k2: usize = 0;
                while k2 < en
                    invariant
                        k2 <= en,
                        en == entries@.len(),
                    decreases en - k2,
                {
                    changes.push(&entries[k2].change);
                    k2 = k2 + 1;
                }
                let ghost prev = releases.deep_view();
                let rel = Release::from_changes(version, date, &changes);
                releases.push(rel);
                proof {
                    assert(releases.deep_view() =~~= prev.push(rel@));
                    assert(releases.deep_view()[releases.deep_view().len() - 1].version
                        == groups@[i as int].0);
                    assert forall|k1: int, k2x: int|
                        0 <= k1 < k2x < releases.deep_view().len() implies (
                    #[trigger] releases.deep_view()[k2x]).version.spec_lt(
                        (#[trigger] releases.deep_view()[k1]).version,
                    ) by {
                        if k2x < releases.deep_view().len() - 1 {
                        } else {
                            let g = choose|g: int|
                                i < g < n && (#[trigger] releases.deep_view()[k1]).version
                                    == groups@[g].0;
                            assert(groups@[i as int].0.spec_lt(groups@[g].0));
                        }
                    }
                }
            }
        }
        Log { project_name, releases, generated_at: trusted::now_datetime() }
    }
}

fn clone_release(r: &Release) -> (out: Release)
    ensures
        out@ == r@,
{
    let mut high: Vec<Change> = Vec::new();
    let hn = r.high.len();
    let mut i: usize = 0;
    while i < hn
        invariant
            i <= hn,
            hn == r.high@.len(),
            high.deep_view() == r.high.deep_view().take(i as int),
        decreases hn - i,
    {
        let ghost prev = high.deep_view();
        high.push(clone_change(&r.high[i]));
        proof {
            assert(r.high@[i as int]@ == r.high.deep_view()[i as int]);
            assert(high.deep_view() =~~= prev.push(r.high.deep_view()[i as int]));
            assert(high.deep_view() =~~= r.high.deep_view().take(i as int + 1));
        }
        i = i + 1;
    }
    let mut medium: Vec<Change> = Vec::new();
    let mn = r.medium.len();
    let mut j: usize = 0;
    while j < mn
        invariant
            j <= mn,
            mn == r.medium@.len(),
            medium.deep_view() == r.medium.deep_view().take(j as int),
        decreases mn - j,
    {
        let ghost prev = medium.deep_view();
        medium.push(clone_change(&r.medium[j]));
        proof {
            assert(r.medium@[j as int]@ == r.medium.deep_view()[j as int]);
            assert(medium.deep_view() =~~= prev.push(r.medium.deep_view()[j as int]));
            assert(medium.deep_view() =~~= r.medium.deep_view().take(j as int + 1));
        }
        j = j + 1;
    }
    let mut low: Vec<Change> = Vec::new();
    let ln = r.low.len();
    let mut k: usize = 0;
    while k < ln
        invariant
            k <= ln,
            ln == r.low@.len(),
            low.deep_view() == r.low.deep_view().take(k as int),
        decreases ln - k,
    {
        let ghost prev = low.deep_view();
        low.push(clone_change(&r.low[k]));
        proof {
            assert(r.low@[k as int]@ == r.low.deep_view()[k as int]);
            assert(low.deep_view() =~~= prev.push(r.low.deep_view()[k as int]));
            assert(low.deep_view() =~~= r.low.deep_view().take(k as int + 1));
        }
        k = k + 1;
    }
    let mut by_tag: Vec<(String, Vec<Change>)> = Vec::new();
    let tn = r.changes_by_tag.len();
    let mut t: usize = 0;
    while t < tn
        invariant
            t <= tn,
            tn == r.changes_by_tag@.len(),
            by_tag@.len() == t,
            forall|a: int|
                0 <= a < t ==> (#[trigger] by_tag@[a]).0@ == r.changes_by_tag@[a].0@ && by_tag@[
                    a].1.deep_view() == r.changes_by_tag@[a].1.deep_view(),
        decreases tn - t,
    {
        let pair = &r.changes_by_tag[t];
        let mut grp: Vec<Change> = Vec::new();
        let gn = pair.1.len();
        let mut g: usize = 0;
        while g < gn
            invariant
                g <= gn,
                gn == pair.1@.len(),
                grp.deep_view() == pair.1.deep_view().take(g as int),
            decreases gn - g,
        {
            let ghost prev = grp.deep_view();
            grp.push(clone_change(&pair.1[g]));
            proof {
                assert(pair.1@[g as int]@ == pair.1.deep_view()[g as int]);
                assert(grp.deep_view() =~~= prev.push(pair.1.deep_view()[g as int]));
                assert(grp.deep_view() =~~= pair.1.deep_view().take(g as int + 1));
            }
            g = g + 1;
        }
        proof {
            assert(pair.1.deep_view().take(gn as int) =~= pair.1.deep_view());
        }
        by_tag.push((pair.0.clone(), grp));
        t = t + 1;
    }
    let out = Release { version: r.version, date: r.date, high, medium, low, changes_by_tag: by_tag };
    proof {
        assert(r.high.deep_view().take(hn as int) =~= r.high.deep_view());
        assert(r.medium.deep_view().take(mn as int) =~= r.medium.deep_view());
        assert(r.low.deep_view().take(ln as int) =~= r.low.deep_view());
        assert(out@.tags =~~= r@.tags);
        assert(out@ =~~= r@);
    }
    out
}

} // verus!
