//! The append-only ledger of completed-task snapshots: deduplicated
//! recording, one-shot version assignment, and version-keyed queries.

use vstd::prelude::*;

use crate::seqs;
use crate::task::{Priority, Task, TaskV};
use crate::time::DateTime;
use crate::trusted;
use crate::version::{self, Version};

verus! {

/// The mathematical model of a change snapshot.
pub struct ChangeV {
    pub description: Seq<char>,
    pub priority: Priority,
    pub tags: Seq<Seq<char>>,
    pub commit: Option<Seq<char>>,
    pub completed_at: DateTime,
}

/// An immutable snapshot of a completed task at the moment of recording.
#[derive(Debug, Clone)]
pub struct Change {
    pub description: String,
    pub priority: Priority,
    pub tags: Vec<String>,
    pub commit: Option<String>,
    pub completed_at: DateTime,
}

impl View for Change {
    type V = ChangeV;

    open spec fn view(&self) -> ChangeV {
        ChangeV {
            description: self.description@,
            priority: self.priority,
            tags: self.tags.deep_view(),
            commit: crate::task::view_opt_string(self.commit),
            completed_at: self.completed_at,
        }
    }
}

impl DeepView for Change {
    type V = ChangeV;

    open spec fn deep_view(&self) -> ChangeV {
        self.view()
    }
}

/// The model of a ledger entry: a change and its release version, if one
/// was assigned.
pub struct HistoryEntryV {
    pub change: ChangeV,
    pub version: Option<Version>,
}

#[derive(Debug, Clone)]
pub struct HistoryEntry {
    pub change: Change,
    pub version: Option<Version>,
}

impl View for HistoryEntry {
    type V = HistoryEntryV;

    open spec fn view(&self) -> HistoryEntryV {
        HistoryEntryV { change: self.change@, version: self.version }
    }
}

impl DeepView for HistoryEntry {
    type V = HistoryEntryV;

    open spec fn deep_view(&self) -> HistoryEntryV {
        self.view()
    }
}

/// Copies a list of strings.
pub fn clone_strings(v: &Vec<String>) -> (r: Vec<String>)
    ensures
        r.deep_view() == v.deep_view(),
{
    let mut out: Vec<String> = Vec::new();
    let n = v.len();
    let mut i: usize = 0;
    while i < n
        invariant
            i <= n,
            n == v@.len(),
            n == v.deep_view().len(),
            out.deep_view() == v.deep_view().take(i as int),
        decreases n - i,
    {
        let ghost prev = out.deep_view();
        out.push(v[i].clone());
        proof {
            assert(v@[i as int]@ == v.deep_view()[i as int]);
            assert(out.deep_view() =~~= prev.push(v.deep_view()[i as int]));
            assert(out.deep_view() =~~= v.deep_view().take(i as int + 1));
        }
        i = i + 1;
    }
    proof {
        assert(v.deep_view().take(n as int) =~= v.deep_view());
    }
    out
}

fn clone_opt_string(v: &Option<String>) -> (r: Option<String>)
    ensures
        crate::task::view_opt_string(r) == crate::task::view_opt_string(*v),
{
    match v {
        Some(x) => Some(x.clone()),
        None => None,
    }
}

impl Change {
    /// A snapshot of the task's visible fields; the completion time falls
    /// back to the present moment when the task never recorded one.
    pub fn from_task(task: &Task) -> (r: Change)
        ensures
            r@.description == task@.description,
            r@.priority == task@.priority,
            r@.tags == task@.tags,
            r@.commit == task@.completed_at_commit,
            task@.completed_at_time matches Some(x) ==> r@.completed_at == x,
            task@.completed_at_time is None ==> r@.completed_at.well_formed()
                && r@.completed_at.year >= 1,
    {
        let completed_at = match &task.completed_at_time {
            Some(x) => *x,
            None => trusted::now_datetime(),
        };
        Change {
            description: task.description.clone(),
            priority: task.priority,
            tags: clone_strings(&task.tags),
            commit: clone_opt_string(&task.completed_at_commit),
            completed_at,
        }
    }
}

impl HistoryEntry {
    /// The ledger entry a completed task produces.
    pub fn from_task(task: &Task) -> (r: HistoryEntry)
        ensures
            r@.change.description == task@.description,
            r@.change.priority == task@.priority,
            r@.change.tags == task@.tags,
            r@.change.commit == task@.completed_at_commit,
            r@.version == task@.completed_at_version,
            task@.completed_at_time matches Some(x) ==> r@.change.completed_at == x,
    {
        HistoryEntry { change: Change::from_task(task), version: task.completed_at_version }
    }
}

/// Whether an optional commit hash is really there: present and non-empty.
pub open spec fn commit_present(c: Option<Seq<char>>) -> bool {
    match c {
        Some(x) => x.len() > 0,
        None => false,
    }
}

/// The duplicate rule.  Two entries name the same completed task when both
/// carry a non-empty commit hash and the hashes agree; with no commit hash
/// to go by, when description and assigned version both agree.
pub open spec fn same_entry(a: HistoryEntryV, b: HistoryEntryV) -> bool {
    if commit_present(a.change.commit) && commit_present(b.change.commit) {
        a.change.commit == b.change.commit
    } else {
        a.change.description == b.change.description && a.version == b.version
    }
}

/// Whether recording `t` would duplicate an existing entry.
pub open spec fn duplicates_task(e: HistoryEntryV, t: TaskV) -> bool {
    if commit_present(e.change.commit) && commit_present(t.completed_at_commit) {
        e.change.commit == t.completed_at_commit
    } else {
        e.change.description == t.description && e.version == t.completed_at_version
    }
}

pub open spec fn has_duplicate(entries: Seq<HistoryEntryV>, t: TaskV) -> bool {
    exists|k: int| 0 <= k < entries.len() && duplicates_task(#[trigger] entries[k], t)
}

/// The entry a task with a recorded completion time produces.
pub open spec fn entry_of(t: TaskV) -> HistoryEntryV {
    HistoryEntryV {
        change: ChangeV {
            description: t.description,
            priority: t.priority,
            tags: t.tags,
            commit: t.completed_at_commit,
            completed_at: match t.completed_at_time {
                Some(x) => x,
                None => t.created_at_time,
            },
        },
        version: t.completed_at_version,
    }
}

/// One recording step on the ledger model: completed, non-duplicate tasks
/// append their entry; everything else changes nothing.
pub open spec fn spec_record_step(entries: Seq<HistoryEntryV>, t: TaskV) -> Seq<HistoryEntryV> {
    if !t.completed || has_duplicate(entries, t) {
        entries
    } else {
        entries.push(entry_of(t))
    }
}

/// Recording a batch, first to last.
pub open spec fn spec_record_all(entries: Seq<HistoryEntryV>, ts: Seq<TaskV>) -> Seq<
    HistoryEntryV,
>
    decreases ts.len(),
{
    if ts.len() == 0 {
        entries
    } else {
        spec_record_all(spec_record_step(entries, ts[0]), ts.drop_first())
    }
}

/// Every entry with no version yet takes `v`; the rest stay.
pub open spec fn spec_assign(entries: Seq<HistoryEntryV>, v: Version) -> Seq<HistoryEntryV> {
    entries.map_values(
        |e: HistoryEntryV| if e.version is None {
            HistoryEntryV { version: Some(v), ..e }
        } else {
            e
        },
    )
}

pub open spec fn entry_unversioned(e: HistoryEntryV) -> bool {
    e.version is None
}

pub open spec fn entry_at_version(e: HistoryEntryV, v: Version) -> bool {
    e.version == Some(v)
}

pub open spec fn entry_in_range(e: HistoryEntryV, from: Version, to: Version) -> bool {
    match e.version {
        Some(v) => from.spec_le(v) && v.spec_le(to),
        None => false,
    }
}

pub open spec fn has_entry_at_version(es: Seq<HistoryEntryV>, v: Version) -> bool {
    exists|k: int| 0 <= k < es.len() && entry_at_version(#[trigger] es[k], v)
}

/// The in-memory ledger of completed-task snapshots.  Entries are only ever
/// appended, and an entry's version is set at most once.
#[derive(Debug)]
pub struct HistoryStorage {
    pub entries: Vec<HistoryEntry>,
}

impl View for HistoryStorage {
    type V = Seq<HistoryEntryV>;

    open spec fn view(&self) -> Seq<HistoryEntryV> {
        self.entries.deep_view()
    }
}

impl HistoryStorage {
    /// An empty ledger.
    pub fn new() -> (r: HistoryStorage)
        ensures
            r@.len() == 0,
    {
        HistoryStorage { entries: Vec::new() }
    }

    /// A ledger over previously loaded entries.
    pub fn from_entries(entries: Vec<HistoryEntry>) -> (r: HistoryStorage)
        ensures
            r@ == entries.deep_view(),
    {
        HistoryStorage { entries }
    }

    pub fn len(&self) -> (r: usize)
        ensures
            r == self@.len(),
    {
        self.entries.len()
    }

    pub fn is_empty(&self) -> (r: bool)
        ensures
            r == (self@.len() == 0),
    {
        self.entries.len() == 0
    }

    pub fn entries(&self) -> (r: &Vec<HistoryEntry>)
        ensures
            r.deep_view() == self@,
    {
        &self.entries
    }

    fn is_dup(&self, task: &Task) -> (r: bool)
        ensures
            r == has_duplicate(self@, task@),
    {
        let n = self.entries.len();
        let mut i: usize = 0;
        while i < n
            invariant
                i <= n,
                n == self.entries@.len(),
                n == self@.len(),
                forall|k: int| 0 <= k < i ==> !duplicates_task(#[trigger] self@[k], task@),
            decreases n - i,
        {
            proof {
                assert(self.entries@[i as int]@ == self@[i as int]);
            }
            let e = &self.entries[i];
            let e_commit_present = match &e.change.commit {
                Some(c) => c.as_str().unicode_len() > 0,
                None => false,
            };
            let t_commit_present = match &task.completed_at_commit {
                Some(c) => c.as_str().unicode_len() > 0,
                None => false,
            };
            let dup: bool = if e_commit_present && t_commit_present {
                match (&e.change.commit, &task.completed_at_commit) {
                    (Some(a), Some(b)) => a.eq(b),
                    _ => false,
                }
            } else {
                let desc_eq = e.change.description.eq(&task.description);
                let ver_eq = match (&e.version, &task.completed_at_version) {
                    (Some(a), Some(b)) => *a == *b,
                    (None, None) => true,
                    _ => false,
                };
                desc_eq && ver_eq
            };
            if dup {
                proof {
                    assert(duplicates_task(self@[i as int], task@));
                }
                return true;
            }
            i = i + 1;
        }
        false
    }

    fn insert_if_new(&mut self, task: &Task)
        ensures
            has_duplicate(old(self)@, task@) ==> *final(self) == *old(self),
            !has_duplicate(old(self)@, task@) ==> final(self)@.len() == old(self)@.len() + 1
                && (forall|k: int| 0 <= k < old(self)@.len() ==> final(self)@[k] == old(self)@[k]),
            !has_duplicate(old(self)@, task@) && task@.completed_at_time is Some
                ==> final(self)@ == old(self)@.push(entry_of(task@)),
    {
        if self.is_dup(task) {
            return ;
        }
        let candidate = HistoryEntry::from_task(task);
        let ghost prev = self@;
        let ghost cv = candidate@;
        self.entries.push(candidate);
        proof {
            assert(self@ =~~= prev.push(cv));
            if task@.completed_at_time is Some {
                assert(cv == entry_of(task@));
            }
        }
    }

    /// Records one completed task; an incomplete task is ignored, a
    /// duplicate is not re-added.
    pub fn record(&mut self, task: &Task)
        ensures
            !task@.completed ==> *final(self) == *old(self),
            has_duplicate(old(self)@, task@) ==> *final(self) == *old(self),
            task@.completed && task@.completed_at_time is Some ==> final(self)@
                == spec_record_step(old(self)@, task@),
            old(self)@.len() <= final(self)@.len(),
            forall|k: int| 0 <= k < old(self)@.len() ==> final(self)@[k] == old(self)@[k],
    {
        if !task.completed {
            return ;
        }
        self.insert_if_new(task);
    }

    /// Records a batch of tasks with the same insert-if-new rule.
    pub fn record_all(&mut self, tasks: &Vec<&Task>)
        ensures
            (forall|k: int|
                0 <= k < tasks.deep_view().len() ==> (#[trigger] tasks.deep_view()[k]).completed
                    ==> tasks.deep_view()[k].completed_at_time is Some) ==> final(self)@
                == spec_record_all(old(self)@, tasks.deep_view()),
            old(self)@.len() <= final(self)@.len(),
            forall|k: int| 0 <= k < old(self)@.len() ==> final(self)@[k] == old(self)@[k],
    {
        let ghost tv = tasks.deep_view();
        let n = tasks.len();
        let mut i: usize = 0;
        while i < n
            invariant
                i <= n,
                n == tasks@.len(),
                n == tv.len(),
                tv == tasks.deep_view(),
                (forall|k: int|
                    0 <= k < i ==> (#[trigger] tv[k]).completed ==> tv[k].completed_at_time
                        is Some) ==> self@ == spec_record_all(old(self)@, tv.take(i as int)),
                old(self)@.len() <= self@.len(),
                forall|k: int| 0 <= k < old(self)@.len() ==> self@[k] == old(self)@[k],
            decreases n - i,
        {
            proof {
                assert(tasks@[i as int]@ == tv[i as int]);
            }
            let ghost before = self@;
            if tasks[i].completed {
                self.insert_if_new(&tasks[i]);
            } else {
            }
            proof {
                lemma_record_all_snoc(old(self)@, tv, i as int);
                assert(tv.take(i as int + 1).drop_last() =~= tv.take(i as int));
                assert(tv.take(i as int + 1).last() == tv[i as int]);
                if !tv[i as int].completed {
                    assert(spec_record_step(spec_record_all(old(self)@, tv.take(i as int)),
                        tv[i as int]) == spec_record_all(old(self)@, tv.take(i as int)));
                }
            }
            i = i + 1;
        }
        proof {
            assert(tv.take(n as int) =~= tv);
        }
    }

    /// Gives every unversioned entry this version; returns how many were
    /// touched.  Versioned entries are never revisited.
    pub fn assign_version(&mut self, version: &Version) -> (r: usize)
        ensures
            final(self)@ == spec_assign(old(self)@, *version),
            r == old(self)@.filter(|e: HistoryEntryV| entry_unversioned(e)).len(),
            r == 0 ==> *final(self) == *old(self),
    {
        let ghost pred = |e: HistoryEntryV| entry_unversioned(e);
        let mut count: usize = 0;
        let n = self.entries.len();
        let mut i: usize = 0;
        proof {
            reveal(Seq::filter);
            assert(old(self)@.take(0int).filter(pred) =~= Seq::<HistoryEntryV>::empty());
        }
        while i < n
            invariant
                i <= n,
                n == self.entries@.len(),
                n == old(self)@.len(),
                n == self@.len(),
                count == old(self)@.take(i as int).filter(pred).len(),
                count <= i,
                forall|k: int| i <= k < n ==> #[trigger] self@[k] == old(self)@[k],
                forall|k: int|
                    0 <= k < i ==> #[trigger] self@[k] == (if entry_unversioned(old(self)@[k]) {
                        HistoryEntryV { version: Some(*version), ..old(self)@[k] }
                    } else {
                        old(self)@[k]
                    }),
                count == 0 ==> self.entries == old(self).entries,
                pred == (|e: HistoryEntryV| entry_unversioned(e)),
            decreases n - i,
        {
            proof {
                seqs::lemma_filter_take_step(old(self)@, pred, i as int);
                assert(self.entries@[i as int]@ == self@[i as int]);
            }
            let touch = self.entries[i].version.is_none();
            let ghost prev_deep = self@;
            let ghost prev_vec = self.entries@;
            if touch {
                self.entries[i].version = Some(*version);
                count = count + 1;
                proof {
                    assert(self.entries@[i as int]@ == self@[i as int]);
                    assert forall|k: int| 0 <= k < n implies #[trigger] self@[k] == (if k == i {
                        HistoryEntryV { version: Some(*version), ..prev_deep[k] }
                    } else {
                        prev_deep[k]
                    }) by {
                        if k != i {
                            assert(self.entries@[k] == prev_vec[k]);
                            assert(self.entries@[k]@ == self@[k]);
                            assert(prev_vec[k]@ == prev_deep[k]);
                        }
                    }
                }
            }
            i = i + 1;
        }
        proof {
            seqs::lemma_take_all(old(self)@);
            assert(self@ =~~= spec_assign(old(self)@, *version));
        }
        count
    }

    /// The entries assigned exactly this version, in ledger order.
    pub fn entries_for_version<'a>(&'a self, version: &Version) -> (r: Vec<&'a HistoryEntry>)
        ensures
            r.deep_view() == self@.filter(|e: HistoryEntryV| entry_at_version(e, *version)),
    {
        let ghost pred = |e: HistoryEntryV| entry_at_version(e, *version);
        let mut out: Vec<&HistoryEntry> = Vec::new();
        let n = self.entries.len();
        let mut i: usize = 0;
        proof {
            reveal(Seq::filter);
            assert(self@.take(0int).filter(pred) =~= Seq::<HistoryEntryV>::empty());
        }
        while i < n
            invariant
                i <= n,
                n == self.entries@.len(),
                n == self@.len(),
                out.deep_view() == self@.take(i as int).filter(pred),
                pred == (|e: HistoryEntryV| entry_at_version(e, *version)),
            decreases n - i,
        {
            let keep = match &self.entries[i].version {
                Some(x) => *x == *version,
                None => false,
            };
            proof {
                assert(self.entries@[i as int]@ == self@[i as int]);
                seqs::lemma_filter_take_step(self@, pred, i as int);
            }
            if keep {
                let ghost prev = out.deep_view();
                out.push(&self.entries[i]);
                proof {
                    assert(out.deep_view() =~= prev.push(self@[i as int]));
                }
            }
            i = i + 1;
        }
        proof {
            seqs::lemma_take_all(self@);
        }
        out
    }

    /// The entries whose version lies in the inclusive range, in ledger
    /// order.
    pub fn entries_between_versions<'a>(&'a self, from: &Version, to: &Version) -> (r: Vec<
        &'a HistoryEntry,
    >)
        ensures
            r.deep_view() == self@.filter(|e: HistoryEntryV| entry_in_range(e, *from, *to)),
    {
        let ghost pred = |e: HistoryEntryV| entry_in_range(e, *from, *to);
        let mut out: Vec<&HistoryEntry> = Vec::new();
        let n = self.entries.len();
        let mut i: usize = 0;
        proof {
            reveal(Seq::filter);
            assert(self@.take(0int).filter(pred) =~= Seq::<HistoryEntryV>::empty());
        }
        while i < n
            invariant
                i <= n,
                n == self.entries@.len(),
                n == self@.len(),
                out.deep_view() == self@.take(i as int).filter(pred),
                pred == (|e: HistoryEntryV| entry_in_range(e, *from, *to)),
            decreases n - i,
        {
            let keep = match &self.entries[i].version {
                Some(x) => from.le(x) && x.le(to),
                None => false,
            };
            proof {
                assert(self.entries@[i as int]@ == self@[i as int]);
                seqs::lemma_filter_take_step(self@, pred, i as int);
            }
            if keep {
                let ghost prev = out.deep_view();
                out.push(&self.entries[i]);
                proof {
                    assert(out.deep_view() =~= prev.push(self@[i as int]));
                }
            }
            i = i + 1;
        }
        proof {
            seqs::lemma_take_all(self@);
        }
        out
    }

    /// The entries that still await a version, in ledger order.
    pub fn unversioned_entries<'a>(&'a self) -> (r: Vec<&'a HistoryEntry>)
        ensures
            r.deep_view() == self@.filter(|e: HistoryEntryV| entry_unversioned(e)),
    {
        let ghost pred = |e: HistoryEntryV| entry_unversioned(e);
        let mut out: Vec<&HistoryEntry> = Vec::new();
        let n = self.entries.len();
        let mut i: usize = 0;
        proof {
            reveal(Seq::filter);
            assert(self@.take(0int).filter(pred) =~= Seq::<HistoryEntryV>::empty());
        }
        while i < n
            invariant
                i <= n,
                n == self.entries@.len(),
                n == self@.len(),
                out.deep_view() == self@.take(i as int).filter(pred),
                pred == (|e: HistoryEntryV| entry_unversioned(e)),
            decreases n - i,
        {
            let keep = self.entries[i].version.is_none();
            proof {
                assert(self.entries@[i as int]@ == self@[i as int]);
                seqs::lemma_filter_take_step(self@, pred, i as int);
            }
            if keep {
                let ghost prev = out.deep_view();
                out.push(&self.entries[i]);
                proof {
                    assert(out.deep_view() =~= prev.push(self@[i as int]));
                }
            }
            i = i + 1;
        }
        proof {
            seqs::lemma_take_all(self@);
        }
        out
    }

    /// The versioned entries grouped by version, versions ascending.
    pub fn entries_by_version<'a>(&'a self) -> (r: Vec<(Version, Vec<&'a HistoryEntry>)>)
        ensures
            forall|i: int, j: int| 0 <= i < j < r@.len() ==> r@[i].0.spec_lt(r@[j].0),
            forall|i: int|
                0 <= i < r@.len() ==> (#[trigger] r@[i]).1.deep_view() == self@.filter(
                    |e: HistoryEntryV| entry_at_version(e, r@[i].0),
                ),
            forall|i: int|
                0 <= i < r@.len() ==> has_entry_at_version(self@, (#[trigger] r@[i]).0),
            forall|v: Version|
                has_entry_at_version(self@, v) ==> exists|i: int|
                    0 <= i < r@.len() && (#[trigger] r@[i]).0 == v,
    {
        let mut opts: Vec<Option<Version>> = Vec::new();
        let n = self.entries.len();
        let mut i: usize = 0;
        while i < n
            invariant
                i <= n,
                n == self.entries@.len(),
                n == self@.len(),
                opts@.len() == i,
                forall|k: int| 0 <= k < i ==> #[trigger] opts@[k] == self@[k].version,
            decreases n - i,
        {
            opts.push(self.entries[i].version);
            proof {
                assert(self.entries@[i as int]@ == self@[i as int]);
            }
            i = i + 1;
        }
        let keys = version::sorted_unique_versions(&opts);
        proof {
            assert forall|v: Version| keys@.contains(v) implies has_entry_at_version(
                self@,
                v,
            ) by {
                let k = choose|k: int| 0 <= k < opts@.len() && #[trigger] opts@[k] == Some(v);
                assert(entry_at_version(self@[k], v));
            }
            assert forall|v: Version| has_entry_at_version(self@, v) implies keys@.contains(
                v,
            ) by {
                let k = choose|k: int|
                    0 <= k < self@.len() && entry_at_version(#[trigger] self@[k], v);
                assert(opts@[k] == Some(v));
                assert(opts@.contains(Some(v)));
            }
        }
        let mut out: Vec<(Version, Vec<&HistoryEntry>)> = Vec::new();
        let m = keys.len();
        let mut j: usize = 0;
        while j < m
            invariant
                j <= m,
                m == keys@.len(),
                out@.len() == j,
                forall|t: int| 0 <= t < j ==> (#[trigger] out@[t]).0 == keys@[t],
                forall|t: int|
                    0 <= t < j ==> (#[trigger] out@[t]).1.deep_view() == self@.filter(
                        |e: HistoryEntryV| entry_at_version(e, out@[t].0),
                    ),
            decreases m - j,
        {
            let key = keys[j];
            let group = self.entries_for_version(&key);
            out.push((key, group));
            j = j + 1;
        }
        proof {
            assert forall|v: Version|
                has_entry_at_version(self@, v) implies exists|i2: int|
                0 <= i2 < out@.len() && (#[trigger] out@[i2]).0 == v by {
                assert(keys@.contains(v));
                let t = choose|t: int| 0 <= t < keys@.len() && keys@[t] == v;
                assert(out@[t].0 == v);
            }
            assert forall|i2: int| 0 <= i2 < out@.len() implies has_entry_at_version(
                self@,
                (#[trigger] out@[i2]).0,
            ) by {
                assert(keys@.contains(keys@[i2]));
            }
        }
        out
    }
}

proof fn lemma_record_all_snoc(entries: Seq<HistoryEntryV>, ts: Seq<TaskV>, i: int)
    requires
        0 <= i < ts.len(),
    ensures
        spec_record_all(entries, ts.take(i + 1)) == spec_record_step(
            spec_record_all(entries, ts.take(i)),
            ts[i],
        ),
    decreases i,
{
    if i == 0 {
        assert(ts.take(1).drop_first() =~= Seq::<TaskV>::empty());
        assert(ts.take(1)[0] == ts[0]);
        assert(ts.take(0) =~= Seq::<TaskV>::empty());
        assert(spec_record_all(entries, ts.take(0)) == entries);
        assert(spec_record_all(spec_record_step(entries, ts[0]), Seq::<TaskV>::empty())
            == spec_record_step(entries, ts[0]));
        assert(ts.take(1).drop_first() =~= ts.take(1).skip(1));
    } else {
        lemma_record_all_snoc(spec_record_step(entries, ts[0]), ts.drop_first(), i - 1);
        assert(ts.take(i + 1)[0] == ts[0]);
        assert(ts.take(i + 1).drop_first() =~= ts.drop_first().take(i));
        assert(ts.take(i)[0] == ts[0]);
        assert(ts.take(i).drop_first() =~= ts.drop_first().take(i - 1));
        assert(ts.drop_first()[i - 1] == ts[i]);
    }
}

/// Once a version sweep has run, nothing is left unversioned: a second
/// sweep touches zero entries and leaves the ledger as it stands.
pub proof fn lemma_assign_version_idempotent(entries: Seq<HistoryEntryV>, v: Version, w: Version)
    ensures
        spec_assign(entries, v).filter(|e: HistoryEntryV| entry_unversioned(e)).len() == 0,
        spec_assign(spec_assign(entries, v), w) == spec_assign(entries, v),
{
    let once = spec_assign(entries, v);
    assert(forall|k: int| 0 <= k < once.len() ==> !entry_unversioned(#[trigger] once[k]));
    lemma_no_match_filter_empty(once);
    assert(spec_assign(once, w) =~= once);
}

proof fn lemma_no_match_filter_empty(es: Seq<HistoryEntryV>)
    requires
        forall|k: int| 0 <= k < es.len() ==> !entry_unversioned(#[trigger] es[k]),
    ensures
        es.filter(|e: HistoryEntryV| entry_unversioned(e)).len() == 0,
    decreases es.len(),
{
    reveal(Seq::filter);
    if es.len() > 0 {
        assert(forall|k: int|
            0 <= k < es.len() - 1 ==> es.drop_last()[k] == #[trigger] es[k]);
        lemma_no_match_filter_empty(es.drop_last());
    }
}

} // verus!
