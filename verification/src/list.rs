//! A task list with project metadata, and its query and mutation
//! operations.

use vstd::prelude::*;

use crate::seqs;
use crate::task::{Task, TaskV};
use crate::time::DateTime;
use crate::trusted;
use crate::version::{self, Version};

verus! {

/// The mathematical model of a list.
pub struct ListV {
    pub project_name: Seq<char>,
    pub project_version: Version,
    pub created_at: DateTime,
    pub modified_at: DateTime,
    pub tasks: Seq<TaskV>,
}

#[derive(Debug, Clone)]
pub struct List {
    pub project_name: String,
    pub project_version: Version,
    pub created_at: DateTime,
    pub modified_at: DateTime,
    pub tasks: Vec<Task>,
}

impl View for List {
    type V = ListV;

    open spec fn view(&self) -> ListV {
        ListV {
            project_name: self.project_name@,
            project_version: self.project_version,
            created_at: self.created_at,
            modified_at: self.modified_at,
            tasks: self.tasks.deep_view(),
        }
    }
}

/// Whether a task was completed at exactly this version.
pub open spec fn task_at_version(t: TaskV, v: Version) -> bool {
    t.completed_at_version == Some(v)
}

/// Whether a task's completion version lies in the inclusive range.
pub open spec fn task_in_version_range(t: TaskV, from: Version, to: Version) -> bool {
    match t.completed_at_version {
        Some(v) => from.spec_le(v) && v.spec_le(to),
        None => false,
    }
}

/// Whether a task is completed but not yet assigned a version.
pub open spec fn task_unversioned(t: TaskV) -> bool {
    t.completed && t.completed_at_version is None
}

/// Whether some task in the sequence was completed at this version.
pub open spec fn has_task_at_version(ts: Seq<TaskV>, v: Version) -> bool {
    exists|k: int| 0 <= k < ts.len() && task_at_version(#[trigger] ts[k], v)
}

impl List {
    /// A new empty list created now.
    pub fn new(project_name: String, project_version: Version) -> (r: List)
        ensures
            r@.project_name == project_name@,
            r@.project_version == project_version,
            r@.tasks.len() == 0,
            r@.created_at == r@.modified_at,
            r@.created_at.well_formed(),
            r@.created_at.year >= 1,
    {
        let now = trusted::now_datetime();
        List {
            project_name,
            project_version,
            created_at: now,
            modified_at: now,
            tasks: Vec::new(),
        }
    }

    /// Appends a task and bumps the modification date.
    pub fn add_task(&mut self, task: Task)
        ensures
            final(self)@.tasks == old(self)@.tasks.push(task@),
            final(self)@.project_name == old(self)@.project_name,
            final(self)@.project_version == old(self)@.project_version,
            final(self)@.created_at == old(self)@.created_at,
            final(self)@.modified_at.well_formed(),
            final(self)@.modified_at.year >= 1,
    {
        self.tasks.push(task);
        self.modified_at = trusted::now_datetime();
        proof {
            assert(self.tasks.deep_view() =~= old(self)@.tasks.push(task@));
        }
    }

    /// The tasks completed at exactly this version, in list order.
    pub fn tasks_for_version<'a>(&'a self, v: &Version) -> (r: Vec<&'a Task>)
        ensures
            r.deep_view() == self@.tasks.filter(|t: TaskV| task_at_version(t, *v)),
    {
        let ghost pred = |t: TaskV| task_at_version(t, *v);
        let mut out: Vec<&Task> = Vec::new();
        let n = self.tasks.len();
        let mut i: usize = 0;
        proof {
            reveal(Seq::filter);
            assert(self@.tasks.take(0int).filter(pred) =~= Seq::<TaskV>::empty());
        }
        while i < n
            invariant
                i <= n,
                n == self@.tasks.len(),
                n == self.tasks@.len(),
                out.deep_view() == self@.tasks.take(i as int).filter(pred),
                pred == (|t: TaskV| task_at_version(t, *v)),
            decreases n - i,
        {
            let keep = match &self.tasks[i].completed_at_version {
                Some(x) => *x == *v,
                None => false,
            };
            proof {
                assert(self.tasks@[i as int]@ == self@.tasks[i as int]);
                seqs::lemma_filter_take_step(self@.tasks, pred, i as int);
            }
            if keep {
                let ghost prev_out = out.deep_view();
                out.push(&self.tasks[i]);
                proof {
                    assert(out.deep_view() =~= prev_out.push(self@.tasks[i as int]));
                }
            }
            i = i + 1;
        }
        proof {
            seqs::lemma_take_all(self@.tasks);
        }
        out
    }

    /// The tasks whose completion version lies in the inclusive range, in
    /// list order.
    pub fn tasks_between_versions<'a>(&'a self, from: &Version, to: &Version) -> (r: Vec<
        &'a Task,
    >)
        ensures
            r.deep_view() == self@.tasks.filter(
                |t: TaskV| task_in_version_range(t, *from, *to),
            ),
    {
        let ghost pred = |t: TaskV| task_in_version_range(t, *from, *to);
        let mut out: Vec<&Task> = Vec::new();
        let n = self.tasks.len();
        let mut i: usize = 0;
        proof {
            reveal(Seq::filter);
            assert(self@.tasks.take(0int).filter(pred) =~= Seq::<TaskV>::empty());
        }
        while i < n
            invariant
                i <= n,
                n == self@.tasks.len(),
                n == self.tasks@.len(),
                out.deep_view() == self@.tasks.take(i as int).filter(pred),
                pred == (|t: TaskV| task_in_version_range(t, *from, *to)),
            decreases n - i,
        {
            let keep = match &self.tasks[i].completed_at_version {
                Some(x) => from.le(x) && x.le(to),
                None => false,
            };
            proof {
                assert(self.tasks@[i as int]@ == self@.tasks[i as int]);
                seqs::lemma_filter_take_step(self@.tasks, pred, i as int);
            }
            if keep {
                let ghost prev_out = out.deep_view();
                out.push(&self.tasks[i]);
                proof {
                    assert(out.deep_view() =~= prev_out.push(self@.tasks[i as int]));
                }
            }
            i = i + 1;
        }
        proof {
            seqs::lemma_take_all(self@.tasks);
        }
        out
    }

    /// The completed tasks that have no version yet, in list order.
    pub fn unversioned_completed_tasks<'a>(&'a self) -> (r: Vec<&'a Task>)
        ensures
            r.deep_view() == self@.tasks.filter(|t: TaskV| task_unversioned(t)),
    {
        let ghost pred = |t: TaskV| task_unversioned(t);
        let mut out: Vec<&Task> = Vec::new();
        let n = self.tasks.len();
        let mut i: usize = 0;
        proof {
            reveal(Seq::filter);
            assert(self@.tasks.take(0int).filter(pred) =~= Seq::<TaskV>::empty());
        }
        while i < n
            invariant
                i <= n,
                n == self@.tasks.len(),
                n == self.tasks@.len(),
                out.deep_view() == self@.tasks.take(i as int).filter(pred),
                pred == (|t: TaskV| task_unversioned(t)),
            decreases n - i,
        {
            let keep = self.tasks[i].completed && self.tasks[i].completed_at_version.is_none();
            proof {
                assert(self.tasks@[i as int]@ == self@.tasks[i as int]);
                seqs::lemma_filter_take_step(self@.tasks, pred, i as int);
            }
            if keep {
                let ghost prev_out = out.deep_view();
                out.push(&self.tasks[i]);
                proof {
                    assert(out.deep_view() =~= prev_out.push(self@.tasks[i as int]));
                }
            }
            i = i + 1;
        }
        proof {
            seqs::lemma_take_all(self@.tasks);
        }
        out
    }

    /// The completed tasks grouped by their version, versions ascending.
    pub fn tasks_by_version<'a>(&'a self) -> (r: Vec<(Version, Vec<&'a Task>)>)
        ensures
            forall|i: int, j: int| 0 <= i < j < r@.len() ==> r@[i].0.spec_lt(r@[j].0),
            forall|i: int|
                0 <= i < r@.len() ==> (#[trigger] r@[i]).1.deep_view() == self@.tasks.filter(
                    |t: TaskV| task_at_version(t, r@[i].0),
                ),
            forall|i: int|
                0 <= i < r@.len() ==> has_task_at_version(self@.tasks, (#[trigger] r@[i]).0),
            forall|v: Version|
                has_task_at_version(self@.tasks, v) ==> exists|i: int|
                    0 <= i < r@.len() && (#[trigger] r@[i]).0 == v,
    {
        let mut opts: Vec<Option<Version>> = Vec::new();
        let n = self.tasks.len();
        let mut i: usize = 0;
        while i < n
            invariant
                i <= n,
                n == self@.tasks.len(),
                n == self.tasks@.len(),
                opts@.len() == i,
                forall|k: int|
                    0 <= k < i ==> #[trigger] opts@[k] == self@.tasks[k].completed_at_version,
            decreases n - i,
        {
            opts.push(self.tasks[i].completed_at_version);
            proof {
                assert(self.tasks@[i as int]@ == self@.tasks[i as int]);
            }
            i = i + 1;
        }
        let keys = version::sorted_unique_versions(&opts);
        proof {
            assert forall|v: Version| keys@.contains(v) implies has_task_at_version(
                self@.tasks,
                v,
            ) by {
                let k = choose|k: int| 0 <= k < opts@.len() && #[trigger] opts@[k] == Some(v);
                assert(task_at_version(self@.tasks[k], v));
            }
            assert forall|v: Version| has_task_at_version(self@.tasks, v) implies keys@.contains(
                v,
            ) by {
                let k = choose|k: int|
                    0 <= k < self@.tasks.len() && task_at_version(#[trigger] self@.tasks[k], v);
                assert(opts@[k] == Some(v));
                assert(opts@.contains(Some(v)));
            }
        }
        let mut out: Vec<(Version, Vec<&Task>)> = Vec::new();
        let m = keys.len();
        let mut j: usize = 0;
        while j < m
            invariant
                j <= m,
                m == keys@.len(),
                out@.len() == j,
                forall|t: int| 0 <= t < j ==> (#[trigger] out@[t]).0 == keys@[t],
                forall|t: int|
                    0 <= t < j ==> (#[trigger] out@[t]).1.deep_view() == self@.tasks.filter(
                        |tv: TaskV| task_at_version(tv, out@[t].0),
                    ),
            decreases m - j,
        {
            let key = keys[j];
            let group = self.tasks_for_version(&key);
            out.push((key, group));
            j = j + 1;
        }
        proof {
            assert forall|v: Version|
                has_task_at_version(self@.tasks, v) implies exists|i2: int|
                0 <= i2 < out@.len() && (#[trigger] out@[i2]).0 == v by {
                assert(keys@.contains(v));
                let t = choose|t: int| 0 <= t < keys@.len() && keys@[t] == v;
                assert(out@[t].0 == v);
            }
            assert forall|i2: int| 0 <= i2 < out@.len() implies has_task_at_version(
                self@.tasks,
                (#[trigger] out@[i2]).0,
            ) by {
                assert(keys@.contains(keys@[i2]));
            }
        }
        out
    }

    /// Gives every completed-but-unversioned task this version; returns how
    /// many were touched.  The modification date moves only when at least
    /// one was.
    pub fn assign_version_to_completed(&mut self, v: Version) -> (r: usize)
        ensures
            r == old(self)@.tasks.filter(|t: TaskV| task_unversioned(t)).len(),
            final(self)@.tasks.len() == old(self)@.tasks.len(),
            forall|i: int|
                0 <= i < old(self)@.tasks.len() ==> #[trigger] final(self)@.tasks[i] == (
                if task_unversioned(old(self)@.tasks[i]) {
                    TaskV { completed_at_version: Some(v), ..old(self)@.tasks[i] }
                } else {
                    old(self)@.tasks[i]
                }),
            final(self)@.project_name == old(self)@.project_name,
            final(self)@.project_version == old(self)@.project_version,
            final(self)@.created_at == old(self)@.created_at,
            r == 0 ==> *final(self) == *old(self),
            r > 0 ==> final(self)@.modified_at.well_formed() && final(self)@.modified_at.year
                >= 1,
    {
        let ghost pred = |t: TaskV| task_unversioned(t);
        let mut count: usize = 0;
        let n = self.tasks.len();
        let mut i: usize = 0;
        proof {
            reveal(Seq::filter);
            assert(old(self)@.tasks.take(0int).filter(pred) =~= Seq::<TaskV>::empty());
        }
        while i < n
            invariant
                i <= n,
                n == old(self)@.tasks.len(),
                n == self.tasks@.len(),
                count == old(self)@.tasks.take(i as int).filter(pred).len(),
                count <= i,
                self.project_name == old(self).project_name,
                self.project_version == old(self).project_version,
                self.created_at == old(self).created_at,
                self.modified_at == old(self).modified_at,
                forall|k: int|
                    i <= k < n ==> #[trigger] self.tasks.deep_view()[k] == old(
                        self,
                    )@.tasks[k],
                forall|k: int|
                    0 <= k < i ==> #[trigger] self.tasks.deep_view()[k] == (if task_unversioned(
                        old(self)@.tasks[k],
                    ) {
                        TaskV { completed_at_version: Some(v), ..old(self)@.tasks[k] }
                    } else {
                        old(self)@.tasks[k]
                    }),
                count == 0 ==> self.tasks == old(self).tasks,
                pred == (|t: TaskV| task_unversioned(t)),
            decreases n - i,
        {
            proof {
                seqs::lemma_filter_take_step(old(self)@.tasks, pred, i as int);
                assert(self.tasks@[i as int]@ == self.tasks.deep_view()[i as int]);
            }
            let touch = self.tasks[i].completed && self.tasks[i].completed_at_version.is_none();
            let ghost prev_deep = self.tasks.deep_view();
            let ghost prev_vec = self.tasks@;
            if touch {
                self.tasks[i].completed_at_version = Some(v);
                count = count + 1;
                proof {
                    assert(self.tasks@[i as int]@ == self.tasks.deep_view()[i as int]);
                    assert forall|k: int| 0 <= k < n implies #[trigger] self.tasks.deep_view()[k]
                        == (if k == i {
                        TaskV { completed_at_version: Some(v), ..prev_deep[k] }
                    } else {
                        prev_deep[k]
                    }) by {
                        if k != i {
                            assert(self.tasks@[k] == prev_vec[k]);
                            assert(self.tasks@[k]@ == self.tasks.deep_view()[k]);
                            assert(prev_vec[k]@ == prev_deep[k]);
                        }
                    }
                }
            }
            i = i + 1;
        }
        proof {
            seqs::lemma_take_all(old(self)@.tasks);
        }
        if count > 0 {
            self.modified_at = trusted::now_datetime();
        }
        proof {
            if count == 0 {
                assert(self.tasks@ =~= old(self).tasks@);
            }
        }
        count
    }
}


/// Once a version sweep has run over the tasks, no completed task is left
/// unversioned: a second sweep touches zero tasks and changes nothing.
pub proof fn lemma_assign_to_completed_idempotent(before: Seq<TaskV>, after: Seq<TaskV>, v: Version)
    requires
        after.len() == before.len(),
        forall|i: int|
            0 <= i < before.len() ==> #[trigger] after[i] == (if task_unversioned(before[i]) {
                TaskV { completed_at_version: Some(v), ..before[i] }
            } else {
                before[i]
            }),
    ensures
        after.filter(|t: TaskV| task_unversioned(t)).len() == 0,
{
    assert(forall|i: int| 0 <= i < after.len() ==> !task_unversioned(#[trigger] after[i]));
    lemma_no_unversioned_filter_empty(after);
}

proof fn lemma_no_unversioned_filter_empty(ts: Seq<TaskV>)
    requires
        forall|i: int| 0 <= i < ts.len() ==> !task_unversioned(#[trigger] ts[i]),
    ensures
        ts.filter(|t: TaskV| task_unversioned(t)).len() == 0,
    decreases ts.len(),
{
    reveal(Seq::filter);
    if ts.len() > 0 {
        assert(forall|i: int| 0 <= i < ts.len() - 1 ==> ts.drop_last()[i] == #[trigger] ts[i]);
        lemma_no_unversioned_filter_empty(ts.drop_last());
    }
}

} // verus!
