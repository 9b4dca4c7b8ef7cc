//! The list behind its storage wrapper: every mutation the commands
//! perform, with index bounds checked rather than trusted.  Persistence —
//! reading and rewriting the backing file — belongs to the program around
//! the library, which saves after each mutating call here.

use vstd::prelude::*;

use crate::error::NotFoundError;
use crate::list::List;
use crate::seqs;
use crate::task::{Priority, Task, TaskV};
use crate::text;
use crate::time::DateTime;
use crate::trusted::{self, lower_of};
use crate::version::Version;

verus! {

/// Whether a task's description, lowercased, contains the lowercased
/// pattern.
pub open spec fn task_matches_pattern(t: TaskV, pattern: Seq<char>) -> bool {
    text::spec_contains(lower_of(t.description), lower_of(pattern))
}

/// A task list and its mutations.  Each mutation bumps the modification
/// date; the caller persists the list afterwards.
#[derive(Debug)]
pub struct ListStorage {
    pub todo_list: List,
}

impl View for ListStorage {
    type V = crate::list::ListV;

    open spec fn view(&self) -> crate::list::ListV {
        self.todo_list@
    }
}

impl ListStorage {
    /// Wraps a loaded list.
    pub fn new(todo_list: List) -> (r: ListStorage)
        ensures
            r@ == todo_list@,
    {
        ListStorage { todo_list }
    }

    pub fn list(&self) -> (r: &List)
        ensures
            r@ == self@,
    {
        &self.todo_list
    }

    pub fn tasks(&self) -> (r: &Vec<Task>)
        ensures
            r.deep_view() == self@.tasks,
    {
        &self.todo_list.tasks
    }

    /// Appends a task.
    pub fn add_task(&mut self, task: Task)
        ensures
            final(self)@.tasks == old(self)@.tasks.push(task@),
            final(self)@.project_name == old(self)@.project_name,
            final(self)@.project_version == old(self)@.project_version,
            final(self)@.created_at == old(self)@.created_at,
    {
        self.todo_list.add_task(task);
    }

    /// Removes the task at `index`, yielding it; out of range yields
    /// nothing and changes nothing.
    pub fn remove_task(&mut self, index: usize) -> (r: Option<Task>)
        ensures
            index < old(self)@.tasks.len() ==> (r matches Some(t) && t@ == old(self)@.tasks[
                index as int] && final(self)@.tasks == old(self)@.tasks.remove(index as int)
                && final(self)@.project_name == old(self)@.project_name && final(self)@.project_version == old(self)@.project_version),
            index >= old(self)@.tasks.len() ==> r is None && *final(self) == *old(self),
    {
        if index < self.todo_list.tasks.len() {
            proof {
                assert(self.todo_list.tasks@[index as int]@ == self@.tasks[index as int]);
            }
            let task = self.todo_list.tasks.remove(index);
            self.todo_list.modified_at = trusted::now_datetime();
            proof {
                assert(self.todo_list.tasks.deep_view() =~~= old(self)@.tasks.remove(
                    index as int,
                ));
            }
            Some(task)
        } else {
            None
        }
    }

    /// Marks the task at `index` complete now; out of range fails and
    /// changes nothing.
    pub fn complete_task(&mut self, index: usize, version: Option<Version>) -> (r: Result<
        (),
        NotFoundError,
    >)
        ensures
            index < old(self)@.tasks.len() ==> r is Ok && final(self)@.tasks.len() == old(self)@.tasks.len() && (forall|k: int|
                0 <= k < old(self)@.tasks.len() && k != index ==> final(self)@.tasks[k] == old(self)@.tasks[k]) && final(self)@.tasks[index as int].completed && final(self)@.tasks[index as int].completed_at_time is Some && final(self)@.tasks[
                index as int].description == old(self)@.tasks[index as int].description && (
            version matches Some(v) ==> final(self)@.tasks[index as int].completed_at_version
                == Some(v)) && (version is None ==> final(self)@.tasks[
                index as int].completed_at_version == old(self)@.tasks[
                index as int].completed_at_version),
            index >= old(self)@.tasks.len() ==> r is Err && *final(self) == *old(self),
    {
        if index < self.todo_list.tasks.len() {
            let ghost prev = self@.tasks;
            let ghost prev_vec = self.todo_list.tasks@;
            self.todo_list.tasks[index].completed = true;
            self.todo_list.tasks[index].completed_at_time = Some(trusted::now_datetime());
            match version {
                Some(v) => {
                    self.todo_list.tasks[index].completed_at_version = Some(v);
                },
                None => {},
            }
            self.todo_list.modified_at = trusted::now_datetime();
            proof {
                assert forall|k: int|
                    0 <= k < prev.len() && k != index implies #[trigger] self@.tasks[k] == prev[
                    k] by {
                    assert(self.todo_list.tasks@[k] == prev_vec[k]);
                    assert(self.todo_list.tasks@[k]@ == self@.tasks[k]);
                    assert(prev_vec[k]@ == prev[k]);
                }
            }
            Ok(())
        } else {
            Err(NotFoundError::new("Task index out of bounds".to_owned()))
        }
    }

    /// Marks the task at `index` incomplete again, clearing its completion
    /// metadata; out of range fails and changes nothing.
    pub fn uncomplete_task(&mut self, index: usize) -> (r: Result<(), NotFoundError>)
        ensures
            index < old(self)@.tasks.len() ==> r is Ok && final(self)@.tasks.len() == old(self)@.tasks.len() && (forall|k: int|
                0 <= k < old(self)@.tasks.len() && k != index ==> final(self)@.tasks[k] == old(self)@.tasks[k]) && final(self)@.tasks[index as int] == (TaskV {
                completed: false,
                completed_at_time: None,
                completed_at_version: None,
                completed_at_commit: None,
                ..old(self)@.tasks[index as int]
            }),
            index >= old(self)@.tasks.len() ==> r is Err && *final(self) == *old(self),
    {
        if index < self.todo_list.tasks.len() {
            let ghost prev = self@.tasks;
            let ghost prev_vec = self.todo_list.tasks@;
            self.todo_list.tasks[index].completed = false;
            self.todo_list.tasks[index].completed_at_time = None;
            self.todo_list.tasks[index].completed_at_version = None;
            self.todo_list.tasks[index].completed_at_commit = None;
            self.todo_list.modified_at = trusted::now_datetime();
            proof {
                assert forall|k: int|
                    0 <= k < prev.len() && k != index implies #[trigger] self@.tasks[k] == prev[
                    k] by {
                    assert(self.todo_list.tasks@[k] == prev_vec[k]);
                    assert(self.todo_list.tasks@[k]@ == self@.tasks[k]);
                    assert(prev_vec[k]@ == prev[k]);
                }
            }
            Ok(())
        } else {
            Err(NotFoundError::new("Task index out of bounds".to_owned()))
        }
    }

    /// Replaces the description of the task at `index`.
    pub fn update_task_description(&mut self, index: usize, description: String) -> (r: Result<
        (),
        NotFoundError,
    >)
        ensures
            index < old(self)@.tasks.len() ==> r is Ok && final(self)@.tasks.len() == old(self)@.tasks.len() && (forall|k: int|
                0 <= k < old(self)@.tasks.len() && k != index ==> final(self)@.tasks[k] == old(self)@.tasks[k]) && final(self)@.tasks[index as int] == (TaskV {
                description: description@,
                ..old(self)@.tasks[index as int]
            }),
            index >= old(self)@.tasks.len() ==> r is Err && *final(self) == *old(self),
    {
        if index < self.todo_list.tasks.len() {
            let ghost prev = self@.tasks;
            let ghost prev_vec = self.todo_list.tasks@;
            self.todo_list.tasks[index].description = description;
            self.todo_list.modified_at = trusted::now_datetime();
            proof {
                assert forall|k: int|
                    0 <= k < prev.len() && k != index implies #[trigger] self@.tasks[k] == prev[
                    k] by {
                    assert(self.todo_list.tasks@[k] == prev_vec[k]);
                    assert(self.todo_list.tasks@[k]@ == self@.tasks[k]);
                    assert(prev_vec[k]@ == prev[k]);
                }
            }
            Ok(())
        } else {
            Err(NotFoundError::new("Task index out of bounds".to_owned()))
        }
    }

    /// Replaces the priority of the task at `index`.
    pub fn update_task_priority(&mut self, index: usize, priority: Priority) -> (r: Result<
        (),
        NotFoundError,
    >)
        ensures
            index < old(self)@.tasks.len() ==> r is Ok && final(self)@.tasks.len() == old(self)@.tasks.len() && (forall|k: int|
                0 <= k < old(self)@.tasks.len() && k != index ==> final(self)@.tasks[k] == old(self)@.tasks[k]) && final(self)@.tasks[index as int] == (TaskV {
                priority: priority,
                ..old(self)@.tasks[index as int]
            }),
            index >= old(self)@.tasks.len() ==> r is Err && *final(self) == *old(self),
    {
        if index < self.todo_list.tasks.len() {
            let ghost prev = self@.tasks;
            let ghost prev_vec = self.todo_list.tasks@;
            self.todo_list.tasks[index].priority = priority;
            self.todo_list.modified_at = trusted::now_datetime();
            proof {
                assert forall|k: int|
                    0 <= k < prev.len() && k != index implies #[trigger] self@.tasks[k] == prev[
                    k] by {
                    assert(self.todo_list.tasks@[k] == prev_vec[k]);
                    assert(self.todo_list.tasks@[k]@ == self@.tasks[k]);
                    assert(prev_vec[k]@ == prev[k]);
                }
            }
            Ok(())
        } else {
            Err(NotFoundError::new("Task index out of bounds".to_owned()))
        }
    }

    /// Adds a tag to the task at `index` unless it already carries it.
    pub fn add_task_tag(&mut self, index: usize, tag: String) -> (r: Result<(), NotFoundError>)
        ensures
            index < old(self)@.tasks.len() ==> r is Ok && final(self)@.tasks.len() == old(self)@.tasks.len() && (forall|k: int|
                0 <= k < old(self)@.tasks.len() && k != index ==> final(self)@.tasks[k] == old(self)@.tasks[k]) && (old(self)@.tasks[index as int].tags.contains(tag@) ==> final(self)@.tasks[index as int] == old(self)@.tasks[index as int]) && (!old(self)@.tasks[index as int].tags.contains(tag@) ==> final(self)@.tasks[index as int] == (
            TaskV { tags: old(self)@.tasks[index as int].tags.push(tag@), ..old(self)@.tasks[
                index as int] })),
            index >= old(self)@.tasks.len() ==> r is Err && *final(self) == *old(self),
    {
        if index < self.todo_list.tasks.len() {
            let ghost prev = self@.tasks;
            let ghost prev_vec = self.todo_list.tasks@;
            proof {
                assert(self.todo_list.tasks@[index as int]@ == self@.tasks[index as int]);
            }
            if !crate::task::string_list_contains(&self.todo_list.tasks[index].tags, &tag) {
                self.todo_list.tasks[index].tags.push(tag);
                self.todo_list.modified_at = trusted::now_datetime();
                proof {
                    assert(self.todo_list.tasks@[index as int]@.tags =~~= prev[
                        index as int].tags.push(tag@));
                    assert forall|k: int|
                        0 <= k < prev.len() && k != index implies #[trigger] self@.tasks[k]
                        == prev[k] by {
                        assert(self.todo_list.tasks@[k] == prev_vec[k]);
                        assert(self.todo_list.tasks@[k]@ == self@.tasks[k]);
                        assert(prev_vec[k]@ == prev[k]);
                    }
                }
            }
            Ok(())
        } else {
            Err(NotFoundError::new("Task index out of bounds".to_owned()))
        }
    }

    /// Removes every copy of a tag from the task at `index`.
    pub fn remove_task_tag(&mut self, index: usize, tag: &String) -> (r: Result<
        (),
        NotFoundError,
    >)
        ensures
            index < old(self)@.tasks.len() ==> r is Ok && final(self)@.tasks.len() == old(self)@.tasks.len() && (forall|k: int|
                0 <= k < old(self)@.tasks.len() && k != index ==> final(self)@.tasks[k] == old(self)@.tasks[k]) && final(self)@.tasks[index as int] == (TaskV {
                tags: old(self)@.tasks[index as int].tags.filter(|t: Seq<char>| t != tag@),
                ..old(self)@.tasks[index as int]
            }),
            index >= old(self)@.tasks.len() ==> r is Err && *final(self) == *old(self),
    {
        if index < self.todo_list.tasks.len() {
            let ghost prev = self@.tasks;
            let ghost prev_vec = self.todo_list.tasks@;
            proof {
                assert(self.todo_list.tasks@[index as int]@ == self@.tasks[index as int]);
            }
            let ghost pred = |t: Seq<char>| t != tag@;
            let old_tags = &self.todo_list.tasks[index].tags;
            let mut kept: Vec<String> = Vec::new();
            let m = old_tags.len();
            let mut j: usize = 0;
            proof {
                reveal(Seq::filter);
                assert(prev[index as int].tags.take(0int).filter(pred) =~= Seq::<
                    Seq<char>,
                >::empty());
            }
            while j < m
                invariant
                    j <= m,
                    m == self.todo_list.tasks@[index as int].tags@.len(),
                    index < self.todo_list.tasks@.len(),
                    self.todo_list.tasks@[index as int]@ == prev[index as int],
                    m == prev[index as int].tags.len(),
                    kept.deep_view() == prev[index as int].tags.take(j as int).filter(pred),
                    pred == (|t: Seq<char>| t != tag@),
                decreases m - j,
            {
                proof {
                    assert(self.todo_list.tasks@[index as int].tags@[j as int]@ == prev[
                        index as int].tags[j as int]);
                    seqs::lemma_filter_take_step(prev[index as int].tags, pred, j as int);
                }
                if !self.todo_list.tasks[index].tags[j].eq(tag) {
                    let ghost pk = kept.deep_view();
                    kept.push(self.todo_list.tasks[index].tags[j].clone());
                    proof {
                        assert(kept.deep_view() =~~= pk.push(prev[index as int].tags[j as int]));
                    }
                }
                j = j + 1;
            }
            proof {
                seqs::lemma_take_all(prev[index as int].tags);
            }
            self.todo_list.tasks[index].tags = kept;
            self.todo_list.modified_at = trusted::now_datetime();
            proof {
                assert(self.todo_list.tasks@[index as int]@.tags =~~= prev[
                    index as int].tags.filter(pred));
                assert forall|k: int|
                    0 <= k < prev.len() && k != index implies #[trigger] self@.tasks[k] == prev[
                    k] by {
                    assert(self.todo_list.tasks@[k] == prev_vec[k]);
                    assert(self.todo_list.tasks@[k]@ == self@.tasks[k]);
                    assert(prev_vec[k]@ == prev[k]);
                }
            }
            Ok(())
        } else {
            Err(NotFoundError::new("Task index out of bounds".to_owned()))
        }
    }

    /// The tasks with this completion state, in list order.
    pub fn tasks_by_status<'a>(&'a self, completed: bool) -> (r: Vec<&'a Task>)
        ensures
            r.deep_view() == self@.tasks.filter(|t: TaskV| t.completed == completed),
    {
        let ghost pred = |t: TaskV| t.completed == completed;
        let mut out: Vec<&Task> = Vec::new();
        let n = self.todo_list.tasks.len();
        let mut i: usize = 0;
        proof {
            reveal(Seq::filter);
            assert(self@.tasks.take(0int).filter(pred) =~= Seq::<TaskV>::empty());
        }
        while i < n
            invariant
                i <= n,
                n == self@.tasks.len(),
                n == self.todo_list.tasks@.len(),
                out.deep_view() == self@.tasks.take(i as int).filter(pred),
                pred == (|t: TaskV| t.completed == completed),
            decreases n - i,
        {
            proof {
                assert(self.todo_list.tasks@[i as int]@ == self@.tasks[i as int]);
                seqs::lemma_filter_take_step(self@.tasks, pred, i as int);
            }
            if self.todo_list.tasks[i].completed == completed {
                let ghost prev = out.deep_view();
                out.push(&self.todo_list.tasks[i]);
                proof {
                    assert(out.deep_view() =~= prev.push(self@.tasks[i as int]));
                }
            }
            i = i + 1;
        }
        proof {
            seqs::lemma_take_all(self@.tasks);
        }
        out
    }

    /// The tasks with this priority, in list order.
    pub fn tasks_by_priority<'a>(&'a self, priority: Priority) -> (r: Vec<&'a Task>)
        ensures
            r.deep_view() == self@.tasks.filter(|t: TaskV| t.priority == priority),
    {
        let ghost pred = |t: TaskV| t.priority == priority;
        let mut out: Vec<&Task> = Vec::new();
        let n = self.todo_list.tasks.len();
        let mut i: usize = 0;
        proof {
            reveal(Seq::filter);
            assert(self@.tasks.take(0int).filter(pred) =~= Seq::<TaskV>::empty());
        }
        while i < n
            invariant
                i <= n,
                n == self@.tasks.len(),
                n == self.todo_list.tasks@.len(),
                out.deep_view() == self@.tasks.take(i as int).filter(pred),
                pred == (|t: TaskV| t.priority == priority),
            decreases n - i,
        {
            proof {
                assert(self.todo_list.tasks@[i as int]@ == self@.tasks[i as int]);
                seqs::lemma_filter_take_step(self@.tasks, pred, i as int);
            }
            if self.todo_list.tasks[i].priority == priority {
                let ghost prev = out.deep_view();
                out.push(&self.todo_list.tasks[i]);
                proof {
                    assert(out.deep_view() =~= prev.push(self@.tasks[i as int]));
                }
            }
            i = i + 1;
        }
        proof {
            seqs::lemma_take_all(self@.tasks);
        }
        out
    }

    /// The tasks carrying this tag, in list order.
    pub fn tasks_by_tag<'a>(&'a self, tag: &String) -> (r: Vec<&'a Task>)
        ensures
            r.deep_view() == self@.tasks.filter(|t: TaskV| t.tags.contains(tag@)),
    {
        let ghost pred = |t: TaskV| t.tags.contains(tag@);
        let mut out: Vec<&Task> = Vec::new();
        let n = self.todo_list.tasks.len();
        let mut i: usize = 0;
        proof {
            reveal(Seq::filter);
            assert(self@.tasks.take(0int).filter(pred) =~= Seq::<TaskV>::empty());
        }
        while i < n
            invariant
                i <= n,
                n == self@.tasks.len(),
                n == self.todo_list.tasks@.len(),
                out.deep_view() == self@.tasks.take(i as int).filter(pred),
                pred == (|t: TaskV| t.tags.contains(tag@)),
            decreases n - i,
        {
            proof {
                assert(self.todo_list.tasks@[i as int]@ == self@.tasks[i as int]);
                seqs::lemma_filter_take_step(self@.tasks, pred, i as int);
            }
            if crate::task::string_list_contains(&self.todo_list.tasks[i].tags, tag) {
                let ghost prev = out.deep_view();
                out.push(&self.todo_list.tasks[i]);
                proof {
                    assert(out.deep_view() =~= prev.push(self@.tasks[i as int]));
                }
            } else {
            }
            i = i + 1;
        }
        proof {
            seqs::lemma_take_all(self@.tasks);
        }
        out
    }

    /// The tasks whose lowercased description contains the lowercased
    /// pattern, in list order.
    pub fn search_tasks<'a>(&'a self, pattern: &str) -> (r: Vec<&'a Task>)
        ensures
            r.deep_view() == self@.tasks.filter(|t: TaskV| task_matches_pattern(t, pattern@)),
    {
        let ghost pred = |t: TaskV| task_matches_pattern(t, pattern@);
        let pattern_lower_s = trusted::lowercase(pattern);
        let pattern_lower = text::str_to_chars(pattern_lower_s.as_str());
        let mut out: Vec<&Task> = Vec::new();
        let n = self.todo_list.tasks.len();
        let mut i: usize = 0;
        proof {
            reveal(Seq::filter);
            assert(self@.tasks.take(0int).filter(pred) =~= Seq::<TaskV>::empty());
        }
        while i < n
            invariant
                i <= n,
                n == self@.tasks.len(),
                n == self.todo_list.tasks@.len(),
                pattern_lower@ == lower_of(pattern@),
                out.deep_view() == self@.tasks.take(i as int).filter(pred),
                pred == (|t: TaskV| task_matches_pattern(t, pattern@)),
            decreases n - i,
        {
            proof {
                assert(self.todo_list.tasks@[i as int]@ == self@.tasks[i as int]);
                seqs::lemma_filter_take_step(self@.tasks, pred, i as int);
            }
            let desc_lower_s = trusted::lowercase(self.todo_list.tasks[i].description.as_str());
            let desc_lower = text::str_to_chars(desc_lower_s.as_str());
            if text::contains_sub(&desc_lower, &pattern_lower) {
                let ghost prev = out.deep_view();
                out.push(&self.todo_list.tasks[i]);
                proof {
                    assert(out.deep_view() =~= prev.push(self@.tasks[i as int]));
                }
            } else {
            }
            i = i + 1;
        }
        proof {
            seqs::lemma_take_all(self@.tasks);
        }
        out
    }

    /// The tasks completed at exactly this version.
    pub fn tasks_for_version<'a>(&'a self, version: &Version) -> (r: Vec<&'a Task>)
        ensures
            r.deep_view() == self@.tasks.filter(
                |t: TaskV| crate::list::task_at_version(t, *version),
            ),
    {
        self.todo_list.tasks_for_version(version)
    }

    /// The tasks whose completion version lies in the inclusive range.
    pub fn tasks_between_versions<'a>(&'a self, from: &Version, to: &Version) -> (r: Vec<
        &'a Task,
    >)
        ensures
            r.deep_view() == self@.tasks.filter(
                |t: TaskV| crate::list::task_in_version_range(t, *from, *to),
            ),
    {
        self.todo_list.tasks_between_versions(from, to)
    }

    /// Gives every completed-but-unversioned task this version; returns how
    /// many were touched.
    pub fn assign_version_to_completed(&mut self, version: Version) -> (r: usize)
        ensures
            r == old(self)@.tasks.filter(|t: TaskV| crate::list::task_unversioned(t)).len(),
            final(self)@.tasks.len() == old(self)@.tasks.len(),
            forall|i: int|
                0 <= i < old(self)@.tasks.len() ==> #[trigger] final(self)@.tasks[i] == (
                if crate::list::task_unversioned(old(self)@.tasks[i]) {
                    TaskV { completed_at_version: Some(version), ..old(self)@.tasks[i] }
                } else {
                    old(self)@.tasks[i]
                }),
            r == 0 ==> *final(self) == *old(self),
    {
        self.todo_list.assign_version_to_completed(version)
    }

    /// Renames the project.
    pub fn set_project_name(&mut self, name: String)
        ensures
            final(self)@.project_name == name@,
            final(self)@.project_version == old(self)@.project_version,
            final(self)@.tasks == old(self)@.tasks,
            final(self)@.created_at == old(self)@.created_at,
    {
        self.todo_list.project_name = name;
        self.todo_list.modified_at = trusted::now_datetime();
    }

    /// Moves the project to this version.
    pub fn set_project_version(&mut self, version: Version)
        ensures
            final(self)@.project_version == version,
            final(self)@.project_name == old(self)@.project_name,
            final(self)@.tasks == old(self)@.tasks,
            final(self)@.created_at == old(self)@.created_at,
    {
        self.todo_list.project_version = version;
        self.todo_list.modified_at = trusted::now_datetime();
    }

    pub fn project_name(&self) -> (r: &String)
        ensures
            r@ == self@.project_name,
    {
        &self.todo_list.project_name
    }

    pub fn project_version(&self) -> (r: &Version)
        ensures
            *r == self@.project_version,
    {
        &self.todo_list.project_version
    }

    pub fn task_count(&self) -> (r: usize)
        ensures
            r == self@.tasks.len(),
    {
        self.todo_list.tasks.len()
    }

    /// How many tasks are completed.
    pub fn completed_count(&self) -> (r: usize)
        ensures
            r == self@.tasks.filter(|t: TaskV| t.completed).len(),
    {
        let ghost pred = |t: TaskV| t.completed;
        let mut count: usize = 0;
        let n = self.todo_list.tasks.len();
        let mut i: usize = 0;
        proof {
            reveal(Seq::filter);
            assert(self@.tasks.take(0int).filter(pred) =~= Seq::<TaskV>::empty());
        }
        while i < n
            invariant
                i <= n,
                n == self@.tasks.len(),
                n == self.todo_list.tasks@.len(),
                count == self@.tasks.take(i as int).filter(pred).len(),
                count <= i,
                pred == (|t: TaskV| t.completed),
            decreases n - i,
        {
            proof {
                assert(self.todo_list.tasks@[i as int]@ == self@.tasks[i as int]);
                seqs::lemma_filter_take_step(self@.tasks, pred, i as int);
            }
            if self.todo_list.tasks[i].completed {
                count = count + 1;
            }
            i = i + 1;
        }
        proof {
            seqs::lemma_take_all(self@.tasks);
        }
        count
    }

    /// How many tasks are still open.
    pub fn pending_count(&self) -> (r: usize)
        ensures
            r == self@.tasks.filter(|t: TaskV| !t.completed).len(),
    {
        let ghost pred = |t: TaskV| !t.completed;
        let mut count: usize = 0;
        let n = self.todo_list.tasks.len();
        let mut i: usize = 0;
        proof {
            reveal(Seq::filter);
            assert(self@.tasks.take(0int).filter(pred) =~= Seq::<TaskV>::empty());
        }
        while i < n
            invariant
                i <= n,
                n == self@.tasks.len(),
                n == self.todo_list.tasks@.len(),
                count == self@.tasks.take(i as int).filter(pred).len(),
                count <= i,
                pred == (|t: TaskV| !t.completed),
            decreases n - i,
        {
            proof {
                assert(self.todo_list.tasks@[i as int]@ == self@.tasks[i as int]);
                seqs::lemma_filter_take_step(self@.tasks, pred, i as int);
            }
            if !self.todo_list.tasks[i].completed {
                count = count + 1;
            }
            i = i + 1;
        }
        proof {
            seqs::lemma_take_all(self@.tasks);
        }
        count
    }

    /// How many open tasks carry this priority.
    pub fn open_count_by_priority(&self, priority: Priority) -> (r: usize)
        ensures
            r == self@.tasks.filter(|t: TaskV| !t.completed && t.priority == priority).len(),
    {
        let ghost pred = |t: TaskV| !t.completed && t.priority == priority;
        let mut count: usize = 0;
        let n = self.todo_list.tasks.len();
        let mut i: usize = 0;
        proof {
            reveal(Seq::filter);
            assert(self@.tasks.take(0int).filter(pred) =~= Seq::<TaskV>::empty());
        }
        while i < n
            invariant
                i <= n,
                n == self@.tasks.len(),
                n == self.todo_list.tasks@.len(),
                count == self@.tasks.take(i as int).filter(pred).len(),
                count <= i,
                pred == (|t: TaskV| !t.completed && t.priority == priority),
            decreases n - i,
        {
            proof {
                assert(self.todo_list.tasks@[i as int]@ == self@.tasks[i as int]);
                seqs::lemma_filter_take_step(self@.tasks, pred, i as int);
            }
            if !self.todo_list.tasks[i].completed && self.todo_list.tasks[i].priority
                == priority {
                count = count + 1;
            }
            i = i + 1;
        }
        proof {
            seqs::lemma_take_all(self@.tasks);
        }
        count
    }

    pub fn is_empty(&self) -> (r: bool)
        ensures
            r == (self@.tasks.len() == 0),
    {
        self.todo_list.tasks.len() == 0
    }

    /// Removes every task.
    pub fn clear_tasks(&mut self)
        ensures
            final(self)@.tasks.len() == 0,
            final(self)@.project_name == old(self)@.project_name,
            final(self)@.project_version == old(self)@.project_version,
            final(self)@.created_at == old(self)@.created_at,
    {
        self.todo_list.tasks.clear();
        self.todo_list.modified_at = trusted::now_datetime();
    }
}

} // verus!
