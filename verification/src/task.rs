//! Tasks: a description, a priority, tags, and creation / completion
//! metadata.

use vstd::prelude::*;

use crate::time::DateTime;
use crate::trusted;
use crate::version::Version;

verus! {

#[derive(Debug, Clone, Copy, PartialEq, Eq, Structural)]
pub enum Priority {
    Low,
    Medium,
    High,
}

impl Default for Priority {
    fn default() -> (r: Priority)
        ensures
            r == Priority::Medium,
    {
        Priority::Medium
    }
}

/// The mathematical model of a task: every text field as its character
/// sequence.
pub struct TaskV {
    pub description: Seq<char>,
    pub priority: Priority,
    pub tags: Seq<Seq<char>>,
    pub completed: bool,
    pub created_at_time: DateTime,
    pub created_at_version: Option<Version>,
    pub created_at_commit: Option<Seq<char>>,
    pub completed_at_time: Option<DateTime>,
    pub completed_at_version: Option<Version>,
    pub completed_at_commit: Option<Seq<char>>,
}

#[derive(Debug, Clone)]
pub struct Task {
    pub description: String,
    pub priority: Priority,
    pub tags: Vec<String>,
    pub completed: bool,
    pub created_at_time: DateTime,
    pub created_at_version: Option<Version>,
    pub created_at_commit: Option<String>,
    pub completed_at_time: Option<DateTime>,
    pub completed_at_version: Option<Version>,
    pub completed_at_commit: Option<String>,
}

pub open spec fn view_opt_string(s: Option<String>) -> Option<Seq<char>> {
    match s {
        Some(x) => Some(x@),
        None => None,
    }
}

impl DeepView for Task {
    type V = TaskV;

    open spec fn deep_view(&self) -> TaskV {
        self.view()
    }
}

impl View for Task {
    type V = TaskV;

    open spec fn view(&self) -> TaskV {
        TaskV {
            description: self.description@,
            priority: self.priority,
            tags: self.tags.deep_view(),
            completed: self.completed,
            created_at_time: self.created_at_time,
            created_at_version: self.created_at_version,
            created_at_commit: view_opt_string(self.created_at_commit),
            completed_at_time: self.completed_at_time,
            completed_at_version: self.completed_at_version,
            completed_at_commit: view_opt_string(self.completed_at_commit),
        }
    }
}

impl TaskV {
    /// Every timestamp the task carries names a calendar-valid moment.
    pub open spec fn times_wf(self) -> bool {
        self.created_at_time.well_formed() && self.created_at_time.year >= 1 && match self
            .completed_at_time {
            Some(t) => t.well_formed() && t.year >= 1,
            None => true,
        }
    }
}

/// Whether a completed task at `completed_at` is more than `days` full days
/// old at `now`, both taken at minute precision.
pub open spec fn spec_is_older(completed_at: DateTime, days: u32, now: DateTime) -> bool {
    let diff = now.spec_unix_seconds() - completed_at.spec_unix_seconds();
    diff > 0 && diff / 86400 > days
}

impl Task {
    /// A fresh, incomplete task created now.
    pub fn new(description: String, priority: Priority, tags: Vec<String>) -> (t: Task)
        ensures
            t@.description == description@,
            t@.priority == priority,
            t@.tags == tags.deep_view(),
            !t@.completed,
            t@.created_at_time.well_formed(),
            t@.created_at_time.year >= 1,
            t@.created_at_version is None,
            t@.created_at_commit is None,
            t@.completed_at_time is None,
            t@.completed_at_version is None,
            t@.completed_at_commit is None,
    {
        Task {
            description,
            priority,
            tags,
            completed: false,
            created_at_time: trusted::now_datetime(),
            created_at_version: None,
            created_at_commit: None,
            completed_at_time: None,
            completed_at_version: None,
            completed_at_commit: None,
        }
    }

    /// Marks the task complete now, with the given commit and version.
    pub fn mark_complete(&mut self, commit: Option<String>, version: Option<Version>)
        ensures
            final(self)@.completed,
            final(self)@.completed_at_time matches Some(t) && t.well_formed() && t.year >= 1,
            final(self)@.completed_at_commit == view_opt_string(commit),
            final(self)@.completed_at_version == version,
            final(self)@.description == old(self)@.description,
            final(self)@.priority == old(self)@.priority,
            final(self)@.tags == old(self)@.tags,
            final(self)@.created_at_time == old(self)@.created_at_time,
            final(self)@.created_at_version == old(self)@.created_at_version,
            final(self)@.created_at_commit == old(self)@.created_at_commit,
    {
        self.completed = true;
        self.completed_at_time = Some(trusted::now_datetime());
        self.completed_at_commit = commit;
        self.completed_at_version = version;
    }

    /// True when the task carries any of the given tags.
    pub fn has_any_tag(&self, tags: &Vec<String>) -> (r: bool)
        ensures
            r == exists|i: int|
                0 <= i < tags.deep_view().len() && self@.tags.contains(
                    #[trigger] tags.deep_view()[i],
                ),
    {
        let n = tags.len();
        let mut i: usize = 0;
        while i < n
            invariant
                i <= n,
                n == tags.deep_view().len(),
                forall|k: int| 0 <= k < i ==> !self@.tags.contains(#[trigger] tags.deep_view()[k]),
            decreases n - i,
        {
            if string_list_contains(&self.tags, &tags[i]) {
                proof {
                    assert(tags@[i as int]@ == tags.deep_view()[i as int]);
                }
                return true;
            }
            proof {
                assert(tags@[i as int]@ == tags.deep_view()[i as int]);
            }
            i = i + 1;
        }
        false
    }

    /// True when the task carries all of the given tags.
    pub fn has_all_tags(&self, tags: &Vec<String>) -> (r: bool)
        ensures
            r == forall|i: int|
                0 <= i < tags.deep_view().len() ==> self@.tags.contains(
                    #[trigger] tags.deep_view()[i],
                ),
    {
        let n = tags.len();
        let mut i: usize = 0;
        while i < n
            invariant
                i <= n,
                n == tags.deep_view().len(),
                forall|k: int| 0 <= k < i ==> self@.tags.contains(#[trigger] tags.deep_view()[k]),
            decreases n - i,
        {
            if !string_list_contains(&self.tags, &tags[i]) {
                proof {
                    assert(tags@[i as int]@ == tags.deep_view()[i as int]);
                }
                return false;
            }
            proof {
                assert(tags@[i as int]@ == tags.deep_view()[i as int]);
            }
            i = i + 1;
        }
        true
    }

    /// Whether the task was completed more than `days` full days before
    /// `now`.
    pub fn is_older_than_days_at(&self, days: u32, now: &DateTime) -> (r: bool)
        requires
            self@.times_wf(),
            now.well_formed(),
            now.year >= 1,
        ensures
            r == match self@.completed_at_time {
                Some(t) => spec_is_older(t, days, *now),
                None => false,
            },
    {
        match &self.completed_at_time {
            None => false,
            Some(t) => {
                let cs = t.unix_seconds();
                let ns = now.unix_seconds();
                if ns <= cs {
                    return false;
                }
                let diff: u64 = (ns - cs) as u64;
                diff / 86400 > days as u64
            },
        }
    }

    /// Whether the task was completed more than `days` full days ago.  An
    /// incomplete task is never old.
    pub fn is_older_than_days(&self, days: u32) -> (r: bool)
        requires
            self@.times_wf(),
        ensures
            self@.completed_at_time is None ==> r == false,
    {
        let now = trusted::now_datetime();
        self.is_older_than_days_at(days, &now)
    }
}

/// True when one of the strings in `list` equals `t`.
pub fn string_list_contains(list: &Vec<String>, t: &String) -> (r: bool)
    ensures
        r == list.deep_view().contains(t@),
{
    let n = list.len();
    let mut i: usize = 0;
    while i < n
        invariant
            i <= n,
            n == list.deep_view().len(),
            forall|k: int| 0 <= k < i ==> list.deep_view()[k] != t@,
        decreases n - i,
    {
        if list[i].eq(t) {
            proof {
                assert(list@[i as int]@ == list.deep_view()[i as int]);
                assert(list.deep_view().contains(t@));
            }
            return true;
        }
        proof {
            assert(list@[i as int]@ == list.deep_view()[i as int]);
        }
        i = i + 1;
    }
    proof {
        assert(!list.deep_view().contains(t@));
    }
    false
}

} // verus!
