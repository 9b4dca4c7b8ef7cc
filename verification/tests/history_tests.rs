use tally::history::{Change, HistoryEntry, HistoryStorage};
use tally::task::{Priority, Task};
use tally::time::DateTime;
use tally::version::Version;

fn make_task(
    description: &str,
    commit: Option<&str>,
    version: Option<Version>,
    completed_at: DateTime,
) -> Task {
    Task {
        description: description.to_string(),
        priority: Priority::High,
        tags: vec![],
        completed: true,
        created_at_time: completed_at,
        created_at_version: None,
        created_at_commit: None,
        completed_at_time: Some(completed_at),
        completed_at_version: version,
        completed_at_commit: commit.map(str::to_string),
    }
}

fn make_entry(
    description: &str,
    commit: Option<&str>,
    version: Option<Version>,
    completed_at: DateTime,
) -> HistoryEntry {
    HistoryEntry {
        change: Change {
            description: description.to_string(),
            priority: Priority::High,
            tags: vec![],
            commit: commit.map(str::to_string),
            completed_at,
        },
        version,
    }
}

#[test]
fn record_all_dedupes_when_commit_matches() {
    let version = Version::new(0, 5, 0, false);
    let first_time = DateTime::new(2026, 2, 2, 19, 19);
    let second_time = DateTime::new(2026, 2, 2, 19, 19);

    let mut storage = HistoryStorage::from_entries(vec![make_entry(
        "github doing!",
        Some("9ba2c4a"),
        Some(version),
        first_time,
    )]);

    let task = make_task("github doing!", Some("9ba2c4a"), Some(version), second_time);
    storage.record_all(&vec![&task]);

    assert_eq!(storage.entries().len(), 1);
}

#[test]
fn record_all_dedupes_when_description_and_version_match() {
    let first_time = DateTime::new(2026, 2, 2, 2, 15);
    let second_time = DateTime::new(2026, 2, 2, 2, 15);

    let mut storage = HistoryStorage::from_entries(vec![make_entry(
        "config support",
        None,
        None,
        first_time,
    )]);

    let task = make_task("config support", None, None, second_time);
    storage.record_all(&vec![&task]);

    assert_eq!(storage.entries().len(), 1);
}

#[test]
fn record_all_keeps_distinct_versions() {
    let old_version = Version::new(0, 4, 0, false);
    let new_version = Version::new(0, 5, 0, false);
    let timestamp = DateTime::new(2026, 2, 2, 2, 15);

    let mut storage = HistoryStorage::from_entries(vec![make_entry(
        "release notes update",
        None,
        Some(old_version),
        timestamp,
    )]);

    let task = make_task("release notes update", None, Some(new_version), timestamp);
    storage.record_all(&vec![&task]);

    assert_eq!(storage.entries().len(), 2);
}

#[test]
fn record_twice_with_same_commit_yields_one_entry() {
    let time = DateTime::new(2026, 3, 1, 12, 0);
    let task = make_task("ship it", Some("abcd123"), None, time);

    let mut storage = HistoryStorage::new();
    storage.record(&task);
    storage.record(&task);

    assert_eq!(storage.entries().len(), 1);
}

#[test]
fn record_skips_incomplete_tasks() {
    let time = DateTime::new(2026, 3, 1, 12, 0);
    let mut task = make_task("not yet", None, None, time);
    task.completed = false;
    task.completed_at_time = None;

    let mut storage = HistoryStorage::new();
    storage.record(&task);

    assert_eq!(storage.entries().len(), 0);
}

#[test]
fn assign_version_touches_only_unversioned_entries_once() {
    let time = DateTime::new(2026, 3, 1, 12, 0);
    let v1 = Version::new(0, 1, 0, false);
    let v2 = Version::new(0, 2, 0, false);

    let mut storage = HistoryStorage::from_entries(vec![
        make_entry("a", None, None, time),
        make_entry("b", None, Some(v1), time),
    ]);

    let first = storage.assign_version(&v2);
    assert_eq!(first, 1);
    assert_eq!(storage.entries()[0].version, Some(v2));
    assert_eq!(storage.entries()[1].version, Some(v1));

    let second = storage.assign_version(&Version::new(0, 3, 0, false));
    assert_eq!(second, 0);
    assert_eq!(storage.entries()[0].version, Some(v2));
}

#[test]
fn entries_by_version_groups_ascending() {
    let time = DateTime::new(2026, 3, 1, 12, 0);
    let v1 = Version::new(0, 1, 0, false);
    let v2 = Version::new(0, 2, 0, false);

    let storage = HistoryStorage::from_entries(vec![
        make_entry("later", None, Some(v2), time),
        make_entry("earlier", None, Some(v1), time),
        make_entry("pending", None, None, time),
    ]);

    let groups = storage.entries_by_version();
    assert_eq!(groups.len(), 2);
    assert_eq!(groups[0].0, v1);
    assert_eq!(groups[0].1.len(), 1);
    assert_eq!(groups[0].1[0].change.description, "earlier");
    assert_eq!(groups[1].0, v2);

    let unversioned = storage.unversioned_entries();
    assert_eq!(unversioned.len(), 1);
    assert_eq!(unversioned[0].change.description, "pending");
}

#[test]
fn entries_between_versions_is_inclusive() {
    let time = DateTime::new(2026, 3, 1, 12, 0);
    let v1 = Version::new(0, 1, 0, false);
    let v2 = Version::new(0, 2, 0, false);
    let v3 = Version::new(0, 3, 0, false);

    let storage = HistoryStorage::from_entries(vec![
        make_entry("one", None, Some(v1), time),
        make_entry("two", None, Some(v2), time),
        make_entry("three", None, Some(v3), time),
    ]);

    let between = storage.entries_between_versions(&v1, &v2);
    assert_eq!(between.len(), 2);
    assert_eq!(between[0].change.description, "one");
    assert_eq!(between[1].change.description, "two");
}
