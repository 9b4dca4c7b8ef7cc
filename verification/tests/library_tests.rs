use tally::config::{format_duration, normalize_key, AppConfig};
use tally::history::HistoryStorage;
use tally::ignore::IgnoreStorage;
use tally::list::List;
use tally::registry::ProjectRegistryStorage;
use tally::scan::find_best_match;
use tally::storage::ListStorage;
use tally::task::{Priority, Task};
use tally::time::DateTime;
use tally::todo_text::deserialize;
use tally::version::Version;

fn open_task(description: &str, minute: u32) -> Task {
    Task {
        description: description.to_string(),
        priority: Priority::Medium,
        tags: vec![],
        completed: false,
        created_at_time: DateTime::new(2026, 2, 20, 10, minute),
        created_at_version: None,
        created_at_commit: None,
        completed_at_time: None,
        completed_at_version: None,
        completed_at_commit: None,
    }
}

#[test]
fn assign_version_to_completed_is_idempotent() {
    let mut task = open_task("done work", 0);
    task.completed = true;
    task.completed_at_time = Some(DateTime::new(2026, 2, 21, 11, 0));

    let mut storage = ListStorage::new(List {
        project_name: "demo".to_string(),
        project_version: Version::new(0, 1, 0, false),
        created_at: DateTime::new(2026, 2, 20, 0, 0),
        modified_at: DateTime::new(2026, 2, 20, 0, 0),
        tasks: vec![task, open_task("still open", 5)],
    });

    let first = storage.assign_version_to_completed(Version::new(0, 2, 0, false));
    assert_eq!(first, 1);
    let second = storage.assign_version_to_completed(Version::new(0, 3, 0, false));
    assert_eq!(second, 0);
    assert_eq!(
        storage.tasks()[0].completed_at_version,
        Some(Version::new(0, 2, 0, false))
    );
}

#[test]
fn complete_task_out_of_range_is_not_found() {
    let mut storage = ListStorage::new(List {
        project_name: "demo".to_string(),
        project_version: Version::new(0, 1, 0, false),
        created_at: DateTime::new(2026, 2, 20, 0, 0),
        modified_at: DateTime::new(2026, 2, 20, 0, 0),
        tasks: vec![],
    });

    let err = storage.complete_task(3, None).unwrap_err();
    assert!(err.message().contains("out of bounds"));
    assert!(storage.remove_task(3).is_none());
}

#[test]
fn ignore_rules_match_case_insensitively() {
    let rules = IgnoreStorage::from_content("# comment line\nWIP\nrelease*\n");
    assert!(rules.is_ignored("wip: experiment", &vec![]));
    assert!(rules.is_ignored("Release the thing", &vec![]));
    assert!(!rules.is_ignored("ordinary task", &vec![]));
}

#[test]
fn glob_rules_anchor_without_stars() {
    let rules = IgnoreStorage::from_content("a*b\n");
    assert!(rules.is_ignored("axxb", &vec![]));
    assert!(!rules.is_ignored("axxbc", &vec![]));
    assert!(!rules.is_ignored("caxxb", &vec![]));
}

#[test]
fn registry_dedupes_and_prunes() {
    let mut registry = ProjectRegistryStorage::new(vec![
        "/one".to_string(),
        "/two".to_string(),
        "/one".to_string(),
    ]);
    assert_eq!(registry.projects().len(), 2);

    assert!(!registry.add_project("/two".to_string()));
    assert!(registry.add_project("/three".to_string()));
    assert_eq!(registry.projects().len(), 3);

    let removed = registry.prune_missing(&vec![true, false, true]);
    assert_eq!(removed, 1);
    assert_eq!(registry.projects(), vec!["/one", "/three"]);
}

#[test]
fn fuzzy_matching_finds_the_best_open_task() {
    let tasks = vec![open_task("fix parsing error", 0), open_task("write docs", 1)];
    let found = find_best_match(&tasks, "parsing", true).unwrap();
    assert_eq!(found.0, 0);

    assert!(find_best_match(&tasks, "zzqqxx", true).is_none());
}

#[test]
fn config_defaults_match_the_documented_values() {
    let config = AppConfig::default();
    assert_eq!(config.defaults.priority, Priority::Medium);
    assert_eq!(config.defaults.editor, "nvim");
    assert_eq!(config.git.done_prefix, "done:");
    assert_eq!(config.commands.prune_after_days, 30);

    assert_eq!(normalize_key(&"editor".to_string()), "preferences.editor");
    assert_eq!(normalize_key(&"git.done_prefix".to_string()), "git.done_prefix");
}

#[test]
fn format_duration_words() {
    assert_eq!(format_duration(12), "12 hour(s)");
    assert_eq!(format_duration(48), "2 day(s)");
    assert_eq!(format_duration(36), "1 day(s) 12 hour(s)");
}

#[test]
fn task_creation_uses_the_clock() {
    let task = Task::new("fresh".to_string(), Priority::Low, vec![]);
    assert!(!task.completed);
    assert!(task.created_at_time.year >= 2020);
    assert!((1..=12).contains(&task.created_at_time.month));
    assert!((1..=31).contains(&task.created_at_time.day));
}

#[test]
fn search_tasks_lowercases_both_sides() {
    let storage = ListStorage::new(List {
        project_name: "demo".to_string(),
        project_version: Version::new(0, 1, 0, false),
        created_at: DateTime::new(2026, 2, 20, 0, 0),
        modified_at: DateTime::new(2026, 2, 20, 0, 0),
        tasks: vec![open_task("Fix The Parser", 0), open_task("other", 1)],
    });
    let found = storage.search_tasks("the parser");
    assert_eq!(found.len(), 1);
    assert_eq!(found[0].description, "Fix The Parser");
}

#[test]
fn date_parse_rejects_invalid_calendar_days() {
    let bad = "# TODO — demo v1.0.0\n\n@created: 2026-02-30\n@modified: 2026-02-21\n\n## Tasks\n";
    let err = deserialize(bad).unwrap_err();
    assert!(err.message().contains("Failed to parse date"));

    let bad_time = "# TODO — demo v1.0.0\n\n@created: 2026-02-20\n@modified: 2026-02-21\n\n## Tasks\n\n- [ ] task\n      @created 2026-02-20 99:00\n";
    let err2 = deserialize(bad_time).unwrap_err();
    assert!(err2.message().contains("Failed to parse datetime"));
}

#[test]
fn deserialize_requires_modified_metadata_and_descriptions() {
    let no_modified = "# TODO — demo v1.0.0\n\n@created: 2026-02-20\n\n## Tasks\n";
    assert!(deserialize(no_modified)
        .unwrap_err()
        .message()
        .contains("Missing @modified metadata"));

    let no_description =
        "# TODO — demo v1.0.0\n\n@created: 2026-02-20\n@modified: 2026-02-21\n\n## Tasks\n\n- [ ] #tag-only\n      @created 2026-02-20 10:00\n";
    assert!(deserialize(no_description)
        .unwrap_err()
        .message()
        .contains("Task has no description"));

    let bad_header = "nonsense first line\n";
    assert!(deserialize(bad_header)
        .unwrap_err()
        .message()
        .contains("Invalid header format"));

    let no_version = "# TODO — demo\n";
    assert!(deserialize(no_version)
        .unwrap_err()
        .message()
        .contains("No version found in header"));

    assert!(deserialize("")
        .unwrap_err()
        .message()
        .contains("Empty TODO file"));
}

#[test]
fn history_record_keeps_distinct_releases_of_same_description() {
    let time = DateTime::new(2026, 3, 1, 12, 0);
    let mut storage = HistoryStorage::new();

    let mut first = open_task("repeated work", 0);
    first.completed = true;
    first.completed_at_time = Some(time);
    first.completed_at_version = Some(Version::new(0, 1, 0, false));
    storage.record(&first);

    let mut second = open_task("repeated work", 1);
    second.completed = true;
    second.completed_at_time = Some(time);
    second.completed_at_version = Some(Version::new(0, 2, 0, false));
    storage.record(&second);

    assert_eq!(storage.entries().len(), 2);
}
