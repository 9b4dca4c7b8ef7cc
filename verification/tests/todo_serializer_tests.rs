use tally::list::List;
use tally::task::{Priority, Task};
use tally::time::DateTime;
use tally::todo_text::{deserialize, serialize};
use tally::version::Version;

#[test]
fn serialize_deserialize_round_trip_preserves_task_metadata() {
    let mut list = List {
        project_name: "tally".to_string(),
        project_version: Version::new(0, 5, 0, false),
        created_at: DateTime::new(2026, 2, 20, 0, 0),
        modified_at: DateTime::new(2026, 2, 23, 0, 0),
        tasks: vec![],
    };

    list.tasks.push(Task {
        description: "config support".to_string(),
        priority: Priority::Low,
        tags: vec!["feature".to_string()],
        completed: false,
        created_at_time: DateTime::new(2026, 2, 20, 8, 15),
        created_at_version: Some(Version::new(0, 4, 0, false)),
        created_at_commit: Some("abc1234".to_string()),
        completed_at_time: None,
        completed_at_version: None,
        completed_at_commit: None,
    });

    list.tasks.push(Task {
        description: "fix duplication in history".to_string(),
        priority: Priority::High,
        tags: vec![],
        completed: true,
        created_at_time: DateTime::new(2026, 2, 19, 9, 0),
        created_at_version: None,
        created_at_commit: None,
        completed_at_time: Some(DateTime::new(2026, 2, 21, 9, 45)),
        completed_at_version: Some(Version::new(0, 3, 2, false)),
        completed_at_commit: Some("a556fb5".to_string()),
    });

    let markdown = serialize(&list);
    assert!(markdown.contains("# TODO — tally v0.5.0"));
    assert!(markdown.contains("## Tasks"));
    assert!(markdown.contains("## Completed"));

    let parsed = deserialize(&markdown).unwrap();
    assert_eq!(parsed.project_name, "tally");
    assert_eq!(parsed.project_version.version_string(), "0.5.0");
    assert_eq!(parsed.tasks.len(), 2);

    let config_task = parsed
        .tasks
        .iter()
        .find(|task| task.description == "config support")
        .unwrap();
    assert!(!config_task.completed);
    assert_eq!(config_task.priority, Priority::Low);
    assert_eq!(config_task.tags, vec!["feature"]);
    assert_eq!(config_task.created_at_commit.as_deref(), Some("abc1234"));
    assert_eq!(
        config_task
            .created_at_version
            .as_ref()
            .map(Version::version_string)
            .as_deref(),
        Some("0.4.0")
    );

    let fixed_task = parsed
        .tasks
        .iter()
        .find(|task| task.description == "fix duplication in history")
        .unwrap();
    assert!(fixed_task.completed);
    assert_eq!(fixed_task.priority, Priority::High);
    assert_eq!(fixed_task.completed_at_commit.as_deref(), Some("a556fb5"));
    assert_eq!(
        fixed_task
            .completed_at_version
            .as_ref()
            .map(Version::version_string)
            .as_deref(),
        Some("0.3.2")
    );
}

#[test]
fn deserialize_accepts_ascii_hyphen_header() {
    let content = "# TODO - demo v1.2.3\n\n@created: 2026-02-20\n@modified: 2026-02-21\n\n## Tasks\n\n- [ ] keep parser compatibility\n      @created 2026-02-20 10:00\n";

    let parsed = deserialize(content).unwrap();
    assert_eq!(parsed.project_name, "demo");
    assert_eq!(parsed.project_version.version_string(), "1.2.3");
    assert_eq!(parsed.tasks.len(), 1);
    assert_eq!(parsed.tasks[0].description, "keep parser compatibility");
}

#[test]
fn deserialize_requires_created_metadata() {
    let content = "# TODO — demo v1.2.3\n\n@modified: 2026-02-21\n\n## Tasks\n\n- [ ] missing metadata\n      @created 2026-02-20 10:00\n";

    let err = deserialize(content).unwrap_err();
    assert!(err.message().contains("Missing @created metadata"));
}

#[test]
fn deserialize_accepts_em_dash_header_scenario() {
    let content = "# TODO — demo v1.2.3\n\n@created: 2026-02-20\n@modified: 2026-02-21\n\n## Tasks\n\n- [ ] keep parser compatibility\n      @created 2026-02-20 10:00\n";

    let parsed = deserialize(content).unwrap();
    assert_eq!(parsed.project_name, "demo");
    assert_eq!(parsed.project_version.version_string(), "1.2.3");
    assert_eq!(parsed.tasks.len(), 1);
    assert!(!parsed.tasks[0].completed);
    assert_eq!(parsed.tasks[0].description, "keep parser compatibility");
}

#[test]
fn round_trip_is_exact_at_minute_precision() {
    let list = List {
        project_name: "demo".to_string(),
        project_version: Version::new(1, 0, 0, false),
        created_at: DateTime::new(2026, 1, 2, 0, 0),
        modified_at: DateTime::new(2026, 1, 3, 0, 0),
        tasks: vec![
            Task {
                description: "write docs".to_string(),
                priority: Priority::Medium,
                tags: vec!["docs".to_string(), "later".to_string()],
                completed: false,
                created_at_time: DateTime::new(2026, 1, 2, 9, 30),
                created_at_version: None,
                created_at_commit: None,
                completed_at_time: None,
                completed_at_version: None,
                completed_at_commit: None,
            },
            Task {
                description: "ship release".to_string(),
                priority: Priority::High,
                tags: vec![],
                completed: true,
                created_at_time: DateTime::new(2026, 1, 2, 10, 0),
                created_at_version: None,
                created_at_commit: None,
                completed_at_time: Some(DateTime::new(2026, 1, 2, 18, 45)),
                completed_at_version: Some(Version::new(1, 0, 0, false)),
                completed_at_commit: Some("deadbee".to_string()),
            },
        ],
    };

    let text = serialize(&list);
    let parsed = deserialize(&text).unwrap();
    assert_eq!(parsed.project_name, list.project_name);
    assert_eq!(parsed.project_version, list.project_version);
    assert_eq!(parsed.created_at, list.created_at);
    assert_eq!(parsed.modified_at, list.modified_at);
    assert_eq!(parsed.tasks.len(), list.tasks.len());
    for (a, b) in parsed.tasks.iter().zip(list.tasks.iter()) {
        assert_eq!(a.description, b.description);
        assert_eq!(a.priority, b.priority);
        assert_eq!(a.tags, b.tags);
        assert_eq!(a.completed, b.completed);
        assert_eq!(a.created_at_time, b.created_at_time);
        assert_eq!(a.created_at_version, b.created_at_version);
        assert_eq!(a.created_at_commit, b.created_at_commit);
        assert_eq!(a.completed_at_time, b.completed_at_time);
        assert_eq!(a.completed_at_version, b.completed_at_version);
        assert_eq!(a.completed_at_commit, b.completed_at_commit);
    }
}

#[test]
fn serialize_writes_exact_grammar() {
    let list = List {
        project_name: "demo".to_string(),
        project_version: Version::new(0, 1, 0, false),
        created_at: DateTime::new(2026, 2, 20, 0, 0),
        modified_at: DateTime::new(2026, 2, 21, 0, 0),
        tasks: vec![Task {
            description: "first".to_string(),
            priority: Priority::Low,
            tags: vec!["a".to_string()],
            completed: false,
            created_at_time: DateTime::new(2026, 2, 20, 10, 0),
            created_at_version: None,
            created_at_commit: None,
            completed_at_time: None,
            completed_at_version: None,
            completed_at_commit: None,
        }],
    };
    let expected = "# TODO — demo v0.1.0\n\n@created: 2026-02-20\n@modified: 2026-02-21\n\n## Tasks\n\n- [ ] first (low) #a\n      @created 2026-02-20 10:00\n\n";
    assert_eq!(serialize(&list), expected);
}
