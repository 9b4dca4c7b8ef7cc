use tally::changelog_text::to_markdown;
use tally::history::Change;
use tally::release::{Log, Release};
use tally::task::Priority;
use tally::time::DateTime;
use tally::version::Version;

fn change(description: &str, priority: Priority, tags: &[&str], commit: Option<&str>) -> Change {
    Change {
        description: description.to_string(),
        priority,
        tags: tags.iter().map(|tag| (*tag).to_string()).collect(),
        commit: commit.map(str::to_string),
        completed_at: DateTime::new(2026, 2, 20, 10, 30),
    }
}

#[test]
fn to_markdown_renders_sections_tags_and_short_commits() {
    let release = Release {
        version: Version::new(1, 2, 3, false),
        date: DateTime::new(2026, 2, 21, 0, 0),
        high: vec![change(
            "Fix crash when history is empty",
            Priority::High,
            &["bug"],
            Some("1234567890abcdef"),
        )],
        medium: vec![],
        low: vec![change("Polish docs", Priority::Low, &[], None)],
        changes_by_tag: vec![],
    };

    let log = Log {
        project_name: "tally".to_string(),
        releases: vec![release],
        generated_at: DateTime::new(2026, 2, 23, 0, 0),
    };

    let markdown = to_markdown(&log);

    assert!(markdown.contains("# Changelog — tally"));
    assert!(markdown.contains("*Generated on 2026-02-23*"));
    assert!(markdown.contains("## 1.2.3 — 2026-02-21"));
    assert!(markdown.contains("### High Priority"));
    assert!(markdown.contains("### Minor Changes"));
    assert!(!markdown.contains("### Changes"));
    assert!(markdown.contains("- Fix crash when history is empty `bug` ([`1234567`])"));
    assert!(markdown.contains("- Polish docs"));
}

#[test]
fn filter_versions_keeps_inclusive_lower_bound() {
    let mk = |maj: u32, min: u32| Release {
        version: Version::new(maj, min, 0, false),
        date: DateTime::new(2026, 2, 21, 0, 0),
        high: vec![],
        medium: vec![],
        low: vec![],
        changes_by_tag: vec![],
    };
    let log = Log {
        project_name: "tally".to_string(),
        releases: vec![mk(0, 1), mk(0, 2), mk(0, 3)],
        generated_at: DateTime::new(2026, 2, 23, 0, 0),
    };

    let from = Version::new(0, 2, 0, false);
    let filtered = log.filter_versions(Some(&from), None);

    assert_eq!(filtered.releases.len(), 2);
    assert_eq!(filtered.releases[0].version, Version::new(0, 2, 0, false));
    assert_eq!(filtered.releases[1].version, Version::new(0, 3, 0, false));
}

#[test]
fn from_changes_groups_by_priority_and_tag() {
    let a = change("one", Priority::High, &["x", "y"], None);
    let b = change("two", Priority::Medium, &["x"], None);
    let refs: Vec<&Change> = vec![&a, &b];

    let rel = Release::from_changes(
        Version::new(1, 0, 0, false),
        DateTime::new(2026, 2, 21, 0, 0),
        &refs,
    );

    assert_eq!(rel.high.len(), 1);
    assert_eq!(rel.medium.len(), 1);
    assert_eq!(rel.low.len(), 0);
    assert_eq!(rel.changes_by_tag.len(), 2);
    assert_eq!(rel.changes_by_tag[0].0, "x");
    assert_eq!(rel.changes_by_tag[0].1.len(), 2);
    assert_eq!(rel.changes_by_tag[1].0, "y");
    assert_eq!(rel.changes_by_tag[1].1.len(), 1);
}
