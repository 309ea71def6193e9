use sightline::block::TaggedBlock;
use sightline::date::Date;
use sightline::importer::{
    import_snapshot, normalize_tag_segment, parse_journal_date, project_note_tags,
    sort_blocks_by_date,
};
use sightline::registry::TagRegistry;
use sightline::rope::ApplyOpsError;
use sightline::snapshot::TagRegistrySnapshot;
use sightline::text::push_decimal;
use sightline::timeline::{AssignBlockTagsError, InternTagError, Timeline};

#[test]
fn directory_names_become_tag_segments() {
    assert_eq!(normalize_tag_segment("Sightline").as_deref(), Some("sightline"));
    assert_eq!(
        normalize_tag_segment("  My Project (2024)! ").as_deref(),
        Some("my-project-2024")
    );
    assert_eq!(normalize_tag_segment("a__b--c").as_deref(), Some("a-b-c"));
    assert_eq!(normalize_tag_segment("--x--").as_deref(), Some("x"));
    assert_eq!(normalize_tag_segment("Ünï cödé").as_deref(), Some("n-c-d"));
    assert_eq!(normalize_tag_segment("世界"), None);
    assert_eq!(normalize_tag_segment(""), None);
    assert_eq!(normalize_tag_segment("   "), None);
    assert_eq!(normalize_tag_segment("!!!"), None);
    assert_eq!(normalize_tag_segment("A1"), Some("a1".to_string()));
    assert_eq!(normalize_tag_segment("a:b"), Some("a-b".to_string()));
}

#[test]
fn dates_are_calendar_days() {
    assert_eq!(
        Date::from_ymd_opt(2024, 2, 29),
        Some(Date {
            year: 2024,
            month: 2,
            day: 29
        })
    );
    assert_eq!(Date::from_ymd_opt(2023, 2, 29), None);
    assert_eq!(Date::from_ymd_opt(2023, 4, 31), None);
    assert_eq!(Date::from_ymd_opt(2015, 0, 14), None);
    assert_eq!(Date::from_ymd_opt(2015, 13, 1), None);
    assert_eq!(Date::from_ymd_opt(2015, 1, 0), None);
    assert_eq!(Date::from_ymd_opt(1900, 2, 29), None);
    assert!(Date::from_ymd_opt(2000, 2, 29).is_some());
    assert!(Date::from_ymd_opt(-4, 2, 29).is_some());
    assert!(Date::from_ymd_opt(262142, 12, 31).is_some());
    assert!(Date::from_ymd_opt(262143, 1, 1).is_none());
    assert!(Date::from_ymd_opt(-262143, 1, 1).is_some());
    assert!(Date::from_ymd_opt(-262144, 12, 31).is_none());
    for month in 1..=12u32 {
        let days = match month {
            4 | 6 | 9 | 11 => 30,
            2 => 28,
            _ => 31,
        };
        assert!(Date::from_ymd_opt(2023, month, days).is_some());
        assert!(Date::from_ymd_opt(2023, month, days + 1).is_none());
    }
}

#[test]
fn dates_are_ordered_by_year_month_and_day() {
    let a = Date::from_ymd_opt(2023, 12, 31).unwrap();
    let b = Date::from_ymd_opt(2024, 1, 1).unwrap();
    let c = Date::from_ymd_opt(2024, 1, 2).unwrap();
    let d = Date::from_ymd_opt(2024, 2, 1).unwrap();
    let days = [a, b, c, d];
    for (i, left) in days.iter().enumerate() {
        for (j, right) in days.iter().enumerate() {
            assert_eq!(left.precedes(right), i < j);
            assert_eq!(left < right, i < j);
            assert_eq!(left.min_with(*right), days[i.min(j)]);
            assert_eq!(left.max_with(*right), days[i.max(j)]);
        }
    }
}

#[test]
fn journal_entries_are_named_after_their_date() {
    let sept = Date::from_ymd_opt(2025, 9, 14);
    assert_eq!(parse_journal_date("Sept 14, 2025"), sept);
    assert_eq!(parse_journal_date("Sep 14, 2025"), sept);
    assert_eq!(parse_journal_date("September 14, 2025"), sept);
    assert_eq!(parse_journal_date("2025-09-14"), sept);
    assert_eq!(parse_journal_date("  ..2025-09-14.  "), sept);
    assert_eq!(parse_journal_date("January 1, 2024"), Date::from_ymd_opt(2024, 1, 1));
    assert_eq!(parse_journal_date("Feb 30, 2024"), None);
    assert_eq!(parse_journal_date("notes"), None);
    assert_eq!(parse_journal_date(""), None);
    assert_eq!(
        Date::parse_from_str("2024-12-31", "%Y-%m-%d"),
        Date::from_ymd_opt(2024, 12, 31)
    );
    assert_eq!(Date::parse_from_str("2024-13-31", "%Y-%m-%d"), None);
}

#[test]
fn project_notes_are_tagged_by_their_directories() {
    let mut registry = TagRegistry::new();
    let journal = registry.intern_path(&["type", "journal"]).unwrap();
    let project = registry.intern_segment(None, "project");
    let note = registry.intern_path(&["type", "project-note"]).unwrap();
    assert_eq!((journal, project, note), (1, 2, 3));

    let tags = project_note_tags(&mut registry, project, note, &["Sightline", "!!", "Road Map"]);
    assert_eq!(tags, vec![2, 3, 4, 5]);
    assert_eq!(registry.full_name(4).as_deref(), Some("project:sightline"));
    assert_eq!(
        registry.full_name(5).as_deref(),
        Some("project:sightline:road-map")
    );
    let again = project_note_tags(&mut registry, project, note, &["sightline"]);
    assert_eq!(again, vec![2, 3, 4]);
    let top = project_note_tags(&mut registry, project, note, &[]);
    assert_eq!(top, vec![2, 3]);
    let same = project_note_tags(&mut registry, project, project, &[]);
    assert_eq!(same, vec![2]);
    assert_eq!(registry.len(), 6);
}

#[test]
fn an_import_is_a_snapshot_at_version_zero_in_the_order_of_the_dates() {
    let block = |month: u32, text: &str| TaggedBlock {
        date: Date::from_ymd_opt(2024, month, 1).unwrap(),
        text: text.to_string(),
        tags: vec![0],
    };
    let blocks = vec![block(5, "c"), block(1, "a"), block(5, "d"), block(3, "b"), block(1, "a2")];
    let sorted = sort_blocks_by_date(&blocks);
    let texts: Vec<&str> = sorted.iter().map(|entry| entry.text.as_str()).collect();
    assert_eq!(texts, vec!["a", "a2", "b", "c", "d"]);

    let mut registry = TagRegistry::new();
    registry.intern_path(&["type", "journal"]);
    let snapshot = import_snapshot(&registry, &blocks);
    assert_eq!(snapshot.version, 0);
    assert_eq!(snapshot.blocks, sorted);
    match &snapshot.tag_registry {
        Some(TagRegistrySnapshot::Hierarchical(tags)) => {
            assert_eq!(tags.len(), 2);
            assert!(tags.iter().all(|tag| tag.color.is_some()));
        }
        other => panic!("unexpected tags: {:?}", other),
    }
    let loaded = Timeline::from_snapshot(snapshot).expect("accepted");
    assert_eq!(loaded.version(), 0);
    assert_eq!(loaded.content(), "aa2bcd");
    assert_eq!(loaded.search_prefix("type"), vec![0, 1, 2, 3, 4]);
    assert!(import_snapshot(&TagRegistry::new(), &Vec::new())
        .tag_registry
        .is_none());
}

#[test]
fn errors_are_put_in_words() {
    assert_eq!(
        ApplyOpsError::VersionMismatch {
            expected: 12,
            actual: 0
        }
        .message(),
        "version mismatch: expected 12, got 0"
    );
    assert_eq!(
        ApplyOpsError::InvalidPosition { position: 305 }.message(),
        "invalid position: 305"
    );
    assert_eq!(
        ApplyOpsError::InvalidRange { start: 0, end: 10 }.message(),
        "invalid range: 0..10"
    );
    assert_eq!(InternTagError::Empty.message(), "tag name cannot be empty");
    assert_eq!(
        InternTagError::Invalid.message(),
        "tag must contain at least one valid segment"
    );
    assert_eq!(
        InternTagError::MissingName(u32::MAX).message(),
        "failed to resolve canonical name for tag id 4294967295"
    );
    assert_eq!(
        AssignBlockTagsError::InvalidBlock { index: 7 }.message(),
        "block index 7 out of range"
    );
    assert_eq!(
        AssignBlockTagsError::Intern(InternTagError::Empty).message(),
        "tag name cannot be empty"
    );
    let mut digits = String::from("n=");
    push_decimal(&mut digits, u64::MAX);
    assert_eq!(digits, format!("n={}", u64::MAX));
}
