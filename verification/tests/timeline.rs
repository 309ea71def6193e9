use chrono::Datelike;
use sightline::api::{EditResponse, TextOperation};
use sightline::block::TaggedBlock;
use sightline::date::Date;
use sightline::registry::TagRegistry;
use sightline::rope::ApplyOpsError;
use sightline::tag_palette::color_for;
use sightline::timeline::{AssignBlockTagsError, InternTagError, Timeline};

fn today() -> Date {
    let now = chrono::Utc::now().date_naive();
    Date::from_ymd_opt(now.year(), now.month(), now.day()).unwrap()
}

#[test]
fn apply_insert_updates_content_and_version() {
    let mut timeline = Timeline::default();

    let new_version = timeline
        .apply_ops(
            0,
            &[TextOperation::Insert {
                position: 0,
                text: "Happy New Year!".to_string(),
            }],
            today(),
        )
        .expect("insert succeeds");

    assert_eq!(new_version, 1);
    assert_eq!(timeline.version(), 1);
    assert_eq!(timeline.content(), "Happy New Year!");
    assert_eq!(timeline.entry_count(), 1);
    assert_eq!(timeline.summary().min_date, timeline.summary().max_date);
    assert!(timeline.summary().min_date.is_some());
}

#[test]
fn apply_delete_removes_text() {
    let mut timeline = Timeline::default();

    timeline
        .apply_ops(
            0,
            &[TextOperation::Insert {
                position: 0,
                text: "abcdef".to_string(),
            }],
            today(),
        )
        .expect("initial insert succeeds");

    let new_version = timeline
        .apply_ops(
            1,
            &[TextOperation::Delete {
                start_position: 2,
                end_position: 4,
            }],
            today(),
        )
        .expect("delete succeeds");

    assert_eq!(new_version, 2);
    assert_eq!(timeline.version(), 2);
    assert_eq!(timeline.content(), "abef");
    assert_eq!(timeline.summary().total_chars, 4);
}

#[test]
fn apply_delete_spanning_entries_truncates_correctly() {
    let mut timeline = Timeline::default();

    timeline
        .apply_ops(
            0,
            &[TextOperation::Insert {
                position: 0,
                text: "12345".to_string(),
            }],
            today(),
        )
        .expect("first insert succeeds");

    let position = timeline.summary().total_chars;
    timeline
        .apply_ops(
            1,
            &[TextOperation::Insert {
                position,
                text: "ABCDE".to_string(),
            }],
            today(),
        )
        .expect("second insert succeeds");

    let new_version = timeline
        .apply_ops(
            2,
            &[TextOperation::Delete {
                start_position: 3,
                end_position: 7,
            }],
            today(),
        )
        .expect("delete succeeds");

    assert_eq!(new_version, 3);
    assert_eq!(timeline.version(), 3);
    assert_eq!(timeline.content(), "123CDE");
    assert_eq!(timeline.summary().total_chars, 6);
}

#[test]
fn apply_delete_out_of_bounds_returns_error() {
    let mut timeline = Timeline::default();

    timeline
        .apply_ops(
            0,
            &[TextOperation::Insert {
                position: 0,
                text: "short".to_string(),
            }],
            today(),
        )
        .expect("insert succeeds");

    let result = timeline.apply_ops(
        1,
        &[TextOperation::Delete {
            start_position: 0,
            end_position: 10,
        }],
        today(),
    );

    assert_eq!(
        result.expect_err("delete should fail"),
        ApplyOpsError::InvalidRange { start: 0, end: 10 }
    );
}

#[test]
fn search_prefix_returns_matching_blocks() {
    let date = Date::from_ymd_opt(2024, 8, 1).unwrap();
    let mut registry = TagRegistry::new();
    let project = registry.intern_segment(None, "project");
    let sightline = registry.intern_segment(Some(project), "sightline");
    let home = registry.intern_segment(Some(project), "home");
    let journal = registry
        .intern_path(&["type", "journal"])
        .expect("journal tag");

    let blocks = vec![
        TaggedBlock {
            date,
            text: "Sightline plan".to_string(),
            tags: vec![sightline],
        },
        TaggedBlock {
            date,
            text: "Home renovation".to_string(),
            tags: vec![home],
        },
        TaggedBlock {
            date,
            text: "Daily reflection".to_string(),
            tags: vec![journal],
        },
    ];

    let timeline = Timeline::from_parts(blocks, 0, registry);

    assert_eq!(timeline.search_prefix("#project"), vec![0, 1]);
}

#[test]
fn search_infix_finds_partial_matches() {
    let date = Date::from_ymd_opt(2024, 9, 2).unwrap();
    let mut registry = TagRegistry::new();
    let project = registry.intern_segment(None, "project");
    let sightline = registry.intern_segment(Some(project), "sightline");
    let research = registry.intern_segment(Some(project), "research");

    let blocks = vec![
        TaggedBlock {
            date,
            text: "Sightline planning".to_string(),
            tags: vec![sightline],
        },
        TaggedBlock {
            date,
            text: "Research notes".to_string(),
            tags: vec![research],
        },
    ];

    let timeline = Timeline::from_parts(blocks, 0, registry);

    assert_eq!(timeline.search_infix("sight"), vec![0]);
    assert_eq!(timeline.search_infix("search"), vec![1]);
}

#[test]
fn autocomplete_tags_returns_suggestions() {
    let mut registry = TagRegistry::new();
    let project = registry.intern_segment(None, "project");
    let _sightline = registry.intern_segment(Some(project), "sightline");
    let _strategy = registry.intern_segment(Some(project), "strategy");
    let _journal = registry
        .intern_path(&["type", "journal"])
        .expect("journal tag");

    let timeline = Timeline::from_parts(Vec::new(), 0, registry);

    let results = timeline.autocomplete_tags("#pro");
    let names: Vec<_> = results
        .iter()
        .map(|suggestion| suggestion.name.as_str())
        .collect();
    assert!(names.contains(&"#project"));
    assert!(names.contains(&"#project:sightline"));
    assert!(names.contains(&"#project:strategy"));
    assert!(results.iter().all(|suggestion| suggestion.color.is_some()));

    let type_results = timeline.autocomplete_tags("#type:j");
    assert_eq!(
        type_results
            .iter()
            .map(|suggestion| suggestion.name.as_str())
            .collect::<Vec<_>>(),
        vec!["#type:journal"]
    );
    assert!(type_results
        .iter()
        .all(|suggestion| suggestion.color.is_some()));
}

#[test]
fn intern_tag_creates_and_reuses_entries() {
    let mut timeline = Timeline::default();

    let first = timeline
        .intern_tag("#project:new")
        .expect("create project tag");
    assert_eq!(first.name, "#project:new");
    assert_eq!(first.id, 1);
    assert!(!first.color.is_empty());

    let reused = timeline
        .intern_tag("project:new")
        .expect("reuse existing tag");
    assert_eq!(reused.id, first.id);
    assert_eq!(reused.name, first.name);

    let other = timeline
        .intern_tag("type:journal")
        .expect("create second tag");
    assert_ne!(other.id, first.id);
    assert!(other.name.starts_with("#type"));
}

#[test]
fn intern_tag_rejects_invalid_input() {
    let mut timeline = Timeline::default();
    assert_eq!(timeline.intern_tag("   "), Err(InternTagError::Empty));
    assert_eq!(timeline.intern_tag("#"), Err(InternTagError::Invalid));
}

#[test]
fn assign_block_tags_updates_block() {
    let mut timeline = Timeline::default();
    timeline
        .apply_ops(
            0,
            &[TextOperation::Insert {
                position: 0,
                text: "entry one\n".to_string(),
            }],
            today(),
        )
        .expect("insert first entry");
    let position = timeline.summary().total_chars;
    timeline
        .apply_ops(
            1,
            &[TextOperation::Insert {
                position,
                text: "entry two".to_string(),
            }],
            today(),
        )
        .expect("insert second entry");

    let descriptors = timeline
        .assign_block_tags(
            1,
            &["#project:alpha".to_string(), "type:journal".to_string()],
        )
        .expect("assign tags");

    assert_eq!(descriptors.len(), 2);
    let items = timeline.items();
    let block = items.iter().nth(1).expect("second block");
    assert_eq!(block.tags.len(), 2);
}

#[test]
fn assign_block_tags_rejects_invalid_index() {
    let mut timeline = Timeline::default();
    let error = timeline.assign_block_tags(0, &[]).unwrap_err();
    assert_eq!(error, AssignBlockTagsError::InvalidBlock { index: 0 });
}

#[test]
fn list_blocks_returns_offsets() {
    let mut timeline = Timeline::default();
    timeline
        .apply_ops(
            0,
            &[TextOperation::Insert {
                position: 0,
                text: "alpha\n".to_string(),
            }],
            today(),
        )
        .expect("insert first block");
    let position = timeline.summary().total_chars;
    timeline
        .apply_ops(
            1,
            &[TextOperation::Insert {
                position,
                text: "beta".to_string(),
            }],
            today(),
        )
        .expect("insert second block");

    let blocks = timeline.list_blocks();
    assert_eq!(blocks.len(), 2);
    assert_eq!(blocks[0].start_offset, 0);
    assert_eq!(blocks[0].end_offset, 6);
    assert_eq!(blocks[1].start_offset, blocks[0].end_offset);
    assert_eq!(blocks[1].end_offset, blocks[1].start_offset + 4);
}

fn day(year: i32, month: u32, day: u32) -> Date {
    Date::from_ymd_opt(year, month, day).unwrap()
}

fn block(date: Date, text: &str, tags: Vec<u32>) -> TaggedBlock {
    TaggedBlock {
        date,
        text: text.to_string(),
        tags,
    }
}

#[test]
fn handle_edit_returns_ok_and_updates_document() {
    let mut timeline = Timeline::default();
    let outcome = timeline.apply_ops(
        0,
        &[TextOperation::Insert {
            position: 0,
            text: "Hello".to_string(),
        }],
        today(),
    );
    assert_eq!(
        EditResponse::from_outcome(outcome),
        Ok(EditResponse::Applied { new_version: 1 })
    );
    assert_eq!(timeline.content(), "Hello");
}

#[test]
fn handle_edit_returns_conflict_on_version_mismatch() {
    let mut timeline = Timeline::default();
    let first = timeline.apply_ops(
        0,
        &[TextOperation::Insert {
            position: 0,
            text: "One".to_string(),
        }],
        today(),
    );
    assert_eq!(
        EditResponse::from_outcome(first),
        Ok(EditResponse::Applied { new_version: 1 })
    );

    let stale = timeline.apply_ops(
        0,
        &[TextOperation::Insert {
            position: 3,
            text: "Two".to_string(),
        }],
        today(),
    );
    assert_eq!(
        stale,
        Err(ApplyOpsError::VersionMismatch {
            expected: 1,
            actual: 0
        })
    );
    assert_eq!(
        EditResponse::from_outcome(stale),
        Ok(EditResponse::Conflict { server_version: 1 })
    );
    assert_eq!(timeline.content(), "One");
    assert_eq!(timeline.version(), 1);
    assert_eq!(timeline.entry_count(), 1);
}

#[test]
fn other_errors_are_passed_on_as_errors() {
    let error = ApplyOpsError::InvalidPosition { position: 4 };
    assert_eq!(EditResponse::from_outcome(Err(error)), Err(error));
    let range = ApplyOpsError::InvalidRange { start: 2, end: 1 };
    assert_eq!(EditResponse::from_outcome(Err(range)), Err(range));
}

#[test]
fn an_empty_request_answers_with_the_current_version() {
    let mut timeline = Timeline::from_parts(vec![block(day(2024, 1, 1), "x", Vec::new())], 7, TagRegistry::new());
    assert_eq!(timeline.apply_ops(7, &[], today()), Ok(7));
    assert_eq!(timeline.version(), 7);
    assert_eq!(
        timeline.apply_ops(6, &[], today()),
        Err(ApplyOpsError::VersionMismatch {
            expected: 7,
            actual: 6
        })
    );
    assert_eq!(timeline.content(), "x");
}

#[test]
fn degenerate_operations_still_raise_the_version() {
    let mut timeline = Timeline::default();
    let ops = [
        TextOperation::Insert {
            position: 0,
            text: String::new(),
        },
        TextOperation::Delete {
            start_position: 3,
            end_position: 3,
        },
    ];
    assert_eq!(timeline.apply_ops(0, &ops, today()), Ok(1));
    assert_eq!(timeline.content(), "");
    assert_eq!(timeline.entry_count(), 0);
}

#[test]
fn a_refused_operation_leaves_the_earlier_ones_applied_and_the_version_as_it_was() {
    let today = day(2025, 2, 3);
    let mut timeline = Timeline::default();
    let ops = [
        TextOperation::Insert {
            position: 0,
            text: "kept".to_string(),
        },
        TextOperation::Delete {
            start_position: 2,
            end_position: 9,
        },
    ];
    assert_eq!(
        timeline.apply_ops(0, &ops, today),
        Err(ApplyOpsError::InvalidRange { start: 2, end: 9 })
    );
    assert_eq!(timeline.version(), 0);
    assert_eq!(timeline.content(), "kept");
    assert_eq!(timeline.items(), vec![block(today, "kept", Vec::new())]);
}

#[test]
fn inserts_are_dated_with_the_date_given() {
    let today = day(2025, 2, 3);
    let old = day(2024, 3, 1);
    let mut timeline = Timeline::from_parts(vec![block(old, "old", vec![5])], 3, TagRegistry::new());
    assert_eq!(
        timeline.apply_ops(
            3,
            &[TextOperation::Insert {
                position: 1,
                text: "NEW".to_string()
            }],
            today
        ),
        Ok(4)
    );
    assert_eq!(
        timeline.items(),
        vec![
            block(old, "o", vec![5]),
            block(today, "NEW", Vec::new()),
            block(old, "ld", vec![5]),
        ]
    );
    assert_eq!(timeline.summary().min_date, Some(old));
    assert_eq!(timeline.summary().max_date, Some(today));
    assert_eq!(timeline.log_for_date(today).as_deref(), Some("NEW"));
    assert_eq!(timeline.log_for_date(old).as_deref(), Some("old"));
}

#[test]
fn two_blocks_keep_their_dates_through_a_delete() {
    let a = day(2024, 3, 1);
    let b = day(2024, 3, 2);
    let mut timeline = Timeline::from_parts(
        vec![block(a, "12345", Vec::new()), block(b, "ABCDE", Vec::new())],
        0,
        TagRegistry::new(),
    );
    assert_eq!(
        timeline.apply_ops(
            0,
            &[TextOperation::Delete {
                start_position: 3,
                end_position: 7
            }]
        , today()),
        Ok(1)
    );
    assert_eq!(timeline.content(), "123CDE");
    assert_eq!(
        timeline.items(),
        vec![block(a, "123", Vec::new()), block(b, "CDE", Vec::new())]
    );
}

#[test]
fn get_log_for_date_returns_entries_for_requested_day() {
    let timeline = Timeline::from_parts(
        vec![
            block(day(2024, 12, 30), "Day before\n", Vec::new()),
            block(day(2024, 12, 31), "Morning tasks\n", Vec::new()),
            block(day(2024, 12, 31), "Evening review\n", Vec::new()),
        ],
        3,
        TagRegistry::new(),
    );
    assert_eq!(
        timeline.log_for_date(day(2024, 12, 31)).as_deref(),
        Some("Morning tasks\nEvening review\n")
    );
    assert_eq!(
        timeline.log_for_date(day(2024, 12, 30)).as_deref(),
        Some("Day before\n")
    );
    assert_eq!(timeline.log_for_date(day(2024, 12, 29)), None);
    assert_eq!(timeline.log_for_date(day(2025, 1, 1)), None);
    assert_eq!(Timeline::default().log_for_date(day(2025, 1, 1)), None);
}

#[test]
fn a_day_without_text_has_no_log() {
    let timeline = Timeline::from_parts(
        vec![
            block(day(2024, 1, 1), "a", Vec::new()),
            block(day(2024, 1, 2), "", Vec::new()),
            block(day(2024, 1, 5), "b", Vec::new()),
        ],
        0,
        TagRegistry::new(),
    );
    assert_eq!(timeline.log_for_date(day(2024, 1, 2)), None);
    assert_eq!(timeline.log_for_date(day(2024, 1, 3)), None);
    assert_eq!(timeline.log_for_date(day(2024, 1, 5)).as_deref(), Some("b"));
}

#[test]
fn get_document_snapshot_returns_content_and_version() {
    let timeline = Timeline::from_parts(
        vec![block(day(2025, 1, 1), "Happy New Year!", Vec::new())],
        7,
        TagRegistry::new(),
    );
    let document = timeline.document_snapshot();
    assert_eq!(document.content, "Happy New Year!");
    assert_eq!(document.version, 7);
}

fn search_timeline() -> Timeline {
    let mut registry = TagRegistry::new();
    registry.intern_segment_with_id(None, "project", Some(1));
    registry.intern_segment_with_id(Some(1), "sightline", Some(2));
    registry.intern_segment_with_id(Some(1), "home", Some(3));
    registry.intern_segment_with_id(None, "type", Some(4));
    registry.intern_segment_with_id(Some(4), "journal", Some(5));
    Timeline::from_parts(
        vec![
            block(day(2024, 1, 1), "Sightline planning", vec![2]),
            block(day(2024, 1, 2), "Home improvements", vec![3]),
            block(day(2024, 1, 3), "Journal entry", vec![5]),
        ],
        1,
        registry,
    )
}

#[test]
fn search_prefix_command_returns_matching_block_ids() {
    assert_eq!(search_timeline().search_prefix("#project"), vec![0, 1]);
}

#[test]
fn search_infix_command_returns_partial_matches() {
    assert_eq!(search_timeline().search_infix("sight"), vec![0]);
}

#[test]
fn searches_without_a_query_or_a_match_find_nothing() {
    let timeline = search_timeline();
    assert!(timeline.search_prefix("").is_empty());
    assert!(timeline.search_prefix(" # ").is_empty());
    assert!(timeline.search_infix("nothing").is_empty());
    assert_eq!(timeline.search_infix("E"), vec![0, 1, 2]);
    assert_eq!(timeline.block_ids_with_tags(&[5, 2]), vec![0, 2]);
    assert!(timeline.block_ids_with_tags(&[]).is_empty());
    assert!(timeline.block_ids_with_tags(&[1, 4]).is_empty());
}

#[test]
fn autocomplete_tag_command_returns_canonical_tags() {
    let tags = search_timeline().autocomplete_tags("#pro");
    let names: Vec<_> = tags
        .iter()
        .map(|suggestion| suggestion.name.as_str())
        .collect();
    assert!(names.contains(&"#project"));
    assert!(names.contains(&"#project:sightline"));
    assert!(names.contains(&"#project:home"));
    assert!(tags.iter().all(|suggestion| suggestion.color.is_some()));
    assert_eq!(names, vec!["#project", "#project:home", "#project:sightline"]);
}

#[test]
fn intern_tag_command_creates_and_persists() {
    let mut timeline = Timeline::default();
    let descriptor = timeline.intern_tag("#focus:deep").expect("descriptor");
    assert!(descriptor.id >= 1);
    assert_eq!(descriptor.name, "#focus:deep");
    assert!(!descriptor.color.is_empty());
    assert_eq!(descriptor.color, color_for(descriptor.id));
    assert!(timeline
        .tag_registry()
        .export()
        .iter()
        .any(|tag| tag.name == "deep"));
}

#[test]
fn intern_tag_normalises_what_it_is_given() {
    let mut timeline = Timeline::default();
    let descriptor = timeline.intern_tag("  ## a : b :: c  ").expect("descriptor");
    assert_eq!(descriptor.name, "#a:b:c");
    assert_eq!(descriptor.id, 2);
    assert_eq!(timeline.intern_tag(" #: :"), Err(InternTagError::Invalid));
    assert_eq!(timeline.intern_tag(""), Err(InternTagError::Empty));
    assert_eq!(timeline.intern_tag("###"), Err(InternTagError::Invalid));
    assert_eq!(timeline.tag_registry().len(), 3);
}

#[test]
fn assign_block_tags_command_updates_block() {
    let mut timeline = search_timeline();
    let descriptors = timeline
        .assign_block_tags(
            1,
            &["#project:home".to_string(), "type:journal".to_string()],
        )
        .expect("descriptor list");
    assert_eq!(descriptors.len(), 2);
    assert!(descriptors.iter().all(|d| d.id > 0));
    assert!(descriptors.iter().all(|d| !d.color.is_empty()));
    assert!(descriptors.iter().any(|d| d.name == "#project:home"));
    assert_eq!(timeline.items()[1].tags, vec![3, 5]);
    assert_eq!(timeline.items()[0].tags, vec![2]);
    assert_eq!(timeline.items()[1].text, "Home improvements");
    assert_eq!(timeline.version(), 1);
    assert!(timeline.summary().may_hold_tag(5));
}

#[test]
fn assign_block_tags_stops_at_a_refused_tag() {
    let mut timeline = search_timeline();
    let result = timeline.assign_block_tags(
        0,
        &["fresh".to_string(), "  ".to_string(), "later".to_string()],
    );
    assert_eq!(
        result,
        Err(AssignBlockTagsError::Intern(InternTagError::Empty))
    );
    assert_eq!(timeline.items()[0].tags, vec![2]);
    assert_eq!(timeline.tag_registry().find_id(None, "fresh"), Some(6));
    assert_eq!(timeline.tag_registry().find_id(None, "later"), None);
    let cleared = timeline.assign_block_tags(0, &[]).expect("no tags");
    assert!(cleared.is_empty());
    assert!(timeline.items()[0].tags.is_empty());
    assert_eq!(
        timeline.assign_block_tags(3, &["x".to_string()]),
        Err(AssignBlockTagsError::InvalidBlock { index: 3 })
    );
    assert_eq!(timeline.tag_registry().find_id(None, "x"), None);
}

#[test]
fn tags_with_broken_chains_are_left_out_and_do_not_stop_new_tags() {
    let mut timeline = Timeline::default();
    {
        let registry = timeline.tag_registry_mut();
        registry.intern_segment_with_id(None, "top", Some(0));
    }
    let broken = TagRegistry::from_tags(vec![
        sightline::registry::Tag {
            id: 1,
            name: "a".to_string(),
            parent_id: Some(2),
            color: None,
        },
        sightline::registry::Tag {
            id: 2,
            name: "b".to_string(),
            parent_id: Some(1),
            color: None,
        },
    ]);
    let mut looped = Timeline::from_parts(Vec::new(), 0, broken);
    assert_eq!(timeline.intern_tag("top").map(|d| d.id), Ok(0));
    assert!(looped.list_tags().is_empty());
    let made = looped.intern_tag("c").expect("root tag");
    assert_eq!(made.name, "#c");
    looped.tag_registry_mut().intern_segment(Some(1), "d");
    assert_eq!(
        looped.assign_block_tags(0, &[]),
        Err(AssignBlockTagsError::InvalidBlock { index: 0 })
    );
}

#[test]
fn list_tags_command_returns_descriptors() {
    let descriptors = search_timeline().list_tags();
    assert!(!descriptors.is_empty());
    assert!(descriptors.iter().all(|d| d.name.starts_with('#')));
    assert!(descriptors.iter().all(|d| !d.color.is_empty()));
    let names: Vec<_> = descriptors.iter().map(|d| d.name.as_str()).collect();
    assert_eq!(
        names,
        vec![
            "#project",
            "#project:home",
            "#project:sightline",
            "#type",
            "#type:journal"
        ]
    );
    let ids: Vec<_> = descriptors.iter().map(|d| d.id).collect();
    assert_eq!(ids, vec![1, 3, 2, 4, 5]);
    assert_eq!(descriptors[1].color, color_for(3));
}

#[test]
fn list_blocks_command_returns_ranges() {
    let blocks = search_timeline().list_blocks();
    assert!(!blocks.is_empty());
    assert!(blocks
        .windows(2)
        .all(|pair| pair[0].end_offset <= pair[1].start_offset));
    assert_eq!(blocks.len(), 3);
    assert_eq!(
        (blocks[0].index, blocks[0].start_offset, blocks[0].end_offset),
        (0, 0, 18)
    );
    assert_eq!(
        (blocks[1].index, blocks[1].start_offset, blocks[1].end_offset),
        (1, 18, 35)
    );
    assert_eq!(
        (blocks[2].index, blocks[2].start_offset, blocks[2].end_offset),
        (2, 35, 48)
    );
    assert_eq!(blocks[2].tags, vec![5]);
    assert!(Timeline::default().list_blocks().is_empty());
}

#[test]
fn offsets_count_characters_not_bytes() {
    let timeline = Timeline::from_parts(
        vec![
            block(day(2024, 1, 1), "世界", Vec::new()),
            block(day(2024, 1, 1), "é", Vec::new()),
        ],
        0,
        TagRegistry::new(),
    );
    let blocks = timeline.list_blocks();
    assert_eq!((blocks[0].start_offset, blocks[0].end_offset), (0, 2));
    assert_eq!((blocks[1].start_offset, blocks[1].end_offset), (2, 3));
    assert_eq!(timeline.summary().total_bytes, 8);
    assert_eq!(timeline.summary().total_chars, 3);
    assert_eq!(timeline.content(), "世界é");
}
