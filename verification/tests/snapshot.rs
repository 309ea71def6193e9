use chrono::Datelike;
use sightline::api::TextOperation;
use sightline::block::TaggedBlock;
use sightline::date::Date;
use sightline::registry::{Tag, TagRegistry};
use sightline::snapshot::{parse_id, read_flat_entries, TagRegistrySnapshot, TimelineSnapshot};
use sightline::legacy::sort_entries;
use sightline::tag_palette::color_for;
use sightline::timeline::Timeline;

fn today() -> Date {
    let now = chrono::Utc::now().date_naive();
    Date::from_ymd_opt(now.year(), now.month(), now.day()).unwrap()
}

fn sample_insert(text: &str) -> TextOperation {
    TextOperation::Insert {
        position: 0,
        text: text.to_string(),
    }
}

#[test]
fn save_to_path_writes_snapshot() {
    let mut timeline = Timeline::default();
    timeline
        .apply_ops(0, &[sample_insert("Snapshot test")], today())
        .expect("apply insert");

    let snapshot = timeline.to_snapshot();

    assert_eq!(snapshot.version, timeline.version());
    assert_eq!(snapshot.blocks.len(), 1);
    assert_eq!(snapshot.blocks[0].text, "Snapshot test");
    assert!(snapshot.tag_registry.is_none());
}

#[test]
fn save_to_path_includes_tag_hierarchy() {
    let mut timeline = Timeline::default();
    let project_id = timeline.tag_registry_mut().intern_segment(None, "project");
    let _child_id = timeline
        .tag_registry_mut()
        .intern_segment(Some(project_id), "sightline");

    let snapshot = timeline.to_snapshot();

    let tags = match snapshot.tag_registry {
        Some(TagRegistrySnapshot::Hierarchical(tags)) => tags,
        other => panic!("unexpected tag registry format: {:?}", other),
    };

    assert_eq!(tags.len(), 2);
    let project = tags
        .iter()
        .find(|tag| tag.name == "project")
        .expect("project tag present");
    assert!(project.parent_id.is_none());

    let sightline = tags
        .iter()
        .find(|tag| tag.name == "sightline")
        .expect("sightline tag present");
    assert_eq!(sightline.parent_id, Some(project.id));
}

#[test]
fn load_from_path_restores_state() {
    let mut timeline = Timeline::default();
    timeline
        .apply_ops(0, &[sample_insert("Restored state")], today())
        .expect("apply insert");

    let loaded = Timeline::from_snapshot(timeline.to_snapshot()).expect("load timeline");

    assert_eq!(loaded.version(), timeline.version());
    assert_eq!(loaded.content(), timeline.content());
    assert_eq!(loaded.entry_count(), timeline.entry_count());
}

#[test]
fn load_missing_file_returns_default() {
    let loaded = Timeline::default();

    assert_eq!(loaded.version(), 0);
    assert_eq!(loaded.entry_count(), 0);
}

#[test]
fn load_legacy_flat_tag_registry() {
    let legacy_snapshot = TimelineSnapshot {
        version: 1,
        blocks: Vec::new(),
        tag_registry: Some(TagRegistrySnapshot::Flat(vec![(
            "5".to_string(),
            "project:sightline".to_string(),
        )])),
    };

    let loaded = Timeline::from_snapshot(legacy_snapshot).expect("load timeline");
    assert_eq!(loaded.version(), 1);
    assert_eq!(loaded.entry_count(), 0);
    assert_eq!(
        loaded.tag_registry().full_name(5).as_deref(),
        Some("project:sightline")
    );
    assert_eq!(
        loaded.tag_registry().get_tag(5).unwrap().color.as_deref(),
        Some(color_for(5))
    );
    assert_eq!(loaded.tag_registry().find_id(None, "project"), Some(0));
    assert_eq!(loaded.tag_registry().len(), 2);
}

#[test]
fn a_round_trip_keeps_version_blocks_and_tags() {
    let date = Date::from_ymd_opt(2024, 2, 29).unwrap();
    let mut registry = TagRegistry::new();
    registry.intern_colon_path("project:sightline:importer");
    registry.intern_colon_path("type:journal");
    registry.intern_segment_with_id(None, "far", Some(900));
    let blocks = vec![
        TaggedBlock {
            date,
            text: "one".to_string(),
            tags: vec![2, 4],
        },
        TaggedBlock {
            date,
            text: "世界".to_string(),
            tags: Vec::new(),
        },
    ];
    let timeline = Timeline::from_parts(blocks.clone(), 41, registry);
    let snapshot = timeline.to_snapshot();
    let loaded = Timeline::from_snapshot(snapshot.clone()).expect("loaded");
    assert_eq!(loaded.version(), 41);
    assert_eq!(loaded.items(), blocks);
    assert_eq!(loaded.tag_registry().export(), timeline.tag_registry().export());
    assert_eq!(loaded.to_snapshot(), snapshot);
    let mut again = loaded;
    assert_eq!(again.tag_registry_mut().intern_segment(None, "next"), 901);
}

#[test]
fn loading_backfills_missing_colours() {
    let snapshot = TimelineSnapshot {
        version: 1,
        blocks: Vec::new(),
        tag_registry: Some(TagRegistrySnapshot::Hierarchical(vec![
            Tag {
                id: 1,
                name: "project".to_string(),
                parent_id: None,
                color: None,
            },
            Tag {
                id: 2,
                name: "sightline".to_string(),
                parent_id: Some(1),
                color: Some("teal".to_string()),
            },
        ])),
    };
    let loaded = Timeline::from_snapshot(snapshot).expect("loaded");
    let tags = loaded.tag_registry().export();
    assert_eq!(tags[0].color.as_deref(), Some(color_for(1)));
    assert_eq!(tags[1].color.as_deref(), Some("teal"));
    assert_eq!(loaded.search_prefix("project"), Vec::<u32>::new());
    assert_eq!(loaded.list_tags().len(), 2);
}

#[test]
fn the_canonical_and_the_flat_form_of_the_same_tags_load_alike() {
    let flat = Timeline::from_snapshot(TimelineSnapshot {
        version: 0,
        blocks: Vec::new(),
        tag_registry: Some(TagRegistrySnapshot::Flat(vec![
            ("5".to_string(), "type:journal".to_string()),
            ("2".to_string(), "project:sightline".to_string()),
            ("4".to_string(), "type".to_string()),
            ("1".to_string(), "project".to_string()),
            ("3".to_string(), "project:home".to_string()),
        ])),
    })
    .expect("flat form");
    let records = |color: bool| -> Vec<Tag> {
        [
            (1, "project", None),
            (2, "sightline", Some(1)),
            (3, "home", Some(1)),
            (4, "type", None),
            (5, "journal", Some(4)),
        ]
        .iter()
        .map(|(id, name, parent_id)| Tag {
            id: *id,
            name: name.to_string(),
            parent_id: *parent_id,
            color: if color {
                Some(color_for(*id).to_string())
            } else {
                None
            },
        })
        .collect()
    };
    let canonical = Timeline::from_snapshot(TimelineSnapshot {
        version: 0,
        blocks: Vec::new(),
        tag_registry: Some(TagRegistrySnapshot::Hierarchical(records(false))),
    })
    .expect("canonical form");
    assert_eq!(flat.tag_registry().export(), records(true));
    assert_eq!(canonical.tag_registry().export(), records(true));
    let mut flat = flat;
    let mut canonical = canonical;
    assert_eq!(flat.tag_registry_mut().intern_segment(None, "next"), 6);
    assert_eq!(canonical.tag_registry_mut().intern_segment(None, "next"), 6);
}

#[test]
fn the_flat_form_gives_ids_to_segments_that_have_none() {
    let registry = TagRegistry::from_map(vec![
        (7, "b:c".to_string()),
        (3, " a : x ".to_string()),
        (9, "a".to_string()),
        (8, "::".to_string()),
    ])
    .expect("registry");
    assert_eq!(registry.full_name(9).as_deref(), Some("a"));
    assert_eq!(registry.full_name(3).as_deref(), Some("a:x"));
    assert_eq!(registry.full_name(7).as_deref(), Some("b:c"));
    assert_eq!(registry.find_id(None, "a"), Some(9));
    assert_eq!(registry.find_id(None, "b"), Some(10));
    assert_eq!(registry.get_tag(3).unwrap().parent_id, Some(9));
    assert_eq!(registry.len(), 4);
    assert_eq!(registry.full_name(8), None);

    let ordered = TagRegistry::from_map(vec![
        (9, "a".to_string()),
        (3, "a:x".to_string()),
    ])
    .expect("registry");
    assert_eq!(ordered.full_name(9).as_deref(), Some("a"));
    assert_eq!(ordered.full_name(3).as_deref(), Some("a:x"));
    assert_eq!(ordered.len(), 2);
}

#[test]
fn the_flat_form_keeps_the_ids_that_it_records() {
    let registry = TagRegistry::from_map(vec![(0, "a:b".to_string())]).expect("registry");
    assert_eq!(registry.full_name(0).as_deref(), Some("a:b"));
    assert_eq!(registry.get_tag(0).unwrap().name, "b");
    assert_eq!(registry.get_tag(0).unwrap().parent_id, Some(1));
    assert_eq!(registry.full_name(1).as_deref(), Some("a"));
    assert_eq!(registry.get_tag(0).unwrap().color.as_deref(), Some(color_for(0)));
    assert_eq!(registry.len(), 2);

    let two = TagRegistry::from_map(vec![
        (0, "work".to_string()),
        (1, "home:chores".to_string()),
    ])
    .expect("registry");
    assert_eq!(two.full_name(0).as_deref(), Some("work"));
    assert_eq!(two.full_name(1).as_deref(), Some("home:chores"));
    assert_eq!(two.find_id(None, "home"), Some(2));
    assert_eq!(two.len(), 3);

    let loaded = Timeline::from_snapshot(TimelineSnapshot {
        version: 0,
        blocks: Vec::new(),
        tag_registry: Some(TagRegistrySnapshot::Flat(vec![(
            "0".to_string(),
            "x:y".to_string(),
        )])),
    })
    .expect("loaded");
    assert_eq!(loaded.tag_registry().full_name(0).as_deref(), Some("x:y"));
    assert!(TagRegistry::from_map(Vec::new()).expect("empty").is_empty());
}

#[test]
fn of_two_entries_of_one_name_the_lesser_id_is_kept() {
    let mut registry = TagRegistry::from_map(vec![
        (8, " a:b ".to_string()),
        (5, "a : b".to_string()),
        (6, "a".to_string()),
        (4294967295, "z".to_string()),
    ])
    .expect("registry");
    assert_eq!(registry.full_name(5).as_deref(), Some("a:b"));
    assert_eq!(registry.full_name(6).as_deref(), Some("a"));
    assert_eq!(registry.full_name(8), None);
    assert_eq!(registry.full_name(u32::MAX).as_deref(), Some("z"));
    assert_eq!(registry.len(), 3);
    assert_eq!(registry.intern_segment(None, "new"), 0);
    assert_eq!(registry.intern_segment(None, "newer"), 1);
}

#[test]
fn entries_of_one_id_get_ids_of_their_own() {
    let registry = TagRegistry::from_map(vec![
        (5, "b".to_string()),
        (5, "a".to_string()),
    ])
    .expect("registry");
    assert_eq!(registry.find_id(None, "a"), Some(5));
    assert_eq!(registry.find_id(None, "b"), Some(6));
    assert_eq!(registry.len(), 2);
}

#[test]
fn paths_are_brought_into_normal_form() {
    assert_eq!(TagRegistry::normalize_path(" a : b :: c "), "a:b:c");
    assert_eq!(TagRegistry::normalize_path("a"), "a");
    assert_eq!(TagRegistry::normalize_path(" : : "), "");
    assert_eq!(TagRegistry::normalize_path(""), "");
    assert_eq!(TagRegistry::normalize_path("世 界:é "), "世 界:é");
}

#[test]
fn entries_are_sorted_by_name_then_id() {
    let sorted = sort_entries(&vec![
        (4, "b".to_string()),
        (9, "a:b".to_string()),
        (2, "a".to_string()),
        (1, "b".to_string()),
        (3, "".to_string()),
        (5, "a b".to_string()),
    ]);
    let mut expected = vec![
        (4, "b".to_string()),
        (9, "a:b".to_string()),
        (2, "a".to_string()),
        (1, "b".to_string()),
        (3, "".to_string()),
        (5, "a b".to_string()),
    ];
    expected.sort_by(|a, b| a.1.cmp(&b.1).then_with(|| a.0.cmp(&b.0)));
    assert_eq!(sorted, expected);
    assert_eq!(sorted[0], (3, String::new()));
    assert_eq!(sorted[5], (4, "b".to_string()));
}

#[test]
fn ids_are_read_as_std_reads_them() {
    let cases = [
        "0", "5", "+5", "05", "4294967295", "4294967296", "99999999999999999999", "", "+", "-1",
        "1 ", " 1", "1a", "٣", "++1", "1+", "0x10", "00000000000000000042",
    ];
    for text in cases {
        assert_eq!(parse_id(text), text.parse::<u32>().ok(), "{text:?}");
    }
    assert_eq!(parse_id("4294967295"), Some(u32::MAX));
    assert_eq!(parse_id("+17"), Some(17));
}

#[test]
fn unreadable_ids_are_dropped_and_repeated_ids_replaced() {
    let entries = read_flat_entries(&vec![
        ("1".to_string(), "a".to_string()),
        ("x".to_string(), "b".to_string()),
        ("2".to_string(), "c".to_string()),
        ("+1".to_string(), "d".to_string()),
        ("".to_string(), "e".to_string()),
    ]);
    assert_eq!(
        entries,
        vec![(1, "d".to_string()), (2, "c".to_string())]
    );
}

#[test]
fn an_id_that_an_entry_records_goes_to_no_other_tag() {
    let registry = TagRegistry::from_map(vec![
        (0, "a:b:c".to_string()),
        (1, "a:d".to_string()),
        (2, "e".to_string()),
        (4, "a".to_string()),
    ])
    .unwrap();
    assert_eq!(registry.full_name(0).as_deref(), Some("a:b:c"));
    assert_eq!(registry.full_name(1).as_deref(), Some("a:d"));
    assert_eq!(registry.full_name(2).as_deref(), Some("e"));
    assert_eq!(registry.full_name(4).as_deref(), Some("a"));
    assert_eq!(registry.len(), 5);
    assert_eq!(registry.full_name(3), None);
    assert_eq!(registry.full_name(5).as_deref(), Some("a:b"));
}

#[test]
fn a_flat_form_that_leaves_a_parent_out_loads_as_the_records_do() {
    let flat = Timeline::from_snapshot(TimelineSnapshot {
        version: 3,
        blocks: Vec::new(),
        tag_registry: Some(TagRegistrySnapshot::Flat(vec![(
            "5".to_string(),
            "project:sightline".to_string(),
        )])),
    })
    .expect("flat form");
    let canonical = Timeline::from_snapshot(TimelineSnapshot {
        version: 3,
        blocks: Vec::new(),
        tag_registry: Some(TagRegistrySnapshot::Hierarchical(vec![
            Tag {
                id: 0,
                name: "project".to_string(),
                parent_id: None,
                color: None,
            },
            Tag {
                id: 5,
                name: "sightline".to_string(),
                parent_id: Some(0),
                color: None,
            },
        ])),
    })
    .expect("canonical form");
    assert_eq!(flat.tag_registry().export(), canonical.tag_registry().export());
    assert_eq!(flat.tag_registry().ids(), vec![0, 5]);
    assert_eq!(
        flat.tag_registry().full_name(5).as_deref(),
        Some("project:sightline")
    );
    assert_eq!(
        canonical.tag_registry().full_name(5).as_deref(),
        Some("project:sightline")
    );
    let mut flat = flat;
    let mut canonical = canonical;
    assert_eq!(flat.tag_registry_mut().intern_segment(None, "next"), 6);
    assert_eq!(canonical.tag_registry_mut().intern_segment(None, "next"), 6);
}
