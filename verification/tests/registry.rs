use sightline::registry::{NameMatch, Tag, TagRegistry};
use sightline::tag_palette::color_for;

#[test]
fn tag_registry_assigns_unique_ids() {
    let mut registry = TagRegistry::new();
    let alpha = registry.intern_segment(None, "alpha");
    let beta = registry.intern_segment(None, "beta");

    assert_ne!(alpha, beta);
    assert_eq!(
        registry.get_tag(alpha).map(|tag| tag.name.as_str()),
        Some("alpha")
    );
    assert_eq!(
        registry.get_tag(beta).map(|tag| tag.name.as_str()),
        Some("beta")
    );
}

#[test]
fn tag_registry_reuses_existing_id_for_same_tag() {
    let mut registry = TagRegistry::new();
    let first = registry
        .intern_path(&["project", "sightline"])
        .expect("path id");
    let second = registry
        .intern_path(&["project", "sightline"])
        .expect("path id");

    assert_eq!(first, second);
    let tag = registry.get_tag(first).expect("tag exists");
    assert_eq!(tag.name, "sightline");
    let parent = tag.parent_id.and_then(|id| registry.get_tag(id));
    assert_eq!(parent.map(|tag| tag.name.as_str()), Some("project"));
}

#[test]
fn tag_registry_full_name_reconstructs_hierarchy() {
    let mut registry = TagRegistry::new();
    let id = registry
        .intern_path(&["project", "sightline", "importer"])
        .expect("path id");

    assert_eq!(
        registry.full_name(id).as_deref(),
        Some("project:sightline:importer")
    );

    let child = registry.get_tag(id).unwrap();
    let parent = registry.get_tag(child.parent_id.unwrap()).unwrap();
    assert_eq!(parent.name, "sightline");
    let grandparent = registry.get_tag(parent.parent_id.unwrap()).unwrap();
    assert_eq!(grandparent.name, "project");
}

#[test]
fn tag_registry_intern_colon_path_trims_segments() {
    let mut registry = TagRegistry::new();
    let id = registry
        .intern_colon_path(" project : sightline : importer ")
        .expect("path id");

    assert_eq!(
        registry.full_name(id).as_deref(),
        Some("project:sightline:importer")
    );
}

#[test]
fn new_registry_is_empty() {
    let registry = TagRegistry::new();
    assert_eq!(registry.len(), 0);
    assert!(registry.is_empty());
    assert!(registry.get_tag(0).is_none());
    assert_eq!(registry.full_name(0), None);
    assert!(registry.ids().is_empty());
    assert!(registry.export().is_empty());
}

#[test]
fn ids_are_handed_out_from_zero_upwards() {
    let mut registry = TagRegistry::new();
    assert_eq!(registry.intern_segment(None, "a"), 0);
    assert_eq!(registry.intern_segment(Some(0), "b"), 1);
    assert_eq!(registry.intern_segment(None, "c"), 2);
    assert_eq!(registry.intern_segment(Some(0), "b"), 1);
    assert_eq!(registry.len(), 3);
    assert!(!registry.is_empty());
}

#[test]
fn new_tags_carry_the_palette_colour_of_their_id() {
    let mut registry = TagRegistry::new();
    for index in 0..20u32 {
        let name = format!("tag{index}");
        let id = registry.intern_segment(None, &name);
        let tag = registry.get_tag(id).expect("tag");
        assert_eq!(tag.color.as_deref(), Some(color_for(id)));
        assert_eq!(tag.id, id);
        assert_eq!(tag.parent_id, None);
    }
    assert_eq!(color_for(0), "oklch(0.78 0.20 25)");
    assert_eq!(color_for(15), "oklch(0.79 0.19 70)");
    assert_eq!(color_for(16), color_for(0));
    assert_eq!(color_for(35), "oklch(0.83 0.17 120)");
    assert_eq!(color_for(u32::MAX), "oklch(0.79 0.19 70)");
}

#[test]
fn find_id_looks_up_without_creating() {
    let mut registry = TagRegistry::new();
    assert_eq!(registry.find_id(None, "project"), None);
    let project = registry.intern_segment(None, "project");
    let child = registry.intern_segment(Some(project), "sightline");
    assert_eq!(registry.find_id(None, "project"), Some(project));
    assert_eq!(registry.find_id(Some(project), "sightline"), Some(child));
    assert_eq!(registry.find_id(None, "sightline"), None);
    assert_eq!(registry.find_id(Some(child), "project"), None);
    assert_eq!(registry.len(), 2);
}

#[test]
fn a_desired_id_is_used_for_a_new_segment_and_moves_the_next_id() {
    let mut registry = TagRegistry::new();
    assert_eq!(registry.intern_segment_with_id(None, "late", Some(7)), 7);
    assert_eq!(registry.intern_segment(None, "after"), 8);
    assert_eq!(registry.intern_segment_with_id(None, "early", Some(3)), 3);
    assert_eq!(registry.intern_segment(None, "next"), 9);
    assert_eq!(registry.intern_segment_with_id(None, "late", Some(50)), 7);
}

#[test]
fn id_allocation_skips_taken_ids_and_wraps_around() {
    let mut registry = TagRegistry::new();
    assert_eq!(
        registry.intern_segment_with_id(None, "last", Some(u32::MAX)),
        u32::MAX
    );
    assert_eq!(registry.intern_segment(None, "first"), 0);
    assert_eq!(registry.intern_segment_with_id(None, "two", Some(2)), 2);
    assert_eq!(registry.intern_segment(None, "three"), 3);

    let mut other = TagRegistry::from_tags(vec![
        Tag {
            id: 0,
            name: "zero".to_string(),
            parent_id: None,
            color: None,
        },
        Tag {
            id: 1,
            name: "one".to_string(),
            parent_id: None,
            color: None,
        },
    ]);
    other.rebuild_indexes();
    assert_eq!(other.intern_segment(None, "two"), 2);
}

#[test]
fn try_intern_refuses_what_cannot_be_interned() {
    let mut registry = TagRegistry::new();
    assert_eq!(
        registry.try_intern_segment_with_id(Some(9), "orphan", None),
        None
    );
    assert_eq!(registry.try_intern_segment_with_id(None, "a", Some(4)), Some(4));
    assert_eq!(registry.try_intern_segment_with_id(None, "b", Some(4)), None);
    assert_eq!(registry.try_intern_segment_with_id(None, "a", Some(9)), Some(4));
    assert_eq!(registry.try_intern_segment_with_id(Some(4), "c", None), Some(5));
    assert_eq!(registry.len(), 2);
}

#[test]
fn intern_path_skips_empty_segments() {
    let mut registry = TagRegistry::new();
    assert_eq!(registry.intern_path(&[]), None);
    assert_eq!(registry.intern_path(&["", "  ", "\t"]), None);
    assert_eq!(registry.len(), 0);
    let id = registry.intern_path(&["", " a ", "   ", "b"]).expect("id");
    assert_eq!(registry.full_name(id).as_deref(), Some("a:b"));
    assert_eq!(registry.len(), 2);
}

#[test]
fn intern_colon_path_round_trips_to_the_normal_form() {
    let mut registry = TagRegistry::new();
    let cases = [
        ("a", "a"),
        ("a:b", "a:b"),
        (" a : b ", "a:b"),
        ("::a:::b::", "a:b"),
        ("a: :b", "a:b"),
        ("project:sightline:importer", "project:sightline:importer"),
        ("Ünï : 世界", "Ünï:世界"),
        ("a b : c\u{a0}", "a b:c"),
    ];
    for (path, normal) in cases {
        let id = registry.intern_colon_path(path).expect("id");
        assert_eq!(registry.full_name(id).as_deref(), Some(normal));
    }
    assert_eq!(registry.intern_colon_path(""), None);
    assert_eq!(registry.intern_colon_path(" : : "), None);
    assert_eq!(registry.intern_colon_path(":"), None);
}

#[test]
fn full_name_is_none_for_broken_chains() {
    let registry = TagRegistry::from_tags(vec![
        Tag {
            id: 1,
            name: "orphan".to_string(),
            parent_id: Some(9),
            color: None,
        },
        Tag {
            id: 2,
            name: "loop-a".to_string(),
            parent_id: Some(3),
            color: None,
        },
        Tag {
            id: 3,
            name: "loop-b".to_string(),
            parent_id: Some(2),
            color: None,
        },
        Tag {
            id: 4,
            name: "root".to_string(),
            parent_id: None,
            color: None,
        },
        Tag {
            id: 5,
            name: "self".to_string(),
            parent_id: Some(5),
            color: None,
        },
    ]);
    assert_eq!(registry.full_name(1), None);
    assert_eq!(registry.full_name(2), None);
    assert_eq!(registry.full_name(3), None);
    assert_eq!(registry.full_name(5), None);
    assert_eq!(registry.full_name(4).as_deref(), Some("root"));
    assert_eq!(registry.full_name(77), None);
    assert_eq!(registry.tag_names(), vec![(4, "root".to_string())]);
}

#[test]
fn from_tags_backfills_colours_and_derives_the_next_id() {
    let mut registry = TagRegistry::from_tags(vec![
        Tag {
            id: 5,
            name: "five".to_string(),
            parent_id: None,
            color: None,
        },
        Tag {
            id: 2,
            name: "two".to_string(),
            parent_id: Some(5),
            color: Some("red".to_string()),
        },
        Tag {
            id: 5,
            name: "five again".to_string(),
            parent_id: None,
            color: None,
        },
    ]);
    assert_eq!(registry.len(), 2);
    assert_eq!(registry.get_tag(5).unwrap().name, "five again");
    assert_eq!(registry.get_tag(5).unwrap().color.as_deref(), Some(color_for(5)));
    assert_eq!(registry.get_tag(2).unwrap().color.as_deref(), Some("red"));
    assert_eq!(registry.full_name(2).as_deref(), Some("five again:two"));
    assert_eq!(registry.intern_segment(None, "new"), 6);

    let mut empty = TagRegistry::from_tags(Vec::new());
    assert_eq!(empty.intern_segment(None, "first"), 0);
}

#[test]
fn export_lists_tags_by_id() {
    let mut registry = TagRegistry::new();
    registry.intern_segment_with_id(None, "c", Some(30));
    registry.intern_segment_with_id(None, "a", Some(10));
    registry.intern_segment_with_id(Some(10), "b", Some(20));
    let exported = registry.export();
    let ids: Vec<u32> = exported.iter().map(|tag| tag.id).collect();
    assert_eq!(ids, vec![10, 20, 30]);
    assert_eq!(exported[1].name, "b");
    assert_eq!(exported[1].parent_id, Some(10));
    assert_eq!(exported[1].color.as_deref(), Some(color_for(20)));
    let mut listed = registry.ids();
    listed.sort();
    assert_eq!(listed, vec![10, 20, 30]);

    let reloaded = TagRegistry::from_tags(exported.clone());
    assert_eq!(reloaded.export(), exported);
}

#[test]
fn queries_are_normalised() {
    assert_eq!(TagRegistry::normalize_query("  #Pro "), "pro");
    assert_eq!(TagRegistry::normalize_query("##Type:J"), "type:j");
    assert_eq!(TagRegistry::normalize_query("   "), "");
    assert_eq!(TagRegistry::normalize_query("#"), "");
    assert_eq!(TagRegistry::normalize_query("# x"), " x");
    assert_eq!(TagRegistry::normalize_query("ÄB"), "äb");
}

fn sample_registry() -> TagRegistry {
    let mut registry = TagRegistry::new();
    let project = registry.intern_segment(None, "Project");
    registry.intern_segment(Some(project), "sightline");
    registry.intern_segment(Some(project), "strategy");
    registry.intern_path(&["type", "journal"]).expect("journal");
    registry
}

#[test]
fn tag_ids_with_prefix_and_infix_match_lowercase_full_names() {
    let registry = sample_registry();
    let mut prefix = registry.tag_ids_with_prefix("#pro");
    prefix.sort();
    assert_eq!(prefix, vec![0, 1, 2]);
    let mut infix = registry.tag_ids_with_infix("S");
    infix.sort();
    assert_eq!(infix, vec![1, 2]);
    assert_eq!(registry.tag_ids_with_infix("journal"), vec![4]);
    assert_eq!(registry.tag_ids_with_prefix("journal"), Vec::<u32>::new());
    assert_eq!(registry.tag_ids_with_prefix(""), Vec::<u32>::new());
    assert_eq!(registry.tag_ids_with_infix(" # "), Vec::<u32>::new());
    assert_eq!(registry.tag_ids_with_prefix("PROJECT:S").len(), 2);
    let mut all = registry.filter_tag_ids("e", NameMatch::Infix);
    all.sort();
    assert_eq!(all, vec![0, 1, 2, 3, 4]);
    assert_eq!(registry.filter_tag_ids("type:", NameMatch::Prefix), vec![4]);
}

#[test]
fn autocomplete_sorts_and_deduplicates() {
    let mut registry = sample_registry();
    registry.intern_segment(None, "Project:sightline");
    let suggestions = registry.autocomplete("#PRO");
    let names: Vec<&str> = suggestions.iter().map(|s| s.name.as_str()).collect();
    assert_eq!(
        names,
        vec!["#Project", "#Project:sightline", "#Project:strategy"]
    );
    assert!(suggestions.iter().all(|s| s.color.is_some()));
    assert_eq!(suggestions[0].color.as_deref(), Some(color_for(0)));
    assert!(registry.autocomplete("").is_empty());
    assert!(registry.autocomplete("  #  ").is_empty());
    assert!(registry.autocomplete("nothing").is_empty());
}

#[test]
fn describe_gives_name_and_colour() {
    let registry = sample_registry();
    let descriptor = registry.describe(1).expect("descriptor");
    assert_eq!(descriptor.id, 1);
    assert_eq!(descriptor.name, "#Project:sightline");
    assert_eq!(descriptor.color, color_for(1));
    assert!(registry.describe(99).is_none());
}

#[test]
fn an_interned_path_has_its_full_name_among_broken_chains() {
    let mut registry = TagRegistry::from_tags(vec![
        Tag {
            id: 1,
            name: "orphan".to_string(),
            parent_id: Some(9),
            color: None,
        },
        Tag {
            id: 2,
            name: "loop-a".to_string(),
            parent_id: Some(3),
            color: None,
        },
        Tag {
            id: 3,
            name: "loop-b".to_string(),
            parent_id: Some(2),
            color: None,
        },
    ]);
    let leaf = registry.intern_colon_path(" loop-a : orphan :: leaf ").unwrap();
    assert_eq!(registry.full_name(leaf).as_deref(), Some("loop-a:orphan:leaf"));
    assert_eq!(registry.len(), 6);
    assert_eq!(registry.full_name(2), None);
    let again = registry.intern_colon_path("loop-a:orphan:leaf").unwrap();
    assert_eq!(again, leaf);
    assert_eq!(registry.len(), 6);
}
