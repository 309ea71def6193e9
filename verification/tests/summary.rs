use bloomfilter::Bloom;
use sightline::block::TaggedBlock;
use sightline::date::Date;
use sightline::summary::{Chars, TimelineSummary};
use sightline::tag_filter::{
    add_tag, copy_filter, filters_can_unite, may_hold_tag, new_tag_filter, union_tag_filters,
    FILTER_HEADER_LEN, TAG_FILTER_BYTES, TAG_FILTER_CAPACITY,
};
use sightline::tree::BlockTree;
use zed_sum_tree::{Dimension, Item, SumTree};

#[test]
fn filter_cursor_prunes_blocks_without_matching_tag() {
    let tag_id = 42;
    let date = Date::from_ymd_opt(2024, 6, 1).unwrap();
    let blocks = vec![
        TaggedBlock {
            date,
            text: "First".to_string(),
            tags: Vec::new(),
        },
        TaggedBlock {
            date,
            text: "Tagged".to_string(),
            tags: vec![tag_id],
        },
        TaggedBlock {
            date,
            text: "Third".to_string(),
            tags: Vec::new(),
        },
    ];

    let tree = SumTree::from_iter(blocks, ());
    let mut cursor = tree.filter::<_, ()>((), |summary: &TimelineSummary| {
        summary.tags_filter.check(&tag_id)
    });

    cursor.next();
    let item = cursor.item().expect("cursor should point at tagged block");
    assert_eq!(item.text, "Tagged");

    cursor.next();
    assert!(cursor.item().is_none());
}

#[test]
fn chars_dimension_accumulates_character_counts() {
    let mut dimension = Chars::zero(());

    let summary_a = TimelineSummary {
        total_chars: 3,
        ..TimelineSummary::default()
    };
    dimension.add_summary(&summary_a, ());

    let summary_b = TimelineSummary {
        total_chars: 5,
        ..TimelineSummary::default()
    };
    dimension.add_summary(&summary_b, ());

    assert_eq!(dimension.0, 8);
}

#[test]
fn summary_aggregates_counts_and_dates() {
    let date_a = Date::from_ymd_opt(2024, 5, 1).unwrap();
    let date_b = Date::from_ymd_opt(2024, 5, 3).unwrap();

    let tag_id = 7;
    let entry_a = TaggedBlock {
        date: date_a,
        text: "Hello".to_string(),
        tags: vec![tag_id],
    };
    let entry_b = TaggedBlock {
        date: date_b,
        text: "世界".to_string(),
        tags: Vec::new(),
    };

    let mut summary = entry_a.summary(());
    let other_summary = entry_b.summary(());
    zed_sum_tree::Summary::add_summary(&mut summary, &other_summary, ());

    assert_eq!(summary.entry_count, 2);
    assert_eq!(summary.total_chars, 7);
    assert_eq!(summary.total_bytes, 5 + "世界".len());
    assert_eq!(summary.min_date, Some(date_a));
    assert_eq!(summary.max_date, Some(date_b));
    assert!(summary.tags_filter.check(&tag_id));
}

#[test]
fn the_tag_filter_is_the_filter_for_256_items_at_one_in_a_hundred() {
    assert_eq!(TAG_FILTER_CAPACITY, 256);
    assert_eq!(
        Bloom::<u32>::compute_bitmap_size(TAG_FILTER_CAPACITY, 0.01),
        TAG_FILTER_BYTES
    );
    let expected: Bloom<u32> =
        Bloom::new_for_fp_rate_with_seed(TAG_FILTER_CAPACITY, 0.01, &[0u8; 32]).unwrap();
    let filter = new_tag_filter();
    assert_eq!(filter.as_slice(), expected.as_slice());
    assert_eq!(filter.as_slice().len(), FILTER_HEADER_LEN + TAG_FILTER_BYTES);
    assert_eq!(filter.len(), 8 * TAG_FILTER_BYTES as u64);
    assert_eq!(filter.seed(), [0u8; 32]);
    assert!(filter.is_empty());
    assert_eq!(new_tag_filter().as_slice(), filter.as_slice());
}

#[test]
fn tags_added_to_a_filter_test_positive() {
    let mut filter = new_tag_filter();
    assert!(!may_hold_tag(&filter, 7));
    add_tag(&mut filter, 7);
    assert!(may_hold_tag(&filter, 7));
    assert!(!filter.is_empty());
    let before = filter.to_bytes();
    add_tag(&mut filter, 7);
    assert_eq!(filter.to_bytes(), before);
    assert_eq!(before[..FILTER_HEADER_LEN], new_tag_filter().as_slice()[..FILTER_HEADER_LEN]);
    for tag in 0..256u32 {
        add_tag(&mut filter, tag * 3);
    }
    for tag in 0..256u32 {
        assert!(may_hold_tag(&filter, tag * 3));
    }
    let copy = copy_filter(&filter);
    assert_eq!(copy.as_slice(), filter.as_slice());
}

#[test]
fn union_of_filters_holds_the_tags_of_both() {
    let mut left = new_tag_filter();
    let mut right = new_tag_filter();
    add_tag(&mut left, 1);
    add_tag(&mut left, 2);
    add_tag(&mut right, 3);
    let left_bytes = left.to_bytes();
    let right_bytes = right.to_bytes();
    assert!(filters_can_unite(&left, &right));
    union_tag_filters(&mut left, &right);
    for tag in [1, 2, 3] {
        assert!(may_hold_tag(&left, tag));
    }
    let united = left.to_bytes();
    for index in 0..united.len() {
        if index < FILTER_HEADER_LEN {
            assert_eq!(united[index], left_bytes[index]);
        } else {
            assert_eq!(united[index], left_bytes[index] | right_bytes[index]);
        }
    }
    assert_eq!(right.to_bytes(), right_bytes);

    let mut blank = new_tag_filter();
    union_tag_filters(&mut blank, &right);
    assert_eq!(blank.to_bytes(), right_bytes);
    union_tag_filters(&mut right, &new_tag_filter());
    assert_eq!(right.to_bytes(), right_bytes);

    let small: Bloom<u32> = Bloom::new_with_seed(8, 4, &[0u8; 32]).unwrap();
    let mut small_set = small.clone();
    small_set.set(&1);
    assert!(filters_can_unite(&left, &small));
    assert!(!filters_can_unite(&left, &small_set));
}

#[test]
fn merging_summaries_is_associative_with_the_empty_summary_as_identity() {
    let a = TaggedBlock {
        date: Date::from_ymd_opt(2024, 5, 2).unwrap(),
        text: "a".to_string(),
        tags: vec![1],
    }
    .summarize();
    let b = TaggedBlock {
        date: Date::from_ymd_opt(2023, 12, 31).unwrap(),
        text: "bb".to_string(),
        tags: vec![2, 3],
    }
    .summarize();
    let c = TaggedBlock {
        date: Date::from_ymd_opt(2024, 5, 3).unwrap(),
        text: "世界".to_string(),
        tags: Vec::new(),
    }
    .summarize();

    let mut left = a.clone();
    left.merge(&b);
    left.merge(&c);
    let mut tail = b.clone();
    tail.merge(&c);
    let mut right = a.clone();
    right.merge(&tail);
    for summary in [&left, &right] {
        assert_eq!(summary.total_bytes, 9);
        assert_eq!(summary.total_chars, 5);
        assert_eq!(summary.entry_count, 3);
        assert_eq!(summary.min_date, Date::from_ymd_opt(2023, 12, 31));
        assert_eq!(summary.max_date, Date::from_ymd_opt(2024, 5, 3));
        for tag in [1, 2, 3] {
            assert!(summary.may_hold_tag(tag));
        }
    }
    assert_eq!(left.tags_filter.as_slice(), right.tags_filter.as_slice());

    let mut with_zero = TimelineSummary::default();
    with_zero.merge(&a);
    assert_eq!(with_zero.total_chars, 1);
    assert_eq!(with_zero.min_date, a.min_date);
    assert_eq!(with_zero.tags_filter.as_slice(), a.tags_filter.as_slice());
    let mut zero_after = a.clone();
    zero_after.merge(&TimelineSummary::default());
    assert_eq!(zero_after.entry_count, 1);
    assert_eq!(zero_after.max_date, a.max_date);
    assert_eq!(zero_after.tags_filter.as_slice(), a.tags_filter.as_slice());
}

#[test]
fn counts_stop_at_the_greatest_count() {
    let mut summary = TimelineSummary {
        total_bytes: usize::MAX - 1,
        total_chars: usize::MAX,
        entry_count: 5,
        ..TimelineSummary::default()
    };
    let other = TimelineSummary {
        total_bytes: 7,
        total_chars: 1,
        entry_count: 5,
        ..TimelineSummary::default()
    };
    summary.merge(&other);
    assert_eq!(summary.total_bytes, usize::MAX);
    assert_eq!(summary.total_chars, usize::MAX);
    assert_eq!(summary.entry_count, 10);
    let mut chars = Chars(usize::MAX - 1);
    chars.advance(&other);
    chars.advance(&other);
    assert_eq!(chars, Chars(usize::MAX));
}

#[test]
fn summaries_with_filters_of_another_size_are_not_united() {
    let mut foreign: Bloom<u32> = Bloom::new_with_seed(8, 4, &[0u8; 32]).unwrap();
    foreign.set(&1);
    let mut summary = TaggedBlock {
        date: Date::from_ymd_opt(2024, 5, 2).unwrap(),
        text: "a".to_string(),
        tags: vec![1],
    }
    .summarize();
    let before = summary.tags_filter.to_bytes();
    let other = TimelineSummary {
        total_chars: 2,
        tags_filter: foreign,
        ..TimelineSummary::default()
    };
    summary.merge(&other);
    assert_eq!(summary.total_chars, 3);
    assert_eq!(summary.tags_filter.to_bytes(), before);
}

#[test]
fn the_summary_of_a_tree_is_that_of_its_blocks() {
    let blocks: Vec<TaggedBlock> = (1..=40u32)
        .map(|index| TaggedBlock {
            date: Date::from_ymd_opt(2024, 1 + index % 12, 1 + index % 28).unwrap(),
            text: "é".repeat(index as usize),
            tags: vec![index, index + 100],
        })
        .collect();
    let tree = BlockTree::from_blocks(blocks.clone());
    let summary = tree.summary();
    let chars: usize = (1..=40).sum();
    assert_eq!(summary.total_chars, chars);
    assert_eq!(summary.total_bytes, 2 * chars);
    assert_eq!(summary.entry_count, 40);
    assert_eq!(summary.min_date, blocks.iter().map(|block| block.date).min());
    assert_eq!(summary.max_date, blocks.iter().map(|block| block.date).max());
    assert!(summary.min_date <= summary.max_date);
    for block in &blocks {
        for tag in &block.tags {
            assert!(summary.may_hold_tag(*tag));
        }
        assert_eq!(block.char_count() * 2, block.byte_count());
        assert_eq!(block.duplicate(), *block);
    }
    let empty = BlockTree::new();
    assert_eq!(empty.summary().total_chars, 0);
    assert_eq!(empty.summary().entry_count, 0);
    assert_eq!(empty.summary().min_date, None);
    assert_eq!(empty.summary().max_date, None);
    assert!(empty.summary().tags_filter.is_empty());
}

#[test]
fn a_tag_is_tested_only_in_tag_filters() {
    let mut foreign: Bloom<u32> = Bloom::new_with_seed(8, 4, &[0u8; 32]).unwrap();
    foreign.set(&1);
    let other_seed: Bloom<u32> =
        Bloom::new_with_seed(TAG_FILTER_BYTES, TAG_FILTER_CAPACITY, &[1u8; 32]).unwrap();
    let summary = TaggedBlock {
        date: Date::from_ymd_opt(2024, 5, 2).unwrap(),
        text: "a".to_string(),
        tags: vec![1],
    }
    .summarize();
    assert_eq!(summary.test_tag(1), Some(true));
    assert_eq!(summary.test_tag(2), Some(false));
    assert_eq!(TimelineSummary::default().test_tag(1), Some(false));
    let odd = TimelineSummary {
        tags_filter: foreign,
        ..TimelineSummary::default()
    };
    assert_eq!(odd.test_tag(1), None);
    let seeded = TimelineSummary {
        tags_filter: other_seed,
        ..TimelineSummary::default()
    };
    assert_eq!(seeded.test_tag(1), None);
}

#[test]
fn the_summary_of_no_blocks_is_the_identity_of_merging() {
    let zero = TimelineSummary::zero(());
    let by_trait = <TimelineSummary as zed_sum_tree::Summary>::zero(());
    for summary in [&zero, &by_trait] {
        assert_eq!(summary.total_bytes, 0);
        assert_eq!(summary.total_chars, 0);
        assert_eq!(summary.entry_count, 0);
        assert_eq!(summary.min_date, None);
        assert_eq!(summary.max_date, None);
        assert_eq!(summary.tags_filter.as_slice(), new_tag_filter().as_slice());
    }
    let block = TaggedBlock {
        date: Date::from_ymd_opt(2024, 5, 2).unwrap(),
        text: "世界".to_string(),
        tags: vec![3, 9],
    };
    let alone = block.summary(());
    assert_eq!(alone.total_bytes, 6);
    assert_eq!(alone.total_chars, 2);
    assert_eq!(alone.entry_count, 1);
    assert_eq!(alone.min_date, Some(block.date));
    assert_eq!(alone.max_date, Some(block.date));
    assert_eq!(alone.tags_filter.as_slice(), block.summarize().tags_filter.as_slice());

    let mut left = by_trait;
    zed_sum_tree::Summary::add_summary(&mut left, &alone, ());
    let mut right = alone.clone();
    zed_sum_tree::Summary::add_summary(&mut right, &zero, ());
    for summary in [&left, &right] {
        assert_eq!(summary.total_bytes, 6);
        assert_eq!(summary.total_chars, 2);
        assert_eq!(summary.entry_count, 1);
        assert_eq!(summary.min_date, Some(block.date));
        assert_eq!(summary.max_date, Some(block.date));
        assert_eq!(summary.tags_filter.as_slice(), alone.tags_filter.as_slice());
    }

    let mut count = Chars::zero(());
    assert_eq!(count, Chars(0));
    count.add_summary(&alone, ());
    count.add_summary(&left, ());
    assert_eq!(count, Chars(4));
}
