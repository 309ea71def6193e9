use sightline::api::TextOperation;
use sightline::block::TaggedBlock;
use sightline::date::Date;
use sightline::rope::{apply_delete, apply_insert, ApplyOpsError, EditableTimeline};
use sightline::tree::BlockTree;
use zed_sum_tree::Bias;

fn day(year: i32, month: u32, day: u32) -> Date {
    Date::from_ymd_opt(year, month, day).unwrap()
}

fn block(date: Date, text: &str, tags: Vec<u32>) -> TaggedBlock {
    TaggedBlock {
        date,
        text: text.to_string(),
        tags,
    }
}

fn content(tree: &BlockTree) -> String {
    tree.items().iter().map(|entry| entry.text.as_str()).collect()
}

#[test]
fn editable_timeline_insert_inserts_text_at_position() {
    let base_date = Date::from_ymd_opt(2024, 1, 1).unwrap();
    let entries = vec![TaggedBlock {
        date: base_date,
        text: "abcd".to_string(),
        tags: Vec::new(),
    }];

    let mut tree = BlockTree::from_blocks(entries);
    tree.apply_ops(
        &[TextOperation::Insert {
            position: 2,
            text: "XY".to_string(),
        }],
        base_date,
    )
    .expect("insert");

    let content: String = tree.items().iter().map(|entry| entry.text.as_str()).collect();
    assert_eq!(content, "abXYcd");
}

#[test]
fn editable_timeline_delete_within_entry_removes_characters() {
    let base_date = Date::from_ymd_opt(2024, 2, 1).unwrap();
    let entries = vec![TaggedBlock {
        date: base_date,
        text: "abcdef".to_string(),
        tags: Vec::new(),
    }];

    let mut tree = BlockTree::from_blocks(entries);
    tree.apply_ops(
        &[TextOperation::Delete {
            start_position: 2,
            end_position: 4,
        }],
        base_date,
    )
    .expect("delete");

    let content: String = tree.items().iter().map(|entry| entry.text.as_str()).collect();
    assert_eq!(content, "abef");
}

#[test]
fn editable_timeline_delete_spanning_entries_trims_correctly() {
    let date_a = Date::from_ymd_opt(2024, 3, 1).unwrap();
    let date_b = Date::from_ymd_opt(2024, 3, 2).unwrap();

    let entries = vec![
        TaggedBlock {
            date: date_a,
            text: "12345".to_string(),
            tags: Vec::new(),
        },
        TaggedBlock {
            date: date_b,
            text: "ABCDE".to_string(),
            tags: Vec::new(),
        },
    ];

    let mut tree = BlockTree::from_blocks(entries);
    tree.apply_ops(
        &[TextOperation::Delete {
            start_position: 3,
            end_position: 7,
        }],
        date_a,
    )
    .expect("delete across entries");

    let content: String = tree.items().iter().map(|entry| entry.text.as_str()).collect();
    assert_eq!(content, "123CDE");

    let items = tree.items();
    assert_eq!(items.len(), 2);
    assert_eq!(items[0], block(date_a, "123", Vec::new()));
    assert_eq!(items[1], block(date_b, "CDE", Vec::new()));
}

#[test]
fn insert_into_an_empty_tree_yields_one_block() {
    let mut tree = BlockTree::new();
    let today = day(2025, 1, 1);
    assert_eq!(apply_insert(&mut tree, 0, "Happy New Year!", today), Ok(()));
    assert_eq!(tree.items(), vec![block(today, "Happy New Year!", Vec::new())]);
}

#[test]
fn insert_with_empty_text_changes_nothing() {
    let date = day(2024, 1, 1);
    let blocks = vec![block(date, "abc", vec![1])];
    let mut tree = BlockTree::from_blocks(blocks.clone());
    assert_eq!(apply_insert(&mut tree, 1, "", date), Ok(()));
    assert_eq!(tree.items(), blocks);
    assert_eq!(apply_insert(&mut tree, 99, "", date), Ok(()));
    assert_eq!(tree.items(), blocks);
}

#[test]
fn insert_behind_the_end_is_refused() {
    let date = day(2024, 1, 1);
    let blocks = vec![block(date, "abc", vec![1])];
    let mut tree = BlockTree::from_blocks(blocks.clone());
    assert_eq!(
        apply_insert(&mut tree, 4, "x", date),
        Err(ApplyOpsError::InvalidPosition { position: 4 })
    );
    assert_eq!(tree.items(), blocks);
    let mut empty = BlockTree::new();
    assert_eq!(
        apply_insert(&mut empty, 1, "x", date),
        Err(ApplyOpsError::InvalidPosition { position: 1 })
    );
}

#[test]
fn insert_at_the_end_appends_without_splitting() {
    let old = day(2024, 1, 1);
    let new = day(2024, 1, 2);
    let blocks = vec![block(old, "abc", vec![1]), block(old, "de", vec![2])];
    let mut tree = BlockTree::from_blocks(blocks.clone());
    assert_eq!(apply_insert(&mut tree, 5, "fg", new), Ok(()));
    let mut expected = blocks;
    expected.push(block(new, "fg", Vec::new()));
    assert_eq!(tree.items(), expected);
}

#[test]
fn insert_at_the_start_puts_the_new_block_first() {
    let old = day(2024, 1, 1);
    let new = day(2024, 1, 2);
    let blocks = vec![block(old, "abc", vec![1])];
    let mut tree = BlockTree::from_blocks(blocks.clone());
    assert_eq!(apply_insert(&mut tree, 0, "fg", new), Ok(()));
    assert_eq!(
        tree.items(),
        vec![block(new, "fg", Vec::new()), block(old, "abc", vec![1])]
    );
}

#[test]
fn insert_within_a_block_carries_date_and_tags_to_both_fragments() {
    let old = day(2024, 1, 1);
    let new = day(2024, 6, 30);
    let mut tree = BlockTree::from_blocks(vec![
        block(old, "first", vec![9]),
        block(old, "世界平和", vec![4, 2]),
        block(old, "last", Vec::new()),
    ]);
    assert_eq!(apply_insert(&mut tree, 7, "::", new), Ok(()));
    assert_eq!(
        tree.items(),
        vec![
            block(old, "first", vec![9]),
            block(old, "世界", vec![4, 2]),
            block(new, "::", Vec::new()),
            block(old, "平和", vec![4, 2]),
            block(old, "last", Vec::new()),
        ]
    );
    assert_eq!(tree.summary().total_chars, 15);
}

#[test]
fn insert_at_a_block_boundary_goes_behind_the_earlier_block() {
    let old = day(2024, 1, 1);
    let new = day(2024, 6, 30);
    let mut tree = BlockTree::from_blocks(vec![
        block(old, "ab", vec![1]),
        block(old, "cd", vec![2]),
    ]);
    assert_eq!(apply_insert(&mut tree, 2, "X", new), Ok(()));
    assert_eq!(
        tree.items(),
        vec![
            block(old, "ab", vec![1]),
            block(new, "X", Vec::new()),
            block(old, "cd", vec![2]),
        ]
    );
}

#[test]
fn delete_of_an_empty_range_changes_nothing() {
    let date = day(2024, 1, 1);
    let blocks = vec![block(date, "abc", vec![1])];
    let mut tree = BlockTree::from_blocks(blocks.clone());
    assert_eq!(apply_delete(&mut tree, 1, 1), Ok(()));
    assert_eq!(apply_delete(&mut tree, 50, 50), Ok(()));
    assert_eq!(tree.items(), blocks);
}

#[test]
fn delete_of_bad_ranges_is_refused() {
    let date = day(2024, 1, 1);
    let blocks = vec![block(date, "abc", vec![1])];
    let mut tree = BlockTree::from_blocks(blocks.clone());
    assert_eq!(
        apply_delete(&mut tree, 2, 1),
        Err(ApplyOpsError::InvalidRange { start: 2, end: 1 })
    );
    assert_eq!(
        apply_delete(&mut tree, 0, 4),
        Err(ApplyOpsError::InvalidRange { start: 0, end: 4 })
    );
    assert_eq!(
        apply_delete(&mut tree, 4, 5),
        Err(ApplyOpsError::InvalidRange { start: 4, end: 5 })
    );
    assert_eq!(tree.items(), blocks);
}

#[test]
fn delete_within_one_block_leaves_two_fragments() {
    let date = day(2024, 1, 1);
    let mut tree = BlockTree::from_blocks(vec![block(date, "abcdef", vec![3])]);
    assert_eq!(apply_delete(&mut tree, 2, 4), Ok(()));
    assert_eq!(
        tree.items(),
        vec![block(date, "ab", vec![3]), block(date, "ef", vec![3])]
    );
}

#[test]
fn delete_of_everything_leaves_no_block() {
    let date = day(2024, 1, 1);
    let mut tree = BlockTree::from_blocks(vec![
        block(date, "abc", vec![3]),
        block(date, "def", vec![3]),
    ]);
    assert_eq!(apply_delete(&mut tree, 0, 6), Ok(()));
    assert!(tree.items().is_empty());
    assert_eq!(tree.summary().total_chars, 0);
    assert_eq!(tree.summary().min_date, None);
}

#[test]
fn delete_drops_the_blocks_between_and_keeps_metadata_apart() {
    let a = day(2024, 3, 1);
    let b = day(2024, 3, 2);
    let c = day(2024, 3, 3);
    let mut tree = BlockTree::from_blocks(vec![
        block(a, "12345", vec![1]),
        block(b, "middle", vec![2]),
        block(c, "ABCDE", vec![3]),
    ]);
    assert_eq!(apply_delete(&mut tree, 3, 13), Ok(()));
    assert_eq!(
        tree.items(),
        vec![block(a, "123", vec![1]), block(c, "CDE", vec![3])]
    );
    assert_eq!(content(&tree), "123CDE");
}

#[test]
fn delete_up_to_a_block_boundary_drops_whole_blocks() {
    let a = day(2024, 3, 1);
    let mut tree = BlockTree::from_blocks(vec![
        block(a, "12", vec![1]),
        block(a, "34", vec![2]),
        block(a, "56", vec![3]),
    ]);
    assert_eq!(apply_delete(&mut tree, 2, 4), Ok(()));
    assert_eq!(
        tree.items(),
        vec![block(a, "12", vec![1]), block(a, "56", vec![3])]
    );
    assert_eq!(apply_delete(&mut tree, 0, 2), Ok(()));
    assert_eq!(tree.items(), vec![block(a, "56", vec![3])]);
}

#[test]
fn edits_change_the_content_as_a_string_edit_would() {
    let date = day(2024, 1, 1);
    let texts = ["alpha", "β", "", "gamma delta", "世界", "z"];
    let blocks: Vec<TaggedBlock> = texts
        .iter()
        .enumerate()
        .map(|(index, text)| block(date, text, vec![index as u32]))
        .collect();
    let whole: Vec<char> = texts.concat().chars().collect();
    for position in 0..=whole.len() {
        let mut tree = BlockTree::from_blocks(blocks.clone());
        assert_eq!(apply_insert(&mut tree, position, "<>", date), Ok(()));
        let mut expected = whole.clone();
        expected.splice(position..position, "<>".chars());
        assert_eq!(content(&tree), expected.iter().collect::<String>());
        assert_eq!(tree.summary().total_chars, whole.len() + 2);
        for end in position..=whole.len() {
            let mut tree = BlockTree::from_blocks(blocks.clone());
            assert_eq!(apply_delete(&mut tree, position, end), Ok(()));
            let mut expected = whole.clone();
            expected.drain(position..end);
            assert_eq!(content(&tree), expected.iter().collect::<String>());
            assert_eq!(tree.summary().total_chars, whole.len() - (end - position));
        }
    }
}

#[test]
fn edits_work_on_trees_of_many_blocks() {
    let date = day(2024, 1, 1);
    let blocks: Vec<TaggedBlock> = (0..200u32)
        .map(|index| block(date, &format!("[{index}]"), vec![index]))
        .collect();
    let whole: String = blocks.iter().map(|entry| entry.text.as_str()).collect();
    let mut tree = BlockTree::from_blocks(blocks);
    assert_eq!(content(&tree), whole);
    assert_eq!(apply_insert(&mut tree, 301, "new", date), Ok(()));
    let mut expected = whole.clone();
    expected.insert_str(301, "new");
    assert_eq!(content(&tree), expected);
    assert_eq!(apply_delete(&mut tree, 10, 700), Ok(()));
    expected.replace_range(10..700, "");
    assert_eq!(content(&tree), expected);
    assert_eq!(tree.summary().total_chars, expected.len());
    assert_eq!(tree.summary().total_bytes, expected.len());
}

#[test]
fn apply_ops_stops_at_the_first_refused_operation() {
    let date = day(2024, 1, 1);
    let mut tree = BlockTree::from_blocks(vec![block(date, "abcdef", Vec::new())]);
    let result = tree.apply_ops(
        &[
            TextOperation::Delete {
                start_position: 0,
                end_position: 2,
            },
            TextOperation::Insert {
                position: 9,
                text: "x".to_string(),
            },
            TextOperation::Delete {
                start_position: 0,
                end_position: 1,
            },
        ],
        date,
    );
    assert_eq!(result, Err(ApplyOpsError::InvalidPosition { position: 9 }));
    assert_eq!(content(&tree), "cdef");
    assert_eq!(tree.apply_ops(&[], date), Ok(()));
    assert_eq!(content(&tree), "cdef");
}

#[test]
fn tree_operations_keep_the_order_of_blocks() {
    let date = day(2024, 1, 1);
    let mut tree = BlockTree::new();
    assert!(tree.items().is_empty());
    tree.push(block(date, "a", Vec::new()));
    tree.push(block(date, "b", Vec::new()));
    let mut other = BlockTree::from_blocks(vec![
        block(date, "c", Vec::new()),
        block(date, "d", Vec::new()),
    ]);
    other.push(block(date, "e", Vec::new()));
    let copy = other.clone();
    tree.append(other);
    assert_eq!(content(&tree), "abcde");
    assert_eq!(content(&copy), "cde");
    assert!(BlockTree::default().items().is_empty());
}

#[test]
fn cursor_walks_by_characters() {
    let date = day(2024, 1, 1);
    let tree = BlockTree::from_blocks(vec![
        block(date, "ab", Vec::new()),
        block(date, "cde", Vec::new()),
        block(date, "f", Vec::new()),
    ]);
    let mut cursor = tree.cursor();
    let passed = cursor.slice(2, Bias::Left);
    assert_eq!(content(&passed), "");
    assert_eq!(cursor.start(), 0);
    assert_eq!(cursor.item().map(|item| item.text.as_str()), Some("ab"));
    cursor.next();
    assert_eq!(cursor.start(), 2);
    assert_eq!(cursor.item().map(|item| item.text.as_str()), Some("cde"));
    assert_eq!(content(&cursor.suffix()), "cdef");
    assert_eq!(cursor.item(), None);
    assert_eq!(cursor.start(), 6);
    cursor.next();
    assert_eq!(cursor.item(), None);

    let mut right = tree.cursor();
    assert_eq!(content(&right.slice(2, Bias::Right)), "ab");
    assert_eq!(right.start(), 2);
    assert_eq!(right.item().map(|item| item.text.as_str()), Some("cde"));

    let mut far = tree.cursor();
    assert_eq!(content(&far.slice(7, Bias::Left)), "abcdef");
    assert_eq!(far.item(), None);
    assert_eq!(far.start(), 6);

    let mut zero = tree.cursor();
    assert_eq!(content(&zero.slice(0, Bias::Left)), "");
    assert_eq!(zero.item().map(|item| item.text.as_str()), Some("ab"));
    assert_eq!(content(&zero.suffix()), "abcdef");
}

#[test]
fn insert_at_the_end_goes_before_trailing_blocks_without_text() {
    let old = day(2024, 1, 1);
    let new = day(2024, 1, 2);
    let mut tree = BlockTree::from_blocks(vec![
        block(old, "ab", vec![1]),
        block(old, "", vec![2]),
    ]);
    assert_eq!(apply_insert(&mut tree, 2, "X", new), Ok(()));
    assert_eq!(
        tree.items(),
        vec![
            block(old, "ab", vec![1]),
            block(new, "X", Vec::new()),
            block(old, "", vec![2]),
        ]
    );
    assert_eq!(content(&tree), "abX");
}
