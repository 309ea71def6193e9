//! What the importer of notes computes: the date that a journal entry is
//! named after, the tag segment that stands for a directory name, the tags
//! of a project note, and the snapshot of what was imported.

use crate::block::{block_views, BlockView, TaggedBlock};
use crate::date::{date_read, Date};
use crate::registry::{can_intern, interned, TagMap, TagRegistry};
use crate::snapshot::{TagRegistrySnapshot, TimelineSnapshot};
use crate::text::{
    chars_of, leading_run, push_char, replace_all, replaced, strip_leading, strip_trailing,
    trailing_run, trim, trimmed, without_leading, without_trailing,
};
use vstd::prelude::*;

verus! {

/// Whether `c` is an ASCII letter or digit.
pub open spec fn is_ascii_alphanumeric(c: char) -> bool {
    let code = c as u32;
    (0x30 <= code <= 0x39) || (0x41 <= code <= 0x5A) || (0x61 <= code <= 0x7A)
}

/// The lower-case form of an ASCII letter; any other character as it is.
pub open spec fn ascii_lowercase(c: char) -> char {
    if 0x41 <= c as u32 <= 0x5A {
        ((c as u32 + 0x20) as u8) as char
    } else {
        c
    }
}

/// `s` with each ASCII letter in lower case, each ASCII digit as it is, and
/// a single `-` in place of each run of other characters.
pub open spec fn dashed(s: Seq<char>) -> Seq<char>
    decreases s.len(),
{
    if s.len() == 0 {
        Seq::<char>::empty()
    } else {
        let before = dashed(s.drop_last());
        if is_ascii_alphanumeric(s.last()) {
            before.push(ascii_lowercase(s.last()))
        } else if before.len() > 0 && before.last() == '-' {
            before
        } else {
            before.push('-')
        }
    }
}

/// The tag segment that stands for a name: the name trimmed, in lower case,
/// with a `-` for each run of characters that are no ASCII letters or
/// digits, and without a `-` at either end.
pub open spec fn segment_text(name: Seq<char>) -> Seq<char> {
    without_leading(without_trailing(dashed(trimmed(name)), '-'), '-')
}

/// Tests whether `c` is an ASCII letter or digit.
fn char_is_ascii_alphanumeric(c: char) -> (found: bool)
    ensures
        found == is_ascii_alphanumeric(c),
{
    let code: u32 = c as u32;
    (0x30 <= code && code <= 0x39) || (0x41 <= code && code <= 0x5A) || (0x61 <= code && code
        <= 0x7A)
}

/// Returns the lower-case form of an ASCII letter, and any other character
/// as it is.
fn char_to_ascii_lowercase(c: char) -> (lower: char)
    ensures
        lower == ascii_lowercase(c),
{
    let code: u32 = c as u32;
    if 0x41 <= code && code <= 0x5A {
        ((code + 0x20) as u8) as char
    } else {
        c
    }
}

/// Returns the tag segment that stands for a name, or `None` where nothing
/// of the name is left.
pub fn normalize_tag_segment(segment: &str) -> (normalized: Option<String>)
    ensures
        match normalized {
            Some(text) => text@ == segment_text(segment@) && text@.len() > 0,
            None => segment_text(segment@).len() == 0,
        },
{
    let trimmed_segment = trim(segment);
    if trimmed_segment.as_str().is_empty() {
        proof {
            let nothing = trimmed(segment@);
            assert(dashed(nothing) =~= Seq::<char>::empty());
            crate::text::lemma_white_space_len(without_trailing(dashed(nothing), '-'));
        }
        return None;
    }
    let chars = chars_of(trimmed_segment.as_str());
    let mut result: Vec<char> = Vec::new();
    let mut last_dash = false;
    let mut i: usize = 0;
    assert(chars@.take(0) =~= Seq::<char>::empty());
    while i < chars.len()
        invariant
            i <= chars.len(),
            result@ == dashed(chars@.take(i as int)),
            last_dash == (result@.len() > 0 && result@.last() == '-'),
        decreases chars.len() - i,
    {
        proof {
            assert(chars@.take(i + 1).drop_last() =~= chars@.take(i as int));
        }
        let c = chars[i];
        if char_is_ascii_alphanumeric(c) {
            let lower = char_to_ascii_lowercase(c);
            result.push(lower);
            last_dash = false;
            assert(lower != '-');
        } else if !last_dash {
            result.push('-');
            last_dash = true;
        }
        i = i + 1;
    }
    assert(chars@.take(i as int) =~= chars@);
    let ghost all = result@;
    let mut to: usize = result.len();
    assert(all.take(to as int) =~= all);
    while to > 0 && result[to - 1] == '-'
        invariant
            to <= result.len(),
            all == result@,
            trailing_run(all, '-') == (all.len() - to) + trailing_run(all.take(to as int), '-'),
        decreases to,
    {
        assert(all.take(to as int).drop_last() =~= all.take(to - 1));
        to = to - 1;
    }
    let ghost kept = all.take(to as int);
    assert(kept == without_trailing(all, '-'));
    let mut from: usize = 0;
    assert(kept.skip(0) =~= kept);
    while from < to && result[from] == '-'
        invariant
            from <= to <= result.len(),
            all == result@,
            kept == all.take(to as int),
            leading_run(kept, '-') == from + leading_run(kept.skip(from as int), '-'),
        decreases to - from,
    {
        assert(kept.skip(from as int).drop_first() =~= kept.skip(from + 1));
        from = from + 1;
    }
    if from == to {
        return None;
    }
    let mut text = String::new();
    let mut k: usize = from;
    assert(kept.skip(from as int).take(0) =~= Seq::<char>::empty());
    while k < to
        invariant
            from <= k <= to <= result.len(),
            all == result@,
            kept == all.take(to as int),
            text@ == kept.skip(from as int).take(k - from),
        decreases to - k,
    {
        push_char(&mut text, result[k]);
        assert(kept.skip(from as int).take(k + 1 - from) =~= kept.skip(from as int).take(
            k - from,
        ).push(result@[k as int]));
        k = k + 1;
    }
    assert(kept.skip(from as int).take(to - from) =~= kept.skip(from as int));
    Some(text)
}


/// The date that stands in `text` in one of the three ways in which journal
/// entries are named, tried from `from` on: `September 14, 2025`,
/// `Sep 14, 2025` and `2025-09-14`.
pub open spec fn journal_date_in(text: Seq<char>, from: int) -> Option<Date> {
    if from <= 0 && date_read(text, "%B %d, %Y"@) is Some {
        date_read(text, "%B %d, %Y"@)
    } else if from <= 1 && date_read(text, "%b %d, %Y"@) is Some {
        date_read(text, "%b %d, %Y"@)
    } else if from <= 2 {
        date_read(text, "%Y-%m-%d"@)
    } else {
        None
    }
}

/// The date that a journal entry of this name is for: the name is trimmed
/// and freed of dots at both ends, and read as it is or, failing that,
/// with `Sep` for `Sept`.
pub open spec fn journal_date(name: Seq<char>) -> Option<Date> {
    let text = without_trailing(without_leading(trimmed(name), '.'), '.');
    if journal_date_in(text, 0) is Some {
        journal_date_in(text, 0)
    } else {
        journal_date_in(replaced(text, "Sept"@, "Sep"@), 0)
    }
}

/// Reads a date written in one of the three ways in which journal entries
/// are named.
fn read_journal_date(text: &str) -> (date: Option<Date>)
    ensures
        date == journal_date_in(text@, 0),
{
    match Date::parse_from_str(text, "%B %d, %Y") {
        Some(date) => {
            return Some(date);
        },
        None => {},
    }
    match Date::parse_from_str(text, "%b %d, %Y") {
        Some(date) => {
            return Some(date);
        },
        None => {},
    }
    Date::parse_from_str(text, "%Y-%m-%d")
}

/// Returns the date that a journal entry of this name is for, or `None`
/// where the name is no date.
pub fn parse_journal_date(name: &str) -> (date: Option<Date>)
    ensures
        date == journal_date(name@),
{
    let trimmed_name = trim(name);
    let front = strip_leading(trimmed_name.as_str(), '.');
    let normalized = strip_trailing(front.as_str(), '.');
    match read_journal_date(normalized.as_str()) {
        Some(date) => {
            return Some(date);
        },
        None => {},
    }
    proof {
        reveal_strlit("Sept");
    }
    let other = replace_all(normalized.as_str(), "Sept", "Sep");
    read_journal_date(other.as_str())
}

/// Interning the segments that stand for directory names, one under the
/// other from `parent_id` on, with the ids of the segments added to `ids`:
/// a name that leaves no segment is skipped.
pub open spec fn directories_interned(
    tags: TagMap,
    next_id: u32,
    parent_id: Option<u32>,
    ids: Seq<u32>,
    names: Seq<Seq<char>>,
) -> (TagMap, u32, Seq<u32>)
    decreases names.len(),
{
    if names.len() == 0 {
        (tags, next_id, ids)
    } else if segment_text(names[0]).len() == 0 {
        directories_interned(tags, next_id, parent_id, ids, names.drop_first())
    } else {
        let step = interned(tags, next_id, parent_id, segment_text(names[0]), None);
        directories_interned(
            step.tags,
            step.next_id,
            Some(step.id),
            ids.push(step.id),
            names.drop_first(),
        )
    }
}

/// Whether the segments that stand for directory names can be interned one
/// under the other from `parent_id` on.
pub open spec fn directories_fit(
    tags: TagMap,
    next_id: u32,
    parent_id: Option<u32>,
    names: Seq<Seq<char>>,
) -> bool
    decreases names.len(),
{
    if names.len() == 0 {
        true
    } else if segment_text(names[0]).len() == 0 {
        directories_fit(tags, next_id, parent_id, names.drop_first())
    } else {
        let step = interned(tags, next_id, parent_id, segment_text(names[0]), None);
        can_intern(tags, parent_id, segment_text(names[0]), None) && directories_fit(
            step.tags,
            step.next_id,
            Some(step.id),
            names.drop_first(),
        )
    }
}

/// The segments for directory names can be interned where the tag of all
/// projects is there and an id is left for each name.
pub proof fn lemma_directories_fit(
    tags: TagMap,
    next_id: u32,
    parent_id: Option<u32>,
    names: Seq<Seq<char>>,
)
    requires
        tags.dom().finite(),
        tags.len() + names.len() <= u32::MAX,
        parent_id matches Some(parent) ==> tags.contains_key(parent),
    ensures
        directories_fit(tags, next_id, parent_id, names),
    decreases names.len(),
{
    if names.len() > 0 {
        if segment_text(names[0]).len() == 0 {
            lemma_directories_fit(tags, next_id, parent_id, names.drop_first());
        } else {
            let name = segment_text(names[0]);
            crate::registry::lemma_room_for_path(tags, next_id, parent_id, seq![name]);
            crate::registry::lemma_path_submap(tags, next_id, parent_id, seq![name]);
            assert(can_intern(tags, parent_id, name, None)) by {
                assert(seq![name][0] == name);
            }
            let step = interned(tags, next_id, parent_id, name, None);
            let single = seq![name];
            assert(single.len() == 1 && single[0] == name);
            assert(single.drop_first() =~= Seq::<Seq<char>>::empty());
            assert(crate::registry::path_interned(
                step.tags,
                step.next_id,
                Some(step.id),
                single.drop_first(),
            ) == (step.tags, step.next_id, Some(step.id)));
            assert(crate::registry::path_interned(tags, next_id, parent_id, single) == (
                step.tags,
                step.next_id,
                Some(step.id),
            ));
            lemma_directories_fit(step.tags, step.next_id, Some(step.id), names.drop_first());
        }
    }
}

/// Whether no id stands before a lesser one or beside an equal one.
pub open spec fn strictly_ascending(ids: Seq<u32>) -> bool {
    forall|i: int, j: int| 0 <= i < j < ids.len() ==> ids[i] < ids[j]
}

/// Returns the tags of a project note that lies in the given directories
/// below the projects directory: the tag of all projects, the tag of
/// project notes, and one tag per directory, each the child of the one
/// before and the first the child of the tag of all projects. The ids come
/// in ascending order, each once.
pub fn project_note_tags(
    registry: &mut TagRegistry,
    project_root_tag: u32,
    project_note_tag: u32,
    directories: &[&str],
) -> (tags: Vec<u32>)
    requires
        old(registry).wf(),
        directories_fit(
            old(registry)@,
            old(registry).next_id(),
            Some(project_root_tag),
            crate::registry::slice_views(directories@),
        ),
    ensures
        final(registry).wf(),
        (final(registry)@, final(registry).next_id()) == ({
            let outcome = directories_interned(
                old(registry)@,
                old(registry).next_id(),
                Some(project_root_tag),
                seq![project_root_tag, project_note_tag],
                crate::registry::slice_views(directories@),
            );
            (outcome.0, outcome.1)
        }),
        strictly_ascending(tags@),
        forall|id: u32|
            tags@.contains(id) <==> directories_interned(
                old(registry)@,
                old(registry).next_id(),
                Some(project_root_tag),
                seq![project_root_tag, project_note_tag],
                crate::registry::slice_views(directories@),
            ).2.contains(id),
{
    let ghost all = crate::registry::slice_views(directories@);
    let ghost start_tags = registry@;
    let ghost start_next = registry.next_id();
    let mut tags: Vec<u32> = Vec::new();
    tags.push(project_root_tag);
    tags.push(project_note_tag);
    assert(tags@ =~= seq![project_root_tag, project_note_tag]);
    let mut parent_tag = Some(project_root_tag);
    let mut i: usize = 0;
    assert(all.skip(0) =~= all);
    while i < directories.len()
        invariant
            i <= directories.len(),
            all == crate::registry::slice_views(directories@),
            registry.wf(),
            directories_fit(registry@, registry.next_id(), parent_tag, all.skip(i as int)),
            directories_interned(
                start_tags,
                start_next,
                Some(project_root_tag),
                seq![project_root_tag, project_note_tag],
                all,
            ) == directories_interned(
                registry@,
                registry.next_id(),
                parent_tag,
                tags@,
                all.skip(i as int),
            ),
        decreases directories.len() - i,
    {
        proof {
            assert(all.skip(i as int).drop_first() =~= all.skip(i + 1));
            assert(all.skip(i as int)[0] == directories@[i as int]@);
        }
        match normalize_tag_segment(directories[i]) {
            Some(segment) => {
                let tag_id = registry.intern_segment(parent_tag, segment.as_str());
                tags.push(tag_id);
                parent_tag = Some(tag_id);
            },
            None => {},
        }
        i = i + 1;
    }
    assert(all.skip(i as int) =~= Seq::<Seq<char>>::empty());
    let sorted = crate::registry::sort_ids(&tags);
    let mut unique: Vec<u32> = Vec::new();
    let mut k: usize = 0;
    while k < sorted.len()
        invariant
            k <= sorted.len(),
            forall|a: int, b: int| 0 <= a < b < sorted@.len() ==> sorted@[a] <= sorted@[b],
            strictly_ascending(unique@),
            forall|id: u32| unique@.contains(id) <==> sorted@.take(k as int).contains(id),
            k > 0 <==> unique@.len() > 0,
            k > 0 ==> unique@.last() == sorted@[k - 1],
        decreases sorted.len() - k,
    {
        let id = sorted[k];
        let ghost before = unique@;
        proof {
            assert(sorted@.take(k + 1) =~= sorted@.take(k as int).push(id));
        }
        if unique.len() == 0 || unique[unique.len() - 1] != id {
            unique.push(id);
            proof {
                assert forall|other: u32| unique@.contains(other) <==> sorted@.take(
                    k + 1,
                ).contains(other) by {
                    vstd::seq_lib::lemma_seq_contains_after_push(before, id, other);
                    vstd::seq_lib::lemma_seq_contains_after_push(
                        sorted@.take(k as int),
                        id,
                        other,
                    );
                }
                assert forall|a: int, b: int| 0 <= a < b < unique@.len() implies unique@[a]
                    < unique@[b] by {
                    if b == unique@.len() - 1 && before.len() > 0 {
                        assert(before[a] <= before.last());
                        assert(sorted@[k - 1] <= sorted@[k as int]);
                    }
                }
            }
        } else {
            proof {
                assert forall|other: u32| unique@.contains(other) <==> sorted@.take(
                    k + 1,
                ).contains(other) by {
                    vstd::seq_lib::lemma_seq_contains_after_push(
                        sorted@.take(k as int),
                        id,
                        other,
                    );
                    if other == id {
                        assert(before[before.len() - 1] == id);
                    }
                }
            }
        }
        k = k + 1;
    }
    assert(sorted@.take(k as int) =~= sorted@);
    unique
}

/// The index from `from` on at which a block of the date `date` goes into
/// `sorted`: that of the first block of a later date, or the end.
pub open spec fn date_slot(sorted: Seq<BlockView>, date: Date, from: int) -> int
    decreases sorted.len() - from,
{
    if from >= sorted.len() {
        sorted.len() as int
    } else if date.is_before(sorted[from].date) {
        from
    } else {
        date_slot(sorted, date, from + 1)
    }
}

/// The blocks in the order of their dates; blocks of one date keep their
/// order.
pub open spec fn sorted_by_date(blocks: Seq<BlockView>) -> Seq<BlockView>
    decreases blocks.len(),
{
    if blocks.len() == 0 {
        Seq::<BlockView>::empty()
    } else {
        let before = sorted_by_date(blocks.drop_last());
        before.insert(date_slot(before, blocks.last().date, 0), blocks.last())
    }
}

/// Whether no block stands before one of an earlier date.
pub open spec fn dates_ascend(blocks: Seq<BlockView>) -> bool {
    forall|i: int, j: int|
        0 <= i < j < blocks.len() ==> !(#[trigger] blocks[j]).date.is_before(
            (#[trigger] blocks[i]).date,
        )
}

/// Where a block goes by its date: behind the blocks that are not later,
/// before a later one.
proof fn lemma_date_slot(sorted: Seq<BlockView>, date: Date, from: int)
    requires
        0 <= from <= sorted.len(),
    ensures
        from <= date_slot(sorted, date, from) <= sorted.len(),
        date_slot(sorted, date, from) < sorted.len() ==> date.is_before(
            sorted[date_slot(sorted, date, from)].date,
        ),
        forall|k: int|
            from <= k < date_slot(sorted, date, from) ==> !date.is_before(
                (#[trigger] sorted[k]).date,
            ),
    decreases sorted.len() - from,
{
    if from < sorted.len() && !date.is_before(sorted[from].date) {
        lemma_date_slot(sorted, date, from + 1);
    }
}

/// Sorting by date leaves the blocks in the order of their dates, as many
/// as there were.
pub proof fn lemma_sorted_by_date(blocks: Seq<BlockView>)
    ensures
        dates_ascend(sorted_by_date(blocks)),
        sorted_by_date(blocks).len() == blocks.len(),
    decreases blocks.len(),
{
    if blocks.len() > 0 {
        lemma_sorted_by_date(blocks.drop_last());
        let before = sorted_by_date(blocks.drop_last());
        let entry = blocks.last();
        let at = date_slot(before, entry.date, 0);
        lemma_date_slot(before, entry.date, 0);
        let after = before.insert(at, entry);
        assert forall|i: int, j: int| 0 <= i < j < after.len() implies !(
        #[trigger] after[j]).date.is_before((#[trigger] after[i]).date) by {
            if i == at {
                assert(after[j] == before[j - 1]);
                assert(!before[j - 1].date.is_before(before[at].date));
            } else if j == at {
                assert(after[i] == before[i]);
            } else {
                let i0 = if i < at {
                    i
                } else {
                    i - 1
                };
                let j0 = if j < at {
                    j
                } else {
                    j - 1
                };
                assert(after[i] == before[i0]);
                assert(after[j] == before[j0]);
            }
        }
    }
}

/// Sorts blocks by date; blocks of one date keep their order.
pub fn sort_blocks_by_date(blocks: &Vec<TaggedBlock>) -> (sorted: Vec<TaggedBlock>)
    ensures
        block_views(sorted@) == sorted_by_date(block_views(blocks@)),
        dates_ascend(block_views(sorted@)),
        sorted@.len() == blocks@.len(),
{
    let mut sorted: Vec<TaggedBlock> = Vec::new();
    let mut i: usize = 0;
    assert(block_views(blocks@).take(0) =~= Seq::<BlockView>::empty());
    while i < blocks.len()
        invariant
            i <= blocks.len(),
            block_views(sorted@) == sorted_by_date(block_views(blocks@).take(i as int)),
        decreases blocks.len() - i,
    {
        let block = blocks[i].duplicate();
        let ghost before = block_views(sorted@);
        let mut at: usize = 0;
        while at < sorted.len() && !block.date.precedes(&sorted[at].date)
            invariant
                at <= sorted.len(),
                before == block_views(sorted@),
                date_slot(before, block.date, 0) == date_slot(before, block.date, at as int),
            decreases sorted.len() - at,
        {
            assert(before[at as int] == sorted@[at as int]@);
            at = at + 1;
        }
        proof {
            if at < sorted.len() {
                assert(before[at as int] == sorted@[at as int]@);
            }
            let upto = block_views(blocks@).take(i + 1);
            assert(upto.drop_last() =~= block_views(blocks@).take(i as int));
            assert(upto.last() == block@);
        }
        let ghost entry = block@;
        sorted.insert(at, block);
        assert(block_views(sorted@) =~= before.insert(at as int, entry));
        i = i + 1;
    }
    assert(block_views(blocks@).take(i as int) =~= block_views(blocks@));
    proof {
        lemma_sorted_by_date(block_views(blocks@));
    }
    sorted
}

/// Makes the snapshot of an import: version 0, the blocks in the order of
/// their dates, and the tags as records in the order of the ids; no tags
/// at all where the registry is empty.
pub fn import_snapshot(registry: &TagRegistry, blocks: &Vec<TaggedBlock>) -> (snapshot:
    TimelineSnapshot)
    requires
        registry.wf(),
    ensures
        snapshot.version == 0,
        block_views(snapshot.blocks@) == sorted_by_date(block_views(blocks@)),
        registry@.len() == 0 <==> snapshot.tag_registry is None,
        snapshot.tag_registry matches Some(tags) ==> (tags matches TagRegistrySnapshot::Hierarchical(
            records,
        ) && crate::registry::is_export(registry@, crate::registry::tag_views(records@))),
{
    let exported = registry.export();
    let tag_registry = if exported.len() == 0 {
        None
    } else {
        Some(TagRegistrySnapshot::Hierarchical(exported))
    };
    TimelineSnapshot { version: 0, blocks: sort_blocks_by_date(blocks), tag_registry }
}

} // verus!
