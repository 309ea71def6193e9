//! The flat form in which older snapshots keep their tags: each id with the
//! full name of its tag, written with colons.
//!
//! Loading keeps the ids that the entries record. The names are brought
//! into their normal form and gone through in their order, then in that of
//! the ids. The last segment of a name is filed under the id of its entry,
//! unless a tag of that name is there already; a segment before it that is
//! new gets an id that no tag has and no entry records.

use crate::registry::{
    bumped, filed, full_name_of, has_segment, is_forest, is_full, is_greatest, is_keyed,
    is_least_segment, is_segment, kept_segments, lemma_chain, lemma_filed, lemma_full_len,
    lemma_least_segment_exists, lemma_more_fuel, lemma_no_segments, new_tag, next_after,
    next_id_for, normalized_path, parent_on, path_ids, path_names, path_segments, segment_id,
    TagMap, TagRegistry,
};
use crate::tag_palette::palette_color;
use crate::text::{
    join_with, lemma_join_prefix, lemma_lex_irreflexive, lemma_lex_total, lemma_lex_transitive,
    lemma_split_join, lemma_split_pieces, lemma_trimmed_is_trimmed, lex_less, precedes, split,
    split_on, trim, trimmed, views_of,
};
use std::collections::HashSet;
use vstd::prelude::*;

verus! {

broadcast use vstd::std_specs::hash::group_hash_axioms;

/// An entry of the flat form: an id and the full name of its tag.
pub type FlatEntry = (u32, Seq<char>);

/// The views of entries, in order.
pub open spec fn entry_views(entries: Seq<(u32, String)>) -> Seq<FlatEntry> {
    entries.map_values(|entry: (u32, String)| (entry.0, entry.1@))
}

/// Whether the entry `a` comes before `b`: by name, and by id among
/// entries of one name.
pub open spec fn entry_less(a: FlatEntry, b: FlatEntry) -> bool {
    lex_less(a.1, b.1) || (a.1 == b.1 && a.0 < b.0)
}

/// The index from `from` on at which `entry` goes into `sorted`: that of
/// the first entry that comes behind it, or the end.
pub open spec fn insert_at(sorted: Seq<FlatEntry>, entry: FlatEntry, from: int) -> int
    decreases sorted.len() - from,
{
    if from >= sorted.len() {
        sorted.len() as int
    } else if entry_less(entry, sorted[from]) {
        from
    } else {
        insert_at(sorted, entry, from + 1)
    }
}

/// The entries in order: each put, in turn, before the first of those
/// sorted so far that comes behind it.
pub open spec fn sorted_entries(entries: Seq<FlatEntry>) -> Seq<FlatEntry>
    decreases entries.len(),
{
    if entries.len() == 0 {
        Seq::<FlatEntry>::empty()
    } else {
        let before = sorted_entries(entries.drop_last());
        before.insert(insert_at(before, entries.last(), 0), entries.last())
    }
}

/// The ids that the entries record.
pub open spec fn recorded_ids(entries: Seq<FlatEntry>) -> Set<u32> {
    Set::new(
        |id: u32| exists|k: int| 0 <= k < entries.len() && (#[trigger] entries[k]).0 == id,
    )
}

/// The entries with their names in normal form: the segments trimmed, the
/// empty ones dropped, joined with `:`.
pub open spec fn normal_entries(entries: Seq<FlatEntry>) -> Seq<FlatEntry> {
    entries.map_values(|entry: FlatEntry| (entry.0, normalized_path(entry.1)))
}

/// Filing the segments of one entry, one under the other from `parent_id`
/// on, while the ids `reserved` are set aside: each segment is trimmed and
/// empty ones are skipped; the last is filed under the id of the entry
/// where it is new and no tag has that id; any other new segment gets an id
/// that no tag has and that is not set aside. `None` where such an id is
/// needed and there is none.
pub open spec fn entry_interned(
    tags: TagMap,
    next_id: u32,
    reserved: Set<u32>,
    parent_id: Option<u32>,
    segments: Seq<Seq<char>>,
    id: u32,
) -> Option<(TagMap, u32)>
    decreases segments.len(),
{
    if segments.len() == 0 {
        Some((tags, next_id))
    } else {
        let name = trimmed(segments[0]);
        let wanted = if segments.len() == 1 {
            Some(id)
        } else {
            None
        };
        if name.len() == 0 {
            entry_interned(tags, next_id, reserved, parent_id, segments.drop_first(), id)
        } else {
            match filed(tags, next_id, reserved, parent_id, name, wanted) {
                None => None,
                Some(step) => entry_interned(
                    step.tags,
                    step.next_id,
                    reserved,
                    Some(step.id),
                    segments.drop_first(),
                    id,
                ),
            }
        }
    }
}

/// Filing entries one after the other while the ids `reserved` are set
/// aside: the tags and the next id to try afterwards, or `None` where an
/// id is needed and there is none.
pub open spec fn entries_interned(
    tags: TagMap,
    next_id: u32,
    reserved: Set<u32>,
    entries: Seq<FlatEntry>,
) -> Option<(TagMap, u32)>
    decreases entries.len(),
{
    if entries.len() == 0 {
        Some((tags, next_id))
    } else {
        match entry_interned(
            tags,
            next_id,
            reserved,
            None,
            split_on(entries[0].1, ':'),
            entries[0].0,
        ) {
            None => None,
            Some(state) => entries_interned(state.0, state.1, reserved, entries.drop_first()),
        }
    }
}

/// The tags that the flat form stands for, with the next id to try: the
/// entries, with their names in normal form and in order, filed one after
/// the other while the ids that they record are set aside for them. `None`
/// only where the ids run out.
pub open spec fn flat_tags(entries: Seq<FlatEntry>) -> Option<(TagMap, u32)> {
    entries_interned(
        TagMap::empty(),
        0,
        recorded_ids(entries),
        sorted_entries(normal_entries(entries)),
    )
}

/// No entry comes before itself, and the order of entries is transitive.
pub proof fn lemma_entry_order(a: FlatEntry, b: FlatEntry, c: FlatEntry)
    ensures
        !entry_less(a, a),
        entry_less(a, b) && entry_less(b, c) ==> entry_less(a, c),
        a != b ==> entry_less(a, b) || entry_less(b, a),
{
    lemma_lex_irreflexive(a.1);
    lemma_lex_total(a.1, b.1);
    if entry_less(a, b) && entry_less(b, c) {
        if lex_less(a.1, b.1) && lex_less(b.1, c.1) {
            lemma_lex_transitive(a.1, b.1, c.1);
        }
    }
}

/// Where an entry goes: behind the entries that it does not come before,
/// before one that it comes before.
proof fn lemma_insert_at(sorted: Seq<FlatEntry>, entry: FlatEntry, from: int)
    requires
        0 <= from <= sorted.len(),
    ensures
        from <= insert_at(sorted, entry, from) <= sorted.len(),
        insert_at(sorted, entry, from) < sorted.len() ==> entry_less(
            entry,
            sorted[insert_at(sorted, entry, from)],
        ),
        forall|k: int|
            from <= k < insert_at(sorted, entry, from) ==> !entry_less(entry, #[trigger] sorted[k]),
    decreases sorted.len() - from,
{
    if from < sorted.len() && !entry_less(entry, sorted[from]) {
        lemma_insert_at(sorted, entry, from + 1);
    }
}

/// Whether no entry stands before one that comes before it.
pub open spec fn entries_ascend(entries: Seq<FlatEntry>) -> bool {
    forall|i: int, j: int|
        0 <= i < j < entries.len() ==> !entry_less(#[trigger] entries[j], #[trigger] entries[i])
}

/// Whether no id has two entries.
pub open spec fn has_distinct_ids(entries: Seq<FlatEntry>) -> bool {
    forall|i: int, j: int|
        0 <= i < entries.len() && 0 <= j < entries.len() && i != j ==> (#[trigger] entries[i]).0
            != (#[trigger] entries[j]).0
}

/// Sorting leaves the entries that there were, in order.
pub proof fn lemma_sorted_entries(entries: Seq<FlatEntry>)
    ensures
        sorted_entries(entries).len() == entries.len(),
        entries_ascend(sorted_entries(entries)),
        forall|entry: FlatEntry|
            sorted_entries(entries).contains(entry) <==> entries.contains(entry),
        has_distinct_ids(entries) ==> has_distinct_ids(sorted_entries(entries)),
    decreases entries.len(),
{
    if entries.len() > 0 {
        let shorter = entries.drop_last();
        lemma_sorted_entries(shorter);
        let before = sorted_entries(shorter);
        let entry = entries.last();
        let at = insert_at(before, entry, 0);
        lemma_insert_at(before, entry, 0);
        let after = before.insert(at, entry);
        crate::registry::lemma_insert_contains(before, at, entry);
        assert(entries =~= shorter.push(entry));
        assert forall|other: FlatEntry| after.contains(other) <==> entries.contains(other) by {
            vstd::seq_lib::lemma_seq_contains_after_push(shorter, entry, other);
            assert(after.contains(other) <==> (other == entry || before.contains(other)));
        }
        assert forall|i: int, j: int| 0 <= i < j < after.len() implies !entry_less(
            #[trigger] after[j],
            #[trigger] after[i],
        ) by {
            if i == at {
                assert(after[j] == before[j - 1]);
                if entry_less(before[j - 1], entry) {
                    lemma_entry_order(before[j - 1], entry, before[at]);
                    lemma_entry_order(before[at], before[at], before[at]);
                    if j - 1 > at {
                        assert(!entry_less(before[j - 1], before[at]));
                    }
                }
            } else if j == at {
                assert(after[i] == before[i]);
            } else {
                let i0 = if i < at {
                    i
                } else {
                    i - 1
                };
                let j0 = if j < at {
                    j
                } else {
                    j - 1
                };
                assert(after[i] == before[i0]);
                assert(after[j] == before[j0]);
            }
        }
        if has_distinct_ids(entries) {
            assert forall|i: int, j: int|
                0 <= i < shorter.len() && 0 <= j < shorter.len() && i != j implies (
            #[trigger] shorter[i]).0 != (#[trigger] shorter[j]).0 by {
                assert(shorter[i] == entries[i]);
                assert(shorter[j] == entries[j]);
            }
            assert forall|i: int, j: int|
                0 <= i < after.len() && 0 <= j < after.len() && i != j implies (
            #[trigger] after[i]).0 != (#[trigger] after[j]).0 by {
                let i0 = if i < at {
                    i
                } else {
                    i - 1
                };
                let j0 = if j < at {
                    j
                } else {
                    j - 1
                };
                if i == at {
                    assert(after[j] == before[j0]);
                    assert(before.contains(before[j0]));
                    assert(shorter.contains(before[j0]));
                    let k = choose|k: int| 0 <= k < shorter.len() && shorter[k] == before[j0];
                    assert(entries[k] == before[j0]);
                    assert(entries[entries.len() - 1] == entry);
                } else if j == at {
                    assert(after[i] == before[i0]);
                    assert(before.contains(before[i0]));
                    assert(shorter.contains(before[i0]));
                    let k = choose|k: int| 0 <= k < shorter.len() && shorter[k] == before[i0];
                    assert(entries[k] == before[i0]);
                    assert(entries[entries.len() - 1] == entry);
                } else {
                    assert(after[i] == before[i0]);
                    assert(after[j] == before[j0]);
                }
            }
        }
    }
}

/// Whether `name` can stand as a segment in a full name: it is not empty,
/// has no white space at either end, and holds no colon.
pub open spec fn is_clean_name(name: Seq<char>) -> bool {
    name.len() > 0 && trimmed(name) == name && !name.contains(':')
}

/// Whether the tags `a` and `b` are the same segment: they have one parent,
/// or are both roots, and have one name.
pub open spec fn is_same_segment(tags: TagMap, a: u32, b: u32) -> bool {
    tags.contains_key(a) && tags.contains_key(b) && tags[a].parent_id == tags[b].parent_id
        && tags[a].name == tags[b].name
}

/// Whether no parent has two children of one name, and no two roots have
/// one name.
pub open spec fn has_unique_segments(tags: TagMap) -> bool {
    forall|a: u32, b: u32| #[trigger] is_same_segment(tags, a, b) ==> a == b
}

/// Whether the tags are such as interning makes them: a forest of tags
/// filed under their own ids, with clean names that differ among the
/// children of one parent, with the colours of the palette, and without
/// the last id.
pub open spec fn is_canonical(tags: TagMap) -> bool {
    &&& tags.dom().finite()
    &&& is_keyed(tags)
    &&& is_forest(tags)
    &&& has_unique_segments(tags)
    &&& !tags.contains_key(u32::MAX)
    &&& forall|id: u32|
        tags.contains_key(id) ==> is_clean_name((#[trigger] tags[id]).name) && tags[id].color
            == Some(palette_color(id as nat))
}

/// Whether `entries` are the flat form of `tags`: one entry for each tag,
/// with its id and its full name.
pub open spec fn is_flat_form_of(entries: Seq<FlatEntry>, tags: TagMap) -> bool {
    &&& has_distinct_ids(entries)
    &&& forall|k: int|
        0 <= k < entries.len() ==> tags.contains_key((#[trigger] entries[k]).0) && full_name_of(
            tags,
            entries[k].0,
        ) == Some(entries[k].1)
    &&& forall|id: u32|
        tags.contains_key(id) ==> exists|k: int|
            0 <= k < entries.len() && (#[trigger] entries[k]).0 == id
}

/// The tags whose entries are among the first `upto` of `entries`.
pub open spec fn loaded_upto(tags: TagMap, entries: Seq<FlatEntry>, upto: int) -> TagMap {
    Map::new(
        |id: u32|
            exists|j: int| 0 <= j < upto && j < entries.len() && (#[trigger] entries[j]).0 == id,
        |id: u32| tags[id],
    )
}

/// The next id to try once the first `upto` of `entries` are loaded.
pub open spec fn next_upto(entries: Seq<FlatEntry>, upto: int) -> u32
    decreases upto,
{
    if upto <= 0 {
        0
    } else {
        bumped(next_upto(entries, upto - 1), entries[upto - 1].0)
    }
}

/// Whether the tag at `depth` of the way `ids` down from a root has the
/// segment at that depth as name and the tag one step up as parent.
pub open spec fn is_on_way(tags: TagMap, names: Seq<Seq<char>>, ids: Seq<u32>, depth: int) -> bool {
    &&& tags.contains_key(ids[depth])
    &&& tags[ids[depth]].name == names[depth]
    &&& tags[ids[depth]].parent_id == parent_on(ids, depth)
    &&& is_clean_name(names[depth])
}

/// Whether every tag of `loaded` is a tag of `tags`, as it is there.
pub open spec fn is_part_of(loaded: TagMap, tags: TagMap) -> bool {
    forall|other: u32|
        loaded.contains_key(other) ==> tags.contains_key(other) && #[trigger] loaded[other]
            == tags[other]
}

/// Interning a segment that is there and not the last of its entry leaves
/// the tags as they are and goes on below that segment.
proof fn lemma_entry_step(
    loaded: TagMap,
    next_id: u32,
    reserved: Set<u32>,
    parent: Option<u32>,
    segments: Seq<Seq<char>>,
    id: u32,
    found: u32,
)
    requires
        segments.len() > 1,
        trimmed(segments[0]) == segments[0],
        segments[0].len() > 0,
        segment_id(loaded, parent, segments[0]) == Some(found),
    ensures
        entry_interned(loaded, next_id, reserved, parent, segments, id) == entry_interned(
            loaded,
            next_id,
            reserved,
            Some(found),
            segments.drop_first(),
            id,
        ),
{
    assert(has_segment(loaded, parent, segments[0]));
}

/// Interning the last segment of an entry, where it is new, makes its tag
/// under the id of the entry.
proof fn lemma_entry_end(
    loaded: TagMap,
    next_id: u32,
    reserved: Set<u32>,
    parent: Option<u32>,
    segments: Seq<Seq<char>>,
    id: u32,
)
    requires
        segments.len() == 1,
        trimmed(segments[0]) == segments[0],
        segments[0].len() > 0,
        !has_segment(loaded, parent, segments[0]),
        !loaded.contains_key(id),
    ensures
        entry_interned(loaded, next_id, reserved, parent, segments, id) == Some(
            (loaded.insert(id, new_tag(id, segments[0], parent)), bumped(next_id, id)),
        ),
{
    assert(segments.drop_first().len() == 0);
    let step = filed(loaded, next_id, reserved, parent, segments[0], Some(id))->0;
    assert(entry_interned(
        step.tags,
        step.next_id,
        reserved,
        Some(step.id),
        segments.drop_first(),
        id,
    ) == Some((step.tags, step.next_id)));
}

/// Interning the segments of an entry from `depth` on, in tags that hold
/// the tags above the entry's own and not that tag, adds that tag and
/// nothing else.
proof fn lemma_entry_from(
    tags: TagMap,
    loaded: TagMap,
    next_id: u32,
    reserved: Set<u32>,
    id: u32,
    names: Seq<Seq<char>>,
    ids: Seq<u32>,
    depth: int,
)
    requires
        has_unique_segments(tags),
        is_part_of(loaded, tags),
        tags.contains_key(id),
        tags[id].id == id,
        tags[id].color == Some(palette_color(id as nat)),
        !loaded.contains_key(id),
        names.len() == ids.len(),
        0 <= depth < ids.len(),
        ids.last() == id,
        forall|d: int| 0 <= d < ids.len() ==> #[trigger] is_on_way(tags, names, ids, d),
        forall|d: int| 0 <= d < ids.len() - 1 ==> loaded.contains_key(#[trigger] ids[d]),
    ensures
        entry_interned(loaded, next_id, reserved, parent_on(ids, depth), names.skip(depth), id)
            == Some((loaded.insert(id, tags[id]), bumped(next_id, id))),
    decreases ids.len() - depth,
{
    let segments = names.skip(depth);
    let parent = parent_on(ids, depth);
    let name = names[depth];
    let on_way = ids[depth];
    assert(is_on_way(tags, names, ids, depth));
    assert(segments[0] == name);
    assert(segments.drop_first() =~= names.skip(depth + 1));
    if depth < ids.len() - 1 {
        assert(loaded.contains_key(on_way));
        let found = lemma_found_on_way(tags, loaded, parent, name, on_way);
        lemma_entry_step(loaded, next_id, reserved, parent, segments, id, found);
        assert(parent_on(ids, depth + 1) == Some(on_way));
        lemma_entry_from(tags, loaded, next_id, reserved, id, names, ids, depth + 1);
    } else {
        assert(on_way == id);
        lemma_not_loaded_not_found(tags, loaded, parent, name, id);
        lemma_entry_end(loaded, next_id, reserved, parent, segments, id);
        assert(new_tag(id, name, parent) == tags[id]);
    }
}

/// A tag that is loaded is found as the segment that it is.
proof fn lemma_found_on_way(
    tags: TagMap,
    loaded: TagMap,
    parent: Option<u32>,
    name: Seq<char>,
    on_way: u32,
) -> (found: u32)
    requires
        has_unique_segments(tags),
        is_part_of(loaded, tags),
        loaded.contains_key(on_way),
        tags[on_way].name == name,
        tags[on_way].parent_id == parent,
    ensures
        found == on_way,
        segment_id(loaded, parent, name) == Some(found),
{
    assert(loaded[on_way] == tags[on_way]);
    assert(is_segment(loaded[on_way], parent, name));
    lemma_least_segment_exists(loaded, parent, name, on_way);
    let found = segment_id(loaded, parent, name)->0;
    assert(is_least_segment(loaded, parent, name, found));
    assert(loaded[found] == tags[found]);
    assert(is_same_segment(tags, found, on_way));
    found
}

/// A tag that is not loaded is not found as the segment that it is.
proof fn lemma_not_loaded_not_found(
    tags: TagMap,
    loaded: TagMap,
    parent: Option<u32>,
    name: Seq<char>,
    id: u32,
)
    requires
        has_unique_segments(tags),
        is_part_of(loaded, tags),
        tags.contains_key(id),
        !loaded.contains_key(id),
        tags[id].name == name,
        tags[id].parent_id == parent,
    ensures
        !has_segment(loaded, parent, name),
{
    if has_segment(loaded, parent, name) {
        let other = choose|other: u32|
            loaded.contains_key(other) && is_segment(#[trigger] loaded[other], parent, name);
        assert(loaded[other] == tags[other]);
        assert(is_same_segment(tags, other, id));
    }
}

/// The tags above the tag of an entry have their entries before it, where
/// the entries are in order.
proof fn lemma_ancestors_first(tags: TagMap, entries: Seq<FlatEntry>, at: int, depth: int)
    requires
        is_canonical(tags),
        is_flat_form_of(entries, tags),
        entries_ascend(entries),
        0 <= at < entries.len(),
        0 <= depth < path_ids(tags, entries[at].0, tags.len())->0.len() - 1,
    ensures
        loaded_upto(tags, entries, at).contains_key(
            path_ids(tags, entries[at].0, tags.len())->0[depth],
        ),
{
    let id = entries[at].0;
    let size = tags.len();
    assert(path_names(tags, id, size) is Some);
    lemma_chain(tags, id, size);
    let names = path_names(tags, id, size)->0;
    let ids = path_ids(tags, id, size)->0;
    let above = ids[depth];
    lemma_more_fuel(tags, id, size, size + 1);
    lemma_more_fuel(tags, above, size, size + 1);
    let j = choose|j: int| 0 <= j < entries.len() && (#[trigger] entries[j]).0 == above;
    assert(entries[j].1 == join_with(names.take(depth + 1), ':'));
    assert(entries[at].1 == join_with(names, ':'));
    lemma_join_prefix(names, depth + 1, ':');
    assert(entry_less(entries[j], entries[at]));
    if j > at {
        assert(!entry_less(entries[j], entries[at]));
    }
    assert(j < at);
}

/// Loading one entry, behind the entries before it, adds its tag.
proof fn lemma_entry_loads(
    tags: TagMap,
    reserved: Set<u32>,
    entries: Seq<FlatEntry>,
    at: int,
)
    requires
        is_canonical(tags),
        is_flat_form_of(entries, tags),
        entries_ascend(entries),
        0 <= at < entries.len(),
    ensures
        entry_interned(
            loaded_upto(tags, entries, at),
            next_upto(entries, at),
            reserved,
            None,
            split_on(entries[at].1, ':'),
            entries[at].0,
        ) == Some((loaded_upto(tags, entries, at + 1), next_upto(entries, at + 1))),
{
    let id = entries[at].0;
    let size = tags.len();
    let loaded = loaded_upto(tags, entries, at);
    assert(path_names(tags, id, size) is Some);
    lemma_chain(tags, id, size);
    lemma_more_fuel(tags, id, size, size + 1);
    let names = path_names(tags, id, size)->0;
    let ids = path_ids(tags, id, size)->0;
    assert forall|d: int| 0 <= d < names.len() implies !(#[trigger] names[d]).contains(':') by {
        assert(is_clean_name(tags[ids[d]].name));
    }
    lemma_split_join(names, ':');
    assert(split_on(entries[at].1, ':') == names);
    assert forall|d: int| 0 <= d < ids.len() - 1 implies loaded.contains_key(
        #[trigger] ids[d],
    ) by {
        lemma_ancestors_first(tags, entries, at, d);
    }
    assert(!loaded.contains_key(id)) by {
        if loaded.contains_key(id) {
            let j = choose|j: int|
                0 <= j < at && j < entries.len() && (#[trigger] entries[j]).0 == id;
            assert(entries[j].0 == entries[at].0);
        }
    }
    assert forall|other: u32| loaded.contains_key(other) implies tags.contains_key(other)
        && #[trigger] loaded[other] == tags[other] by {
        let j = choose|j: int|
            0 <= j < at && j < entries.len() && (#[trigger] entries[j]).0 == other;
        assert(tags.contains_key(entries[j].0));
    }
    assert forall|d: int| 0 <= d < ids.len() implies #[trigger] is_on_way(
        tags,
        names,
        ids,
        d,
    ) by {
        let on_way = ids[d];
        assert(tags.contains_key(on_way));
        assert(is_clean_name(tags[on_way].name));
    }
    assert(parent_on(ids, 0) == None::<u32>);
    lemma_entry_from(tags, loaded, next_upto(entries, at), reserved, id, names, ids, 0);
    assert(names.skip(0) =~= names);
    let grown = loaded_upto(tags, entries, at + 1);
    assert forall|other: u32| grown.contains_key(other) <==> loaded.insert(
        id,
        tags[id],
    ).contains_key(other) by {
        if grown.contains_key(other) {
            let j = choose|j: int|
                0 <= j < at + 1 && j < entries.len() && (#[trigger] entries[j]).0 == other;
            if j < at {
                assert(loaded.contains_key(other));
            }
        }
        if loaded.contains_key(other) {
            let j = choose|j: int|
                0 <= j < at && j < entries.len() && (#[trigger] entries[j]).0 == other;
            assert(0 <= j < at + 1 && entries[j].0 == other);
        }
        if other == id {
            assert(entries[at].0 == other);
        }
    }
    assert(grown =~= loaded.insert(id, tags[id]));
}

/// Loading the entries from `at` on, behind those before, loads them all.
proof fn lemma_entries_load(
    tags: TagMap,
    reserved: Set<u32>,
    entries: Seq<FlatEntry>,
    at: int,
)
    requires
        is_canonical(tags),
        is_flat_form_of(entries, tags),
        entries_ascend(entries),
        0 <= at <= entries.len(),
    ensures
        entries_interned(
            loaded_upto(tags, entries, at),
            next_upto(entries, at),
            reserved,
            entries.skip(at),
        ) == Some(
            (
                loaded_upto(tags, entries, entries.len() as int),
                next_upto(entries, entries.len() as int),
            ),
        ),
    decreases entries.len() - at,
{
    if at < entries.len() {
        lemma_entry_loads(tags, reserved, entries, at);
        lemma_entries_load(tags, reserved, entries, at + 1);
        assert(entries.skip(at)[0] == entries[at]);
        assert(entries.skip(at).drop_first() =~= entries.skip(at + 1));
    }
}

/// Once entries are loaded, the next id to try stands behind the greatest
/// id among them.
proof fn lemma_next_upto(tags: TagMap, entries: Seq<FlatEntry>, upto: int)
    requires
        is_canonical(tags),
        is_flat_form_of(entries, tags),
        0 <= upto <= entries.len(),
    ensures
        upto == 0 ==> next_upto(entries, upto) == 0,
        upto > 0 ==> next_upto(entries, upto) > 0 && (exists|j: int|
            0 <= j < upto && (#[trigger] entries[j]).0 == next_upto(entries, upto) - 1) && (
        forall|j: int| 0 <= j < upto ==> (#[trigger] entries[j]).0 < next_upto(entries, upto)),
    decreases upto,
{
    if upto > 0 {
        lemma_next_upto(tags, entries, upto - 1);
        let before = next_upto(entries, upto - 1);
        let id = entries[upto - 1].0;
        assert(tags.contains_key(id));
        assert(id != u32::MAX);
        let after = next_upto(entries, upto);
        if before <= id {
            assert(after == id + 1);
            assert(entries[upto - 1].0 == after - 1);
        } else {
            assert(after == before);
            let j = choose|j: int| 0 <= j < upto - 1 && (#[trigger] entries[j]).0 == before - 1;
            assert(0 <= j < upto && entries[j].0 == after - 1);
        }
    }
}

/// Clean names all count, as they are.
pub proof fn lemma_kept_clean(names: Seq<Seq<char>>)
    requires
        forall|d: int| 0 <= d < names.len() ==> is_clean_name(#[trigger] names[d]),
    ensures
        kept_segments(names) == names,
    decreases names.len(),
{
    if names.len() > 0 {
        let rest = names.drop_first();
        assert forall|d: int| 0 <= d < rest.len() implies is_clean_name(#[trigger] rest[d]) by {
            assert(rest[d] == names[d + 1]);
        }
        lemma_kept_clean(rest);
        assert(is_clean_name(names[0]));
        assert(seq![names[0]] + rest =~= names);
    }
}

/// The names of the flat form of tags such as interning makes them are in
/// normal form.
proof fn lemma_flat_form_is_normal(tags: TagMap, entries: Seq<FlatEntry>)
    requires
        is_canonical(tags),
        is_flat_form_of(entries, tags),
    ensures
        normal_entries(entries) == entries,
{
    assert forall|k: int| 0 <= k < entries.len() implies normalized_path(
        (#[trigger] entries[k]).1,
    ) == entries[k].1 by {
        let id = entries[k].0;
        let size = tags.len();
        assert(tags.contains_key(id));
        assert(path_names(tags, id, size) is Some);
        lemma_chain(tags, id, size);
        lemma_more_fuel(tags, id, size, size + 1);
        let names = path_names(tags, id, size)->0;
        let ids = path_ids(tags, id, size)->0;
        assert forall|d: int| 0 <= d < names.len() implies is_clean_name(
            #[trigger] names[d],
        ) by {
            assert(tags.contains_key(ids[d]));
            assert(is_clean_name(tags[ids[d]].name));
        }
        lemma_split_join(names, ':');
        lemma_kept_clean(names);
    }
    assert(normal_entries(entries) =~= entries);
}

/// The flat form of tags such as interning makes them loads as those tags,
/// with the next id to try behind the greatest id: the same as their
/// records load. So a snapshot loads alike in both forms.
pub proof fn lemma_flat_form_loads(tags: TagMap, entries: Seq<FlatEntry>)
    requires
        is_canonical(tags),
        is_flat_form_of(entries, tags),
    ensures
        flat_tags(entries) == Some((tags, next_id_for(tags))),
{
    lemma_flat_form_is_normal(tags, entries);
    let sorted = sorted_entries(entries);
    lemma_sorted_entries(entries);
    assert(is_flat_form_of(sorted, tags)) by {
        assert forall|k: int| 0 <= k < sorted.len() implies tags.contains_key(
            (#[trigger] sorted[k]).0,
        ) && full_name_of(tags, sorted[k].0) == Some(sorted[k].1) by {
            assert(sorted.contains(sorted[k]));
            assert(entries.contains(sorted[k]));
            let j = choose|j: int| 0 <= j < entries.len() && entries[j] == sorted[k];
            assert(tags.contains_key(entries[j].0));
        }
        assert forall|id: u32| tags.contains_key(id) implies exists|k: int|
            0 <= k < sorted.len() && (#[trigger] sorted[k]).0 == id by {
            let j = choose|j: int| 0 <= j < entries.len() && (#[trigger] entries[j]).0 == id;
            assert(entries.contains(entries[j]));
            assert(sorted.contains(entries[j]));
            let k = choose|k: int| 0 <= k < sorted.len() && sorted[k] == entries[j];
            assert(sorted[k].0 == id);
        }
    }
    let size = sorted.len() as int;
    lemma_entries_load(tags, recorded_ids(entries), sorted, 0);
    assert(sorted.skip(0) =~= sorted);
    assert(loaded_upto(tags, sorted, 0) =~= TagMap::empty());
    let loaded = loaded_upto(tags, sorted, size);
    assert forall|id: u32| loaded.contains_key(id) <==> tags.contains_key(id) by {
        if loaded.contains_key(id) {
            let j = choose|j: int|
                0 <= j < size && j < sorted.len() && (#[trigger] sorted[j]).0 == id;
            assert(tags.contains_key(sorted[j].0));
        }
        if tags.contains_key(id) {
            let k = choose|k: int| 0 <= k < sorted.len() && (#[trigger] sorted[k]).0 == id;
            assert(0 <= k < size && sorted[k].0 == id);
        }
    }
    assert(loaded =~= tags);
    lemma_next_upto(tags, sorted, size);
    let next = next_upto(sorted, size);
    if size == 0 {
        assert(!(exists|id: u32| tags.contains_key(id))) by {
            if exists|id: u32| tags.contains_key(id) {
                let id = choose|id: u32| tags.contains_key(id);
                let k = choose|k: int| 0 <= k < sorted.len() && (#[trigger] sorted[k]).0 == id;
            }
        }
    } else {
        let top = (next - 1) as u32;
        let j = choose|j: int| 0 <= j < size && (#[trigger] sorted[j]).0 == next - 1;
        assert(tags.contains_key(sorted[j].0));
        assert forall|other: u32| tags.dom().contains(other) implies other <= top by {
            let k = choose|k: int| 0 <= k < sorted.len() && (#[trigger] sorted[k]).0 == other;
            assert(sorted[k].0 < next);
        }
        assert(is_greatest(tags.dom(), top));
        let chosen = choose|id: u32| is_greatest(tags.dom(), id);
        assert(chosen == top);
        assert(top != u32::MAX);
        assert(next_after(top) == next);
    }
}

/// The segments that count of pieces without a colon are clean names.
pub proof fn lemma_segments_are_clean(pieces: Seq<Seq<char>>)
    requires
        forall|i: int| 0 <= i < pieces.len() ==> !(#[trigger] pieces[i]).contains(':'),
    ensures
        forall|d: int|
            0 <= d < kept_segments(pieces).len() ==> is_clean_name(
                #[trigger] kept_segments(pieces)[d],
            ),
    decreases pieces.len(),
{
    if pieces.len() > 0 {
        let rest = pieces.drop_first();
        assert forall|i: int| 0 <= i < rest.len() implies !(#[trigger] rest[i]).contains(':') by {
            assert(rest[i] == pieces[i + 1]);
        }
        lemma_segments_are_clean(rest);
        let first = trimmed(pieces[0]);
        lemma_trimmed_is_trimmed(pieces[0]);
        let kept = kept_segments(pieces);
        assert forall|d: int| 0 <= d < kept.len() implies is_clean_name(#[trigger] kept[d]) by {
            if first.len() > 0 {
                assert(kept == seq![first] + kept_segments(rest));
                if d == 0 {
                    assert(kept[0] == first);
                    assert(trimmed(first) == first);
                    if first.contains(':') {
                        assert(trimmed(pieces[0]).contains(':'));
                        assert(pieces[0].contains(':'));
                    }
                    assert(is_clean_name(first));
                } else {
                    assert(kept[d] == kept_segments(rest)[d - 1]);
                }
            } else {
                assert(kept == kept_segments(rest));
            }
        }
    }
}

/// The normal form of a path has the segments of the path, which are
/// clean names; it splits into them, and is its own normal form.
pub proof fn lemma_normal_path(path: Seq<char>)
    ensures
        path_segments(normalized_path(path)) == path_segments(path),
        normalized_path(normalized_path(path)) == normalized_path(path),
        forall|d: int|
            0 <= d < path_segments(path).len() ==> is_clean_name(#[trigger] path_segments(path)[d]),
        path_segments(path).len() > 0 ==> split_on(normalized_path(path), ':') == path_segments(
            path,
        ),
        path_segments(path).len() == 0 ==> normalized_path(path).len() == 0,
{
    let names = path_segments(path);
    lemma_split_pieces(path, ':');
    lemma_segments_are_clean(split_on(path, ':'));
    if names.len() > 0 {
        assert forall|d: int| 0 <= d < names.len() implies !(#[trigger] names[d]).contains(
            ':',
        ) by {
            assert(is_clean_name(names[d]));
        }
        lemma_split_join(names, ':');
        lemma_kept_clean(names);
    } else {
        lemma_no_segments(normalized_path(path));
    }
}

/// Whether the tag `id` stems from `entry`: the names down to it are the
/// first `depth` segments of the name of the entry. An id that is set aside
/// stems from the entry that records it only, as the tag of its whole name.
pub open spec fn stems_from(
    tags: TagMap,
    id: u32,
    entry: FlatEntry,
    depth: int,
    reserved: Set<u32>,
) -> bool {
    &&& 1 <= depth <= path_segments(entry.1).len()
    &&& path_names(tags, id, tags.len()) == Some(path_segments(entry.1).take(depth))
    &&& reserved.contains(id) ==> depth == path_segments(entry.1).len() && id == entry.0
}

/// Whether the tag `id` stems from one of the first `upto` entries, or from
/// the first `walked` segments of the entry behind them.
pub open spec fn has_origin(
    tags: TagMap,
    id: u32,
    entries: Seq<FlatEntry>,
    upto: int,
    walked: int,
    reserved: Set<u32>,
) -> bool {
    exists|j: int, depth: int|
        0 <= j <= upto && j < entries.len() && (j == upto ==> depth <= walked)
            && #[trigger] stems_from(tags, id, entries[j], depth, reserved)
}

/// Whether the tags are a forest in which every tag stems from one of the
/// first `upto` entries, or from the first `walked` segments of the entry
/// behind them.
pub open spec fn is_loaded_from(
    tags: TagMap,
    entries: Seq<FlatEntry>,
    upto: int,
    walked: int,
    reserved: Set<u32>,
) -> bool {
    &&& tags.dom().finite()
    &&& is_forest(tags)
    &&& forall|id: u32|
        tags.contains_key(id) ==> #[trigger] has_origin(tags, id, entries, upto, walked, reserved)
}

/// Whether the entries are as loading goes through them: with names in
/// normal form, in order, each id once, and all ids set aside.
pub open spec fn is_load_order(entries: Seq<FlatEntry>, reserved: Set<u32>) -> bool {
    &&& entries_ascend(entries)
    &&& has_distinct_ids(entries)
    &&& forall|j: int|
        0 <= j < entries.len() ==> normalized_path((#[trigger] entries[j]).1) == entries[j].1
            && reserved.contains(entries[j].0)
}

/// Whether no entry before the one at `at` has its name.
pub open spec fn is_first_of_name(entries: Seq<FlatEntry>, at: int) -> bool {
    forall|j: int| 0 <= j < at ==> (#[trigger] entries[j]).1 != entries[at].1
}

/// A tag keeps its origin while the names down to it stay.
proof fn lemma_origin_stays(
    before: TagMap,
    after: TagMap,
    id: u32,
    entries: Seq<FlatEntry>,
    upto: int,
    walked: int,
    further: int,
    reserved: Set<u32>,
)
    requires
        has_origin(before, id, entries, upto, walked, reserved),
        walked <= further,
        path_names(after, id, after.len()) == path_names(before, id, before.len()),
    ensures
        has_origin(after, id, entries, upto, further, reserved),
{
    let (j, depth) = choose|j: int, depth: int|
        0 <= j <= upto && j < entries.len() && (j == upto ==> depth <= walked)
            && #[trigger] stems_from(before, id, entries[j], depth, reserved);
    assert(stems_from(after, id, entries[j], depth, reserved));
}

/// No tag has the names of an entry that is the first of its name, while
/// fewer than all of its segments are walked.
proof fn lemma_name_is_new(
    tags: TagMap,
    reserved: Set<u32>,
    entries: Seq<FlatEntry>,
    at: int,
    walked: int,
    id: u32,
)
    requires
        0 <= at < entries.len(),
        is_load_order(entries, reserved),
        is_first_of_name(entries, at),
        walked < path_segments(entries[at].1).len(),
        has_origin(tags, id, entries, at, walked, reserved),
    ensures
        path_names(tags, id, tags.len()) != Some(path_segments(entries[at].1)),
{
    let names = path_segments(entries[at].1);
    let (j, depth) = choose|j: int, depth: int|
        0 <= j <= at && j < entries.len() && (j == at ==> depth <= walked)
            && #[trigger] stems_from(tags, id, entries[j], depth, reserved);
    let others = path_segments(entries[j].1);
    if path_names(tags, id, tags.len()) == Some(names) {
        assert(others.take(depth) == names);
        if j == at {
            assert(names.take(depth).len() == depth);
        } else if depth == others.len() {
            assert(others.take(depth) =~= others);
            assert(entries[j].1 == entries[at].1);
        } else {
            lemma_join_prefix(others, depth, ':');
            assert(lex_less(entries[at].1, entries[j].1));
            assert(entry_less(entries[at], entries[j]));
        }
    }
}

/// No tag has the id of an entry before all of its segments are walked.
proof fn lemma_id_is_free(
    tags: TagMap,
    reserved: Set<u32>,
    entries: Seq<FlatEntry>,
    at: int,
    walked: int,
)
    requires
        0 <= at < entries.len(),
        is_load_order(entries, reserved),
        walked < path_segments(entries[at].1).len(),
        is_loaded_from(tags, entries, at, walked, reserved),
    ensures
        !tags.contains_key(entries[at].0),
{
    let id = entries[at].0;
    if tags.contains_key(id) {
        assert(has_origin(tags, id, entries, at, walked, reserved));
        let (j, depth) = choose|j: int, depth: int|
            0 <= j <= at && j < entries.len() && (j == at ==> depth <= walked)
                && #[trigger] stems_from(tags, id, entries[j], depth, reserved);
        assert(reserved.contains(id));
        assert(entries[j].0 == entries[at].0);
    }
}

/// The tags of what loading gives; none where it gives nothing.
pub open spec fn tags_of(loaded: Option<(TagMap, u32)>) -> TagMap {
    match loaded {
        Some(state) => state.0,
        None => TagMap::empty(),
    }
}

/// Filing the segments of the entry at `at` from the `walked`th on keeps
/// every tag with the names down to it, and leaves tags that stem from the
/// entries up to that one. Where the entry is the first of its name, its
/// id then has the tag of its name.
proof fn lemma_entry_walk(
    tags: TagMap,
    next_id: u32,
    reserved: Set<u32>,
    parent_id: Option<u32>,
    entries: Seq<FlatEntry>,
    at: int,
    walked: int,
)
    requires
        0 <= at < entries.len(),
        is_load_order(entries, reserved),
        is_loaded_from(tags, entries, at, walked, reserved),
        0 <= walked <= path_segments(entries[at].1).len(),
        walked == 0 ==> parent_id is None,
        walked > 0 ==> parent_id is Some && tags.contains_key(parent_id->0) && path_names(
            tags,
            parent_id->0,
            tags.len(),
        ) == Some(path_segments(entries[at].1).take(walked)),
        walked == path_segments(entries[at].1).len() && walked > 0 && is_first_of_name(entries, at)
            ==> parent_id == Some(entries[at].0),
        entry_interned(
            tags,
            next_id,
            reserved,
            parent_id,
            path_segments(entries[at].1).skip(walked),
            entries[at].0,
        ) is Some,
    ensures
        ({
            let names = path_segments(entries[at].1);
            let after = tags_of(entry_interned(
                tags,
                next_id,
                reserved,
                parent_id,
                names.skip(walked),
                entries[at].0,
            ));
            &&& is_loaded_from(after, entries, at, names.len() as int, reserved)
            &&& forall|id: u32|
                tags.contains_key(id) ==> after.contains_key(id) && path_names(
                    after,
                    id,
                    after.len(),
                ) == #[trigger] path_names(tags, id, tags.len())
            &&& is_first_of_name(entries, at) && names.len() > 0 ==> after.contains_key(
                entries[at].0,
            ) && path_names(after, entries[at].0, after.len()) == Some(names)
        }),
    decreases path_segments(entries[at].1).len() - walked,
{
    let entry = entries[at];
    let names = path_segments(entry.1);
    let left = names.skip(walked);
    if walked == names.len() {
        assert(left.len() == 0);
        assert(names.take(walked) =~= names);
        assert forall|id: u32| tags.contains_key(id) implies #[trigger] has_origin(
            tags,
            id,
            entries,
            at,
            names.len() as int,
            reserved,
        ) by {
            assert(has_origin(tags, id, entries, at, walked, reserved));
        }
    } else {
        lemma_normal_path(entry.1);
        assert(left[0] == names[walked]);
        assert(is_clean_name(names[walked]));
        let name = names[walked];
        assert(trimmed(left[0]) == name);
        let wanted = if left.len() == 1 {
            Some(entry.0)
        } else {
            None
        };
        assert(left.drop_first() =~= names.skip(walked + 1));
        let found = filed(tags, next_id, reserved, parent_id, name, wanted);
        assert(found is Some);
        let step = found->0;
        lemma_filed(tags, next_id, reserved, parent_id, name, wanted);
        assert(names.take(walked) + seq![name] =~= names.take(walked + 1));
        if walked == 0 {
            assert(Seq::<Seq<char>>::empty() + seq![name] =~= names.take(1));
        }
        assert(path_names(step.tags, step.id, step.tags.len()) == Some(names.take(walked + 1)));
        assert forall|id: u32| step.tags.contains_key(id) implies #[trigger] has_origin(
            step.tags,
            id,
            entries,
            at,
            walked + 1,
            reserved,
        ) by {
            if tags.contains_key(id) {
                assert(has_origin(tags, id, entries, at, walked, reserved));
                assert(path_names(step.tags, id, step.tags.len()) == path_names(
                    tags,
                    id,
                    tags.len(),
                ));
                lemma_origin_stays(tags, step.tags, id, entries, at, walked, walked + 1, reserved);
            } else {
                assert(id == step.id);
                assert(stems_from(step.tags, id, entry, walked + 1, reserved));
            }
        }
        assert(is_loaded_from(step.tags, entries, at, walked + 1, reserved));
        if walked + 1 == names.len() && is_first_of_name(entries, at) {
            lemma_id_is_free(tags, reserved, entries, at, walked);
            assert(names.take(walked + 1) =~= names);
            if tags.contains_key(step.id) {
                assert(has_origin(tags, step.id, entries, at, walked, reserved));
                lemma_name_is_new(tags, reserved, entries, at, walked, step.id);
            }
            assert(step.id == entry.0);
        }
        lemma_entry_walk(
            step.tags,
            step.next_id,
            reserved,
            Some(step.id),
            entries,
            at,
            walked + 1,
        );
        let after = tags_of(entry_interned(
            step.tags,
            step.next_id,
            reserved,
            Some(step.id),
            names.skip(walked + 1),
            entry.0,
        ));
        assert forall|id: u32| tags.contains_key(id) implies after.contains_key(id) && path_names(
            after,
            id,
            after.len(),
        ) == #[trigger] path_names(tags, id, tags.len()) by {
            assert(step.tags.contains_key(id));
            assert(path_names(step.tags, id, step.tags.len()) == path_names(tags, id, tags.len()));
        }
    }
}

/// Filing the entries from the `upto`th on leaves tags that stem from the
/// entries. Where the entry at `at` is the first of its name and has a
/// segment, its id then has the tag of its name.
proof fn lemma_entries_walk(
    tags: TagMap,
    next_id: u32,
    reserved: Set<u32>,
    entries: Seq<FlatEntry>,
    upto: int,
    at: int,
)
    requires
        0 <= upto <= entries.len(),
        0 <= at < entries.len(),
        is_load_order(entries, reserved),
        is_loaded_from(tags, entries, upto, 0, reserved),
        at < upto && is_first_of_name(entries, at) && path_segments(entries[at].1).len() > 0
            ==> tags.contains_key(entries[at].0) && path_names(tags, entries[at].0, tags.len())
            == Some(path_segments(entries[at].1)),
        entries_interned(tags, next_id, reserved, entries.skip(upto)) is Some,
    ensures
        ({
            let after = tags_of(
                entries_interned(tags, next_id, reserved, entries.skip(upto)),
            );
            &&& is_loaded_from(after, entries, entries.len() as int, 0, reserved)
            &&& is_first_of_name(entries, at) && path_segments(entries[at].1).len() > 0
                ==> after.contains_key(entries[at].0) && path_names(
                after,
                entries[at].0,
                after.len(),
            ) == Some(path_segments(entries[at].1))
        }),
    decreases entries.len() - upto,
{
    let left = entries.skip(upto);
    if upto == entries.len() {
        assert(left.len() == 0);
    } else {
        let entry = entries[upto];
        let names = path_segments(entry.1);
        assert(left[0] == entry);
        assert(left.drop_first() =~= entries.skip(upto + 1));
        lemma_normal_path(entry.1);
        let pieces = split_on(entry.1, ':');
        let state = entry_interned(tags, next_id, reserved, None, pieces, entry.0)->0;
        if names.len() == 0 {
            assert(entry.1.len() == 0);
            assert(pieces =~= seq![Seq::<char>::empty()]);
            assert(pieces.drop_first() =~= Seq::<Seq<char>>::empty());
            crate::text::lemma_trimmed_len(pieces[0]);
            assert(entry_interned(tags, next_id, reserved, None, pieces.drop_first(), entry.0)
                == Some((tags, next_id)));
            assert(state == (tags, next_id));
        } else {
            assert(pieces == names);
            assert(names.skip(0) =~= names);
            lemma_entry_walk(tags, next_id, reserved, None, entries, upto, 0);
        }
        assert forall|id: u32| state.0.contains_key(id) implies #[trigger] has_origin(
            state.0,
            id,
            entries,
            upto + 1,
            0,
            reserved,
        ) by {
            let walked = names.len() as int;
            if names.len() == 0 {
                assert(has_origin(tags, id, entries, upto, 0, reserved));
            } else {
                assert(has_origin(state.0, id, entries, upto, walked, reserved));
            }
            let (j, depth) = choose|j: int, depth: int|
                0 <= j <= upto && j < entries.len() && (j == upto ==> depth <= walked)
                    && #[trigger] stems_from(state.0, id, entries[j], depth, reserved);
            assert(stems_from(state.0, id, entries[j], depth, reserved));
        }
        if at < upto && is_first_of_name(entries, at) && path_segments(entries[at].1).len() > 0 {
            assert(path_names(state.0, entries[at].0, state.0.len()) == path_names(
                tags,
                entries[at].0,
                tags.len(),
            ));
        }
        lemma_entries_walk(state.0, state.1, reserved, entries, upto + 1, at);
    }
}

/// The entries with their names in normal form and in order are as loading
/// goes through them, where no id has two entries.
proof fn lemma_load_order(entries: Seq<FlatEntry>)
    requires
        has_distinct_ids(entries),
    ensures
        is_load_order(sorted_entries(normal_entries(entries)), recorded_ids(entries)),
{
    let normal = normal_entries(entries);
    let sorted = sorted_entries(normal);
    assert forall|i: int, j: int|
        0 <= i < normal.len() && 0 <= j < normal.len() && i != j implies (#[trigger] normal[i]).0
        != (#[trigger] normal[j]).0 by {
        assert(entries[i].0 != entries[j].0);
    }
    lemma_sorted_entries(normal);
    assert forall|j: int| 0 <= j < sorted.len() implies normalized_path((#[trigger] sorted[j]).1)
        == sorted[j].1 && recorded_ids(entries).contains(sorted[j].0) by {
        assert(sorted.contains(sorted[j]));
        assert(normal.contains(sorted[j]));
        let k = choose|k: int| 0 <= k < normal.len() && normal[k] == sorted[j];
        lemma_normal_path(entries[k].1);
        assert(entries[k].0 == sorted[j].0);
    }
}

/// Loading the flat form keeps the ids that it records: the id of an entry
/// whose name has a segment then has the tag of that name, in its normal
/// form, unless another entry of the same name has a lesser id.
pub proof fn lemma_flat_form_keeps_ids(entries: Seq<FlatEntry>, at: int)
    requires
        has_distinct_ids(entries),
        0 <= at < entries.len(),
        path_segments(entries[at].1).len() > 0,
        forall|k: int|
            0 <= k < entries.len() && normalized_path((#[trigger] entries[k]).1) == normalized_path(
                entries[at].1,
            ) ==> entries[at].0 <= entries[k].0,
        flat_tags(entries) is Some,
    ensures
        tags_of(flat_tags(entries)).contains_key(entries[at].0),
        full_name_of(tags_of(flat_tags(entries)), entries[at].0) == Some(
            normalized_path(entries[at].1),
        ),
{
    let normal = normal_entries(entries);
    let sorted = sorted_entries(normal);
    let reserved = recorded_ids(entries);
    let empty = TagMap::empty();
    lemma_load_order(entries);
    lemma_sorted_entries(normal);
    assert(normal.contains(normal[at]));
    assert(sorted.contains(normal[at]));
    let to = choose|to: int| 0 <= to < sorted.len() && sorted[to] == normal[at];
    assert forall|j: int| 0 <= j < to implies (#[trigger] sorted[j]).1 != sorted[to].1 by {
        if sorted[j].1 == sorted[to].1 {
            assert(sorted.contains(sorted[j]));
            assert(normal.contains(sorted[j]));
            let k = choose|k: int| 0 <= k < normal.len() && normal[k] == sorted[j];
            assert(entries[at].0 <= entries[k].0);
            assert(sorted[j].0 != sorted[to].0);
            assert(entry_less(sorted[to], sorted[j]));
        }
    }
    lemma_normal_path(entries[at].1);
    assert(sorted.skip(0) =~= sorted);
    lemma_entries_walk(empty, 0, reserved, sorted, 0, to);
    let tags = tags_of(flat_tags(entries));
    lemma_more_fuel(tags, entries[at].0, tags.len(), tags.len() + 1);
}

/// Loading the flat form gives an id that an entry records to no other
/// tag: a tag with such an id is the tag of the name of that entry.
pub proof fn lemma_flat_form_spares_ids(entries: Seq<FlatEntry>, id: u32)
    requires
        has_distinct_ids(entries),
        flat_tags(entries) is Some,
        tags_of(flat_tags(entries)).contains_key(id),
        recorded_ids(entries).contains(id),
    ensures
        exists|k: int|
            0 <= k < entries.len() && (#[trigger] entries[k]).0 == id && full_name_of(
                tags_of(flat_tags(entries)),
                id,
            ) == Some(normalized_path(entries[k].1)),
{
    let normal = normal_entries(entries);
    let sorted = sorted_entries(normal);
    let reserved = recorded_ids(entries);
    let empty = TagMap::empty();
    let tags = tags_of(flat_tags(entries));
    lemma_load_order(entries);
    lemma_sorted_entries(normal);
    assert(sorted.skip(0) =~= sorted);
    let some = choose|k: int| 0 <= k < entries.len() && (#[trigger] entries[k]).0 == id;
    lemma_entries_walk(empty, 0, reserved, sorted, 0, 0);
    assert(has_origin(tags, id, sorted, sorted.len() as int, 0, reserved));
    let (j, depth) = choose|j: int, depth: int|
        0 <= j <= sorted.len() && j < sorted.len() && (j == sorted.len() ==> depth <= 0)
            && #[trigger] stems_from(tags, id, sorted[j], depth, reserved);
    let names = path_segments(sorted[j].1);
    assert(names.take(depth) =~= names);
    assert(sorted.contains(sorted[j]));
    assert(normal.contains(sorted[j]));
    let k = choose|k: int| 0 <= k < normal.len() && normal[k] == sorted[j];
    lemma_more_fuel(tags, id, tags.len(), tags.len() + 1);
    assert(entries[k].0 == id);
}

/// The ids that entries record are no more than the entries.
proof fn lemma_recorded_ids(entries: Seq<FlatEntry>)
    ensures
        recorded_ids(entries).finite(),
        recorded_ids(entries).len() <= entries.len(),
    decreases entries.len(),
{
    if entries.len() == 0 {
        assert(recorded_ids(entries) =~= Set::<u32>::empty());
    } else {
        let shorter = entries.drop_last();
        let last = entries.last().0;
        lemma_recorded_ids(shorter);
        assert forall|id: u32|
            recorded_ids(entries).contains(id) <==> recorded_ids(shorter).insert(last).contains(
                id,
            ) by {
            if recorded_ids(entries).contains(id) {
                let k = choose|k: int| 0 <= k < entries.len() && (#[trigger] entries[k]).0 == id;
                if k < shorter.len() {
                    assert(shorter[k] == entries[k]);
                }
            }
            if recorded_ids(shorter).contains(id) {
                let k = choose|k: int| 0 <= k < shorter.len() && (#[trigger] shorter[k]).0 == id;
                assert(entries[k] == shorter[k]);
            }
            if id == last {
                assert(entries[entries.len() - 1].0 == id);
            }
        }
        assert(recorded_ids(entries) =~= recorded_ids(shorter).insert(last));
    }
}

/// Filing the segments of an entry finds an id for each while the tags,
/// the ids set aside and the segments are together fewer than the ids; it
/// makes no more tags than there are segments.
proof fn lemma_entry_files(
    tags: TagMap,
    next_id: u32,
    reserved: Set<u32>,
    parent_id: Option<u32>,
    segments: Seq<Seq<char>>,
    id: u32,
)
    requires
        tags.dom().finite(),
        reserved.finite(),
        tags.len() + reserved.len() + segments.len() <= u32::MAX,
    ensures
        entry_interned(tags, next_id, reserved, parent_id, segments, id) is Some,
        tags_of(entry_interned(tags, next_id, reserved, parent_id, segments, id)).dom().finite(),
        tags_of(entry_interned(tags, next_id, reserved, parent_id, segments, id)).len()
            <= tags.len() + segments.len(),
    decreases segments.len(),
{
    if segments.len() > 0 {
        let name = trimmed(segments[0]);
        let wanted = if segments.len() == 1 {
            Some(id)
        } else {
            None
        };
        if name.len() == 0 {
            lemma_entry_files(tags, next_id, reserved, parent_id, segments.drop_first(), id);
        } else {
            let taken = tags.dom().union(reserved);
            vstd::set_lib::lemma_len_union(tags.dom(), reserved);
            if is_full(taken) {
                lemma_full_len(taken);
            }
            let step = filed(tags, next_id, reserved, parent_id, name, wanted)->0;
            assert(step.tags.dom().finite());
            assert(step.tags.len() <= tags.len() + 1);
            lemma_entry_files(
                step.tags,
                step.next_id,
                reserved,
                Some(step.id),
                segments.drop_first(),
                id,
            );
        }
    }
}

/// Filing entries finds an id for every segment while the tags, the ids
/// set aside and the segments, at most `longest` for an entry, are together
/// fewer than the ids.
proof fn lemma_entries_file(
    tags: TagMap,
    next_id: u32,
    reserved: Set<u32>,
    entries: Seq<FlatEntry>,
    longest: nat,
)
    requires
        tags.dom().finite(),
        reserved.finite(),
        forall|k: int|
            0 <= k < entries.len() ==> split_on((#[trigger] entries[k]).1, ':').len() <= longest,
        tags.len() + reserved.len() + entries.len() * longest <= u32::MAX,
    ensures
        entries_interned(tags, next_id, reserved, entries) is Some,
    decreases entries.len(),
{
    if entries.len() > 0 {
        let rest = entries.drop_first();
        let pieces = split_on(entries[0].1, ':');
        assert(entries.len() * longest == rest.len() * longest + longest && rest.len() * longest
            >= 0) by (nonlinear_arith)
            requires
                entries.len() == rest.len() + 1,
        ;
        lemma_entry_files(tags, next_id, reserved, None, pieces, entries[0].0);
        let state = entry_interned(tags, next_id, reserved, None, pieces, entries[0].0)->0;
        assert forall|k: int| 0 <= k < rest.len() implies split_on((#[trigger] rest[k]).1, ':').len()
            <= longest by {
            assert(rest[k] == entries[k + 1]);
        }
        lemma_entries_file(state.0, state.1, reserved, rest, longest);
    }
}

/// Loading the flat form finds an id for every segment, unless the ids run
/// out: it gives tags where the entries, each counted for its id and for
/// `longest` segments, of which none has more, are fewer than the ids.
pub proof fn lemma_flat_form_finds_ids(entries: Seq<FlatEntry>, longest: nat)
    requires
        longest >= 1,
        forall|k: int|
            0 <= k < entries.len() ==> path_segments((#[trigger] entries[k]).1).len() <= longest,
        entries.len() * (longest + 1) <= u32::MAX,
    ensures
        flat_tags(entries) is Some,
{
    let normal = normal_entries(entries);
    let sorted = sorted_entries(normal);
    let reserved = recorded_ids(entries);
    lemma_sorted_entries(normal);
    lemma_recorded_ids(entries);
    assert forall|j: int| 0 <= j < sorted.len() implies split_on((#[trigger] sorted[j]).1, ':').len()
        <= longest by {
        assert(sorted.contains(sorted[j]));
        assert(normal.contains(sorted[j]));
        let k = choose|k: int| 0 <= k < normal.len() && normal[k] == sorted[j];
        lemma_normal_path(entries[k].1);
        assert(path_segments(entries[k].1).len() <= longest);
        if path_segments(entries[k].1).len() == 0 {
            assert(split_on(sorted[j].1, ':') =~= seq![Seq::<char>::empty()]);
        }
    }
    assert(reserved.len() + sorted.len() * longest <= entries.len() * (longest + 1))
        by (nonlinear_arith)
        requires
            reserved.len() <= entries.len(),
            sorted.len() == entries.len(),
    ;
    lemma_entries_file(TagMap::empty(), 0, reserved, sorted, longest);
}

/// Tests whether the entry of `id` and `name` comes before that of
/// `other_id` and `other_name`.
fn entry_precedes(id: u32, name: &str, other_id: u32, other_name: &str) -> (before: bool)
    ensures
        before == entry_less((id, name@), (other_id, other_name@)),
{
    if precedes(name, other_name) {
        return true;
    }
    if precedes(other_name, name) {
        proof {
            if name@ == other_name@ {
                crate::text::lemma_lex_irreflexive(name@);
            }
        }
        return false;
    }
    proof {
        crate::text::lemma_lex_total(name@, other_name@);
    }
    id < other_id
}

/// Sorts the entries by name, and by id among entries of one name.
pub fn sort_entries(entries: &Vec<(u32, String)>) -> (sorted: Vec<(u32, String)>)
    ensures
        entry_views(sorted@) == sorted_entries(entry_views(entries@)),
{
    let mut sorted: Vec<(u32, String)> = Vec::new();
    let mut i: usize = 0;
    assert(entry_views(entries@).take(0) =~= Seq::<FlatEntry>::empty());
    while i < entries.len()
        invariant
            i <= entries.len(),
            entry_views(sorted@) == sorted_entries(entry_views(entries@).take(i as int)),
        decreases entries.len() - i,
    {
        let id = entries[i].0;
        let name = entries[i].1.clone();
        let ghost entry = (id, name@);
        let ghost before = entry_views(sorted@);
        let mut at: usize = 0;
        while at < sorted.len() && !entry_precedes(
            id,
            name.as_str(),
            sorted[at].0,
            sorted[at].1.as_str(),
        )
            invariant
                at <= sorted.len(),
                before == entry_views(sorted@),
                entry == (id, name@),
                insert_at(before, entry, 0) == insert_at(before, entry, at as int),
            decreases sorted.len() - at,
        {
            assert(before[at as int] == (sorted@[at as int].0, sorted@[at as int].1@));
            at = at + 1;
        }
        proof {
            if at < sorted.len() {
                assert(before[at as int] == (sorted@[at as int].0, sorted@[at as int].1@));
            }
            let upto = entry_views(entries@).take(i + 1);
            assert(upto.drop_last() =~= entry_views(entries@).take(i as int));
            assert(upto.last() == entry);
        }
        sorted.insert(at, (id, name));
        assert(entry_views(sorted@) =~= before.insert(at as int, entry));
        i = i + 1;
    }
    assert(entry_views(entries@).take(i as int) =~= entry_views(entries@));
    sorted
}

impl TagRegistry {
    /// Makes a registry of the flat form, keeping the ids that the entries
    /// record. The names are brought into their normal form and sorted, by
    /// name and then by id; then each is filed: its last segment under the
    /// id of its entry, unless a tag of that name is there already, and
    /// every segment before it that is new under an id that no tag has and
    /// no entry records. Returns `None` only where the ids run out.
    pub fn from_map(entries: Vec<(u32, String)>) -> (registry: Option<TagRegistry>)
        ensures
            match registry {
                Some(loaded) => loaded.wf() && flat_tags(entry_views(entries@)) == Some(
                    (loaded@, loaded.next_id()),
                ),
                None => flat_tags(entry_views(entries@)) is None,
            },
    {
        let ghost given = entry_views(entries@);
        let mut normal: Vec<(u32, String)> = Vec::new();
        let mut reserved: HashSet<u32> = HashSet::new();
        let mut k: usize = 0;
        assert(reserved@ =~= recorded_ids(given.take(0)));
        while k < entries.len()
            invariant
                k <= entries.len(),
                given == entry_views(entries@),
                normal@.len() == k,
                forall|j: int|
                    0 <= j < k ==> (#[trigger] entry_views(normal@)[j]) == (
                        given[j].0,
                        normalized_path(given[j].1),
                    ),
                reserved@ == recorded_ids(given.take(k as int)),
            decreases entries.len() - k,
        {
            let id = entries[k].0;
            let path = TagRegistry::normalize_path(entries[k].1.as_str());
            let ghost before = entry_views(normal@);
            let ghost added = (id, path@);
            let ghost reserved_before = reserved@;
            normal.push((id, path));
            reserved.insert(id);
            proof {
                assert(given[k as int] == (entries@[k as int].0, entries@[k as int].1@));
                assert(entry_views(normal@) =~= before.push(added));
                assert forall|j: int| 0 <= j < k + 1 implies (#[trigger] entry_views(
                    normal@,
                )[j]) == (given[j].0, normalized_path(given[j].1)) by {
                    if j < k {
                        assert(entry_views(normal@)[j] == before[j]);
                    }
                }
                assert forall|other: u32| reserved@.contains(other) <==> recorded_ids(
                    given.take(k + 1),
                ).contains(other) by {
                    if recorded_ids(given.take(k + 1)).contains(other) {
                        let j = choose|j: int|
                            0 <= j < given.take(k + 1).len() && (#[trigger] given.take(
                                k + 1,
                            )[j]).0 == other;
                        if j < k {
                            assert(given.take(k as int)[j].0 == other);
                        }
                    }
                    if reserved_before.contains(other) {
                        let j = choose|j: int|
                            0 <= j < given.take(k as int).len() && (#[trigger] given.take(
                                k as int,
                            )[j]).0 == other;
                        assert(given.take(k + 1)[j].0 == other);
                    }
                    if other == id {
                        assert(given.take(k + 1)[k as int].0 == other);
                    }
                }
                assert(reserved@ =~= recorded_ids(given.take(k + 1)));
            }
            k = k + 1;
        }
        proof {
            assert(given.take(k as int) =~= given);
            assert(entry_views(normal@) =~= normal_entries(given));
        }
        let mut registry = TagRegistry::new();
        let sorted = sort_entries(&normal);
        let ghost all = entry_views(sorted@);
        let ghost set_aside = reserved@;
        let mut i: usize = 0;
        assert(all.skip(0) =~= all);
        while i < sorted.len()
            invariant
                i <= sorted.len(),
                all == entry_views(sorted@),
                all == sorted_entries(normal_entries(given)),
                given == entry_views(entries@),
                set_aside == recorded_ids(given),
                set_aside == reserved@,
                registry.wf(),
                entries_interned(TagMap::empty(), 0, set_aside, all) == entries_interned(
                    registry@,
                    registry.next_id(),
                    set_aside,
                    all.skip(i as int),
                ),
            decreases sorted.len() - i,
        {
            let id = sorted[i].0;
            let segments = split(sorted[i].1.as_str(), ':');
            let ghost pieces = views_of(segments@);
            proof {
                assert(all.skip(i as int).drop_first() =~= all.skip(i + 1));
                assert(all.skip(i as int)[0] == (sorted@[i as int].0, sorted@[i as int].1@));
                assert(pieces.skip(0) =~= pieces);
            }
            let ghost tags_before = registry@;
            let ghost next_before = registry.next_id();
            let ghost path = sorted@[i as int].1@;
            let mut parent: Option<u32> = None;
            let mut index: usize = 0;
            while index < segments.len()
                invariant
                    index <= segments.len(),
                    pieces == views_of(segments@),
                    pieces == split_on(path, ':'),
                    i < sorted.len(),
                    all == sorted_entries(normal_entries(given)),
                    given == entry_views(entries@),
                    set_aside == recorded_ids(given),
                    set_aside == reserved@,
                    all.skip(i as int).len() > 0,
                    all.skip(i as int)[0] == (id, path),
                    entries_interned(TagMap::empty(), 0, set_aside, all) == entries_interned(
                        tags_before,
                        next_before,
                        set_aside,
                        all.skip(i as int),
                    ),
                    registry.wf(),
                    entry_interned(tags_before, next_before, set_aside, None, pieces, id)
                        == entry_interned(
                        registry@,
                        registry.next_id(),
                        set_aside,
                        parent,
                        pieces.skip(index as int),
                        id,
                    ),
                decreases segments.len() - index,
            {
                let wanted = if index == segments.len() - 1 {
                    Some(id)
                } else {
                    None
                };
                proof {
                    assert(pieces.skip(index as int).drop_first() =~= pieces.skip(index + 1));
                    assert(pieces.skip(index as int)[0] == segments@[index as int]@);
                }
                let trimmed_segment = trim(segments[index].as_str());
                if !trimmed_segment.as_str().is_empty() {
                    match registry.file_segment(
                        parent,
                        trimmed_segment.as_str(),
                        wanted,
                        &reserved,
                    ) {
                        Some(tag_id) => {
                            parent = Some(tag_id);
                        },
                        None => {
                            return None;
                        },
                    }
                }
                index = index + 1;
            }
            assert(pieces.skip(index as int) =~= Seq::<Seq<char>>::empty());
            i = i + 1;
        }
        assert(all.skip(i as int) =~= Seq::<FlatEntry>::empty());
        Some(registry)
    }
}

} // verus!
