//! The tag registry: a forest of tags, each one segment of a name such as
//! `project:sightline`, interned to stable numeric ids.

use crate::tag_palette::{color_for, palette_color};
use crate::text::{
    contains, has_infix, has_prefix, join, join_with, lemma_lex_total, lemma_lex_transitive,
    lex_less, lowercase, lowercase_of, precedes, split, split_on, starts_with, strip_leading, trim,
    trimmed, views_of, without_leading,
};
use std::collections::{HashMap, HashSet};
use vstd::prelude::*;

verus! {

broadcast use vstd::std_specs::hash::group_hash_axioms;

/// One tag: its id, the segment that it adds to the name of its parent, the
/// id of its parent if it has one, and its colour.
#[derive(Clone, Debug, PartialEq, Eq)]
pub struct Tag {
    pub id: u32,
    pub name: String,
    pub parent_id: Option<u32>,
    pub color: Option<String>,
}

/// What a tag holds, as mathematical values.
pub struct TagView {
    pub id: u32,
    pub name: Seq<char>,
    pub parent_id: Option<u32>,
    pub color: Option<Seq<char>>,
}

impl View for Tag {
    type V = TagView;

    open spec fn view(&self) -> TagView {
        TagView {
            id: self.id,
            name: self.name@,
            parent_id: self.parent_id,
            color: match self.color {
                Some(color) => Some(color@),
                None => None,
            },
        }
    }
}

/// A full tag name with its colour, as offered to complete a query.
#[derive(Clone, Debug, PartialEq, Eq)]
pub struct TagSuggestion {
    pub name: String,
    pub color: Option<String>,
}

/// A tag as shown to callers: its id, its full name behind a `#`, and its
/// colour.
#[derive(Clone, Debug, PartialEq, Eq)]
pub struct TagDescriptor {
    pub id: u32,
    pub name: String,
    pub color: String,
}

/// What a descriptor holds, as mathematical values.
pub struct DescriptorView {
    pub id: u32,
    pub name: Seq<char>,
    pub color: Seq<char>,
}

impl View for TagDescriptor {
    type V = DescriptorView;

    open spec fn view(&self) -> DescriptorView {
        DescriptorView { id: self.id, name: self.name@, color: self.color@ }
    }
}

/// The tags of a registry, by id.
pub type TagMap = Map<u32, TagView>;

/// Whether `tag` is the child named `name` of `parent_id`, or the root of
/// that name where `parent_id` is `None`.
pub open spec fn is_segment(tag: TagView, parent_id: Option<u32>, name: Seq<char>) -> bool {
    tag.parent_id == parent_id && tag.name == name
}

/// Whether `tags` holds the segment `name` under `parent_id`.
pub open spec fn has_segment(tags: TagMap, parent_id: Option<u32>, name: Seq<char>) -> bool {
    exists|id: u32| tags.contains_key(id) && is_segment(#[trigger] tags[id], parent_id, name)
}

/// Whether `id` is the least id of a tag that is the segment `name` under
/// `parent_id`.
pub open spec fn is_least_segment(
    tags: TagMap,
    parent_id: Option<u32>,
    name: Seq<char>,
    id: u32,
) -> bool {
    &&& tags.contains_key(id)
    &&& is_segment(tags[id], parent_id, name)
    &&& forall|other: u32|
        tags.contains_key(other) && is_segment(#[trigger] tags[other], parent_id, name) ==> id
            <= other
}

/// The id of the segment `name` under `parent_id`: the least one, should
/// there be several.
pub open spec fn segment_id(tags: TagMap, parent_id: Option<u32>, name: Seq<char>) -> Option<
    u32,
> {
    if has_segment(tags, parent_id, name) {
        Some(choose|id: u32| is_least_segment(tags, parent_id, name, id))
    } else {
        None
    }
}

/// The segments from a root down to the tag `id`, found by walking up at
/// most `fuel` tags; `None` where the walk meets an id without a tag or
/// does not end within `fuel` tags.
pub open spec fn path_names(tags: TagMap, id: u32, fuel: nat) -> Option<Seq<Seq<char>>>
    decreases fuel,
{
    if fuel == 0 || !tags.contains_key(id) {
        None
    } else {
        match tags[id].parent_id {
            None => Some(seq![tags[id].name]),
            Some(parent) => match path_names(tags, parent, (fuel - 1) as nat) {
                Some(names) => Some(names.push(tags[id].name)),
                None => None,
            },
        }
    }
}

/// The full name of the tag `id`: its segments from the root down, joined
/// with `:`. The walk to the root may take one tag more than the registry
/// holds.
pub open spec fn full_name_of(tags: TagMap, id: u32) -> Option<Seq<char>> {
    match path_names(tags, id, tags.len() + 1) {
        Some(names) => Some(join_with(names, ':')),
        None => None,
    }
}

/// Whether every tag is filed under its own id.
pub open spec fn is_keyed(tags: TagMap) -> bool {
    forall|id: u32| tags.contains_key(id) ==> (#[trigger] tags[id]).id == id
}

/// Whether the tags form a forest: the walk from any tag to its root ends
/// within as many tags as there are.
pub open spec fn is_forest(tags: TagMap) -> bool {
    forall|id: u32| tags.contains_key(id) ==> (#[trigger] path_names(tags, id, tags.len())) is Some
}

/// `names` behind the names of `upper`, where those were found.
pub open spec fn names_below(upper: Option<Seq<Seq<char>>>, names: Seq<Seq<char>>) -> Option<
    Seq<Seq<char>>,
> {
    match upper {
        Some(found) => Some(found + names),
        None => None,
    }
}

/// The id that follows `id`; the first id follows the last.
pub open spec fn next_after(id: u32) -> u32 {
    if id == u32::MAX {
        0
    } else {
        (id + 1) as u32
    }
}

/// The id that stands `steps` ids behind `start`, counting on from 0 behind
/// the last id.
pub open spec fn id_at(start: u32, steps: nat) -> u32 {
    if start + steps <= u32::MAX {
        (start + steps) as u32
    } else {
        (start + steps - 0x1_0000_0000) as u32
    }
}

/// The first id from `steps` ids behind `start` on that is not in `ids`.
pub open spec fn free_id_from(ids: Set<u32>, start: u32, steps: nat) -> u32
    decreases 0xFFFF_FFFF - steps,
{
    if steps >= 0xFFFF_FFFF || !ids.contains(id_at(start, steps)) {
        id_at(start, steps)
    } else {
        free_id_from(ids, start, steps + 1)
    }
}

/// The id of a new tag: the first id from `start` on that no tag has,
/// counting on from 0 behind the last id.
pub open spec fn free_id(ids: Set<u32>, start: u32) -> u32 {
    free_id_from(ids, start, 0)
}

/// The next id to try, once a tag was made under a given `id`: the id
/// behind it, unless the next id to try was already greater.
pub open spec fn bumped(next_id: u32, id: u32) -> u32 {
    if next_id <= id {
        next_after(id)
    } else {
        next_id
    }
}

/// The tag that interning makes for a new segment: its colour is that of
/// the palette for its id.
pub open spec fn new_tag(id: u32, name: Seq<char>, parent_id: Option<u32>) -> TagView {
    TagView { id: id, name: name, parent_id: parent_id, color: Some(palette_color(id as nat)) }
}

/// A registry after a segment was interned, with the id of the segment.
pub struct Interned {
    pub tags: TagMap,
    pub next_id: u32,
    pub id: u32,
}

/// Interning the segment `name` under `parent_id`: the id of the segment
/// where the registry has it, and nothing changes; else a new tag, under
/// `desired` or, without one, the first free id from `next_id` on.
pub open spec fn interned(
    tags: TagMap,
    next_id: u32,
    parent_id: Option<u32>,
    name: Seq<char>,
    desired: Option<u32>,
) -> Interned {
    match segment_id(tags, parent_id, name) {
        Some(existing) => Interned { tags: tags, next_id: next_id, id: existing },
        None => {
            let id = match desired {
                Some(wanted) => wanted,
                None => free_id(tags.dom(), next_id),
            };
            Interned {
                tags: tags.insert(id, new_tag(id, name, parent_id)),
                next_id: match desired {
                    Some(wanted) => bumped(next_id, wanted),
                    None => next_after(id),
                },
                id: id,
            }
        },
    }
}

/// Whether the segment `name` can be interned under `parent_id`: the
/// registry has it, or the parent has a tag, the desired id has none, and
/// without a desired id not every id is taken.
pub open spec fn can_intern(
    tags: TagMap,
    parent_id: Option<u32>,
    name: Seq<char>,
    desired: Option<u32>,
) -> bool {
    has_segment(tags, parent_id, name) || {
        &&& parent_id matches Some(parent) ==> tags.contains_key(parent)
        &&& match desired {
            Some(wanted) => !tags.contains_key(wanted),
            None => tags.len() <= u32::MAX,
        }
    }
}

/// Whether `ids` holds every id.
pub open spec fn is_full(ids: Set<u32>) -> bool {
    forall|id: u32| ids.contains(id)
}

/// A finite set that holds every id has as many members as there are ids.
pub proof fn lemma_full_len(ids: Set<u32>)
    requires
        ids.finite(),
        is_full(ids),
    ensures
        ids.len() == 0x1_0000_0000,
{
    let range = vstd::set_lib::set_int_range(0, 0x1_0000_0000);
    let to_id = |i: int| i as u32;
    vstd::set_lib::lemma_int_range(0, 0x1_0000_0000);
    assert(vstd::relations::injective_on(to_id, range));
    assert forall|id: u32| range.map(to_id).contains(id) by {
        assert(range.contains(id as int));
        assert(to_id(id as int) == id);
    }
    assert(range.map(to_id) =~= ids);
    vstd::set_lib::lemma_map_size(range, ids, to_id);
}

/// Filing the segment `name` under `parent_id` where some ids are set
/// aside, `reserved` for tags that are yet to come: the id of the segment
/// where the registry has it, and nothing changes; else a new tag, under
/// `wanted` if that is given and no tag has it, and else under the first id
/// from `next_id` on that no tag has and that is not set aside. `None`
/// where such an id is needed and there is none.
pub open spec fn filed(
    tags: TagMap,
    next_id: u32,
    reserved: Set<u32>,
    parent_id: Option<u32>,
    name: Seq<char>,
    wanted: Option<u32>,
) -> Option<Interned> {
    match segment_id(tags, parent_id, name) {
        Some(existing) => Some(Interned { tags: tags, next_id: next_id, id: existing }),
        None => if wanted is Some && !tags.contains_key(wanted->0) {
            Some(
                Interned {
                    tags: tags.insert(wanted->0, new_tag(wanted->0, name, parent_id)),
                    next_id: bumped(next_id, wanted->0),
                    id: wanted->0,
                },
            )
        } else if is_full(tags.dom().union(reserved)) {
            None
        } else {
            let id = free_id(tags.dom().union(reserved), next_id);
            Some(
                Interned {
                    tags: tags.insert(id, new_tag(id, name, parent_id)),
                    next_id: next_after(id),
                    id: id,
                },
            )
        },
    }
}

/// The segments that count of a path: each trimmed, the empty ones left
/// out.
pub open spec fn kept_segments(segments: Seq<Seq<char>>) -> Seq<Seq<char>>
    decreases segments.len(),
{
    if segments.len() == 0 {
        Seq::<Seq<char>>::empty()
    } else {
        let first = trimmed(segments[0]);
        if first.len() > 0 {
            seq![first] + kept_segments(segments.drop_first())
        } else {
            kept_segments(segments.drop_first())
        }
    }
}

/// The segments of a path written with colons.
pub open spec fn path_segments(path: Seq<char>) -> Seq<Seq<char>> {
    kept_segments(split_on(path, ':'))
}

/// A path written with colons in its normal form: its segments trimmed,
/// the empty ones dropped, joined with `:`.
pub open spec fn normalized_path(path: Seq<char>) -> Seq<char> {
    join_with(path_segments(path), ':')
}

/// Interning `names` one under the other, the first under `parent_id`: the
/// tags and the next id to try afterwards, and the id of the last segment
/// (`parent_id` where there is no name).
pub open spec fn path_interned(
    tags: TagMap,
    next_id: u32,
    parent_id: Option<u32>,
    names: Seq<Seq<char>>,
) -> (TagMap, u32, Option<u32>)
    decreases names.len(),
{
    if names.len() == 0 {
        (tags, next_id, parent_id)
    } else {
        let step = interned(tags, next_id, parent_id, names[0], None);
        path_interned(step.tags, step.next_id, Some(step.id), names.drop_first())
    }
}

/// Whether `names` can be interned one under the other, the first under
/// `parent_id`: each segment is there, or its parent has a tag and an id is
/// left for it.
pub open spec fn has_room_for(
    tags: TagMap,
    next_id: u32,
    parent_id: Option<u32>,
    names: Seq<Seq<char>>,
) -> bool
    decreases names.len(),
{
    if names.len() == 0 {
        true
    } else {
        let step = interned(tags, next_id, parent_id, names[0], None);
        can_intern(tags, parent_id, names[0], None) && has_room_for(
            step.tags,
            step.next_id,
            Some(step.id),
            names.drop_first(),
        )
    }
}

/// The views of string slices, in order.
pub open spec fn slice_views(segments: Seq<&str>) -> Seq<Seq<char>> {
    segments.map_values(|segment: &str| segment@)
}

/// Every id stands some number of steps below 2^32 behind `start`.
pub proof fn lemma_id_at_reaches(start: u32, id: u32) -> (steps: nat)
    ensures
        steps <= 0xFFFF_FFFF,
        id_at(start, steps) == id,
{
    if id >= start {
        (id - start) as nat
    } else {
        (id + 0x1_0000_0000 - start) as nat
    }
}

/// Where some id is not in `ids`, the first free id is not in `ids`.
pub proof fn lemma_free_id_is_free(ids: Set<u32>, start: u32, steps: nat, free: u32, at: nat)
    requires
        !ids.contains(free),
        id_at(start, at) == free,
        steps <= at <= 0xFFFF_FFFF,
    ensures
        !ids.contains(free_id_from(ids, start, steps)),
    decreases at - steps,
{
    if steps < at && ids.contains(id_at(start, steps)) {
        lemma_free_id_is_free(ids, start, steps + 1, free, at);
    }
}

/// What counts of segments with one more behind them is what counts of
/// these, and then the one more where it counts.
pub proof fn lemma_kept_push(segments: Seq<Seq<char>>, last: Seq<char>)
    ensures
        kept_segments(segments.push(last)) == if trimmed(last).len() > 0 {
            kept_segments(segments).push(trimmed(last))
        } else {
            kept_segments(segments)
        },
    decreases segments.len(),
{
    let all = segments.push(last);
    if segments.len() == 0 {
        assert(all.drop_first() =~= Seq::<Seq<char>>::empty());
        assert(all[0] == last);
        assert(kept_segments(all.drop_first()) =~= Seq::<Seq<char>>::empty());
        if trimmed(last).len() > 0 {
            assert(seq![trimmed(last)] + Seq::<Seq<char>>::empty() =~= kept_segments(
                segments,
            ).push(trimmed(last)));
        }
    } else {
        lemma_kept_push(segments.drop_first(), last);
        assert(all.drop_first() =~= segments.drop_first().push(last));
        assert(all[0] == segments[0]);
        let first = trimmed(segments[0]);
        let rest = kept_segments(segments.drop_first());
        if first.len() > 0 && trimmed(last).len() > 0 {
            assert(seq![first] + rest.push(trimmed(last)) =~= (seq![first] + rest).push(
                trimmed(last),
            ));
        }
    }
}

/// Two different numbers of steps below 2^32 lead to different ids.
proof fn lemma_id_at_differs(start: u32, one: nat, other: nat)
    requires
        one < other <= 0xFFFF_FFFF,
    ensures
        id_at(start, one) != id_at(start, other),
{
}

/// Where not every id is taken, the first free id is not taken.
proof fn lemma_free_id_from(ids: Set<u32>, start: u32, steps: nat, seen: Set<u32>)
    requires
        ids.finite(),
        ids.len() <= u32::MAX,
        steps <= 0xFFFF_FFFF,
        seen.finite(),
        seen.len() == steps,
        seen.subset_of(ids),
        forall|id: u32|
            seen.contains(id) ==> exists|j: nat| j < steps && id == #[trigger] id_at(start, j),
    ensures
        !ids.contains(free_id_from(ids, start, steps)),
    decreases 0xFFFF_FFFF - steps,
{
    let candidate = id_at(start, steps);
    if seen.contains(candidate) {
        let j = choose|j: nat| j < steps && candidate == #[trigger] id_at(start, j);
        lemma_id_at_differs(start, j, steps);
    }
    if steps >= 0xFFFF_FFFF {
        vstd::set_lib::lemma_len_subset(seen, ids);
        vstd::set_lib::lemma_subset_equality(seen, ids);
    } else if ids.contains(candidate) {
        let more = seen.insert(candidate);
        assert forall|id: u32| more.contains(id) implies exists|j: nat|
            j < steps + 1 && id == #[trigger] id_at(start, j) by {
            if id == candidate {
                assert(id == id_at(start, steps));
            } else {
                let j = choose|j: nat| j < steps && id == #[trigger] id_at(start, j);
                assert(j < steps + 1 && id == id_at(start, j));
            }
        }
        vstd::set_lib::lemma_len_subset(more, ids);
        lemma_free_id_from(ids, start, steps + 1, more);
    }
}

/// Where not every id is taken, the id of a new tag is not taken.
pub proof fn lemma_free_id(ids: Set<u32>, start: u32)
    requires
        ids.finite(),
        ids.len() <= u32::MAX,
    ensures
        !ids.contains(free_id(ids, start)),
{
    lemma_free_id_from(ids, start, 0, Set::<u32>::empty());
}

/// A walk to the root that ends within some number of tags ends the same
/// way within more.
pub proof fn lemma_more_fuel(tags: TagMap, id: u32, fuel: nat, more: nat)
    requires
        path_names(tags, id, fuel) is Some,
        fuel <= more,
    ensures
        path_names(tags, id, more) == path_names(tags, id, fuel),
    decreases fuel,
{
    if fuel > 0 {
        match tags[id].parent_id {
            None => {},
            Some(parent) => {
                lemma_more_fuel(tags, parent, (fuel - 1) as nat, (more - 1) as nat);
            },
        }
    }
}

/// A walk to the root stays as it is when a tag is added under an id that
/// had none.
pub proof fn lemma_insert_keeps_path(tags: TagMap, added: u32, tag: TagView, id: u32, fuel: nat)
    requires
        !tags.contains_key(added),
        path_names(tags, id, fuel) is Some,
    ensures
        path_names(tags.insert(added, tag), id, fuel) == path_names(tags, id, fuel),
    decreases fuel,
{
    if fuel > 0 {
        match tags[id].parent_id {
            None => {},
            Some(parent) => {
                lemma_insert_keeps_path(tags, added, tag, parent, (fuel - 1) as nat);
            },
        }
    }
}

/// The ids from a root down to the tag `id`, found as `path_names` finds
/// the segments.
pub open spec fn path_ids(tags: TagMap, id: u32, fuel: nat) -> Option<Seq<u32>>
    decreases fuel,
{
    if fuel == 0 || !tags.contains_key(id) {
        None
    } else {
        match tags[id].parent_id {
            None => Some(seq![id]),
            Some(parent) => match path_ids(tags, parent, (fuel - 1) as nat) {
                Some(ids) => Some(ids.push(id)),
                None => None,
            },
        }
    }
}

/// The parent of the tag at `depth` on a way down from a root: the tag one
/// step up, none for the root.
pub open spec fn parent_on(ids: Seq<u32>, depth: int) -> Option<u32> {
    if depth <= 0 {
        None
    } else {
        Some(ids[depth - 1])
    }
}

/// Where the walk from a tag to its root ends, the ids and the segments on
/// the way down to the tag go together: each tag on the way has its segment
/// as name and the tag one step up as parent, and the way down to it is
/// the start of the way down to the tag.
pub proof fn lemma_chain(tags: TagMap, id: u32, fuel: nat)
    requires
        path_names(tags, id, fuel) is Some,
    ensures
        path_ids(tags, id, fuel) is Some,
        path_ids(tags, id, fuel)->0.len() == path_names(tags, id, fuel)->0.len(),
        path_names(tags, id, fuel)->0.len() >= 1,
        path_ids(tags, id, fuel)->0.last() == id,
        forall|depth: int|
            0 <= depth < path_ids(tags, id, fuel)->0.len() ==> {
                let on_way = #[trigger] path_ids(tags, id, fuel)->0[depth];
                &&& tags.contains_key(on_way)
                &&& tags[on_way].name == path_names(tags, id, fuel)->0[depth]
                &&& tags[on_way].parent_id == parent_on(path_ids(tags, id, fuel)->0, depth)
                &&& path_names(tags, on_way, fuel) == Some(
                    path_names(tags, id, fuel)->0.take(depth + 1),
                )
            },
    decreases fuel,
{
    let names = path_names(tags, id, fuel)->0;
    match tags[id].parent_id {
        None => {
            assert(names.take(1) =~= names);
        },
        Some(parent) => {
            let less = (fuel - 1) as nat;
            lemma_chain(tags, parent, less);
            let upper_ids = path_ids(tags, parent, less)->0;
            let upper_names = path_names(tags, parent, less)->0;
            let ids = path_ids(tags, id, fuel)->0;
            assert(ids == upper_ids.push(id));
            assert(names == upper_names.push(tags[id].name));
            assert forall|depth: int| 0 <= depth < ids.len() implies {
                let on_way = #[trigger] ids[depth];
                &&& tags.contains_key(on_way)
                &&& tags[on_way].name == names[depth]
                &&& tags[on_way].parent_id == parent_on(ids, depth)
                &&& path_names(tags, on_way, fuel) == Some(names.take(depth + 1))
            } by {
                if depth < upper_ids.len() {
                    let on_way = upper_ids[depth];
                    assert(ids[depth] == on_way);
                    assert(tags[on_way].parent_id == parent_on(upper_ids, depth));
                    lemma_more_fuel(tags, on_way, less, fuel);
                    assert(names.take(depth + 1) =~= upper_names.take(depth + 1));
                } else {
                    assert(names.take(depth + 1) =~= names);
                }
            }
        },
    }
}

/// The names down to a tag, where the walk up from its parent ends: none
/// for a root.
pub open spec fn parent_path(tags: TagMap, parent_id: Option<u32>) -> Option<Seq<Seq<char>>> {
    match parent_id {
        None => Some(Seq::<Seq<char>>::empty()),
        Some(parent) => path_names(tags, parent, tags.len()),
    }
}

/// Interning a segment in a forest leaves a forest that still holds every
/// tag as it was, and in which the names down to the segment are those down
/// to its parent and then its own.
pub proof fn lemma_interned(tags: TagMap, next_id: u32, parent_id: Option<u32>, name: Seq<char>)
    requires
        tags.dom().finite(),
        is_forest(tags),
        can_intern(tags, parent_id, name, None),
    ensures
        ({
            let step = interned(tags, next_id, parent_id, name, None);
            &&& step.tags.dom().finite()
            &&& step.tags.len() <= tags.len() + 1
            &&& tags.submap_of(step.tags)
            &&& is_forest(step.tags)
            &&& step.tags.contains_key(step.id)
            &&& is_segment(step.tags[step.id], parent_id, name)
            &&& path_names(step.tags, step.id, step.tags.len()) == names_below(
                parent_path(tags, parent_id),
                seq![name],
            )
            &&& forall|id: u32|
                tags.contains_key(id) ==> path_names(step.tags, id, step.tags.len())
                    == #[trigger] path_names(tags, id, tags.len())
        }),
{
    let step = interned(tags, next_id, parent_id, name, None);
    match segment_id(tags, parent_id, name) {
        Some(existing) => {
            let id = choose|id: u32| tags.contains_key(id) && is_segment(
                #[trigger] tags[id],
                parent_id,
                name,
            );
            lemma_least_segment_exists(tags, parent_id, name, id);
            assert(is_least_segment(tags, parent_id, name, existing));
            assert(path_names(tags, existing, tags.len()) is Some);
            match parent_id {
                None => {
                    assert(Seq::<Seq<char>>::empty() + seq![name] =~= seq![name]);
                },
                Some(parent) => {
                    let upper = path_names(tags, parent, (tags.len() - 1) as nat);
                    lemma_more_fuel(tags, parent, (tags.len() - 1) as nat, tags.len());
                    assert(upper->0.push(name) =~= upper->0 + seq![name]);
                },
            }
        },
        None => {
            lemma_free_id(tags.dom(), next_id);
            let id = step.id;
            let tag = new_tag(id, name, parent_id);
            assert(step.tags.len() == tags.len() + 1);
            assert forall|other: u32| tags.contains_key(other) implies path_names(
                step.tags,
                other,
                step.tags.len(),
            ) == #[trigger] path_names(tags, other, tags.len()) by {
                lemma_insert_keeps_path(tags, id, tag, other, tags.len());
                lemma_more_fuel(step.tags, other, tags.len(), step.tags.len());
            }
            match parent_id {
                None => {
                    assert(Seq::<Seq<char>>::empty() + seq![name] =~= seq![name]);
                },
                Some(parent) => {
                    lemma_insert_keeps_path(tags, id, tag, parent, tags.len());
                    let upper = path_names(tags, parent, tags.len());
                    assert(upper->0.push(name) =~= upper->0 + seq![name]);
                },
            }
            assert forall|other: u32| step.tags.contains_key(other) implies (#[trigger] path_names(
                step.tags,
                other,
                step.tags.len(),
            )) is Some by {
                if other != id {
                    assert(tags.contains_key(other));
                    assert(path_names(tags, other, tags.len()) is Some);
                }
            }
        },
    }
}

/// Where not every id is in `ids`, the first free id is not in `ids`.
pub proof fn lemma_free_id_exists(ids: Set<u32>, start: u32)
    requires
        !is_full(ids),
    ensures
        !ids.contains(free_id(ids, start)),
{
    let free = choose|id: u32| !ids.contains(id);
    let at = lemma_id_at_reaches(start, free);
    lemma_free_id_is_free(ids, start, 0, free, at);
}

/// Filing a segment in a forest leaves a forest that still holds every tag
/// as it was, with at most one tag more; the names down to the segment are
/// those down to its parent and then its own. A tag that is made has the
/// wanted id, or an id that is not set aside.
pub proof fn lemma_filed(
    tags: TagMap,
    next_id: u32,
    reserved: Set<u32>,
    parent_id: Option<u32>,
    name: Seq<char>,
    wanted: Option<u32>,
)
    requires
        tags.dom().finite(),
        is_forest(tags),
        parent_id matches Some(parent) ==> tags.contains_key(parent),
        filed(tags, next_id, reserved, parent_id, name, wanted) is Some,
    ensures
        ({
            let step = filed(tags, next_id, reserved, parent_id, name, wanted)->0;
            &&& step.tags.dom().finite()
            &&& step.tags.len() <= tags.len() + 1
            &&& tags.submap_of(step.tags)
            &&& is_forest(step.tags)
            &&& is_keyed(tags) ==> is_keyed(step.tags)
            &&& step.tags.contains_key(step.id)
            &&& is_segment(step.tags[step.id], parent_id, name)
            &&& path_names(step.tags, step.id, step.tags.len()) == names_below(
                parent_path(tags, parent_id),
                seq![name],
            )
            &&& forall|id: u32|
                tags.contains_key(id) ==> path_names(step.tags, id, step.tags.len())
                    == #[trigger] path_names(tags, id, tags.len())
            &&& forall|id: u32|
                #[trigger] step.tags.contains_key(id) ==> tags.contains_key(id) || id == step.id
            &&& !tags.contains_key(step.id) ==> wanted == Some(step.id) || !reserved.contains(
                step.id,
            )
            &&& tags.contains_key(step.id) ==> step.tags == tags
        }),
{
    let step = filed(tags, next_id, reserved, parent_id, name, wanted)->0;
    match segment_id(tags, parent_id, name) {
        Some(existing) => {
            let id = choose|id: u32| tags.contains_key(id) && is_segment(
                #[trigger] tags[id],
                parent_id,
                name,
            );
            lemma_least_segment_exists(tags, parent_id, name, id);
            assert(is_least_segment(tags, parent_id, name, existing));
            assert(path_names(tags, existing, tags.len()) is Some);
            match parent_id {
                None => {
                    assert(Seq::<Seq<char>>::empty() + seq![name] =~= seq![name]);
                },
                Some(parent) => {
                    let upper = path_names(tags, parent, (tags.len() - 1) as nat);
                    lemma_more_fuel(tags, parent, (tags.len() - 1) as nat, tags.len());
                    assert(upper->0.push(name) =~= upper->0 + seq![name]);
                },
            }
        },
        None => {
            if !(wanted is Some && !tags.contains_key(wanted->0)) {
                lemma_free_id_exists(tags.dom().union(reserved), next_id);
            }
            let id = step.id;
            assert(!tags.contains_key(id));
            let tag = new_tag(id, name, parent_id);
            assert(step.tags == tags.insert(id, tag));
            assert(step.tags.len() == tags.len() + 1);
            assert forall|other: u32| tags.contains_key(other) implies path_names(
                step.tags,
                other,
                step.tags.len(),
            ) == #[trigger] path_names(tags, other, tags.len()) by {
                lemma_insert_keeps_path(tags, id, tag, other, tags.len());
                lemma_more_fuel(step.tags, other, tags.len(), step.tags.len());
            }
            match parent_id {
                None => {
                    assert(Seq::<Seq<char>>::empty() + seq![name] =~= seq![name]);
                },
                Some(parent) => {
                    lemma_insert_keeps_path(tags, id, tag, parent, tags.len());
                    let upper = path_names(tags, parent, tags.len());
                    assert(upper->0.push(name) =~= upper->0 + seq![name]);
                },
            }
            assert forall|other: u32| step.tags.contains_key(other) implies (#[trigger] path_names(
                step.tags,
                other,
                step.tags.len(),
            )) is Some by {
                if other != id {
                    assert(tags.contains_key(other));
                    assert(path_names(tags, other, tags.len()) is Some);
                }
            }
        },
    }
}

/// Among the tags that are a given segment, one has the least id.
pub proof fn lemma_least_segment_exists(
    tags: TagMap,
    parent_id: Option<u32>,
    name: Seq<char>,
    witness: u32,
)
    requires
        tags.contains_key(witness),
        is_segment(tags[witness], parent_id, name),
    ensures
        exists|id: u32| is_least_segment(tags, parent_id, name, id),
    decreases witness,
{
    if exists|smaller: u32|
        smaller < witness && tags.contains_key(smaller) && is_segment(
            #[trigger] tags[smaller],
            parent_id,
            name,
        ) {
        let smaller = choose|smaller: u32|
            smaller < witness && tags.contains_key(smaller) && is_segment(
                #[trigger] tags[smaller],
                parent_id,
                name,
            );
        lemma_least_segment_exists(tags, parent_id, name, smaller);
    } else {
        assert(is_least_segment(tags, parent_id, name, witness));
    }
}

/// In a forest a segment can be interned only under a parent that has a
/// tag.
pub proof fn lemma_parent_known(tags: TagMap, parent_id: Option<u32>, name: Seq<char>)
    requires
        is_forest(tags),
        can_intern(tags, parent_id, name, None),
    ensures
        parent_id matches Some(parent) ==> tags.contains_key(parent),
{
    if has_segment(tags, parent_id, name) {
        let child = choose|id: u32|
            tags.contains_key(id) && is_segment(#[trigger] tags[id], parent_id, name);
        assert(path_names(tags, child, tags.len()) is Some);
        match parent_id {
            Some(parent) => {
                assert(tags[child].parent_id == Some(parent));
                assert(path_names(tags, parent, (tags.len() - 1) as nat) is Some);
            },
            None => {},
        }
    }
}

/// Interning a path in a forest leaves a forest that still holds every tag
/// as it was; the names down to the last segment are those down to the
/// parent, then the names of the path.
pub proof fn lemma_path_interned(
    tags: TagMap,
    next_id: u32,
    parent_id: Option<u32>,
    names: Seq<Seq<char>>,
)
    requires
        tags.dom().finite(),
        is_forest(tags),
        has_room_for(tags, next_id, parent_id, names),
    ensures
        ({
            let after = path_interned(tags, next_id, parent_id, names);
            &&& after.0.dom().finite()
            &&& after.0.len() <= tags.len() + names.len()
            &&& tags.submap_of(after.0)
            &&& is_forest(after.0)
            &&& names.len() == 0 ==> after.2 == parent_id
            &&& names.len() > 0 ==> after.2 is Some && after.0.contains_key(after.2->0)
            &&& names.len() > 0 ==> path_names(after.0, after.2->0, after.0.len()) == names_below(
                parent_path(tags, parent_id),
                names,
            )
            &&& forall|id: u32|
                tags.contains_key(id) ==> path_names(after.0, id, after.0.len())
                    == #[trigger] path_names(tags, id, tags.len())
        }),
    decreases names.len(),
{
    if names.len() > 0 {
        lemma_interned(tags, next_id, parent_id, names[0]);
        lemma_parent_known(tags, parent_id, names[0]);
        let step = interned(tags, next_id, parent_id, names[0], None);
        let rest = names.drop_first();
        lemma_path_interned(step.tags, step.next_id, Some(step.id), rest);
        let after = path_interned(tags, next_id, parent_id, names);
        assert forall|id: u32| #[trigger] tags.dom().contains(id) implies after.0.dom().contains(
            id,
        ) && tags[id] == after.0[id] by {
            assert(step.tags.dom().contains(id));
            assert(step.tags[id] == tags[id]);
            assert(after.0.dom().contains(id));
            assert(after.0[id] == step.tags[id]);
        }
        assert forall|id: u32| tags.contains_key(id) implies path_names(
            after.0,
            id,
            after.0.len(),
        ) == #[trigger] path_names(tags, id, tags.len()) by {
            assert(step.tags.contains_key(id));
            assert(path_names(step.tags, id, step.tags.len()) == path_names(
                tags,
                id,
                tags.len(),
            ));
        }
        let upper = parent_path(tags, parent_id);
        if rest.len() == 0 {
            assert(names =~= seq![names[0]]);
        } else {
            assert(upper is Some ==> (upper->0 + seq![names[0]]) + rest =~= upper->0 + names);
            match parent_id {
                None => {},
                Some(parent) => {
                    assert(path_names(tags, parent, tags.len()) is Some);
                },
            }
        }
    }
}

/// The tags of a document, by id, with the next id to try for a new tag.
#[derive(Clone, Debug)]
pub struct TagRegistry {
    tags: HashMap<u32, Tag>,
    order: Vec<u32>,
    next_id: u32,
}

impl View for TagRegistry {
    type V = TagMap;

    closed spec fn view(&self) -> TagMap {
        Map::new(|id: u32| self.tags@.contains_key(id), |id: u32| self.tags@[id]@)
    }
}

impl TagRegistry {
    /// The id that the registry tries first for a new tag.
    pub closed spec fn next_id(&self) -> u32 {
        self.next_id
    }

    /// Whether the registry is consistent: every tag is filed under its own
    /// id and has a colour.
    pub closed spec fn wf(&self) -> bool {
        &&& self.order@.no_duplicates()
        &&& forall|id: u32| self.order@.contains(id) <==> self.tags@.contains_key(id)
        &&& forall|id: u32|
            self.tags@.contains_key(id) ==> (#[trigger] self.tags@[id]).id == id
                && self.tags@[id].color is Some
    }

    /// What consistency means for the tags: they are finitely many, each is
    /// filed under its own id, and each has a colour.
    pub proof fn lemma_wf(&self)
        requires
            self.wf(),
        ensures
            self@.dom().finite(),
            self@.len() <= usize::MAX,
            is_keyed(self@),
            forall|id: u32| self@.contains_key(id) ==> (#[trigger] self@[id]).color is Some,
    {
        assert(self@.dom() =~= self.tags@.dom());
        assert(self.tags.len() == self.tags@.len());
    }

    /// Makes a registry without tags.
    pub fn new() -> (registry: TagRegistry)
        ensures
            registry.wf(),
            registry@ == TagMap::empty(),
            registry.next_id() == 0,
    {
        let registry = TagRegistry { tags: HashMap::new(), order: Vec::new(), next_id: 0 };
        assert(registry@ =~= TagMap::empty());
        registry
    }

    /// Returns the number of tags.
    pub fn len(&self) -> (count: usize)
        requires
            self.wf(),
        ensures
            count == self@.len(),
    {
        assert(self@.dom() =~= self.tags@.dom());
        self.tags.len()
    }

    /// Tests whether the registry has no tag.
    pub fn is_empty(&self) -> (empty: bool)
        requires
            self.wf(),
        ensures
            empty == (self@.len() == 0),
    {
        assert(self@.dom() =~= self.tags@.dom());
        self.tags.len() == 0
    }

    /// Returns the tag filed under `id`.
    pub fn get_tag(&self, id: u32) -> (tag: Option<&Tag>)
        ensures
            match tag {
                Some(found) => self@.contains_key(id) && found@ == self@[id],
                None => !self@.contains_key(id),
            },
    {
        self.tags.get(&id)
    }

    /// Returns the ids of all tags, each once.
    pub fn ids(&self) -> (ids: Vec<u32>)
        requires
            self.wf(),
        ensures
            ids@.no_duplicates(),
            forall|id: u32| ids@.contains(id) <==> self@.contains_key(id),
    {
        self.order.clone()
    }

    /// Looks the segment `name` under `parent_id` up, without making it.
    pub fn find_id(&self, parent_id: Option<u32>, name: &str) -> (found: Option<u32>)
        requires
            self.wf(),
        ensures
            found == segment_id(self@, parent_id, name@),
    {
        let wanted = String::from_str(name);
        let mut found: Option<u32> = None;
        let mut i: usize = 0;
        while i < self.order.len()
            invariant
                i <= self.order.len(),
                self.wf(),
                wanted@ == name@,
                match found {
                    Some(id) => self@.contains_key(id) && is_segment(self@[id], parent_id, name@),
                    None => true,
                },
                forall|j: int|
                    0 <= j < i && is_segment(self@[#[trigger] self.order@[j]], parent_id, name@)
                        ==> found is Some && found->0 <= self.order@[j],
            decreases self.order.len() - i,
        {
            let id = self.order[i];
            assert(self.order@.contains(id));
            match self.tags.get(&id) {
                Some(tag) => {
                    if tag.parent_id == parent_id && tag.name == wanted {
                        found =
                        match found {
                            Some(least) => if id < least {
                                Some(id)
                            } else {
                                Some(least)
                            },
                            None => Some(id),
                        };
                    }
                },
                None => {},
            }
            i = i + 1;
        }
        proof {
            match found {
                Some(id) => {
                    assert forall|other: u32|
                        self@.contains_key(other) && is_segment(
                            #[trigger] self@[other],
                            parent_id,
                            name@,
                        ) implies id <= other by {
                        assert(self.order@.contains(other));
                        let j = choose|j: int|
                            0 <= j < self.order@.len() && self.order@[j] == other;
                        assert(is_segment(self@[self.order@[j]], parent_id, name@));
                    }
                    assert(is_least_segment(self@, parent_id, name@, id));
                    let chosen = choose|c: u32| is_least_segment(self@, parent_id, name@, c);
                    assert(chosen == id);
                },
                None => {
                    if has_segment(self@, parent_id, name@) {
                        let other = choose|o: u32|
                            self@.contains_key(o) && is_segment(
                                #[trigger] self@[o],
                                parent_id,
                                name@,
                            );
                        assert(self.order@.contains(other));
                        let j = choose|j: int|
                            0 <= j < self.order@.len() && self.order@[j] == other;
                        assert(is_segment(self@[self.order@[j]], parent_id, name@));
                        assert(false);
                    }
                },
            }
        }
        found
    }

    /// Returns the full name of the tag `id`: its segments from the root
    /// down, joined with `:`. Returns `None` where `id` has no tag, or the
    /// walk to the root meets an id without a tag or does not end.
    pub fn full_name(&self, id: u32) -> (name: Option<String>)
        requires
            self.wf(),
        ensures
            match name {
                Some(text) => full_name_of(self@, id) == Some(text@),
                None => full_name_of(self@, id) is None,
            },
    {
        proof {
            self.lemma_wf();
        }
        let mut segments: Vec<String> = Vec::new();
        let mut current_id = id;
        let mut steps: usize = 0;
        let limit = self.tags.len();
        assert(self@.dom() =~= self.tags@.dom());
        loop
            invariant
                self.wf(),
                limit == self@.len(),
                steps <= limit,
                path_names(self@, id, (limit + 1) as nat) == names_below(
                    path_names(self@, current_id, (limit + 1 - steps) as nat),
                    views_of(segments@),
                ),
            decreases limit - steps,
        {
            let tag = match self.tags.get(&current_id) {
                Some(tag) => tag,
                None => {
                    return None;
                },
            };
            let ghost upper = path_names(self@, current_id, (limit + 1 - steps) as nat);
            let ghost old_segments = views_of(segments@);
            segments.insert(0, tag.name.clone());
            assert(views_of(segments@) =~= seq![tag.name@] + old_segments);
            match tag.parent_id {
                None => {
                    assert(upper == Some(seq![tag.name@]));
                    assert(upper->0 + old_segments =~= views_of(segments@));
                    return Some(join(&segments, ':'));
                },
                Some(parent) => {
                    if steps == limit {
                        return None;
                    }
                    let ghost above = path_names(self@, parent, (limit - steps) as nat);
                    assert(upper == match above {
                        Some(names) => Some(names.push(tag.name@)),
                        None => None,
                    });
                    assert(above is Some ==> above->0.push(tag.name@) + old_segments =~= above->0
                        + views_of(segments@));
                    current_id = parent;
                    steps = steps + 1;
                },
            }
        }
    }
}

impl TagRegistry {
    /// Picks the id of a new tag: the first free id from the next id to try
    /// on, counting on from 0 behind the last id. Afterwards the next id to
    /// try is the one behind it.
    fn next_available_id(&mut self) -> (id: u32)
        requires
            old(self).wf(),
            old(self)@.len() <= u32::MAX,
        ensures
            final(self).wf(),
            final(self)@ == old(self)@,
            id == free_id(old(self)@.dom(), old(self).next_id()),
            !old(self)@.contains_key(id),
            final(self).next_id() == next_after(id),
    {
        proof {
            self.lemma_wf();
            lemma_free_id(self@.dom(), self.next_id);
        }
        let start = self.next_id;
        let mut id = start;
        let ghost mut steps: nat = 0;
        while self.tags.contains_key(&id)
            invariant
                self.wf(),
                *self == *old(self),
                start == self.next_id,
                steps <= 0xFFFF_FFFF,
                id == id_at(start, steps),
                free_id(self@.dom(), start) == free_id_from(self@.dom(), start, steps),
                !self@.contains_key(free_id(self@.dom(), start)),
            decreases 0xFFFF_FFFF - steps,
        {
            proof {
                steps = steps + 1;
            }
            id = id.wrapping_add(1);
        }
        self.next_id = id.wrapping_add(1);
        assert(self@ =~= old(self)@);
        id
    }

    /// Moves the next id to try behind `id`, unless it is already greater.
    fn bump_next_id(&mut self, id: u32)
        requires
            old(self).wf(),
        ensures
            final(self).wf(),
            final(self)@ == old(self)@,
            final(self).next_id() == bumped(old(self).next_id(), id),
    {
        let next = id.wrapping_add(1);
        if self.next_id <= id {
            self.next_id = next;
        }
        assert(self@ =~= old(self)@);
    }

    /// Files a new tag under `id`: the segment `name` under `parent_id`,
    /// with the colour of the palette for `id`.
    fn put_tag(&mut self, id: u32, parent_id: Option<u32>, name: &str)
        requires
            old(self).wf(),
            !old(self)@.contains_key(id),
        ensures
            final(self).wf(),
            final(self)@ == old(self)@.insert(id, new_tag(id, name@, parent_id)),
            final(self).next_id() == old(self).next_id(),
    {
        let ghost tags_before = self.tags@;
        let ghost order_before = self.order@;
        let ghost view_before = self@;
        assert(!tags_before.contains_key(id));
        let tag = Tag {
            id,
            name: String::from_str(name),
            parent_id,
            color: Some(String::from_str(color_for(id))),
        };
        assert(tag@ == new_tag(id, name@, parent_id));
        self.tags.insert(id, tag);
        self.order.push(id);
        assert(self.order@.no_duplicates()) by {
            assert(!order_before.contains(id));
            assert forall|i: int, j: int|
                0 <= i < self.order@.len() && 0 <= j < self.order@.len() && i != j implies self.order@[i]
                != self.order@[j] by {
                if i < order_before.len() {
                    assert(order_before[i] == self.order@[i]);
                    assert(order_before.contains(self.order@[i]));
                }
                if j < order_before.len() {
                    assert(order_before[j] == self.order@[j]);
                    assert(order_before.contains(self.order@[j]));
                }
            }
        }
        assert forall|other: u32| self.order@.contains(other) <==> self.tags@.contains_key(
            other,
        ) by {
            if self.order@.contains(other) {
                let at = choose|at: int| 0 <= at < self.order@.len() && self.order@[at] == other;
                if at < order_before.len() {
                    assert(order_before[at] == other);
                    assert(order_before.contains(other));
                }
            }
            if self.tags@.contains_key(other) {
                if other == id {
                    assert(self.order@[self.order@.len() - 1] == other);
                } else {
                    assert(tags_before.contains_key(other));
                    assert(order_before.contains(other));
                    let at = choose|at: int|
                        0 <= at < order_before.len() && order_before[at] == other;
                    assert(self.order@[at] == other);
                }
            }
        }
        assert(self@ =~= view_before.insert(id, new_tag(id, name@, parent_id)));
    }

    /// Interns the segment `name` under `parent_id`, under the id
    /// `desired_id` if one is given and the segment is new.
    pub fn intern_segment_with_id(
        &mut self,
        parent_id: Option<u32>,
        name: &str,
        desired_id: Option<u32>,
    ) -> (id: u32)
        requires
            old(self).wf(),
            can_intern(old(self)@, parent_id, name@, desired_id),
        ensures
            final(self).wf(),
            final(self)@ == interned(
                old(self)@,
                old(self).next_id(),
                parent_id,
                name@,
                desired_id,
            ).tags,
            final(self).next_id() == interned(
                old(self)@,
                old(self).next_id(),
                parent_id,
                name@,
                desired_id,
            ).next_id,
            id == interned(old(self)@, old(self).next_id(), parent_id, name@, desired_id).id,
            final(self)@.contains_key(id),
    {
        match self.find_id(parent_id, name) {
            Some(existing) => {
                assert(is_least_segment(self@, parent_id, name@, existing)) by {
                    let witness = choose|w: u32|
                        self@.contains_key(w) && is_segment(#[trigger] self@[w], parent_id, name@);
                    lemma_least_segment_exists(self@, parent_id, name@, witness);
                }
                return existing;
            },
            None => {},
        }
        let id = match desired_id {
            Some(wanted) => wanted,
            None => self.next_available_id(),
        };
        self.put_tag(id, parent_id, name);
        self.bump_next_id(id);
        id
    }

    /// Finds the first id from the next id to try on that no tag has and
    /// that is not among `reserved`, counting on from 0 behind the last id.
    /// Returns `None` where every id is taken or set aside.
    fn next_unreserved_id(&self, reserved: &HashSet<u32>) -> (id: Option<u32>)
        requires
            self.wf(),
        ensures
            match id {
                Some(free) => !is_full(self@.dom().union(reserved@)) && free == free_id(
                    self@.dom().union(reserved@),
                    self.next_id(),
                ) && !self@.contains_key(free) && !reserved@.contains(free),
                None => is_full(self@.dom().union(reserved@)),
            },
    {
        let ghost taken = self@.dom().union(reserved@);
        let start = self.next_id;
        let mut id = start;
        let mut steps: u64 = 0;
        while steps <= 0xFFFF_FFFF
            invariant
                self.wf(),
                start == self.next_id,
                taken == self@.dom().union(reserved@),
                steps <= 0x1_0000_0000,
                steps <= 0xFFFF_FFFF ==> id == id_at(start, steps as nat),
                steps <= 0xFFFF_FFFF ==> free_id(taken, start) == free_id_from(
                    taken,
                    start,
                    steps as nat,
                ),
                forall|j: nat| j < steps ==> taken.contains(#[trigger] id_at(start, j)),
            decreases 0x1_0000_0000 - steps,
        {
            if !self.tags.contains_key(&id) && !reserved.contains(&id) {
                assert(!taken.contains(id));
                return Some(id);
            }
            assert(taken.contains(id));
            steps = steps + 1;
            id = id.wrapping_add(1);
        }
        proof {
            assert forall|other: u32| taken.contains(other) by {
                let at = lemma_id_at_reaches(start, other);
                assert(taken.contains(id_at(start, at)));
            }
        }
        None
    }

    /// Files the segment `name` under `parent_id` while the ids `reserved`
    /// are set aside for tags that are yet to come: returns the id of the
    /// segment where the registry has it; else makes a tag for it, under
    /// `wanted` if that is given and no tag has it, and else under an id
    /// that no tag has and that is not set aside. Returns `None`, and
    /// changes nothing, where such an id is needed and there is none.
    pub fn file_segment(
        &mut self,
        parent_id: Option<u32>,
        name: &str,
        wanted: Option<u32>,
        reserved: &HashSet<u32>,
    ) -> (id: Option<u32>)
        requires
            old(self).wf(),
        ensures
            final(self).wf(),
            match filed(old(self)@, old(self).next_id(), reserved@, parent_id, name@, wanted) {
                Some(step) => {
                    &&& id == Some(step.id)
                    &&& final(self)@ == step.tags
                    &&& final(self).next_id() == step.next_id
                    &&& final(self)@.contains_key(step.id)
                },
                None => {
                    &&& id is None
                    &&& final(self)@ == old(self)@
                    &&& final(self).next_id() == old(self).next_id()
                },
            },
    {
        assert(self@.dom() =~= self.tags@.dom());
        match self.find_id(parent_id, name) {
            Some(existing) => {
                assert(is_least_segment(self@, parent_id, name@, existing)) by {
                    let witness = choose|w: u32|
                        self@.contains_key(w) && is_segment(#[trigger] self@[w], parent_id, name@);
                    lemma_least_segment_exists(self@, parent_id, name@, witness);
                }
                return Some(existing);
            },
            None => {},
        }
        match wanted {
            Some(id) => {
                if !self.tags.contains_key(&id) {
                    self.put_tag(id, parent_id, name);
                    self.bump_next_id(id);
                    return Some(id);
                }
            },
            None => {},
        }
        match self.next_unreserved_id(reserved) {
            Some(id) => {
                self.put_tag(id, parent_id, name);
                self.next_id = id.wrapping_add(1);
                assert(self@ =~= old(self)@.insert(id, new_tag(id, name@, parent_id)));
                Some(id)
            },
            None => None,
        }
    }

    /// Brings a path written with colons into its normal form: its
    /// segments trimmed, the empty ones dropped, joined with `:`.
    pub fn normalize_path(path: &str) -> (normal: String)
        ensures
            normal@ == normalized_path(path@),
    {
        let pieces = split(path, ':');
        let mut kept: Vec<String> = Vec::new();
        let mut i: usize = 0;
        assert(views_of(pieces@).take(0) =~= Seq::<Seq<char>>::empty());
        while i < pieces.len()
            invariant
                i <= pieces.len(),
                views_of(kept@) == kept_segments(views_of(pieces@).take(i as int)),
            decreases pieces.len() - i,
        {
            let piece = trim(pieces[i].as_str());
            proof {
                lemma_kept_push(views_of(pieces@).take(i as int), pieces@[i as int]@);
                assert(views_of(pieces@).take(i + 1) =~= views_of(pieces@).take(i as int).push(
                    pieces@[i as int]@,
                ));
            }
            if !piece.as_str().is_empty() {
                let ghost before = views_of(kept@);
                let ghost added = piece@;
                kept.push(piece);
                assert(views_of(kept@) =~= before.push(added));
            }
            i = i + 1;
        }
        assert(views_of(pieces@).take(i as int) =~= views_of(pieces@));
        join(&kept, ':')
    }

    /// Interns the segment `name` under `parent_id` as
    /// `intern_segment_with_id` does, where that is possible; else returns
    /// `None` and leaves the registry as it is.
    pub fn try_intern_segment_with_id(
        &mut self,
        parent_id: Option<u32>,
        name: &str,
        desired_id: Option<u32>,
    ) -> (id: Option<u32>)
        requires
            old(self).wf(),
        ensures
            final(self).wf(),
            id is Some <==> can_intern(old(self)@, parent_id, name@, desired_id),
            id is None ==> final(self)@ == old(self)@ && final(self).next_id() == old(
                self,
            ).next_id(),
            id matches Some(found) ==> {
                &&& final(self)@ == interned(
                    old(self)@,
                    old(self).next_id(),
                    parent_id,
                    name@,
                    desired_id,
                ).tags
                &&& final(self).next_id() == interned(
                    old(self)@,
                    old(self).next_id(),
                    parent_id,
                    name@,
                    desired_id,
                ).next_id
                &&& found == interned(
                    old(self)@,
                    old(self).next_id(),
                    parent_id,
                    name@,
                    desired_id,
                ).id
                &&& final(self)@.contains_key(found)
            },
    {
        proof {
            self.lemma_wf();
        }
        assert(self@.dom() =~= self.tags@.dom());
        let known = self.find_id(parent_id, name).is_some();
        if !known {
            let parent_ok = match parent_id {
                Some(parent) => self.tags.contains_key(&parent),
                None => true,
            };
            let id_ok = match desired_id {
                Some(wanted) => !self.tags.contains_key(&wanted),
                None => self.tags.len() <= 0xFFFF_FFFF,
            };
            if !(parent_ok && id_ok) {
                return None;
            }
        }
        Some(self.intern_segment_with_id(parent_id, name, desired_id))
    }

    /// Interns the segment `name` under `parent_id`: returns the id of the
    /// segment where the registry has it, and else makes a tag for it.
    pub fn intern_segment(&mut self, parent_id: Option<u32>, name: &str) -> (id: u32)
        requires
            old(self).wf(),
            can_intern(old(self)@, parent_id, name@, None),
        ensures
            final(self).wf(),
            final(self)@ == interned(old(self)@, old(self).next_id(), parent_id, name@, None).tags,
            final(self).next_id() == interned(
                old(self)@,
                old(self).next_id(),
                parent_id,
                name@,
                None,
            ).next_id,
            id == interned(old(self)@, old(self).next_id(), parent_id, name@, None).id,
            final(self)@.contains_key(id),
    {
        self.intern_segment_with_id(parent_id, name, None)
    }

    /// Interns the segments one under the other, the first as a root, and
    /// returns the id of the last. Each segment is trimmed; empty ones are
    /// skipped. Returns `None` where no segment is left.
    ///
    /// The full name of the tag returned is the segments that count, joined
    /// with `:`, whatever tags the registry held.
    pub fn intern_path(&mut self, segments: &[&str]) -> (last: Option<u32>)
        requires
            old(self).wf(),
            has_room_for(
                old(self)@,
                old(self).next_id(),
                None,
                kept_segments(slice_views(segments@)),
            ),
        ensures
            final(self).wf(),
            (final(self)@, final(self).next_id(), last) == path_interned(
                old(self)@,
                old(self).next_id(),
                None,
                kept_segments(slice_views(segments@)),
            ),
            last is Some <==> kept_segments(slice_views(segments@)).len() > 0,
            last matches Some(id) ==> final(self)@.contains_key(id),
            old(self)@.submap_of(final(self)@),
            final(self)@.len() <= old(self)@.len() + segments@.len(),
            is_forest(old(self)@) ==> is_forest(final(self)@),
            last is Some ==> full_name_of(final(self)@, last->0) == Some(
                join_with(kept_segments(slice_views(segments@)), ':'),
            ),
    {
        let ghost all = slice_views(segments@);
        let mut parent_id: Option<u32> = None;
        let mut i: usize = 0;
        proof {
            self.lemma_wf();
            assert(all.skip(0) =~= all);
            lemma_kept_len(all);
        }
        while i < segments.len()
            invariant
                i <= segments.len(),
                all == slice_views(segments@),
                self.wf(),
                has_room_for(
                    self@,
                    self.next_id(),
                    parent_id,
                    kept_segments(all.skip(i as int)),
                ),
                parent_id matches Some(parent) ==> self@.contains_key(parent),
                path_interned(old(self)@, old(self).next_id(), None, kept_segments(all))
                    == path_interned(
                    self@,
                    self.next_id(),
                    parent_id,
                    kept_segments(all.skip(i as int)),
                ),
            decreases segments.len() - i,
        {
            let name = trim(segments[i]);
            proof {
                assert(all.skip(i as int).drop_first() =~= all.skip(i + 1));
                assert(all.skip(i as int)[0] == segments@[i as int]@);
            }
            if !name.as_str().is_empty() {
                let ghost rest = kept_segments(all.skip(i + 1));
                proof {
                    assert((seq![name@] + rest).drop_first() =~= rest);
                }
                let id = self.intern_segment(parent_id, name.as_str());
                parent_id = Some(id);
            }
            i = i + 1;
        }
        proof {
            assert(all.skip(i as int) =~= Seq::<Seq<char>>::empty());
            old(self).lemma_wf();
            let names = kept_segments(all);
            lemma_kept_len(all);
            if is_forest(old(self)@) {
                lemma_path_interned(old(self)@, old(self).next_id(), None, names);
            }
            lemma_path_submap(old(self)@, old(self).next_id(), None, names);
            if names.len() > 0 {
                lemma_path_rooted(old(self)@, old(self).next_id(), None, names, 0);
                assert(Seq::<Seq<char>>::empty() + names =~= names);
                lemma_path_fits(self@, parent_id->0, names.len());
                lemma_more_fuel(self@, parent_id->0, self@.len(), self@.len() + 1);
            }
        }
        parent_id
    }

    /// Interns a path written with colons, such as `project:sightline`: the
    /// path is cut at each colon and interned as `intern_path` does.
    ///
    /// The full name of the tag returned is the path in its normal form,
    /// whatever tags the registry held.
    pub fn intern_colon_path(&mut self, path: &str) -> (last: Option<u32>)
        requires
            old(self).wf(),
            has_room_for(old(self)@, old(self).next_id(), None, path_segments(path@)),
        ensures
            final(self).wf(),
            (final(self)@, final(self).next_id(), last) == path_interned(
                old(self)@,
                old(self).next_id(),
                None,
                path_segments(path@),
            ),
            last is Some <==> path_segments(path@).len() > 0,
            last matches Some(id) ==> final(self)@.contains_key(id),
            old(self)@.submap_of(final(self)@),
            final(self)@.len() <= old(self)@.len() + path@.len() + 1,
            is_forest(old(self)@) ==> is_forest(final(self)@),
            last is Some ==> full_name_of(final(self)@, last->0) == Some(normalized_path(path@)),
    {
        let pieces = split(path, ':');
        proof {
            crate::text::lemma_split_len(path@, ':');
            lemma_kept_len(split_on(path@, ':'));
        }
        let mut segments: Vec<&str> = Vec::new();
        let mut i: usize = 0;
        while i < pieces.len()
            invariant
                i <= pieces.len(),
                segments@.len() == i,
                forall|j: int| 0 <= j < i ==> segments@[j]@ == pieces@[j]@,
            decreases pieces.len() - i,
        {
            segments.push(pieces[i].as_str());
            i = i + 1;
        }
        assert(slice_views(segments@) =~= views_of(pieces@));
        self.intern_path(segments.as_slice())
    }
}

/// An empty path has no segment.
pub proof fn lemma_no_segments(path: Seq<char>)
    ensures
        path.len() == 0 ==> path_segments(path).len() == 0,
{
    if path.len() == 0 {
        let pieces = split_on(path, ':');
        assert(pieces =~= seq![Seq::<char>::empty()]);
        assert(pieces.len() == 1);
        assert(pieces.drop_first() =~= Seq::<Seq<char>>::empty());
        assert(kept_segments(pieces.drop_first()).len() == 0);
        crate::text::lemma_trimmed_len(pieces[0]);
        assert(trimmed(pieces[0]).len() == 0);
        assert(kept_segments(pieces) == kept_segments(pieces.drop_first()));
    }
}

/// No more segments count than there are.
pub proof fn lemma_kept_len(segments: Seq<Seq<char>>)
    ensures
        kept_segments(segments).len() <= segments.len(),
    decreases segments.len(),
{
    if segments.len() > 0 {
        lemma_kept_len(segments.drop_first());
    }
}

/// A path can be interned where its parent has a tag and an id is left
/// for each of its segments.
pub proof fn lemma_room_for_path(
    tags: TagMap,
    next_id: u32,
    parent_id: Option<u32>,
    names: Seq<Seq<char>>,
)
    requires
        tags.dom().finite(),
        tags.len() + names.len() <= u32::MAX,
        parent_id matches Some(parent) ==> tags.contains_key(parent),
    ensures
        has_room_for(tags, next_id, parent_id, names),
    decreases names.len(),
{
    if names.len() > 0 {
        let step = interned(tags, next_id, parent_id, names[0], None);
        if segment_id(tags, parent_id, names[0]) is None {
            lemma_free_id(tags.dom(), next_id);
        } else {
            let witness = choose|w: u32|
                tags.contains_key(w) && is_segment(#[trigger] tags[w], parent_id, names[0]);
            lemma_least_segment_exists(tags, parent_id, names[0], witness);
        }
        lemma_room_for_path(step.tags, step.next_id, Some(step.id), names.drop_first());
    }
}

/// Interning a path keeps every tag as it was, whatever the tags are, and
/// ends at a tag where the path has a name.
pub proof fn lemma_path_submap(
    tags: TagMap,
    next_id: u32,
    parent_id: Option<u32>,
    names: Seq<Seq<char>>,
)
    requires
        tags.dom().finite(),
        has_room_for(tags, next_id, parent_id, names),
    ensures
        ({
            let after = path_interned(tags, next_id, parent_id, names);
            &&& after.0.dom().finite()
            &&& after.0.len() <= tags.len() + names.len()
            &&& tags.submap_of(after.0)
            &&& names.len() == 0 ==> after.2 == parent_id
            &&& names.len() > 0 ==> after.2 is Some && after.0.contains_key(after.2->0)
        }),
    decreases names.len(),
{
    if names.len() > 0 {
        let step = interned(tags, next_id, parent_id, names[0], None);
        if segment_id(tags, parent_id, names[0]) is None {
            lemma_free_id(tags.dom(), next_id);
        } else {
            let witness = choose|w: u32|
                tags.contains_key(w) && is_segment(#[trigger] tags[w], parent_id, names[0]);
            lemma_least_segment_exists(tags, parent_id, names[0], witness);
        }
        lemma_path_submap(step.tags, step.next_id, Some(step.id), names.drop_first());
        let after = path_interned(tags, next_id, parent_id, names);
        assert forall|id: u32| #[trigger] tags.dom().contains(id) implies after.0.dom().contains(
            id,
        ) && tags[id] == after.0[id] by {
            assert(step.tags.dom().contains(id));
            assert(step.tags[id] == tags[id]);
            assert(after.0.dom().contains(id));
            assert(after.0[id] == step.tags[id]);
        }
    }
}

/// A walk to the root that ends goes the same way among more tags that
/// hold every tag as it was.
pub proof fn lemma_submap_keeps_path(tags: TagMap, more: TagMap, id: u32, fuel: nat)
    requires
        tags.submap_of(more),
        path_names(tags, id, fuel) is Some,
    ensures
        path_names(more, id, fuel) == path_names(tags, id, fuel),
    decreases fuel,
{
    if fuel > 0 {
        assert(tags.dom().contains(id));
        assert(more[id] == tags[id]);
        match tags[id].parent_id {
            None => {},
            Some(parent) => {
                lemma_submap_keeps_path(tags, more, parent, (fuel - 1) as nat);
            },
        }
    }
}

/// The names above a tag, found by walking up at most `fuel` tags from its
/// parent; none above a root.
pub open spec fn names_above(tags: TagMap, parent_id: Option<u32>, fuel: nat) -> Option<
    Seq<Seq<char>>,
> {
    match parent_id {
        None => Some(Seq::<Seq<char>>::empty()),
        Some(parent) => path_names(tags, parent, fuel),
    }
}

/// Interning a path under a parent from which the walk to the root ends,
/// whatever the other tags are, ends at a tag from which it ends too: the
/// names down to it are those down to the parent and then the path.
pub proof fn lemma_path_rooted(
    tags: TagMap,
    next_id: u32,
    parent_id: Option<u32>,
    names: Seq<Seq<char>>,
    fuel: nat,
)
    requires
        tags.dom().finite(),
        has_room_for(tags, next_id, parent_id, names),
        names.len() > 0,
        names_above(tags, parent_id, fuel) is Some,
    ensures
        ({
            let after = path_interned(tags, next_id, parent_id, names);
            &&& after.2 is Some
            &&& path_names(after.0, after.2->0, fuel + names.len()) == names_below(
                names_above(tags, parent_id, fuel),
                names,
            )
        }),
    decreases names.len(),
{
    let name = names[0];
    let rest = names.drop_first();
    let step = interned(tags, next_id, parent_id, name, None);
    if segment_id(tags, parent_id, name) is None {
        lemma_free_id(tags.dom(), next_id);
    } else {
        let witness = choose|w: u32|
            tags.contains_key(w) && is_segment(#[trigger] tags[w], parent_id, name);
        lemma_least_segment_exists(tags, parent_id, name, witness);
    }
    assert(tags.submap_of(step.tags));
    assert(step.tags.contains_key(step.id));
    assert(is_segment(step.tags[step.id], parent_id, name));
    let upper = names_above(tags, parent_id, fuel)->0;
    match parent_id {
        None => {
            assert(upper + seq![name] =~= seq![name]);
        },
        Some(parent) => {
            lemma_submap_keeps_path(tags, step.tags, parent, fuel);
            assert(upper + seq![name] =~= upper.push(name));
        },
    }
    assert(path_names(step.tags, step.id, fuel + 1) == Some(upper + seq![name]));
    assert(upper + seq![name] + rest =~= upper + names);
    if rest.len() > 0 {
        lemma_path_rooted(step.tags, step.next_id, Some(step.id), rest, fuel + 1);
    } else {
        assert(upper + seq![name] =~= upper + names);
    }
}

/// A walk to the root that ends takes as many tags as it finds names.
pub proof fn lemma_exact_fuel(tags: TagMap, id: u32, fuel: nat)
    requires
        path_names(tags, id, fuel) is Some,
    ensures
        path_names(tags, id, fuel)->0.len() <= fuel,
        path_names(tags, id, path_names(tags, id, fuel)->0.len()) == path_names(tags, id, fuel),
    decreases fuel,
{
    if fuel > 0 {
        match tags[id].parent_id {
            None => {},
            Some(parent) => {
                lemma_exact_fuel(tags, parent, (fuel - 1) as nat);
            },
        }
    }
}

/// A walk to the root that ends at all ends within as many tags as there
/// are: it meets no tag twice.
pub proof fn lemma_path_fits(tags: TagMap, id: u32, fuel: nat)
    requires
        tags.dom().finite(),
        path_names(tags, id, fuel) is Some,
    ensures
        path_names(tags, id, fuel)->0.len() <= tags.len(),
        path_names(tags, id, tags.len()) == path_names(tags, id, fuel),
{
    let names = path_names(tags, id, fuel)->0;
    let ids = path_ids(tags, id, fuel)->0;
    lemma_chain(tags, id, fuel);
    assert forall|i: int, j: int| 0 <= i < ids.len() && 0 <= j < ids.len() && i != j implies ids[i]
        != ids[j] by {
        assert(path_names(tags, ids[i], fuel) == Some(names.take(i + 1)));
        assert(path_names(tags, ids[j], fuel) == Some(names.take(j + 1)));
        assert(names.take(i + 1).len() == i + 1);
        assert(names.take(j + 1).len() == j + 1);
    }
    ids.unique_seq_to_set();
    assert(ids.to_set().subset_of(tags.dom())) by {
        assert forall|on_way: u32| ids.to_set().contains(on_way) implies tags.dom().contains(
            on_way,
        ) by {
            let depth = choose|depth: int| 0 <= depth < ids.len() && ids[depth] == on_way;
            assert(tags.contains_key(ids[depth]));
        }
    }
    vstd::set_lib::lemma_len_subset(ids.to_set(), tags.dom());
    lemma_exact_fuel(tags, id, fuel);
    lemma_more_fuel(tags, id, names.len(), tags.len());
}

/// How a query is held against a full name.
#[derive(Clone, Copy, Debug, PartialEq, Eq, Structural)]
pub enum NameMatch {
    /// The name starts with the query.
    Prefix,
    /// The name holds the query.
    Infix,
}

/// A query in its normal form: trimmed, without the `#`s that it starts
/// with, in lower case.
pub open spec fn normalized_query(query: Seq<char>) -> Seq<char> {
    lowercase_of(without_leading(trimmed(query), '#'))
}

/// Whether the full name `name`, in lower case, starts with or holds the
/// normalised `query`.
pub open spec fn name_matches(mode: NameMatch, name: Seq<char>, query: Seq<char>) -> bool {
    match mode {
        NameMatch::Prefix => has_prefix(lowercase_of(name), query),
        NameMatch::Infix => has_infix(lowercase_of(name), query),
    }
}

/// Whether `id` has a tag whose full name matches the normalised `query`.
pub open spec fn is_match(tags: TagMap, mode: NameMatch, query: Seq<char>, id: u32) -> bool {
    tags.contains_key(id) && (full_name_of(tags, id) matches Some(name) && name_matches(
        mode,
        name,
        query,
    ))
}

/// The full name `name` as shown to callers: behind a `#`.
pub open spec fn shown_name(name: Seq<char>) -> Seq<char> {
    seq!['#'] + name
}

/// Ids with names, as mathematical values.
pub open spec fn named(items: Seq<(u32, String)>) -> Seq<(u32, Seq<char>)> {
    items.map_values(|item: (u32, String)| (item.0, item.1@))
}

/// Whether no name comes before one that stands earlier in `items`.
pub open spec fn sorted_by_name(items: Seq<(u32, Seq<char>)>) -> bool {
    forall|i: int, j: int|
        0 <= i < j < items.len() ==> !lex_less((#[trigger] items[j]).1, (#[trigger] items[i]).1)
}

/// Whether no id occurs twice in `items`.
pub open spec fn distinct_ids(items: Seq<(u32, Seq<char>)>) -> bool {
    forall|i: int, j: int|
        0 <= i < items.len() && 0 <= j < items.len() && i != j ==> (#[trigger] items[i]).0 != (
        #[trigger] items[j]).0
}

/// Whether one of the first `upto` of `names` has the id `id` and a name
/// that matches the query.
pub open spec fn found_among(
    names: Seq<(u32, Seq<char>)>,
    upto: int,
    mode: NameMatch,
    query: Seq<char>,
    id: u32,
) -> bool {
    exists|j: int|
        0 <= j < upto && j < names.len() && (#[trigger] names[j]).0 == id && name_matches(
            mode,
            names[j].1,
            query,
        )
}

/// What a sequence holds after an insertion: what it held, and the new item.
pub proof fn lemma_insert_contains<A>(s: Seq<A>, at: int, a: A)
    requires
        0 <= at <= s.len(),
    ensures
        forall|x: A| #[trigger] s.insert(at, a).contains(x) <==> (x == a || s.contains(x)),
{
    let t = s.insert(at, a);
    assert forall|x: A| t.contains(x) <==> (x == a || s.contains(x)) by {
        if t.contains(x) {
            let i = choose|i: int| 0 <= i < t.len() && t[i] == x;
            if i < at {
                assert(s[i] == x);
            } else if i > at {
                assert(s[i - 1] == x);
            }
        }
        if x == a {
            assert(t[at] == x);
        }
        if s.contains(x) {
            let i = choose|i: int| 0 <= i < s.len() && s[i] == x;
            if i < at {
                assert(t[i] == x);
            } else {
                assert(t[i + 1] == x);
            }
        }
    }
}

/// Sorts ids.
pub fn sort_ids(ids: &Vec<u32>) -> (sorted: Vec<u32>)
    ensures
        sorted@.len() == ids@.len(),
        forall|i: int, j: int| 0 <= i < j < sorted@.len() ==> sorted@[i] <= sorted@[j],
        forall|id: u32| sorted@.contains(id) <==> ids@.contains(id),
        ids@.no_duplicates() ==> forall|i: int, j: int|
            0 <= i < j < sorted@.len() ==> sorted@[i] < sorted@[j],
{
    let mut sorted: Vec<u32> = Vec::new();
    let mut i: usize = 0;
    while i < ids.len()
        invariant
            i <= ids.len(),
            sorted@.len() == i,
            forall|a: int, b: int| 0 <= a < b < sorted@.len() ==> sorted@[a] <= sorted@[b],
            forall|id: u32| sorted@.contains(id) <==> ids@.take(i as int).contains(id),
            ids@.no_duplicates() ==> forall|a: int, b: int|
                0 <= a < b < sorted@.len() ==> sorted@[a] < sorted@[b],
        decreases ids.len() - i,
    {
        let id = ids[i];
        let mut at: usize = 0;
        while at < sorted.len() && sorted[at] <= id
            invariant
                at <= sorted.len(),
                forall|k: int| 0 <= k < at ==> sorted@[k] <= id,
            decreases sorted.len() - at,
        {
            at = at + 1;
        }
        let ghost before = sorted@;
        sorted.insert(at, id);
        proof {
            assert(sorted@ =~= before.insert(at as int, id));
            lemma_insert_contains(before, at as int, id);
            assert(ids@.take(i + 1) =~= ids@.take(i as int).push(id));
            assert forall|other: u32| sorted@.contains(other) <==> ids@.take(i + 1).contains(
                other,
            ) by {
                vstd::seq_lib::lemma_seq_contains_after_push(ids@.take(i as int), id, other);
                assert(sorted@.contains(other) <==> (other == id || before.contains(other)));
                assert(before.contains(other) <==> ids@.take(i as int).contains(other));
            }
            assert forall|a: int, b: int| 0 <= a < b < sorted@.len() implies sorted@[a]
                <= sorted@[b] by {
                if a != at && b != at {
                    let a0 = if a < at {
                        a
                    } else {
                        a - 1
                    };
                    let b0 = if b < at {
                        b
                    } else {
                        b - 1
                    };
                    assert(sorted@[a] == before[a0]);
                    assert(sorted@[b] == before[b0]);
                } else if a == at {
                    assert(sorted@[b] == before[b - 1]);
                    assert(before[at as int] <= before[b - 1]);
                }
            }
            if ids@.no_duplicates() {
                assert(!before.contains(id)) by {
                    if before.contains(id) {
                        let k = choose|k: int| 0 <= k < i && ids@.take(i as int)[k] == id;
                        assert(ids@[k] == ids@[i as int]);
                    }
                }
                assert forall|a: int, b: int| 0 <= a < b < sorted@.len() implies sorted@[a]
                    < sorted@[b] by {
                    if a != at && b != at {
                        let a0 = if a < at {
                            a
                        } else {
                            a - 1
                        };
                        let b0 = if b < at {
                            b
                        } else {
                            b - 1
                        };
                        assert(sorted@[a] == before[a0]);
                        assert(sorted@[b] == before[b0]);
                    } else if a == at {
                        assert(sorted@[b] == before[b - 1]);
                        assert(before[at as int] <= before[b - 1]);
                        assert(before.contains(before[b - 1]));
                    } else {
                        assert(sorted@[a] == before[a]);
                        assert(before.contains(before[a]));
                    }
                }
            }
        }
        i = i + 1;
    }
    assert(ids@.take(i as int) =~= ids@);
    sorted
}

/// Sorts ids with names by name.
pub fn sort_by_name(items: &Vec<(u32, String)>) -> (sorted: Vec<(u32, String)>)
    ensures
        sorted@.len() == items@.len(),
        sorted_by_name(named(sorted@)),
        forall|item: (u32, Seq<char>)|
            named(sorted@).contains(item) <==> named(items@).contains(item),
        distinct_ids(named(items@)) ==> distinct_ids(named(sorted@)),
{
    let mut sorted: Vec<(u32, String)> = Vec::new();
    let mut i: usize = 0;
    while i < items.len()
        invariant
            i <= items.len(),
            sorted@.len() == i,
            sorted_by_name(named(sorted@)),
            forall|item: (u32, Seq<char>)|
                named(sorted@).contains(item) <==> named(items@).take(i as int).contains(item),
            distinct_ids(named(items@)) ==> distinct_ids(named(sorted@)),
        decreases items.len() - i,
    {
        let id = items[i].0;
        let name = items[i].1.clone();
        let mut at: usize = 0;
        while at < sorted.len() && !precedes(name.as_str(), sorted[at].1.as_str())
            invariant
                at <= sorted.len(),
                forall|k: int| 0 <= k < at ==> !lex_less(name@, (#[trigger] named(sorted@)[k]).1),
            decreases sorted.len() - at,
        {
            at = at + 1;
        }
        let ghost before = named(sorted@);
        let ghost sorted_before = sorted@;
        let ghost entry = (id, name@);
        sorted.insert(at, (id, name));
        proof {
            let after = named(sorted@);
            assert(after =~= before.insert(at as int, entry));
            lemma_insert_contains(before, at as int, entry);
            assert(named(items@)[i as int] == entry);
            assert(named(items@).take(i + 1) =~= named(items@).take(i as int).push(entry));
            assert forall|item: (u32, Seq<char>)|
                after.contains(item) <==> named(items@).take(i + 1).contains(item) by {
                vstd::seq_lib::lemma_seq_contains_after_push(
                    named(items@).take(i as int),
                    entry,
                    item,
                );
                assert(after.contains(item) <==> (item == entry || before.contains(item)));
                assert(before.contains(item) <==> named(items@).take(i as int).contains(item));
            }
            assert forall|a: int, b: int| 0 <= a < b < after.len() implies !lex_less(
                (#[trigger] after[b]).1,
                (#[trigger] after[a]).1,
            ) by {
                if b == at {
                    assert(after[a] == before[a]);
                } else if a == at {
                    assert(after[b] == before[b - 1]);
                    if lex_less(before[b - 1].1, name@) {
                        assert(before[at as int].1 == sorted_before[at as int].1@);
                        assert(lex_less(name@, before[at as int].1));
                        lemma_lex_transitive(before[b - 1].1, name@, before[at as int].1);
                        if b - 1 == at {
                            crate::text::lemma_lex_irreflexive(before[at as int].1);
                        } else {
                            assert(!lex_less(before[b - 1].1, before[at as int].1));
                        }
                        assert(false);
                    }
                } else {
                    let a0 = if a < at {
                        a
                    } else {
                        a - 1
                    };
                    let b0 = if b < at {
                        b
                    } else {
                        b - 1
                    };
                    assert(after[a] == before[a0]);
                    assert(after[b] == before[b0]);
                }
            }
            if distinct_ids(named(items@)) {
                assert forall|a: int, b: int|
                    0 <= a < after.len() && 0 <= b < after.len() && a != b implies (
                #[trigger] after[a]).0 != (#[trigger] after[b]).0 by {
                    let a0 = if a < at {
                        a
                    } else {
                        a - 1
                    };
                    let b0 = if b < at {
                        b
                    } else {
                        b - 1
                    };
                    if a == at {
                        assert(after[b] == before[b0]);
                        assert(before.contains(before[b0]));
                        let k = choose|k: int|
                            0 <= k < i && named(items@).take(i as int)[k] == before[b0];
                        assert(named(items@)[k] == before[b0]);
                        assert(named(items@)[i as int] == entry);
                    } else if b == at {
                        assert(after[a] == before[a0]);
                        assert(before.contains(before[a0]));
                        let k = choose|k: int|
                            0 <= k < i && named(items@).take(i as int)[k] == before[a0];
                        assert(named(items@)[k] == before[a0]);
                        assert(named(items@)[i as int] == entry);
                    } else {
                        assert(after[a] == before[a0]);
                        assert(after[b] == before[b0]);
                    }
                }
            }
        }
        i = i + 1;
    }
    assert(named(items@).take(i as int) =~= named(items@));
    sorted
}

impl TagRegistry {
    /// Brings a query into its normal form: trimmed, without the `#`s that
    /// it starts with, in lower case.
    pub fn normalize_query(query: &str) -> (normalized: String)
        ensures
            normalized@ == normalized_query(query@),
    {
        let trimmed = trim(query);
        let stripped = strip_leading(trimmed.as_str(), '#');
        lowercase(stripped.as_str())
    }

    /// Returns each tag that has a full name, as its id with that name.
    pub fn tag_names(&self) -> (names: Vec<(u32, String)>)
        requires
            self.wf(),
        ensures
            distinct_ids(named(names@)),
            forall|k: int|
                0 <= k < names@.len() ==> self@.contains_key((#[trigger] named(names@)[k]).0)
                    && full_name_of(self@, named(names@)[k].0) == Some(named(names@)[k].1),
            forall|id: u32|
                self@.contains_key(id) && full_name_of(self@, id) is Some ==> named(
                    names@,
                ).contains((id, full_name_of(self@, id)->0)),
    {
        let mut names: Vec<(u32, String)> = Vec::new();
        let mut i: usize = 0;
        while i < self.order.len()
            invariant
                i <= self.order.len(),
                self.wf(),
                forall|k: int|
                    0 <= k < names@.len() ==> self@.contains_key((#[trigger] named(names@)[k]).0)
                        && full_name_of(self@, named(names@)[k].0) == Some(named(names@)[k].1)
                        && exists|j: int| 0 <= j < i && self.order@[j] == named(names@)[k].0,
                distinct_ids(named(names@)),
                forall|j: int|
                    0 <= j < i && full_name_of(self@, #[trigger] self.order@[j]) is Some ==> named(
                        names@,
                    ).contains((self.order@[j], full_name_of(self@, self.order@[j])->0)),
            decreases self.order.len() - i,
        {
            let id = self.order[i];
            assert(self.order@.contains(id));
            match self.full_name(id) {
                Some(name) => {
                    let ghost before = named(names@);
                    let ghost entry = (id, name@);
                    names.push((id, name));
                    proof {
                        let after = named(names@);
                        assert(after =~= before.push(entry));
                        assert forall|j: int|
                            0 <= j < i + 1 && full_name_of(
                                self@,
                                #[trigger] self.order@[j],
                            ) is Some implies after.contains(
                            (self.order@[j], full_name_of(self@, self.order@[j])->0),
                        ) by {
                            vstd::seq_lib::lemma_seq_contains_after_push(
                                before,
                                entry,
                                (self.order@[j], full_name_of(self@, self.order@[j])->0),
                            );
                        }
                        assert forall|a: int, b: int|
                            0 <= a < after.len() && 0 <= b < after.len() && a != b implies (
                        #[trigger] after[a]).0 != (#[trigger] after[b]).0 by {
                            if a == after.len() - 1 {
                                assert(after[b] == before[b]);
                                let j = choose|j: int|
                                    0 <= j < i && self.order@[j] == before[b].0;
                            } else if b == after.len() - 1 {
                                assert(after[a] == before[a]);
                                let j = choose|j: int|
                                    0 <= j < i && self.order@[j] == before[a].0;
                            } else {
                                assert(after[a] == before[a]);
                                assert(after[b] == before[b]);
                            }
                        }
                        assert forall|k: int| 0 <= k < after.len() implies self@.contains_key(
                            (#[trigger] after[k]).0,
                        ) && full_name_of(self@, after[k].0) == Some(after[k].1) && exists|j: int|
                            0 <= j < i + 1 && self.order@[j] == after[k].0 by {
                            if k < before.len() {
                                assert(after[k] == before[k]);
                                let j = choose|j: int|
                                    0 <= j < i && self.order@[j] == before[k].0;
                                assert(0 <= j < i + 1 && self.order@[j] == after[k].0);
                            } else {
                                assert(self.order@[i as int] == after[k].0);
                            }
                        }
                    }
                },
                None => {},
            }
            i = i + 1;
        }
        proof {
            assert forall|id: u32|
                self@.contains_key(id) && full_name_of(self@, id) is Some implies named(
                names@,
            ).contains((id, full_name_of(self@, id)->0)) by {
                assert(self.order@.contains(id));
                let j = choose|j: int| 0 <= j < self.order@.len() && self.order@[j] == id;
                assert(full_name_of(self@, self.order@[j]) is Some);
            }
        }
        names
    }

    /// Returns the ids of the tags whose full name, in lower case, matches
    /// the query in its normal form; none for a query that is empty then.
    pub fn filter_tag_ids(&self, query: &str, mode: NameMatch) -> (ids: Vec<u32>)
        requires
            self.wf(),
        ensures
            ids@.no_duplicates(),
            normalized_query(query@).len() == 0 ==> ids@.len() == 0,
            normalized_query(query@).len() > 0 ==> forall|id: u32|
                ids@.contains(id) <==> is_match(self@, mode, normalized_query(query@), id),
    {
        let normalized = Self::normalize_query(query);
        let mut ids: Vec<u32> = Vec::new();
        if normalized.as_str().is_empty() {
            return ids;
        }
        let names = self.tag_names();
        let mut i: usize = 0;
        while i < names.len()
            invariant
                i <= names.len(),
                normalized@ == normalized_query(query@),
                distinct_ids(named(names@)),
                forall|k: int|
                    0 <= k < names@.len() ==> self@.contains_key((#[trigger] named(names@)[k]).0)
                        && full_name_of(self@, named(names@)[k].0) == Some(named(names@)[k].1),
                forall|k: int|
                    0 <= k < ids@.len() ==> found_among(
                        named(names@),
                        i as int,
                        mode,
                        normalized@,
                        #[trigger] ids@[k],
                    ),
                forall|j: int|
                    0 <= j < i && name_matches(mode, (#[trigger] named(names@)[j]).1, normalized@)
                        ==> ids@.contains(named(names@)[j].0),
                ids@.no_duplicates(),
            decreases names.len() - i,
        {
            let lower = lowercase(names[i].1.as_str());
            let found = match mode {
                NameMatch::Prefix => starts_with(lower.as_str(), normalized.as_str()),
                NameMatch::Infix => contains(lower.as_str(), normalized.as_str()),
            };
            assert(named(names@)[i as int] == (names@[i as int].0, names@[i as int].1@));
            assert(found == name_matches(mode, named(names@)[i as int].1, normalized@));
            if found {
                let ghost before = ids@;
                let id = names[i].0;
                proof {
                    if before.contains(id) {
                        let k = choose|k: int| 0 <= k < before.len() && before[k] == id;
                        assert(found_among(named(names@), i as int, mode, normalized@, before[k]));
                        let j = choose|j: int|
                            0 <= j < i && j < named(names@).len() && (#[trigger] named(
                                names@,
                            )[j]).0 == before[k] && name_matches(
                                mode,
                                named(names@)[j].1,
                                normalized@,
                            );
                        assert(named(names@)[j].0 != named(names@)[i as int].0);
                    }
                }
                ids.push(id);
                proof {
                    assert forall|j: int|
                        0 <= j < i + 1 && name_matches(
                            mode,
                            (#[trigger] named(names@)[j]).1,
                            normalized@,
                        ) implies ids@.contains(named(names@)[j].0) by {
                        vstd::seq_lib::lemma_seq_contains_after_push(
                            before,
                            id,
                            named(names@)[j].0,
                        );
                    }
                    assert forall|k: int| 0 <= k < ids@.len() implies found_among(
                        named(names@),
                        i + 1,
                        mode,
                        normalized@,
                        #[trigger] ids@[k],
                    ) by {
                        if k < before.len() {
                            assert(ids@[k] == before[k]);
                            assert(found_among(
                                named(names@),
                                i as int,
                                mode,
                                normalized@,
                                before[k],
                            ));
                            let j = choose|j: int|
                                0 <= j < i && j < named(names@).len() && (#[trigger] named(
                                    names@,
                                )[j]).0 == before[k] && name_matches(
                                    mode,
                                    named(names@)[j].1,
                                    normalized@,
                                );
                            assert(0 <= j < i + 1 && named(names@)[j].0 == ids@[k]);
                        } else {
                            assert(named(names@)[i as int].0 == ids@[k]);
                        }
                    }
                }
            } else {
                proof {
                    assert forall|k: int| 0 <= k < ids@.len() implies found_among(
                        named(names@),
                        i + 1,
                        mode,
                        normalized@,
                        #[trigger] ids@[k],
                    ) by {
                        assert(found_among(named(names@), i as int, mode, normalized@, ids@[k]));
                        let j = choose|j: int|
                            0 <= j < i && j < named(names@).len() && (#[trigger] named(
                                names@,
                            )[j]).0 == ids@[k] && name_matches(
                                mode,
                                named(names@)[j].1,
                                normalized@,
                            );
                        assert(0 <= j < i + 1 && named(names@)[j].0 == ids@[k]);
                    }
                }
            }
            i = i + 1;
        }
        proof {
            assert forall|id: u32| ids@.contains(id) <==> is_match(
                self@,
                mode,
                normalized@,
                id,
            ) by {
                if ids@.contains(id) {
                    let k = choose|k: int| 0 <= k < ids@.len() && ids@[k] == id;
                    assert(found_among(named(names@), i as int, mode, normalized@, ids@[k]));
                    let j = choose|j: int|
                        0 <= j < i && j < named(names@).len() && (#[trigger] named(names@)[j]).0
                            == ids@[k] && name_matches(mode, named(names@)[j].1, normalized@);
                    assert(full_name_of(self@, named(names@)[j].0) == Some(named(names@)[j].1));
                }
                if is_match(self@, mode, normalized@, id) {
                    let entry = (id, full_name_of(self@, id)->0);
                    assert(named(names@).contains(entry));
                    let j = choose|j: int| 0 <= j < names@.len() && named(names@)[j] == entry;
                    assert(name_matches(mode, named(names@)[j].1, normalized@));
                }
            }
        }
        ids
    }

    /// Returns the ids of the tags whose full name, in lower case, starts
    /// with the query in its normal form, in no particular order.
    pub fn tag_ids_with_prefix(&self, query: &str) -> (ids: Vec<u32>)
        requires
            self.wf(),
        ensures
            ids@.no_duplicates(),
            normalized_query(query@).len() == 0 ==> ids@.len() == 0,
            normalized_query(query@).len() > 0 ==> forall|id: u32|
                ids@.contains(id) <==> is_match(
                    self@,
                    NameMatch::Prefix,
                    normalized_query(query@),
                    id,
                ),
    {
        self.filter_tag_ids(query, NameMatch::Prefix)
    }

    /// Returns the ids of the tags whose full name, in lower case, holds the
    /// query in its normal form, in no particular order.
    pub fn tag_ids_with_infix(&self, query: &str) -> (ids: Vec<u32>)
        requires
            self.wf(),
        ensures
            ids@.no_duplicates(),
            normalized_query(query@).len() == 0 ==> ids@.len() == 0,
            normalized_query(query@).len() > 0 ==> forall|id: u32|
                ids@.contains(id) <==> is_match(
                    self@,
                    NameMatch::Infix,
                    normalized_query(query@),
                    id,
                ),
    {
        self.filter_tag_ids(query, NameMatch::Infix)
    }
}

/// The descriptor of the tag `id`: its full name behind a `#`, and its
/// colour, or that of the palette for its id where it has none.
pub open spec fn descriptor_of(tags: TagMap, id: u32) -> DescriptorView {
    DescriptorView {
        id: id,
        name: shown_name(full_name_of(tags, id)->0),
        color: match tags[id].color {
            Some(color) => color,
            None => palette_color(id as nat),
        },
    }
}

/// The views of descriptors, in order.
pub open spec fn descriptor_views(descriptors: Seq<TagDescriptor>) -> Seq<DescriptorView> {
    descriptors.map_values(|descriptor: TagDescriptor| descriptor@)
}

/// The view of an optional string.
pub open spec fn optional_view(text: Option<String>) -> Option<Seq<char>> {
    match text {
        Some(text) => Some(text@),
        None => None,
    }
}

/// Whether `item` is the id of a tag whose full name starts with the query,
/// with that name as shown to callers.
pub open spec fn is_shown_match(tags: TagMap, query: Seq<char>, item: (u32, Seq<char>)) -> bool {
    is_match(tags, NameMatch::Prefix, query, item.0) && item.1 == shown_name(
        full_name_of(tags, item.0)->0,
    )
}

/// Whether a suggestion of this name and colour stands for a tag whose full
/// name starts with the query.
pub open spec fn is_suggestion(
    tags: TagMap,
    query: Seq<char>,
    name: Seq<char>,
    color: Option<Seq<char>>,
) -> bool {
    exists|id: u32| #[trigger] is_shown_match(tags, query, (id, name)) && tags[id].color == color
}

/// Whether one of the first `upto` of `items` has the name `name`.
pub open spec fn name_among(items: Seq<TagSuggestion>, name: Seq<char>) -> bool {
    exists|k: int| 0 <= k < items.len() && (#[trigger] items[k]).name@ == name
}

/// `tag` with the colour of the palette for its id, where it has none.
pub open spec fn colored(tag: TagView) -> TagView {
    TagView {
        id: tag.id,
        name: tag.name,
        parent_id: tag.parent_id,
        color: match tag.color {
            Some(color) => Some(color),
            None => Some(palette_color(tag.id as nat)),
        },
    }
}

/// The views of tags, in order.
pub open spec fn tag_views(tags: Seq<Tag>) -> Seq<TagView> {
    tags.map_values(|tag: Tag| tag@)
}

/// The tags by id, each with a colour; of two tags with one id the later
/// one counts.
pub open spec fn tags_by_id(tags: Seq<TagView>) -> TagMap
    decreases tags.len(),
{
    if tags.len() == 0 {
        TagMap::empty()
    } else {
        tags_by_id(tags.drop_last()).insert(tags.last().id, colored(tags.last()))
    }
}

/// Whether `records` are the tags `tags` as `TagRegistry::export` gives
/// them: each tag once, in the order of the ids.
pub open spec fn is_export(tags: TagMap, records: Seq<TagView>) -> bool {
    &&& forall|i: int, j: int|
        0 <= i < j < records.len() ==> (#[trigger] records[i]).id < (#[trigger] records[j]).id
    &&& forall|k: int|
        0 <= k < records.len() ==> tags.contains_key((#[trigger] records[k]).id) && records[k]
            == tags[records[k].id]
    &&& forall|id: u32|
        tags.contains_key(id) ==> exists|k: int|
            0 <= k < records.len() && (#[trigger] records[k]).id == id
}

/// Whether `id` is the greatest of `ids`.
pub open spec fn is_greatest(ids: Set<u32>, id: u32) -> bool {
    ids.contains(id) && forall|other: u32| ids.contains(other) ==> other <= id
}

/// The next id to try for a registry that was loaded: the one behind the
/// greatest id, and 0 where there is no tag.
pub open spec fn next_id_for(tags: TagMap) -> u32 {
    if exists|id: u32| tags.contains_key(id) {
        next_after(choose|id: u32| is_greatest(tags.dom(), id))
    } else {
        0
    }
}

impl Tag {
    /// Returns a copy of the tag.
    pub fn duplicate(&self) -> (copy: Tag)
        ensures
            copy@ == self@,
    {
        Tag {
            id: self.id,
            name: self.name.clone(),
            parent_id: self.parent_id,
            color: match &self.color {
                Some(color) => Some(color.clone()),
                None => None,
            },
        }
    }

    /// Returns a copy of the tag that has a colour: its own, or that of the
    /// palette for its id.
    pub fn with_color(&self) -> (copy: Tag)
        ensures
            copy@ == colored(self@),
    {
        Tag {
            id: self.id,
            name: self.name.clone(),
            parent_id: self.parent_id,
            color: match &self.color {
                Some(color) => Some(color.clone()),
                None => Some(String::from_str(color_for(self.id))),
            },
        }
    }
}

impl TagRegistry {
    /// Offers the tags whose full name, in lower case, starts with the
    /// query in its normal form: each full name once, behind a `#`, with
    /// the colour of a tag of that name, in the order of the names. A query
    /// that is empty in its normal form gets no offer.
    pub fn autocomplete(&self, query: &str) -> (suggestions: Vec<TagSuggestion>)
        requires
            self.wf(),
        ensures
            normalized_query(query@).len() == 0 ==> suggestions@.len() == 0,
            forall|i: int, j: int|
                0 <= i < j < suggestions@.len() ==> lex_less(
                    (#[trigger] suggestions@[i]).name@,
                    (#[trigger] suggestions@[j]).name@,
                ),
            forall|k: int|
                0 <= k < suggestions@.len() ==> is_suggestion(
                    self@,
                    normalized_query(query@),
                    (#[trigger] suggestions@[k]).name@,
                    optional_view(suggestions@[k].color),
                ),
            normalized_query(query@).len() > 0 ==> forall|id: u32|
                #[trigger] is_match(self@, NameMatch::Prefix, normalized_query(query@), id)
                    ==> name_among(suggestions@, shown_name(full_name_of(self@, id)->0)),
    {
        let normalized = Self::normalize_query(query);
        let mut suggestions: Vec<TagSuggestion> = Vec::new();
        if normalized.as_str().is_empty() {
            return suggestions;
        }
        let ghost wanted = normalized@;
        let names = self.tag_names();
        let mut matched: Vec<(u32, String)> = Vec::new();
        let mut i: usize = 0;
        while i < names.len()
            invariant
                i <= names.len(),
                wanted == normalized@,
                forall|k: int|
                    0 <= k < names@.len() ==> self@.contains_key((#[trigger] named(names@)[k]).0)
                        && full_name_of(self@, named(names@)[k].0) == Some(named(names@)[k].1),
                forall|k: int|
                    0 <= k < matched@.len() ==> is_shown_match(
                        self@,
                        wanted,
                        #[trigger] named(matched@)[k],
                    ),
                forall|j: int|
                    0 <= j < i && name_matches(
                        NameMatch::Prefix,
                        (#[trigger] named(names@)[j]).1,
                        wanted,
                    ) ==> named(matched@).contains(
                        (named(names@)[j].0, shown_name(named(names@)[j].1)),
                    ),
            decreases names.len() - i,
        {
            let lower = lowercase(names[i].1.as_str());
            assert(named(names@)[i as int] == (names@[i as int].0, names@[i as int].1@));
            if starts_with(lower.as_str(), normalized.as_str()) {
                let mut shown = String::from_str("#");
                proof {
                    reveal_strlit("#");
                    assert("#"@ =~= seq!['#']);
                }
                shown.append(names[i].1.as_str());
                let ghost before = named(matched@);
                let ghost entry = (names@[i as int].0, shown@);
                matched.push((names[i].0, shown));
                proof {
                    assert(named(matched@) =~= before.push(entry));
                    assert forall|j: int|
                        0 <= j < i + 1 && name_matches(
                            NameMatch::Prefix,
                            (#[trigger] named(names@)[j]).1,
                            wanted,
                        ) implies named(matched@).contains(
                        (named(names@)[j].0, shown_name(named(names@)[j].1)),
                    ) by {
                        vstd::seq_lib::lemma_seq_contains_after_push(
                            before,
                            entry,
                            (named(names@)[j].0, shown_name(named(names@)[j].1)),
                        );
                    }
                    assert forall|k: int| 0 <= k < matched@.len() implies is_shown_match(
                        self@,
                        wanted,
                        #[trigger] named(matched@)[k],
                    ) by {
                        if k < before.len() {
                            assert(named(matched@)[k] == before[k]);
                        }
                    }
                }
            }
            i = i + 1;
        }
        let sorted = sort_by_name(&matched);
        proof {
            assert forall|j: int| 0 <= j < sorted@.len() implies is_shown_match(
                self@,
                wanted,
                #[trigger] named(sorted@)[j],
            ) by {
                assert(named(sorted@).contains(named(sorted@)[j]));
                assert(named(matched@).contains(named(sorted@)[j]));
                let at = choose|at: int|
                    0 <= at < named(matched@).len() && named(matched@)[at] == named(sorted@)[j];
                assert(is_shown_match(self@, wanted, named(matched@)[at]));
            }
        }
        let mut k: usize = 0;
        while k < sorted.len()
            invariant
                k <= sorted.len(),
                self.wf(),
                sorted_by_name(named(sorted@)),
                forall|j: int|
                    0 <= j < sorted@.len() ==> is_shown_match(
                        self@,
                        wanted,
                        #[trigger] named(sorted@)[j],
                    ),
                forall|a: int, b: int|
                    0 <= a < b < suggestions@.len() ==> lex_less(
                        (#[trigger] suggestions@[a]).name@,
                        (#[trigger] suggestions@[b]).name@,
                    ),
                forall|a: int|
                    0 <= a < suggestions@.len() ==> is_suggestion(
                        self@,
                        wanted,
                        (#[trigger] suggestions@[a]).name@,
                        optional_view(suggestions@[a].color),
                    ),
                forall|j: int|
                    0 <= j < k ==> name_among(suggestions@, (#[trigger] named(sorted@)[j]).1),
                k > 0 <==> suggestions@.len() > 0,
                k > 0 ==> suggestions@.last().name@ == named(sorted@)[k - 1].1,
            decreases sorted.len() - k,
        {
            let id = sorted[k].0;
            assert(named(sorted@)[k as int] == (sorted@[k as int].0, sorted@[k as int].1@));
            assert(is_shown_match(self@, wanted, named(sorted@)[k as int]));
            let repeated = suggestions.len() > 0 && suggestions[suggestions.len() - 1].name
                == sorted[k].1;
            if !repeated {
                let color = match self.tags.get(&id) {
                    Some(tag) => match &tag.color {
                        Some(color) => Some(color.clone()),
                        None => None,
                    },
                    None => None,
                };
                let ghost before = suggestions@;
                let name = sorted[k].1.clone();
                proof {
                    assert(optional_view(color) == self@[id].color);
                    assert(is_shown_match(self@, wanted, (id, name@)));
                    if before.len() > 0 {
                        let last = before.last().name@;
                        assert(last == named(sorted@)[k - 1].1);
                        assert(!lex_less(named(sorted@)[k as int].1, named(sorted@)[k - 1].1));
                        lemma_lex_total(last, name@);
                        assert(lex_less(last, name@));
                        assert forall|a: int| 0 <= a < before.len() implies lex_less(
                            (#[trigger] before[a]).name@,
                            name@,
                        ) by {
                            if a < before.len() - 1 {
                                lemma_lex_transitive(before[a].name@, last, name@);
                            }
                        }
                    }
                }
                suggestions.push(TagSuggestion { name, color });
                proof {
                    assert forall|j: int| 0 <= j < k + 1 implies name_among(
                        suggestions@,
                        (#[trigger] named(sorted@)[j]).1,
                    ) by {
                        if j < k {
                            let at = choose|at: int|
                                0 <= at < before.len() && (#[trigger] before[at]).name@ == named(
                                    sorted@,
                                )[j].1;
                            assert(suggestions@[at].name@ == named(sorted@)[j].1);
                        } else {
                            assert(suggestions@[suggestions@.len() - 1].name@ == named(
                                sorted@,
                            )[j].1);
                        }
                    }
                    assert forall|a: int| 0 <= a < suggestions@.len() implies is_suggestion(
                        self@,
                        wanted,
                        (#[trigger] suggestions@[a]).name@,
                        optional_view(suggestions@[a].color),
                    ) by {
                        if a < before.len() {
                            assert(suggestions@[a] == before[a]);
                        }
                    }
                }
            } else {
                proof {
                    assert forall|j: int| 0 <= j < k + 1 implies name_among(
                        suggestions@,
                        (#[trigger] named(sorted@)[j]).1,
                    ) by {
                        if j == k {
                            assert(suggestions@[suggestions@.len() - 1].name@ == named(
                                sorted@,
                            )[j].1);
                        }
                    }
                }
            }
            k = k + 1;
        }
        proof {
            assert forall|id: u32| #[trigger]
                is_match(self@, NameMatch::Prefix, wanted, id) implies name_among(
                suggestions@,
                shown_name(full_name_of(self@, id)->0),
            ) by {
                let full = full_name_of(self@, id)->0;
                assert(named(names@).contains((id, full)));
                let j = choose|j: int| 0 <= j < names@.len() && named(names@)[j] == (id, full);
                assert(name_matches(NameMatch::Prefix, named(names@)[j].1, wanted));
                assert(named(matched@).contains((id, shown_name(full))));
                assert(named(sorted@).contains((id, shown_name(full))));
                let at = choose|at: int|
                    0 <= at < sorted@.len() && named(sorted@)[at] == (id, shown_name(full));
                assert(name_among(suggestions@, named(sorted@)[at].1));
            }
        }
        suggestions
    }

    /// Describes the tag `id`: returns its id, its full name behind a `#`
    /// and its colour, or `None` where the tag has no full name.
    pub fn describe(&self, id: u32) -> (descriptor: Option<TagDescriptor>)
        requires
            self.wf(),
        ensures
            match descriptor {
                Some(found) => self@.contains_key(id) && full_name_of(self@, id) is Some
                    && found@ == descriptor_of(self@, id),
                None => !self@.contains_key(id) || full_name_of(self@, id) is None,
            },
    {
        let tag = match self.tags.get(&id) {
            Some(tag) => tag,
            None => {
                return None;
            },
        };
        let full_name = match self.full_name(id) {
            Some(name) => name,
            None => {
                return None;
            },
        };
        let color = match &tag.color {
            Some(color) => color.clone(),
            None => String::from_str(color_for(id)),
        };
        let mut name = String::from_str("#");
        proof {
            reveal_strlit("#");
            assert("#"@ =~= seq!['#']);
        }
        name.append(full_name.as_str());
        Some(TagDescriptor { id, name, color })
    }

    /// Returns a copy of every tag, in the order of the ids.
    pub fn export(&self) -> (tags: Vec<Tag>)
        requires
            self.wf(),
        ensures
            tags@.len() == self@.len(),
            is_export(self@, tag_views(tags@)),
    {
        proof {
            self.lemma_wf();
            self.order@.unique_seq_to_set();
            assert(self.order@.to_set() =~= self@.dom());
        }
        let ids = sort_ids(&self.order);
        let mut tags: Vec<Tag> = Vec::new();
        let mut i: usize = 0;
        while i < ids.len()
            invariant
                i <= ids.len(),
                self.wf(),
                tags@.len() == i,
                forall|id: u32| ids@.contains(id) <==> self.order@.contains(id),
                forall|k: int|
                    0 <= k < i ==> (#[trigger] tags@[k]).id == ids@[k] && self@.contains_key(
                        ids@[k],
                    ) && tags@[k]@ == self@[ids@[k]],
            decreases ids.len() - i,
        {
            let id = ids[i];
            assert(ids@.contains(id));
            match self.tags.get(&id) {
                Some(tag) => {
                    tags.push(tag.duplicate());
                },
                None => {
                    assert(false);
                },
            }
            i = i + 1;
        }
        proof {
            let records = tag_views(tags@);
            assert forall|k: int| 0 <= k < records.len() implies self@.contains_key(
                (#[trigger] records[k]).id,
            ) && records[k] == self@[records[k].id] by {
                assert(records[k] == tags@[k]@);
            }
            assert forall|i: int, j: int| 0 <= i < j < records.len() implies (
            #[trigger] records[i]).id < (#[trigger] records[j]).id by {
                assert(records[i] == tags@[i]@ && records[j] == tags@[j]@);
                assert(ids@[i] < ids@[j]);
            }
            assert forall|id: u32| self@.contains_key(id) implies exists|k: int|
                0 <= k < records.len() && (#[trigger] records[k]).id == id by {
                assert(self.order@.contains(id));
                assert(ids@.contains(id));
                let k = choose|k: int| 0 <= k < ids@.len() && ids@[k] == id;
                assert(records[k] == tags@[k]@);
                assert(records[k].id == id);
            }
        }
        tags
    }

    /// Sets the next id to try to the id behind the greatest one, or to 0
    /// where there is no tag.
    pub fn rebuild_indexes(&mut self)
        requires
            old(self).wf(),
        ensures
            final(self).wf(),
            final(self)@ == old(self)@,
            final(self).next_id() == next_id_for(old(self)@),
    {
        let mut greatest: Option<u32> = None;
        let mut i: usize = 0;
        while i < self.order.len()
            invariant
                i <= self.order.len(),
                self.wf(),
                *self == *old(self),
                i == 0 <==> greatest is None,
                greatest matches Some(top) ==> self@.contains_key(top) && forall|j: int|
                    0 <= j < i ==> #[trigger] self.order@[j] <= top,
            decreases self.order.len() - i,
        {
            let id = self.order[i];
            assert(self.order@.contains(id));
            greatest =
            match greatest {
                Some(top) => if top < id {
                    Some(id)
                } else {
                    Some(top)
                },
                None => Some(id),
            };
            i = i + 1;
        }
        proof {
            match greatest {
                Some(top) => {
                    assert forall|other: u32| self@.dom().contains(other) implies other
                        <= top by {
                        assert(self.order@.contains(other));
                        let j = choose|j: int|
                            0 <= j < self.order@.len() && self.order@[j] == other;
                        assert(self.order@[j] <= top);
                    }
                    assert(is_greatest(self@.dom(), top));
                    let chosen = choose|id: u32| is_greatest(self@.dom(), id);
                    assert(chosen == top);
                },
                None => {
                    if exists|id: u32| self@.contains_key(id) {
                        let id = choose|id: u32| self@.contains_key(id);
                        assert(self.order@.contains(id));
                    }
                },
            }
        }
        self.next_id =
        match greatest {
            Some(top) => top.wrapping_add(1),
            None => 0,
        };
        assert(self@ =~= old(self)@);
    }

    /// Gives every tag of `tags` a colour: its own, or that of the palette
    /// for its id.
    pub fn ensure_tag_colors(tags: &Vec<Tag>) -> (result: Vec<Tag>)
        ensures
            result@.len() == tags@.len(),
            forall|k: int|
                0 <= k < tags@.len() ==> (#[trigger] result@[k])@ == colored(tags@[k]@),
    {
        let mut result: Vec<Tag> = Vec::new();
        let mut i: usize = 0;
        while i < tags.len()
            invariant
                i <= tags.len(),
                result@.len() == i,
                forall|k: int| 0 <= k < i ==> (#[trigger] result@[k])@ == colored(tags@[k]@),
            decreases tags.len() - i,
        {
            result.push(tags[i].with_color());
            i = i + 1;
        }
        result
    }

    /// Makes a registry of the given tags, by id: of two tags with one id
    /// the later one counts. Tags without a colour get that of the palette;
    /// the next id to try is the one behind the greatest id.
    pub fn from_tags(tags: Vec<Tag>) -> (registry: TagRegistry)
        ensures
            registry.wf(),
            registry@ == tags_by_id(tag_views(tags@)),
            registry.next_id() == next_id_for(registry@),
    {
        let colored_tags = Self::ensure_tag_colors(&tags);
        let mut registry = TagRegistry::new();
        let mut i: usize = 0;
        assert(tag_views(tags@).take(0) =~= Seq::<TagView>::empty());
        while i < colored_tags.len()
            invariant
                i <= colored_tags.len(),
                colored_tags@.len() == tags@.len(),
                forall|k: int|
                    0 <= k < tags@.len() ==> (#[trigger] colored_tags@[k])@ == colored(
                        tags@[k]@,
                    ),
                registry.wf(),
                registry@ == tags_by_id(tag_views(tags@).take(i as int)),
            decreases colored_tags.len() - i,
        {
            let tag = colored_tags[i].duplicate();
            let id = tag.id;
            let ghost before = registry@;
            let ghost order_before = registry.order@;
            let known = registry.tags.contains_key(&id);
            registry.tags.insert(id, tag);
            if !known {
                registry.order.push(id);
            }
            proof {
                let upto = tag_views(tags@).take(i + 1);
                assert(upto.drop_last() =~= tag_views(tags@).take(i as int));
                assert(upto.last() == tags@[i as int]@);
                assert(registry@ =~= before.insert(id, colored(tags@[i as int]@)));
                if !known {
                    assert(!order_before.contains(id));
                    assert forall|a: int, b: int|
                        0 <= a < registry.order@.len() && 0 <= b < registry.order@.len() && a
                            != b implies registry.order@[a] != registry.order@[b] by {
                        if a < order_before.len() {
                            assert(order_before[a] == registry.order@[a]);
                            assert(order_before.contains(registry.order@[a]));
                        }
                        if b < order_before.len() {
                            assert(order_before[b] == registry.order@[b]);
                            assert(order_before.contains(registry.order@[b]));
                        }
                    }
                }
                assert forall|other: u32|
                    registry.order@.contains(other) <==> registry.tags@.contains_key(other) by {
                    if registry.order@.contains(other) {
                        let at = choose|at: int|
                            0 <= at < registry.order@.len() && registry.order@[at] == other;
                        if at < order_before.len() {
                            assert(order_before[at] == other);
                            assert(order_before.contains(other));
                        }
                    }
                    if registry.tags@.contains_key(other) {
                        if other == id && !known {
                            assert(registry.order@[registry.order@.len() - 1] == other);
                        } else {
                            assert(order_before.contains(other));
                            let at = choose|at: int|
                                0 <= at < order_before.len() && order_before[at] == other;
                            assert(registry.order@[at] == other);
                        }
                    }
                }
            }
            i = i + 1;
        }
        assert(tag_views(tags@).take(i as int) =~= tag_views(tags@));
        registry.rebuild_indexes();
        registry
    }
}

impl Default for TagRegistry {
    /// A registry without tags.
    fn default() -> (registry: TagRegistry)
        ensures
            registry.wf(),
            registry@ == TagMap::empty(),
            registry.next_id() == 0,
    {
        TagRegistry::new()
    }
}

} // verus!
