//! Snapshots: the values that a timeline is saved as and loaded from.
//!
//! A snapshot holds the version, the blocks and the tags. The tags come in
//! two forms: as tag records, or, in older snapshots, as a flat list of ids
//! with full names.

use crate::block::{block_views, TaggedBlock};
use crate::legacy::{entry_views, flat_tags, FlatEntry};
use crate::registry::{
    colored, full_name_of, is_export, next_id_for, normalized_path, path_segments, tag_views,
    tags_by_id, Tag, TagMap, TagRegistry, TagView,
};
use crate::text::chars_of;
use crate::timeline::Timeline;
use vstd::prelude::*;

verus! {

/// The tags of a snapshot.
#[derive(Clone, Debug, PartialEq, Eq)]
pub enum TagRegistrySnapshot {
    /// Tag records: each with its id, its segment, its parent and its colour.
    Hierarchical(Vec<Tag>),
    /// The flat form: ids written in decimal, each with the full name of
    /// its tag.
    Flat(Vec<(String, String)>),
}

/// A timeline as it is saved.
#[derive(Clone, Debug, PartialEq, Eq)]
pub struct TimelineSnapshot {
    pub version: u64,
    pub blocks: Vec<TaggedBlock>,
    pub tag_registry: Option<TagRegistrySnapshot>,
}

/// The value of the decimal digit `c`.
pub open spec fn digit_value(c: char) -> nat {
    (c as u32 - 0x30) as nat
}

/// Whether `c` is a decimal digit.
pub open spec fn is_digit(c: char) -> bool {
    0x30 <= c as u32 <= 0x39
}

/// The number that the decimal digits `digits` spell; `None` where there is
/// no digit, or a character that is none.
pub open spec fn digits_value(digits: Seq<char>) -> Option<nat>
    decreases digits.len(),
{
    if digits.len() == 0 || !is_digit(digits.last()) {
        None
    } else if digits.len() == 1 {
        Some(digit_value(digits.last()))
    } else {
        match digits_value(digits.drop_last()) {
            Some(value) => Some(value * 10 + digit_value(digits.last())),
            None => None,
        }
    }
}

/// The id that `text` spells: decimal digits, behind a `+` or not, that
/// spell a number up to `u32::MAX`.
pub open spec fn parsed_id(text: Seq<char>) -> Option<u32> {
    let digits = if text.len() > 0 && text[0] == '+' {
        text.drop_first()
    } else {
        text
    };
    match digits_value(digits) {
        Some(value) => if value <= u32::MAX {
            Some(value as u32)
        } else {
            None
        },
        None => None,
    }
}

/// The index of the entry of `id` among `entries`, from `from` on.
pub open spec fn entry_index(entries: Seq<FlatEntry>, id: u32, from: int) -> Option<int>
    decreases entries.len() - from,
{
    if from >= entries.len() {
        None
    } else if entries[from].0 == id {
        Some(from)
    } else {
        entry_index(entries, id, from + 1)
    }
}

/// The entries of the flat form: those whose id can be read, in order; of
/// two entries with one id the later one takes the place of the earlier.
pub open spec fn flat_entries(raw: Seq<(Seq<char>, Seq<char>)>) -> Seq<FlatEntry>
    decreases raw.len(),
{
    if raw.len() == 0 {
        Seq::<FlatEntry>::empty()
    } else {
        let before = flat_entries(raw.drop_last());
        match parsed_id(raw.last().0) {
            None => before,
            Some(id) => match entry_index(before, id, 0) {
                Some(at) => before.update(at, (id, raw.last().1)),
                None => before.push((id, raw.last().1)),
            },
        }
    }
}

/// The views of pairs of strings, in order.
pub open spec fn pair_views(pairs: Seq<(String, String)>) -> Seq<(Seq<char>, Seq<char>)> {
    pairs.map_values(|pair: (String, String)| (pair.0@, pair.1@))
}

/// The tags that the tags of a snapshot stand for, with the next id to try;
/// `None` only where the flat form asks for more ids than there are.
pub open spec fn loaded_tags(tags: Option<TagRegistrySnapshot>) -> Option<(TagMap, u32)> {
    match tags {
        None => Some((TagMap::empty(), 0u32)),
        Some(TagRegistrySnapshot::Hierarchical(records)) => Some(
            (
                tags_by_id(tag_views(records@)),
                next_id_for(tags_by_id(tag_views(records@))),
            ),
        ),
        Some(TagRegistrySnapshot::Flat(pairs)) => flat_tags(flat_entries(pair_views(pairs@))),
    }
}

/// The tags by id hold the ids of the records, each with its last record.
proof fn lemma_tags_by_id(records: Seq<TagView>)
    ensures
        forall|id: u32|
            tags_by_id(records).contains_key(id) <==> exists|k: int|
                0 <= k < records.len() && (#[trigger] records[k]).id == id,
        forall|k: int|
            0 <= k < records.len() && (forall|j: int|
                k < j < records.len() ==> (#[trigger] records[j]).id != records[k].id)
                ==> tags_by_id(records)[(#[trigger] records[k]).id] == colored(records[k]),
    decreases records.len(),
{
    if records.len() > 0 {
        let before = records.drop_last();
        lemma_tags_by_id(before);
        assert forall|id: u32| tags_by_id(records).contains_key(id) <==> exists|k: int|
            0 <= k < records.len() && (#[trigger] records[k]).id == id by {
            if tags_by_id(records).contains_key(id) {
                if id == records.last().id {
                    assert(records[records.len() - 1].id == id);
                } else {
                    let k = choose|k: int| 0 <= k < before.len() && (#[trigger] before[k]).id == id;
                    assert(records[k].id == id);
                }
            }
            if exists|k: int| 0 <= k < records.len() && (#[trigger] records[k]).id == id {
                let k = choose|k: int| 0 <= k < records.len() && (#[trigger] records[k]).id == id;
                if k < before.len() {
                    assert(before[k].id == id);
                }
            }
        }
        assert forall|k: int|
            0 <= k < records.len() && (forall|j: int|
                k < j < records.len() ==> (#[trigger] records[j]).id
                    != records[k].id) implies tags_by_id(records)[(#[trigger] records[k]).id]
            == colored(records[k]) by {
            if k < before.len() {
                assert(records[records.len() - 1].id != records[k].id);
                assert(before[k] == records[k]);
                assert forall|j: int| k < j < before.len() implies (#[trigger] before[j]).id
                    != before[k].id by {
                    assert(records[j].id != records[k].id);
                }
            }
        }
    }
}

/// Loading the tags that a registry exports gives its tags back: a saved
/// timeline is loaded with the tags that it had.
pub proof fn lemma_export_reloads(tags: TagMap, records: Seq<TagView>)
    requires
        is_export(tags, records),
        forall|id: u32| tags.contains_key(id) ==> (#[trigger] tags[id]).color is Some,
    ensures
        tags_by_id(records) == tags,
{
    lemma_tags_by_id(records);
    let loaded = tags_by_id(records);
    assert forall|id: u32| loaded.contains_key(id) <==> tags.contains_key(id) by {
        if loaded.contains_key(id) {
            let k = choose|k: int| 0 <= k < records.len() && (#[trigger] records[k]).id == id;
            assert(tags.contains_key(records[k].id));
        }
    }
    assert forall|id: u32| loaded.contains_key(id) implies loaded[id] == tags[id] by {
        let k = choose|k: int| 0 <= k < records.len() && (#[trigger] records[k]).id == id;
        assert forall|j: int| k < j < records.len() implies (#[trigger] records[j]).id
            != records[k].id by {
            assert(records[k].id < records[j].id);
        }
        assert(loaded[records[k].id] == colored(records[k]));
        assert(records[k] == tags[id]);
    }
    assert(loaded =~= tags);
}

/// A snapshot loads alike in both forms: the records that a registry of
/// tags such as interning makes them exports, and the flat form of those
/// tags, stand for the same tags and the same next id to try.
pub proof fn lemma_both_forms_load_alike(
    tags: TagMap,
    records: Seq<TagView>,
    entries: Seq<FlatEntry>,
)
    requires
        crate::legacy::is_canonical(tags),
        is_export(tags, records),
        crate::legacy::is_flat_form_of(entries, tags),
    ensures
        flat_tags(entries) == Some((tags_by_id(records), next_id_for(tags_by_id(records)))),
{
    lemma_export_reloads(tags, records);
    crate::legacy::lemma_flat_form_loads(tags, entries);
}

/// A snapshot whose flat form leaves tags out names what it records as the
/// records do: where the records give the id of an entry the name of that
/// entry, in its normal form, as its full name, the flat form gives it the
/// same. The entry is one whose name has a segment and that no entry of
/// the same name with a lesser id comes before.
pub proof fn lemma_both_forms_name_alike(
    records: Seq<TagView>,
    entries: Seq<FlatEntry>,
    at: int,
)
    requires
        crate::legacy::has_distinct_ids(entries),
        0 <= at < entries.len(),
        path_segments(entries[at].1).len() > 0,
        forall|k: int|
            0 <= k < entries.len() && normalized_path((#[trigger] entries[k]).1) == normalized_path(
                entries[at].1,
            ) ==> entries[at].0 <= entries[k].0,
        flat_tags(entries) is Some,
        full_name_of(tags_by_id(records), entries[at].0) == Some(normalized_path(entries[at].1)),
    ensures
        full_name_of(crate::legacy::tags_of(flat_tags(entries)), entries[at].0) == full_name_of(
            tags_by_id(records),
            entries[at].0,
        ),
{
    crate::legacy::lemma_flat_form_keeps_ids(entries, at);
}

/// Reads an id written in decimal, behind a `+` or not.
pub fn parse_id(text: &str) -> (id: Option<u32>)
    ensures
        id == parsed_id(text@),
{
    let chars = chars_of(text);
    let start: usize = if chars.len() > 0 && chars[0] == '+' {
        1
    } else {
        0
    };
    let ghost digits = chars@.skip(start as int);
    assert(digits =~= if text@.len() > 0 && text@[0] == '+' {
        text@.drop_first()
    } else {
        text@
    });
    if start == chars.len() {
        return None;
    }
    let mut value: u64 = 0;
    let mut i: usize = start;
    while i < chars.len()
        invariant
            start <= i <= chars.len(),
            start < chars.len(),
            digits == chars@.skip(start as int),
            digits == (if text@.len() > 0 && text@[0] == '+' {
                text@.drop_first()
            } else {
                text@
            }),
            value <= 0x1_0000_0000,
            i > start ==> digits_value(digits.take(i - start)) is Some && value == (if digits_value(
                digits.take(i - start),
            )->0 <= u32::MAX {
                digits_value(digits.take(i - start))->0
            } else {
                0x1_0000_0000
            }),
            i == start ==> value == 0,
        decreases chars.len() - i,
    {
        let c = chars[i];
        let ghost upto = digits.take(i + 1 - start);
        assert(upto.drop_last() =~= digits.take(i - start));
        assert(upto.last() == c);
        let code: u32 = c as u32;
        if !(0x30 <= code && code <= 0x39) {
            proof {
                lemma_digits_need_digits(digits, i + 1 - start);
            }
            return None;
        }
        let digit: u64 = (code - 0x30) as u64;
        value = value * 10 + digit;
        if value > 0xFFFF_FFFF {
            value = 0x1_0000_0000;
        }
        i = i + 1;
    }
    assert(digits.take(i - start) =~= digits);
    if value > 0xFFFF_FFFF {
        None
    } else {
        Some(value as u32)
    }
}

/// Digits spell a number only where every prefix of them does.
proof fn lemma_digits_need_digits(digits: Seq<char>, upto: int)
    requires
        0 < upto <= digits.len(),
        digits_value(digits.take(upto)) is None,
    ensures
        digits_value(digits) is None,
    decreases digits.len() - upto,
{
    if upto < digits.len() {
        assert(digits.take(upto + 1).drop_last() =~= digits.take(upto));
        lemma_digits_need_digits(digits, upto + 1);
    } else {
        assert(digits.take(upto) =~= digits);
    }
}

/// Where the entry of an id is found, it is the first of that id from
/// `from` on; where none is found, there is none.
proof fn lemma_entry_index(entries: Seq<FlatEntry>, id: u32, from: int)
    requires
        0 <= from,
    ensures
        match entry_index(entries, id, from) {
            Some(at) => from <= at < entries.len() && entries[at].0 == id,
            None => forall|k: int| from <= k < entries.len() ==> (#[trigger] entries[k]).0 != id,
        },
    decreases entries.len() - from,
{
    if from < entries.len() && entries[from].0 != id {
        lemma_entry_index(entries, id, from + 1);
    }
}

/// Of the entries that are read of the flat form, no two have one id.
pub proof fn lemma_flat_entries_distinct(raw: Seq<(Seq<char>, Seq<char>)>)
    ensures
        crate::legacy::has_distinct_ids(flat_entries(raw)),
    decreases raw.len(),
{
    if raw.len() > 0 {
        let before = flat_entries(raw.drop_last());
        lemma_flat_entries_distinct(raw.drop_last());
        match parsed_id(raw.last().0) {
            None => {},
            Some(id) => {
                lemma_entry_index(before, id, 0);
                let after = flat_entries(raw);
                assert forall|i: int, j: int|
                    0 <= i < after.len() && 0 <= j < after.len() && i != j implies (
                #[trigger] after[i]).0 != (#[trigger] after[j]).0 by {
                    match entry_index(before, id, 0) {
                        Some(at) => {
                            assert(after[i].0 == before[i].0);
                            assert(after[j].0 == before[j].0);
                        },
                        None => {
                            if i < before.len() {
                                assert(after[i] == before[i]);
                            }
                            if j < before.len() {
                                assert(after[j] == before[j]);
                            }
                        },
                    }
                }
            },
        }
    }
}

/// Reads the flat form: keeps the entries whose id can be read; of two
/// entries with one id the later one takes the place of the earlier.
pub fn read_flat_entries(pairs: &Vec<(String, String)>) -> (entries: Vec<(u32, String)>)
    ensures
        entry_views(entries@) == flat_entries(pair_views(pairs@)),
        crate::legacy::has_distinct_ids(entry_views(entries@)),
{
    proof {
        lemma_flat_entries_distinct(pair_views(pairs@));
    }
    let mut entries: Vec<(u32, String)> = Vec::new();
    let mut i: usize = 0;
    assert(pair_views(pairs@).take(0) =~= Seq::<(Seq<char>, Seq<char>)>::empty());
    while i < pairs.len()
        invariant
            i <= pairs.len(),
            entry_views(entries@) == flat_entries(pair_views(pairs@).take(i as int)),
        decreases pairs.len() - i,
    {
        proof {
            let upto = pair_views(pairs@).take(i + 1);
            assert(upto.drop_last() =~= pair_views(pairs@).take(i as int));
            assert(upto.last() == (pairs@[i as int].0@, pairs@[i as int].1@));
        }
        match parse_id(pairs[i].0.as_str()) {
            Some(id) => {
                let ghost before = entry_views(entries@);
                let mut at: usize = 0;
                while at < entries.len() && entries[at].0 != id
                    invariant
                        at <= entries.len(),
                        before == entry_views(entries@),
                        entry_index(before, id, 0) == entry_index(before, id, at as int),
                    decreases entries.len() - at,
                {
                    assert(before[at as int].0 == entries@[at as int].0);
                    at = at + 1;
                }
                let path = pairs[i].1.clone();
                if at < entries.len() {
                    assert(before[at as int].0 == entries@[at as int].0);
                    entries.set(at, (id, path));
                    assert(entry_views(entries@) =~= before.update(
                        at as int,
                        (id, pairs@[i as int].1@),
                    ));
                } else {
                    entries.push((id, path));
                    assert(entry_views(entries@) =~= before.push((id, pairs@[i as int].1@)));
                }
            },
            None => {},
        }
        i = i + 1;
    }
    assert(pair_views(pairs@).take(i as int) =~= pair_views(pairs@));
    entries
}

impl Timeline {
    /// Makes the snapshot of the timeline: its version, its blocks, and its
    /// tags as records in the order of the ids; no tags at all where the
    /// registry is empty.
    ///
    /// Loading the snapshot gives the version, the blocks and the tags back.
    pub fn to_snapshot(&self) -> (snapshot: TimelineSnapshot)
        requires
            self.wf(),
        ensures
            snapshot.version == self.spec_version(),
            block_views(snapshot.blocks@) == self.blocks(),
            self.tags().len() == 0 <==> snapshot.tag_registry is None,
            snapshot.tag_registry matches Some(tags) ==> (tags matches TagRegistrySnapshot::Hierarchical(
                records,
            ) && is_export(self.tags(), tag_views(records@))),
            loaded_tags(snapshot.tag_registry) matches Some(loaded) && loaded.0 == self.tags(),
    {
        let exported = self.tag_registry().export();
        proof {
            self.spec_tag_registry().lemma_wf();
            lemma_export_reloads(self.tags(), tag_views(exported@));
            if exported@.len() == 0 {
                assert(self.tags() =~= TagMap::empty());
            }
        }
        let tag_registry = if exported.len() == 0 {
            None
        } else {
            Some(TagRegistrySnapshot::Hierarchical(exported))
        };
        TimelineSnapshot { version: self.version(), blocks: self.items(), tag_registry }
    }

    /// Makes the timeline that a snapshot stands for. Tags without a colour
    /// get that of the palette for their id. Returns `None` only where the
    /// tags come in the flat form and the ids run out.
    pub fn from_snapshot(snapshot: TimelineSnapshot) -> (timeline: Option<Timeline>)
        ensures
            match timeline {
                Some(loaded) => loaded.wf() && loaded.spec_version() == snapshot.version
                    && loaded.blocks() == block_views(snapshot.blocks@) && loaded_tags(
                    snapshot.tag_registry,
                ) == Some((loaded.tags(), loaded.spec_tag_registry().next_id())),
                None => loaded_tags(snapshot.tag_registry) is None,
            },
    {
        let registry = match snapshot.tag_registry {
            Some(TagRegistrySnapshot::Hierarchical(tags)) => TagRegistry::from_tags(tags),
            Some(TagRegistrySnapshot::Flat(pairs)) => {
                let entries = read_flat_entries(&pairs);
                match TagRegistry::from_map(entries) {
                    Some(registry) => registry,
                    None => {
                        return None;
                    },
                }
            },
            None => TagRegistry::new(),
        };
        Some(Timeline::from_parts(snapshot.blocks, snapshot.version, registry))
    }
}

} // verus!
