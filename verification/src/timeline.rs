//! The timeline: the document with its tag registry and its version.
//!
//! Every edit names the version that it was made against and is refused
//! where that is not the current one.

use crate::api::{DocumentSnapshot, TextOperation};
use crate::block::{
    block_views, chars_before, chars_through, content_of, lemma_chars_before_step, BlockView,
};
use crate::date::Date;
use crate::registry::{
    descriptor_of, descriptor_views, full_name_of, is_forest, is_match, is_suggestion, name_among,
    has_room_for, named, normalized_path, normalized_query, optional_view, path_interned,
    path_segments,
    shown_name, sort_by_name, DescriptorView, NameMatch, TagMap,
};
use crate::text::{
    decimal_digits, lex_less, push_decimal, strip_leading, trim, trimmed, views_of,
    without_leading,
};
use crate::rope::ops_outcome;
use crate::summary::{capped, lemma_summary_facts, summary_of};
use crate::tree::BlockTree;
use vstd::prelude::*;

pub use crate::block::TaggedBlock;
pub use crate::registry::{Tag, TagDescriptor, TagRegistry, TagSuggestion};
pub use crate::rope::{ApplyOpsError, EditableTimeline};
pub use crate::summary::{Chars, TimelineSummary};

verus! {

/// Where a block stands in the document, with its tags.
#[derive(Clone, Debug, PartialEq, Eq)]
pub struct BlockMetadata {
    pub index: u32,
    pub start_offset: u32,
    pub end_offset: u32,
    pub tags: Vec<u32>,
}

/// Why a tag string was refused.
#[derive(Debug, Clone, Copy, PartialEq, Eq, Structural)]
pub enum InternTagError {
    /// The string is empty or white space.
    Empty,
    /// The string names no segment.
    Invalid,
    /// The tag with this id has no full name.
    MissingName(u32),
}

/// Why tags were not assigned to a block.
#[derive(Debug, Clone, Copy, PartialEq, Eq, Structural)]
pub enum AssignBlockTagsError {
    /// The document has no block at this index.
    InvalidBlock { index: usize },
    /// One of the tag strings was refused.
    Intern(InternTagError),
}

impl InternTagError {
    /// The error in words.
    pub open spec fn message_text(self) -> Seq<char> {
        match self {
            InternTagError::Empty => "tag name cannot be empty"@,
            InternTagError::Invalid => "tag must contain at least one valid segment"@,
            InternTagError::MissingName(id) => {
                "failed to resolve canonical name for tag id "@ + decimal_digits(id as nat)
            },
        }
    }

    /// Returns the error in words.
    pub fn message(&self) -> (text: String)
        ensures
            text@ == self.message_text(),
    {
        match self {
            InternTagError::Empty => String::from_str("tag name cannot be empty"),
            InternTagError::Invalid => String::from_str(
                "tag must contain at least one valid segment",
            ),
            InternTagError::MissingName(id) => {
                let mut text = String::from_str("failed to resolve canonical name for tag id ");
                push_decimal(&mut text, *id as u64);
                text
            },
        }
    }
}

impl AssignBlockTagsError {
    /// The error in words.
    pub open spec fn message_text(self) -> Seq<char> {
        match self {
            AssignBlockTagsError::InvalidBlock { index } => {
                "block index "@ + decimal_digits(index as nat) + " out of range"@
            },
            AssignBlockTagsError::Intern(error) => error.message_text(),
        }
    }

    /// Returns the error in words.
    pub fn message(&self) -> (text: String)
        ensures
            text@ == self.message_text(),
    {
        match self {
            AssignBlockTagsError::InvalidBlock { index } => {
                let mut text = String::from_str("block index ");
                push_decimal(&mut text, *index as u64);
                text.append(" out of range");
                text
            },
            AssignBlockTagsError::Intern(error) => error.message(),
        }
    }
}

/// The document, its tag registry and its version.
#[derive(Clone, Debug)]
pub struct Timeline {
    tree: BlockTree,
    version: u64,
    tag_registry: TagRegistry,
}

/// `n`, or `u32::MAX` where `n` is larger.
pub open spec fn capped_u32(n: nat) -> nat {
    if n <= u32::MAX {
        n
    } else {
        u32::MAX as nat
    }
}

/// The texts of the blocks that have the date `date`, one after the other.
pub open spec fn day_content(blocks: Seq<BlockView>, date: Date) -> Seq<char>
    decreases blocks.len(),
{
    if blocks.len() == 0 {
        Seq::<char>::empty()
    } else if blocks.last().date == date {
        day_content(blocks.drop_last(), date) + blocks.last().text
    } else {
        day_content(blocks.drop_last(), date)
    }
}

/// Whether a block of these tags has one of the ids `wanted`.
pub open spec fn shares_tag(tags: Seq<u32>, wanted: Seq<u32>) -> bool {
    exists|slot: int| 0 <= slot < tags.len() && wanted.contains(#[trigger] tags[slot])
}

/// What an edit request does to a document of the given blocks and version:
/// the blocks and the version afterwards, and the answer.
///
/// A request against another version than the current one changes nothing.
/// An empty request changes nothing either and answers with the current
/// version. Else the operations are applied in order; the version grows by
/// one where all were accepted, and stays where one was refused, though the
/// operations before that one stay applied.
pub open spec fn edit_outcome(
    blocks: Seq<BlockView>,
    version: u64,
    base_version: u64,
    ops: Seq<TextOperation>,
    today: Date,
) -> (Seq<BlockView>, u64, Result<u64, ApplyOpsError>) {
    if base_version != version {
        (
            blocks,
            version,
            Err(ApplyOpsError::VersionMismatch { expected: version, actual: base_version }),
        )
    } else if ops.len() == 0 {
        (blocks, version, Ok(version))
    } else {
        match ops_outcome(blocks, ops, today).1 {
            None => (
                ops_outcome(blocks, ops, today).0,
                (version + 1) as u64,
                Ok((version + 1) as u64),
            ),
            Some(error) => (ops_outcome(blocks, ops, today).0, version, Err(error)),
        }
    }
}

/// The path that a tag string names: the string trimmed, without the `#`s
/// that it starts with, and trimmed again.
pub open spec fn tag_path(raw: Seq<char>) -> Seq<char> {
    trimmed(without_leading(trimmed(raw), '#'))
}

/// What interning a tag string does to the tags and the next id to try, and
/// the answer: the descriptor of the tag named, or why the string was
/// refused.
pub open spec fn intern_tag_outcome(tags: TagMap, next_id: u32, raw: Seq<char>) -> (
    TagMap,
    u32,
    Result<DescriptorView, InternTagError>,
) {
    if trimmed(raw).len() == 0 {
        (tags, next_id, Err(InternTagError::Empty))
    } else if tag_path(raw).len() == 0 {
        (tags, next_id, Err(InternTagError::Invalid))
    } else {
        let after = path_interned(tags, next_id, None, path_segments(tag_path(raw)));
        match after.2 {
            None => (after.0, after.1, Err(InternTagError::Invalid)),
            Some(id) => if full_name_of(after.0, id) is Some {
                (after.0, after.1, Ok(descriptor_of(after.0, id)))
            } else {
                (after.0, after.1, Err(InternTagError::MissingName(id)))
            },
        }
    }
}

/// What interning tag strings one after the other does, up to the first
/// that is refused: the tags and the next id to try afterwards, and the
/// descriptors of the tags named, or why a string was refused.
pub open spec fn tags_interned(tags: TagMap, next_id: u32, raws: Seq<Seq<char>>) -> (
    TagMap,
    u32,
    Result<Seq<DescriptorView>, InternTagError>,
)
    decreases raws.len(),
{
    if raws.len() == 0 {
        (tags, next_id, Ok(Seq::<DescriptorView>::empty()))
    } else {
        let first = intern_tag_outcome(tags, next_id, raws[0]);
        match first.2 {
            Err(error) => (first.0, first.1, Err(error)),
            Ok(descriptor) => {
                let rest = tags_interned(first.0, first.1, raws.drop_first());
                (
                    rest.0,
                    rest.1,
                    match rest.2 {
                        Ok(descriptors) => Ok(seq![descriptor] + descriptors),
                        Err(error) => Err(error),
                    },
                )
            },
        }
    }
}

/// `rest` with the descriptors `found` put before those that it holds.
pub open spec fn descriptors_then(
    found: Seq<DescriptorView>,
    rest: (TagMap, u32, Result<Seq<DescriptorView>, InternTagError>),
) -> (TagMap, u32, Result<Seq<DescriptorView>, InternTagError>) {
    (
        rest.0,
        rest.1,
        match rest.2 {
            Ok(descriptors) => Ok(found + descriptors),
            Err(error) => Err(error),
        },
    )
}

/// Whether the tags that the strings name can be interned one after the
/// other: each has room, as long as none before it was refused.
pub open spec fn have_room_for(tags: TagMap, next_id: u32, raws: Seq<Seq<char>>) -> bool
    decreases raws.len(),
{
    if raws.len() == 0 {
        true
    } else {
        let first = intern_tag_outcome(tags, next_id, raws[0]);
        has_room_for(tags, next_id, None, path_segments(tag_path(raws[0]))) && (first.2 is Ok
            ==> have_room_for(first.0, first.1, raws.drop_first()))
    }
}

/// The number of characters of all strings, and one more for each string.
pub open spec fn total_text(raws: Seq<Seq<char>>) -> nat
    decreases raws.len(),
{
    if raws.len() == 0 {
        0
    } else {
        raws[0].len() + 1 + total_text(raws.drop_first())
    }
}

/// A tag string names no more segments than it has characters, and one.
pub proof fn lemma_tag_segments(raw: Seq<char>)
    ensures
        path_segments(tag_path(raw)).len() <= raw.len() + 1,
{
    crate::text::lemma_trimmed_len(raw);
    crate::text::lemma_trimmed_len(trimmed(raw));
    crate::text::lemma_trimmed_len(without_leading(trimmed(raw), '#'));
    crate::text::lemma_split_len(tag_path(raw), ':');
    crate::registry::lemma_kept_len(crate::text::split_on(tag_path(raw), ':'));
}

/// The tag that a string names can be interned where an id is left for
/// each character of the string, and one more.
pub proof fn lemma_room_for_tag(tags: TagMap, next_id: u32, raw: Seq<char>)
    requires
        tags.dom().finite(),
        tags.len() + raw.len() + 1 <= u32::MAX,
    ensures
        has_room_for(tags, next_id, None, path_segments(tag_path(raw))),
        intern_tag_outcome(tags, next_id, raw).0.dom().finite(),
        intern_tag_outcome(tags, next_id, raw).0.len() <= tags.len() + raw.len() + 1,
{
    lemma_tag_segments(raw);
    crate::registry::lemma_room_for_path(tags, next_id, None, path_segments(tag_path(raw)));
    crate::registry::lemma_path_submap(tags, next_id, None, path_segments(tag_path(raw)));
}

/// The tags that strings name can be interned where an id is left for each
/// character of the strings, and one more for each string.
pub proof fn lemma_room_for_tags(tags: TagMap, next_id: u32, raws: Seq<Seq<char>>)
    requires
        tags.dom().finite(),
        tags.len() + total_text(raws) <= u32::MAX,
    ensures
        have_room_for(tags, next_id, raws),
    decreases raws.len(),
{
    if raws.len() > 0 {
        lemma_room_for_tag(tags, next_id, raws[0]);
        let first = intern_tag_outcome(tags, next_id, raws[0]);
        lemma_room_for_tags(first.0, first.1, raws.drop_first());
    }
}

/// The answer of `intern_tag`, as mathematical values.
pub open spec fn descriptor_result(result: Result<TagDescriptor, InternTagError>) -> Result<
    DescriptorView,
    InternTagError,
> {
    match result {
        Ok(descriptor) => Ok(descriptor@),
        Err(error) => Err(error),
    }
}

/// `block` with the tags `tags` in place of its own.
pub open spec fn retagged(block: BlockView, tags: Seq<u32>) -> BlockView {
    BlockView { date: block.date, text: block.text, tags: tags }
}

/// Whether a descriptor of this kind describes a tag of `tags` that has a
/// full name.
pub open spec fn describes(tags: TagMap, descriptor: DescriptorView) -> bool {
    tags.contains_key(descriptor.id) && full_name_of(tags, descriptor.id) is Some && descriptor
        == descriptor_of(tags, descriptor.id)
}

/// The ids of descriptors, in order.
pub open spec fn descriptor_ids(descriptors: Seq<DescriptorView>) -> Seq<u32> {
    descriptors.map_values(|descriptor: DescriptorView| descriptor.id)
}

/// Every block has a date between the first and the last date of the summary.
pub proof fn lemma_summary_bounds_dates(blocks: Seq<BlockView>, index: int)
    requires
        0 <= index < blocks.len(),
    ensures
        summary_of(blocks).min_date is Some,
        summary_of(blocks).max_date is Some,
        !blocks[index].date.is_before(summary_of(blocks).min_date->0),
        !summary_of(blocks).max_date->0.is_before(blocks[index].date),
    decreases blocks.len(),
{
    lemma_summary_facts(blocks);
    lemma_summary_facts(blocks.drop_last());
    if index < blocks.len() - 1 {
        lemma_summary_bounds_dates(blocks.drop_last(), index);
    }
}

/// No block has a date that lies before the first date of the summary or
/// behind the last, so no text stands under such a date.
pub proof fn lemma_day_content_outside(blocks: Seq<BlockView>, date: Date)
    requires
        blocks.len() > 0,
        date.is_before(summary_of(blocks).min_date->0) || summary_of(
            blocks,
        ).max_date->0.is_before(date),
    ensures
        day_content(blocks, date) == Seq::<char>::empty(),
{
    lemma_no_day_content(blocks, date, blocks.len() as int);
    assert(blocks.take(blocks.len() as int) =~= blocks);
}

/// Where none of the first `upto` blocks has the date, no text stands
/// under it among them.
proof fn lemma_no_day_content(blocks: Seq<BlockView>, date: Date, upto: int)
    requires
        0 <= upto <= blocks.len(),
        blocks.len() > 0,
        date.is_before(summary_of(blocks).min_date->0) || summary_of(
            blocks,
        ).max_date->0.is_before(date),
    ensures
        day_content(blocks.take(upto), date) == Seq::<char>::empty(),
    decreases upto,
{
    if upto > 0 {
        lemma_no_day_content(blocks, date, upto - 1);
        lemma_summary_bounds_dates(blocks, upto - 1);
        assert(blocks.take(upto).drop_last() =~= blocks.take(upto - 1));
        assert(blocks.take(upto).last() == blocks[upto - 1]);
    }
}

/// Tests whether `ids` holds `id`.
fn holds_id(ids: &[u32], id: u32) -> (found: bool)
    ensures
        found == ids@.contains(id),
{
    let mut i: usize = 0;
    while i < ids.len()
        invariant
            i <= ids.len(),
            forall|j: int| 0 <= j < i ==> ids@[j] != id,
        decreases ids.len() - i,
    {
        if ids[i] == id {
            return true;
        }
        i = i + 1;
    }
    false
}

/// Tests whether a block of these tags has one of the ids `wanted`.
fn has_shared_tag(tags: &Vec<u32>, wanted: &[u32]) -> (found: bool)
    ensures
        found == shares_tag(tags@, wanted@),
{
    let mut i: usize = 0;
    while i < tags.len()
        invariant
            i <= tags.len(),
            forall|j: int| 0 <= j < i ==> !wanted@.contains(#[trigger] tags@[j]),
        decreases tags.len() - i,
    {
        if holds_id(wanted, tags[i]) {
            return true;
        }
        i = i + 1;
    }
    false
}

impl Timeline {
    /// The blocks of the document.
    pub closed spec fn blocks(&self) -> Seq<BlockView> {
        self.tree@
    }

    /// The version of the document.
    pub closed spec fn spec_version(&self) -> u64 {
        self.version
    }

    /// The tag registry.
    pub closed spec fn spec_tag_registry(&self) -> TagRegistry {
        self.tag_registry
    }

    /// The tags of the registry, by id.
    pub open spec fn tags(&self) -> TagMap {
        self.spec_tag_registry()@
    }

    /// Whether the timeline is consistent: its registry is.
    pub open spec fn wf(&self) -> bool {
        self.spec_tag_registry().wf()
    }

    /// Makes a timeline of the given blocks and registry, at the given
    /// version.
    pub fn from_parts(blocks: Vec<TaggedBlock>, version: u64, tag_registry: TagRegistry) -> (timeline:
        Timeline)
        ensures
            timeline.blocks() == block_views(blocks@),
            timeline.spec_version() == version,
            timeline.spec_tag_registry() == tag_registry,
    {
        Timeline { tree: BlockTree::from_blocks(blocks), version, tag_registry }
    }

    /// Returns the version: the number of edits accepted so far.
    #[verifier::when_used_as_spec(spec_version)]
    pub fn version(&self) -> (version: u64)
        ensures
            version == self.spec_version(),
    {
        self.version
    }

    /// Returns the summary of all blocks: their bytes, characters and
    /// number, as far as a count goes, their first and last date in that
    /// order, and a filter in which every tag of every block tests positive.
    pub fn summary(&self) -> (summary: &TimelineSummary)
        ensures
            summary.is_wf(),
            summary@ == summary_of(self.blocks()),
            summary@.chars == capped(crate::block::total_chars(self.blocks())),
            summary@.bytes == capped(crate::block::total_bytes(self.blocks())),
            summary@.blocks == capped(self.blocks().len()),
            summary@.dates_ordered(),
            forall|index: int, slot: int|
                0 <= index < self.blocks().len() && 0 <= slot < self.blocks()[index].tags.len()
                    ==> crate::tag_filter::tests_positive(
                    crate::tag_filter::filter_bytes(summary.tags_filter),
                    #[trigger] self.blocks()[index].tags[slot],
                ),
    {
        let summary = self.tree.summary();
        proof {
            lemma_summary_facts(self.blocks());
            assert forall|index: int, slot: int|
                0 <= index < self.blocks().len() && 0 <= slot < self.blocks()[index].tags.len() implies crate::tag_filter::tests_positive(
                crate::tag_filter::filter_bytes(summary.tags_filter),
                #[trigger] self.blocks()[index].tags[slot],
            ) by {
                crate::summary::lemma_summary_holds_tags(self.blocks(), index, slot);
            }
        }
        summary
    }

    /// Returns the number of blocks, as far as a count goes.
    pub fn entry_count(&self) -> (count: usize)
        ensures
            count == capped(self.blocks().len()),
    {
        self.summary().entry_count
    }

    /// Lends the tag registry.
    pub fn tag_registry(&self) -> (registry: &TagRegistry)
        ensures
            *registry == self.spec_tag_registry(),
    {
        &self.tag_registry
    }

    /// Returns the blocks, in order.
    pub fn items(&self) -> (blocks: Vec<TaggedBlock>)
        ensures
            block_views(blocks@) == self.blocks(),
    {
        self.tree.items()
    }

    /// Returns the text of the document: the texts of its blocks, in order.
    pub fn content(&self) -> (text: String)
        ensures
            text@ == content_of(self.blocks()),
    {
        let blocks = self.tree.items();
        let mut text = String::new();
        let mut i: usize = 0;
        assert(block_views(blocks@).take(0) =~= Seq::<BlockView>::empty());
        while i < blocks.len()
            invariant
                i <= blocks.len(),
                text@ == content_of(block_views(blocks@).take(i as int)),
            decreases blocks.len() - i,
        {
            proof {
                lemma_chars_before_step(block_views(blocks@), i as int);
            }
            text.append(blocks[i].text.as_str());
            i = i + 1;
        }
        assert(block_views(blocks@).take(i as int) =~= block_views(blocks@));
        text
    }

    /// Returns the text of the document with the version that it has.
    pub fn document_snapshot(&self) -> (document: DocumentSnapshot)
        ensures
            document.content@ == content_of(self.blocks()),
            document.version == self.spec_version(),
    {
        DocumentSnapshot { content: self.content(), version: self.version }
    }

    /// Returns the texts of the blocks of the given date, one after the
    /// other, or `None` where no text stands under that date.
    pub fn log_for_date(&self, date: Date) -> (text: Option<String>)
        ensures
            match text {
                Some(found) => found@ == day_content(self.blocks(), date) && found@.len() > 0,
                None => day_content(self.blocks(), date).len() == 0,
            },
    {
        let summary = self.summary();
        proof {
            lemma_summary_facts(self.blocks());
        }
        let min_date = match summary.min_date {
            Some(date) => date,
            None => {
                return None;
            },
        };
        let max_date = match summary.max_date {
            Some(date) => date,
            None => {
                return None;
            },
        };
        if date.precedes(&min_date) || max_date.precedes(&date) {
            proof {
                lemma_day_content_outside(self.blocks(), date);
            }
            return None;
        }
        let blocks = self.tree.items();
        let mut content = String::new();
        let mut i: usize = 0;
        assert(block_views(blocks@).take(0) =~= Seq::<BlockView>::empty());
        while i < blocks.len()
            invariant
                i <= blocks.len(),
                content@ == day_content(block_views(blocks@).take(i as int), date),
            decreases blocks.len() - i,
        {
            proof {
                let upto = block_views(blocks@).take(i + 1);
                assert(upto.drop_last() =~= block_views(blocks@).take(i as int));
                assert(upto.last() == blocks@[i as int]@);
            }
            if blocks[i].date == date {
                content.append(blocks[i].text.as_str());
            }
            i = i + 1;
        }
        assert(block_views(blocks@).take(i as int) =~= block_views(blocks@));
        if content.as_str().is_empty() {
            None
        } else {
            Some(content)
        }
    }

    /// Returns the indices of the blocks that have one of the given tags,
    /// in ascending order. Indices beyond `u32::MAX` are left out.
    pub fn block_ids_with_tags(&self, tag_ids: &[u32]) -> (indices: Vec<u32>)
        ensures
            forall|i: int, j: int| 0 <= i < j < indices@.len() ==> indices@[i] < indices@[j],
            forall|index: u32|
                indices@.contains(index) <==> index < self.blocks().len() && shares_tag(
                    self.blocks()[index as int].tags,
                    tag_ids@,
                ),
    {
        let mut indices: Vec<u32> = Vec::new();
        if tag_ids.len() == 0 {
            return indices;
        }
        let blocks = self.tree.items();
        let mut i: usize = 0;
        while i < blocks.len() && i <= 0xFFFF_FFFF
            invariant
                i <= blocks.len(),
                i <= 0x1_0000_0000,
                block_views(blocks@) == self.blocks(),
                forall|a: int, b: int| 0 <= a < b < indices@.len() ==> indices@[a] < indices@[b],
                forall|k: int| 0 <= k < indices@.len() ==> indices@[k] < i,
                forall|index: u32|
                    indices@.contains(index) <==> index < i && shares_tag(
                        self.blocks()[index as int].tags,
                        tag_ids@,
                    ),
            decreases blocks.len() - i,
        {
            assert(self.blocks()[i as int] == blocks@[i as int]@);
            let ghost before = indices@;
            if has_shared_tag(&blocks[i].tags, tag_ids) {
                indices.push(i as u32);
                proof {
                    assert forall|index: u32|
                        indices@.contains(index) <==> index < i + 1 && shares_tag(
                            self.blocks()[index as int].tags,
                            tag_ids@,
                        ) by {
                        vstd::seq_lib::lemma_seq_contains_after_push(before, i as u32, index);
                    }
                }
            }
            i = i + 1;
        }
        indices
    }

    /// Lists every block with its index, the character offsets at which it
    /// starts and ends, and its tags. Index and offsets stop at `u32::MAX`.
    pub fn list_blocks(&self) -> (metadata: Vec<BlockMetadata>)
        ensures
            metadata@.len() == self.blocks().len(),
            forall|k: int|
                0 <= k < metadata@.len() ==> {
                    &&& (#[trigger] metadata@[k]).index == capped_u32(k as nat)
                    &&& metadata@[k].start_offset == capped_u32(chars_before(self.blocks(), k))
                    &&& metadata@[k].end_offset == capped_u32(chars_through(self.blocks(), k))
                    &&& metadata@[k].tags@ == self.blocks()[k].tags
                },
    {
        let blocks = self.tree.items();
        let mut metadata: Vec<BlockMetadata> = Vec::new();
        let mut offset: u32 = 0;
        let mut i: usize = 0;
        assert(self.blocks().take(0) =~= Seq::<BlockView>::empty());
        while i < blocks.len()
            invariant
                i <= blocks.len(),
                block_views(blocks@) == self.blocks(),
                metadata@.len() == i,
                offset == capped_u32(chars_before(self.blocks(), i as int)),
                forall|k: int|
                    0 <= k < metadata@.len() ==> {
                        &&& (#[trigger] metadata@[k]).index == capped_u32(k as nat)
                        &&& metadata@[k].start_offset == capped_u32(
                            chars_before(self.blocks(), k),
                        )
                        &&& metadata@[k].end_offset == capped_u32(
                            chars_through(self.blocks(), k),
                        )
                        &&& metadata@[k].tags@ == self.blocks()[k].tags
                    },
            decreases blocks.len() - i,
        {
            proof {
                lemma_chars_before_step(self.blocks(), i as int);
                assert(self.blocks()[i as int] == blocks@[i as int]@);
            }
            let count = blocks[i].char_count();
            let char_count: u32 = if count <= 0xFFFF_FFFF {
                count as u32
            } else {
                u32::MAX
            };
            let start = offset;
            let end = offset.saturating_add(char_count);
            let index: u32 = if i <= 0xFFFF_FFFF {
                i as u32
            } else {
                u32::MAX
            };
            metadata.push(
                BlockMetadata {
                    index,
                    start_offset: start,
                    end_offset: end,
                    tags: blocks[i].tags.clone(),
                },
            );
            offset = end;
            i = i + 1;
        }
        metadata
    }

    /// Applies an edit request made against `base_version`, inserting under
    /// the date `today`, which the caller reads from the clock.
    ///
    /// A request against another version than the current one is refused
    /// and changes nothing. An empty request changes nothing either. Else
    /// the operations are applied in order, and the version grows by one
    /// where all were accepted.
    pub fn apply_ops(&mut self, base_version: u64, ops: &[TextOperation], today: Date) -> (result:
        Result<u64, ApplyOpsError>)
        requires
            old(self).spec_version() == base_version && ops@.len() > 0 ==> old(self).spec_version()
                < u64::MAX,
        ensures
            (final(self).blocks(), final(self).spec_version(), result) == edit_outcome(
                old(self).blocks(),
                old(self).spec_version(),
                base_version,
                ops@,
                today,
            ),
            final(self).spec_tag_registry() == old(self).spec_tag_registry(),
            base_version != old(self).spec_version() ==> final(self).blocks() == old(
                self,
            ).blocks() && final(self).spec_version() == old(self).spec_version() && result == Err::<
                u64,
                ApplyOpsError,
            >(
                ApplyOpsError::VersionMismatch {
                    expected: old(self).spec_version(),
                    actual: base_version,
                },
            ),
    {
        if base_version != self.version {
            return Err(
                ApplyOpsError::VersionMismatch { expected: self.version, actual: base_version },
            );
        }
        if ops.len() == 0 {
            return Ok(self.version);
        }
        match self.tree.apply_ops(ops, today) {
            Ok(()) => {},
            Err(error) => {
                return Err(error);
            },
        }
        self.version = self.version + 1;
        Ok(self.version)
    }
}

impl Timeline {
    /// Lends the tag registry for changes.
    pub fn tag_registry_mut(&mut self) -> (registry: &mut TagRegistry)
        ensures
            *registry == old(self).spec_tag_registry(),
            final(self).spec_tag_registry() == *final(registry),
            final(self).blocks() == old(self).blocks(),
            final(self).spec_version() == old(self).spec_version(),
    {
        &mut self.tag_registry
    }

    /// Returns the indices of the blocks that have a tag whose full name,
    /// in lower case, starts with the query in its normal form.
    pub fn search_prefix(&self, query: &str) -> (indices: Vec<u32>)
        requires
            self.wf(),
        ensures
            forall|i: int, j: int| 0 <= i < j < indices@.len() ==> indices@[i] < indices@[j],
            normalized_query(query@).len() == 0 ==> indices@.len() == 0,
            normalized_query(query@).len() > 0 ==> forall|index: u32|
                indices@.contains(index) <==> index < self.blocks().len() && exists|slot: int|
                    0 <= slot < self.blocks()[index as int].tags.len() && is_match(
                        self.tags(),
                        NameMatch::Prefix,
                        normalized_query(query@),
                        #[trigger] self.blocks()[index as int].tags[slot],
                    ),
    {
        let tag_ids = self.tag_registry.tag_ids_with_prefix(query);
        let indices = self.block_ids_with_tags(tag_ids.as_slice());
        proof {
            if normalized_query(query@).len() == 0 {
                if indices@.len() > 0 {
                    assert(indices@.contains(indices@[0]));
                }
            }
        }
        indices
    }

    /// Returns the indices of the blocks that have a tag whose full name,
    /// in lower case, holds the query in its normal form.
    pub fn search_infix(&self, query: &str) -> (indices: Vec<u32>)
        requires
            self.wf(),
        ensures
            forall|i: int, j: int| 0 <= i < j < indices@.len() ==> indices@[i] < indices@[j],
            normalized_query(query@).len() == 0 ==> indices@.len() == 0,
            normalized_query(query@).len() > 0 ==> forall|index: u32|
                indices@.contains(index) <==> index < self.blocks().len() && exists|slot: int|
                    0 <= slot < self.blocks()[index as int].tags.len() && is_match(
                        self.tags(),
                        NameMatch::Infix,
                        normalized_query(query@),
                        #[trigger] self.blocks()[index as int].tags[slot],
                    ),
    {
        let tag_ids = self.tag_registry.tag_ids_with_infix(query);
        let indices = self.block_ids_with_tags(tag_ids.as_slice());
        proof {
            if normalized_query(query@).len() == 0 {
                if indices@.len() > 0 {
                    assert(indices@.contains(indices@[0]));
                }
            }
        }
        indices
    }

    /// Offers the tags whose full name starts with the query, as
    /// `TagRegistry::autocomplete` does.
    pub fn autocomplete_tags(&self, query: &str) -> (suggestions: Vec<TagSuggestion>)
        requires
            self.wf(),
        ensures
            normalized_query(query@).len() == 0 ==> suggestions@.len() == 0,
            forall|i: int, j: int|
                0 <= i < j < suggestions@.len() ==> lex_less(
                    (#[trigger] suggestions@[i]).name@,
                    (#[trigger] suggestions@[j]).name@,
                ),
            forall|k: int|
                0 <= k < suggestions@.len() ==> is_suggestion(
                    self.tags(),
                    normalized_query(query@),
                    (#[trigger] suggestions@[k]).name@,
                    optional_view(suggestions@[k].color),
                ),
            normalized_query(query@).len() > 0 ==> forall|id: u32|
                #[trigger] is_match(self.tags(), NameMatch::Prefix, normalized_query(query@), id)
                    ==> name_among(suggestions@, shown_name(full_name_of(self.tags(), id)->0)),
    {
        self.tag_registry.autocomplete(query)
    }

    /// Interns the tag that a string names, such as `#project:new`, and
    /// describes it. The string is trimmed, freed of the `#`s that it starts
    /// with, trimmed again, and interned as a path written with colons.
    ///
    /// The name of the descriptor is the path in its normal form, behind a
    /// `#`, whatever tags the registry held.
    pub fn intern_tag(&mut self, raw: &str) -> (result: Result<TagDescriptor, InternTagError>)
        requires
            old(self).wf(),
            has_room_for(
                old(self).tags(),
                old(self).spec_tag_registry().next_id(),
                None,
                path_segments(tag_path(raw@)),
            ),
        ensures
            final(self).wf(),
            final(self).blocks() == old(self).blocks(),
            final(self).spec_version() == old(self).spec_version(),
            (
                final(self).tags(),
                final(self).spec_tag_registry().next_id(),
                descriptor_result(result),
            ) == intern_tag_outcome(
                old(self).tags(),
                old(self).spec_tag_registry().next_id(),
                raw@,
            ),
            old(self).tags().submap_of(final(self).tags()),
            final(self).tags().len() <= old(self).tags().len() + raw@.len() + 1,
            is_forest(old(self).tags()) ==> is_forest(final(self).tags()),
            path_segments(tag_path(raw@)).len() > 0 ==> (result matches Ok(descriptor)
                && descriptor.name@ == shown_name(normalized_path(tag_path(raw@)))),
    {
        proof {
            crate::text::lemma_trimmed_len(raw@);
            crate::text::lemma_trimmed_len(trimmed(raw@));
            crate::text::lemma_trimmed_len(without_leading(trimmed(raw@), '#'));
            crate::registry::lemma_no_segments(tag_path(raw@));
        }
        let trimmed_raw = trim(raw);
        if trimmed_raw.as_str().is_empty() {
            return Err(InternTagError::Empty);
        }
        let stripped = strip_leading(trimmed_raw.as_str(), '#');
        let normalized = trim(stripped.as_str());
        if normalized.as_str().is_empty() {
            return Err(InternTagError::Invalid);
        }
        let tag_id = match self.tag_registry.intern_colon_path(normalized.as_str()) {
            Some(id) => id,
            None => {
                return Err(InternTagError::Invalid);
            },
        };
        match self.tag_registry.describe(tag_id) {
            Some(descriptor) => Ok(descriptor),
            None => Err(InternTagError::MissingName(tag_id)),
        }
    }

    /// Lists every tag that has a full name, as its id, that name behind a
    /// `#` and its colour, in the order of the names.
    pub fn list_tags(&self) -> (descriptors: Vec<TagDescriptor>)
        requires
            self.wf(),
        ensures
            forall|i: int, j: int|
                0 <= i < j < descriptors@.len() ==> !lex_less(
                    (#[trigger] descriptors@[j]).name@,
                    (#[trigger] descriptors@[i]).name@,
                ),
            forall|i: int, j: int|
                0 <= i < descriptors@.len() && 0 <= j < descriptors@.len() && i != j ==> (
                #[trigger] descriptors@[i]).id != (#[trigger] descriptors@[j]).id,
            forall|k: int|
                0 <= k < descriptors@.len() ==> describes(
                    self.tags(),
                    (#[trigger] descriptors@[k])@,
                ),
            forall|id: u32|
                self.tags().contains_key(id) && full_name_of(self.tags(), id) is Some
                    ==> descriptor_views(descriptors@).contains(descriptor_of(self.tags(), id)),
    {
        let names = self.tag_registry.tag_names();
        let mut shown: Vec<(u32, String)> = Vec::new();
        let mut i: usize = 0;
        while i < names.len()
            invariant
                i <= names.len(),
                shown@.len() == i,
                forall|k: int|
                    0 <= k < i ==> (#[trigger] named(shown@)[k]) == (
                        named(names@)[k].0,
                        shown_name(named(names@)[k].1),
                    ),
            decreases names.len() - i,
        {
            let mut name = String::from_str("#");
            proof {
                reveal_strlit("#");
                assert("#"@ =~= seq!['#']);
            }
            name.append(names[i].1.as_str());
            let ghost before = named(shown@);
            let ghost entry = (names@[i as int].0, name@);
            shown.push((names[i].0, name));
            proof {
                assert(named(shown@) =~= before.push(entry));
                assert(named(names@)[i as int] == (names@[i as int].0, names@[i as int].1@));
                assert(entry.1 =~= shown_name(named(names@)[i as int].1));
                assert forall|k: int| 0 <= k < i + 1 implies (#[trigger] named(shown@)[k]) == (
                    named(names@)[k].0,
                    shown_name(named(names@)[k].1),
                ) by {
                    if k < i {
                        assert(named(shown@)[k] == before[k]);
                    }
                }
            }
            i = i + 1;
        }
        proof {
            assert forall|a: int, b: int|
                0 <= a < shown@.len() && 0 <= b < shown@.len() && a != b implies (#[trigger] named(
                shown@,
            )[a]).0 != (#[trigger] named(shown@)[b]).0 by {
                assert(named(shown@)[a].0 == named(names@)[a].0);
                assert(named(shown@)[b].0 == named(names@)[b].0);
            }
        }
        let sorted = sort_by_name(&shown);
        proof {
            assert forall|j: int| 0 <= j < sorted@.len() implies self.tags().contains_key(
                (#[trigger] named(sorted@)[j]).0,
            ) && full_name_of(self.tags(), named(sorted@)[j].0) is Some && named(sorted@)[j].1
                == shown_name(full_name_of(self.tags(), named(sorted@)[j].0)->0) by {
                assert(named(sorted@).contains(named(sorted@)[j]));
                assert(named(shown@).contains(named(sorted@)[j]));
                let at = choose|at: int|
                    0 <= at < named(shown@).len() && named(shown@)[at] == named(sorted@)[j];
                assert(named(shown@)[at] == (
                    named(names@)[at].0,
                    shown_name(named(names@)[at].1),
                ));
                assert(self.tags().contains_key(named(names@)[at].0));
            }
        }
        let mut descriptors: Vec<TagDescriptor> = Vec::new();
        let mut k: usize = 0;
        while k < sorted.len()
            invariant
                k <= sorted.len(),
                self.wf(),
                descriptors@.len() == k,
                forall|j: int|
                    0 <= j < sorted@.len() ==> self.tags().contains_key(
                        (#[trigger] named(sorted@)[j]).0,
                    ) && full_name_of(self.tags(), named(sorted@)[j].0) is Some && named(
                        sorted@,
                    )[j].1 == shown_name(full_name_of(self.tags(), named(sorted@)[j].0)->0),
                forall|j: int|
                    0 <= j < k ==> (#[trigger] descriptors@[j])@ == descriptor_of(
                        self.tags(),
                        named(sorted@)[j].0,
                    ),
            decreases sorted.len() - k,
        {
            let id = sorted[k].0;
            assert(named(sorted@)[k as int] == (sorted@[k as int].0, sorted@[k as int].1@));
            match self.tag_registry.describe(id) {
                Some(descriptor) => {
                    descriptors.push(descriptor);
                },
                None => {
                    assert(false);
                },
            }
            k = k + 1;
        }
        proof {
            assert forall|a: int, b: int| 0 <= a < b < descriptors@.len() implies !lex_less(
                (#[trigger] descriptors@[b]).name@,
                (#[trigger] descriptors@[a]).name@,
            ) by {
                assert(descriptors@[a]@ == descriptor_of(self.tags(), named(sorted@)[a].0));
                assert(descriptors@[b]@ == descriptor_of(self.tags(), named(sorted@)[b].0));
                assert(!lex_less(named(sorted@)[b].1, named(sorted@)[a].1));
            }
            assert forall|a: int, b: int|
                0 <= a < descriptors@.len() && 0 <= b < descriptors@.len() && a != b implies (
            #[trigger] descriptors@[a]).id != (#[trigger] descriptors@[b]).id by {
                assert(descriptors@[a]@ == descriptor_of(self.tags(), named(sorted@)[a].0));
                assert(descriptors@[b]@ == descriptor_of(self.tags(), named(sorted@)[b].0));
                assert(named(sorted@)[a].0 != named(sorted@)[b].0);
            }
            assert forall|id: u32|
                self.tags().contains_key(id) && full_name_of(
                    self.tags(),
                    id,
                ) is Some implies descriptor_views(descriptors@).contains(
                descriptor_of(self.tags(), id),
            ) by {
                let full = full_name_of(self.tags(), id)->0;
                assert(named(names@).contains((id, full)));
                let j = choose|j: int| 0 <= j < names@.len() && named(names@)[j] == (id, full);
                assert(named(shown@)[j] == (id, shown_name(full)));
                assert(named(shown@).contains((id, shown_name(full))));
                assert(named(sorted@).contains((id, shown_name(full))));
                let at = choose|at: int|
                    0 <= at < sorted@.len() && named(sorted@)[at] == (id, shown_name(full));
                assert(descriptor_views(descriptors@)[at] == descriptor_of(self.tags(), id));
            }
        }
        descriptors
    }
}

/// The answer of `assign_block_tags`, as mathematical values.
pub open spec fn assignment_result(
    result: Result<Vec<TagDescriptor>, AssignBlockTagsError>,
) -> Result<Seq<DescriptorView>, AssignBlockTagsError> {
    match result {
        Ok(descriptors) => Ok(descriptor_views(descriptors@)),
        Err(error) => Err(error),
    }
}

/// What assigning tags to a block does: the blocks, the tags and the next
/// id to try afterwards, and the answer.
///
/// An index without a block changes nothing. Else the strings are interned
/// in order; where one is refused, the tags interned so far stay and the
/// blocks are as they were; where all are accepted, the block gets the ids
/// of the tags named, in the order of the strings.
pub open spec fn assignment_outcome(
    blocks: Seq<BlockView>,
    tags: TagMap,
    next_id: u32,
    block_index: usize,
    raws: Seq<Seq<char>>,
) -> (Seq<BlockView>, TagMap, u32, Result<Seq<DescriptorView>, AssignBlockTagsError>) {
    if block_index >= blocks.len() {
        (blocks, tags, next_id, Err(AssignBlockTagsError::InvalidBlock { index: block_index }))
    } else {
        let outcome = tags_interned(tags, next_id, raws);
        match outcome.2 {
            Err(error) => (blocks, outcome.0, outcome.1, Err(AssignBlockTagsError::Intern(error))),
            Ok(descriptors) => (
                blocks.update(
                    block_index as int,
                    retagged(blocks[block_index as int], descriptor_ids(descriptors)),
                ),
                outcome.0,
                outcome.1,
                Ok(descriptors),
            ),
        }
    }
}

impl Timeline {
    /// Interns the given tag strings and gives the block at `block_index`
    /// the ids of the tags named, in place of the tags that it had. Returns
    /// the descriptors of those tags.
    pub fn assign_block_tags(&mut self, block_index: usize, tags: &[String]) -> (result: Result<
        Vec<TagDescriptor>,
        AssignBlockTagsError,
    >)
        requires
            old(self).wf(),
            have_room_for(
                old(self).tags(),
                old(self).spec_tag_registry().next_id(),
                views_of(tags@),
            ),
        ensures
            final(self).wf(),
            final(self).spec_version() == old(self).spec_version(),
            (
                final(self).blocks(),
                final(self).tags(),
                final(self).spec_tag_registry().next_id(),
                assignment_result(result),
            ) == assignment_outcome(
                old(self).blocks(),
                old(self).tags(),
                old(self).spec_tag_registry().next_id(),
                block_index,
                views_of(tags@),
            ),
    {
        let mut blocks = self.tree.items();
        if block_index >= blocks.len() {
            return Err(AssignBlockTagsError::InvalidBlock { index: block_index });
        }
        let ghost all = views_of(tags@);
        let ghost start_tags = self.tags();
        let ghost start_next = self.spec_tag_registry().next_id();
        let mut descriptors: Vec<TagDescriptor> = Vec::new();
        let mut tag_ids: Vec<u32> = Vec::new();
        let mut i: usize = 0;
        proof {
            assert(all.skip(0) =~= all);
            assert(descriptors_then(
                descriptor_views(descriptors@),
                tags_interned(start_tags, start_next, all),
            ) == tags_interned(start_tags, start_next, all)) by {
                let rest = tags_interned(start_tags, start_next, all);
                if rest.2 is Ok {
                    assert(descriptor_views(descriptors@) + rest.2->Ok_0 =~= rest.2->Ok_0);
                }
            }
        }
        while i < tags.len()
            invariant
                i <= tags.len(),
                all == views_of(tags@),
                start_tags == old(self).tags(),
                start_next == old(self).spec_tag_registry().next_id(),
                self.wf(),
                self.blocks() == old(self).blocks(),
                self.spec_version() == old(self).spec_version(),
                block_views(blocks@) == old(self).blocks(),
                block_index < blocks@.len(),
                have_room_for(
                    self.tags(),
                    self.spec_tag_registry().next_id(),
                    all.skip(i as int),
                ),
                tag_ids@ == descriptor_ids(descriptor_views(descriptors@)),
                tags_interned(start_tags, start_next, all) == descriptors_then(
                    descriptor_views(descriptors@),
                    tags_interned(
                        self.tags(),
                        self.spec_tag_registry().next_id(),
                        all.skip(i as int),
                    ),
                ),
            decreases tags.len() - i,
        {
            proof {
                assert(all.skip(i as int).drop_first() =~= all.skip(i + 1));
                assert(all.skip(i as int)[0] == tags@[i as int]@);
            }
            let ghost tags_before = self.tags();
            let ghost next_before = self.spec_tag_registry().next_id();
            let ghost found = descriptor_views(descriptors@);
            let descriptor = match self.intern_tag(tags[i].as_str()) {
                Ok(descriptor) => descriptor,
                Err(error) => {
                    proof {
                        let first = intern_tag_outcome(tags_before, next_before, tags@[i as int]@);
                        assert(first.2 == Err::<DescriptorView, InternTagError>(error));
                        assert(tags_interned(tags_before, next_before, all.skip(i as int)).2
                            == Err::<Seq<DescriptorView>, InternTagError>(error));
                    }
                    return Err(AssignBlockTagsError::Intern(error));
                },
            };
            proof {
                let rest = tags_interned(
                    self.tags(),
                    self.spec_tag_registry().next_id(),
                    all.skip(i + 1),
                );
                assert(tags_interned(tags_before, next_before, all.skip(i as int))
                    == descriptors_then(seq![descriptor@], rest));
                if rest.2 is Ok {
                    assert(found + (seq![descriptor@] + rest.2->Ok_0) =~= found.push(descriptor@)
                        + rest.2->Ok_0);
                }
            }
            tag_ids.push(descriptor.id);
            descriptors.push(descriptor);
            proof {
                assert(descriptor_views(descriptors@) =~= found.push(
                    descriptors@[descriptors@.len() - 1]@,
                ));
                assert(tag_ids@ =~= descriptor_ids(descriptor_views(descriptors@)));
            }
            i = i + 1;
        }
        proof {
            assert(all.skip(i as int) =~= Seq::<Seq<char>>::empty());
            assert(descriptor_views(descriptors@) + Seq::<DescriptorView>::empty()
                =~= descriptor_views(descriptors@));
        }
        let ghost before = block_views(blocks@);
        let block = TaggedBlock {
            date: blocks[block_index].date,
            text: blocks[block_index].text.clone(),
            tags: tag_ids,
        };
        blocks.set(block_index, block);
        assert(block_views(blocks@) =~= before.update(
            block_index as int,
            retagged(before[block_index as int], descriptor_ids(descriptor_views(descriptors@))),
        ));
        self.tree = BlockTree::from_blocks(blocks);
        Ok(descriptors)
    }
}

impl Default for Timeline {
    /// An empty timeline at version 0.
    fn default() -> (timeline: Timeline)
        ensures
            timeline.wf(),
            timeline.blocks() == Seq::<BlockView>::empty(),
            timeline.spec_version() == 0,
            timeline.tags() == TagMap::empty(),
            timeline.spec_tag_registry().next_id() == 0,
    {
        Timeline { tree: BlockTree::new(), version: 0, tag_registry: TagRegistry::new() }
    }
}

} // verus!
