//! Summaries: what a run of blocks amounts to in bytes, characters, blocks,
//! dates and tags. Summaries combine associatively, with an identity.

use crate::block::{text_bytes, total_bytes, total_chars, BlockView, TaggedBlock};
use crate::date::Date;
use crate::tag_filter::{
    add_tag, bits_of, empty_tag_filter, filter_bytes, filters_can_unite, header_of,
    is_tag_filter, lemma_no_bits, lemma_union_of, new_tag_filter, probe_bits, union_of,
    union_tag_filters, can_unite,
};
use bloomfilter::Bloom;
use vstd::prelude::*;

verus! {

/// The summary of a run of blocks.
///
/// The three counts stop at `usize::MAX`; no document that fits in memory
/// reaches it.
#[derive(Debug)]
pub struct TimelineSummary {
    pub total_bytes: usize,
    pub total_chars: usize,
    pub entry_count: usize,
    pub min_date: Option<Date>,
    pub max_date: Option<Date>,
    pub tags_filter: Bloom<u32>,
}

/// What a summary holds, as mathematical values. Of the tag filter it holds
/// the positions of the bits that are set.
pub struct SummaryView {
    pub bytes: nat,
    pub chars: nat,
    pub blocks: nat,
    pub min_date: Option<Date>,
    pub max_date: Option<Date>,
    pub tag_bits: Set<nat>,
}

/// `n`, or `usize::MAX` where `n` is larger.
pub open spec fn capped(n: nat) -> nat {
    if n <= usize::MAX {
        n
    } else {
        usize::MAX as nat
    }
}

/// The earlier of two optional dates; an absent one yields to the other.
pub open spec fn earliest(a: Option<Date>, b: Option<Date>) -> Option<Date> {
    match (a, b) {
        (Some(x), Some(y)) => Some(x.earlier(y)),
        (None, other) => other,
        (current, None) => current,
    }
}

/// The later of two optional dates; an absent one yields to the other.
pub open spec fn latest(a: Option<Date>, b: Option<Date>) -> Option<Date> {
    match (a, b) {
        (Some(x), Some(y)) => Some(x.later(y)),
        (None, other) => other,
        (current, None) => current,
    }
}

/// The bits that a tag filter holds once each of `tags` was recorded in it.
pub open spec fn bits_for_tags(tags: Seq<u32>) -> Set<nat>
    decreases tags.len(),
{
    if tags.len() == 0 {
        Set::<nat>::empty()
    } else {
        bits_for_tags(tags.drop_last()).union(
            probe_bits(header_of(empty_tag_filter()), tags.last()),
        )
    }
}

impl SummaryView {
    /// The summary of no blocks: the identity of `plus`.
    pub open spec fn zero() -> SummaryView {
        SummaryView {
            bytes: 0,
            chars: 0,
            blocks: 0,
            min_date: None,
            max_date: None,
            tag_bits: Set::<nat>::empty(),
        }
    }

    /// The summary of one block.
    pub open spec fn of_block(block: BlockView) -> SummaryView {
        SummaryView {
            bytes: text_bytes(block.text),
            chars: block.text.len(),
            blocks: 1,
            min_date: Some(block.date),
            max_date: Some(block.date),
            tag_bits: bits_for_tags(block.tags),
        }
    }

    /// The summary of two runs of blocks, from the summary of each: counts
    /// add, dates take the minimum and the maximum, tag bits unite.
    pub open spec fn plus(self, other: SummaryView) -> SummaryView {
        SummaryView {
            bytes: capped(self.bytes + other.bytes),
            chars: capped(self.chars + other.chars),
            blocks: capped(self.blocks + other.blocks),
            min_date: earliest(self.min_date, other.min_date),
            max_date: latest(self.max_date, other.max_date),
            tag_bits: self.tag_bits.union(other.tag_bits),
        }
    }

    /// Whether the counts are within what a summary can hold.
    pub open spec fn in_range(self) -> bool {
        self.bytes <= usize::MAX && self.chars <= usize::MAX && self.blocks <= usize::MAX
    }

    /// Whether the first date, where both are present, is not after the last.
    pub open spec fn dates_ordered(self) -> bool {
        match (self.min_date, self.max_date) {
            (Some(first), Some(last)) => !last.is_before(first),
            _ => true,
        }
    }
}

/// The summary of `blocks`: the summaries of its blocks, combined in order.
pub open spec fn summary_of(blocks: Seq<BlockView>) -> SummaryView
    decreases blocks.len(),
{
    if blocks.len() == 0 {
        SummaryView::zero()
    } else {
        summary_of(blocks.drop_last()).plus(SummaryView::of_block(blocks.last()))
    }
}

impl View for TimelineSummary {
    type V = SummaryView;

    open spec fn view(&self) -> SummaryView {
        SummaryView {
            bytes: self.total_bytes as nat,
            chars: self.total_chars as nat,
            blocks: self.entry_count as nat,
            min_date: self.min_date,
            max_date: self.max_date,
            tag_bits: bits_of(filter_bytes(self.tags_filter)),
        }
    }
}

/// `zero` is a left and a right identity of `plus`.
pub proof fn lemma_plus_identity(a: SummaryView)
    requires
        a.in_range(),
    ensures
        SummaryView::zero().plus(a) == a,
        a.plus(SummaryView::zero()) == a,
{
    assert(SummaryView::zero().plus(a).tag_bits =~= a.tag_bits);
    assert(a.plus(SummaryView::zero()).tag_bits =~= a.tag_bits);
}

/// `plus` is associative.
pub proof fn lemma_plus_associative(a: SummaryView, b: SummaryView, c: SummaryView)
    ensures
        a.plus(b).plus(c) == a.plus(b.plus(c)),
{
    assert(a.plus(b).plus(c).tag_bits =~= a.plus(b.plus(c)).tag_bits);
}

/// The summary of a concatenation is the combination of the two summaries.
pub proof fn lemma_summary_concat(left: Seq<BlockView>, right: Seq<BlockView>)
    ensures
        summary_of(left + right) == summary_of(left).plus(summary_of(right)),
    decreases right.len(),
{
    lemma_summary_facts(left);
    if right.len() == 0 {
        assert(left + right =~= left);
        lemma_plus_identity(summary_of(left));
    } else {
        lemma_summary_concat(left, right.drop_last());
        assert((left + right).drop_last() =~= left + right.drop_last());
        assert((left + right).last() == right.last());
        lemma_plus_associative(
            summary_of(left),
            summary_of(right.drop_last()),
            SummaryView::of_block(right.last()),
        );
    }
}

/// The counts of a summary are those of its blocks, as far as a count goes;
/// its dates are in order, and present exactly where there is a block.
pub proof fn lemma_summary_facts(blocks: Seq<BlockView>)
    ensures
        summary_of(blocks).bytes == capped(total_bytes(blocks)),
        summary_of(blocks).chars == capped(total_chars(blocks)),
        summary_of(blocks).blocks == capped(blocks.len()),
        summary_of(blocks).in_range(),
        summary_of(blocks).dates_ordered(),
        summary_of(blocks).min_date is Some <==> blocks.len() > 0,
        summary_of(blocks).max_date is Some <==> blocks.len() > 0,
    decreases blocks.len(),
{
    if blocks.len() > 0 {
        lemma_summary_facts(blocks.drop_last());
    }
}

/// Every tag of every block tests positive in the summary's tag bits.
pub proof fn lemma_summary_holds_tags(blocks: Seq<BlockView>, index: int, slot: int)
    requires
        0 <= index < blocks.len(),
        0 <= slot < blocks[index].tags.len(),
    ensures
        probe_bits(header_of(empty_tag_filter()), blocks[index].tags[slot]).subset_of(
            summary_of(blocks).tag_bits,
        ),
    decreases blocks.len(),
{
    if index == blocks.len() - 1 {
        lemma_bits_hold_tag(blocks[index].tags, slot);
    } else {
        lemma_summary_holds_tags(blocks.drop_last(), index, slot);
    }
}

/// Each of `tags` tests positive in the bits recorded for them.
pub proof fn lemma_bits_hold_tag(tags: Seq<u32>, slot: int)
    requires
        0 <= slot < tags.len(),
    ensures
        probe_bits(header_of(empty_tag_filter()), tags[slot]).subset_of(bits_for_tags(tags)),
    decreases tags.len(),
{
    if slot < tags.len() - 1 {
        lemma_bits_hold_tag(tags.drop_last(), slot);
    }
}

impl TimelineSummary {
    /// Whether the tag filter has the size and header of this library's
    /// filters.
    pub open spec fn is_wf(&self) -> bool {
        is_tag_filter(filter_bytes(self.tags_filter))
    }

    /// Tests whether `tag` may occur among the summarised blocks: `false`
    /// means that no block has it.
    pub fn may_hold_tag(&self, tag: u32) -> (found: bool)
        requires
            self.is_wf(),
        ensures
            found == probe_bits(header_of(empty_tag_filter()), tag).subset_of(self@.tag_bits),
    {
        crate::tag_filter::may_hold_tag(&self.tags_filter, tag)
    }

    /// The summary of no blocks, the identity of `merge`: no bytes, no
    /// characters, no block, no date, and an empty tag filter. The tree
    /// hands a context to it, which is empty.
    pub fn zero(_cx: ()) -> (summary: TimelineSummary)
        ensures
            summary.is_wf(),
            summary@ == SummaryView::zero(),
            filter_bytes(summary.tags_filter) == empty_tag_filter(),
    {
        TimelineSummary::default()
    }

    /// Tests whether `tag` may occur among the summarised blocks, where the
    /// filter is a tag filter; returns `None` where it is not.
    pub fn test_tag(&self, tag: u32) -> (found: Option<bool>)
        ensures
            found == if self.is_wf() {
                Some(
                    probe_bits(header_of(empty_tag_filter()), tag).subset_of(self@.tag_bits),
                )
            } else {
                None
            },
    {
        crate::tag_filter::test_tag(&self.tags_filter, tag)
    }

    /// Adds `other` to this summary: counts add up to `usize::MAX`, dates
    /// take the minimum and the maximum, and the tag filters unite. Filters
    /// that cannot be united, for having different sizes, leave this one's
    /// as it is.
    pub fn merge(&mut self, other: &TimelineSummary)
        ensures
            final(self).total_bytes == capped((old(self).total_bytes + other.total_bytes) as nat),
            final(self).total_chars == capped((old(self).total_chars + other.total_chars) as nat),
            final(self).entry_count == capped((old(self).entry_count + other.entry_count) as nat),
            final(self).min_date == earliest(old(self).min_date, other.min_date),
            final(self).max_date == latest(old(self).max_date, other.max_date),
            filter_bytes(final(self).tags_filter) == if can_unite(
                filter_bytes(old(self).tags_filter),
                filter_bytes(other.tags_filter),
            ) {
                union_of(filter_bytes(old(self).tags_filter), filter_bytes(other.tags_filter))
            } else {
                filter_bytes(old(self).tags_filter)
            },
            old(self).is_wf() && other.is_wf() ==> final(self).is_wf() && final(self)@ == old(
                self,
            )@.plus(other@),
    {
        proof {
            if self.is_wf() && other.is_wf() {
                lemma_union_of(filter_bytes(self.tags_filter), filter_bytes(other.tags_filter));
            }
        }
        self.total_bytes = self.total_bytes.saturating_add(other.total_bytes);
        self.total_chars = self.total_chars.saturating_add(other.total_chars);
        self.entry_count = self.entry_count.saturating_add(other.entry_count);
        self.min_date =
        match (self.min_date, other.min_date) {
            (Some(current), Some(given)) => Some(current.min_with(given)),
            (None, given) => given,
            (current, None) => current,
        };
        self.max_date =
        match (self.max_date, other.max_date) {
            (Some(current), Some(given)) => Some(current.max_with(given)),
            (None, given) => given,
            (current, None) => current,
        };
        if filters_can_unite(&self.tags_filter, &other.tags_filter) {
            union_tag_filters(&mut self.tags_filter, &other.tags_filter);
        }
        proof {
            if old(self).is_wf() && other.is_wf() {
                let united = filter_bytes(self.tags_filter);
                assert(united.len() == filter_bytes(old(self).tags_filter).len());
                crate::tag_filter::lemma_tag_filter_by_header(
                    filter_bytes(old(self).tags_filter),
                    united,
                );
            }
        }
    }
}

impl Clone for TimelineSummary {
    /// Returns a copy of the summary, with a copy of its filter.
    fn clone(&self) -> (copy: TimelineSummary)
        ensures
            copy@ == self@,
            copy.is_wf() == self.is_wf(),
            filter_bytes(copy.tags_filter) == filter_bytes(self.tags_filter),
    {
        TimelineSummary {
            total_bytes: self.total_bytes,
            total_chars: self.total_chars,
            entry_count: self.entry_count,
            min_date: self.min_date,
            max_date: self.max_date,
            tags_filter: crate::tag_filter::copy_filter(&self.tags_filter),
        }
    }
}

impl Default for TimelineSummary {
    /// The summary of no blocks.
    fn default() -> (summary: TimelineSummary)
        ensures
            summary.is_wf(),
            summary@ == SummaryView::zero(),
            filter_bytes(summary.tags_filter) == empty_tag_filter(),
    {
        let tags_filter = new_tag_filter();
        proof {
            lemma_no_bits(filter_bytes(tags_filter));
        }
        TimelineSummary {
            total_bytes: 0,
            total_chars: 0,
            entry_count: 0,
            min_date: None,
            max_date: None,
            tags_filter,
        }
    }
}

impl TaggedBlock {
    /// Returns the summary of this block alone: its bytes and characters,
    /// one block, its date as first and last date, and a filter with its
    /// tags.
    pub fn summarize(&self) -> (summary: TimelineSummary)
        ensures
            summary.is_wf(),
            summary@ == SummaryView::of_block(self@),
    {
        let mut tags_filter = new_tag_filter();
        proof {
            lemma_no_bits(filter_bytes(tags_filter));
        }
        let mut i: usize = 0;
        while i < self.tags.len()
            invariant
                i <= self.tags.len(),
                is_tag_filter(filter_bytes(tags_filter)),
                bits_of(filter_bytes(tags_filter)) == bits_for_tags(self.tags@.take(i as int)),
            decreases self.tags.len() - i,
        {
            assert(self.tags@.take(i + 1).drop_last() =~= self.tags@.take(i as int));
            add_tag(&mut tags_filter, self.tags[i]);
            i = i + 1;
        }
        assert(self.tags@.take(i as int) =~= self.tags@);
        TimelineSummary {
            total_bytes: self.byte_count(),
            total_chars: self.char_count(),
            entry_count: 1,
            min_date: Some(self.date),
            max_date: Some(self.date),
            tags_filter,
        }
    }
}

/// The character dimension: the number of characters passed so far.
#[derive(Clone, Copy, Debug, Default, Eq, PartialEq, Ord, PartialOrd)]
pub struct Chars(pub usize);

impl Chars {
    /// Adds the characters of `summary` to the count, up to `usize::MAX`.
    pub fn advance(&mut self, summary: &TimelineSummary)
        ensures
            final(self).0 == capped((old(self).0 + summary.total_chars) as nat),
    {
        self.0 = self.0.saturating_add(summary.total_chars);
    }
}

} // verus!
