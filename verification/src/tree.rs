//! The block tree: the blocks of a document in a balanced tree that caches
//! the summary of every subtree, and the cursor that walks it by character
//! count.
//!
//! The tree itself is `zed_sum_tree::SumTree`. This module states what its
//! operations do to the sequence of blocks that the tree holds.

use crate::block::{block_views, chars_before, BlockView, TaggedBlock};
use crate::summary::{
    capped, earliest, latest, summary_of, Chars, SummaryView, TimelineSummary,
};
use crate::tag_filter::{can_unite, empty_tag_filter, filter_bytes, union_of};
use vstd::prelude::*;
use zed_sum_tree::{Bias, Cursor, Dimension, Item, SumTree, Summary};

verus! {

/// `zed_sum_tree::Bias`: on which side of a boundary a seek stops. A target
/// that lies where one item ends and the next begins is left of the
/// boundary with `Left` and right of it with `Right`.
#[verifier::external_type_specification]
pub struct ExBias(Bias);

/// Blocks are the items of the tree; an item is summarised as the block is.
impl Item for TaggedBlock {
    type Summary = TimelineSummary;

    /// Returns the summary of this block alone.
    fn summary(&self, _cx: ()) -> (summary: TimelineSummary)
        ensures
            summary.is_wf(),
            summary@ == SummaryView::of_block(self@),
    {
        self.summarize()
    }
}

/// Summaries are what the tree caches: it starts from the summary of no
/// blocks and adds summaries with `merge`.
impl Summary for TimelineSummary {
    type Context<'a> = ();

    /// Returns the summary of no blocks, the identity of `add_summary`.
    fn zero<'a>(_cx: ()) -> (summary: Self)
        ensures
            summary.is_wf(),
            summary@ == SummaryView::zero(),
            filter_bytes(summary.tags_filter) == empty_tag_filter(),
    {
        TimelineSummary::zero(_cx)
    }

    /// Adds `summary` to this summary: counts add up to `usize::MAX`, dates
    /// take the minimum and the maximum, and the tag filters unite where
    /// they can be united.
    fn add_summary<'a>(&mut self, summary: &Self, _cx: ())
        ensures
            final(self).total_bytes == capped(
                (old(self).total_bytes + summary.total_bytes) as nat,
            ),
            final(self).total_chars == capped(
                (old(self).total_chars + summary.total_chars) as nat,
            ),
            final(self).entry_count == capped(
                (old(self).entry_count + summary.entry_count) as nat,
            ),
            final(self).min_date == earliest(old(self).min_date, summary.min_date),
            final(self).max_date == latest(old(self).max_date, summary.max_date),
            filter_bytes(final(self).tags_filter) == if can_unite(
                filter_bytes(old(self).tags_filter),
                filter_bytes(summary.tags_filter),
            ) {
                union_of(filter_bytes(old(self).tags_filter), filter_bytes(summary.tags_filter))
            } else {
                filter_bytes(old(self).tags_filter)
            },
            old(self).is_wf() && summary.is_wf() ==> final(self).is_wf() && final(self)@ == old(
                self,
            )@.plus(summary@),
    {
        self.merge(summary)
    }
}

/// The character count is a dimension of the summaries: it starts at 0 and
/// grows by the characters of each summary passed.
impl<'a> Dimension<'a, TimelineSummary> for Chars {
    /// Returns the count before any block: 0.
    fn zero(_cx: ()) -> (start: Self)
        ensures
            start.0 == 0,
    {
        Chars(0)
    }

    /// Adds the characters of `summary` to the count, up to `usize::MAX`.
    fn add_summary(&mut self, summary: &'a TimelineSummary, _cx: ())
        ensures
            final(self).0 == capped((old(self).0 + summary.total_chars) as nat),
    {
        self.advance(summary)
    }
}

/// The blocks of a document, in order, in a balanced tree: a
/// `zed_sum_tree::SumTree` of blocks. The tree is kept out of the proofs;
/// `tree_blocks` names the blocks that it holds.
#[verifier::external_body]
#[derive(Debug)]
pub struct BlockTree {
    inner: SumTree<TaggedBlock>,
}

/// A position in a block tree, reached by walking it forwards: a
/// `zed_sum_tree::Cursor` by character count. The cursor is kept out of the
/// proofs; `cursor_blocks` and `cursor_index` name what it walks and where
/// it stands.
#[verifier::external_body]
pub struct BlockCursor<'a> {
    inner: Cursor<'a, 'static, TaggedBlock, Chars>,
}

/// The blocks that a tree holds, in order.
pub uninterp spec fn tree_blocks(tree: BlockTree) -> Seq<BlockView>;

/// The blocks of the tree that a cursor walks.
pub uninterp spec fn cursor_blocks(cursor: BlockCursor<'_>) -> Seq<BlockView>;

/// The index of the block that a cursor stands at: `None` before its first
/// move, the number of blocks once it is past the last one.
pub uninterp spec fn cursor_index(cursor: BlockCursor<'_>) -> Option<int>;

/// Whether a cursor that seeks `target` passes the block at `index`: the
/// characters up to the end of that block are fewer than the target, or, with
/// a right bias, not more.
pub open spec fn passes_block(blocks: Seq<BlockView>, index: int, target: nat, bias: Bias) -> bool {
    let end = capped(chars_before(blocks, index + 1));
    match bias {
        Bias::Left => target > end,
        Bias::Right => target >= end,
    }
}

/// The index of the first block from `from` on that a cursor seeking
/// `target` does not pass; the number of blocks where it passes them all.
pub open spec fn seek_from(blocks: Seq<BlockView>, target: nat, bias: Bias, from: int) -> int
    decreases blocks.len() - from,
{
    if from >= blocks.len() {
        blocks.len() as int
    } else if !passes_block(blocks, from, target, bias) {
        from
    } else {
        seek_from(blocks, target, bias, from + 1)
    }
}

/// The index of the block at which a new cursor stops when it seeks `target`.
pub open spec fn seek_index(blocks: Seq<BlockView>, target: nat, bias: Bias) -> int {
    seek_from(blocks, target, bias, 0)
}

/// Calls `SumTree::new`, which makes a tree of one empty leaf.
#[verifier::external_body]
fn tree_new() -> (tree: BlockTree)
    ensures
        tree_blocks(tree) == Seq::<BlockView>::empty(),
{
    BlockTree { inner: SumTree::new(()) }
}

/// Calls `SumTree::from_iter`, which fills the leaves with the items in the
/// order given.
#[verifier::external_body]
fn tree_from_iter(blocks: Vec<TaggedBlock>) -> (tree: BlockTree)
    ensures
        tree_blocks(tree) == block_views(blocks@),
{
    BlockTree { inner: SumTree::from_iter(blocks, ()) }
}

/// Calls `SumTree::push`, which appends a leaf with the one item.
#[verifier::external_body]
fn tree_push(tree: &mut BlockTree, block: TaggedBlock)
    ensures
        tree_blocks(*final(tree)) == tree_blocks(*old(tree)).push(block@),
{
    tree.inner.push(block, ())
}

/// Calls `SumTree::append`, which puts the items of the other tree behind
/// those of this one.
#[verifier::external_body]
fn tree_append(tree: &mut BlockTree, other: BlockTree)
    ensures
        tree_blocks(*final(tree)) == tree_blocks(*old(tree)) + tree_blocks(other),
{
    tree.inner.append(other.inner, ())
}

/// Calls `SumTree::items`, which copies the items out in order.
#[verifier::external_body]
fn tree_items(tree: &BlockTree) -> (blocks: Vec<TaggedBlock>)
    ensures
        block_views(blocks@) == tree_blocks(*tree),
{
    tree.inner.items(())
}

/// Calls `SumTree::summary`, which lends the summary cached at the root. The
/// tree computes it from the summaries of its items with `Summary::zero` and
/// `Summary::add_summary` of the summary type, in the order of the items but
/// grouped as the nodes are; those are `TimelineSummary::zero` and
/// `TimelineSummary::merge`, which are associative with an identity, so the
/// grouping does not show.
#[verifier::external_body]
fn tree_summary(tree: &BlockTree) -> (summary: &TimelineSummary)
    ensures
        summary.is_wf(),
        summary@ == summary_of(tree_blocks(*tree)),
{
    tree.inner.summary()
}

/// Calls `Clone::clone` of `SumTree`, which shares the root node.
#[verifier::external_body]
fn tree_clone(tree: &BlockTree) -> (copy: BlockTree)
    ensures
        tree_blocks(copy) == tree_blocks(*tree),
{
    BlockTree { inner: tree.inner.clone() }
}

/// Calls `SumTree::cursor` for the character dimension, which makes a cursor
/// that has not moved yet.
#[verifier::external_body]
fn tree_cursor<'a>(tree: &'a BlockTree) -> (cursor: BlockCursor<'a>)
    ensures
        cursor_blocks(cursor) == tree_blocks(*tree),
        cursor_index(cursor) is None,
{
    BlockCursor { inner: tree.inner.cursor::<Chars>(()) }
}

/// Calls `Cursor::slice` on a cursor that has not moved. It walks forwards
/// while the target is greater than the characters up to the end of the item
/// at hand (or equal to them, with a right bias), returns the items passed as
/// a tree and leaves the cursor at the first item not passed.
#[verifier::external_body]
fn cursor_slice(cursor: &mut BlockCursor<'_>, target: &Chars, bias: Bias) -> (passed: BlockTree)
    requires
        cursor_index(*old(cursor)) is None,
    ensures
        cursor_blocks(*final(cursor)) == cursor_blocks(*old(cursor)),
        cursor_index(*final(cursor)) == Some(
            seek_index(cursor_blocks(*old(cursor)), target.0 as nat, bias),
        ),
        tree_blocks(passed) == cursor_blocks(*old(cursor)).take(
            seek_index(cursor_blocks(*old(cursor)), target.0 as nat, bias),
        ),
{
    BlockTree { inner: cursor.inner.slice(target, bias) }
}

/// Calls `Cursor::start`, which returns the dimension summed over the items
/// passed: their characters, as far as a count goes.
#[verifier::external_body]
fn cursor_start(cursor: &BlockCursor<'_>) -> (start: Chars)
    ensures
        start.0 == capped(
            chars_before(
                cursor_blocks(*cursor),
                match cursor_index(*cursor) {
                    Some(index) => index,
                    None => 0,
                },
            ),
        ),
{
    *cursor.inner.start()
}

/// Calls `Cursor::item`, which returns the item that the cursor stands at,
/// or `None` past the last one. It stops the program on a cursor that has
/// not moved.
#[verifier::external_body]
fn cursor_item<'a>(cursor: &BlockCursor<'a>) -> (item: Option<&'a TaggedBlock>)
    requires
        cursor_index(*cursor) is Some,
    ensures
        match item {
            Some(block) => 0 <= cursor_index(*cursor)->0 < cursor_blocks(*cursor).len()
                && block@ == cursor_blocks(*cursor)[cursor_index(*cursor)->0],
            None => cursor_index(*cursor)->0 >= cursor_blocks(*cursor).len(),
        },
{
    cursor.inner.item()
}

/// Calls `Cursor::next` on a cursor that has moved, which steps to the
/// following item, or stays past the last one.
#[verifier::external_body]
fn cursor_next(cursor: &mut BlockCursor<'_>)
    requires
        cursor_index(*old(cursor)) is Some,
    ensures
        cursor_blocks(*final(cursor)) == cursor_blocks(*old(cursor)),
        cursor_index(*final(cursor)) == Some(
            if cursor_index(*old(cursor))->0 < cursor_blocks(*old(cursor)).len() {
                cursor_index(*old(cursor))->0 + 1
            } else {
                cursor_blocks(*old(cursor)).len() as int
            },
        ),
{
    cursor.inner.next()
}

/// Calls `Cursor::suffix` on a cursor that has moved, which returns the
/// items from the one at hand to the last as a tree and leaves the cursor
/// past the last.
#[verifier::external_body]
fn cursor_suffix(cursor: &mut BlockCursor<'_>) -> (rest: BlockTree)
    requires
        cursor_index(*old(cursor)) is Some,
        0 <= cursor_index(*old(cursor))->0 <= cursor_blocks(*old(cursor)).len(),
    ensures
        cursor_blocks(*final(cursor)) == cursor_blocks(*old(cursor)),
        cursor_index(*final(cursor)) == Some(cursor_blocks(*old(cursor)).len() as int),
        tree_blocks(rest) == cursor_blocks(*old(cursor)).skip(cursor_index(*old(cursor))->0),
{
    BlockTree { inner: cursor.inner.suffix() }
}

impl View for BlockTree {
    type V = Seq<BlockView>;

    open spec fn view(&self) -> Seq<BlockView> {
        tree_blocks(*self)
    }
}

impl<'a> BlockCursor<'a> {
    /// The blocks of the tree that the cursor walks.
    pub open spec fn blocks(&self) -> Seq<BlockView> {
        cursor_blocks(*self)
    }

    /// The index of the block that the cursor stands at.
    pub open spec fn index(&self) -> Option<int> {
        cursor_index(*self)
    }

    /// Whether the cursor has moved and stands at a block or past the last.
    pub open spec fn has_moved(&self) -> bool {
        self.index() matches Some(index) && 0 <= index <= self.blocks().len()
    }

    /// Moves a new cursor forwards to `target` and returns the blocks that it
    /// passes as a tree.
    pub fn slice(&mut self, target: usize, bias: Bias) -> (passed: BlockTree)
        requires
            old(self).index() is None,
        ensures
            final(self).blocks() == old(self).blocks(),
            final(self).index() == Some(seek_index(old(self).blocks(), target as nat, bias)),
            final(self).has_moved(),
            passed@ == old(self).blocks().take(seek_index(old(self).blocks(), target as nat, bias)),
    {
        proof {
            lemma_seek_from(self.blocks(), target as nat, bias, 0);
        }
        cursor_slice(self, &Chars(target), bias)
    }

    /// Returns the number of characters in the blocks passed, as far as a
    /// count goes.
    pub fn start(&self) -> (start: usize)
        requires
            self.has_moved(),
        ensures
            start == capped(chars_before(self.blocks(), self.index()->0)),
    {
        cursor_start(self).0
    }

    /// Returns the block that the cursor stands at, or `None` past the last.
    pub fn item(&self) -> (item: Option<&'a TaggedBlock>)
        requires
            self.has_moved(),
        ensures
            match item {
                Some(block) => self.index()->0 < self.blocks().len() && block@
                    == self.blocks()[self.index()->0],
                None => self.index()->0 == self.blocks().len(),
            },
    {
        cursor_item(self)
    }

    /// Steps to the following block, or stays past the last one.
    pub fn next(&mut self)
        requires
            old(self).has_moved(),
        ensures
            final(self).blocks() == old(self).blocks(),
            final(self).has_moved(),
            final(self).index() == Some(
                if old(self).index()->0 < old(self).blocks().len() {
                    old(self).index()->0 + 1
                } else {
                    old(self).blocks().len() as int
                },
            ),
    {
        cursor_next(self)
    }

    /// Returns the blocks from the one at hand to the last as a tree.
    pub fn suffix(&mut self) -> (rest: BlockTree)
        requires
            old(self).has_moved(),
        ensures
            final(self).blocks() == old(self).blocks(),
            final(self).index() == Some(old(self).blocks().len() as int),
            rest@ == old(self).blocks().skip(old(self).index()->0),
    {
        cursor_suffix(self)
    }
}

/// Where a seek stops: within the blocks or at their end, at a block that it
/// does not pass, and behind blocks that it passes.
pub proof fn lemma_seek_from(blocks: Seq<BlockView>, target: nat, bias: Bias, from: int)
    requires
        0 <= from <= blocks.len(),
    ensures
        from <= seek_from(blocks, target, bias, from) <= blocks.len(),
        seek_from(blocks, target, bias, from) < blocks.len() ==> !passes_block(
            blocks,
            seek_from(blocks, target, bias, from),
            target,
            bias,
        ),
        forall|index: int|
            from <= index < seek_from(blocks, target, bias, from) ==> passes_block(
                blocks,
                index,
                target,
                bias,
            ),
    decreases blocks.len() - from,
{
    if from < blocks.len() && passes_block(blocks, from, target, bias) {
        lemma_seek_from(blocks, target, bias, from + 1);
    }
}

impl BlockTree {
    /// Makes a tree without blocks.
    pub fn new() -> (tree: BlockTree)
        ensures
            tree@ == Seq::<BlockView>::empty(),
    {
        tree_new()
    }

    /// Makes a tree of the given blocks, in their order.
    pub fn from_blocks(blocks: Vec<TaggedBlock>) -> (tree: BlockTree)
        ensures
            tree@ == block_views(blocks@),
    {
        tree_from_iter(blocks)
    }

    /// Appends a block.
    pub fn push(&mut self, block: TaggedBlock)
        ensures
            final(self)@ == old(self)@.push(block@),
    {
        tree_push(self, block)
    }

    /// Appends the blocks of `other`.
    pub fn append(&mut self, other: BlockTree)
        ensures
            final(self)@ == old(self)@ + other@,
    {
        tree_append(self, other)
    }

    /// Returns the blocks, in order.
    pub fn items(&self) -> (blocks: Vec<TaggedBlock>)
        ensures
            block_views(blocks@) == self@,
    {
        tree_items(self)
    }

    /// Returns the summary of all blocks.
    pub fn summary(&self) -> (summary: &TimelineSummary)
        ensures
            summary.is_wf(),
            summary@ == summary_of(self@),
    {
        tree_summary(self)
    }

    /// Opens a cursor over the blocks, by character count.
    pub fn cursor<'a>(&'a self) -> (cursor: BlockCursor<'a>)
        ensures
            cursor.blocks() == self@,
            cursor.index() is None,
    {
        tree_cursor(self)
    }
}

impl Clone for BlockTree {
    /// Returns a tree with the same blocks.
    fn clone(&self) -> (copy: BlockTree)
        ensures
            copy@ == self@,
    {
        tree_clone(self)
    }
}

impl Default for BlockTree {
    /// A tree without blocks.
    fn default() -> (tree: BlockTree)
        ensures
            tree@ == Seq::<BlockView>::empty(),
    {
        tree_new()
    }
}

} // verus!
