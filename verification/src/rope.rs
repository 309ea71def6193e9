//! Positional edits of a block tree: inserting text at a character position
//! and deleting a range of characters.
//!
//! An insert adds one new block and splits the block that it falls into; a
//! delete trims the blocks at both ends of the range and drops those between.
//! The fragments of a split block keep its date and its tags.

use crate::api::TextOperation;
use crate::block::{
    chars_before, chars_through, content_of, lemma_chars_before_monotone, lemma_chars_before_step,
    lemma_content_concat, lemma_content_len, lemma_total_chars_single,
    total_chars, BlockView, TaggedBlock,
};
use crate::date::Date;
use crate::summary::lemma_summary_facts;
use crate::text::{decimal_digits, push_decimal, split_at_char};
use crate::tree::{seek_from, BlockTree};
use vstd::prelude::*;
use zed_sum_tree::Bias;

verus! {

/// Why an edit was refused.
#[derive(Debug, Clone, Copy, PartialEq, Eq, Structural)]
pub enum ApplyOpsError {
    /// The edit was made against another version than the current one.
    VersionMismatch { expected: u64, actual: u64 },
    /// The position lies behind the end of the document.
    InvalidPosition { position: usize },
    /// The range is reversed, or ends behind the end of the document.
    InvalidRange { start: usize, end: usize },
}

impl ApplyOpsError {
    /// The error in words.
    pub open spec fn message_text(self) -> Seq<char> {
        match self {
            ApplyOpsError::VersionMismatch { expected, actual } => {
                "version mismatch: expected "@ + decimal_digits(expected as nat) + ", got "@
                    + decimal_digits(actual as nat)
            },
            ApplyOpsError::InvalidPosition { position } => {
                "invalid position: "@ + decimal_digits(position as nat)
            },
            ApplyOpsError::InvalidRange { start, end } => {
                "invalid range: "@ + decimal_digits(start as nat) + ".."@ + decimal_digits(
                    end as nat,
                )
            },
        }
    }

    /// Returns the error in words.
    pub fn message(&self) -> (text: String)
        ensures
            text@ == self.message_text(),
    {
        match self {
            ApplyOpsError::VersionMismatch { expected, actual } => {
                let mut text = String::from_str("version mismatch: expected ");
                push_decimal(&mut text, *expected);
                text.append(", got ");
                push_decimal(&mut text, *actual);
                text
            },
            ApplyOpsError::InvalidPosition { position } => {
                let mut text = String::from_str("invalid position: ");
                push_decimal(&mut text, *position as u64);
                text
            },
            ApplyOpsError::InvalidRange { start, end } => {
                let mut text = String::from_str("invalid range: ");
                push_decimal(&mut text, *start as u64);
                text.append("..");
                push_decimal(&mut text, *end as u64);
                text
            },
        }
    }
}

/// The index of the first block from `from` on that ends at or behind
/// character `position`; the number of blocks where none does.
pub open spec fn holder_from(blocks: Seq<BlockView>, position: nat, from: int) -> int
    decreases blocks.len() - from,
{
    if from >= blocks.len() {
        blocks.len() as int
    } else if chars_through(blocks, from) >= position {
        from
    } else {
        holder_from(blocks, position, from + 1)
    }
}

/// The index of the block that holds the character before `position`, for a
/// position from 1 to the number of characters.
pub open spec fn holder(blocks: Seq<BlockView>, position: nat) -> int {
    holder_from(blocks, position, 0)
}

/// The block made of the part `text` of `block`, with its date and tags;
/// nothing where the part is empty.
pub open spec fn piece_of(block: BlockView, text: Seq<char>) -> Seq<BlockView> {
    if text.len() == 0 {
        Seq::<BlockView>::empty()
    } else {
        seq![BlockView { date: block.date, text: text, tags: block.tags }]
    }
}

/// The block that an insert adds: the text under the given date, untagged.
pub open spec fn fresh_block(text: Seq<char>, date: Date) -> BlockView {
    BlockView { date: date, text: text, tags: Seq::<u32>::empty() }
}

/// The blocks after `text` was inserted at character `position`, for a text
/// that is not empty and a position within the document.
///
/// At position 0 the new block comes first. Elsewhere the block that holds
/// the character before the position is cut there: what stands before the
/// cut stays in front of the new block, what stands behind it, if anything,
/// follows.
pub open spec fn insert_into(
    blocks: Seq<BlockView>,
    position: nat,
    text: Seq<char>,
    date: Date,
) -> Seq<BlockView> {
    if position == 0 {
        seq![fresh_block(text, date)] + blocks
    } else {
        let at = holder(blocks, position);
        let cut = position - chars_before(blocks, at);
        blocks.take(at) + piece_of(blocks[at], blocks[at].text.take(cut)) + seq![
            fresh_block(text, date),
        ] + piece_of(blocks[at], blocks[at].text.skip(cut)) + blocks.skip(at + 1)
    }
}

/// The blocks after the characters from `start` to `end` were deleted, for
/// `start < end` within the document.
///
/// The blocks before the one that holds the character before `start` stay,
/// then what that block has before `start`, then what the block that holds
/// the character before `end` has behind it, then the blocks that follow.
pub open spec fn delete_from(blocks: Seq<BlockView>, start: nat, end: nat) -> Seq<BlockView> {
    let last = holder(blocks, end);
    let tail = piece_of(blocks[last], blocks[last].text.skip(end - chars_before(blocks, last)))
        + blocks.skip(last + 1);
    if start == 0 {
        tail
    } else {
        let first = holder(blocks, start);
        blocks.take(first) + piece_of(
            blocks[first],
            blocks[first].text.take(start - chars_before(blocks, first)),
        ) + tail
    }
}

/// What an insert does: nothing for an empty text, an error for a position
/// behind the end, else the blocks of `insert_into`.
pub open spec fn insert_outcome(
    blocks: Seq<BlockView>,
    position: usize,
    text: Seq<char>,
    date: Date,
) -> Result<Seq<BlockView>, ApplyOpsError> {
    if text.len() == 0 {
        Ok(blocks)
    } else if position > total_chars(blocks) {
        Err(ApplyOpsError::InvalidPosition { position })
    } else {
        Ok(insert_into(blocks, position as nat, text, date))
    }
}

/// What a delete does: nothing for an empty range, an error for a reversed
/// range or one that ends behind the end, else the blocks of `delete_from`.
pub open spec fn delete_outcome(blocks: Seq<BlockView>, start: usize, end: usize) -> Result<
    Seq<BlockView>,
    ApplyOpsError,
> {
    if start == end {
        Ok(blocks)
    } else if start > end || end > total_chars(blocks) {
        Err(ApplyOpsError::InvalidRange { start, end })
    } else {
        Ok(delete_from(blocks, start as nat, end as nat))
    }
}

/// Where the holder of a position stands: at a block that ends at or behind
/// the position, and behind blocks that end before it.
pub proof fn lemma_holder_from(blocks: Seq<BlockView>, position: nat, from: int)
    requires
        0 <= from <= blocks.len(),
    ensures
        from <= holder_from(blocks, position, from) <= blocks.len(),
        holder_from(blocks, position, from) < blocks.len() ==> chars_through(
            blocks,
            holder_from(blocks, position, from),
        ) >= position,
        forall|index: int|
            from <= index < holder_from(blocks, position, from) ==> #[trigger] chars_through(
                blocks,
                index,
            ) < position,
    decreases blocks.len() - from,
{
    if from < blocks.len() && chars_through(blocks, from) < position {
        lemma_holder_from(blocks, position, from + 1);
    }
}

/// A position from 1 to the number of characters has a holder, and lies
/// behind the start of that block and not behind its end.
pub proof fn lemma_holder(blocks: Seq<BlockView>, position: nat)
    requires
        0 < position <= total_chars(blocks),
    ensures
        0 <= holder(blocks, position) < blocks.len(),
        chars_before(blocks, holder(blocks, position)) < position,
        position <= chars_before(blocks, holder(blocks, position)) + blocks[holder(
            blocks,
            position,
        )].text.len(),
{
    lemma_holder_from(blocks, position, 0);
    let at = holder(blocks, position);
    lemma_chars_before_monotone(blocks, 0, blocks.len() as int);
    if at == blocks.len() {
        if blocks.len() > 0 {
            assert(chars_through(blocks, blocks.len() - 1) < position);
        } else {
            assert(blocks.take(0) =~= blocks);
        }
        assert(false);
    }
    lemma_chars_before_step(blocks, at);
    if at > 0 {
        assert(chars_through(blocks, at - 1) < position);
    } else {
        assert(blocks.take(0) =~= Seq::<BlockView>::empty());
    }
}

/// A cursor that seeks a position with a left bias stops at its holder.
pub proof fn lemma_seek_is_holder(blocks: Seq<BlockView>, position: nat, from: int)
    requires
        0 <= from <= blocks.len(),
        position <= usize::MAX,
    ensures
        seek_from(blocks, position, Bias::Left, from) == holder_from(blocks, position, from),
    decreases blocks.len() - from,
{
    if from < blocks.len() {
        lemma_seek_is_holder(blocks, position, from + 1);
    }
}

/// The content and the characters of a piece are those of its text.
pub proof fn lemma_piece(block: BlockView, text: Seq<char>)
    ensures
        content_of(piece_of(block, text)) == text,
        total_chars(piece_of(block, text)) == text.len(),
{
    if text.len() == 0 {
        assert(content_of(piece_of(block, text)) =~= text);
    } else {
        lemma_total_chars_single(BlockView { date: block.date, text: text, tags: block.tags });
    }
}

/// The content up to a position and from it on, by the block that holds the
/// character before it.
pub proof fn lemma_content_around(blocks: Seq<BlockView>, position: nat)
    requires
        0 < position <= total_chars(blocks),
    ensures
        content_of(blocks).take(position as int) == content_of(
            blocks.take(holder(blocks, position)),
        ) + blocks[holder(blocks, position)].text.take(
            position - chars_before(blocks, holder(blocks, position)),
        ),
        content_of(blocks).skip(position as int) == blocks[holder(blocks, position)].text.skip(
            position - chars_before(blocks, holder(blocks, position)),
        ) + content_of(blocks.skip(holder(blocks, position) + 1)),
{
    lemma_holder(blocks, position);
    let at = holder(blocks, position);
    let before = blocks.take(at);
    let after = blocks.skip(at + 1);
    let text = blocks[at].text;
    let cut = position - chars_before(blocks, at);
    assert(blocks =~= before + seq![blocks[at]] + after);
    lemma_content_concat(before + seq![blocks[at]], after);
    lemma_content_concat(before, seq![blocks[at]]);
    lemma_total_chars_single(blocks[at]);
    lemma_content_len(before);
    let whole = content_of(before) + text + content_of(after);
    assert(content_of(blocks) == whole);
    assert(whole.take(position as int) =~= content_of(before) + text.take(cut));
    assert(whole.skip(position as int) =~= text.skip(cut) + content_of(after));
}

/// After an insert the content is the old content with the text put in at
/// the position, and the document has grown by the characters of the text.
pub proof fn lemma_insert_content(
    blocks: Seq<BlockView>,
    position: nat,
    text: Seq<char>,
    date: Date,
)
    requires
        position <= total_chars(blocks),
    ensures
        content_of(insert_into(blocks, position, text, date)) == content_of(blocks).take(
            position as int,
        ) + text + content_of(blocks).skip(position as int),
        total_chars(insert_into(blocks, position, text, date)) == total_chars(blocks)
            + text.len(),
{
    let fresh = seq![fresh_block(text, date)];
    lemma_total_chars_single(fresh_block(text, date));
    lemma_content_len(blocks);
    if position == 0 {
        lemma_content_concat(fresh, blocks);
        assert(content_of(blocks).take(0) + text + content_of(blocks).skip(0) =~= text
            + content_of(blocks));
    } else {
        lemma_holder(blocks, position);
        lemma_content_around(blocks, position);
        let at = holder(blocks, position);
        let cut = position - chars_before(blocks, at);
        let head = blocks.take(at);
        let left = piece_of(blocks[at], blocks[at].text.take(cut));
        let right = piece_of(blocks[at], blocks[at].text.skip(cut));
        let tail = blocks.skip(at + 1);
        lemma_piece(blocks[at], blocks[at].text.take(cut));
        lemma_piece(blocks[at], blocks[at].text.skip(cut));
        lemma_content_concat(head + left + fresh + right, tail);
        lemma_content_concat(head + left + fresh, right);
        lemma_content_concat(head + left, fresh);
        lemma_content_concat(head, left);
        let after = content_of(insert_into(blocks, position, text, date));
        assert(after =~= content_of(blocks).take(position as int) + text + content_of(
            blocks,
        ).skip(position as int));
    }
    lemma_content_len(insert_into(blocks, position, text, date));
}

/// After a delete the content is the old content without the range, and the
/// document has shrunk by the length of the range.
pub proof fn lemma_delete_content(blocks: Seq<BlockView>, start: nat, end: nat)
    requires
        start < end <= total_chars(blocks),
    ensures
        content_of(delete_from(blocks, start, end)) == content_of(blocks).take(start as int)
            + content_of(blocks).skip(end as int),
        total_chars(delete_from(blocks, start, end)) == total_chars(blocks) - (end - start),
{
    lemma_content_len(blocks);
    lemma_holder(blocks, end);
    lemma_content_around(blocks, end);
    let last = holder(blocks, end);
    let kept = blocks[last].text.skip(end - chars_before(blocks, last));
    let tail = piece_of(blocks[last], kept) + blocks.skip(last + 1);
    lemma_piece(blocks[last], kept);
    lemma_content_concat(piece_of(blocks[last], kept), blocks.skip(last + 1));
    assert(content_of(tail) == content_of(blocks).skip(end as int));
    if start == 0 {
        assert(content_of(blocks).take(0) + content_of(blocks).skip(end as int) =~= content_of(
            blocks,
        ).skip(end as int));
    } else {
        lemma_holder(blocks, start);
        lemma_content_around(blocks, start);
        let first = holder(blocks, start);
        let stays = blocks[first].text.take(start - chars_before(blocks, first));
        lemma_piece(blocks[first], stays);
        lemma_content_concat(blocks.take(first) + piece_of(blocks[first], stays), tail);
        lemma_content_concat(blocks.take(first), piece_of(blocks[first], stays));
    }
    lemma_content_len(delete_from(blocks, start, end));
}


/// An insert at position 0 of a document without blocks yields the one new
/// block.
pub proof fn lemma_insert_into_empty(text: Seq<char>, date: Date)
    ensures
        insert_into(Seq::<BlockView>::empty(), 0, text, date) == seq![fresh_block(text, date)],
{
    assert(seq![fresh_block(text, date)] + Seq::<BlockView>::empty() =~= seq![
        fresh_block(text, date),
    ]);
}

/// An insert at the end of a document whose last block has text appends the
/// new block and splits nothing.
pub proof fn lemma_insert_at_end(blocks: Seq<BlockView>, text: Seq<char>, date: Date)
    requires
        blocks.len() == 0 || blocks.last().text.len() > 0,
    ensures
        insert_into(blocks, total_chars(blocks), text, date) == blocks.push(
            fresh_block(text, date),
        ),
{
    let position = total_chars(blocks);
    if blocks.len() == 0 {
        assert(seq![fresh_block(text, date)] + blocks =~= blocks.push(fresh_block(text, date)));
    } else {
        let last = blocks.len() - 1;
        lemma_chars_before_monotone(blocks, 0, blocks.len() as int);
        lemma_chars_before_step(blocks, last);
        lemma_holder(blocks, position);
        lemma_holder_from(blocks, position, 0);
        let at = holder(blocks, position);
        if at < last {
            lemma_chars_before_monotone(blocks, at + 1, last);
            assert(chars_through(blocks, at) >= position);
        }
        assert(at == last);
        let whole = blocks[at].text;
        assert(whole.take(whole.len() as int) =~= whole);
        assert(whole.skip(whole.len() as int) =~= Seq::<char>::empty());
        assert(blocks.skip(at + 1) =~= Seq::<BlockView>::empty());
        assert(insert_into(blocks, position, text, date) =~= blocks.push(
            fresh_block(text, date),
        ));
    }
}

/// An insert within a block leaves, where the block stood, the part before
/// the cut, the new block and the part behind the cut; both parts have the
/// date and the tags of the block.
pub proof fn lemma_insert_splits(
    blocks: Seq<BlockView>,
    position: nat,
    text: Seq<char>,
    date: Date,
)
    requires
        0 < position <= total_chars(blocks),
        position < chars_through(blocks, holder(blocks, position)),
    ensures
        ({
            let at = holder(blocks, position);
            let cut = position - chars_before(blocks, at);
            let after = insert_into(blocks, position, text, date);
            &&& after.len() == blocks.len() + 2
            &&& after.take(at) == blocks.take(at)
            &&& after[at] == BlockView {
                date: blocks[at].date,
                text: blocks[at].text.take(cut),
                tags: blocks[at].tags,
            }
            &&& after[at + 1] == fresh_block(text, date)
            &&& after[at + 2] == BlockView {
                date: blocks[at].date,
                text: blocks[at].text.skip(cut),
                tags: blocks[at].tags,
            }
            &&& after.skip(at + 3) == blocks.skip(at + 1)
        }),
{
    lemma_holder(blocks, position);
    let at = holder(blocks, position);
    lemma_chars_before_step(blocks, at);
    let after = insert_into(blocks, position, text, date);
    assert(after.take(at) =~= blocks.take(at));
    assert(after.skip(at + 3) =~= blocks.skip(at + 1));
}

/// A delete that starts within one block and ends within a later one leaves
/// the part of the first before the range and the part of the second behind
/// it as two blocks, each with the date and the tags that it had, between
/// the blocks before the first and the blocks behind the second.
pub proof fn lemma_delete_spans(blocks: Seq<BlockView>, start: nat, end: nat)
    requires
        0 < start < end <= total_chars(blocks),
        end < chars_through(blocks, holder(blocks, end)),
    ensures
        ({
            let first = holder(blocks, start);
            let last = holder(blocks, end);
            let after = delete_from(blocks, start, end);
            &&& first <= last
            &&& after.len() == first + 2 + (blocks.len() - last - 1)
            &&& after.take(first) == blocks.take(first)
            &&& after[first] == BlockView {
                date: blocks[first].date,
                text: blocks[first].text.take(start - chars_before(blocks, first)),
                tags: blocks[first].tags,
            }
            &&& after[first + 1] == BlockView {
                date: blocks[last].date,
                text: blocks[last].text.skip(end - chars_before(blocks, last)),
                tags: blocks[last].tags,
            }
            &&& after.skip(first + 2) == blocks.skip(last + 1)
        }),
{
    lemma_holder(blocks, start);
    lemma_holder(blocks, end);
    lemma_holder_from(blocks, start, 0);
    lemma_holder_from(blocks, end, 0);
    let first = holder(blocks, start);
    let last = holder(blocks, end);
    lemma_chars_before_step(blocks, last);
    if last < first {
        assert(chars_through(blocks, last) < start);
    }
    let after = delete_from(blocks, start, end);
    assert(after.take(first) =~= blocks.take(first));
    assert(after.skip(first + 2) =~= blocks.skip(last + 1));
}

/// Makes the block that an insert adds.
fn new_block(text: &str, date: Date) -> (block: TaggedBlock)
    ensures
        block@ == fresh_block(text@, date),
{
    TaggedBlock { date, text: String::from_str(text), tags: Vec::new() }
}

/// Makes a block of the part `text` of `block`, with its date and a copy of
/// its tags.
fn fragment_of(block: &TaggedBlock, text: String) -> (part: TaggedBlock)
    ensures
        part@ == (BlockView { date: block@.date, text: text@, tags: block@.tags }),
{
    TaggedBlock { date: block.date, text, tags: block.tags.clone() }
}

/// Inserts `text` at character `position`, as a new block under `date`.
///
/// An empty text changes nothing. A position behind the end of the document
/// is refused, and the tree stays as it is.
pub fn apply_insert(tree: &mut BlockTree, position: usize, text: &str, date: Date) -> (result:
    Result<(), ApplyOpsError>)
    ensures
        match result {
            Ok(()) => insert_outcome(old(tree)@, position, text@, date) == Ok::<
                Seq<BlockView>,
                ApplyOpsError,
            >(final(tree)@),
            Err(error) => insert_outcome(old(tree)@, position, text@, date) == Err::<
                Seq<BlockView>,
                ApplyOpsError,
            >(error) && final(tree)@ == old(tree)@,
        },
        result is Ok && text@.len() > 0 ==> content_of(final(tree)@) == content_of(
            old(tree)@,
        ).take(position as int) + text@ + content_of(old(tree)@).skip(position as int),
        result is Ok && text@.len() > 0 ==> total_chars(final(tree)@) == total_chars(old(tree)@)
            + text@.len(),
{
    if text.is_empty() {
        return Ok(());
    }
    let ghost blocks = tree@;
    proof {
        lemma_summary_facts(blocks);
    }
    let total_chars = tree.summary().total_chars;
    if position > total_chars {
        return Err(ApplyOpsError::InvalidPosition { position });
    }
    proof {
        lemma_seek_is_holder(blocks, position as nat, 0);
        lemma_insert_content(blocks, position as nat, text@, date);
        if position > 0 {
            lemma_holder(blocks, position as nat);
        } else {
            lemma_holder_from(blocks, 0, 0);
            assert(blocks.take(0) =~= Seq::<BlockView>::empty());
        }
    }
    let rebuilt = {
        let mut cursor = tree.cursor();
        let mut left_tree = cursor.slice(position, Bias::Left);
        let consumed = cursor.start();
        let offset_in_item = position - consumed;

        if offset_in_item > 0 {
            let current = match cursor.item() {
                Some(block) => block,
                None => {
                    return Err(ApplyOpsError::InvalidPosition { position });
                },
            };
            let char_count = current.char_count();
            if offset_in_item > char_count {
                return Err(ApplyOpsError::InvalidPosition { position });
            }
            let (left_fragment, right_fragment) = match split_at_char(
                current.text.as_str(),
                offset_in_item,
            ) {
                Some(parts) => parts,
                None => {
                    return Err(ApplyOpsError::InvalidPosition { position });
                },
            };

            if !left_fragment.as_str().is_empty() {
                left_tree.push(fragment_of(current, left_fragment));
            }
            left_tree.push(new_block(text, date));

            let mut right_tree = BlockTree::new();
            if !right_fragment.as_str().is_empty() {
                right_tree.push(fragment_of(current, right_fragment));
            }
            cursor.next();
            right_tree.append(cursor.suffix());
            left_tree.append(right_tree);
        } else {
            left_tree.push(new_block(text, date));
            left_tree.append(cursor.suffix());
        }
        assert(left_tree@ =~= insert_into(blocks, position as nat, text@, date));
        left_tree
    };
    *tree = rebuilt;
    Ok(())
}

/// Deletes the characters from `start` to `end`.
///
/// An empty range changes nothing. A reversed range, or one that ends behind
/// the end of the document, is refused, and the tree stays as it is.
pub fn apply_delete(tree: &mut BlockTree, start: usize, end: usize) -> (result: Result<
    (),
    ApplyOpsError,
>)
    ensures
        match result {
            Ok(()) => delete_outcome(old(tree)@, start, end) == Ok::<
                Seq<BlockView>,
                ApplyOpsError,
            >(final(tree)@),
            Err(error) => delete_outcome(old(tree)@, start, end) == Err::<
                Seq<BlockView>,
                ApplyOpsError,
            >(error) && final(tree)@ == old(tree)@,
        },
        result is Ok && start < end ==> content_of(final(tree)@) == content_of(old(tree)@).take(
            start as int,
        ) + content_of(old(tree)@).skip(end as int),
        result is Ok && start < end ==> total_chars(final(tree)@) == total_chars(old(tree)@) - (
        end - start),
{
    if start == end {
        return Ok(());
    }
    if start > end {
        return Err(ApplyOpsError::InvalidRange { start, end });
    }
    let ghost blocks = tree@;
    proof {
        lemma_summary_facts(blocks);
    }
    let total_chars = tree.summary().total_chars;
    if start > total_chars || end > total_chars {
        return Err(ApplyOpsError::InvalidRange { start, end });
    }
    proof {
        lemma_seek_is_holder(blocks, start as nat, 0);
        lemma_seek_is_holder(blocks, end as nat, 0);
        lemma_delete_content(blocks, start as nat, end as nat);
        lemma_holder(blocks, end as nat);
        if start > 0 {
            lemma_holder(blocks, start as nat);
        } else {
            lemma_holder_from(blocks, 0, 0);
            assert(blocks.take(0) =~= Seq::<BlockView>::empty());
        }
    }
    let rebuilt = {
        let mut left_tree = {
            let mut prefix_cursor = tree.cursor();
            let mut left_tree = prefix_cursor.slice(start, Bias::Left);
            let consumed = prefix_cursor.start();
            let offset_in_item = start - consumed;

            if offset_in_item > 0 {
                let current = match prefix_cursor.item() {
                    Some(block) => block,
                    None => {
                        return Err(ApplyOpsError::InvalidRange { start, end });
                    },
                };
                let char_count = current.char_count();
                if offset_in_item > char_count {
                    return Err(ApplyOpsError::InvalidRange { start, end });
                }
                let (left_fragment, _right_fragment) = match split_at_char(
                    current.text.as_str(),
                    offset_in_item,
                ) {
                    Some(parts) => parts,
                    None => {
                        return Err(ApplyOpsError::InvalidRange { start, end });
                    },
                };

                if !left_fragment.as_str().is_empty() {
                    left_tree.push(fragment_of(current, left_fragment));
                }
                prefix_cursor.next();
            }
            left_tree
        };

        let mut suffix_cursor = tree.cursor();
        let _ = suffix_cursor.slice(end, Bias::Left);
        let consumed_end = suffix_cursor.start();
        if consumed_end > end {
            return Err(ApplyOpsError::InvalidRange { start, end });
        }
        let tail_offset = end - consumed_end;

        let mut right_tree = BlockTree::new();
        match suffix_cursor.item() {
            Some(item) => {
                let char_count = item.char_count();
                if tail_offset > char_count {
                    return Err(ApplyOpsError::InvalidRange { start, end });
                }
                let (_, tail) = match split_at_char(item.text.as_str(), tail_offset) {
                    Some(parts) => parts,
                    None => {
                        return Err(ApplyOpsError::InvalidRange { start, end });
                    },
                };

                if !tail.as_str().is_empty() {
                    right_tree.push(fragment_of(item, tail));
                }
                suffix_cursor.next();
            },
            None => {
                if tail_offset != 0 {
                    return Err(ApplyOpsError::InvalidRange { start, end });
                }
            },
        }

        right_tree.append(suffix_cursor.suffix());
        left_tree.append(right_tree);
        assert(left_tree@ =~= delete_from(blocks, start as nat, end as nat));
        left_tree
    };
    *tree = rebuilt;
    Ok(())
}


/// What one operation does to the blocks.
pub open spec fn op_outcome(blocks: Seq<BlockView>, op: TextOperation, date: Date) -> Result<
    Seq<BlockView>,
    ApplyOpsError,
> {
    match op {
        TextOperation::Insert { position, text } => insert_outcome(blocks, position, text@, date),
        TextOperation::Delete { start_position, end_position } => delete_outcome(
            blocks,
            start_position,
            end_position,
        ),
    }
}

/// What a list of operations does to the blocks: each is applied to what
/// the one before left, until one is refused. The result holds the blocks
/// as the last accepted operation left them, and the error of the refused
/// one if there is one.
pub open spec fn ops_outcome(blocks: Seq<BlockView>, ops: Seq<TextOperation>, date: Date) -> (
    Seq<BlockView>,
    Option<ApplyOpsError>,
)
    decreases ops.len(),
{
    if ops.len() == 0 {
        (blocks, None)
    } else {
        match op_outcome(blocks, ops[0], date) {
            Ok(next) => ops_outcome(next, ops.drop_first(), date),
            Err(error) => (blocks, Some(error)),
        }
    }
}

/// A document that takes text operations.
pub trait EditableTimeline {
    /// The blocks of the document.
    spec fn blocks(&self) -> Seq<BlockView>;

    /// Applies the operations in order, inserting under the given date. The
    /// first operation that is refused ends the run: those before it stay
    /// applied.
    fn apply_ops(&mut self, ops: &[TextOperation], date_for_inserts: Date) -> (result: Result<
        (),
        ApplyOpsError,
    >)
        ensures
            final(self).blocks() == ops_outcome(old(self).blocks(), ops@, date_for_inserts).0,
            result == match ops_outcome(old(self).blocks(), ops@, date_for_inserts).1 {
                None => Ok::<(), ApplyOpsError>(()),
                Some(error) => Err::<(), ApplyOpsError>(error),
            },
    ;
}

impl EditableTimeline for BlockTree {
    open spec fn blocks(&self) -> Seq<BlockView> {
        self@
    }

    fn apply_ops(&mut self, ops: &[TextOperation], date_for_inserts: Date) -> (result: Result<
        (),
        ApplyOpsError,
    >) {
        let ghost start = self@;
        let mut i: usize = 0;
        assert(ops@.skip(0) =~= ops@);
        while i < ops.len()
            invariant
                i <= ops.len(),
                start == old(self)@,
                ops_outcome(start, ops@, date_for_inserts) == ops_outcome(
                    self@,
                    ops@.skip(i as int),
                    date_for_inserts,
                ),
            decreases ops.len() - i,
        {
            assert(ops@.skip(i as int).drop_first() =~= ops@.skip(i + 1));
            assert(ops@.skip(i as int)[0] == ops@[i as int]);
            let ghost before = self@;
            let outcome = match &ops[i] {
                TextOperation::Insert { position, text } => apply_insert(
                    self,
                    *position,
                    text.as_str(),
                    date_for_inserts,
                ),
                TextOperation::Delete { start_position, end_position } => apply_delete(
                    self,
                    *start_position,
                    *end_position,
                ),
            };
            match outcome {
                Ok(()) => {
                    assert(op_outcome(before, ops@[i as int], date_for_inserts) == Ok::<
                        Seq<BlockView>,
                        ApplyOpsError,
                    >(self@));
                },
                Err(error) => {
                    assert(op_outcome(before, ops@[i as int], date_for_inserts) == Err::<
                        Seq<BlockView>,
                        ApplyOpsError,
                    >(error));
                    return Err(error);
                },
            }
            i = i + 1;
        }
        Ok(())
    }
}

} // verus!
