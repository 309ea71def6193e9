//! Blocks: the dated, tagged runs of text that a document consists of, and
//! what a sequence of them amounts to.

use crate::date::Date;
use vstd::prelude::*;

verus! {

/// A contiguous run of text with one date and one list of tag ids.
#[derive(Clone, Debug, PartialEq, Eq)]
pub struct TaggedBlock {
    pub date: Date,
    pub text: String,
    pub tags: Vec<u32>,
}

/// What a block holds, as mathematical values.
pub struct BlockView {
    pub date: Date,
    pub text: Seq<char>,
    pub tags: Seq<u32>,
}

impl View for TaggedBlock {
    type V = BlockView;

    open spec fn view(&self) -> BlockView {
        BlockView { date: self.date, text: self.text@, tags: self.tags@ }
    }
}

/// The views of `blocks`, in order.
pub open spec fn block_views(blocks: Seq<TaggedBlock>) -> Seq<BlockView> {
    blocks.map_values(|block: TaggedBlock| block@)
}

/// The number of bytes of `text` in UTF-8.
pub open spec fn text_bytes(text: Seq<char>) -> nat {
    vstd::utf8::encode_utf8(text).len()
}

/// The number of characters in all of `blocks`.
pub open spec fn total_chars(blocks: Seq<BlockView>) -> nat
    decreases blocks.len(),
{
    if blocks.len() == 0 {
        0
    } else {
        total_chars(blocks.drop_last()) + blocks.last().text.len()
    }
}

/// The number of UTF-8 bytes in all of `blocks`.
pub open spec fn total_bytes(blocks: Seq<BlockView>) -> nat
    decreases blocks.len(),
{
    if blocks.len() == 0 {
        0
    } else {
        total_bytes(blocks.drop_last()) + text_bytes(blocks.last().text)
    }
}

/// The texts of `blocks`, one after the other.
pub open spec fn content_of(blocks: Seq<BlockView>) -> Seq<char>
    decreases blocks.len(),
{
    if blocks.len() == 0 {
        Seq::<char>::empty()
    } else {
        content_of(blocks.drop_last()) + blocks.last().text
    }
}

/// The number of characters that stand before block `index`.
pub open spec fn chars_before(blocks: Seq<BlockView>, index: int) -> nat {
    total_chars(blocks.take(index))
}

/// The number of characters up to the end of block `index`.
pub open spec fn chars_through(blocks: Seq<BlockView>, index: int) -> nat {
    chars_before(blocks, index + 1)
}

/// One block holds the characters of its text.
pub proof fn lemma_total_chars_single(block: BlockView)
    ensures
        total_chars(seq![block]) == block.text.len(),
        content_of(seq![block]) == block.text,
{
    let single = seq![block];
    assert(single.drop_last() =~= Seq::<BlockView>::empty());
    assert(total_chars(single.drop_last()) == 0);
    assert(content_of(single.drop_last()) =~= Seq::<char>::empty());
    assert(single.last() == block);
    assert(content_of(single) =~= block.text);
}

/// The content of a concatenation is the concatenation of the contents.
pub proof fn lemma_content_concat(left: Seq<BlockView>, right: Seq<BlockView>)
    ensures
        content_of(left + right) == content_of(left) + content_of(right),
    decreases right.len(),
{
    if right.len() == 0 {
        assert(left + right =~= left);
        assert(content_of(left) + content_of(right) =~= content_of(left));
    } else {
        lemma_content_concat(left, right.drop_last());
        assert((left + right).drop_last() =~= left + right.drop_last());
        assert((left + right).last() == right.last());
        assert(content_of(left + right) =~= content_of(left) + content_of(right));
    }
}

/// The content has as many characters as the blocks hold.
pub proof fn lemma_content_len(blocks: Seq<BlockView>)
    ensures
        content_of(blocks).len() == total_chars(blocks),
    decreases blocks.len(),
{
    if blocks.len() > 0 {
        lemma_content_len(blocks.drop_last());
    }
}

/// The characters before a block grow with its index, by the text of the
/// block passed.
pub proof fn lemma_chars_before_step(blocks: Seq<BlockView>, index: int)
    requires
        0 <= index < blocks.len(),
    ensures
        chars_before(blocks, index + 1) == chars_before(blocks, index) + blocks[index].text.len(),
        content_of(blocks.take(index + 1)) == content_of(blocks.take(index)) + blocks[index].text,
{
    assert(blocks.take(index + 1).drop_last() =~= blocks.take(index));
    assert(blocks.take(index + 1).last() == blocks[index]);
}

/// No prefix of the blocks holds more characters than a longer one, or than
/// all of them.
pub proof fn lemma_chars_before_monotone(blocks: Seq<BlockView>, lower: int, upper: int)
    requires
        0 <= lower <= upper <= blocks.len(),
    ensures
        chars_before(blocks, lower) <= chars_before(blocks, upper),
        chars_before(blocks, blocks.len() as int) == total_chars(blocks),
    decreases upper - lower,
{
    assert(blocks.take(blocks.len() as int) =~= blocks);
    if lower < upper {
        lemma_chars_before_step(blocks, upper - 1);
        lemma_chars_before_monotone(blocks, lower, upper - 1);
    }
}

impl TaggedBlock {
    /// Returns the number of characters of the text.
    pub fn char_count(&self) -> (count: usize)
        ensures
            count == self@.text.len(),
    {
        self.text.as_str().unicode_len()
    }

    /// Returns the number of bytes of the text in UTF-8.
    pub fn byte_count(&self) -> (count: usize)
        ensures
            count == text_bytes(self@.text),
    {
        self.text.as_str().as_bytes().len()
    }

    /// Returns a copy of the block: its date, its text and its tags.
    pub fn duplicate(&self) -> (copy: TaggedBlock)
        ensures
            copy@ == self@,
    {
        TaggedBlock { date: self.date, text: self.text.clone(), tags: self.tags.clone() }
    }
}

} // verus!
