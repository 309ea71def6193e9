//! The Bloom filter over tag ids that every summary carries.
//!
//! All filters of this library share one geometry and one seed, so that two
//! of them can be united bit by bit and compare equal across processes.

use bloomfilter::Bloom;
use vstd::prelude::*;

verus! {

/// `bloomfilter::Bloom`: a Bloom filter. What a filter of tag ids consists
/// of is stated through `filter_bytes`.
#[verifier::external_type_specification]
#[verifier::external_body]
#[verifier::reject_recursive_types(T)]
pub struct ExBloom<T: ?Sized>(Bloom<T>);

/// Length of the header that stands before a filter's bits: a version byte,
/// the length of the bit region, the number of hash functions and the seed.
pub const FILTER_HEADER_LEN: usize = 45;

/// Expected number of tags per filter.
pub const TAG_FILTER_CAPACITY: usize = 256;

/// Bytes of a tag filter's bit region: the size for 256 items at a
/// false-positive rate of one in a hundred.
pub const TAG_FILTER_BYTES: usize = 307;

/// Length of a filter seed.
pub const FILTER_SEED_LEN: usize = 32;

/// The bytes that a filter consists of: its header, then its bit region.
pub uninterp spec fn filter_bytes(filter: Bloom<u32>) -> Seq<u8>;

/// The bytes of a filter newly made by `Bloom::new_with_seed` for a bit
/// region of `bitmap_size` bytes, `items_count` expected items and `seed`.
pub uninterp spec fn fresh_filter_bytes(bitmap_size: nat, items_count: nat, seed: Seq<u8>) -> Seq<
    u8,
>;

/// The bit positions that `Bloom::set` and `Bloom::check` visit for `tag` in
/// a filter with the given header: they follow from the seed, the number of
/// hash functions and the number of bits that the header records, and from
/// the hash of the tag, which is taken of its bytes as the machine at hand
/// orders them.
pub uninterp spec fn probe_bits(header: Seq<u8>, tag: u32) -> Set<nat>;

/// The number that `bytes` spell, least significant byte first.
pub open spec fn le_value(bytes: Seq<u8>) -> nat
    decreases bytes.len(),
{
    if bytes.len() == 0 {
        0
    } else {
        bytes[0] as nat + 256 * le_value(bytes.drop_first())
    }
}

/// The header of a filter's bytes.
pub open spec fn header_of(bytes: Seq<u8>) -> Seq<u8> {
    bytes.take(FILTER_HEADER_LEN as int)
}

/// Whether `bytes` are what a filter can consist of: version 1, a length
/// field equal to the size of the bit region, and at least one hash function.
pub open spec fn is_filter_image(bytes: Seq<u8>) -> bool {
    &&& bytes.len() >= FILTER_HEADER_LEN
    &&& bytes[0] == 1
    &&& le_value(bytes.subrange(9, 13)) != 0
    &&& le_value(bytes.subrange(1, 9)) == bytes.len() - FILTER_HEADER_LEN
}

/// The number of bits in the bit region of `bytes`.
pub open spec fn bit_count(bytes: Seq<u8>) -> nat {
    if bytes.len() >= FILTER_HEADER_LEN {
        (8 * (bytes.len() - FILTER_HEADER_LEN)) as nat
    } else {
        0
    }
}

/// The byte with only bit `shift` set.
pub open spec fn bit_mask(shift: nat) -> u8 {
    1u8 << ((shift % 8) as u8)
}

/// Whether bit `position` of the bit region of `bytes` is set.
pub open spec fn bit_is_set(bytes: Seq<u8>, position: nat) -> bool {
    bytes[FILTER_HEADER_LEN + position / 8] & bit_mask(position % 8) != 0
}

/// The positions of the bits that are set in the bit region of `bytes`.
pub open spec fn bits_of(bytes: Seq<u8>) -> Set<nat> {
    Set::new(|position: nat| position < bit_count(bytes) && bit_is_set(bytes, position))
}

/// Whether no bit is set in the bit region of `bytes`.
pub open spec fn has_no_bits(bytes: Seq<u8>) -> bool {
    forall|i: int| FILTER_HEADER_LEN <= i < bytes.len() ==> bytes[i] == 0
}

/// `target` with each byte of its bit region or-ed with that of `source`.
pub open spec fn or_of_bits(target: Seq<u8>, source: Seq<u8>) -> Seq<u8> {
    Seq::new(
        target.len(),
        |i: int|
            if i < FILTER_HEADER_LEN {
                target[i]
            } else {
                target[i] | source[i]
            },
    )
}

/// The bytes of the union of two filters: those of the one where the other
/// has no bit set, else `target` with the bits of `source` added.
pub open spec fn union_of(target: Seq<u8>, source: Seq<u8>) -> Seq<u8> {
    if has_no_bits(source) {
        target
    } else if has_no_bits(target) {
        source
    } else {
        or_of_bits(target, source)
    }
}

/// Whether a filter with these bytes reports `tag` as possibly present.
pub open spec fn tests_positive(bytes: Seq<u8>, tag: u32) -> bool {
    probe_bits(header_of(bytes), tag).subset_of(bits_of(bytes))
}

/// The seed of every tag filter: 32 zero bytes.
pub open spec fn tag_filter_seed() -> Seq<u8> {
    Seq::new(FILTER_SEED_LEN as nat, |i: int| 0u8)
}

/// The bytes of an empty tag filter.
pub open spec fn empty_tag_filter() -> Seq<u8> {
    fresh_filter_bytes(TAG_FILTER_BYTES as nat, TAG_FILTER_CAPACITY as nat, tag_filter_seed())
}

/// Whether `bytes` are those of a tag filter: the size and header of an
/// empty one, whatever its bits.
pub open spec fn is_tag_filter(bytes: Seq<u8>) -> bool {
    &&& bytes.len() == FILTER_HEADER_LEN + TAG_FILTER_BYTES
    &&& header_of(bytes) == header_of(empty_tag_filter())
    &&& is_filter_image(bytes)
}

/// Calls `Bloom::new_with_seed`. Its source shows that it always succeeds
/// on sizes that it accepts, allocates the header and a zeroed bit region of
/// `bitmap_size` bytes, and records version, length, a number of hash
/// functions of at least one and the seed in the header.
#[verifier::external_body]
fn fresh_filter(bitmap_size: usize, items_count: usize, seed: &[u8; 32]) -> (filter: Bloom<u32>)
    requires
        bitmap_size > 0,
        items_count > 0,
        bitmap_size + FILTER_HEADER_LEN <= usize::MAX,
        8 * bitmap_size <= u64::MAX,
    ensures
        filter_bytes(filter) == fresh_filter_bytes(
            bitmap_size as nat,
            items_count as nat,
            seed@,
        ),
        filter_bytes(filter).len() == FILTER_HEADER_LEN + bitmap_size,
        is_filter_image(filter_bytes(filter)),
        has_no_bits(filter_bytes(filter)),
{
    Bloom::new_with_seed(bitmap_size, items_count, seed).unwrap()
}

/// Calls `Bloom::set`, which sets the bits that it hashes the item to and
/// leaves the header and every other bit as they are. It divides by the
/// number of bits, so the bit region must not be empty.
#[verifier::external_body]
fn filter_set(filter: &mut Bloom<u32>, tag: &u32)
    requires
        filter_bytes(*old(filter)).len() > FILTER_HEADER_LEN,
    ensures
        filter_bytes(*final(filter)).len() == filter_bytes(*old(filter)).len(),
        header_of(filter_bytes(*final(filter))) == header_of(filter_bytes(*old(filter))),
        bits_of(filter_bytes(*final(filter))) == bits_of(filter_bytes(*old(filter))).union(
            probe_bits(header_of(filter_bytes(*old(filter))), *tag),
        ),
{
    filter.set(tag)
}

/// Calls `Bloom::check`, which answers whether every bit that it hashes the
/// item to is set. It divides by the number of bits, so the bit region must
/// not be empty.
#[verifier::external_body]
fn filter_check(filter: &Bloom<u32>, tag: &u32) -> (found: bool)
    requires
        filter_bytes(*filter).len() > FILTER_HEADER_LEN,
    ensures
        found == tests_positive(filter_bytes(*filter), *tag),
{
    filter.check(tag)
}

/// Calls `Bloom::is_empty`, which answers whether no byte of the bit region
/// is other than zero.
#[verifier::external_body]
fn filter_is_blank(filter: &Bloom<u32>) -> (blank: bool)
    ensures
        blank == has_no_bits(filter_bytes(*filter)),
{
    filter.is_empty()
}

/// Calls `Bloom::len`, which returns the number of bits: eight times the
/// length of the bit region.
#[verifier::external_body]
fn filter_len(filter: &Bloom<u32>) -> (bits: u64)
    ensures
        bits == 8 * (filter_bytes(*filter).len() - FILTER_HEADER_LEN),
{
    filter.len()
}

/// Calls `Bloom::to_bytes`, which copies header and bit region. Every filter
/// has a header that `Bloom::from_bytes` accepts: the constructors write or
/// check it, and no method changes it.
#[verifier::external_body]
fn filter_to_bytes(filter: &Bloom<u32>) -> (bytes: Vec<u8>)
    ensures
        bytes@ == filter_bytes(*filter),
        is_filter_image(bytes@),
{
    filter.to_bytes()
}

/// Calls `Bloom::as_slice`, which lends header and bit region.
#[verifier::external_body]
fn filter_as_slice(filter: &Bloom<u32>) -> (bytes: &[u8])
    ensures
        bytes@ == filter_bytes(*filter),
{
    filter.as_slice()
}

/// Calls `Bloom::from_bytes`, which keeps the bytes as they are where their
/// header is that of a filter, and reports an error otherwise. It multiplies
/// the length of the bit region by eight, which must fit in 64 bits.
#[verifier::external_body]
fn filter_from_bytes(bytes: Vec<u8>) -> (filter: Option<Bloom<u32>>)
    requires
        8 * (bytes@.len() - FILTER_HEADER_LEN) <= u64::MAX,
    ensures
        filter is Some <==> is_filter_image(bytes@),
        filter is Some ==> filter_bytes(filter->0) == bytes@,
{
    Bloom::from_bytes(bytes).ok()
}

/// Calls `Clone::clone` of `Bloom`, which copies every field.
#[verifier::external_body]
fn filter_clone(filter: &Bloom<u32>) -> (copy: Bloom<u32>)
    ensures
        filter_bytes(copy) == filter_bytes(*filter),
{
    filter.clone()
}

/// A bit is set in the or of two bytes exactly where it is set in one of them.
proof fn lemma_or_keeps_bits(a: u8, b: u8, mask: u8)
    ensures
        ((a | b) & mask != 0) == ((a & mask != 0) || (b & mask != 0)),
{
    assert(((a | b) & mask != 0) == ((a & mask != 0) || (b & mask != 0))) by (bit_vector);
}

/// A byte is zero exactly where none of its eight bits is set.
proof fn lemma_zero_byte_has_no_bit(a: u8, shift: u8)
    requires
        shift < 8,
    ensures
        a == 0 ==> a & (1u8 << shift) == 0,
{
    assert(a == 0 ==> a & (1u8 << shift) == 0) by (bit_vector);
}

/// The bits of the or of two bit regions are those of the one and those of
/// the other.
pub proof fn lemma_bits_of_or(target: Seq<u8>, source: Seq<u8>)
    requires
        target.len() == source.len(),
        target.len() >= FILTER_HEADER_LEN,
    ensures
        bits_of(or_of_bits(target, source)) == bits_of(target).union(bits_of(source)),
        header_of(or_of_bits(target, source)) == header_of(target),
        or_of_bits(target, source).len() == target.len(),
{
    let merged = or_of_bits(target, source);
    assert forall|p: nat| bits_of(merged).contains(p) == bits_of(target).union(
        bits_of(source),
    ).contains(p) by {
        if p < bit_count(target) {
            let at = FILTER_HEADER_LEN + p / 8;
            assert(merged[at] == target[at] | source[at]);
            lemma_or_keeps_bits(target[at], source[at], bit_mask(p % 8));
        }
    }
    assert(bits_of(merged) =~= bits_of(target).union(bits_of(source)));
    assert(header_of(merged) =~= header_of(target));
}

/// A bit region without a set byte holds no bit.
pub proof fn lemma_no_bits(bytes: Seq<u8>)
    requires
        has_no_bits(bytes),
    ensures
        bits_of(bytes) == Set::<nat>::empty(),
{
    assert forall|p: nat| !bits_of(bytes).contains(p) by {
        if p < bit_count(bytes) {
            let at = FILTER_HEADER_LEN + p / 8;
            assert(bytes[at] == 0);
            lemma_zero_byte_has_no_bit(bytes[at], ((p % 8) % 8) as u8);
        }
    }
    assert(bits_of(bytes) =~= Set::<nat>::empty());
}

/// The union of two filters of one size and header holds the bits of both,
/// under the header that they share.
pub proof fn lemma_union_of(target: Seq<u8>, source: Seq<u8>)
    requires
        target.len() == source.len(),
        target.len() >= FILTER_HEADER_LEN,
        header_of(target) == header_of(source),
    ensures
        bits_of(union_of(target, source)) == bits_of(target).union(bits_of(source)),
        header_of(union_of(target, source)) == header_of(target),
        union_of(target, source).len() == target.len(),
{
    if has_no_bits(source) {
        lemma_no_bits(source);
        assert(bits_of(target).union(bits_of(source)) =~= bits_of(target));
    } else if has_no_bits(target) {
        lemma_no_bits(target);
        assert(bits_of(target).union(bits_of(source)) =~= bits_of(source));
    } else {
        lemma_bits_of_or(target, source);
    }
}

/// Whether a header survives a change of the bytes behind it.
proof fn lemma_image_by_header(before: Seq<u8>, after: Seq<u8>)
    requires
        is_filter_image(before),
        after.len() == before.len(),
        header_of(after) == header_of(before),
    ensures
        is_filter_image(after),
{
    assert forall|i: int| 0 <= i < FILTER_HEADER_LEN implies after[i] == before[i] by {
        assert(header_of(after)[i] == after[i]);
        assert(header_of(before)[i] == before[i]);
    }
    assert(after.subrange(9, 13) =~= before.subrange(9, 13));
    assert(after.subrange(1, 9) =~= before.subrange(1, 9));
}

/// A filter that keeps the size and header of a tag filter is one.
pub proof fn lemma_tag_filter_by_header(before: Seq<u8>, after: Seq<u8>)
    requires
        is_tag_filter(before),
        after.len() == before.len(),
        header_of(after) == header_of(before),
    ensures
        is_tag_filter(after),
{
    lemma_image_by_header(before, after);
}

/// Makes an empty tag filter: 307 bytes of bits for 256 expected tags, under
/// the zero seed.
pub fn new_tag_filter() -> (filter: Bloom<u32>)
    ensures
        filter_bytes(filter) == empty_tag_filter(),
        is_tag_filter(filter_bytes(filter)),
        has_no_bits(filter_bytes(filter)),
{
    let seed: [u8; 32] = [0u8; 32];
    assert(seed@ =~= tag_filter_seed());
    fresh_filter(TAG_FILTER_BYTES, TAG_FILTER_CAPACITY, &seed)
}

/// Returns a copy of `filter`.
pub fn copy_filter(filter: &Bloom<u32>) -> (copy: Bloom<u32>)
    ensures
        filter_bytes(copy) == filter_bytes(*filter),
{
    filter_clone(filter)
}

/// Records `tag` in `filter`.
pub fn add_tag(filter: &mut Bloom<u32>, tag: u32)
    requires
        is_tag_filter(filter_bytes(*old(filter))),
    ensures
        is_tag_filter(filter_bytes(*final(filter))),
        bits_of(filter_bytes(*final(filter))) == bits_of(filter_bytes(*old(filter))).union(
            probe_bits(header_of(empty_tag_filter()), tag),
        ),
        tests_positive(filter_bytes(*final(filter)), tag),
{
    let ghost before = filter_bytes(*filter);
    filter_set(filter, &tag);
    proof {
        lemma_image_by_header(before, filter_bytes(*filter));
    }
}

/// Tests whether `filter` may hold `tag`: `false` means that it was never
/// recorded, `true` that it probably was.
pub fn may_hold_tag(filter: &Bloom<u32>, tag: u32) -> (found: bool)
    requires
        is_tag_filter(filter_bytes(*filter)),
    ensures
        found == tests_positive(filter_bytes(*filter), tag),
{
    filter_check(filter, &tag)
}

/// Tests whether `filter` has the size and header of a tag filter.
pub fn is_tag_filter_like(filter: &Bloom<u32>) -> (ok: bool)
    ensures
        ok == is_tag_filter(filter_bytes(*filter)),
{
    let fresh = new_tag_filter();
    let given = filter_to_bytes(filter);
    let wanted = filter_as_slice(&fresh);
    if given.len() != wanted.len() {
        return false;
    }
    let mut i: usize = 0;
    while i < FILTER_HEADER_LEN
        invariant
            i <= FILTER_HEADER_LEN,
            given@ == filter_bytes(*filter),
            wanted@ == empty_tag_filter(),
            is_filter_image(given@),
            given@.len() == wanted@.len(),
            wanted@.len() == FILTER_HEADER_LEN + TAG_FILTER_BYTES,
            forall|j: int| 0 <= j < i ==> given@[j] == wanted@[j],
        decreases FILTER_HEADER_LEN - i,
    {
        if given[i] != wanted[i] {
            assert(header_of(given@)[i as int] != header_of(wanted@)[i as int]);
            return false;
        }
        i = i + 1;
    }
    assert(header_of(given@) =~= header_of(wanted@));
    true
}

/// Tests whether `filter` may hold `tag`, where it is a tag filter;
/// returns `None` where it is not.
pub fn test_tag(filter: &Bloom<u32>, tag: u32) -> (found: Option<bool>)
    ensures
        found == if is_tag_filter(filter_bytes(*filter)) {
            Some(tests_positive(filter_bytes(*filter), tag))
        } else {
            None
        },
{
    if is_tag_filter_like(filter) {
        Some(may_hold_tag(filter, tag))
    } else {
        None
    }
}

/// Whether two filters can be united: they have one size, unless one of
/// them has no bit set.
pub open spec fn can_unite(target: Seq<u8>, source: Seq<u8>) -> bool {
    has_no_bits(source) || has_no_bits(target) || target.len() == source.len()
}

/// Tests whether `union_tag_filters` accepts the two filters.
pub fn filters_can_unite(target: &Bloom<u32>, source: &Bloom<u32>) -> (ok: bool)
    ensures
        ok == can_unite(filter_bytes(*target), filter_bytes(*source)),
{
    if filter_is_blank(source) || filter_is_blank(target) {
        return true;
    }
    let target_bytes = filter_as_slice(target);
    let source_bytes = filter_as_slice(source);
    target_bytes.len() == source_bytes.len()
}

/// Adds the bits of `source` to `target`. Where `source` has no bit set,
/// `target` stays; where only `target` has none, it becomes a copy of
/// `source`; else each byte of its bit region is or-ed with that of `source`.
pub fn union_tag_filters(target: &mut Bloom<u32>, source: &Bloom<u32>)
    requires
        can_unite(filter_bytes(*old(target)), filter_bytes(*source)),
    ensures
        filter_bytes(*final(target)) == union_of(filter_bytes(*old(target)), filter_bytes(*source)),
{
    if filter_is_blank(source) {
        return ;
    }
    if filter_is_blank(target) {
        *target = filter_clone(source);
        return ;
    }
    let mut target_bytes = filter_to_bytes(target);
    let source_bytes = filter_as_slice(source);
    let ghost before = target_bytes@;
    let bits = filter_len(target);
    let total = target_bytes.len();
    let bit_bytes: usize = ((bits + 7) / 8) as usize;
    let header_len: usize = total - bit_bytes;
    assert(header_len == FILTER_HEADER_LEN);
    let mut i: usize = header_len;
    while i < total
        invariant
            FILTER_HEADER_LEN <= i <= total,
            total == before.len(),
            total == source_bytes@.len(),
            target_bytes@.len() == total,
            forall|j: int| 0 <= j < FILTER_HEADER_LEN ==> target_bytes@[j] == before[j],
            forall|j: int| FILTER_HEADER_LEN <= j < i ==> target_bytes@[j] == before[j] | source_bytes@[j],
            forall|j: int| i <= j < total ==> target_bytes@[j] == before[j],
        decreases total - i,
    {
        let merged: u8 = target_bytes[i] | source_bytes[i];
        target_bytes.set(i, merged);
        i = i + 1;
    }
    assert(target_bytes@ =~= or_of_bits(before, source_bytes@));
    proof {
        lemma_bits_of_or(before, source_bytes@);
        lemma_image_by_header(before, target_bytes@);
    }
    match filter_from_bytes(target_bytes) {
        Some(united) => {
            *target = united;
        },
        None => {
            assert(false);
        },
    }
}

} // verus!
