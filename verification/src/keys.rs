//! The packed path key: byte `i` (counting from the most significant) holds
//! the chosen child index at depth `i`; the sentinel byte 0xff means "no
//! selection yet" at that depth.  The all-sentinel key is the distinguished
//! start/exhausted value.

use vstd::prelude::*;

verus! {

/// The all-sentinel key: the start of an enumeration, and the value a cursor
/// is reset to once the enumeration is exhausted.
pub const KEY_NOT_FOUND: u64 = 0xffff_ffff_ffff_ffff;

/// Masks the key byte directly beneath the currently addressed level.
pub const KEY_MASK: u64 = 0x00ff_0000_0000_0000;

/// Byte `i` of a key, counting from the most significant (depth 0).
pub open spec fn byte_of(key: u64, i: int) -> u8 {
    if i == 0 {
        ((key >> 56) & 0xff) as u8
    } else if i == 1 {
        ((key >> 48) & 0xff) as u8
    } else if i == 2 {
        ((key >> 40) & 0xff) as u8
    } else if i == 3 {
        ((key >> 32) & 0xff) as u8
    } else if i == 4 {
        ((key >> 24) & 0xff) as u8
    } else if i == 5 {
        ((key >> 16) & 0xff) as u8
    } else if i == 6 {
        ((key >> 8) & 0xff) as u8
    } else {
        (key & 0xff) as u8
    }
}

/// All bytes from depth `i` down are the sentinel.
pub open spec fn all_sentinel_from(key: u64, i: int) -> bool {
    forall|j: int| i <= j < 8 ==> byte_of(key, j) == 0xff
}

pub open spec fn first_free_from(key: u64, i: int) -> int
    decreases 8 - i,
{
    if i >= 8 {
        8
    } else if all_sentinel_from(key, i) {
        i
    } else {
        first_free_from(key, i + 1)
    }
}

/// The depth a first-scan descends to: the least depth below which every
/// byte of the key is the sentinel.
pub open spec fn first_free(key: u64) -> int {
    first_free_from(key, 0)
}

pub open spec fn next_depth_from(key: u64, i: int) -> int
    decreases 7 - i,
{
    if i >= 7 {
        7
    } else if byte_of(key, i + 1) == 0xff {
        i
    } else {
        next_depth_from(key, i + 1)
    }
}

/// The depth a next-scan resumes at: the least depth whose byte directly
/// beneath is the sentinel (no deeper selection has been made there).
pub open spec fn next_depth(key: u64) -> int {
    next_depth_from(key, 0)
}

/// The child indices a key selects down to depth `d` (exclusive).
pub open spec fn prefix_path(key: u64, d: int) -> Seq<u8> {
    Seq::new(d as nat, |i: int| byte_of(key, i))
}

/// The full path a first-scan descends along.
pub open spec fn first_path(key: u64) -> Seq<u8> {
    prefix_path(key, first_free(key))
}

/// The key that encodes `path`: its bytes in order, sentinel-filled below.
pub open spec fn key_of_path(path: Seq<u8>) -> u64
    decreases path.len(),
{
    if path.len() == 0 {
        KEY_NOT_FOUND
    } else {
        ((path[0] as u64) << 56) | (key_of_path(path.drop_first()) >> 8)
    }
}

/// Every masked byte of a key fits in eight bits, so the casts inside
/// `byte_of` are exact.
pub proof fn lemma_byte_bounds(key: u64)
    ensures
        (key >> 56) & 0xff < 256,
        (key >> 48) & 0xff < 256,
        (key >> 40) & 0xff < 256,
        (key >> 32) & 0xff < 256,
        (key >> 24) & 0xff < 256,
        (key >> 16) & 0xff < 256,
        (key >> 8) & 0xff < 256,
        key & 0xff < 256,
{
    assert((key >> 56) & 0xff < 256 && (key >> 48) & 0xff < 256 && (key >> 40) & 0xff < 256 && (
    key >> 32) & 0xff < 256 && (key >> 24) & 0xff < 256 && (key >> 16) & 0xff < 256 && (key >> 8)
        & 0xff < 256 && key & 0xff < 256) by (bit_vector);
}

/// The all-sentinel key is exactly the key whose every byte is the sentinel.
pub proof fn lemma_start_iff_all_sentinel(key: u64)
    ensures
        (key == KEY_NOT_FOUND) <==> all_sentinel_from(key, 0),
{
    lemma_byte_bounds(key);
    assert((key == 0xffff_ffff_ffff_ffffu64) <==> ((key >> 56) & 0xff == 0xff && (key >> 48)
        & 0xff == 0xff && (key >> 40) & 0xff == 0xff && (key >> 32) & 0xff == 0xff && (key >> 24)
        & 0xff == 0xff && (key >> 16) & 0xff == 0xff && (key >> 8) & 0xff == 0xff && key & 0xff
        == 0xff)) by (bit_vector);
    if key == KEY_NOT_FOUND {
        assert forall|j: int| 0 <= j < 8 implies byte_of(key, j) == 0xff by {
        }
    } else {
        if all_sentinel_from(key, 0) {
            assert(byte_of(key, 0) == 0xff);
            assert(byte_of(key, 1) == 0xff);
            assert(byte_of(key, 2) == 0xff);
            assert(byte_of(key, 3) == 0xff);
            assert(byte_of(key, 4) == 0xff);
            assert(byte_of(key, 5) == 0xff);
            assert(byte_of(key, 6) == 0xff);
            assert(byte_of(key, 7) == 0xff);
        }
    }
}

/// Shifting a level off the key moves every byte up one depth and appends a
/// sentinel at the bottom.
pub proof fn lemma_tail_bytes(key: u64)
    ensures
        forall|i: int| 0 <= i < 7 ==> byte_of((key << 8) | 0xff, i) == byte_of(key, i + 1),
        byte_of((key << 8) | 0xff, 7) == 0xff,
{
    let tail = (key << 8) | 0xff;
    lemma_byte_bounds(key);
    lemma_byte_bounds(tail);
    assert((((key << 8) | 0xff) >> 56) & 0xff == (key >> 48) & 0xff && (((key << 8) | 0xff) >> 48)
        & 0xff == (key >> 40) & 0xff && (((key << 8) | 0xff) >> 40) & 0xff == (key >> 32) & 0xff
        && (((key << 8) | 0xff) >> 32) & 0xff == (key >> 24) & 0xff && (((key << 8) | 0xff) >> 24)
        & 0xff == (key >> 16) & 0xff && (((key << 8) | 0xff) >> 16) & 0xff == (key >> 8) & 0xff
        && (((key << 8) | 0xff) >> 8) & 0xff == key & 0xff && ((key << 8) | 0xff) & 0xff == 0xff)
        by (bit_vector);
    assert forall|i: int| 0 <= i < 7 implies byte_of(tail, i) == byte_of(key, i + 1) by {
    }
}

/// The leading byte of a key, as the exec code reads it.
pub proof fn lemma_head_byte(key: u64)
    ensures
        key >> 56 == byte_of(key, 0) as u64,
        key >> 56 <= 0xff,
{
    assert((key >> 56) & 0xff == key >> 56 && key >> 56 <= 0xff) by (bit_vector);
}

proof fn lemma_tail_sentinel_from(key: u64, i: int)
    requires
        0 <= i <= 7,
    ensures
        all_sentinel_from((key << 8) | 0xff, i) <==> all_sentinel_from(key, i + 1),
{
    let tail = (key << 8) | 0xff;
    lemma_tail_bytes(key);
    if all_sentinel_from(tail, i) {
        assert forall|j: int| i + 1 <= j < 8 implies byte_of(key, j) == 0xff by {
            assert(byte_of(tail, j - 1) == 0xff);
        }
    }
    if all_sentinel_from(key, i + 1) {
        assert forall|j: int| i <= j < 8 implies byte_of(tail, j) == 0xff by {
            if j < 7 {
                assert(byte_of(key, j + 1) == 0xff);
            }
        }
    }
}

/// `first_free_from` lies between its start depth and 8, stops at a
/// sentinel tail, and skips no earlier one.
pub proof fn lemma_first_free_from_bounds(key: u64, i: int)
    requires
        0 <= i <= 8,
    ensures
        i <= first_free_from(key, i) <= 8,
        all_sentinel_from(key, first_free_from(key, i)),
        forall|j: int| i <= j < first_free_from(key, i) ==> !all_sentinel_from(key, j),
    decreases 8 - i,
{
    if i < 8 && !all_sentinel_from(key, i) {
        lemma_first_free_from_bounds(key, i + 1);
    }
}

proof fn lemma_first_free_from_shift(key: u64, i: int)
    requires
        0 <= i <= 7,
    ensures
        first_free_from((key << 8) | 0xff, i) == first_free_from(key, i + 1) - 1,
    decreases 8 - i,
{
    let tail = (key << 8) | 0xff;
    lemma_tail_sentinel_from(key, i);
    lemma_tail_bytes(key);
    if all_sentinel_from(tail, i) {
    } else {
        assert(byte_of(tail, 7) == 0xff);
        assert(all_sentinel_from(tail, 7));
        assert(i < 7);
        lemma_first_free_from_shift(key, i + 1);
    }
}

/// Consuming the leading byte of a non-exhausted key leaves a key whose
/// first-scan depth is one less.
pub proof fn lemma_tail_first_free(key: u64)
    requires
        key != KEY_NOT_FOUND,
    ensures
        1 <= first_free(key) <= 8,
        first_free((key << 8) | 0xff) == first_free(key) - 1,
{
    lemma_start_iff_all_sentinel(key);
    lemma_first_free_from_bounds(key, 0);
    lemma_first_free_from_shift(key, 0);
    assert(first_free_from(key, 0) == first_free_from(key, 1));
}

/// `next_depth_from` lies between its start depth and 7, stops where the
/// byte beneath is a sentinel, and skips no earlier such depth.
pub proof fn lemma_next_depth_from_bounds(key: u64, i: int)
    requires
        0 <= i <= 7,
    ensures
        i <= next_depth_from(key, i) <= 7,
        next_depth_from(key, i) < 7 ==> byte_of(key, next_depth_from(key, i) + 1) == 0xff,
        forall|j: int| i <= j < next_depth_from(key, i) ==> #[trigger] byte_of(key, j + 1)
            != 0xff,
    decreases 7 - i,
{
    if i < 7 && byte_of(key, i + 1) != 0xff {
        lemma_next_depth_from_bounds(key, i + 1);
    }
}

proof fn lemma_next_depth_from_shift(key: u64, i: int)
    requires
        0 <= i <= 6,
    ensures
        next_depth_from((key << 8) | 0xff, i) == next_depth_from(key, i + 1) - 1,
    decreases 6 - i,
{
    let tail = (key << 8) | 0xff;
    lemma_tail_bytes(key);
    if i == 6 {
        assert(byte_of(tail, 7) == 0xff);
    } else {
        assert(byte_of(tail, i + 1) == byte_of(key, i + 2));
        if byte_of(tail, i + 1) == 0xff {
        } else {
            lemma_next_depth_from_shift(key, i + 1);
        }
    }
}

/// Consuming the leading byte of a key that has a selection beneath its
/// addressed level leaves a key whose next-scan depth is one less.
pub proof fn lemma_tail_next_depth(key: u64)
    requires
        byte_of(key, 1) != 0xff,
    ensures
        1 <= next_depth(key) <= 7,
        next_depth((key << 8) | 0xff) == next_depth(key) - 1,
{
    lemma_next_depth_from_bounds(key, 0);
    lemma_next_depth_from_shift(key, 0);
    assert(next_depth_from(key, 0) == next_depth_from(key, 1));
}

/// The key that encodes a single chosen index: that index on top, sentinels
/// beneath.
pub proof fn lemma_key_of_single(j: u8)
    ensures
        key_of_path(seq![j]) == ((j as u64) << 56) | 0x00ff_ffff_ffff_ffff,
        byte_of(key_of_path(seq![j]), 0) == j,
        forall|i: int| 1 <= i < 8 ==> byte_of(key_of_path(seq![j]), i) == 0xff,
        j != 0xff ==> key_of_path(seq![j]) != KEY_NOT_FOUND,
{
    let p = seq![j];
    assert(p.len() == 1);
    assert(p[0] == j);
    assert(p.drop_first() =~= Seq::<u8>::empty());
    assert(key_of_path(Seq::<u8>::empty()) == KEY_NOT_FOUND);
    assert(0xffff_ffff_ffff_ffffu64 >> 8 == 0x00ff_ffff_ffff_ffffu64) by (bit_vector);
    assert(key_of_path(p) == ((j as u64) << 56) | 0x00ff_ffff_ffff_ffff);
    let k = ((j as u64) << 56) | 0x00ff_ffff_ffff_ffffu64;
    assert(((((j as u64) << 56) | 0x00ff_ffff_ffff_ffffu64) >> 56) & 0xff == j as u64 && ((((
    j as u64) << 56) | 0x00ff_ffff_ffff_ffffu64) >> 48) & 0xff == 0xff && ((((j as u64) << 56)
        | 0x00ff_ffff_ffff_ffffu64) >> 40) & 0xff == 0xff && ((((j as u64) << 56)
        | 0x00ff_ffff_ffff_ffffu64) >> 32) & 0xff == 0xff && ((((j as u64) << 56)
        | 0x00ff_ffff_ffff_ffffu64) >> 24) & 0xff == 0xff && ((((j as u64) << 56)
        | 0x00ff_ffff_ffff_ffffu64) >> 16) & 0xff == 0xff && ((((j as u64) << 56)
        | 0x00ff_ffff_ffff_ffffu64) >> 8) & 0xff == 0xff && (((j as u64) << 56)
        | 0x00ff_ffff_ffff_ffffu64) & 0xff == 0xff && (j != 0xff ==> (((j as u64) << 56)
        | 0x00ff_ffff_ffff_ffffu64) != 0xffff_ffff_ffff_ffffu64)) by (bit_vector);
    assert(byte_of(k, 0) == j);
    assert forall|i: int| 1 <= i < 8 implies byte_of(k, i) == 0xff by {
    }
}

/// The start key selects no path at all.
pub proof fn lemma_first_path_start()
    ensures
        first_path(KEY_NOT_FOUND) == Seq::<u8>::empty(),
{
    lemma_start_iff_all_sentinel(KEY_NOT_FOUND);
    assert(first_free_from(KEY_NOT_FOUND, 0) == 0);
    assert(first_path(KEY_NOT_FOUND) =~= Seq::<u8>::empty());
}

/// A first-scan path splits into the key's leading byte followed by the
/// path of the key with that byte consumed.
pub proof fn lemma_first_path_decompose(key: u64)
    requires
        key != KEY_NOT_FOUND,
    ensures
        first_path(key) == seq![byte_of(key, 0)] + first_path((key << 8) | 0xff),
{
    let tail = (key << 8) | 0xff;
    lemma_tail_first_free(key);
    lemma_tail_bytes(key);
    let lhs = first_path(key);
    let rhs = seq![byte_of(key, 0)] + first_path(tail);
    assert forall|i: int| 0 <= i < lhs.len() implies lhs[i] == rhs[i] by {
        if i > 0 {
            assert(rhs[i] == byte_of(tail, i - 1));
            assert(byte_of(tail, i - 1) == byte_of(key, i));
        }
    }
    assert(lhs =~= rhs);
}

/// A next-scan path splits the same way, and the byte scanned past at the
/// bottom is preserved.
pub proof fn lemma_next_path_decompose(key: u64)
    requires
        byte_of(key, 1) != 0xff,
    ensures
        prefix_path(key, next_depth(key)) == seq![byte_of(key, 0)] + prefix_path(
            (key << 8) | 0xff,
            next_depth((key << 8) | 0xff),
        ),
        byte_of(key, next_depth(key)) == byte_of((key << 8) | 0xff, next_depth((key << 8) | 0xff)),
{
    let tail = (key << 8) | 0xff;
    lemma_tail_next_depth(key);
    lemma_tail_bytes(key);
    let nd = next_depth(key);
    let lhs = prefix_path(key, nd);
    let rhs = seq![byte_of(key, 0)] + prefix_path(tail, nd - 1);
    assert forall|i: int| 0 <= i < lhs.len() implies lhs[i] == rhs[i] by {
        if i > 0 {
            assert(rhs[i] == byte_of(tail, i - 1));
            assert(byte_of(tail, i - 1) == byte_of(key, i));
        }
    }
    assert(lhs =~= rhs);
    assert(byte_of(tail, nd - 1) == byte_of(key, nd));
}

/// The mask test the exec code uses reads exactly the byte at depth 1.
pub proof fn lemma_mask_is_byte_one(key: u64)
    ensures
        (key & KEY_MASK == KEY_MASK) <==> byte_of(key, 1) == 0xff,
{
    lemma_byte_bounds(key);
    assert((key & 0x00ff_0000_0000_0000u64 == 0x00ff_0000_0000_0000u64) <==> ((key >> 48) & 0xff
        == 0xff)) by (bit_vector);
}

} // verus!
