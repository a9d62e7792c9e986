//! Little-endian integers and sub-ranges of byte sequences.
//!
//! Every on-disk integer is little-endian. The spec functions here name the
//! integer stored at an offset of a byte sequence; the executable readers
//! return exactly that integer.

use vstd::prelude::*;

verus! {

/// The `u16` stored at `at`, least significant byte first.
pub open spec fn le_u16(bytes: Seq<u8>, at: int) -> u16 {
    (bytes[at] + 0x100 * bytes[at + 1]) as u16
}

/// The `u32` stored at `at`, least significant byte first.
pub open spec fn le_u32(bytes: Seq<u8>, at: int) -> u32 {
    (bytes[at] + 0x100 * bytes[at + 1] + 0x1_0000 * bytes[at + 2] + 0x100_0000 * bytes[at
        + 3]) as u32
}

/// The `u64` stored at `at`, least significant byte first.
pub open spec fn le_u64(bytes: Seq<u8>, at: int) -> u64 {
    (le_u32(bytes, at) + 0x1_0000_0000 * le_u32(bytes, at + 4)) as u64
}

/// The `i32` whose two's-complement bits are `raw`.
pub open spec fn signed_u32(raw: u32) -> i32 {
    if raw < 0x8000_0000 {
        raw as i32
    } else {
        (raw - 0x1_0000_0000) as i32
    }
}

/// The `i64` whose two's-complement bits are `raw`.
pub open spec fn signed_u64(raw: u64) -> i64 {
    if raw < 0x8000_0000_0000_0000 {
        raw as i64
    } else {
        (raw - 0x1_0000_0000_0000_0000) as i64
    }
}

/// The `i32` stored at `at`, least significant byte first.
pub open spec fn le_i32(bytes: Seq<u8>, at: int) -> i32 {
    signed_u32(le_u32(bytes, at))
}

/// The `i64` stored at `at`, least significant byte first.
pub open spec fn le_i64(bytes: Seq<u8>, at: int) -> i64 {
    signed_u64(le_u64(bytes, at))
}

/// The four bytes of `value`, least significant first.
pub open spec fn u32_le_bytes(value: u32) -> Seq<u8> {
    seq![
        (value % 0x100) as u8,
        (value / 0x100 % 0x100) as u8,
        (value / 0x1_0000 % 0x100) as u8,
        (value / 0x100_0000) as u8,
    ]
}

/// The eight bytes of `value`, least significant first.
pub open spec fn u64_le_bytes(value: u64) -> Seq<u8> {
    u32_le_bytes((value % 0x1_0000_0000) as u32) + u32_le_bytes((value / 0x1_0000_0000) as u32)
}

/// The bytes from `start` up to `end`, when that range lies inside `bytes`.
pub open spec fn range(bytes: Seq<u8>, start: int, end: int) -> Option<Seq<u8>> {
    if 0 <= start <= end <= bytes.len() {
        Some(bytes.subrange(start, end))
    } else {
        None
    }
}

/// The part of `bytes` before its first zero byte; all of it without one.
pub open spec fn before_nul(bytes: Seq<u8>) -> Seq<u8>
    decreases bytes.len(),
{
    if bytes.len() == 0 || bytes[0] == 0 {
        Seq::empty()
    } else {
        seq![bytes[0]] + before_nul(bytes.drop_first())
    }
}

/// Reading back the bytes of a `u32` gives the value they were made from.
pub proof fn lemma_u32_round_trip(value: u32)
    ensures
        le_u32(u32_le_bytes(value), 0) == value,
        u32_le_bytes(value).len() == 4,
{
}

/// Reading back the bytes of a `u64` gives the value they were made from.
pub proof fn lemma_u64_round_trip(value: u64)
    ensures
        le_u64(u64_le_bytes(value), 0) == value,
        u64_le_bytes(value).len() == 8,
{
    let low = (value % 0x1_0000_0000) as u32;
    let high = (value / 0x1_0000_0000) as u32;
    let bytes = u64_le_bytes(value);
    lemma_u32_round_trip(low);
    lemma_u32_round_trip(high);
    assert(le_u32(bytes, 0) == low);
    assert(le_u32(bytes, 4) == high) by {
        assert(bytes[4] == u32_le_bytes(high)[0]);
        assert(bytes[5] == u32_le_bytes(high)[1]);
        assert(bytes[6] == u32_le_bytes(high)[2]);
        assert(bytes[7] == u32_le_bytes(high)[3]);
    }
}

/// The prefix before the first zero byte is a prefix without zero bytes, and
/// it ends at the end of the input or right before a zero.
pub proof fn lemma_before_nul(bytes: Seq<u8>)
    ensures
        before_nul(bytes).len() <= bytes.len(),
        before_nul(bytes) == bytes.take(before_nul(bytes).len() as int),
        !before_nul(bytes).contains(0u8),
        before_nul(bytes).len() < bytes.len() ==> bytes[before_nul(bytes).len() as int] == 0,
    decreases bytes.len(),
{
    if bytes.len() > 0 && bytes[0] != 0 {
        let rest = bytes.drop_first();
        lemma_before_nul(rest);
        let found = before_nul(bytes);
        assert(found == seq![bytes[0]] + before_nul(rest));
        assert(found =~= bytes.take(found.len() as int)) by {
            assert forall|i: int| 0 <= i < found.len() implies found[i] == bytes[i] by {
                if i > 0 {
                    assert(before_nul(rest)[i - 1] == rest[i - 1]);
                }
            }
        }
        assert forall|i: int| 0 <= i < found.len() implies found[i] != 0 by {
            if i > 0 {
                assert(before_nul(rest)[i - 1] != 0) by {
                    assert(before_nul(rest).contains(before_nul(rest)[i - 1]));
                }
            }
        }
    }
}

/// A prefix without zeros that ends at the end or before a zero is the prefix
/// before the first zero byte.
pub proof fn lemma_before_nul_is(bytes: Seq<u8>, n: int)
    requires
        0 <= n <= bytes.len(),
        forall|i: int| 0 <= i < n ==> bytes[i] != 0,
        n < bytes.len() ==> bytes[n] == 0,
    ensures
        before_nul(bytes) == bytes.take(n),
    decreases bytes.len(),
{
    if n > 0 {
        let rest = bytes.drop_first();
        assert forall|i: int| 0 <= i < n - 1 implies rest[i] != 0 by {
            assert(rest[i] == bytes[i + 1]);
        }
        lemma_before_nul_is(rest, n - 1);
        assert(seq![bytes[0]] + rest.take(n - 1) =~= bytes.take(n));
    } else {
        assert(bytes.take(0) =~= Seq::<u8>::empty());
    }
}

/// Reads the `u16` at `at`.
pub fn read_u16(bytes: &[u8], at: usize) -> (value: u16)
    requires
        at + 2 <= bytes@.len(),
    ensures
        value == le_u16(bytes@, at as int),
{
    bytes[at] as u16 + 0x100 * (bytes[at + 1] as u16)
}

/// Reads the `u32` at `at`.
pub fn read_u32(bytes: &[u8], at: usize) -> (value: u32)
    requires
        at + 4 <= bytes@.len(),
    ensures
        value == le_u32(bytes@, at as int),
{
    bytes[at] as u32 + 0x100 * (bytes[at + 1] as u32) + 0x1_0000 * (bytes[at + 2] as u32)
        + 0x100_0000 * (bytes[at + 3] as u32)
}

/// Reads the `u64` at `at`.
pub fn read_u64(bytes: &[u8], at: usize) -> (value: u64)
    requires
        at + 8 <= bytes@.len(),
    ensures
        value == le_u64(bytes@, at as int),
{
    assert(bytes.len() == bytes@.len());
    read_u32(bytes, at) as u64 + 0x1_0000_0000 * (read_u32(bytes, at + 4) as u64)
}

/// The signed integer with the bits of `raw`.
pub fn to_signed_u32(raw: u32) -> (value: i32)
    ensures
        value == signed_u32(raw),
{
    if raw < 0x8000_0000 {
        raw as i32
    } else {
        -((0xFFFF_FFFF - raw) as i32) - 1
    }
}

/// The signed integer with the bits of `raw`.
pub fn to_signed_u64(raw: u64) -> (value: i64)
    ensures
        value == signed_u64(raw),
{
    if raw < 0x8000_0000_0000_0000 {
        raw as i64
    } else {
        -((0xFFFF_FFFF_FFFF_FFFF - raw) as i64) - 1
    }
}

/// Reads the `i32` at `at`.
pub fn read_i32(bytes: &[u8], at: usize) -> (value: i32)
    requires
        at + 4 <= bytes@.len(),
    ensures
        value == le_i32(bytes@, at as int),
{
    to_signed_u32(read_u32(bytes, at))
}

/// Reads the `i64` at `at`.
pub fn read_i64(bytes: &[u8], at: usize) -> (value: i64)
    requires
        at + 8 <= bytes@.len(),
    ensures
        value == le_i64(bytes@, at as int),
{
    to_signed_u64(read_u64(bytes, at))
}

/// Copies the sixteen bytes at `at` into an array.
pub fn read_bytes16(bytes: &[u8], at: usize) -> (value: [u8; 16])
    requires
        at + 16 <= bytes@.len(),
    ensures
        value@ == bytes@.subrange(at as int, at + 16),
{
    let value: [u8; 16] = [
        bytes[at],
        bytes[at + 1],
        bytes[at + 2],
        bytes[at + 3],
        bytes[at + 4],
        bytes[at + 5],
        bytes[at + 6],
        bytes[at + 7],
        bytes[at + 8],
        bytes[at + 9],
        bytes[at + 10],
        bytes[at + 11],
        bytes[at + 12],
        bytes[at + 13],
        bytes[at + 14],
        bytes[at + 15],
    ];
    assert(value@ =~= bytes@.subrange(at as int, at + 16));
    value
}

/// The sub-slice from `start` up to `end`, when it lies inside `bytes`.
pub fn get_range(bytes: &[u8], start: usize, end: usize) -> (found: Option<&[u8]>)
    ensures
        match found {
            Some(slice) => range(bytes@, start as int, end as int) == Some(slice@),
            None => range(bytes@, start as int, end as int) is None,
        },
{
    if start <= end && end <= bytes.len() {
        Some(vstd::slice::slice_subrange(bytes, start, end))
    } else {
        None
    }
}

/// The sub-slice from `start` to the end of `bytes`.
pub fn skip_bytes(bytes: &[u8], start: usize) -> (rest: &[u8])
    requires
        start <= bytes@.len(),
    ensures
        rest@ == bytes@.skip(start as int),
{
    vstd::slice::slice_subrange(bytes, start, bytes.len())
}

/// The sub-slice before the first zero byte.
pub fn until_nul(bytes: &[u8]) -> (prefix: &[u8])
    ensures
        prefix@ == before_nul(bytes@),
{
    let mut n: usize = 0;
    while n < bytes.len() && bytes[n] != 0
        invariant
            n <= bytes@.len(),
            forall|i: int| 0 <= i < n ==> bytes@[i] != 0,
        decreases bytes@.len() - n,
    {
        n += 1;
    }
    proof {
        lemma_before_nul_is(bytes@, n as int);
    }
    vstd::slice::slice_subrange(bytes, 0, n)
}

/// Whether two byte slices hold the same bytes.
pub fn same_bytes(left: &[u8], right: &[u8]) -> (same: bool)
    ensures
        same == (left@ == right@),
{
    if left.len() != right.len() {
        return false;
    }
    let mut i: usize = 0;
    while i < left.len()
        invariant
            left@.len() == right@.len(),
            i <= left@.len(),
            forall|j: int| 0 <= j < i ==> left@[j] == right@[j],
        decreases left@.len() - i,
    {
        if left[i] != right[i] {
            return false;
        }
        i += 1;
    }
    assert(left@ =~= right@);
    true
}

/// Appends the four bytes of `value`, least significant first.
pub fn push_u32(out: &mut Vec<u8>, value: u32)
    ensures
        final(out)@ == old(out)@ + u32_le_bytes(value),
{
    out.push((value % 0x100) as u8);
    out.push((value / 0x100 % 0x100) as u8);
    out.push((value / 0x1_0000 % 0x100) as u8);
    out.push((value / 0x100_0000) as u8);
    assert(out@ =~= old(out)@ + u32_le_bytes(value));
}

/// The eight bytes of `value`, least significant first.
pub fn u64_bytes(value: u64) -> (out: Vec<u8>)
    ensures
        out@ == u64_le_bytes(value),
{
    let mut out: Vec<u8> = Vec::new();
    push_u32(&mut out, (value % 0x1_0000_0000) as u32);
    push_u32(&mut out, (value / 0x1_0000_0000) as u32);
    assert(out@ =~= u64_le_bytes(value));
    out
}

/// Whether bit `index` of a bitmap is set.
pub open spec fn bit_set(bitmap: Seq<u8>, index: int) -> bool {
    bitmap[index / 8] & (1u8 << ((index % 8) as u8)) != 0
}

/// Whether bit `index` of a bitmap is set.
pub fn test_bit(bitmap: &[u8], index: u64) -> (set: bool)
    requires
        index / 8 < bitmap@.len(),
    ensures
        set == bit_set(bitmap@, index as int),
{
    let byte: u8 = bitmap[(index / 8) as usize];
    let shift: u8 = (index % 8) as u8;
    byte & (1u8 << shift) != 0
}

/// A stored word's bytes weigh 1, 256, 65536 and so on, in the order in which they
/// lie; a signed word whose top bit is set is the unsigned one less the range of its
/// type.
pub proof fn law_bytes_weigh_by_their_place(bytes: Seq<u8>, at: int)
    ensures
        le_u16(bytes, at) == bytes[at] + 256 * bytes[at + 1],
        le_u32(bytes, at) == bytes[at] + 256 * (bytes[at + 1] + 256 * (bytes[at + 2] + 256
            * bytes[at + 3])),
        le_u64(bytes, at) == bytes[at] + 256 * (bytes[at + 1] + 256 * (bytes[at + 2] + 256 * (
        bytes[at + 3] + 256 * (bytes[at + 4] + 256 * (bytes[at + 5] + 256 * (bytes[at + 6] + 256
            * bytes[at + 7])))))),
        le_i32(bytes, at) == le_u32(bytes, at) - if bytes[at + 3] >= 128 {
            0x1_0000_0000int
        } else {
            0
        },
        le_i64(bytes, at) == le_u64(bytes, at) - if bytes[at + 7] >= 128 {
            0x1_0000_0000_0000_0000int
        } else {
            0
        },
{
}

/// A word's bytes are those that weigh up to it: four bytes of a `u32`, eight of a
/// `u64`, each read back where it lies, whatever lies around them.
pub proof fn law_stored_words_are_read_back(before: Seq<u8>, short: u32, long: u64, after: Seq<u8>)
    ensures
        le_u32(before + u32_le_bytes(short) + after, before.len() as int) == short,
        le_u64(before + u64_le_bytes(long) + after, before.len() as int) == long,
{
    let at = before.len() as int;
    lemma_u32_round_trip(short);
    lemma_u64_round_trip(long);
    let four = before + u32_le_bytes(short) + after;
    let eight = before + u64_le_bytes(long) + after;
    assert forall|i: int| 0 <= i < 4 implies four[at + i] == u32_le_bytes(short)[i] by {}
    assert forall|i: int| 0 <= i < 8 implies eight[at + i] == u64_le_bytes(long)[i] by {}
    assert(four[at] == u32_le_bytes(short)[0]);
    assert(eight[at] == u64_le_bytes(long)[0]);
}

/// The prefix before the first zero byte has no zero byte, is followed by one or by
/// the end, and is what the input starts with.
pub proof fn law_prefix_ends_at_the_first_zero(bytes: Seq<u8>)
    ensures
        ({
            let prefix = before_nul(bytes);
            &&& prefix.len() <= bytes.len()
            &&& forall|i: int| 0 <= i < prefix.len() ==> prefix[i] == bytes[i] && prefix[i] != 0
            &&& prefix.len() < bytes.len() ==> bytes[prefix.len() as int] == 0
        }),
{
    lemma_before_nul(bytes);
    let prefix = before_nul(bytes);
    assert forall|i: int| 0 <= i < prefix.len() implies prefix[i] == bytes[i] && prefix[i]
        != 0 by {
        assert(prefix[i] == bytes.take(prefix.len() as int)[i]);
        assert(prefix.contains(prefix[i]));
    }
}

/// Bit `index` of a bitmap weighs 1, 2, 4 and so on, from the low end of byte
/// `index / 8`: it is set exactly when that byte, less its lower bits, is odd.
pub proof fn law_bits_weigh_from_the_low_end(bitmap: Seq<u8>, index: int)
    requires
        0 <= index,
    ensures
        ({
            let byte = bitmap[index / 8];
            let place = index % 8;
            bit_set(bitmap, index) <==> (if place == 0 {
                byte % 2
            } else if place == 1 {
                byte / 2 % 2
            } else if place == 2 {
                byte / 4 % 2
            } else if place == 3 {
                byte / 8 % 2
            } else if place == 4 {
                byte / 16 % 2
            } else if place == 5 {
                byte / 32 % 2
            } else if place == 6 {
                byte / 64 % 2
            } else {
                byte / 128
            }) == 1
        }),
{
    let byte = bitmap[index / 8];
    assert((byte & (1u8 << 0u8) != 0 <==> byte % 2 == 1) && (byte & (1u8 << 1u8) != 0 <==> byte / 2
        % 2 == 1) && (byte & (1u8 << 2u8) != 0 <==> byte / 4 % 2 == 1) && (byte & (1u8 << 3u8)
        != 0 <==> byte / 8 % 2 == 1) && (byte & (1u8 << 4u8) != 0 <==> byte / 16 % 2 == 1) && (byte
        & (1u8 << 5u8) != 0 <==> byte / 32 % 2 == 1) && (byte & (1u8 << 6u8) != 0 <==> byte / 64 % 2
        == 1) && (byte & (1u8 << 7u8) != 0 <==> byte / 128 == 1)) by (bit_vector);
}

proof fn lemma_low_bits(word: u64, low: u8, rest: int)
    requires
        word == low + 256 * rest,
    ensures
        word % 2 == low % 2,
        word / 2 % 2 == low / 2 % 2,
        word / 4 % 2 == low / 4 % 2,
        word / 8 % 2 == low / 8 % 2,
{
    assert(word / 2 == low / 2 + 128 * rest);
    assert(word / 4 == low / 4 + 64 * rest);
    assert(word / 8 == low / 8 + 32 * rest);
}

/// The four lowest bits of a word are those of its first byte.
pub proof fn lemma_low_bits_of_word(bytes: Seq<u8>, at: int)
    ensures
        le_u64(bytes, at) & 1 == 1 <==> bytes[at] % 2 == 1,
        le_u64(bytes, at) & 2 == 2 <==> bytes[at] / 2 % 2 == 1,
        le_u64(bytes, at) & 4 == 4 <==> bytes[at] / 4 % 2 == 1,
        le_u64(bytes, at) & 8 == 8 <==> bytes[at] / 8 % 2 == 1,
{
    let word = le_u64(bytes, at);
    law_bytes_weigh_by_their_place(bytes, at);
    let rest = bytes[at + 1] + 256 * (bytes[at + 2] + 256 * (bytes[at + 3] + 256 * (bytes[at + 4]
        + 256 * (bytes[at + 5] + 256 * (bytes[at + 6] + 256 * bytes[at + 7])))));
    lemma_low_bits(word, bytes[at], rest);
    assert((word & 1 == 1 <==> word % 2 == 1) && (word & 2 == 2 <==> word / 2 % 2 == 1) && (word & 4
        == 4 <==> word / 4 % 2 == 1) && (word & 8 == 8 <==> word / 8 % 2 == 1)) by (bit_vector);
}

} // verus!
