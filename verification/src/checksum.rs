//! The Fletcher-64 checksum used by every APFS container-layer object.
//!
//! Each object begins with an `obj_phys_t` whose first eight bytes hold the
//! Fletcher-64 checksum of the rest of the block.

use vstd::arithmetic::div_mod::*;
use vstd::prelude::*;

use crate::bytes;
use crate::error::ApfsError;

verus! {

/// Number of bytes occupied by an object checksum.
pub const MAX_CKSUM_SIZE: usize = 8;

/// The modulus used by the Fletcher-64 fold step.
pub const FLETCHER_MOD: u64 = 0xFFFF_FFFF;

/// The sum of the first `count` little-endian words of `data`.
pub open spec fn word_sum(data: Seq<u8>, count: nat) -> int
    decreases count,
{
    if count == 0 {
        0
    } else {
        word_sum(data, (count - 1) as nat) + bytes::le_u32(data, 4 * (count - 1))
    }
}

/// The sum of the first `count` running word sums of `data`.
pub open spec fn running_sum(data: Seq<u8>, count: nat) -> int
    decreases count,
{
    if count == 0 {
        0
    } else {
        running_sum(data, (count - 1) as nat) + word_sum(data, count)
    }
}

/// The value that the fold step makes of a sum: what is missing from it to the
/// next multiple of the modulus.
pub open spec fn fold(sum: int) -> int {
    FLETCHER_MOD - sum % FLETCHER_MOD as int
}

/// The Fletcher-64 checksum of `data`, over unbounded sums. Trailing bytes
/// that do not complete a word do not count.
pub open spec fn checksum_of(data: Seq<u8>) -> u64 {
    let words = data.len() / 4;
    let sum1 = word_sum(data, words);
    let sum2 = running_sum(data, words);
    let low = fold(sum1 + sum2);
    let high = fold(sum1 + low);
    (high * 0x1_0000_0000 + low) as u64
}

/// Whether a whole object block carries the checksum of its own content.
pub open spec fn is_valid_block(block: Seq<u8>) -> bool {
    &&& block.len() >= MAX_CKSUM_SIZE
    &&& (block.len() - MAX_CKSUM_SIZE) % 4 == 0
    &&& bytes::le_u64(block, 0) == checksum_of(block.skip(MAX_CKSUM_SIZE as int))
}

/// A block made of a body's checksum and the body is valid.
pub proof fn law_sealed_block_is_valid(body: Seq<u8>)
    requires
        body.len() % 4 == 0,
    ensures
        is_valid_block(bytes::u64_le_bytes(checksum_of(body)) + body),
{
    let stored = bytes::u64_le_bytes(checksum_of(body));
    bytes::lemma_u64_round_trip(checksum_of(body));
    let block = stored + body;
    assert(block.skip(8) =~= body);
    assert(bytes::le_u64(block, 0) == bytes::le_u64(stored, 0));
}

/// A valid block stays valid only while its stored checksum stays: a block
/// with the same body and another checksum is not valid.
pub proof fn law_altered_checksum_is_detected(block: Seq<u8>, altered: Seq<u8>)
    requires
        is_valid_block(block),
        altered.len() == block.len(),
        altered.skip(MAX_CKSUM_SIZE as int) == block.skip(MAX_CKSUM_SIZE as int),
        bytes::le_u64(altered, 0) != bytes::le_u64(block, 0),
    ensures
        !is_valid_block(altered),
{
}

/// Bytes behind the last whole word do not change the checksum.
pub proof fn law_trailing_bytes_are_ignored(data: Seq<u8>)
    ensures
        checksum_of(data) == checksum_of(data.take((data.len() / 4 * 4) as int)),
{
    let cut = data.take((data.len() / 4 * 4) as int);
    lemma_sums_of_prefix(data, cut, data.len() / 4);
}

proof fn lemma_sums_of_prefix(data: Seq<u8>, cut: Seq<u8>, count: nat)
    requires
        4 * count <= cut.len() <= data.len(),
        cut == data.take(cut.len() as int),
    ensures
        word_sum(data, count) == word_sum(cut, count),
        running_sum(data, count) == running_sum(cut, count),
    decreases count,
{
    if count > 0 {
        lemma_sums_of_prefix(data, cut, (count - 1) as nat);
    }
}

/// Computes the Fletcher-64 checksum over `data`, a sequence of little-endian
/// 32-bit words.
///
/// Each accumulator is reduced in every step, so that none overflows; the
/// result is that of the unreduced sums.
#[must_use]
pub fn fletcher64(data: &[u8]) -> (checksum: u64)
    ensures
        checksum == checksum_of(data@),
{
    let words: usize = data.len() / 4;
    let mut sum1: u64 = 0;
    let mut sum2: u64 = 0;
    let mut i: usize = 0;
    while i < words
        invariant
            i <= words,
            words == data@.len() / 4,
            words * 4 <= data.len(),
            sum1 < FLETCHER_MOD,
            sum2 < FLETCHER_MOD,
            sum1 == word_sum(data@, i as nat) % FLETCHER_MOD as int,
            sum2 == running_sum(data@, i as nat) % FLETCHER_MOD as int,
        decreases words - i,
    {
        let word: u32 = bytes::read_u32(data, 4 * i);
        proof {
            let m = FLETCHER_MOD as int;
            let before = word_sum(data@, i as nat);
            let after = before + word;
            lemma_add_mod_noop_right(word as int, before, m);
            assert(after == word_sum(data@, (i + 1) as nat));
            let running = running_sum(data@, i as nat);
            lemma_add_mod_noop(running, after, m);
            assert(running + after == running_sum(data@, (i + 1) as nat));
            assert((sum1 + word) % m == after % m);
        }
        sum1 = (sum1 + word as u64) % FLETCHER_MOD;
        sum2 = (sum2 + sum1) % FLETCHER_MOD;
        i += 1;
    }
    let ghost s1 = word_sum(data@, words as nat);
    let ghost s2 = running_sum(data@, words as nat);
    let low: u64 = FLETCHER_MOD - (sum1 + sum2) % FLETCHER_MOD;
    let high: u64 = FLETCHER_MOD - (sum1 + low) % FLETCHER_MOD;
    proof {
        let m = FLETCHER_MOD as int;
        lemma_add_mod_noop(s1, s2, m);
        lemma_add_mod_noop_right(low as int, s1, m);
        assert(low == fold(s1 + s2));
        assert(high == fold(s1 + low));
    }
    high * 0x1_0000_0000 + low
}

/// Verifies an object block against its stored Fletcher-64 checksum.
///
/// The first eight bytes are the stored checksum, computed over everything
/// after it. A block shorter than that, or whose rest is not made of whole
/// words, is not valid.
#[must_use]
pub fn verify_block(block: &[u8]) -> (valid: bool)
    ensures
        valid == is_valid_block(block@),
{
    if block.len() < MAX_CKSUM_SIZE {
        return false;
    }
    let body: &[u8] = bytes::skip_bytes(block, MAX_CKSUM_SIZE);
    if body.len() % 4 != 0 {
        return false;
    }
    bytes::read_u64(block, 0) == fletcher64(body)
}

/// The error of a block that is not valid.
pub open spec fn valid_or_error(block: Seq<u8>, addr: u64) -> Result<(), ApfsError> {
    if is_valid_block(block) {
        Ok(())
    } else {
        Err(ApfsError::ChecksumMismatch { block: addr })
    }
}

/// Verifies an object block, with an error that names its address.
pub fn require_valid_block(block: &[u8], block_addr: u64) -> (checked: Result<(), ApfsError>)
    ensures
        checked == valid_or_error(block@, block_addr),
{
    if verify_block(block) {
        Ok(())
    } else {
        Err(ApfsError::ChecksumMismatch { block: block_addr })
    }
}

/// The two halves of a checksum, as words behind the words of the data, bring both sums to
/// zero: the sum of the words, and the sum of the running sums. Modulo the largest 32-bit
/// number both then vanish, which is what makes the checksum one of Fletcher's.
pub proof fn law_checksum_brings_the_sums_to_zero(data: Seq<u8>)
    ensures
        ({
            let words = data.len() / 4;
            let low = checksum_of(data) as int % 0x1_0000_0000;
            let high = checksum_of(data) as int / 0x1_0000_0000;
            let sum = word_sum(data, words);
            let running = running_sum(data, words);
            &&& (sum + low + high) % 0xFFFF_FFFF == 0
            &&& (running + (sum + low) + (sum + low + high)) % 0xFFFF_FFFF == 0
            &&& 0 < low <= 0xFFFF_FFFF
            &&& 0 < high <= 0xFFFF_FFFF
        }),
{
    let words = data.len() / 4;
    let m = 0xFFFF_FFFFint;
    let sum = word_sum(data, words);
    let running = running_sum(data, words);
    let low = fold(sum + running);
    let high = fold(sum + low);
    let total = high * 0x1_0000_0000 + low;
    assert(0 < low <= m && 0 < high <= m);
    assert(total <= u64::MAX);
    assert(total % 0x1_0000_0000 == low && total / 0x1_0000_0000 == high);
    lemma_fold(sum + running);
    lemma_fold(sum + low);
    assert(((sum + running + low) + (sum + low + high)) % m == 0) by {
        let a = (sum + running + low) / m;
        let b = (sum + low + high) / m;
        assert(sum + running + low == m * a);
        assert(sum + low + high == m * b);
        assert((sum + running + low) + (sum + low + high) == m * (a + b)) by (nonlinear_arith)
            requires
                sum + running + low == m * a,
                sum + low + high == m * b,
        ;
        assert((m * (a + b)) % m == 0);
    }
}

proof fn lemma_fold(sum: int)
    ensures
        (sum + fold(sum)) % 0xFFFF_FFFF == 0,
{
    assert(sum == 0xFFFF_FFFF * (sum / 0xFFFF_FFFF) + sum % 0xFFFF_FFFF);
}

/// The sum of the words is that of the little-endian words of four bytes, one for each, and
/// the running sum adds the sum up to each word.
pub proof fn law_each_word_is_summed(data: Seq<u8>, count: nat)
    ensures
        word_sum(data, count + 1) - word_sum(data, count) == bytes::le_u32(data, 4 * count as int),
        running_sum(data, count + 1) - running_sum(data, count) == word_sum(data, count + 1),
        word_sum(data, 0) == 0,
        running_sum(data, 0) == 0,
{
}

/// A block is valid exactly when it has eight bytes or more, a whole number of words behind
/// them, and in them the checksum of those words.
pub proof fn law_block_is_valid_by_its_first_word(block: Seq<u8>)
    ensures
        is_valid_block(block) <==> block.len() >= 8 && block.len() % 4 == 0 && bytes::le_u64(
            block,
            0,
        ) == checksum_of(block.subrange(8, block.len() as int)),
{
    if block.len() >= 8 {
        assert(block.skip(8) =~= block.subrange(8, block.len() as int));
    }
}

} // verus!
