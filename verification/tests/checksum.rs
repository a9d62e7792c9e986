use fs_apfs::checksum::{MAX_CKSUM_SIZE, fletcher64, require_valid_block, verify_block};

#[test]
fn fletcher64_of_zeroes_is_all_ones() {
    // sum1 = sum2 = 0 -> c1 = 0xFFFFFFFF - 0 = 0xFFFFFFFF;
    // c2 = 0xFFFFFFFF - (0xFFFFFFFF % 0xFFFFFFFF) = 0xFFFFFFFF.
    assert_eq!(fletcher64(&[0u8; 64]), 0xFFFF_FFFF_FFFF_FFFF);
}

#[test]
fn fletcher64_does_not_overflow_on_a_large_buffer() {
    // ~512 KiB of all-ones words: enough to overflow an unreduced u64
    // accumulator. In-loop modular reduction keeps it well-defined.
    let data = vec![0xFFu8; 512 * 1024];
    let csum = fletcher64(&data);
    // A self-consistent block built from the same body must still verify.
    let mut block = vec![0u8; MAX_CKSUM_SIZE + data.len()];
    block[MAX_CKSUM_SIZE..].copy_from_slice(&data);
    let body_csum = fletcher64(&block[MAX_CKSUM_SIZE..]);
    block[..MAX_CKSUM_SIZE].copy_from_slice(&body_csum.to_le_bytes());
    assert!(verify_block(&block));
    let _ = csum;
}

#[test]
fn fletcher64_ignores_trailing_partial_word() {
    // Two extra bytes that do not complete a word must not affect the sum.
    let four = [1u8, 2, 3, 4];
    let six = [1u8, 2, 3, 4, 5, 6];
    assert_eq!(fletcher64(&four), fletcher64(&six));
}

#[test]
fn fletcher64_matches_reference_for_a_single_word() {
    // One little-endian word 0x04030201 produces sum1 = sum2 = 0x04030201;
    // c1 = MOD - 0x08060402 = 0xF7F9FBFD;
    // c2 = MOD - (0x04030201 + 0xF7F9FBFD) % MOD = MOD - 0xFBFCFDFE % MOD
    //    = MOD - 0xFBFCFDFE = 0x04030201;
    // result = (0x04030201 << 32) | 0xF7F9FBFD = 0x04030201_F7F9FBFD.
    assert_eq!(fletcher64(&[1u8, 2, 3, 4]), 0x0403_0201_F7F9_FBFD);
}

#[test]
fn fletcher64_matches_reference_for_two_words() {
    assert_eq!(
        fletcher64(&[1u8, 2, 3, 4, 5, 6, 7, 8]),
        0x100D_0A07_E3E8_EDF2,
    );
}

#[test]
fn verify_block_accepts_a_self_consistent_block() {
    let mut block = vec![0u8; 64];
    for (i, byte) in block[MAX_CKSUM_SIZE..].iter_mut().enumerate() {
        *byte = (i as u8).wrapping_mul(7).wrapping_add(3);
    }
    let csum = fletcher64(&block[MAX_CKSUM_SIZE..]);
    block[..MAX_CKSUM_SIZE].copy_from_slice(&csum.to_le_bytes());
    assert!(verify_block(&block));
}

#[test]
fn verify_block_rejects_a_corrupt_body_byte() {
    let mut block = vec![0u8; 32];
    block[MAX_CKSUM_SIZE..].fill(0xAB);
    let csum = fletcher64(&block[MAX_CKSUM_SIZE..]);
    block[..MAX_CKSUM_SIZE].copy_from_slice(&csum.to_le_bytes());
    assert!(verify_block(&block));

    block[20] ^= 0x01;
    assert!(!verify_block(&block));
}

#[test]
fn verify_block_rejects_a_corrupt_checksum_byte() {
    let mut block = vec![0u8; 32];
    block[MAX_CKSUM_SIZE..].fill(0xCD);
    let csum = fletcher64(&block[MAX_CKSUM_SIZE..]);
    block[..MAX_CKSUM_SIZE].copy_from_slice(&csum.to_le_bytes());

    block[0] ^= 0x01;
    assert!(!verify_block(&block));
}

#[test]
fn verify_block_rejects_undersized_or_misaligned_input() {
    assert!(!verify_block(&[0u8; 4]));
    // 8-byte cksum + 6 body bytes: body length is not a multiple of 4.
    assert!(!verify_block(&[0u8; 14]));
}

#[test]
fn verify_block_accepts_a_block_with_an_empty_body() {
    // An exactly-eight-byte block has a zero-length body, whose Fletcher-64
    // checksum is `0xFFFF_FFFF_FFFF_FFFF`. A block of eight `0xFF` bytes
    // therefore stores its own (empty-body) checksum and must verify.
    // Pins down the `block.len() < MAX_CKSUM_SIZE` boundary: replacing
    // `<` with `<=` would reject this minimum-valid block.
    let block = [0xFFu8; MAX_CKSUM_SIZE];
    assert!(verify_block(&block));
}

#[test]
fn require_valid_block_reports_the_block_address() {
    let mut block = vec![0u8; 32];
    block[MAX_CKSUM_SIZE..].fill(0x5A);
    let csum = fletcher64(&block[MAX_CKSUM_SIZE..]);
    block[..MAX_CKSUM_SIZE].copy_from_slice(&csum.to_le_bytes());
    assert!(require_valid_block(&block, 99).is_ok());

    block[16] ^= 0xFF;
    match require_valid_block(&block, 99) {
        Err(fs_apfs::error::ApfsError::ChecksumMismatch { block }) => assert_eq!(block, 99),
        other => panic!("expected ChecksumMismatch, got {other:?}"),
    }
}
