use fs_apfs::enc_rolling::{ER_MAGIC, ER_STATE_PHYS_SIZE, ErPhase, ErRecoveryBlock, ErState, ErStateFlags, GeneralBitmap, gbitmap_block_bit};
use fs_apfs::error::ApfsError;
use fs_apfs::object::OBJ_PHYS_SIZE;

/// Shift selecting the rolling phase from `ersb_flags`.
const ERSB_FLAG_ER_PHASE_SHIFT: u64 = 12;

/// Builds an `er_state_phys` block of the given `version`, writing
/// `progress` and `total` at that version's field offsets.
fn er_state(magic: u32, version: u32, flags: u64, progress: u64, total: u64) -> Vec<u8> {
    let mut b = vec![0u8; ER_STATE_PHYS_SIZE];
    b[OBJ_PHYS_SIZE..OBJ_PHYS_SIZE + 4].copy_from_slice(&magic.to_le_bytes());
    b[OBJ_PHYS_SIZE + 4..OBJ_PHYS_SIZE + 8].copy_from_slice(&version.to_le_bytes());
    b[40..48].copy_from_slice(&flags.to_le_bytes());
    // v1 shifts progress/total to 88/96; v2 keeps them at 72/80.
    let (progress_off, total_off) = if version == 1 { (88, 96) } else { (72, 80) };
    b[progress_off..progress_off + 8].copy_from_slice(&progress.to_le_bytes());
    b[total_off..total_off + 8].copy_from_slice(&total.to_le_bytes());
    b
}

#[test]
fn parses_an_encrypting_volume() {
    // ENCRYPTING, phase DATA_ROLL (2 << 12).
    let flags = ErStateFlags::ENCRYPTING | (2 << ERSB_FLAG_ER_PHASE_SHIFT);
    let er = ErState::parse(&er_state(ER_MAGIC, 2, flags, 400, 1000)).unwrap();
    assert_eq!(er.phase(), ErPhase::DataRoll);
    assert!(er.is_rolling());
    assert_eq!(er.progress, 400);
    assert_eq!(er.total_blocks, 1000);
    assert!(er.recovery_list_oid.is_some());
}

#[test]
fn parses_the_v1_layout() {
    // A v1 block carries progress/total/blockmap at the shifted
    // offsets and has no recovery list.
    let mut block = er_state(ER_MAGIC, 1, ErStateFlags::ENCRYPTING, 700, 2000);
    block[104..112].copy_from_slice(&55u64.to_le_bytes()); // v1 blockmap_oid
    // Bytes at the v2 progress offset must NOT be read as progress.
    block[72..80].copy_from_slice(&0xDEAD_u64.to_le_bytes());
    let er = ErState::parse(&block).unwrap();
    assert_eq!(er.version, 1);
    assert_eq!(er.progress, 700);
    assert_eq!(er.total_blocks, 2000);
    assert_eq!(er.blockmap_oid, 55);
    assert_eq!(er.recovery_list_oid, None);
}

#[test]
fn rejects_an_unrecognized_version() {
    assert!(matches!(
        ErState::parse(&er_state(ER_MAGIC, 3, 0, 0, 0)),
        Err(ApfsError::Unsupported(_))
    ));
}

#[test]
fn rolled_boundary_splits_old_and_new_state() {
    let er = ErState::parse(&er_state(
        ER_MAGIC,
        2,
        ErStateFlags::ENCRYPTING,
        400,
        1000,
    ))
    .unwrap();
    assert!(er.is_rolled(399));
    assert!(!er.is_rolled(400));
    assert!(!er.is_rolled(999));
}

#[test]
fn paused_roll_is_not_rolling() {
    let flags = ErStateFlags::ENCRYPTING | ErStateFlags::PAUSED;
    let er = ErState::parse(&er_state(ER_MAGIC, 2, flags, 0, 0)).unwrap();
    assert!(!er.is_rolling());
}

#[test]
fn enc_rolling_rejects_a_bad_magic() {
    assert!(matches!(
        ErState::parse(&er_state(0xDEAD_BEEF, 2, 0, 0, 0)),
        Err(ApfsError::InvalidMagic { .. })
    ));
}

#[test]
fn rejects_a_short_block() {
    assert!(matches!(
        ErState::parse(&[0u8; 40]),
        Err(ApfsError::Truncated { .. })
    ));
}

#[test]
fn parses_a_recovery_block_and_a_bitmap() {
    let mut rb = vec![0u8; OBJ_PHYS_SIZE + 16];
    rb[OBJ_PHYS_SIZE..OBJ_PHYS_SIZE + 8].copy_from_slice(&4096u64.to_le_bytes());
    rb[OBJ_PHYS_SIZE + 8..OBJ_PHYS_SIZE + 16].copy_from_slice(&7u64.to_le_bytes());
    let recovery = ErRecoveryBlock::parse(&rb).unwrap();
    assert_eq!(recovery.offset, 4096);
    assert_eq!(recovery.next_oid, 7);

    let mut bm = vec![0u8; OBJ_PHYS_SIZE + 24];
    bm[OBJ_PHYS_SIZE + 8..OBJ_PHYS_SIZE + 16].copy_from_slice(&512u64.to_le_bytes());
    let bitmap = GeneralBitmap::parse(&bm).unwrap();
    assert_eq!(bitmap.bit_count, 512);
}

#[test]
fn gbitmap_block_bit_reads_the_word_array() {
    let mut block = vec![0u8; OBJ_PHYS_SIZE + 8];
    block[OBJ_PHYS_SIZE] = 0b0000_1000; // bit 3 of the field set
    assert!(gbitmap_block_bit(&block, 3));
    assert!(!gbitmap_block_bit(&block, 4));
    assert!(!gbitmap_block_bit(&block, 100_000));
}

#[test]
fn er_recovery_block_rejects_a_short_block_and_pins_the_threshold() {
    let short = vec![0u8; OBJ_PHYS_SIZE + 15];
    match ErRecoveryBlock::parse(&short) {
        Err(ApfsError::Truncated {
            structure,
            expected,
            actual,
        }) => {
            assert_eq!(structure, "er_recovery_block_phys_t");
            assert_eq!(expected, OBJ_PHYS_SIZE + 16);
            assert_eq!(actual, OBJ_PHYS_SIZE + 15);
        }
        other => panic!("expected Truncated, got {other:?}"),
    }
    // A block of exactly the threshold must succeed — pins the
    // `<` bound so it does not become `<=`.
    let exact = vec![0u8; OBJ_PHYS_SIZE + 16];
    ErRecoveryBlock::parse(&exact).expect("exactly the threshold parses");
}

#[test]
fn gbitmap_rejects_a_short_block_and_pins_the_threshold() {
    let short = vec![0u8; OBJ_PHYS_SIZE + 23];
    match GeneralBitmap::parse(&short) {
        Err(ApfsError::Truncated {
            structure,
            expected,
            actual,
        }) => {
            assert_eq!(structure, "gbitmap_phys_t");
            assert_eq!(expected, OBJ_PHYS_SIZE + 24);
            assert_eq!(actual, OBJ_PHYS_SIZE + 23);
        }
        other => panic!("expected Truncated, got {other:?}"),
    }
    let exact = vec![0u8; OBJ_PHYS_SIZE + 24];
    GeneralBitmap::parse(&exact).expect("exactly the threshold parses");
}

#[test]
fn gbitmap_flags_come_from_offset_16_not_offset_minus_16() {
    let mut block = vec![0u8; OBJ_PHYS_SIZE + 24];
    block[16..24].copy_from_slice(&0xDEAD_BEEF_u64.to_le_bytes());
    block[OBJ_PHYS_SIZE + 16..OBJ_PHYS_SIZE + 24]
        .copy_from_slice(&0xCAFE_F00D_u64.to_le_bytes());
    let bitmap = GeneralBitmap::parse(&block).unwrap();
    assert_eq!(bitmap.flags, 0xCAFE_F00D);
}

#[test]
fn is_rolling_recognizes_each_rolling_flag() {
    for solo in [
        ErStateFlags::ENCRYPTING,
        ErStateFlags::DECRYPTING,
        ErStateFlags::KEYROLLING,
    ] {
        let block = er_state(ER_MAGIC, 2, solo, 0, 0);
        let state = ErState::parse(&block).unwrap();
        assert!(
            state.is_rolling(),
            "flag {solo:?} alone should mark the state as rolling"
        );
    }
    // A state with none of the three flags must not be rolling —
    // pins the rest of the `intersects` semantics.
    let inert = ErState::parse(&er_state(ER_MAGIC, 2, 0, 0, 0)).unwrap();
    assert!(!inert.is_rolling());
}
