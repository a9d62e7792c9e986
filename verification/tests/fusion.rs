use fs_apfs::error::ApfsError;
use fs_apfs::fusion::{FUSION_TIER2_DEVICE_BYTE_ADDR, FUSION_WBC_LIST_ENTRIES_OFFSET, FUSION_WBC_LIST_ENTRY_SIZE, FusionCache, FusionMtFlags, FusionMtVal, FusionReader, FusionWbc, FusionWbcEntry, FusionWbcList, decode_address, tier2_marker};
use fs_apfs::io::{Cursor, Reader, SeekFrom};
use fs_apfs::object::OBJ_PHYS_SIZE;

#[test]
fn address_marker_decodes_the_device() {
    // With 4 KiB blocks the tier-2 marker is bit 50.
    let marker = tier2_marker(4096);
    assert_eq!(marker, FUSION_TIER2_DEVICE_BYTE_ADDR >> 12);

    let main = decode_address(1234, 4096);
    assert!(!main.tier2);
    assert_eq!(main.block, 1234);

    let tier2 = decode_address(marker | 0x04D2, 4096);
    assert!(tier2.tier2);
    assert_eq!(tier2.block, 1234);
}

#[test]
fn parses_a_write_back_cache() {
    let mut b = vec![0u8; OBJ_PHYS_SIZE + 56];
    b[OBJ_PHYS_SIZE + 8..OBJ_PHYS_SIZE + 16].copy_from_slice(&77u64.to_le_bytes());
    b[OBJ_PHYS_SIZE + 16..OBJ_PHYS_SIZE + 24].copy_from_slice(&88u64.to_le_bytes());
    b[OBJ_PHYS_SIZE + 40..OBJ_PHYS_SIZE + 44].copy_from_slice(&9u32.to_le_bytes());
    let wbc = FusionWbc::parse(&b).unwrap();
    assert_eq!(wbc.list_head_oid, 77);
    assert_eq!(wbc.list_tail_oid, 88);
    assert_eq!(wbc.list_blocks_count, 9);
}

#[test]
fn fusion_wbc_reports_full_expected_size_on_truncation() {
    let err = FusionWbc::parse(&[0u8; 16]).unwrap_err();
    match err {
        ApfsError::Truncated {
            structure,
            expected,
            actual,
        } => {
            assert_eq!(structure, "fusion_wbc_phys_t");
            assert_eq!(expected, OBJ_PHYS_SIZE + 56);
            assert_eq!(actual, 16);
        }
        other => panic!("expected Truncated, got {other:?}"),
    }
}

#[test]
fn write_back_cache_list_resolves_a_cached_block() {
    // One entry: hard-drive blocks 200..210 cached at SSD blocks 50..60.
    let mut b = vec![0u8; FUSION_WBC_LIST_ENTRIES_OFFSET + FUSION_WBC_LIST_ENTRY_SIZE];
    b[OBJ_PHYS_SIZE + 20..OBJ_PHYS_SIZE + 24].copy_from_slice(&1u32.to_le_bytes()); // index_end
    let base = FUSION_WBC_LIST_ENTRIES_OFFSET;
    b[base..base + 8].copy_from_slice(&50i64.to_le_bytes()); // wbc_lba
    b[base + 8..base + 16].copy_from_slice(&200i64.to_le_bytes()); // target_lba
    b[base + 16..base + 24].copy_from_slice(&10u64.to_le_bytes()); // length
    let list = FusionWbcList::parse(&b).unwrap();
    assert_eq!(list.entries.len(), 1);
    assert_eq!(list.cached_copy(205), Some(55));
    // The boundary blocks pin the half-open range — `cached_copy` must
    // refuse `target_lba + length` even though `target_lba + length - 1`
    // succeeds, ruling out an inclusive upper bound.
    assert_eq!(list.cached_copy(209), Some(59));
    assert_eq!(list.cached_copy(210), None);
    assert_eq!(list.cached_copy(999), None);
}

#[test]
fn write_back_cache_list_parses_two_entries_at_distinct_offsets() {
    // Two entries with distinct values: a `-` for `+` on the entry base
    // computation would read entry 1 from a non-entry region (or
    // underflow), and a `/` for `*` on the per-entry stride would read
    // entry 1 from the same place as entry 0.
    let mut b = vec![0u8; FUSION_WBC_LIST_ENTRIES_OFFSET + 2 * FUSION_WBC_LIST_ENTRY_SIZE];
    b[OBJ_PHYS_SIZE + 20..OBJ_PHYS_SIZE + 24].copy_from_slice(&2u32.to_le_bytes()); // index_end

    let e0 = FUSION_WBC_LIST_ENTRIES_OFFSET;
    b[e0..e0 + 8].copy_from_slice(&50i64.to_le_bytes());
    b[e0 + 8..e0 + 16].copy_from_slice(&200i64.to_le_bytes());
    b[e0 + 16..e0 + 24].copy_from_slice(&4u64.to_le_bytes());

    let e1 = FUSION_WBC_LIST_ENTRIES_OFFSET + FUSION_WBC_LIST_ENTRY_SIZE;
    b[e1..e1 + 8].copy_from_slice(&77i64.to_le_bytes());
    b[e1 + 8..e1 + 16].copy_from_slice(&900i64.to_le_bytes());
    b[e1 + 16..e1 + 24].copy_from_slice(&3u64.to_le_bytes());

    let list = FusionWbcList::parse(&b).unwrap();
    assert_eq!(list.entries.len(), 2);
    assert_eq!(list.entries[0].wbc_lba, 50);
    assert_eq!(list.entries[0].target_lba, 200);
    assert_eq!(list.entries[0].length, 4);
    assert_eq!(list.entries[1].wbc_lba, 77);
    assert_eq!(list.entries[1].target_lba, 900);
    assert_eq!(list.entries[1].length, 3);
}

#[test]
fn write_back_cache_list_accepts_equal_begin_and_end_indices() {
    let mut b = vec![0u8; FUSION_WBC_LIST_ENTRIES_OFFSET + FUSION_WBC_LIST_ENTRY_SIZE];
    b[OBJ_PHYS_SIZE + 16..OBJ_PHYS_SIZE + 20].copy_from_slice(&1u32.to_le_bytes());
    b[OBJ_PHYS_SIZE + 20..OBJ_PHYS_SIZE + 24].copy_from_slice(&1u32.to_le_bytes());
    let list = FusionWbcList::parse(&b).unwrap();
    assert!(list.entries.is_empty());
}

#[test]
fn write_back_cache_list_parses_at_the_exact_prefix_boundary() {
    let b = vec![0u8; FUSION_WBC_LIST_ENTRIES_OFFSET];
    let list = FusionWbcList::parse(&b).unwrap();
    assert!(list.entries.is_empty());
}

#[test]
fn write_back_cache_list_rejects_an_oversized_index_end() {
    // An `index_end` that overruns the block must be reported as
    // Malformed. A `-` for `+` on the `needed` calculation would
    // underflow and treat every valid block as out of bounds, so the
    // companion "exactly-fits" case (the bare prefix above) pins the
    // direction: this case pins the comparison itself.
    let mut b = vec![0u8; FUSION_WBC_LIST_ENTRIES_OFFSET + FUSION_WBC_LIST_ENTRY_SIZE];
    b[OBJ_PHYS_SIZE + 20..OBJ_PHYS_SIZE + 24].copy_from_slice(&5u32.to_le_bytes());
    assert!(matches!(
        FusionWbcList::parse(&b),
        Err(ApfsError::Malformed { .. })
    ));
}

#[test]
fn write_back_cache_list_entries_live_at_documented_offset_64() {
    const ENTRY_OFFSET: usize = 64;
    const BLOCK_LEN: usize = 200;
    let mut b = vec![0u8; BLOCK_LEN];
    // `fwlp_indexEnd` lives at OBJ_PHYS_SIZE + 20 = 52.
    b[52..56].copy_from_slice(&1u32.to_le_bytes());
    // Entry 0's three fields, at the documented byte offsets.
    b[ENTRY_OFFSET..ENTRY_OFFSET + 8].copy_from_slice(&123_456i64.to_le_bytes());
    b[ENTRY_OFFSET + 8..ENTRY_OFFSET + 16].copy_from_slice(&999_888i64.to_le_bytes());
    b[ENTRY_OFFSET + 16..ENTRY_OFFSET + 24].copy_from_slice(&7u64.to_le_bytes());

    let list = FusionWbcList::parse(&b).unwrap();
    assert_eq!(list.entries.len(), 1);
    assert_eq!(list.entries[0].wbc_lba, 123_456);
    assert_eq!(list.entries[0].target_lba, 999_888);
    assert_eq!(list.entries[0].length, 7);
}

#[test]
fn write_back_cache_list_parses_a_large_entry_count() {
    // Three entries — large enough that a `-` for `+` on the `needed`
    // calculation (`OFFSET - count * ENTRY_SIZE`) underflows and
    // produces a Malformed error on a buffer that should parse cleanly.
    let count = 3usize;
    let mut b = vec![0u8; FUSION_WBC_LIST_ENTRIES_OFFSET + count * FUSION_WBC_LIST_ENTRY_SIZE];
    b[OBJ_PHYS_SIZE + 20..OBJ_PHYS_SIZE + 24].copy_from_slice(
        &u32::try_from(count)
            .expect("the test fixture value fits in u32")
            .to_le_bytes(),
    );
    for i in 0..count {
        let off = FUSION_WBC_LIST_ENTRIES_OFFSET + i * FUSION_WBC_LIST_ENTRY_SIZE;
        let fixture_lba = i64::try_from(i).expect("the test fixture index fits in i64") + 1;
        b[off..off + 8].copy_from_slice(&fixture_lba.to_le_bytes());
        b[off + 8..off + 16].copy_from_slice(&(fixture_lba * 100).to_le_bytes());
        b[off + 16..off + 24].copy_from_slice(&1u64.to_le_bytes());
    }
    let list = FusionWbcList::parse(&b).unwrap();
    assert_eq!(list.entries.len(), count);
    for (i, entry) in list.entries.iter().enumerate() {
        let expected_lba = i64::try_from(i).expect("the test fixture index fits in i64") + 1;
        assert_eq!(entry.wbc_lba, expected_lba);
        assert_eq!(entry.target_lba, expected_lba * 100);
    }
}

#[test]
fn covers_does_not_overflow_on_extreme_target_lba() {
    // target_lba == i64::MIN makes `target - target_lba` overflow i64.
    let entry = FusionWbcEntry {
        wbc_lba: 0,
        target_lba: i64::MIN,
        length: 10,
    };
    assert!(!entry.covers(0));
    assert!(!entry.covers(i64::MAX));
}

#[test]
fn covers_is_a_strict_half_open_range() {
    let entry = FusionWbcEntry {
        wbc_lba: 50,
        target_lba: 200,
        length: 10,
    };
    assert!(entry.covers(200)); // first block
    assert!(entry.covers(209)); // last block
    assert!(!entry.covers(210)); // first block past the run
}

#[test]
fn parses_a_middle_tree_value() {
    let mut value = vec![0u8; 16];
    value[0..8].copy_from_slice(&4096i64.to_le_bytes());
    value[8..12].copy_from_slice(&8u32.to_le_bytes());
    value[12..16].copy_from_slice(&FusionMtFlags::DIRTY.to_le_bytes());
    let mt = FusionMtVal::parse(&value).unwrap();
    assert_eq!(mt.lba, 4096);
    assert_eq!(mt.length, 8);
    assert!(mt.flags.contains(FusionMtFlags::DIRTY));
}

#[test]
fn short_inputs_are_rejected() {
    assert!(matches!(
        FusionWbc::parse(&[0u8; 16]),
        Err(ApfsError::Truncated { .. })
    ));
    assert!(matches!(
        FusionMtVal::parse(&[0u8; 8]),
        Err(ApfsError::Truncated { .. })
    ));
}

// --- Multi-device reader ----------------------------------------------


const BS: u32 = 4096;

/// A device image of `blocks` blocks, with block `mark` filled `byte`.
fn device(blocks: u64, mark: u64, byte: u8) -> Cursor {
    let mut data = vec![
        0u8;
        usize::try_from(blocks * u64::from(BS))
            .expect("the test fixture value fits in usize")
    ];
    let start =
        usize::try_from(mark * u64::from(BS)).expect("the test fixture value fits in usize");
    data[start..start + BS as usize].fill(byte);
    Cursor::new(data)
}

/// Reads block `tagged` (a Fusion-tagged block number) in full.
fn read_block<M: Reader, T2: Reader>(
    fr: &mut FusionReader<M, T2>,
    tagged: u64,
) -> Vec<u8> {
    fr.seek(SeekFrom::Start(tagged * u64::from(BS))).unwrap();
    let mut buf = vec![0u8; BS as usize];
    let n = fr.read(&mut buf).unwrap();
    buf.truncate(n);
    buf
}

#[test]
fn fusion_cache_maps_a_cached_run() {
    let list = FusionWbcList {
        entries: vec![FusionWbcEntry {
            wbc_lba: 200,    // SSD copy
            target_lba: 900, // hard-drive home
            length: 4,
        }],
    };
    let cache = FusionCache::from_wbc_list(&list);
    assert_eq!(cache.cached_block(900), Some(200));
    assert_eq!(cache.cached_block(903), Some(203));
    assert_eq!(cache.cached_block(904), None); // past the run
    assert_eq!(cache.cached_block(50), None);
}

#[test]
fn cached_block_checks_runs_after_a_higher_start() {
    // Runs are not sorted by tier2_start — a write-back list orders
    // them by recency. A block covered by a later, lower-start run
    // must still resolve rather than being lost to an early return.
    let mut cache = FusionCache::new();
    cache.add_run(900, 200, 4); // tier-2 900..904 cached at SSD 200..204
    cache.add_run(100, 50, 4); // tier-2 100..104 cached at SSD 50..54
    assert_eq!(cache.cached_block(102), Some(52));
    assert_eq!(cache.cached_block(901), Some(201));
    assert_eq!(cache.cached_block(500), None);
}

#[test]
fn fusion_reader_routes_to_the_tagged_device() {
    let main = device(4, 2, 0xAA);
    let tier2 = device(5, 3, 0xBB);
    let mut fr = FusionReader::new(main, Some(tier2), BS, FusionCache::new());

    // An untagged address reads from the main (solid-state) device.
    assert!(read_block(&mut fr, 2).iter().all(|&b| b == 0xAA));
    // A tier-2-tagged address reads from the hard-drive device.
    let tagged = tier2_marker(BS) | 3;
    assert!(read_block(&mut fr, tagged).iter().all(|&b| b == 0xBB));
}

#[test]
fn fusion_reader_serves_a_cached_block_from_the_ssd() {
    // Hard-drive block 3 is cached at main-device block 2.
    let main = device(4, 2, 0xAA);
    let tier2 = device(5, 3, 0xBB);
    let mut cache = FusionCache::new();
    cache.add_run(3, 2, 1);
    let mut fr = FusionReader::new(main, Some(tier2), BS, cache);

    // The tier-2-tagged read resolves to the SSD copy, not the drive.
    let tagged = tier2_marker(BS) | 3;
    assert!(read_block(&mut fr, tagged).iter().all(|&b| b == 0xAA));
}

#[test]
fn fusion_reader_without_a_tier2_device_errors_on_a_tier2_read() {
    let main = device(4, 2, 0xAA);
    let mut fr: FusionReader<_, Cursor> =
        FusionReader::new(main, None, BS, FusionCache::new());
    // A main-device read still works.
    assert!(read_block(&mut fr, 2).iter().all(|&b| b == 0xAA));
    // A tier-2 read with no hard-drive reader fails loudly.
    fr.seek(SeekFrom::Start((tier2_marker(BS) | 3) * u64::from(BS)))
        .unwrap();
    assert!(fr.read(&mut [0u8; BS as usize]).is_err());
}

#[test]
fn fusion_reader_caps_a_mid_block_read_at_the_block_end() {
    let mut data = vec![0u8; 3 * BS as usize];
    // Block 1: all 0xAA.
    data[BS as usize..2 * BS as usize].fill(0xAA);
    // Block 2: all 0xBB — must not appear in the truncated read.
    data[2 * BS as usize..3 * BS as usize].fill(0xBB);
    let main = Cursor::new(data);
    let mut fr: FusionReader<_, Cursor> =
        FusionReader::new(main, None, BS, FusionCache::new());

    let intra: u64 = 100;
    fr.seek(SeekFrom::Start(u64::from(BS) + intra)).unwrap();
    // Ask for far more than the rest of the block; the implementation
    // must cap at `BS - intra` bytes.
    let mut buf = vec![0u8; 2 * BS as usize];
    let n = fr.read(&mut buf).unwrap();
    assert_eq!(n as u64, u64::from(BS) - intra);
    assert!(buf[..n].iter().all(|&b| b == 0xAA));
}

#[test]
fn fusion_reader_advances_position_by_bytes_read() {
    let main = device(4, 0, 0xCC);
    let mut fr: FusionReader<_, Cursor> =
        FusionReader::new(main, None, BS, FusionCache::new());

    let start: u64 = 200;
    fr.seek(SeekFrom::Start(start)).unwrap();
    let mut buf = [0u8; 64];
    let read1 = fr.read(&mut buf).unwrap();
    assert_eq!(read1, 64);
    assert_eq!(fr.seek(SeekFrom::Current(0)).unwrap(), start + 64);

    let read2 = fr.read(&mut buf).unwrap();
    assert_eq!(read2, 64);
    assert_eq!(fr.seek(SeekFrom::Current(0)).unwrap(), start + 128);
}

#[test]
fn fusion_reader_stays_where_it_is_when_a_read_fails() {
    let main = device(4, 2, 0xAA);
    let mut fr: FusionReader<_, Cursor> =
        FusionReader::new(main, None, BS, FusionCache::new());
    let at = (tier2_marker(BS) | 3) * u64::from(BS) + 5;
    fr.seek(SeekFrom::Start(at)).unwrap();
    assert!(fr.read(&mut [0u8; 16]).is_err());
    assert_eq!(fr.seek(SeekFrom::Current(0)).unwrap(), at);
}

#[test]
fn the_marker_of_a_block_number_is_that_of_the_byte_address() {
    for exponent in 0..32u32 {
        let size = 1u32 << exponent;
        assert_eq!(tier2_marker(size) * u64::from(size), 0x4000_0000_0000_0000);
    }
}
