use fs_apfs::error::ApfsError;
use fs_apfs::io::Cursor;
use fs_apfs::object::OBJ_PHYS_SIZE;
use fs_apfs::space_manager::{CAB_CIB_ADDR_OFFSET, CAB_CIB_COUNT_OFFSET, CHUNK_INFO_SIZE, CIB_CHUNK_INFO_OFFSET, FreeExtent, SD_COUNT, SM_DEV_OFFSET, SPACEMAN_DEVICE_SIZE, SpaceManager, parse_device};

const BLK: usize = 4096;

/// Builds a `spaceman_phys_t` block. The main device has `cib_count`
/// chunk-info blocks whose addresses follow the fixed fields.
fn spaceman(
    blocks_per_chunk: u32,
    chunks_per_cib: u32,
    main_blocks: u64,
    main_free: u64,
    cib_count: u32,
    cib_addrs: &[u64],
) -> Vec<u8> {
    let mut b = vec![0u8; BLK];
    b[0x20..0x24].copy_from_slice(
        &u32::try_from(BLK)
            .expect("the test fixture value fits in u32")
            .to_le_bytes(),
    );
    b[0x24..0x28].copy_from_slice(&blocks_per_chunk.to_le_bytes());
    b[0x28..0x2C].copy_from_slice(&chunks_per_cib.to_le_bytes());
    // sm_dev[SD_MAIN].
    let dev = SM_DEV_OFFSET;
    b[dev..dev + 8].copy_from_slice(&main_blocks.to_le_bytes());
    let chunk_count = if blocks_per_chunk > 0 {
        main_blocks.div_ceil(u64::from(blocks_per_chunk))
    } else {
        0
    };
    b[dev + 8..dev + 16].copy_from_slice(&chunk_count.to_le_bytes());
    b[dev + 16..dev + 20].copy_from_slice(&cib_count.to_le_bytes());
    b[dev + 24..dev + 32].copy_from_slice(&main_free.to_le_bytes());
    // The CIB address array sits after both spaceman_device_t structs.
    let addr_off = SM_DEV_OFFSET + SD_COUNT * SPACEMAN_DEVICE_SIZE;
    b[dev + 32..dev + 36].copy_from_slice(
        &u32::try_from(addr_off)
            .expect("the test fixture value fits in u32")
            .to_le_bytes(),
    );
    for (i, &addr) in cib_addrs.iter().enumerate() {
        b[addr_off + i * 8..addr_off + i * 8 + 8].copy_from_slice(&addr.to_le_bytes());
    }
    b
}

/// Builds a chunk-info block with one chunk whose bitmap is at `bitmap`.
fn cib(chunk_blocks: u32, free_count: u32, bitmap: i64) -> Vec<u8> {
    let mut b = vec![0u8; BLK];
    b[OBJ_PHYS_SIZE + 4..OBJ_PHYS_SIZE + 8].copy_from_slice(&1u32.to_le_bytes()); // count
    let ci = CIB_CHUNK_INFO_OFFSET;
    b[ci + 16..ci + 20].copy_from_slice(&chunk_blocks.to_le_bytes());
    b[ci + 20..ci + 24].copy_from_slice(&free_count.to_le_bytes());
    b[ci + 24..ci + 32].copy_from_slice(&bitmap.to_le_bytes());
    b
}

#[test]
fn parses_geometry_and_counts() {
    let sm = SpaceManager::parse(spaceman(8, 100, 5000, 1200, 1, &[3])).unwrap();
    assert_eq!(
        sm.block_size,
        u32::try_from(BLK).expect("the test fixture value fits in u32")
    );
    assert_eq!(sm.blocks_per_chunk, 8);
    assert_eq!(sm.total_blocks(), 5000);
    assert_eq!(sm.free_blocks(), 1200);
}

#[test]
fn parse_rejects_a_short_block() {
    assert!(matches!(
        SpaceManager::parse(vec![0u8; 64]),
        Err(ApfsError::Truncated { .. })
    ));
}

#[test]
fn is_allocated_reads_the_chunk_bitmap() {
    // One chunk of 32 blocks; CIB at block 1, bitmap at block 2.
    // Bitmap: block 0 and block 5 allocated, the rest free.
    let mut bitmap = vec![0u8; BLK];
    bitmap[0] = 0b0010_0001; // bits 0 and 5 set
    let image: Vec<u8> = {
        let mut data = spaceman(32, 100, 32, 30, 1, &[1]);
        data.extend(cib(32, 30, 2)); // block 1
        data.extend(bitmap); // block 2
        data
    };
    let sm = SpaceManager::parse(image[..BLK].to_vec()).unwrap();
    let mut reader = Cursor::new(image);
    assert!(sm.is_allocated(&mut reader, 0).unwrap());
    assert!(!sm.is_allocated(&mut reader, 1).unwrap());
    assert!(sm.is_allocated(&mut reader, 5).unwrap());
    assert!(!sm.is_allocated(&mut reader, 31).unwrap());
}

#[test]
fn is_allocated_handles_a_bitmapless_full_chunk() {
    // ci_bitmap_addr 0 with free_count 0 -> the whole chunk is allocated.
    let image: Vec<u8> = {
        let mut data = spaceman(32, 100, 32, 0, 1, &[1]);
        data.extend(cib(32, 0, 0)); // block 1, no bitmap
        data
    };
    let sm = SpaceManager::parse(image[..BLK].to_vec()).unwrap();
    let mut reader = Cursor::new(image);
    assert!(sm.is_allocated(&mut reader, 10).unwrap());
}

#[test]
fn is_allocated_rejects_an_out_of_range_block() {
    let sm = SpaceManager::parse(spaceman(8, 100, 100, 0, 1, &[1])).unwrap();
    let mut reader = Cursor::new(vec![0u8; BLK]);
    assert!(matches!(
        sm.is_allocated(&mut reader, 500),
        Err(ApfsError::Malformed { .. })
    ));
}

#[test]
fn zero_chunks_per_cib_is_an_error_not_a_panic() {
    // A spaceman with chunks_per_cib == 0 must yield an ApfsError rather
    // than panicking on the chunk-in-cib modulo.
    let sm = SpaceManager::parse(spaceman(8, 0, 100, 0, 1, &[1])).unwrap();
    let mut reader = Cursor::new(vec![0u8; BLK]);
    assert!(matches!(
        sm.is_allocated(&mut reader, 0),
        Err(ApfsError::Malformed { .. })
    ));
}

/// Builds a `cib_addr_block` listing the given chunk-info-block
/// addresses.
fn cab(cib_addrs: &[u64]) -> Vec<u8> {
    let mut b = vec![0u8; BLK];
    b[CAB_CIB_COUNT_OFFSET..CAB_CIB_COUNT_OFFSET + 4].copy_from_slice(
        &u32::try_from(cib_addrs.len())
            .expect("the test fixture value fits in u32")
            .to_le_bytes(),
    );
    for (i, &addr) in cib_addrs.iter().enumerate() {
        let off = CAB_CIB_ADDR_OFFSET + i * 8;
        b[off..off + 8].copy_from_slice(&addr.to_le_bytes());
    }
    b
}

#[test]
fn is_allocated_walks_a_two_level_layout() {
    // The address array holds a CAB at block 1; the CAB lists a CIB at
    // block 2; the CIB's chunk has its bitmap at block 3.
    let mut bitmap = vec![0u8; BLK];
    bitmap[0] = 0b0000_1000; // block 3 of the chunk allocated
    let mut block = spaceman(32, 100, 32, 31, 1, &[1]);
    // cab_count = 1, cibs_per_cab = 10 on the main device.
    block[0x2C..0x30].copy_from_slice(&10u32.to_le_bytes());
    block[SM_DEV_OFFSET + 20..SM_DEV_OFFSET + 24].copy_from_slice(&1u32.to_le_bytes());
    let image: Vec<u8> = {
        let mut data = block;
        data.extend(cab(&[2])); // block 1: CAB -> CIB at block 2
        data.extend(cib(32, 31, 3)); // block 2: CIB -> bitmap at block 3
        data.extend(bitmap); // block 3
        data
    };
    let sm = SpaceManager::parse(image[..BLK].to_vec()).unwrap();
    assert_eq!(sm.cibs_per_cab, 10);
    let mut reader = Cursor::new(image);
    assert!(sm.is_allocated(&mut reader, 3).unwrap());
    assert!(!sm.is_allocated(&mut reader, 0).unwrap());
}

#[test]
fn free_extents_coalesce_and_sum_to_the_free_count() {
    // One 32-block chunk: blocks 0, 1, 8 allocated; 29 free.
    let mut bitmap = vec![0u8; BLK];
    bitmap[0] = 0b0000_0011; // blocks 0,1
    bitmap[1] = 0b0000_0001; // block 8
    let image: Vec<u8> = {
        let mut data = spaceman(32, 100, 32, 29, 1, &[1]);
        data.extend(cib(32, 29, 2)); // block 1
        data.extend(bitmap); // block 2
        data
    };
    let sm = SpaceManager::parse(image[..BLK].to_vec()).unwrap();
    let mut reader = Cursor::new(image);
    let extents = sm.free_extents(&mut reader).unwrap();
    // Free runs: [2,8) and [9,32).
    assert_eq!(
        extents,
        vec![
            FreeExtent {
                start: 2,
                length: 6
            },
            FreeExtent {
                start: 9,
                length: 23
            },
        ],
    );
    let total: u64 = extents.iter().map(|e| e.length).sum();
    assert_eq!(total, sm.main_device.free_count);
}

#[test]
fn constants_match_their_documented_absolute_offsets() {
    assert_eq!(SM_DEV_OFFSET, 48);
    assert_eq!(CIB_CHUNK_INFO_OFFSET, 40);
    assert_eq!(CAB_CIB_ADDR_OFFSET, 40);
    assert_eq!(CAB_CIB_COUNT_OFFSET, 36);
}

#[test]
fn parse_reports_the_exact_minimum_size_when_truncated() {
    let block = vec![0u8; 143];
    match SpaceManager::parse(block) {
        Err(ApfsError::Truncated {
            structure,
            expected,
            actual,
        }) => {
            assert_eq!(structure, "spaceman_phys_t");
            assert_eq!(expected, 144);
            assert_eq!(actual, 143);
        }
        other => panic!("expected Truncated, got {other:?}"),
    }
}

#[test]
fn parse_accepts_a_block_at_exactly_the_minimum_size() {
    // A 144-byte block holds the fixed `spaceman_phys_t` fields but no
    // address array. The `< MIN` guard must accept it (so `<` ↔ `<=` is
    // catchable). The device parses succeed because both per-device
    // slices fit exactly within the 144 bytes.
    let mut block = vec![0u8; 144];
    // Distinct nonzero block_size so we can confirm parsing happened.
    block[0x20..0x24].copy_from_slice(&4096u32.to_le_bytes());
    let sm = SpaceManager::parse(block).expect("144-byte block must parse");
    assert_eq!(sm.block_size, 4096);
}

#[test]
fn parse_device_reports_the_exact_expected_offset_on_truncation() {
    let short = vec![0u8; 80];
    match parse_device(&short, 48) {
        Err(ApfsError::Truncated {
            structure,
            expected,
            actual,
        }) => {
            assert_eq!(structure, "spaceman_device_t");
            assert_eq!(expected, 96);
            assert_eq!(actual, 80);
        }
        other => panic!("expected Truncated, got {other:?}"),
    }
}

#[test]
fn parse_places_tier2_after_the_main_device() {
    let mut block = vec![0u8; BLK];
    block[0x20..0x24].copy_from_slice(
        &u32::try_from(BLK)
            .expect("the test fixture value fits in u32")
            .to_le_bytes(),
    );
    // Main device at offset 48: block_count = 1000, free = 100.
    block[48..56].copy_from_slice(&1000u64.to_le_bytes());
    block[48 + 24..48 + 32].copy_from_slice(&100u64.to_le_bytes());
    // Tier-2 device at offset 96: block_count = 2000, free = 500.
    block[96..104].copy_from_slice(&2000u64.to_le_bytes());
    block[96 + 24..96 + 32].copy_from_slice(&500u64.to_le_bytes());
    let sm = SpaceManager::parse(block).unwrap();
    assert_eq!(sm.main_device.block_count, 1000);
    assert_eq!(sm.main_device.free_count, 100);
    assert_eq!(sm.tier2_device.block_count, 2000);
    assert_eq!(sm.tier2_device.free_count, 500);
    assert_eq!(sm.total_blocks(), 3000);
    assert_eq!(sm.free_blocks(), 600);
}

#[test]
fn device_address_reads_the_indexed_entry() {
    let mut block = vec![0u8; BLK];
    block[0x20..0x24].copy_from_slice(
        &u32::try_from(BLK)
            .expect("the test fixture value fits in u32")
            .to_le_bytes(),
    );
    let addr_off = SM_DEV_OFFSET + SD_COUNT * SPACEMAN_DEVICE_SIZE;
    // Main device: addr_offset
    block[SM_DEV_OFFSET + 32..SM_DEV_OFFSET + 36].copy_from_slice(
        &u32::try_from(addr_off)
            .expect("the test fixture value fits in u32")
            .to_le_bytes(),
    );
    block[addr_off..addr_off + 8].copy_from_slice(&0x1111_1111_u64.to_le_bytes());
    block[addr_off + 8..addr_off + 16].copy_from_slice(&0x2222_2222_u64.to_le_bytes());
    let sm = SpaceManager::parse(block).unwrap();
    assert_eq!(sm.device_address(0).unwrap(), 0x1111_1111);
    assert_eq!(sm.device_address(1).unwrap(), 0x2222_2222);
}

#[test]
fn cib_address_walks_two_level_with_a_non_zero_cib_in_cab() {
    let mut block = spaceman(8, 4, 256, 0, 2, &[1]);
    // cab_count = 1, cibs_per_cab = 2 on the main device.
    block[0x2C..0x30].copy_from_slice(&2u32.to_le_bytes());
    block[SM_DEV_OFFSET + 20..SM_DEV_OFFSET + 24].copy_from_slice(&1u32.to_le_bytes());
    // The address array's first entry is the CAB at block 1.
    // The CAB lists two CIBs: slot 0 → block 90 (decoy), slot 1 → block 2.
    // The CIB at block 2 reports chunk-in-cib = 0 fully allocated.
    let mut image = block;
    image.extend(cab(&[90, 2])); // block 1
    image.extend(cib(8, 0, 0)); // block 2: bitmapless full chunk
    let sm = SpaceManager::parse(image[..BLK].to_vec()).unwrap();
    let mut reader = Cursor::new(image);
    // chunk_index = 4 → cib_index = 1 → cab_index = 0, cib_in_cab = 1.
    // block_addr = chunk_index * blocks_per_chunk = 4*8 = 32.
    assert!(sm.is_allocated(&mut reader, 32).unwrap());
}

#[test]
fn is_allocated_uses_a_non_zero_chunk_in_cib() {
    let mut data = spaceman(8, 2, 16, 8, 1, &[1]);
    // The CIB at block 1 lists two chunk entries.
    let mut chunk_block = vec![0u8; BLK];
    chunk_block[OBJ_PHYS_SIZE + 4..OBJ_PHYS_SIZE + 8].copy_from_slice(&2u32.to_le_bytes());
    // Slot 0: 8 blocks, 8 free, no bitmap (uniformly free).
    let s0 = CIB_CHUNK_INFO_OFFSET;
    chunk_block[s0 + 16..s0 + 20].copy_from_slice(&8u32.to_le_bytes());
    chunk_block[s0 + 20..s0 + 24].copy_from_slice(&8u32.to_le_bytes());
    // Slot 1: 8 blocks, 0 free, no bitmap (uniformly allocated).
    let s1 = CIB_CHUNK_INFO_OFFSET + CHUNK_INFO_SIZE;
    chunk_block[s1 + 16..s1 + 20].copy_from_slice(&8u32.to_le_bytes());
    chunk_block[s1 + 20..s1 + 24].copy_from_slice(&0u32.to_le_bytes());
    data.extend(chunk_block);
    // main_device.chunk_count must be ≥ 2 so chunk_index = 1 is valid.
    data[SM_DEV_OFFSET + 8..SM_DEV_OFFSET + 16].copy_from_slice(&2u64.to_le_bytes());
    let sm = SpaceManager::parse(data[..BLK].to_vec()).unwrap();
    let mut reader = Cursor::new(data);
    // chunk_index = 0 (slot 0) → free.
    assert!(!sm.is_allocated(&mut reader, 0).unwrap());
    // chunk_index = 1 (slot 1) → allocated. Block_addr = 1*8 + 0 = 8.
    assert!(sm.is_allocated(&mut reader, 8).unwrap());
}

#[test]
fn cib_address_division_is_distinct_from_modulus_and_multiplication() {
    let mut block = spaceman(4, 4, 32, 0, 2, &[1, 5]); // 2 CIBs
    // main_device.chunk_count = 8 so chunk_index = 6 is in range.
    block[SM_DEV_OFFSET + 8..SM_DEV_OFFSET + 16].copy_from_slice(&8u64.to_le_bytes());
    let mut image = block;
    // Block 1: CIB for chunks 0..3 (chunk_in_cib = 0 fully free).
    image.extend(cib(4, 4, 0));
    // Need a block 2 (filler).
    image.extend(vec![0u8; BLK]);
    // Need a block 3, 4 (filler).
    image.extend(vec![0u8; BLK]);
    image.extend(vec![0u8; BLK]);
    // Block 5: CIB for chunks 4..7. Slot 2 (= 6%4) is allocated.
    let mut cib5 = vec![0u8; BLK];
    cib5[OBJ_PHYS_SIZE + 4..OBJ_PHYS_SIZE + 8].copy_from_slice(&4u32.to_le_bytes());
    for slot in 0..4 {
        let ci = CIB_CHUNK_INFO_OFFSET + slot * CHUNK_INFO_SIZE;
        cib5[ci + 16..ci + 20].copy_from_slice(&4u32.to_le_bytes()); // block_count
        // Slot 2 (chunk_in_cib for chunk_index=6) is fully allocated.
        let free = if slot == 2 { 0u32 } else { 4u32 };
        cib5[ci + 20..ci + 24].copy_from_slice(&free.to_le_bytes());
    }
    image.extend(cib5);
    let sm = SpaceManager::parse(image[..BLK].to_vec()).unwrap();
    let mut reader = Cursor::new(image);
    // block_addr = chunk_index * blocks_per_chunk = 6 * 4 = 24.
    assert!(sm.is_allocated(&mut reader, 24).unwrap());
}

#[test]
fn is_allocated_requires_both_conditions_for_uniformly_full_chunk() {
    let mut data = spaceman(8, 100, 8, 8, 1, &[1]);
    let mut cib_block = vec![0u8; BLK];
    cib_block[OBJ_PHYS_SIZE + 4..OBJ_PHYS_SIZE + 8].copy_from_slice(&1u32.to_le_bytes());
    let ci = CIB_CHUNK_INFO_OFFSET;
    cib_block[ci + 16..ci + 20].copy_from_slice(&8u32.to_le_bytes()); // block_count = 8
    cib_block[ci + 20..ci + 24].copy_from_slice(&3u32.to_le_bytes()); // free_count = 3
    // bitmap_addr = 0 → bitmapless branch.
    data.extend(cib_block);
    let sm = SpaceManager::parse(data[..BLK].to_vec()).unwrap();
    let mut reader = Cursor::new(data);
    // Some blocks are free, so the chunk is not uniformly allocated.
    assert!(!sm.is_allocated(&mut reader, 0).unwrap());
}

#[test]
fn free_extents_accepts_a_bitmap_exactly_covering_its_chunk() {
    // Force `bitmap.len() * 8 == block_count` so the strict `<` boundary
    // matters: the original passes, but `< → ==` and `< → <=` would
    // reject the bitmap as "shorter than the chunk it covers". A chunk
    // of `BLK * 8` blocks is covered by exactly the whole `BLK`-sized
    // bitmap block.
    let chunk_blocks = u32::try_from(BLK).expect("the test fixture value fits in u32") * 8; // 32768
    let mut data = spaceman(chunk_blocks, 100, u64::from(chunk_blocks), 0, 1, &[1]);
    // Bitmapped chunk fully allocated, bitmap at block 2.
    let mut cib_block = vec![0u8; BLK];
    cib_block[OBJ_PHYS_SIZE + 4..OBJ_PHYS_SIZE + 8].copy_from_slice(&1u32.to_le_bytes());
    let ci = CIB_CHUNK_INFO_OFFSET;
    cib_block[ci + 16..ci + 20].copy_from_slice(&chunk_blocks.to_le_bytes());
    cib_block[ci + 20..ci + 24].copy_from_slice(&0u32.to_le_bytes()); // free_count
    cib_block[ci + 24..ci + 32].copy_from_slice(&2i64.to_le_bytes()); // bitmap at block 2
    data.extend(cib_block);
    // Bitmap: every bit set → every block allocated → no free extents.
    data.extend(vec![0xFFu8; BLK]);
    let sm = SpaceManager::parse(data[..BLK].to_vec()).unwrap();
    let mut reader = Cursor::new(data);
    let extents = sm.free_extents(&mut reader).unwrap();
    assert_eq!(extents, vec![]);
}

#[test]
fn free_extents_coalesce_across_chunk_boundaries() {
    // Two bitmapless chunks of 16 blocks, both entirely free: the free
    // runs must merge into a single 32-block extent.
    let image: Vec<u8> = {
        let mut data = spaceman(16, 100, 32, 32, 1, &[1]);
        // One CIB holding two chunk-info entries, both bitmapless+free.
        let mut cib = vec![0u8; BLK];
        cib[OBJ_PHYS_SIZE + 4..OBJ_PHYS_SIZE + 8].copy_from_slice(&2u32.to_le_bytes());
        for chunk in 0..2 {
            let ci = CIB_CHUNK_INFO_OFFSET + chunk * CHUNK_INFO_SIZE;
            cib[ci + 16..ci + 20].copy_from_slice(&16u32.to_le_bytes()); // block_count
            cib[ci + 20..ci + 24].copy_from_slice(&16u32.to_le_bytes()); // free_count
            // ci_bitmap_addr stays 0 — a uniformly free chunk.
        }
        data.extend(cib); // block 1
        data
    };
    let sm = SpaceManager::parse(image[..BLK].to_vec()).unwrap();
    let mut reader = Cursor::new(image);
    let extents = sm.free_extents(&mut reader).unwrap();
    assert_eq!(
        extents,
        vec![FreeExtent {
            start: 0,
            length: 32
        }]
    );
}
