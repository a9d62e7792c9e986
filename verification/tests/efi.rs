use fs_apfs::container::NX_MAGIC;
use fs_apfs::efi::{APFS_GPT_PARTITION_TYPE, APFS_GPT_PARTITION_UUID, EfiJumpstart, NEJ_EXTENTS_OFFSET, NX_EFI_JUMPSTART_MAGIC, NX_EFI_JUMPSTART_VERSION, is_apfs_container};
use fs_apfs::error::ApfsError;
use fs_apfs::io::Cursor;
use fs_apfs::object::{OBJ_PHYSICAL, OBJ_PHYS_SIZE};
use fs_apfs::types::{PRANGE_SIZE, Paddr};

const BLK: usize = 4096;

/// Builds an EFI jumpstart block with `num_extents` extents.
fn jumpstart(magic: u32, version: u32, extents: &[(i64, u64)]) -> Vec<u8> {
    let mut b = vec![0u8; BLK];
    // o_type: OBJECT_TYPE_EFI_JUMPSTART (0x14).
    b[0x18..0x1C].copy_from_slice(&(OBJ_PHYSICAL | 0x14).to_le_bytes());
    b[0x20..0x24].copy_from_slice(&magic.to_le_bytes());
    b[0x24..0x28].copy_from_slice(&version.to_le_bytes());
    b[0x28..0x2C].copy_from_slice(&4096u32.to_le_bytes()); // nej_efi_file_len
    b[0x2C..0x30].copy_from_slice(
        &u32::try_from(extents.len())
            .expect("the test fixture value fits in u32")
            .to_le_bytes(),
    );
    for (i, &(start, count)) in extents.iter().enumerate() {
        let off = NEJ_EXTENTS_OFFSET + i * PRANGE_SIZE;
        b[off..off + 8].copy_from_slice(&start.to_le_bytes());
        b[off + 8..off + 16].copy_from_slice(&count.to_le_bytes());
    }
    b
}

#[test]
fn detects_an_apfs_container() {
    let mut block = vec![0u8; BLK];
    block[0x20..0x24].copy_from_slice(&NX_MAGIC.to_le_bytes());
    let mut reader = Cursor::new(block);
    assert!(is_apfs_container(&mut reader).unwrap());
}

#[test]
fn rejects_a_non_apfs_image() {
    let mut reader = Cursor::new(vec![0u8; BLK]);
    assert!(!is_apfs_container(&mut reader).unwrap());
    // An image too small for a superblock is simply not APFS.
    let mut tiny = Cursor::new(vec![0u8; 16]);
    assert!(!is_apfs_container(&mut tiny).unwrap());
}

#[test]
fn parses_an_efi_jumpstart_record() {
    let block = jumpstart(NX_EFI_JUMPSTART_MAGIC, 1, &[(64, 2), (200, 1)]);
    let js = EfiJumpstart::parse(&block).unwrap();
    assert_eq!(js.efi_file_len, 4096);
    assert_eq!(js.extents.len(), 2);
    assert_eq!(js.extents[0].start, Paddr(64));
    assert_eq!(js.extents[1].block_count, 1);
}

#[test]
fn efi_rejects_a_bad_magic() {
    let block = jumpstart(0xDEAD_BEEF, 1, &[]);
    assert!(matches!(
        EfiJumpstart::parse(&block),
        Err(ApfsError::InvalidMagic { .. })
    ));
}

#[test]
fn rejects_an_unknown_version() {
    let block = jumpstart(NX_EFI_JUMPSTART_MAGIC, 99, &[]);
    assert!(matches!(
        EfiJumpstart::parse(&block),
        Err(ApfsError::Unsupported(_))
    ));
}

#[test]
fn rejects_an_oversized_extent_count() {
    // A crafted nej_num_extents must be rejected before allocation.
    let mut block = jumpstart(NX_EFI_JUMPSTART_MAGIC, 1, &[]);
    block[0x2C..0x30].copy_from_slice(&u32::MAX.to_le_bytes());
    assert!(matches!(
        EfiJumpstart::parse(&block),
        Err(ApfsError::Malformed { .. })
    ));
}

#[test]
fn partition_type_guid_round_trips() {
    // The mixed-endian bytes correspond to the canonical UUID string.
    assert_eq!(
        APFS_GPT_PARTITION_UUID,
        "7C3457EF-0000-11AA-AA11-00306543ECAC"
    );
    assert_eq!(APFS_GPT_PARTITION_TYPE[0], 0xEF);
    assert_eq!(APFS_GPT_PARTITION_TYPE[15], 0xAC);
}

#[test]
fn nej_extents_offset_pins_the_extent_array_position() {
    assert_eq!(NEJ_EXTENTS_OFFSET, OBJ_PHYS_SIZE + 16 + 128);
    assert_eq!(NEJ_EXTENTS_OFFSET, 176);
}

#[test]
fn parse_accepts_a_block_just_large_enough_for_the_fixed_header() {
    // A block exactly NEJ_EXTENTS_OFFSET bytes long has zero extents but
    // every fixed field set. The truncation check is `len < EXTENTS_OFF`,
    // so `<=` would reject this size and `==` would only flag exact
    // matches — both must accept a 176-byte buffer with zero extents.
    let mut b = vec![0u8; NEJ_EXTENTS_OFFSET];
    b[0x18..0x1C].copy_from_slice(&(OBJ_PHYSICAL | 0x14).to_le_bytes());
    b[0x20..0x24].copy_from_slice(&NX_EFI_JUMPSTART_MAGIC.to_le_bytes());
    b[0x24..0x28].copy_from_slice(&NX_EFI_JUMPSTART_VERSION.to_le_bytes());
    let js = EfiJumpstart::parse(&b).unwrap();
    assert_eq!(js.extents.len(), 0);
}

#[test]
fn parse_rejects_a_block_one_byte_short_of_the_header() {
    let b = vec![0u8; NEJ_EXTENTS_OFFSET - 1];
    match EfiJumpstart::parse(&b) {
        Err(ApfsError::Truncated {
            structure,
            expected,
            actual,
        }) => {
            assert_eq!(structure, "nx_efi_jumpstart_t");
            assert_eq!(expected, NEJ_EXTENTS_OFFSET);
            assert_eq!(actual, NEJ_EXTENTS_OFFSET - 1);
        }
        other => panic!("expected Truncated, got {other:?}"),
    }
}

#[test]
fn parse_rejects_an_extent_slice_that_runs_past_a_tight_block() {
    let mut b = vec![0u8; NEJ_EXTENTS_OFFSET + PRANGE_SIZE];
    b[0x18..0x1C].copy_from_slice(&(OBJ_PHYSICAL | 0x14).to_le_bytes());
    b[0x20..0x24].copy_from_slice(&NX_EFI_JUMPSTART_MAGIC.to_le_bytes());
    b[0x24..0x28].copy_from_slice(&NX_EFI_JUMPSTART_VERSION.to_le_bytes());
    b[0x28..0x2C].copy_from_slice(&1024u32.to_le_bytes()); // nej_efi_file_len
    b[0x2C..0x30].copy_from_slice(&1u32.to_le_bytes()); // nej_num_extents
    // The one extent's prange bytes live at the very end of the buffer.
    b[NEJ_EXTENTS_OFFSET..NEJ_EXTENTS_OFFSET + 8].copy_from_slice(&42i64.to_le_bytes());
    b[NEJ_EXTENTS_OFFSET + 8..NEJ_EXTENTS_OFFSET + 16].copy_from_slice(&3u64.to_le_bytes());

    let js = EfiJumpstart::parse(&b).unwrap();
    assert_eq!(js.extents.len(), 1);
    assert_eq!(js.extents[0].start, Paddr(42));
    assert_eq!(js.extents[0].block_count, 3);
}
