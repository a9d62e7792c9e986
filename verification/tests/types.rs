use fs_apfs::error::ApfsError;
use fs_apfs::types::{OBJECT_TYPE_CONTAINER_KEYBAG, OBJECT_TYPE_MEDIA_KEYBAG, OBJECT_TYPE_VOLUME_KEYBAG, OID_INVALID, OID_NX_SUPERBLOCK, OID_RESERVED_COUNT, ObjectType, Oid, PRANGE_SIZE, Paddr, Prange, Xid};

#[test]
fn paddr_validity() {
    assert!(Paddr(0).is_valid());
    assert!(Paddr(4096).is_valid());
    assert!(!Paddr(-1).is_valid());
    assert_eq!(Paddr(4096).as_block(), Some(4096));
    assert_eq!(Paddr(-1).as_block(), None);
}

#[test]
fn oid_predicates() {
    assert!(!Oid(OID_INVALID).is_valid());
    assert!(Oid(OID_NX_SUPERBLOCK).is_valid());
    assert!(Oid(OID_NX_SUPERBLOCK).is_reserved());
    assert!(Oid(OID_RESERVED_COUNT - 1).is_reserved());
    assert!(!Oid(OID_RESERVED_COUNT).is_reserved());
}

#[test]
fn xid_zero_is_invalid() {
    assert!(!Xid(0).is_valid());
    assert!(Xid(1).is_valid());
}

#[test]
fn prange_parses_from_16_bytes() {
    let mut buf = [0u8; PRANGE_SIZE];
    buf[0x00..0x08].copy_from_slice(&100i64.to_le_bytes());
    buf[0x08..0x10].copy_from_slice(&8u64.to_le_bytes());
    let range = Prange::parse(&buf).unwrap();
    assert_eq!(range.start, Paddr(100));
    assert_eq!(range.block_count, 8);
    assert!(!range.is_empty());
}

#[test]
fn prange_is_empty_when_block_count_is_zero() {
    let mut buf = [0u8; PRANGE_SIZE];
    buf[0x00..0x08].copy_from_slice(&100i64.to_le_bytes());
    let empty = Prange::parse(&buf).unwrap();
    assert!(empty.is_empty());
    buf[0x08..0x10].copy_from_slice(&1u64.to_le_bytes());
    let non_empty = Prange::parse(&buf).unwrap();
    assert!(!non_empty.is_empty());
}

#[test]
fn prange_rejects_truncated_input() {
    match Prange::parse(&[0u8; PRANGE_SIZE - 1]) {
        Err(ApfsError::Truncated { structure, .. }) => assert_eq!(structure, "prange_t"),
        other => panic!("expected Truncated, got {other:?}"),
    }
}

#[test]
fn object_type_decodes_known_values() {
    assert_eq!(ObjectType::from_type_field(0x01), ObjectType::NxSuperblock);
    assert_eq!(ObjectType::from_type_field(0x0B), ObjectType::Omap);
    assert_eq!(ObjectType::from_type_field(0x0D), ObjectType::Fs);
    assert_eq!(ObjectType::from_type_field(0x1E), ObjectType::IntegrityMeta);
    assert_eq!(ObjectType::from_type_field(0x20), ObjectType::Reserved20);
    assert_eq!(ObjectType::from_type_field(0x00), ObjectType::Invalid);
    assert_eq!(ObjectType::from_type_field(0xFF), ObjectType::Test);
}

#[test]
fn object_type_ignores_flag_bits() {
    // OBJ_PHYSICAL | OBJ_ENCRYPTED set in the high bits must not change
    // the decoded type.
    assert_eq!(ObjectType::from_type_field(0x5000_000B), ObjectType::Omap);
}

#[test]
fn object_type_unknown_fallback() {
    assert_eq!(
        ObjectType::from_type_field(0x0099),
        ObjectType::Unknown(0x0099)
    );
}

#[test]
fn keybag_four_char_codes() {
    // 'keys' as a big-endian four-char code.
    assert_eq!(OBJECT_TYPE_CONTAINER_KEYBAG, 0x6B65_7973);
}

#[test]
fn object_type_decodes_keybag_four_char_codes() {
    // A keybag object's full 32-bit type must classify correctly
    // rather than being truncated to an Unknown(...) by the mask.
    assert_eq!(
        ObjectType::from_type_field(OBJECT_TYPE_CONTAINER_KEYBAG),
        ObjectType::ContainerKeybag,
    );
    assert_eq!(
        ObjectType::from_type_field(OBJECT_TYPE_VOLUME_KEYBAG),
        ObjectType::VolumeKeybag,
    );
    assert_eq!(
        ObjectType::from_type_field(OBJECT_TYPE_MEDIA_KEYBAG),
        ObjectType::MediaKeybag,
    );
    // A normal masked type is unaffected.
    assert_eq!(ObjectType::from_type_field(0x4000_000B), ObjectType::Omap);
}
