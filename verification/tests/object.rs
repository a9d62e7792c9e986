use fs_apfs::error::ApfsError;
use fs_apfs::object::{OBJ_ENCRYPTED, OBJ_EPHEMERAL, OBJ_NOHEADER, OBJ_NONPERSISTENT, OBJ_PHYSICAL, OBJ_PHYS_SIZE, OBJ_STORAGETYPE_MASK, OBJ_VIRTUAL, ObjPhys, StorageClass};
use fs_apfs::types::ObjectType;

/// Builds a 32-byte `obj_phys_t` with the given identifiers and type.
fn header(oid: u64, xid: u64, o_type: u32, subtype: u32) -> [u8; OBJ_PHYS_SIZE] {
    let mut buf = [0u8; OBJ_PHYS_SIZE];
    buf[0x08..0x10].copy_from_slice(&oid.to_le_bytes());
    buf[0x10..0x18].copy_from_slice(&xid.to_le_bytes());
    buf[0x18..0x1C].copy_from_slice(&o_type.to_le_bytes());
    buf[0x1C..0x20].copy_from_slice(&subtype.to_le_bytes());
    buf
}

#[test]
fn obj_phys_size_is_32() {
    assert_eq!(OBJ_PHYS_SIZE, 32);
}

#[test]
fn parses_identifiers_type_and_subtype() {
    let buf = header(0x1122_3344_5566_7788, 0x42, 0x4000_0001, 0x0000_000B);
    let obj = ObjPhys::parse(&buf).unwrap();
    assert_eq!(obj.oid, 0x1122_3344_5566_7788);
    assert_eq!(obj.xid, 0x42);
    assert_eq!(obj.object_type(), 0x0001);
    assert_eq!(obj.type_flags(), 0x4000);
    assert_eq!(obj.subtype, 0x0000_000B);
}

#[test]
fn parses_a_prefix_of_a_larger_block() {
    let mut block = [0u8; 256];
    block[..OBJ_PHYS_SIZE].copy_from_slice(&header(7, 9, OBJ_PHYSICAL, 0));
    let obj = ObjPhys::parse(&block).unwrap();
    assert_eq!(obj.oid, 7);
    assert_eq!(obj.xid, 9);
}

#[test]
fn truncated_input_is_rejected() {
    let short = [0u8; OBJ_PHYS_SIZE - 1];
    match ObjPhys::parse(&short) {
        Err(ApfsError::Truncated {
            structure,
            expected,
            actual,
        }) => {
            assert_eq!(structure, "obj_phys_t");
            assert_eq!(expected, OBJ_PHYS_SIZE);
            assert_eq!(actual, OBJ_PHYS_SIZE - 1);
        }
        other => panic!("expected Truncated, got {other:?}"),
    }
}

#[test]
fn storage_class_decodes_each_variant() {
    let virt = ObjPhys::parse(&header(1, 1, OBJ_VIRTUAL, 0)).unwrap();
    assert_eq!(virt.storage_class(), StorageClass::Virtual);

    let ephem = ObjPhys::parse(&header(1, 1, OBJ_EPHEMERAL, 0)).unwrap();
    assert_eq!(ephem.storage_class(), StorageClass::Ephemeral);

    let phys = ObjPhys::parse(&header(1, 1, OBJ_PHYSICAL, 0)).unwrap();
    assert_eq!(phys.storage_class(), StorageClass::Physical);

    // Both storage-class bits set is not a value APFS defines.
    let unknown = ObjPhys::parse(&header(1, 1, OBJ_STORAGETYPE_MASK, 0)).unwrap();
    assert_eq!(unknown.storage_class(), StorageClass::Unknown);
}

#[test]
fn type_flag_predicates() {
    let encrypted = ObjPhys::parse(&header(1, 1, OBJ_PHYSICAL | OBJ_ENCRYPTED, 0)).unwrap();
    assert!(encrypted.is_encrypted());
    assert!(!encrypted.is_headerless());

    let plain = ObjPhys::parse(&header(1, 1, OBJ_PHYSICAL, 0)).unwrap();
    assert!(!plain.is_encrypted());
    assert!(!plain.is_nonpersistent());
}

#[test]
fn object_and_subtype_kind_decode() {
    // A B-tree node holding file-system records: type BTREE_NODE,
    // subtype FSTREE, with the physical storage-class flag set.
    let buf = header(5, 7, OBJ_PHYSICAL | 0x03, 0x0E);
    let obj = ObjPhys::parse(&buf).unwrap();
    assert_eq!(obj.object_kind(), ObjectType::BtreeNode);
    assert_eq!(obj.subtype_kind(), ObjectType::FsTree);
}

#[test]
fn checksum_field_round_trips() {
    let mut block = header(1, 1, OBJ_PHYSICAL, 0);
    let csum = fs_apfs::checksum::fletcher64(&block[fs_apfs::checksum::MAX_CKSUM_SIZE..]);
    block[..fs_apfs::checksum::MAX_CKSUM_SIZE].copy_from_slice(&csum.to_le_bytes());
    let obj = ObjPhys::parse(&block).unwrap();
    assert_eq!(obj.checksum, csum);
    assert!(fs_apfs::checksum::verify_block(&block));
}

#[test]
fn object_type_returns_the_low_sixteen_bits_of_o_type() {
    let obj = ObjPhys::parse(&header(1, 1, OBJ_PHYSICAL | 0x000C, 0)).unwrap();
    assert_eq!(obj.object_type(), 0x000C);
}

#[test]
fn raw_type_returns_the_full_o_type_field() {
    let combined = OBJ_PHYSICAL | OBJ_ENCRYPTED | 0x0042;
    let obj = ObjPhys::parse(&header(1, 1, combined, 0)).unwrap();
    assert_eq!(obj.raw_type(), combined);
    // Sanity-check the combined value is well clear of `0` and `1`.
    assert!(obj.raw_type() > 1);
}

#[test]
fn is_headerless_is_true_when_obj_noheader_is_set() {
    let headered = ObjPhys::parse(&header(1, 1, OBJ_PHYSICAL, 0)).unwrap();
    assert!(!headered.is_headerless());
    let headerless = ObjPhys::parse(&header(1, 1, OBJ_PHYSICAL | OBJ_NOHEADER, 0)).unwrap();
    assert!(headerless.is_headerless());
}

#[test]
fn is_nonpersistent_is_true_when_obj_nonpersistent_is_set() {
    let persistent = ObjPhys::parse(&header(1, 1, OBJ_PHYSICAL, 0)).unwrap();
    assert!(!persistent.is_nonpersistent());
    let nonpersistent =
        ObjPhys::parse(&header(1, 1, OBJ_PHYSICAL | OBJ_NONPERSISTENT, 0)).unwrap();
    assert!(nonpersistent.is_nonpersistent());
}
