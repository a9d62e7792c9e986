use fs_apfs::btree::{BTN_DATA_OFFSET, BTREE_INFO_SIZE};
use fs_apfs::catalog::{Catalog, JObjType, OBJ_TYPE_SHIFT};
use fs_apfs::error::ApfsError;
use fs_apfs::fext::FextTree;
use fs_apfs::io::Cursor;
use fs_apfs::object::{OBJ_PHYSICAL, OBJ_PHYS_SIZE};
use fs_apfs::omap::Omap;
use fs_apfs::sealed::{APFS_FILE_INFO_DATA_HASH, ApfsHashType, FileDataHash, INTEGRITY_META_FIXED_SIZE, IntegrityMeta, IntegrityMetaFlags, verify_file_hashes};
use fs_apfs::types::{Oid, Xid};

/// Shift selecting the type from `info_and_lba`.
const J_FILE_INFO_TYPE_SHIFT: u64 = 56;

/// Offset of the fields behind the object header.
const IM_FIELDS_OFFSET: usize = OBJ_PHYS_SIZE;

#[test]
fn hash_type_sizes() {
    assert_eq!(ApfsHashType::from_value(1).hash_size(), Some(32));
    assert_eq!(ApfsHashType::from_value(3).hash_size(), Some(48));
    assert_eq!(ApfsHashType::from_value(4).hash_size(), Some(64));
    assert_eq!(ApfsHashType::from_value(99).hash_size(), None);
}

#[test]
fn sha256_digest_and_verify() {
    let hash = ApfsHashType::Sha256.digest(b"apfs").unwrap();
    assert_eq!(hash.len(), 32);
    assert!(ApfsHashType::Sha256.verify(b"apfs", &hash).unwrap());
    assert!(!ApfsHashType::Sha256.verify(b"tampered", &hash).unwrap());
}

#[test]
fn unknown_hash_type_cannot_digest() {
    assert!(matches!(
        ApfsHashType::Unknown(7).digest(b"x"),
        Err(ApfsError::Unsupported(_))
    ));
}

#[test]
fn parses_integrity_metadata() {
    let mut block = vec![0u8; 256];
    let off = IM_FIELDS_OFFSET;
    block[off..off + 4].copy_from_slice(&2u32.to_le_bytes()); // version
    block[off + 8..off + 12].copy_from_slice(&1u32.to_le_bytes()); // SHA-256
    block[off + 12..off + 16].copy_from_slice(
        &u32::try_from(INTEGRITY_META_FIXED_SIZE)
            .expect("the test fixture value fits in u32")
            .to_le_bytes(),
    );
    // Root hash right after the fixed fields.
    block[INTEGRITY_META_FIXED_SIZE..INTEGRITY_META_FIXED_SIZE + 32].fill(0x5A);
    let im = IntegrityMeta::parse(&block).unwrap();
    assert_eq!(im.version, 2);
    assert_eq!(im.hash_type, ApfsHashType::Sha256);
    assert_eq!(im.root_hash, vec![0x5A; 32]);
    assert!(!im.is_seal_broken());
}

#[test]
fn broken_seal_is_reported() {
    let mut block = vec![0u8; 256];
    let off = IM_FIELDS_OFFSET;
    block[off + 4..off + 8]
        .copy_from_slice(&IntegrityMetaFlags::SEAL_BROKEN.to_le_bytes());
    block[off + 8..off + 12].copy_from_slice(&1u32.to_le_bytes());
    block[off + 12..off + 16].copy_from_slice(
        &u32::try_from(INTEGRITY_META_FIXED_SIZE)
            .expect("the test fixture value fits in u32")
            .to_le_bytes(),
    );
    assert!(IntegrityMeta::parse(&block).unwrap().is_seal_broken());
}

#[test]
fn integrity_meta_rejects_a_bad_root_hash_offset() {
    let mut block = vec![0u8; INTEGRITY_META_FIXED_SIZE];
    let off = IM_FIELDS_OFFSET;
    block[off + 8..off + 12].copy_from_slice(&1u32.to_le_bytes());
    block[off + 12..off + 16].copy_from_slice(&100_000u32.to_le_bytes());
    assert!(matches!(
        IntegrityMeta::parse(&block),
        Err(ApfsError::Malformed { .. })
    ));
}

#[test]
fn parses_and_verifies_a_file_data_hash() {
    let content = b"system file content";
    let digest = ApfsHashType::Sha256.digest(content).unwrap();
    let mut value = Vec::new();
    value.extend_from_slice(&4u16.to_le_bytes()); // hashed_len
    value.push(u8::try_from(digest.len()).expect("the test fixture value fits in u8")); // hash_size
    value.extend_from_slice(&digest);
    let fdh = FileDataHash::parse(&value).unwrap();
    assert_eq!(fdh.hashed_len, 4);
    assert!(fdh.verify(ApfsHashType::Sha256, content).unwrap());
    assert!(!fdh.verify(ApfsHashType::Sha256, b"tampered").unwrap());
}

#[test]
fn file_data_hash_rejects_a_short_value() {
    assert!(matches!(
        FileDataHash::parse(&[0u8, 0, 32]),
        Err(ApfsError::Truncated { .. })
    ));
}

#[test]
fn integrity_meta_fixed_size_is_one_hundred_twenty_eight_bytes() {
    // obj_phys_t (OBJ_PHYS_SIZE = 32) + version u32 + flags u32
    // + hash_type u32 + root_hash_offset u32 + broken_xid u64
    // + 72 bytes of reserved / pad fields = 128 bytes total.
    // Wrong arithmetic in the const would mis-size the truncation guard
    // and let undersized blocks past `IntegrityMeta::parse`.
    assert_eq!(INTEGRITY_META_FIXED_SIZE, 128);
    assert_eq!(
        INTEGRITY_META_FIXED_SIZE,
        OBJ_PHYS_SIZE + 4 + 4 + 4 + 4 + 8 + 72
    );
}

#[test]
fn file_data_hash_rejects_a_two_byte_value() {
    // Two bytes is below the 3-byte minimum; the guard must reject it
    // rather than indexing past the buffer to read `value[2]`.
    assert!(matches!(
        FileDataHash::parse(&[0u8, 0]),
        Err(ApfsError::Truncated { .. })
    ));
}

#[test]
fn file_data_hash_accepts_a_three_byte_zero_hash_value() {
    // Three bytes — the minimum — with hash_size=0 is the empty-hash
    // record and must parse, not be rejected by a `<=` guard.
    let fdh = FileDataHash::parse(&[0u8, 0, 0]).unwrap();
    assert_eq!(fdh.hashed_len, 0);
    assert!(fdh.hash.is_empty());
}

#[test]
fn file_data_hash_truncation_error_reports_three_plus_hash_size() {
    // A value declaring hash_size=8 but only 5 bytes long must report
    // expected=11 (3 + 8), never 3 * 8 = 24.
    let value = vec![0u8, 0, 8, 0xAA, 0xBB];
    let err = FileDataHash::parse(&value).unwrap_err();
    match err {
        ApfsError::Truncated {
            expected, actual, ..
        } => {
            assert_eq!(expected, 11);
            assert_eq!(actual, 5);
        }
        other => panic!("expected Truncated, got {other:?}"),
    }
}

// --- Whole-volume verification ----------------------------------------


const BLK: usize = 4096;

fn omap_phys(tree_oid: u64) -> Vec<u8> {
    let mut b = vec![0u8; BLK];
    b[0x18..0x1C].copy_from_slice(&(OBJ_PHYSICAL | 0x0B).to_le_bytes());
    b[0x30..0x38].copy_from_slice(&tree_oid.to_le_bytes());
    b
}

fn omap_tree(node_oid: u64, node_paddr: u64) -> Vec<u8> {
    let mut b = vec![0u8; BLK];
    b[0x20..0x22].copy_from_slice(&0x0007u16.to_le_bytes());
    b[0x24..0x28].copy_from_slice(&1u32.to_le_bytes());
    b[0x2A..0x2C].copy_from_slice(&4u16.to_le_bytes());
    let key_area = BTN_DATA_OFFSET + 4;
    b[BTN_DATA_OFFSET + 2..BTN_DATA_OFFSET + 4].copy_from_slice(&16u16.to_le_bytes());
    b[key_area..key_area + 8].copy_from_slice(&node_oid.to_le_bytes());
    b[key_area + 8..key_area + 16].copy_from_slice(&1u64.to_le_bytes());
    let value_end = BLK - BTREE_INFO_SIZE;
    b[value_end - 16 + 8..value_end - 16 + 16].copy_from_slice(&node_paddr.to_le_bytes());
    let info = BLK - BTREE_INFO_SIZE;
    b[info + 8..info + 12].copy_from_slice(&16u32.to_le_bytes());
    b[info + 12..info + 16].copy_from_slice(&16u32.to_le_bytes());
    b
}

fn catalog_leaf(records: &[(Vec<u8>, Vec<u8>)]) -> Vec<u8> {
    let mut b = vec![0u8; BLK];
    b[0x20..0x22].copy_from_slice(&0x0003u16.to_le_bytes());
    b[0x24..0x28].copy_from_slice(
        &u32::try_from(records.len())
            .expect("the test fixture value fits in u32")
            .to_le_bytes(),
    );
    b[0x2A..0x2C].copy_from_slice(
        &u16::try_from(records.len() * 8)
            .expect("the test fixture value fits in u16")
            .to_le_bytes(),
    );
    let key_area = BTN_DATA_OFFSET + records.len() * 8;
    let value_end = BLK - BTREE_INFO_SIZE;
    let (mut kc, mut vc) = (0usize, 0usize);
    for (i, (key, value)) in records.iter().enumerate() {
        let toc = BTN_DATA_OFFSET + i * 8;
        b[toc..toc + 2].copy_from_slice(
            &u16::try_from(kc)
                .expect("the test fixture value fits in u16")
                .to_le_bytes(),
        );
        b[toc + 2..toc + 4].copy_from_slice(
            &u16::try_from(key.len())
                .expect("the test fixture value fits in u16")
                .to_le_bytes(),
        );
        vc += value.len();
        b[toc + 4..toc + 6].copy_from_slice(
            &u16::try_from(vc)
                .expect("the test fixture value fits in u16")
                .to_le_bytes(),
        );
        b[toc + 6..toc + 8].copy_from_slice(
            &u16::try_from(value.len())
                .expect("the test fixture value fits in u16")
                .to_le_bytes(),
        );
        b[key_area + kc..key_area + kc + key.len()].copy_from_slice(key);
        b[value_end - vc..value_end - vc + value.len()].copy_from_slice(value);
        kc += key.len();
    }
    b
}

/// A ROOT|LEAF|FIXED fext-tree node from
/// `(private_id, logical_addr, length, phys_block_num)` records.
fn fext_leaf(records: &[(u64, u64, u64, u64)]) -> Vec<u8> {
    let mut b = vec![0u8; BLK];
    b[0x20..0x22].copy_from_slice(&0x0007u16.to_le_bytes()); // ROOT|LEAF|FIXED
    b[0x24..0x28].copy_from_slice(
        &u32::try_from(records.len())
            .expect("the test fixture value fits in u32")
            .to_le_bytes(),
    );
    b[0x2A..0x2C].copy_from_slice(
        &u16::try_from(records.len() * 4)
            .expect("the test fixture value fits in u16")
            .to_le_bytes(),
    );
    let key_area = BTN_DATA_OFFSET + records.len() * 4;
    let value_end = BLK - BTREE_INFO_SIZE;
    for (i, &(private_id, logical, length, phys)) in records.iter().enumerate() {
        let toc = BTN_DATA_OFFSET + i * 4;
        b[toc..toc + 2].copy_from_slice(
            &u16::try_from(i * 16)
                .expect("the test fixture value fits in u16")
                .to_le_bytes(),
        );
        b[toc + 2..toc + 4].copy_from_slice(
            &u16::try_from((i + 1) * 16)
                .expect("the test fixture value fits in u16")
                .to_le_bytes(),
        );
        let ks = key_area + i * 16;
        b[ks..ks + 8].copy_from_slice(&private_id.to_le_bytes());
        b[ks + 8..ks + 16].copy_from_slice(&logical.to_le_bytes());
        let vs = value_end - (i + 1) * 16;
        b[vs..vs + 8].copy_from_slice(&length.to_le_bytes());
        b[vs + 8..vs + 16].copy_from_slice(&phys.to_le_bytes());
    }
    let info = BLK - BTREE_INFO_SIZE;
    b[info + 8..info + 12].copy_from_slice(&16u32.to_le_bytes());
    b[info + 12..info + 16].copy_from_slice(&16u32.to_le_bytes());
    let csum = fs_apfs::checksum::fletcher64(&b[8..]);
    b[..8].copy_from_slice(&csum.to_le_bytes());
    b
}

/// A `FILE_INFO` data-hash record covering the file's first block.
fn file_info_record(obj_id: u64, content: &[u8]) -> (Vec<u8>, Vec<u8>) {
    let mut key = ((u64::from(JObjType::FileInfo.as_value()) << OBJ_TYPE_SHIFT) | obj_id)
        .to_le_bytes()
        .to_vec();
    // info_and_lba: type DATA_HASH in the high byte, LBA 0.
    let info_and_lba = APFS_FILE_INFO_DATA_HASH << J_FILE_INFO_TYPE_SHIFT;
    key.extend_from_slice(&info_and_lba.to_le_bytes());
    let digest = ApfsHashType::Sha256.digest(content).unwrap();
    let mut value = Vec::new();
    value.extend_from_slice(&1u16.to_le_bytes()); // hashed_len: one block
    value.push(u8::try_from(digest.len()).expect("the test fixture value fits in u8"));
    value.extend_from_slice(&digest);
    (key, value)
}

/// An `integrity_meta_phys_t` block declaring `hash_type`.
fn integrity_meta(hash_type: u32) -> Vec<u8> {
    let mut block = vec![0u8; 256];
    let off = IM_FIELDS_OFFSET;
    block[off..off + 4].copy_from_slice(&2u32.to_le_bytes()); // version
    block[off + 8..off + 12].copy_from_slice(&hash_type.to_le_bytes());
    block[off + 12..off + 16].copy_from_slice(
        &u32::try_from(INTEGRITY_META_FIXED_SIZE)
            .expect("the test fixture value fits in u32")
            .to_le_bytes(),
    );
    block
}

/// A sealed volume holding one file (object id 5) whose block-0 content
/// is `content`. Block 2 is the catalog leaf (the `FILE_INFO` hash
/// record), block 3 the content, block 4 the file-extent tree — extents
/// live in the fext tree, not the catalog, exactly as on a real sealed
/// volume.
fn sealed_volume(content: &[u8]) -> (Catalog, FextTree, Cursor) {
    let leaf = catalog_leaf(&[file_info_record(5, content)]);
    let mut image = omap_phys(1);
    image.extend(omap_tree(100, 2));
    image.extend(leaf); // block 2
    let mut block = vec![0u8; BLK];
    block[..content.len()].copy_from_slice(content);
    image.extend(block); // block 3
    image.extend(fext_leaf(&[(5, 0, BLK as u64, 3)])); // block 4
    let omap = Omap::parse(&image[..BLK]).unwrap();
    (
        Catalog::new(
            Oid(100),
            omap,
            u32::try_from(BLK).expect("the test fixture value fits in u32"),
            Xid(1),
        ),
        FextTree::new(4),
        Cursor::new(image),
    )
}

#[test]
fn verify_file_hashes_passes_for_intact_content() {
    let content = vec![0xA5u8; BLK];
    let (catalog, fext, mut reader) = sealed_volume(&content);
    let integrity = IntegrityMeta::parse(&integrity_meta(1)).unwrap();
    let report = verify_file_hashes(
        &catalog,
        &fext,
        &mut reader,
        &integrity,
        u32::try_from(BLK).expect("the test fixture value fits in u32"),
    )
    .unwrap();
    assert_eq!(report.segments_verified, 1);
    assert!(report.is_intact());
}

#[test]
fn verify_file_hashes_flags_a_tampered_block() {
    let content = vec![0xA5u8; BLK];
    let (catalog, fext, mut reader) = sealed_volume(&content);
    // Overwrite the on-disk content (block 3) after the hash was stored.
    let stored = reader.get_ref()[3 * BLK];
    reader.set(3 * BLK, stored ^ 0xFF);
    let integrity = IntegrityMeta::parse(&integrity_meta(1)).unwrap();
    let report = verify_file_hashes(
        &catalog,
        &fext,
        &mut reader,
        &integrity,
        u32::try_from(BLK).expect("the test fixture value fits in u32"),
    )
    .unwrap();
    assert_eq!(report.segments_verified, 1);
    assert!(!report.is_intact());
    assert_eq!(report.mismatches.len(), 1);
    assert_eq!(report.mismatches[0].obj_id, 5);
    assert_eq!(report.mismatches[0].offset, 0);
}

#[test]
fn verify_file_hashes_rejects_an_unknown_hash_type() {
    let content = vec![0xA5u8; BLK];
    let (catalog, fext, mut reader) = sealed_volume(&content);
    let integrity = IntegrityMeta::parse(&integrity_meta(99)).unwrap();
    assert!(matches!(
        verify_file_hashes(
            &catalog,
            &fext,
            &mut reader,
            &integrity,
            u32::try_from(BLK).expect("the test fixture value fits in u32")
        ),
        Err(ApfsError::Unsupported(_))
    ));
}

#[test]
fn verify_file_hashes_rejects_an_unknown_hash_type_without_records() {
    let mut image = omap_phys(1);
    image.extend(omap_tree(100, 2));
    image.extend(catalog_leaf(&[]));
    image.extend(fext_leaf(&[]));
    let omap = Omap::parse(&image[..BLK]).unwrap();
    let catalog = Catalog::new(Oid(100), omap, 4096, Xid(1));
    let mut reader = Cursor::new(image);
    let unknown = IntegrityMeta::parse(&integrity_meta(99)).unwrap();
    assert!(matches!(
        verify_file_hashes(&catalog, &FextTree::new(3), &mut reader, &unknown, 4096),
        Err(ApfsError::Unsupported("unrecognized integrity hash type"))
    ));
    let known = IntegrityMeta::parse(&integrity_meta(1)).unwrap();
    let report =
        verify_file_hashes(&catalog, &FextTree::new(3), &mut reader, &known, 4096).unwrap();
    assert_eq!(report.segments_verified, 0);
    assert!(report.is_intact());
}
