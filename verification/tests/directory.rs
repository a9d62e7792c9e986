use fs_apfs::btree::{BTN_DATA_OFFSET, BTREE_INFO_SIZE};
use fs_apfs::catalog::{Catalog, JObjType, OBJ_TYPE_SHIFT};
use fs_apfs::directory::{DirEntryType, Directory, J_DREC_HASH_MASK, J_DREC_HASH_SHIFT, J_DREC_LEN_MASK, J_DREC_VAL_SIZE, NameComparison, parse_drec_name, parse_drec_value};
use fs_apfs::error::ApfsError;
use fs_apfs::io::Cursor;
use fs_apfs::object::OBJ_PHYSICAL;
use fs_apfs::omap::Omap;
use fs_apfs::types::{Oid, Xid};

const BLK: usize = 4096;

#[test]
fn dir_entry_type_decodes_from_flags() {
    assert_eq!(DirEntryType::from_flags(4), DirEntryType::Directory);
    assert_eq!(DirEntryType::from_flags(8), DirEntryType::Regular);
    assert_eq!(DirEntryType::from_flags(10), DirEntryType::Symlink);
    // Reserved high bits must not disturb the type nibble.
    assert_eq!(DirEntryType::from_flags(0xFF08), DirEntryType::Regular);
}

#[test]
fn parses_a_hashed_drec_key() {
    // hdr (8) + name_len_and_hash (4) + "ab\0".
    let mut key = vec![0u8; 8];
    let name = b"ab\0";
    let nlah = (0x2A_u32 << J_DREC_HASH_SHIFT) | (name.len() as u32);
    key.extend_from_slice(&nlah.to_le_bytes());
    key.extend_from_slice(name);
    let (parsed, hash) = parse_drec_name(&key, true).unwrap();
    assert_eq!(parsed, "ab");
    assert_eq!(hash, Some(0x2A));
}

#[test]
fn parses_a_legacy_drec_key() {
    let mut key = vec![0u8; 8];
    let name = b"file\0";
    key.extend_from_slice(&(name.len() as u16).to_le_bytes());
    key.extend_from_slice(name);
    let (parsed, hash) = parse_drec_name(&key, false).unwrap();
    assert_eq!(parsed, "file");
    assert_eq!(hash, None);
}

#[test]
fn drec_value_parses_fields() {
    let mut value = vec![0u8; J_DREC_VAL_SIZE];
    value[0..8].copy_from_slice(&99u64.to_le_bytes());
    value[8..16].copy_from_slice(&12345u64.to_le_bytes());
    value[16..18].copy_from_slice(&8u16.to_le_bytes());
    let (file_id, date_added, flags) = parse_drec_value(&value).unwrap();
    assert_eq!(file_id, 99);
    assert_eq!(date_added, 12345);
    assert_eq!(flags, 8);
}

#[test]
fn drec_key_past_the_record_is_rejected() {
    let mut key = vec![0u8; 8];
    key.extend_from_slice(&100u16.to_le_bytes()); // claims a 100-byte name
    key.extend_from_slice(b"short");
    assert!(matches!(
        parse_drec_name(&key, false),
        Err(ApfsError::Malformed { .. })
    ));
}

// --- Directory enumeration against a synthetic catalog ----------------

fn omap_phys(tree_oid: u64) -> Vec<u8> {
    let mut b = vec![0u8; BLK];
    b[0x18..0x1C].copy_from_slice(&(OBJ_PHYSICAL | 0x0B).to_le_bytes());
    b[0x30..0x38].copy_from_slice(&tree_oid.to_le_bytes());
    b
}

fn omap_tree(node_oid: u64, node_paddr: u64) -> Vec<u8> {
    let mut b = vec![0u8; BLK];
    b[0x20..0x22].copy_from_slice(&0x0007u16.to_le_bytes());
    b[0x24..0x28].copy_from_slice(&1u32.to_le_bytes());
    b[0x2A..0x2C].copy_from_slice(&4u16.to_le_bytes());
    let key_area = BTN_DATA_OFFSET + 4;
    b[BTN_DATA_OFFSET + 2..BTN_DATA_OFFSET + 4].copy_from_slice(&16u16.to_le_bytes());
    b[key_area..key_area + 8].copy_from_slice(&node_oid.to_le_bytes());
    b[key_area + 8..key_area + 16].copy_from_slice(&1u64.to_le_bytes());
    let value_end = BLK - BTREE_INFO_SIZE;
    b[value_end - 16 + 8..value_end - 16 + 16].copy_from_slice(&node_paddr.to_le_bytes());
    let info = BLK - BTREE_INFO_SIZE;
    b[info + 8..info + 12].copy_from_slice(&16u32.to_le_bytes());
    b[info + 12..info + 16].copy_from_slice(&16u32.to_le_bytes());
    b
}

/// A variable-kv catalog leaf from `(key, value)` records.
fn catalog_leaf(records: &[(Vec<u8>, Vec<u8>)]) -> Vec<u8> {
    let mut b = vec![0u8; BLK];
    b[0x20..0x22].copy_from_slice(&0x0003u16.to_le_bytes());
    b[0x24..0x28].copy_from_slice(&(records.len() as u32).to_le_bytes());
    b[0x2A..0x2C].copy_from_slice(&((records.len() * 8) as u16).to_le_bytes());
    let key_area = BTN_DATA_OFFSET + records.len() * 8;
    let value_end = BLK - BTREE_INFO_SIZE;
    let (mut kc, mut vc) = (0usize, 0usize);
    for (i, (key, value)) in records.iter().enumerate() {
        let toc = BTN_DATA_OFFSET + i * 8;
        b[toc..toc + 2].copy_from_slice(&(kc as u16).to_le_bytes());
        b[toc + 2..toc + 4].copy_from_slice(&(key.len() as u16).to_le_bytes());
        vc += value.len();
        b[toc + 4..toc + 6].copy_from_slice(&(vc as u16).to_le_bytes());
        b[toc + 6..toc + 8].copy_from_slice(&(value.len() as u16).to_le_bytes());
        b[key_area + kc..key_area + kc + key.len()].copy_from_slice(key);
        b[value_end - vc..value_end - vc + value.len()].copy_from_slice(value);
        kc += key.len();
    }
    b
}

/// A case-insensitive volume's name comparison (hashed keys, folding).
const FOLDING: NameComparison = NameComparison {
    hashed: true,
    case_insensitive: true,
};

/// A hashed `DIR_REC` key for object `dir_id` naming `name`, carrying
/// the APFS name hash a case-insensitive volume would store.
fn drec_key(dir_id: u64, name: &str) -> Vec<u8> {
    let mut k = (((JObjType::DirRec.as_value() as u64) << OBJ_TYPE_SHIFT) | dir_id)
        .to_le_bytes()
        .to_vec();
    k.extend_from_slice(&fs_apfs::unicode::name_hash(name, true).to_le_bytes());
    k.extend_from_slice(name.as_bytes());
    k.push(0);
    k
}

/// A legacy (unhashed) `DIR_REC` key — used by case-sensitive volumes.
fn drec_key_legacy(dir_id: u64, name: &str) -> Vec<u8> {
    let mut k = (((JObjType::DirRec.as_value() as u64) << OBJ_TYPE_SHIFT) | dir_id)
        .to_le_bytes()
        .to_vec();
    k.extend_from_slice(&(name.len() as u16 + 1).to_le_bytes());
    k.extend_from_slice(name.as_bytes());
    k.push(0);
    k
}

fn drec_value(file_id: u64, file_type: u16) -> Vec<u8> {
    let mut v = vec![0u8; J_DREC_VAL_SIZE];
    v[0..8].copy_from_slice(&file_id.to_le_bytes());
    v[16..18].copy_from_slice(&file_type.to_le_bytes());
    v
}

/// Builds a single-leaf catalog from `(key, value)` directory records.
fn catalog_of(records: &[(Vec<u8>, Vec<u8>)]) -> (Catalog, Cursor) {
    let leaf = catalog_leaf(records);
    let mut image = omap_phys(1);
    image.extend(omap_tree(50, 2)); // virtual node oid 50 -> block 2
    image.extend(leaf);
    let omap = Omap::parse(&image[..BLK]).unwrap();
    let catalog = Catalog::new(Oid(50), omap, BLK as u32, Xid(1));
    (catalog, Cursor::new(image))
}

fn enumeration_fixture() -> (Catalog, Cursor) {
    catalog_of(&[
        (drec_key(2, "Documents"), drec_value(20, 4)), // a directory
        (drec_key(2, "notes.txt"), drec_value(21, 8)), // a regular file
    ])
}

#[test]
fn enumerates_directory_entries() {
    let (catalog, mut reader) = enumeration_fixture();
    let dir = Directory::new(&catalog, 2, FOLDING);
    let entries = dir.entries(&mut reader).unwrap();
    assert_eq!(entries.len(), 2);
    assert_eq!(entries[0].name, "Documents");
    assert_eq!(entries[0].file_id, 20);
    assert_eq!(entries[0].file_type, DirEntryType::Directory);
    assert_eq!(entries[1].name, "notes.txt");
    assert_eq!(entries[1].file_type, DirEntryType::Regular);
}

#[test]
fn looks_up_an_entry_by_name() {
    let (catalog, mut reader) = enumeration_fixture();
    let dir = Directory::new(&catalog, 2, FOLDING);
    let found = dir.lookup(&mut reader, "notes.txt").unwrap().unwrap();
    assert_eq!(found.file_id, 21);
    assert!(dir.lookup(&mut reader, "missing").unwrap().is_none());
}

#[test]
fn lookup_folds_case_on_a_case_insensitive_volume() {
    let (catalog, mut reader) = enumeration_fixture();
    let dir = Directory::new(&catalog, 2, FOLDING);
    // A case-variant query resolves to the stored entry.
    let found = dir.lookup(&mut reader, "NoTeS.TXT").unwrap().unwrap();
    assert_eq!(found.file_id, 21);
    assert_eq!(
        dir.lookup(&mut reader, "documents")
            .unwrap()
            .unwrap()
            .file_id,
        20
    );
}

#[test]
fn lookup_is_exact_on_a_case_sensitive_volume() {
    // A case-sensitive, normalization-sensitive volume uses legacy keys.
    let (catalog, mut reader) =
        catalog_of(&[(drec_key_legacy(2, "notes.txt"), drec_value(21, 8))]);
    let dir = Directory::new(&catalog, 2, NameComparison::exact());
    assert_eq!(
        dir.lookup(&mut reader, "notes.txt")
            .unwrap()
            .unwrap()
            .file_id,
        21
    );
    // A case variant must NOT match on a case-sensitive volume.
    assert!(dir.lookup(&mut reader, "NOTES.TXT").unwrap().is_none());
}

#[test]
fn lookup_matches_an_nfc_query_against_an_nfd_entry() {
    // The entry is stored decomposed ("cafe" + combining acute); an
    // application looking it up by the precomposed spelling must
    // still resolve it on a normalization-insensitive volume.
    let (catalog, mut reader) = catalog_of(&[(drec_key(2, "cafe\u{0301}"), drec_value(30, 4))]);
    let dir = Directory::new(&catalog, 2, FOLDING);
    let found = dir.lookup(&mut reader, "caf\u{00E9}").unwrap().unwrap();
    assert_eq!(found.file_id, 30);
}

#[test]
fn drec_value_shorter_than_the_fixed_portion_is_rejected() {
    let value = vec![0u8; J_DREC_VAL_SIZE - 1];
    match parse_drec_value(&value) {
        Err(ApfsError::Truncated {
            structure,
            expected,
            actual,
        }) => {
            assert_eq!(structure, "j_drec_val_t");
            assert_eq!(expected, J_DREC_VAL_SIZE);
            assert_eq!(actual, J_DREC_VAL_SIZE - 1);
        }
        other => panic!("expected Truncated, got {other:?}"),
    }
}

/// Plants a `DIR_REC` key whose stored hash equals `stored_hash` rather
/// than the APFS-computed hash for `name`. Used to force a hash collision
/// between a non-matching name and the lookup target.
fn drec_key_with_planted_hash(dir_id: u64, name: &str, stored_hash: u32) -> Vec<u8> {
    let mut k = (((JObjType::DirRec.as_value() as u64) << OBJ_TYPE_SHIFT) | dir_id)
        .to_le_bytes()
        .to_vec();
    let name_len = (name.len() as u32 + 1) & J_DREC_LEN_MASK;
    let packed = (stored_hash << J_DREC_HASH_SHIFT) | name_len;
    k.extend_from_slice(&packed.to_le_bytes());
    k.extend_from_slice(name.as_bytes());
    k.push(0);
    k
}

#[test]
fn lookup_ignores_an_entry_whose_hash_matches_but_name_does_not() {
    let target = "bar";
    let target_packed = fs_apfs::unicode::name_hash(target, true);
    let target_hash = (target_packed & J_DREC_HASH_MASK) >> J_DREC_HASH_SHIFT;
    let (catalog, mut reader) = catalog_of(&[(
        drec_key_with_planted_hash(2, "foo", target_hash),
        drec_value(99, 8),
    )]);
    let dir = Directory::new(&catalog, 2, FOLDING);
    let result = dir.lookup(&mut reader, target).unwrap();
    assert!(
        result.is_none(),
        "hash-only match must not return the wrong entry, got {result:?}"
    );
}

#[test]
fn lookup_distinguishes_entries_with_the_same_prefix() {
    let (catalog, mut reader) = catalog_of(&[
        (drec_key(2, "report"), drec_value(40, 8)),
        (drec_key(2, "report.txt"), drec_value(41, 8)),
        (drec_key(2, "report-final"), drec_value(42, 8)),
    ]);
    let dir = Directory::new(&catalog, 2, FOLDING);
    assert_eq!(
        dir.lookup(&mut reader, "report").unwrap().unwrap().file_id,
        40
    );
    assert_eq!(
        dir.lookup(&mut reader, "REPORT.txt")
            .unwrap()
            .unwrap()
            .file_id,
        41
    );
    assert_eq!(
        dir.lookup(&mut reader, "report-final")
            .unwrap()
            .unwrap()
            .file_id,
        42
    );
}
