use std::collections::{BTreeMap, BTreeSet};

use fs_apfs::btree::{BTN_DATA_OFFSET, BTREE_INFO_SIZE};
use fs_apfs::catalog::{Catalog, JObjType, OBJ_TYPE_SHIFT};
use fs_apfs::directory::{J_DREC_LEN_MASK, NameComparison};
use fs_apfs::error::ApfsError;
use fs_apfs::inode::ROOT_DIR_INO_NUM;
use fs_apfs::io::Cursor;
use fs_apfs::object::OBJ_PHYSICAL;
use fs_apfs::omap::Omap;
use fs_apfs::sealed::SealVerification;
use fs_apfs::traverse::{ApfsDir, Volume};
use fs_apfs::types::{Oid, Xid};

const BLK: usize = 4096;

fn omap_phys(tree_oid: u64) -> Vec<u8> {
    let mut b = vec![0u8; BLK];
    b[0x18..0x1C].copy_from_slice(&(OBJ_PHYSICAL | 0x0B).to_le_bytes());
    b[0x30..0x38].copy_from_slice(&tree_oid.to_le_bytes());
    b
}

fn omap_tree(node_oid: u64, node_paddr: u64) -> Vec<u8> {
    let mut b = vec![0u8; BLK];
    b[0x20..0x22].copy_from_slice(&0x0007u16.to_le_bytes());
    b[0x24..0x28].copy_from_slice(&1u32.to_le_bytes());
    b[0x2A..0x2C].copy_from_slice(&4u16.to_le_bytes());
    let key_area = BTN_DATA_OFFSET + 4;
    b[BTN_DATA_OFFSET + 2..BTN_DATA_OFFSET + 4].copy_from_slice(&16u16.to_le_bytes());
    b[key_area..key_area + 8].copy_from_slice(&node_oid.to_le_bytes());
    b[key_area + 8..key_area + 16].copy_from_slice(&1u64.to_le_bytes());
    let value_end = BLK - BTREE_INFO_SIZE;
    b[value_end - 16 + 8..value_end - 16 + 16].copy_from_slice(&node_paddr.to_le_bytes());
    let info = BLK - BTREE_INFO_SIZE;
    b[info + 8..info + 12].copy_from_slice(&16u32.to_le_bytes());
    b[info + 12..info + 16].copy_from_slice(&16u32.to_le_bytes());
    b
}

fn catalog_leaf(records: &[(Vec<u8>, Vec<u8>)]) -> Vec<u8> {
    let mut b = vec![0u8; BLK];
    b[0x20..0x22].copy_from_slice(&0x0003u16.to_le_bytes());
    b[0x24..0x28].copy_from_slice(
        &u32::try_from(records.len())
            .expect("the test fixture value fits in u32")
            .to_le_bytes(),
    );
    b[0x2A..0x2C].copy_from_slice(
        &u16::try_from(records.len() * 8)
            .expect("the test fixture value fits in u16")
            .to_le_bytes(),
    );
    let key_area = BTN_DATA_OFFSET + records.len() * 8;
    let value_end = BLK - BTREE_INFO_SIZE;
    let (mut kc, mut vc) = (0usize, 0usize);
    for (i, (key, value)) in records.iter().enumerate() {
        let toc = BTN_DATA_OFFSET + i * 8;
        b[toc..toc + 2].copy_from_slice(
            &u16::try_from(kc)
                .expect("the test fixture value fits in u16")
                .to_le_bytes(),
        );
        b[toc + 2..toc + 4].copy_from_slice(
            &u16::try_from(key.len())
                .expect("the test fixture value fits in u16")
                .to_le_bytes(),
        );
        vc += value.len();
        b[toc + 4..toc + 6].copy_from_slice(
            &u16::try_from(vc)
                .expect("the test fixture value fits in u16")
                .to_le_bytes(),
        );
        b[toc + 6..toc + 8].copy_from_slice(
            &u16::try_from(value.len())
                .expect("the test fixture value fits in u16")
                .to_le_bytes(),
        );
        b[key_area + kc..key_area + kc + key.len()].copy_from_slice(key);
        b[value_end - vc..value_end - vc + value.len()].copy_from_slice(value);
        kc += key.len();
    }
    b
}

fn drec(dir_id: u64, name: &str, child: u64, file_type: u16) -> (Vec<u8>, Vec<u8>) {
    let mut key = ((u64::from(JObjType::DirRec.as_value()) << OBJ_TYPE_SHIFT) | dir_id)
        .to_le_bytes()
        .to_vec();
    let len = u32::try_from(name.len()).expect("the test fixture value fits in u32") + 1;
    key.extend_from_slice(&(len & J_DREC_LEN_MASK).to_le_bytes());
    key.extend_from_slice(name.as_bytes());
    key.push(0);
    let mut value = vec![0u8; 18];
    value[0..8].copy_from_slice(&child.to_le_bytes());
    value[16..18].copy_from_slice(&file_type.to_le_bytes());
    (key, value)
}

/// A volume: root (2) holds dir "sub" (10) and file "a.txt" (11);
/// "sub" holds file "b.txt" (12).
fn volume() -> (Volume, Cursor) {
    let leaf = catalog_leaf(&[
        drec(2, "sub", 10, 4),
        drec(2, "a.txt", 11, 8),
        drec(10, "b.txt", 12, 8),
    ]);
    let mut image = omap_phys(1);
    image.extend(omap_tree(200, 2)); // catalog root virtual oid 200 -> block 2
    image.extend(leaf);
    let omap = Omap::parse(&image[..BLK]).unwrap();
    let catalog = Catalog::new(
        Oid(200),
        omap.clone(),
        u32::try_from(BLK).expect("the test fixture value fits in u32"),
        Xid(1),
    );
    let volume = Volume {
        catalog,
        block_size: u32::try_from(BLK).expect("the test fixture value fits in u32"),
        comparison: NameComparison {
            hashed: true,
            case_insensitive: true,
        },
        omap,
        snap_meta_tree_oid: Oid(0),
        integrity_meta_oid: Oid(0),
        fext_tree_oid: Oid(0),
        xid: Xid(1),
        snapshot: None,
    };
    (volume, Cursor::new(image))
}

#[test]
fn resolves_an_absolute_path() {
    let (vol, mut reader) = volume();
    assert_eq!(vol.resolve_path(&mut reader, "/sub").unwrap(), 10);
    assert_eq!(vol.resolve_path(&mut reader, "/sub/b.txt").unwrap(), 12);
    assert_eq!(vol.resolve_path(&mut reader, "/").unwrap(), 2);
}

#[test]
fn missing_path_component_is_a_typed_error() {
    let (vol, mut reader) = volume();
    assert!(matches!(
        vol.resolve_path(&mut reader, "/sub/nope"),
        Err(ApfsError::NotFound { .. })
    ));
}

#[test]
fn read_dir_lists_a_directory_by_id() {
    let (vol, mut reader) = volume();
    let mut names: Vec<String> = vol
        .read_dir(&mut reader, 2)
        .unwrap()
        .into_iter()
        .map(|e| e.name)
        .collect();
    names.sort();
    assert_eq!(names, ["a.txt", "sub"]);
    // The "sub" directory holds a single child.
    let sub = vol.read_dir(&mut reader, 10).unwrap();
    assert_eq!(sub.len(), 1);
    assert_eq!(sub[0].name, "b.txt");
}

/// Collects the names below `dir`, entering each directory once.
fn walk_dir(reader: &mut Cursor, dir: &ApfsDir, seen: &mut BTreeSet<u64>, names: &mut Vec<String>) {
    if !seen.insert(dir.id()) {
        return;
    }
    let mut iter = dir.entries(reader).unwrap();
    while let Some(entry) = iter.try_next() {
        names.push(entry.entry.name.clone());
        if let Some(child) = entry.open_dir() {
            walk_dir(reader, &child, seen, names);
        }
    }
}

#[test]
fn walk_dir_enumerates_the_tree() {
    let (vol, mut reader) = volume();
    let root = vol.root();
    let mut seen = BTreeSet::new();
    let mut names = Vec::new();
    walk_dir(&mut reader, &root, &mut seen, &mut names);
    names.sort();
    assert_eq!(names, ["a.txt", "b.txt", "sub"]);
}

// --- Snapshot views ---------------------------------------------------

/// An `apfs_superblock_t` block naming its object map and root tree.
fn apfs_superblock(omap_oid: u64, root_tree_oid: u64) -> Vec<u8> {
    let mut b = vec![0u8; BLK];
    b[0x18..0x1C].copy_from_slice(&0x0000_000Du32.to_le_bytes()); // FS object type
    b[0x20..0x24].copy_from_slice(b"APSB"); // apfs_magic
    b[0x80..0x88].copy_from_slice(&omap_oid.to_le_bytes());
    b[0x88..0x90].copy_from_slice(&root_tree_oid.to_le_bytes());
    b
}

/// A `SNAP_METADATA` catalog record keyed by the snapshot's xid.
fn snap_metadata_record(xid: u64, name: &str, sblock_oid: u64) -> (Vec<u8>, Vec<u8>) {
    let key = ((u64::from(JObjType::SnapMetadata.as_value()) << OBJ_TYPE_SHIFT) | xid)
        .to_le_bytes()
        .to_vec();
    let mut value = vec![0u8; 50];
    value[8..16].copy_from_slice(&sblock_oid.to_le_bytes()); // sblock_oid
    value[48..50].copy_from_slice(
        &(u16::try_from(name.len()).expect("the test fixture value fits in u16") + 1)
            .to_le_bytes(),
    );
    value.extend_from_slice(name.as_bytes());
    value.push(0);
    (key, value)
}

/// Builds a volume whose snapshot-metadata tree holds `snaps`, and an
/// image carrying — for each snapshot — its superblock, object map, and
/// a catalog leaf with one file `deleted.txt` (object id 11).
fn volume_with_snapshots(snaps: &[(u64, &str)]) -> (Volume, Cursor) {
    // Blocks 0..3: the snapshot-metadata tree. Each snapshot then adds
    // four blocks: superblock, omap, omap tree, catalog leaf.
    let records: Vec<(Vec<u8>, Vec<u8>)> = snaps
        .iter()
        .enumerate()
        .map(|(i, &(xid, name))| {
            let sblock = 3 + (i as u64) * 4;
            snap_metadata_record(xid, name, sblock)
        })
        .collect();
    let mut image = omap_phys(1); // block 0: snap-meta omap
    image.extend(omap_tree(300, 2)); // block 1: snap-meta omap tree -> block 2
    image.extend(catalog_leaf(&records)); // block 2: snap-meta leaf
    for (i, _) in snaps.iter().enumerate() {
        let base = 3 + (i as u64) * 4;
        image.extend(apfs_superblock(base + 1, 200)); // superblock
        image.extend(omap_phys(base + 2)); // snapshot omap
        image.extend(omap_tree(200, base + 3)); // omap tree -> catalog leaf
        image.extend(catalog_leaf(&[drec(2, "deleted.txt", 11, 8)]));
    }
    let omap = Omap::parse(&image[..BLK]).unwrap();
    let catalog = Catalog::new(
        Oid(300),
        omap.clone(),
        u32::try_from(BLK).expect("the test fixture value fits in u32"),
        Xid(1),
    );
    let volume = Volume {
        catalog,
        block_size: u32::try_from(BLK).expect("the test fixture value fits in u32"),
        comparison: NameComparison {
            hashed: true,
            case_insensitive: true,
        },
        omap,
        snap_meta_tree_oid: Oid(300),
        integrity_meta_oid: Oid(0),
        fext_tree_oid: Oid(0),
        xid: Xid(1),
        snapshot: None,
    };
    (volume, Cursor::new(image))
}

#[test]
fn traverse_lists_volume_snapshots() {
    let (vol, mut reader) = volume_with_snapshots(&[(1000, "before"), (2000, "after")]);
    let snaps = vol.snapshots(&mut reader).unwrap();
    assert_eq!(snaps.len(), 2);
    assert_eq!(snaps[0].name, "before");
    assert_eq!(snaps[0].xid, 1000);
    assert_eq!(snaps[1].name, "after");
}

#[test]
fn volume_with_no_snapshots_lists_none() {
    let (vol, mut reader) = volume_with_snapshots(&[]);
    assert!(vol.snapshots(&mut reader).unwrap().is_empty());
    assert!(matches!(
        vol.open_snapshot_by_name(&mut reader, "any"),
        Err(ApfsError::NotFound { .. })
    ));
}

#[test]
fn opens_a_snapshot_as_a_read_only_view() {
    let (vol, mut reader) = volume_with_snapshots(&[(1000, "snap1")]);
    let snap_vol = vol.open_snapshot_by_name(&mut reader, "snap1").unwrap();
    // The view is marked as a snapshot and carries its provenance.
    assert!(snap_vol.is_snapshot());
    let provenance = snap_vol.snapshot().expect("snapshot provenance");
    assert_eq!(provenance.name, "snap1");
    assert_eq!(provenance.xid, 1000);
    // A file in the snapshot tree resolves through the view — this is
    // how a file deleted from the live volume stays reachable.
    assert_eq!(
        snap_vol.resolve_path(&mut reader, "/deleted.txt").unwrap(),
        11
    );
}

#[test]
fn missing_snapshot_is_a_typed_error() {
    let (vol, mut reader) = volume_with_snapshots(&[(1000, "snap1")]);
    assert!(matches!(
        vol.open_snapshot_by_name(&mut reader, "nonexistent"),
        Err(ApfsError::NotFound { .. })
    ));
    // The live volume itself is not a snapshot view.
    assert!(!vol.is_snapshot());
    assert!(vol.snapshot().is_none());
}

#[test]
fn verify_seal_reports_an_unsealed_volume() {
    // The test volume has no integrity-metadata object.
    let (vol, mut reader) = volume();
    assert!(matches!(
        vol.verify_seal(&mut reader).unwrap(),
        SealVerification::NotSealed
    ));
}

/// `j_inode_val_t`: a minimal 92-byte inode record carrying the mode.
fn inode_value(mode: u16) -> Vec<u8> {
    let mut v = vec![0u8; 92];
    v[0x50..0x52].copy_from_slice(&mode.to_le_bytes());
    v
}

fn inode_record(obj_id: u64, mode: u16) -> (Vec<u8>, Vec<u8>) {
    let key = ((u64::from(JObjType::Inode.as_value()) << OBJ_TYPE_SHIFT) | obj_id)
        .to_le_bytes()
        .to_vec();
    (key, inode_value(mode))
}

/// An `XATTR` record keyed by `(obj_id, name)` carrying an
/// `XF_DATA_EMBEDDED` (0x0002) value of `data`.
fn xattr_record(obj_id: u64, name: &str, data: &[u8]) -> (Vec<u8>, Vec<u8>) {
    let mut key = ((u64::from(JObjType::Xattr.as_value()) << OBJ_TYPE_SHIFT) | obj_id)
        .to_le_bytes()
        .to_vec();
    let bytes = name.as_bytes();
    key.extend_from_slice(
        &(u16::try_from(bytes.len()).expect("the test fixture value fits in u16") + 1)
            .to_le_bytes(),
    );
    key.extend_from_slice(bytes);
    key.push(0);
    // value: flags(u16) = 0x0002 (XF_DATA_EMBEDDED), xdata_len(u16), data.
    let mut value = Vec::new();
    value.extend_from_slice(&0x0002u16.to_le_bytes());
    value.extend_from_slice(
        &u16::try_from(data.len())
            .expect("the test fixture value fits in u16")
            .to_le_bytes(),
    );
    value.extend_from_slice(data);
    (key, value)
}

/// A volume rooted at inode 2 with one regular-file inode `5` and an
/// `XF_DATA_EMBEDDED` `com.apple.fs.symlink` xattr targeting
/// `target_path` (with an embedded NUL terminator so the parser's
/// position-lookup is exercised). A second xattr precedes the symlink
/// one so the iteration must skip past it.
fn symlink_volume(target_path: &str) -> (Volume, Cursor) {
    // Records: a precursor xattr (non-symlink), the symlink xattr, and
    // an inode so `Volume::inode` resolves. Keys are sorted by the
    // catalog comparator (object id, then kind, then sub-key); use
    // ids/types whose sorted order is stable for our test.
    let mut symlink_bytes = target_path.as_bytes().to_vec();
    symlink_bytes.push(0); // trailing NUL stored on disk
    symlink_bytes.extend_from_slice(b"trailing-junk"); // bytes after NUL
    let records = {
        let mut r = vec![
            inode_record(5, 0o120_755),
            xattr_record(5, "com.apple.fs.symlink", &symlink_bytes),
            xattr_record(5, "com.apple.zzz.other", b"unused"),
        ];
        // Catalog requires records sorted by binary key order; sort.
        r.sort_by(|a, b| a.0.cmp(&b.0));
        r
    };
    let leaf = catalog_leaf(&records);
    let mut image = omap_phys(1);
    image.extend(omap_tree(200, 2));
    image.extend(leaf);
    let omap = Omap::parse(&image[..BLK]).unwrap();
    let catalog = Catalog::new(
        Oid(200),
        omap.clone(),
        u32::try_from(BLK).expect("the test fixture value fits in u32"),
        Xid(1),
    );
    let volume = Volume {
        catalog,
        block_size: u32::try_from(BLK).expect("the test fixture value fits in u32"),
        comparison: NameComparison {
            hashed: false,
            case_insensitive: false,
        },
        omap,
        snap_meta_tree_oid: Oid(0),
        integrity_meta_oid: Oid(0),
        fext_tree_oid: Oid(0),
        xid: Xid(1),
        snapshot: None,
    };
    (volume, Cursor::new(image))
}

#[test]
fn inode_lookup_returns_some_for_a_present_object() {
    let (vol, mut reader) = symlink_volume("/dev/null");
    let inode = vol.inode(&mut reader, 5).unwrap();
    let inode = inode.expect("inode 5 should resolve");
    // Mode 0o120_755 is a symlink in the file_type bits — exercises
    // the value-byte path so the lookup is doing real work, not just
    // returning a bare `Some(default)`.
    assert_eq!(inode.file_type(), fs_apfs::inode::FileType::Symlink);
}

#[test]
fn read_symlink_returns_the_target_for_the_symlink_xattr() {
    // Covers the symlink-name lookup (`xattr.name == SYMLINK…`) and
    // the trailing-NUL terminator stripping (`b == 0`).
    let (vol, mut reader) = symlink_volume("/etc/hosts");
    let target = vol.read_symlink(&mut reader, 5).unwrap();
    assert_eq!(target, "/etc/hosts");
    // The `b == 0` check must stop at the NUL — if it were `!=`,
    // `position` would return `Some(0)` and the result would be
    // empty.
    assert!(!target.is_empty());
    assert!(!target.contains('\0'));
}

#[test]
fn read_symlink_with_no_xattr_is_not_found() {
    let (vol, mut reader) = volume(); // has no xattrs at all
    let err = vol.read_symlink(&mut reader, 11).unwrap_err();
    assert!(
        matches!(err, ApfsError::NotFound { what }
            if what == "symbolic-link target"),
        "expected NotFound for missing symlink xattr, got {err:?}"
    );
}

#[test]
fn traversal_entry_exposes_name_bytes_and_id() {
    let (vol, mut reader) = volume();
    let root = vol.root();
    // The root directory's id is the well-known root-inode number.
    assert_eq!(root.id(), ROOT_DIR_INO_NUM);
    let mut iter = root.entries(&mut reader).unwrap();
    let mut found = BTreeMap::<Vec<u8>, u64>::new();
    while let Some(entry) = iter.try_next() {
        found.insert(entry.name_bytes().to_vec(), entry.id());
    }
    // The root holds "sub" (id 10) and "a.txt" (id 11) — name_bytes
    // and id must surface exactly those, not a leaked constant.
    assert_eq!(found.get(&b"sub"[..]).copied(), Some(10));
    assert_eq!(found.get(&b"a.txt"[..]).copied(), Some(11));
    assert_eq!(found.len(), 2);
}

#[test]
fn paths_resolve_component_by_component() {
    let (vol, mut reader) = volume();
    let sub = vol.resolve_path(&mut reader, "/sub").unwrap();
    let whole = vol.resolve_path(&mut reader, "/sub/b.txt").unwrap();
    let inner = vol.read_dir(&mut reader, sub).unwrap();
    assert!(inner.iter().any(|e| e.name == "b.txt" && e.file_id == whole));
    // Leading, doubled and trailing separators do not matter.
    for path in ["sub/b.txt", "//sub/b.txt", "/sub//b.txt", "/sub/b.txt/"] {
        assert_eq!(vol.resolve_path(&mut reader, path).unwrap(), whole);
    }
    assert_eq!(vol.resolve_path(&mut reader, "").unwrap(), ROOT_DIR_INO_NUM);
}
