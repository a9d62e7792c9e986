use core::cmp::Ordering;

use fs_apfs::btree::{BTN_DATA_OFFSET, BTREE_INFO_SIZE};
use fs_apfs::catalog::{Catalog, j_key_header_cmp, JKey, JObjType, OBJ_TYPE_SHIFT, SYSTEM_OBJ_ID_MARK};
use fs_apfs::error::ApfsError;
use fs_apfs::inode::{Inode, J_INODE_VAL_SIZE};
use fs_apfs::io::Cursor;
use fs_apfs::object::OBJ_PHYSICAL;
use fs_apfs::omap::Omap;
use fs_apfs::types::{Oid, Xid};

const BLK: usize = 4096;

#[test]
fn j_key_splits_object_id_and_type() {
    let mut key = [0u8; 8];
    // type 3 (INODE) in the high nibble, object id 0x42 in the low bits.
    let raw = (3u64 << OBJ_TYPE_SHIFT) | 0x42;
    key.copy_from_slice(&raw.to_le_bytes());
    let parsed = JKey::parse(&key).unwrap();
    assert_eq!(parsed.obj_id, 0x42);
    assert_eq!(parsed.kind, JObjType::Inode);
}

#[test]
fn j_key_rejects_a_short_buffer() {
    assert!(matches!(
        JKey::parse(&[0u8; 4]),
        Err(ApfsError::Truncated { .. })
    ));
}

#[test]
fn record_type_round_trips_and_handles_unknown() {
    for value in [0u8, 1, 3, 9, 13, 15] {
        assert_eq!(JObjType::from_value(value).as_value(), value);
    }
    assert_eq!(JObjType::from_value(14), JObjType::Unknown(14));
}

#[test]
fn header_comparison_orders_by_object_id_then_type() {
    let key = |oid: u64, ty: u64| ((ty << OBJ_TYPE_SHIFT) | oid).to_le_bytes();
    // Object id is primary even though type sits in the high nibble.
    assert_eq!(j_key_header_cmp(&key(5, 9), &key(6, 1)), Ordering::Less);
    // Same object id: type breaks the tie.
    assert_eq!(j_key_header_cmp(&key(5, 3), &key(5, 9)), Ordering::Less);
    assert_eq!(j_key_header_cmp(&key(5, 9), &key(5, 9)), Ordering::Equal);
}

/// Builds a physical fixed-kv omap B-tree mapping node oids to addresses.
fn omap_tree(entries: &[(u64, u64, u64)]) -> Vec<u8> {
    let mut b = vec![0u8; BLK];
    b[0x20..0x22].copy_from_slice(&0x0007u16.to_le_bytes()); // ROOT|LEAF|FIXED
    b[0x24..0x28].copy_from_slice(
        &u32::try_from(entries.len())
            .expect("the test fixture value fits in u32")
            .to_le_bytes(),
    );
    b[0x2A..0x2C].copy_from_slice(
        &u16::try_from(entries.len() * 4)
            .expect("the test fixture value fits in u16")
            .to_le_bytes(),
    );
    let key_area = BTN_DATA_OFFSET + entries.len() * 4;
    let value_end = BLK - BTREE_INFO_SIZE;
    for (i, &(oid, xid, paddr)) in entries.iter().enumerate() {
        let toc = BTN_DATA_OFFSET + i * 4;
        b[toc..toc + 2].copy_from_slice(
            &u16::try_from(i * 16)
                .expect("the test fixture value fits in u16")
                .to_le_bytes(),
        );
        b[toc + 2..toc + 4].copy_from_slice(
            &u16::try_from((i + 1) * 16)
                .expect("the test fixture value fits in u16")
                .to_le_bytes(),
        );
        let ks = key_area + i * 16;
        b[ks..ks + 8].copy_from_slice(&oid.to_le_bytes());
        b[ks + 8..ks + 16].copy_from_slice(&xid.to_le_bytes());
        let vs = value_end - (i + 1) * 16;
        b[vs + 4..vs + 8].copy_from_slice(
            &u32::try_from(BLK)
                .expect("the test fixture value fits in u32")
                .to_le_bytes(),
        );
        b[vs + 8..vs + 16].copy_from_slice(&paddr.to_le_bytes());
    }
    let info = BLK - BTREE_INFO_SIZE;
    b[info + 8..info + 12].copy_from_slice(&16u32.to_le_bytes());
    b[info + 12..info + 16].copy_from_slice(&16u32.to_le_bytes());
    b
}

fn omap_phys(tree_oid: u64) -> Vec<u8> {
    let mut b = vec![0u8; BLK];
    b[0x18..0x1C].copy_from_slice(&(OBJ_PHYSICAL | 0x0B).to_le_bytes());
    b[0x30..0x38].copy_from_slice(&tree_oid.to_le_bytes());
    b
}

/// Builds a variable-kv root+leaf catalog node from `(key, value)` pairs.
fn catalog_leaf(records: &[(Vec<u8>, Vec<u8>)]) -> Vec<u8> {
    catalog_node(records, 0x0003) // ROOT | LEAF
}

/// Builds a variable-kv catalog node with the given `btn_flags`.
fn catalog_node(records: &[(Vec<u8>, Vec<u8>)], flags: u16) -> Vec<u8> {
    let mut b = vec![0u8; BLK];
    b[0x20..0x22].copy_from_slice(&flags.to_le_bytes());
    b[0x24..0x28].copy_from_slice(
        &u32::try_from(records.len())
            .expect("the test fixture value fits in u32")
            .to_le_bytes(),
    );
    let toc_len = records.len() * 8; // kvloc entries
    b[0x2A..0x2C].copy_from_slice(
        &u16::try_from(toc_len)
            .expect("the test fixture value fits in u16")
            .to_le_bytes(),
    );

    let key_area = BTN_DATA_OFFSET + toc_len;
    // A root node reserves a btree_info trailer; the value area ends
    // before it. A non-root node's value area runs to the block end.
    let value_end = if flags & 0x0001 != 0 {
        BLK - BTREE_INFO_SIZE
    } else {
        BLK
    };
    let mut key_cursor = 0usize;
    let mut val_cursor = 0usize;
    for (i, (key, value)) in records.iter().enumerate() {
        let toc = BTN_DATA_OFFSET + i * 8;
        b[toc..toc + 2].copy_from_slice(
            &u16::try_from(key_cursor)
                .expect("the test fixture value fits in u16")
                .to_le_bytes(),
        );
        b[toc + 2..toc + 4].copy_from_slice(
            &u16::try_from(key.len())
                .expect("the test fixture value fits in u16")
                .to_le_bytes(),
        );
        val_cursor += value.len();
        b[toc + 4..toc + 6].copy_from_slice(
            &u16::try_from(val_cursor)
                .expect("the test fixture value fits in u16")
                .to_le_bytes(),
        );
        b[toc + 6..toc + 8].copy_from_slice(
            &u16::try_from(value.len())
                .expect("the test fixture value fits in u16")
                .to_le_bytes(),
        );

        let ks = key_area + key_cursor;
        b[ks..ks + key.len()].copy_from_slice(key);
        let vs = value_end - val_cursor;
        b[vs..vs + value.len()].copy_from_slice(value);
        key_cursor += key.len();
    }
    b
}

/// Builds a `j_key_t` key (header only) for object `oid` of type `ty`.
fn jkey(oid: u64, ty: u64) -> Vec<u8> {
    ((ty << OBJ_TYPE_SHIFT) | oid).to_le_bytes().to_vec()
}

#[test]
fn records_for_collects_every_record_of_an_object() {
    // A single-leaf catalog with records for objects 2 and 3.
    let leaf = catalog_leaf(&[
        (jkey(2, 3), vec![0xAA; 4]), // object 2, inode
        (jkey(2, 9), vec![0xBB; 6]), // object 2, dir-rec
        (jkey(3, 3), vec![0xCC; 4]), // object 3, inode
    ]);
    // Catalog root is virtual oid 200, mapped by the volume omap to the
    // catalog leaf block.
    let mut image = omap_phys(1);
    image.extend(omap_tree(&[(200, 1, 2)])); // (oid 200, xid 1) -> block 2
    image.extend(leaf); // block 2

    let omap = Omap::parse(&image[..BLK]).unwrap();
    let catalog = Catalog::new(
        Oid(200),
        omap,
        u32::try_from(BLK).expect("the test fixture value fits in u32"),
        Xid(1),
    );
    let mut reader = Cursor::new(image);

    let object2 = catalog.records_for(&mut reader, 2).unwrap();
    assert_eq!(object2.len(), 2);
    assert_eq!(object2[0].key_header.kind, JObjType::Inode);
    assert_eq!(object2[1].key_header.kind, JObjType::DirRec);
    assert_eq!(object2[1].value, vec![0xBB; 6]);

    let object3 = catalog.records_for(&mut reader, 3).unwrap();
    assert_eq!(object3.len(), 1);

    let missing = catalog.records_for(&mut reader, 99).unwrap();
    assert!(missing.is_empty());
}

/// A two-level catalog: an index root over two leaves. Object 5's records
/// straddle the leaf boundary — `(5, Inode)` and `(5, Xattr)` in leaf 1,
/// `(5, DirRec)` in leaf 2 — so a pruned walk must still visit both.
fn two_level_catalog() -> (Catalog, Cursor) {
    let v = |byte: u8| vec![byte; 4];
    let leaf1 = catalog_node(
        &[
            (jkey(2, 3), v(0x02)), // (2, Inode)
            (jkey(5, 3), v(0x53)), // (5, Inode)
            (jkey(5, 4), v(0x54)), // (5, Xattr)
        ],
        0x0002, // LEAF
    );
    let leaf2 = catalog_node(
        &[
            (jkey(5, 9), v(0x59)), // (5, DirRec)
            (jkey(8, 3), v(0x83)), // (8, Inode)
        ],
        0x0002, // LEAF
    );
    // Index root: each separator is its child leaf's first key.
    let index = catalog_node(
        &[
            (jkey(2, 3), 301u64.to_le_bytes().to_vec()),
            (jkey(5, 9), 302u64.to_le_bytes().to_vec()),
        ],
        0x0001, // ROOT
    );
    let mut image = omap_phys(1);
    image.extend(omap_tree(&[(300, 1, 2), (301, 1, 3), (302, 1, 4)]));
    image.extend(index); // block 2
    image.extend(leaf1); // block 3
    image.extend(leaf2); // block 4
    let omap = Omap::parse(&image[..BLK]).unwrap();
    (
        Catalog::new(
            Oid(300),
            omap,
            u32::try_from(BLK).expect("the test fixture value fits in u32"),
            Xid(1),
        ),
        Cursor::new(image),
    )
}

#[test]
fn records_for_collects_an_object_spanning_two_leaves() {
    let (catalog, mut reader) = two_level_catalog();
    let obj5 = catalog.records_for(&mut reader, 5).unwrap();
    assert_eq!(
        obj5.iter().map(|r| r.key_header.kind).collect::<Vec<_>>(),
        [JObjType::Inode, JObjType::Xattr, JObjType::DirRec]
    );
    // Objects confined to a single leaf.
    assert_eq!(catalog.records_for(&mut reader, 2).unwrap().len(), 1);
    assert_eq!(catalog.records_for(&mut reader, 8).unwrap().len(), 1);
    assert!(catalog.records_for(&mut reader, 99).unwrap().is_empty());
}

#[test]
fn find_record_descends_to_a_single_record() {
    let (catalog, mut reader) = two_level_catalog();
    // A record in either leaf is reached by the descent.
    assert_eq!(
        catalog
            .find_record(&mut reader, 5, JObjType::Inode)
            .unwrap(),
        Some(vec![0x53; 4])
    );
    assert_eq!(
        catalog
            .find_record(&mut reader, 5, JObjType::DirRec)
            .unwrap(),
        Some(vec![0x59; 4])
    );
    assert_eq!(
        catalog
            .find_record(&mut reader, 8, JObjType::Inode)
            .unwrap(),
        Some(vec![0x83; 4])
    );
    // A missing object, and an object that lacks the requested type.
    assert!(
        catalog
            .find_record(&mut reader, 99, JObjType::Inode)
            .unwrap()
            .is_none()
    );
    assert!(
        catalog
            .find_record(&mut reader, 2, JObjType::DirRec)
            .unwrap()
            .is_none()
    );
}

#[test]
fn inode_lookup_returns_present_record_and_none_for_missing() {
    let leaf = catalog_leaf(&[(
        jkey(2, 3), // (object 2, inode)
        vec![0u8; J_INODE_VAL_SIZE],
    )]);
    let mut image = omap_phys(1);
    image.extend(omap_tree(&[(200, 1, 2)]));
    image.extend(leaf);
    let omap = Omap::parse(&image[..BLK]).unwrap();
    let catalog = Catalog::new(
        Oid(200),
        omap,
        u32::try_from(BLK).expect("the test fixture value fits in u32"),
        Xid(1),
    );
    let mut reader = Cursor::new(image);

    let present = Inode::lookup(&catalog, &mut reader, 2).unwrap();
    assert!(present.is_some(), "object 2 has an inode record");
    let missing = Inode::lookup(&catalog, &mut reader, 99).unwrap();
    assert!(missing.is_none(), "object 99 has no inode record");
}

#[test]
fn is_system_object_classifies_around_the_mark() {
    let above = JKey {
        obj_id: SYSTEM_OBJ_ID_MARK,
        kind: JObjType::Inode,
    };
    let just_below = JKey {
        obj_id: SYSTEM_OBJ_ID_MARK - 1,
        kind: JObjType::Inode,
    };
    let small = JKey {
        obj_id: 2,
        kind: JObjType::Inode,
    };
    assert!(above.is_system_object());
    assert!(!just_below.is_system_object());
    assert!(!small.is_system_object());
}

fn pruning_fixture() -> (Catalog, Cursor) {
    let v = |byte: u8| vec![byte; 4];
    let leaf1 = catalog_node(
        &[
            (jkey(2, 3), v(0x02)), // (2, Inode)
            (jkey(5, 3), v(0x53)), // (5, Inode) — the target
        ],
        0x0002,
    );
    let leaf2 = catalog_node(&[(jkey(10, 3), v(0x83))], 0x0002);
    let index = catalog_node(
        &[
            (jkey(2, 3), 301u64.to_le_bytes().to_vec()),
            (jkey(10, 3), 302u64.to_le_bytes().to_vec()),
        ],
        0x0001,
    );
    let mut image = omap_phys(1);
    image.extend(omap_tree(&[(300, 1, 2), (301, 1, 3), (302, 1, 4)]));
    image.extend(index); // block 2
    image.extend(leaf1); // block 3
    image.extend(leaf2); // block 4
    let omap = Omap::parse(&image[..BLK]).unwrap();
    (
        Catalog::new(
            Oid(300),
            omap,
            u32::try_from(BLK).expect("the test fixture value fits in u32"),
            Xid(1),
        ),
        Cursor::new(image),
    )
}

#[test]
fn walk_descends_when_next_separator_lies_past_the_target() {
    // Target=5 with separators [2, 10]: the `next` separator (10) is past
    // the target, so the current subtree must still be descended. Flipping
    // `next < target` to `>` would skip it and return zero records.
    let (catalog, mut reader) = pruning_fixture();
    let obj5 = catalog.records_for(&mut reader, 5).unwrap();
    assert_eq!(obj5.len(), 1, "obj 5 must be found in leaf 1");
    assert_eq!(obj5[0].value, vec![0x53; 4]);
}

fn short_child_link_catalog() -> (Catalog, Cursor) {
    // An index entry with a 4-byte child link instead of the required 8.
    let index = catalog_node(
        &[(jkey(2, 3), vec![0xAAu8; 4])], // child link too short
        0x0001,                           // ROOT
    );
    let mut image = omap_phys(1);
    image.extend(omap_tree(&[(300, 1, 2)]));
    image.extend(index);
    let omap = Omap::parse(&image[..BLK]).unwrap();
    (
        Catalog::new(
            Oid(300),
            omap,
            u32::try_from(BLK).expect("the test fixture value fits in u32"),
            Xid(1),
        ),
        Cursor::new(image),
    )
}

#[test]
fn walk_rejects_a_short_child_link() {
    let (catalog, mut reader) = short_child_link_catalog();
    let result = catalog.records_for(&mut reader, 2);
    assert!(matches!(result, Err(ApfsError::Malformed { .. })));
}

/// Builds a single-block image whose index node loops back to itself —
/// a corrupt tree of unbounded depth. `Catalog::walk` must terminate
/// via the `depth >= MAX_CATALOG_DEPTH` guard; replacing `depth + 1`
/// with `depth * 1` keeps depth at zero and recurses forever.
fn cyclic_catalog() -> (Catalog, Cursor) {
    // One index entry whose child link points back at the root oid.
    let index = catalog_node(
        &[(jkey(2, 3), 300u64.to_le_bytes().to_vec())],
        0x0001, // ROOT
    );
    let mut image = omap_phys(1);
    image.extend(omap_tree(&[(300, 1, 2)]));
    image.extend(index);
    let omap = Omap::parse(&image[..BLK]).unwrap();
    (
        Catalog::new(
            Oid(300),
            omap,
            u32::try_from(BLK).expect("the test fixture value fits in u32"),
            Xid(1),
        ),
        Cursor::new(image),
    )
}

#[test]
fn walk_rejects_a_tree_deeper_than_the_supported_limit() {
    // The cyclic catalog recurses without progress; the depth guard must
    // surface a Malformed error rather than blowing the stack.
    let (catalog, mut reader) = cyclic_catalog();
    let result = catalog.records_of_kind(&mut reader, JObjType::Inode);
    match result {
        Err(ApfsError::Malformed { reason, .. }) => {
            assert!(reason.contains("deeper"), "{reason}");
        }
        other => panic!("expected Malformed depth error, got {other:?}"),
    }
}
