use fs_apfs::btree::{BTN_DATA_OFFSET, BTREE_INFO_SIZE};
use fs_apfs::error::ApfsError;
use fs_apfs::io::Cursor;
use fs_apfs::object::OBJ_PHYSICAL;
use fs_apfs::omap::{Omap, OmapValFlags};
use fs_apfs::types::{Oid, Paddr, Xid};

const BLK: usize = 4096;

/// Builds an `omap_phys_t` block whose mapping tree is at `tree_oid`.
fn omap_block(tree_oid: u64) -> Vec<u8> {
    let mut b = vec![0u8; BLK];
    b[0x18..0x1C].copy_from_slice(&(OBJ_PHYSICAL | 0x0B).to_le_bytes()); // OMAP
    b[0x24..0x28].copy_from_slice(&2u32.to_le_bytes()); // om_snap_count
    b[0x30..0x38].copy_from_slice(&tree_oid.to_le_bytes()); // om_tree_oid
    b
}

/// Builds a single root+leaf object-map B-tree node.
///
/// `entries` is `(oid, xid, val_flags, val_size, paddr)`, pre-sorted by
/// `(oid, xid)`.
fn omap_tree_block(entries: &[(u64, u64, u32, u32, u64)]) -> Vec<u8> {
    let mut b = vec![0u8; BLK];
    // btn_flags = ROOT | LEAF | FIXED_KV_SIZE.
    b[0x20..0x22].copy_from_slice(&0x0007u16.to_le_bytes());
    b[0x24..0x28].copy_from_slice(
        &u32::try_from(entries.len())
            .expect("the test fixture value fits in u32")
            .to_le_bytes(),
    ); // btn_nkeys
    let toc_len = entries.len() * 4;
    b[0x2A..0x2C].copy_from_slice(
        &u16::try_from(toc_len)
            .expect("the test fixture value fits in u16")
            .to_le_bytes(),
    ); // table_space.len

    let key_area = BTN_DATA_OFFSET + toc_len;
    let value_end = BLK - BTREE_INFO_SIZE;
    for (i, &(oid, xid, flags, size, paddr)) in entries.iter().enumerate() {
        let toc = BTN_DATA_OFFSET + i * 4;
        b[toc..toc + 2].copy_from_slice(
            &u16::try_from(i * 16)
                .expect("the test fixture value fits in u16")
                .to_le_bytes(),
        );
        b[toc + 2..toc + 4].copy_from_slice(
            &u16::try_from((i + 1) * 16)
                .expect("the test fixture value fits in u16")
                .to_le_bytes(),
        );

        let ks = key_area + i * 16;
        b[ks..ks + 8].copy_from_slice(&oid.to_le_bytes());
        b[ks + 8..ks + 16].copy_from_slice(&xid.to_le_bytes());

        let vs = value_end - (i + 1) * 16;
        b[vs..vs + 4].copy_from_slice(&flags.to_le_bytes());
        b[vs + 4..vs + 8].copy_from_slice(&size.to_le_bytes());
        b[vs + 8..vs + 16].copy_from_slice(&paddr.to_le_bytes());
    }
    // btree_info: bt_key_size 16, bt_val_size 16.
    let info = BLK - BTREE_INFO_SIZE;
    b[info + 4..info + 8].copy_from_slice(
        &u32::try_from(BLK)
            .expect("the test fixture value fits in u32")
            .to_le_bytes(),
    ); // bt_node_size
    b[info + 8..info + 12].copy_from_slice(&16u32.to_le_bytes()); // bt_key_size
    b[info + 12..info + 16].copy_from_slice(&16u32.to_le_bytes()); // bt_val_size
    b
}

/// Object 588 at three transactions.
fn three_transactions() -> (Omap, Cursor) {
    // Block 0 = omap_phys, block 1 = the mapping tree.
    let mut image = omap_block(1);
    image.extend(omap_tree_block(&[
        (
            588,
            2101,
            0,
            u32::try_from(BLK).expect("the test fixture value fits in u32"),
            200,
        ),
        (
            588,
            2202,
            0,
            u32::try_from(BLK).expect("the test fixture value fits in u32"),
            300,
        ),
        (
            588,
            2300,
            0,
            u32::try_from(BLK).expect("the test fixture value fits in u32"),
            100,
        ),
    ]));
    let omap = Omap::parse(&image[..BLK]).unwrap();
    (omap, Cursor::new(image))
}

#[test]
fn parses_omap_phys() {
    let omap = Omap::parse(&omap_block(7)).unwrap();
    assert_eq!(omap.tree_oid, Oid(7));
    assert_eq!(omap.snapshot_count, 2);
}

#[test]
fn rejects_a_non_omap_object_type() {
    let mut block = omap_block(7);
    block[0x18..0x1C].copy_from_slice(&(OBJ_PHYSICAL | 0x02).to_le_bytes()); // BTREE
    assert!(matches!(
        Omap::parse(&block),
        Err(ApfsError::Malformed { .. })
    ));
}

#[test]
fn resolve_exact_transaction() {
    let (omap, mut reader) = three_transactions();
    let value = omap
        .resolve(
            &mut reader,
            u32::try_from(BLK).expect("the test fixture value fits in u32"),
            Oid(588),
            Xid(2300),
        )
        .unwrap()
        .unwrap();
    assert_eq!(value.paddr, Paddr(100));
}

#[test]
fn resolve_uses_largest_xid_not_exceeding_target() {
    let (omap, mut reader) = three_transactions();
    // No entry at xid 2290; 2202 is the largest xid <= 2290.
    let value = omap
        .resolve(
            &mut reader,
            u32::try_from(BLK).expect("the test fixture value fits in u32"),
            Oid(588),
            Xid(2290),
        )
        .unwrap()
        .unwrap();
    assert_eq!(value.paddr, Paddr(300));
}

#[test]
fn resolve_before_first_transaction_is_none() {
    let (omap, mut reader) = three_transactions();
    assert!(
        omap.resolve(
            &mut reader,
            u32::try_from(BLK).expect("the test fixture value fits in u32"),
            Oid(588),
            Xid(2050)
        )
        .unwrap()
        .is_none()
    );
}

#[test]
fn resolve_unknown_object_is_none() {
    let (omap, mut reader) = three_transactions();
    assert!(
        omap.resolve(
            &mut reader,
            u32::try_from(BLK).expect("the test fixture value fits in u32"),
            Oid(999),
            Xid(9999)
        )
        .unwrap()
        .is_none()
    );
}

#[test]
fn resolve_treats_a_deletion_tombstone_as_not_found() {
    // Object 70 has a live mapping at xid 10 and a DELETED tombstone at
    // xid 20. A lookup at xid 25 resolves the tombstone and must report
    // the object as gone; a lookup at xid 15 still sees the live entry.
    let mut image = omap_block(1);
    image.extend(omap_tree_block(&[
        (
            70,
            10,
            0,
            u32::try_from(BLK).expect("the test fixture value fits in u32"),
            555,
        ),
        (
            70,
            20,
            OmapValFlags::DELETED,
            u32::try_from(BLK).expect("the test fixture value fits in u32"),
            777,
        ),
    ]));
    let omap = Omap::parse(&image[..BLK]).unwrap();
    let mut reader = Cursor::new(image);
    assert!(
        omap.resolve(
            &mut reader,
            u32::try_from(BLK).expect("the test fixture value fits in u32"),
            Oid(70),
            Xid(25)
        )
        .unwrap()
        .is_none()
    );
    assert_eq!(
        omap.resolve(
            &mut reader,
            u32::try_from(BLK).expect("the test fixture value fits in u32"),
            Oid(70),
            Xid(15)
        )
        .unwrap()
        .unwrap()
        .paddr,
        Paddr(555)
    );
}

#[test]
fn resolve_decodes_value_flags() {
    let mut image = omap_block(1);
    image.extend(omap_tree_block(&[(
        70,
        10,
        OmapValFlags::ENCRYPTED | OmapValFlags::SAVED,
        u32::try_from(BLK).expect("the test fixture value fits in u32"),
        555,
    )]));
    let omap = Omap::parse(&image[..BLK]).unwrap();
    let mut reader = Cursor::new(image);
    let value = omap
        .resolve(
            &mut reader,
            u32::try_from(BLK).expect("the test fixture value fits in u32"),
            Oid(70),
            Xid(10),
        )
        .unwrap()
        .unwrap();
    assert!(value.flags.contains(OmapValFlags::ENCRYPTED));
    assert!(value.flags.contains(OmapValFlags::SAVED));
    assert_eq!(value.paddr, Paddr(555));
}
