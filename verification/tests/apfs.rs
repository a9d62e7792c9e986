use fs_apfs::apfs::Apfs;
use fs_apfs::btree::{BTN_DATA_OFFSET, BTREE_INFO_SIZE};
use fs_apfs::checksum::fletcher64;
use fs_apfs::error::ApfsError;
use fs_apfs::io::Cursor;
use fs_apfs::object::{OBJ_EPHEMERAL, OBJ_PHYSICAL, OBJ_VIRTUAL};
use fs_apfs::types::Oid;

const BLK: usize = 4096;

fn seal(block: &mut [u8]) {
    let csum = fletcher64(&block[8..]);
    block[..8].copy_from_slice(&csum.to_le_bytes());
}

/// A container superblock with one volume, sealed for the checkpoint scan.
fn nx_superblock(xid: u64, omap_oid: u64, fs_oid0: u64) -> Vec<u8> {
    nx_superblock_with(xid, omap_oid, &[fs_oid0], &[0u8; 16])
}

/// A container superblock with the given volume oids and uuid, sealed.
fn nx_superblock_with(xid: u64, omap_oid: u64, fs_oids: &[u64], uuid: &[u8; 16]) -> Vec<u8> {
    let mut b = vec![0u8; BLK];
    b[0x10..0x18].copy_from_slice(&xid.to_le_bytes());
    b[0x18..0x1C].copy_from_slice(&(OBJ_EPHEMERAL | 0x01).to_le_bytes());
    b[0x20..0x24].copy_from_slice(&0x4253_584Eu32.to_le_bytes()); // NXSB
    b[0x24..0x28].copy_from_slice(
        &u32::try_from(BLK)
            .expect("the test fixture value fits in u32")
            .to_le_bytes(),
    );
    b[0x28..0x30].copy_from_slice(&500u64.to_le_bytes()); // nx_block_count
    b[0x48..0x58].copy_from_slice(uuid); // nx_uuid
    b[0x68..0x6C].copy_from_slice(&1u32.to_le_bytes()); // nx_xp_desc_blocks
    b[0x70..0x78].copy_from_slice(&1i64.to_le_bytes()); // nx_xp_desc_base
    b[0x88..0x8C].copy_from_slice(&0u32.to_le_bytes()); // nx_xp_desc_index
    b[0x8C..0x90].copy_from_slice(&1u32.to_le_bytes()); // nx_xp_desc_len
    b[0xA0..0xA8].copy_from_slice(&omap_oid.to_le_bytes()); // nx_omap_oid
    b[0xB4..0xB8].copy_from_slice(&100u32.to_le_bytes()); // nx_max_file_systems
    for (i, oid) in fs_oids.iter().enumerate() {
        let off = 0xB8 + i * 8;
        b[off..off + 8].copy_from_slice(&oid.to_le_bytes());
    }
    seal(&mut b);
    b
}

/// A container object-map block whose mapping tree is at `tree_oid`.
fn omap_block(tree_oid: u64) -> Vec<u8> {
    let mut b = vec![0u8; BLK];
    b[0x18..0x1C].copy_from_slice(&(OBJ_PHYSICAL | 0x0B).to_le_bytes()); // OMAP
    b[0x30..0x38].copy_from_slice(&tree_oid.to_le_bytes()); // om_tree_oid
    b
}

/// A single-entry object-map B-tree: `(vol_oid, xid) -> vol_paddr`.
fn omap_tree(vol_oid: u64, xid: u64, vol_paddr: u64) -> Vec<u8> {
    let mut b = vec![0u8; BLK];
    b[0x20..0x22].copy_from_slice(&0x0007u16.to_le_bytes()); // ROOT|LEAF|FIXED
    b[0x24..0x28].copy_from_slice(&1u32.to_le_bytes()); // btn_nkeys
    b[0x2A..0x2C].copy_from_slice(&4u16.to_le_bytes()); // table_space.len
    let key_area = BTN_DATA_OFFSET + 4;
    b[BTN_DATA_OFFSET..BTN_DATA_OFFSET + 2].copy_from_slice(&0u16.to_le_bytes()); // k off
    b[BTN_DATA_OFFSET + 2..BTN_DATA_OFFSET + 4].copy_from_slice(&16u16.to_le_bytes()); // v off
    b[key_area..key_area + 8].copy_from_slice(&vol_oid.to_le_bytes());
    b[key_area + 8..key_area + 16].copy_from_slice(&xid.to_le_bytes());
    let value_end = BLK - BTREE_INFO_SIZE;
    b[value_end - 16 + 4..value_end - 16 + 8].copy_from_slice(
        &u32::try_from(BLK)
            .expect("the test fixture value fits in u32")
            .to_le_bytes(),
    );
    b[value_end - 16 + 8..value_end - 16 + 16].copy_from_slice(&vol_paddr.to_le_bytes());
    let info = BLK - BTREE_INFO_SIZE;
    b[info + 8..info + 12].copy_from_slice(&16u32.to_le_bytes()); // bt_key_size
    b[info + 12..info + 16].copy_from_slice(&16u32.to_le_bytes()); // bt_val_size
    b
}

/// A volume superblock block named `name`.
fn volume_sb(name: &[u8]) -> Vec<u8> {
    let mut b = vec![0u8; BLK];
    b[0x18..0x1C].copy_from_slice(&(OBJ_VIRTUAL | 0x0D).to_le_bytes()); // FS
    b[0x20..0x24].copy_from_slice(&0x4253_5041u32.to_le_bytes()); // APSB
    b[0x2C0..0x2C0 + name.len()].copy_from_slice(name);
    b
}

/// Assembles the standard five-block test container.
fn container() -> Cursor {
    let mut data = Vec::new();
    data.extend(nx_superblock(10, 2, 100)); // block 0: block-zero copy
    data.extend(nx_superblock(10, 2, 100)); // block 1: checkpoint superblock
    data.extend(omap_block(3)); // block 2: container omap
    data.extend(omap_tree(100, 7, 4)); // block 3: omap B-tree
    data.extend(volume_sb(b"TestVolume")); // block 4: volume superblock
    Cursor::new(data)
}

#[test]
fn mounts_a_container_and_reports_geometry() {
    let mut reader = container();
    let apfs = Apfs::new(&mut reader).unwrap();
    assert_eq!(apfs.block_size(), 4096);
    assert_eq!(apfs.block_count(), 500);
    assert_eq!(apfs.volume_count(), 1);
    assert_eq!(apfs.volume_oids(), &[Oid(100)]);
}

#[test]
fn enumerates_the_volume_superblock() {
    let mut reader = container();
    let apfs = Apfs::new(&mut reader).unwrap();
    let volume = apfs.volume(&mut reader, 0).unwrap();
    assert_eq!(volume.name, "TestVolume");

    let all = apfs.volumes(&mut reader).unwrap();
    assert_eq!(all.len(), 1);
    assert_eq!(all[0].name, "TestVolume");
}

#[test]
fn out_of_range_volume_index_is_a_typed_error() {
    let mut reader = container();
    let apfs = Apfs::new(&mut reader).unwrap();
    assert!(matches!(
        apfs.volume(&mut reader, 5),
        Err(ApfsError::NotFound { .. })
    ));
}

#[test]
fn a_non_apfs_image_fails_to_mount() {
    let mut reader = Cursor::new(vec![0u8; BLK * 2]);
    assert!(Apfs::new(&mut reader).is_err());
}

/// Builds the standard five-block container with a custom UUID and a
/// caller-controlled list of volume oids in the superblock.
fn container_with(uuid: &[u8; 16], fs_oids: &[u64]) -> Cursor {
    let mut data = Vec::new();
    data.extend(nx_superblock_with(10, 2, fs_oids, uuid));
    data.extend(nx_superblock_with(10, 2, fs_oids, uuid));
    data.extend(omap_block(3));
    data.extend(omap_tree(fs_oids[0], 7, 4));
    data.extend(volume_sb(b"TestVolume"));
    Cursor::new(data)
}

#[test]
fn uuid_returns_the_superblock_uuid_byte_for_byte() {
    let uuid = [
        0x42u8, 0x55, 0x66, 0x77, 0x88, 0x99, 0xAA, 0xBB, 0xCC, 0xDD, 0xEE, 0xFF, 0x20, 0x30,
        0x40, 0x50,
    ];
    let mut reader = container_with(&uuid, &[100]);
    let apfs = Apfs::new(&mut reader).unwrap();
    assert_eq!(apfs.uuid(), uuid);
}

#[test]
fn volume_count_reports_every_populated_fs_oid_slot() {
    // Two non-zero fs_oid entries: volume_count must be 2, not 1 or 0.
    let mut reader = container_with(&[0xAB; 16], &[100, 200]);
    let apfs = Apfs::new(&mut reader).unwrap();
    assert_eq!(apfs.volume_count(), 2);
    assert_eq!(apfs.volume_oids(), &[Oid(100), Oid(200)]);
}
