use fs_apfs::btree::{BTN_DATA_OFFSET, BTREE_INFO_SIZE};
use fs_apfs::catalog::{Catalog, JObjType, OBJ_TYPE_SHIFT};
use fs_apfs::clones::ClassifiedExtent;
use fs_apfs::directory::J_DREC_LEN_MASK;
use fs_apfs::error::ApfsError;
use fs_apfs::extent::FileExtent;
use fs_apfs::forensic::{TimestampKind, build_clone_map, build_timeline, inode_events};
use fs_apfs::inode::{Inode, J_INODE_VAL_SIZE};
use fs_apfs::io::Cursor;
use fs_apfs::object::OBJ_PHYSICAL;
use fs_apfs::omap::Omap;
use fs_apfs::types::{Oid, Xid};

const BLK: usize = 4096;

fn omap_phys(tree_oid: u64) -> Vec<u8> {
    let mut b = vec![0u8; BLK];
    b[0x18..0x1C].copy_from_slice(&(OBJ_PHYSICAL | 0x0B).to_le_bytes());
    b[0x30..0x38].copy_from_slice(&tree_oid.to_le_bytes());
    b
}

fn omap_tree(node_oid: u64, node_paddr: u64) -> Vec<u8> {
    let mut b = vec![0u8; BLK];
    b[0x20..0x22].copy_from_slice(&0x0007u16.to_le_bytes());
    b[0x24..0x28].copy_from_slice(&1u32.to_le_bytes());
    b[0x2A..0x2C].copy_from_slice(&4u16.to_le_bytes());
    let key_area = BTN_DATA_OFFSET + 4;
    b[BTN_DATA_OFFSET + 2..BTN_DATA_OFFSET + 4].copy_from_slice(&16u16.to_le_bytes());
    b[key_area..key_area + 8].copy_from_slice(&node_oid.to_le_bytes());
    b[key_area + 8..key_area + 16].copy_from_slice(&1u64.to_le_bytes());
    let value_end = BLK - BTREE_INFO_SIZE;
    b[value_end - 16 + 8..value_end - 16 + 16].copy_from_slice(&node_paddr.to_le_bytes());
    let info = BLK - BTREE_INFO_SIZE;
    b[info + 8..info + 12].copy_from_slice(&16u32.to_le_bytes());
    b[info + 12..info + 16].copy_from_slice(&16u32.to_le_bytes());
    b
}

fn catalog_leaf(records: &[(Vec<u8>, Vec<u8>)]) -> Vec<u8> {
    let mut b = vec![0u8; BLK];
    b[0x20..0x22].copy_from_slice(&0x0003u16.to_le_bytes());
    b[0x24..0x28].copy_from_slice(&(records.len() as u32).to_le_bytes());
    b[0x2A..0x2C].copy_from_slice(&((records.len() * 8) as u16).to_le_bytes());
    let key_area = BTN_DATA_OFFSET + records.len() * 8;
    let value_end = BLK - BTREE_INFO_SIZE;
    let (mut kc, mut vc) = (0usize, 0usize);
    for (i, (key, value)) in records.iter().enumerate() {
        let toc = BTN_DATA_OFFSET + i * 8;
        b[toc..toc + 2].copy_from_slice(&(kc as u16).to_le_bytes());
        b[toc + 2..toc + 4].copy_from_slice(&(key.len() as u16).to_le_bytes());
        vc += value.len();
        b[toc + 4..toc + 6].copy_from_slice(&(vc as u16).to_le_bytes());
        b[toc + 6..toc + 8].copy_from_slice(&(value.len() as u16).to_le_bytes());
        b[key_area + kc..key_area + kc + key.len()].copy_from_slice(key);
        b[value_end - vc..value_end - vc + value.len()].copy_from_slice(value);
        kc += key.len();
    }
    b
}

fn inode_record(obj_id: u64, mode: u16, create: u64) -> (Vec<u8>, Vec<u8>) {
    let key = (((JObjType::Inode.as_value() as u64) << OBJ_TYPE_SHIFT) | obj_id)
        .to_le_bytes()
        .to_vec();
    let mut value = vec![0u8; J_INODE_VAL_SIZE];
    value[0x10..0x18].copy_from_slice(&create.to_le_bytes()); // create_time
    value[0x50..0x52].copy_from_slice(&mode.to_le_bytes()); // mode
    (key, value)
}

fn drec_record(dir_id: u64, name: &str, child: u64, file_type: u16) -> (Vec<u8>, Vec<u8>) {
    let mut key = (((JObjType::DirRec.as_value() as u64) << OBJ_TYPE_SHIFT) | dir_id)
        .to_le_bytes()
        .to_vec();
    let len = name.len() as u32 + 1;
    key.extend_from_slice(&(len & J_DREC_LEN_MASK).to_le_bytes());
    key.extend_from_slice(name.as_bytes());
    key.push(0);
    let mut value = vec![0u8; 18];
    value[0..8].copy_from_slice(&child.to_le_bytes());
    value[16..18].copy_from_slice(&file_type.to_le_bytes());
    (key, value)
}

#[test]
fn builds_a_sorted_timeline() {
    // Root (2) contains file "old.txt" (10) created at t=100 and
    // "new.txt" (11) created at t=300.
    let records = vec![
        inode_record(2, 0o040_755, 50),
        drec_record(2, "old.txt", 10, 8),
        inode_record(10, 0o100_644, 100),
        drec_record(2, "new.txt", 11, 8),
        inode_record(11, 0o100_644, 300),
    ];
    let mut image = omap_phys(1);
    image.extend(omap_tree(400, 2));
    image.extend(catalog_leaf(&records));
    let omap = Omap::parse(&image[..BLK]).unwrap();
    let catalog = Catalog::new(Oid(400), omap, BLK as u32, Xid(1));
    let mut reader = Cursor::new(image);

    let timeline = build_timeline(&mut reader, &catalog, true).unwrap();
    // Three inodes x four timestamps.
    assert_eq!(timeline.len(), 12);
    // Events are returned sorted ascending by time.
    assert!(timeline.windows(2).all(|w| w[0].time <= w[1].time));
    // Creation events carry the resolved paths.
    let created: Vec<_> = timeline
        .iter()
        .filter(|e| e.kind == TimestampKind::Created)
        .map(|e| (e.time.nanos(), e.path.as_str()))
        .collect();
    assert!(created.contains(&(100, "/old.txt")));
    assert!(created.contains(&(300, "/new.txt")));
}

#[test]
fn timeline_walks_into_nested_directories() {
    let records = vec![
        inode_record(2, 0o040_755, 50),
        drec_record(2, "shallow.txt", 10, 8),
        inode_record(10, 0o100_644, 100),
        drec_record(2, "sub", 20, 4),
        inode_record(20, 0o040_755, 150),
        drec_record(20, "deep.txt", 30, 8),
        inode_record(30, 0o100_644, 200),
    ];
    let mut image = omap_phys(1);
    image.extend(omap_tree(400, 2));
    image.extend(catalog_leaf(&records));
    let omap = Omap::parse(&image[..BLK]).unwrap();
    let catalog = Catalog::new(Oid(400), omap, BLK as u32, Xid(1));
    let mut reader = Cursor::new(image);

    let timeline = build_timeline(&mut reader, &catalog, true).unwrap();
    // 4 inodes (root, shallow, sub, deep) x 4 timestamps each.
    assert_eq!(timeline.len(), 16);
    // The deep child's resolved path proves the recursion happened.
    let deep_paths: Vec<_> = timeline
        .iter()
        .filter(|e| e.obj_id == 30 && e.kind == TimestampKind::Created)
        .map(|e| e.path.as_str())
        .collect();
    assert_eq!(deep_paths, vec!["/sub/deep.txt"]);
}

#[test]
fn timeline_rejects_a_directory_cycle() {
    let records = vec![inode_record(2, 0o040_755, 50), drec_record(2, "loop", 2, 4)];
    let mut image = omap_phys(1);
    image.extend(omap_tree(400, 2));
    image.extend(catalog_leaf(&records));
    let omap = Omap::parse(&image[..BLK]).unwrap();
    let catalog = Catalog::new(Oid(400), omap, BLK as u32, Xid(1));
    let mut reader = Cursor::new(image);

    assert!(matches!(
        build_timeline(&mut reader, &catalog, true),
        Err(ApfsError::Malformed { .. })
    ));
}

#[test]
fn inode_events_yields_four_events() {
    let inode = Inode::parse(&[0u8; J_INODE_VAL_SIZE]).unwrap();
    let events = inode_events(&inode, 5, "/file");
    assert_eq!(events.len(), 4);
    assert_eq!(events[0].kind, TimestampKind::Created);
    assert_eq!(events[3].kind, TimestampKind::Accessed);
}

/// A classified extent at `phys_block` with the given reference count.
fn classified(phys_block: u64, refcnt: i32) -> ClassifiedExtent {
    ClassifiedExtent {
        extent: FileExtent {
            logical_addr: 0,
            length: 4096,
            phys_block_num: phys_block,
            crypto_id: 0,
        },
        refcnt: Some(refcnt),
    }
}

#[test]
fn clone_map_groups_files_sharing_an_extent() {
    // Files 10 and 11 both reference shared block 500; file 12 has its
    // own exclusive block 600.
    let files = [
        (10u64, vec![classified(500, 2)]),
        (11u64, vec![classified(500, 2)]),
        (12u64, vec![classified(600, 1)]),
    ];
    let map = build_clone_map(&files);
    assert_eq!(map.len(), 1);
    assert_eq!(map[0].physical_block, 500);
    assert_eq!(map[0].members, vec![10, 11]);
}

#[test]
fn clone_map_is_empty_without_sharing() {
    let files = [
        (10u64, vec![classified(500, 1)]),
        (11u64, vec![classified(600, 1)]),
    ];
    assert!(build_clone_map(&files).is_empty());
}

#[test]
fn clone_map_rejects_a_single_member_group() {
    let files = [(10u64, vec![classified(500, 2)])];
    assert!(build_clone_map(&files).is_empty());
}
