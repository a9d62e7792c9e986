//! What holds across functions, on concrete values.

use core::cmp::Ordering;

use fs_apfs::apfs::Apfs;
use fs_apfs::btree::{descend, descend_le, BtreeNode, BTN_DATA_OFFSET, BTREE_INFO_SIZE};
use fs_apfs::catalog::{Catalog, CatalogRecord, JKey, JObjType, OBJ_TYPE_SHIFT};
use fs_apfs::checksum::{fletcher64, verify_block};
use fs_apfs::container::{NxSuperblock, NX_MAGIC};
use fs_apfs::directory::{DirEntry, Directory, NameComparison};
use fs_apfs::efi::is_apfs_container;
use fs_apfs::error::ApfsError;
use fs_apfs::extent::{File, FileExtent};
use fs_apfs::fusion::{FusionCache, FusionWbcEntry, FusionWbcList};
use fs_apfs::inode::J_INODE_VAL_SIZE;
use fs_apfs::io::{read_vec_at, Cursor, Error, ErrorKind, Reader, SeekFrom};
use fs_apfs::object::{OBJ_EPHEMERAL, OBJ_PHYSICAL, OBJ_PHYS_SIZE};
use fs_apfs::omap::Omap;
use fs_apfs::orphans::group_orphans;
use fs_apfs::recovery::{diff_snapshot, scan_unallocated, OrphanedNode, Provenance};
use fs_apfs::sealed::ApfsHashType;
use fs_apfs::snapshot::{Snapshot, J_SNAP_METADATA_VAL_SIZE};
use fs_apfs::space_manager::{
    SpaceManager, CIB_CHUNK_INFO_OFFSET, SD_COUNT, SM_DEV_OFFSET, SPACEMAN_DEVICE_SIZE,
};
use fs_apfs::time::ApfsTimestamp;
use fs_apfs::types::{ObjectType, Oid, Paddr, Xid};
use fs_apfs::unicode::{name_hash, normalize_fold};

const BLK: usize = 4096;

const BLOCK_SIZE: u32 = 4096;

/// Builds a node with fixed-size keys and values.
fn fixed_node(flags: u16, info: (u32, u32), entries: &[(Vec<u8>, Vec<u8>)]) -> Vec<u8> {
    let mut b = vec![0u8; BLK];
    b[0x20..0x22].copy_from_slice(&(flags | 0x0004).to_le_bytes());
    b[0x24..0x28].copy_from_slice(&(entries.len() as u32).to_le_bytes());
    b[0x2A..0x2C].copy_from_slice(&((entries.len() * 4) as u16).to_le_bytes());
    let key_area = BTN_DATA_OFFSET + entries.len() * 4;
    let value_end = if flags & 0x0001 != 0 {
        BLK - BTREE_INFO_SIZE
    } else {
        BLK
    };
    let (mut kc, mut vc) = (0usize, 0usize);
    for (i, (key, value)) in entries.iter().enumerate() {
        vc += value.len();
        let toc = BTN_DATA_OFFSET + i * 4;
        b[toc..toc + 2].copy_from_slice(&(kc as u16).to_le_bytes());
        b[toc + 2..toc + 4].copy_from_slice(&(vc as u16).to_le_bytes());
        b[key_area + kc..key_area + kc + key.len()].copy_from_slice(key);
        b[value_end - vc..value_end - vc + value.len()].copy_from_slice(value);
        kc += key.len();
    }
    if flags & 0x0001 != 0 {
        let at = BLK - BTREE_INFO_SIZE;
        b[at + 8..at + 12].copy_from_slice(&info.0.to_le_bytes());
        b[at + 12..at + 16].copy_from_slice(&info.1.to_le_bytes());
    }
    b
}

/// Builds a node with keys and values of any size.
fn variable_node(flags: u16, records: &[(Vec<u8>, Vec<u8>)]) -> Vec<u8> {
    let mut b = vec![0u8; BLK];
    b[0x20..0x22].copy_from_slice(&flags.to_le_bytes());
    b[0x24..0x28].copy_from_slice(&(records.len() as u32).to_le_bytes());
    b[0x2A..0x2C].copy_from_slice(&((records.len() * 8) as u16).to_le_bytes());
    let key_area = BTN_DATA_OFFSET + records.len() * 8;
    let value_end = if flags & 0x0001 != 0 {
        BLK - BTREE_INFO_SIZE
    } else {
        BLK
    };
    let (mut kc, mut vc) = (0usize, 0usize);
    for (i, (key, value)) in records.iter().enumerate() {
        vc += value.len();
        let toc = BTN_DATA_OFFSET + i * 8;
        b[toc..toc + 2].copy_from_slice(&(kc as u16).to_le_bytes());
        b[toc + 2..toc + 4].copy_from_slice(&(key.len() as u16).to_le_bytes());
        b[toc + 4..toc + 6].copy_from_slice(&(vc as u16).to_le_bytes());
        b[toc + 6..toc + 8].copy_from_slice(&(value.len() as u16).to_le_bytes());
        b[key_area + kc..key_area + kc + key.len()].copy_from_slice(key);
        b[value_end - vc..value_end - vc + value.len()].copy_from_slice(value);
        kc += key.len();
    }
    b
}

fn word(value: u64) -> Vec<u8> {
    value.to_le_bytes().to_vec()
}

fn by_number(a: &[u8], b: &[u8]) -> Ordering {
    let left = u64::from_le_bytes(a[..8].try_into().unwrap());
    let right = u64::from_le_bytes(b[..8].try_into().unwrap());
    left.cmp(&right)
}

// --- Searches in a tree of several leaves ------------------------------

fn leaf_of(keys: &[u64]) -> Vec<u8> {
    let entries: Vec<(Vec<u8>, Vec<u8>)> = keys.iter().map(|&k| (word(k), word(k * 10))).collect();
    fixed_node(0x0002, (8, 8), &entries)
}

fn child(oid: u64) -> Result<BtreeNode, ApfsError> {
    match oid {
        1 => BtreeNode::parse(leaf_of(&[10, 20])),
        2 => BtreeNode::parse(leaf_of(&[30, 40])),
        3 => BtreeNode::parse(leaf_of(&[50, 60])),
        _ => Err(ApfsError::NotFound { what: "node" }),
    }
}

#[test]
fn a_descent_finds_what_the_whole_tree_holds() {
    let index = [(word(10), word(1)), (word(30), word(2)), (word(50), word(3))];
    let all: [u64; 6] = [10, 20, 30, 40, 50, 60];
    let mut reader = Cursor::new(Vec::new());
    for search in 0u64..70 {
        let resolve = |_: &mut Cursor, oid: u64| child(oid);
        let root = BtreeNode::parse(fixed_node(0x0001, (8, 8), &index)).unwrap();
        let last = all.iter().copied().filter(|&k| k <= search).last();
        let found = descend_le(root, &mut reader, resolve, &word(search), by_number).unwrap();
        assert_eq!(found, last.map(|k| (word(k), word(k * 10))), "search {search}");

        let root = BtreeNode::parse(fixed_node(0x0001, (8, 8), &index)).unwrap();
        let equal = all.iter().copied().find(|&k| k == search);
        let found = descend(root, &mut reader, resolve, &word(search), by_number).unwrap();
        assert_eq!(found, equal.map(|k| word(k * 10)), "search {search}");
    }
}

// --- Object maps -------------------------------------------------------

fn omap_phys(tree_oid: u64) -> Vec<u8> {
    let mut b = vec![0u8; BLK];
    b[0x18..0x1C].copy_from_slice(&(OBJ_PHYSICAL | 0x0B).to_le_bytes());
    b[0x30..0x38].copy_from_slice(&tree_oid.to_le_bytes());
    b
}

fn omap_entry(oid: u64, xid: u64, paddr: u64) -> (Vec<u8>, Vec<u8>) {
    let mut key = word(oid);
    key.extend(word(xid));
    let mut value = vec![0u8; 8];
    value.extend(word(paddr));
    (key, value)
}

#[test]
fn resolve_gives_the_newest_mapping_of_any_leaf() {
    // Object 7 has mappings in both leaves.
    let left = [omap_entry(5, 1, 50), omap_entry(7, 2, 70), omap_entry(7, 4, 71)];
    let right = [omap_entry(7, 8, 72), omap_entry(9, 3, 90)];
    let index = [
        (left[0].0.clone(), word(2)),
        (right[0].0.clone(), word(3)),
    ];
    let mut image = omap_phys(1);
    image.extend(fixed_node(0x0001, (16, 16), &index)); // block 1
    image.extend(fixed_node(0x0002, (16, 16), &left)); // block 2
    image.extend(fixed_node(0x0002, (16, 16), &right)); // block 3
    let omap = Omap::parse(&image[..BLK]).unwrap();
    let mut reader = Cursor::new(image);
    let mut at = |oid: u64, xid: u64| {
        omap.resolve(&mut reader, BLOCK_SIZE, Oid(oid), Xid(xid))
            .unwrap()
            .map(|value| value.paddr)
    };
    assert_eq!(at(7, 1), None);
    assert_eq!(at(7, 2), Some(Paddr(70)));
    assert_eq!(at(7, 3), Some(Paddr(70)));
    assert_eq!(at(7, 7), Some(Paddr(71)));
    assert_eq!(at(7, 8), Some(Paddr(72)));
    assert_eq!(at(7, u64::MAX), Some(Paddr(72)));
    assert_eq!(at(5, 9), Some(Paddr(50)));
    assert_eq!(at(9, 2), None);
    assert_eq!(at(6, 9), None);
}

// --- Catalog walks -----------------------------------------------------

fn jkey(obj_id: u64, kind: JObjType) -> Vec<u8> {
    word((u64::from(kind.as_value()) << OBJ_TYPE_SHIFT) | obj_id)
}

fn catalog_on(records: &[(Vec<u8>, Vec<u8>)]) -> (Catalog, Cursor) {
    let mut image = omap_phys(1);
    image.extend(fixed_node(0x0003, (16, 16), &[omap_entry(100, 1, 2)]));
    image.extend(variable_node(0x0003, records));
    let omap = Omap::parse(&image[..BLK]).unwrap();
    (Catalog::new(Oid(100), omap, BLOCK_SIZE, Xid(1)), Cursor::new(image))
}

#[test]
fn walks_for_a_kind_and_for_an_object_agree() {
    let kinds = [JObjType::Inode, JObjType::Xattr, JObjType::DirRec];
    let mut leaves = Vec::new();
    let mut all = Vec::new();
    for pair in [[1u64, 2], [3, 4], [6, 9]] {
        let mut records = Vec::new();
        for obj_id in pair {
            for kind in kinds {
                records.push((jkey(obj_id, kind), vec![obj_id as u8]));
                all.push((obj_id, kind));
            }
        }
        leaves.push(records);
    }
    let index: Vec<(Vec<u8>, Vec<u8>)> = leaves
        .iter()
        .enumerate()
        .map(|(i, leaf)| (leaf[0].0.clone(), word(101 + i as u64)))
        .collect();
    let mut image = omap_phys(1);
    let mapped: Vec<_> = (0..4u64).map(|i| omap_entry(100 + i, 1, 2 + i)).collect();
    image.extend(fixed_node(0x0003, (16, 16), &mapped));
    image.extend(variable_node(0x0001, &index));
    for leaf in &leaves {
        image.extend(variable_node(0x0002, leaf));
    }
    let omap = Omap::parse(&image[..BLK]).unwrap();
    let catalog = Catalog::new(Oid(100), omap, BLOCK_SIZE, Xid(1));
    let mut reader = Cursor::new(image);
    let heads = |records: Vec<CatalogRecord>| -> Vec<(u64, JObjType)> {
        records
            .iter()
            .map(|r| (r.key_header.obj_id, r.key_header.kind))
            .collect()
    };
    for kind in kinds {
        let found = heads(catalog.records_of_kind(&mut reader, kind).unwrap());
        let kept: Vec<_> = all.iter().copied().filter(|r| r.1 == kind).collect();
        assert_eq!(found, kept);
    }
    for obj_id in 0u64..11 {
        let found = heads(catalog.records_for(&mut reader, obj_id).unwrap());
        let kept: Vec<_> = all.iter().copied().filter(|r| r.0 == obj_id).collect();
        assert_eq!(found, kept);
        let inode = catalog
            .find_record(&mut reader, obj_id, JObjType::Inode)
            .unwrap();
        assert_eq!(inode, kept.first().map(|_| vec![obj_id as u8]));
    }
}

#[test]
fn a_lookup_finds_what_the_walk_for_the_object_meets() {
    let records = [
        (jkey(3, JObjType::Inode), vec![30]),
        (jkey(3, JObjType::Xattr), vec![31]),
        (jkey(3, JObjType::Xattr), vec![32]),
        (jkey(5, JObjType::DirRec), vec![50]),
    ];
    let (catalog, mut reader) = catalog_on(&records);
    for obj_id in 2u64..7 {
        let walked = catalog.records_for(&mut reader, obj_id).unwrap();
        for kind in [JObjType::Inode, JObjType::Xattr, JObjType::DirRec] {
            let values: Vec<Vec<u8>> = walked
                .iter()
                .filter(|r| r.key_header.kind == kind)
                .map(|r| r.value.clone())
                .collect();
            match catalog.find_record(&mut reader, obj_id, kind).unwrap() {
                Some(value) => assert!(values.contains(&value)),
                None => assert!(values.is_empty()),
            }
        }
    }
}

#[test]
fn snapshots_are_listed_oldest_first() {
    let value = |name: &str| {
        let mut v = vec![0u8; J_SNAP_METADATA_VAL_SIZE];
        v[48..50].copy_from_slice(&(name.len() as u16).to_le_bytes());
        v.extend_from_slice(name.as_bytes());
        v
    };
    let records = [
        (jkey(5, JObjType::SnapMetadata), value("five")),
        (jkey(7, JObjType::SnapMetadata), value("seven")),
        (jkey(30, JObjType::SnapMetadata), value("thirty")),
    ];
    let (tree, mut reader) = catalog_on(&records);
    let listed = Snapshot::list(&tree, &mut reader).unwrap();
    let heads: Vec<(u64, &str)> = listed.iter().map(|s| (s.xid, s.name.as_str())).collect();
    assert_eq!(heads, vec![(5, "five"), (7, "seven"), (30, "thirty")]);
}

// --- Reads -------------------------------------------------------------

#[test]
fn memory_reads_give_the_bytes_or_the_end_of_the_data() {
    let mut reader = Cursor::new((0u8..10).collect());
    assert_eq!(read_vec_at(&mut reader, 3, 4).unwrap(), vec![3, 4, 5, 6]);
    assert_eq!(read_vec_at(&mut reader, 10, 0).unwrap(), Vec::<u8>::new());
    assert_eq!(
        read_vec_at(&mut reader, 8, 3).unwrap_err().kind(),
        ErrorKind::UnexpectedEof
    );
}

fn holed_file() -> (File, Cursor) {
    let mut image = vec![0u8; 4 * BLK];
    for (i, byte) in image.iter_mut().enumerate() {
        *byte = (i % 251) as u8;
    }
    let extent = |logical_addr: u64, length: u64, phys_block_num: u64| FileExtent {
        logical_addr,
        length,
        phys_block_num,
        crypto_id: 0,
    };
    let extents = vec![extent(0, 4096, 3), extent(8192, 8192, 1)];
    (File::from_extents(15_000, extents), Cursor::new(image))
}

#[test]
fn a_file_read_in_parts_is_the_file_read_at_once() {
    let (file, mut reader) = holed_file();
    let whole = file.read_all(&mut reader, BLOCK_SIZE).unwrap();
    assert_eq!(whole.len(), 15_000);
    assert_eq!(whole[0], (3 * BLK % 251) as u8);
    assert!(whole[4096..8192].iter().all(|&b| b == 0));
    assert_eq!(whole[8192], (BLK % 251) as u8);
    for step in [1usize, 7, 4096, 5000, 20_000] {
        let mut parts = Vec::new();
        while parts.len() < whole.len() {
            let mut buf = vec![0u8; step];
            let n = file
                .read_at(&mut reader, BLOCK_SIZE, parts.len() as u64, &mut buf)
                .unwrap();
            assert!(n > 0);
            parts.extend_from_slice(&buf[..n]);
        }
        assert_eq!(parts, whole, "step {step}");
    }
}

#[test]
fn a_read_at_an_offset_is_a_part_of_the_whole() {
    let (file, mut reader) = holed_file();
    let whole = file.read_all(&mut reader, BLOCK_SIZE).unwrap();
    for offset in [0usize, 1, 4095, 4096, 8191, 8192, 14_999, 15_000] {
        for len in [0usize, 1, 4096, 9000] {
            let mut buf = vec![0u8; len];
            let n = file
                .read_at(&mut reader, BLOCK_SIZE, offset as u64, &mut buf)
                .unwrap();
            assert_eq!(n, len.min(15_000 - offset));
            assert_eq!(buf[..n], whole[offset..offset + n]);
        }
    }
}

#[test]
fn an_empty_extent_hides_no_bytes() {
    let image: Vec<u8> = (0..4 * BLK).map(|i| (i % 251) as u8).collect();
    let mut reader = Cursor::new(image.clone());
    let extent = |logical_addr: u64, length: u64, phys_block_num: u64| FileExtent {
        logical_addr,
        length,
        phys_block_num,
        crypto_id: 0,
    };
    // An empty extent at the start of another one, and one inside it.
    for empty in [extent(20, 0, 1), extent(24, 0, 1)] {
        let file =
            File::from_extents(40, vec![extent(0, 10, 1), extent(20, 10, 2), empty]);
        let whole = file.read_all(&mut reader, BLOCK_SIZE).unwrap();
        assert_eq!(whole.len(), 40);
        assert_eq!(whole[..10], image[BLK..BLK + 10]);
        assert_eq!(whole[10..20], [0u8; 10]);
        assert_eq!(whole[20..30], image[2 * BLK..2 * BLK + 10]);
        assert_eq!(whole[30..], [0u8; 10]);
        for offset in 0..40usize {
            let mut buf = [0xFFu8; 7];
            let n = file
                .read_at(&mut reader, BLOCK_SIZE, offset as u64, &mut buf)
                .unwrap();
            assert_eq!(n, 7.min(40 - offset));
            assert_eq!(buf[..n], whole[offset..offset + n], "offset {offset}");
        }
    }
}

/// A source whose every read fails.
struct Failing(ErrorKind);

impl Reader for Failing {
    fn read(&mut self, _buf: &mut [u8]) -> Result<usize, Error> {
        Err(Error::new(self.0))
    }

    fn seek(&mut self, _pos: SeekFrom) -> Result<u64, Error> {
        Ok(0)
    }
}

#[test]
fn the_kind_of_a_read_error_is_kept() {
    for kind in [
        ErrorKind::PermissionDenied,
        ErrorKind::NotFound,
        ErrorKind::TimedOut,
        ErrorKind::Unsupported,
        ErrorKind::Other,
    ] {
        let error = Apfs::new(&mut Failing(kind)).unwrap_err();
        assert_eq!(error.io_kind(), Some(kind));
        assert_eq!(is_apfs_container(&mut Failing(kind)).unwrap_err().io_kind(), Some(kind));
        assert_eq!(Error::from(error).kind(), kind);
    }
    assert!(!is_apfs_container(&mut Failing(ErrorKind::UnexpectedEof)).unwrap());
}

#[test]
fn an_extent_behind_the_image_is_an_input_error() {
    let extents = vec![FileExtent {
        logical_addr: 0,
        length: 4096,
        phys_block_num: 9,
        crypto_id: 0,
    }];
    let file = File::from_extents(100, extents);
    let mut reader = Cursor::new(vec![0u8; BLK]);
    match file.read_all(&mut reader, BLOCK_SIZE) {
        Err(ApfsError::Io(error)) => assert_eq!(error.kind(), ErrorKind::UnexpectedEof),
        other => panic!("expected Io, got {other:?}"),
    }
}

// --- Fusion ------------------------------------------------------------

#[test]
fn a_cache_gives_the_copies_of_its_list() {
    let entry = |wbc_lba: i64, target_lba: i64, length: u64| FusionWbcEntry {
        wbc_lba,
        target_lba,
        length,
    };
    let list = FusionWbcList {
        entries: vec![entry(500, 40, 4), entry(700, 10, 0), entry(100, 20, 30)],
    };
    let cache = FusionCache::from_wbc_list(&list);
    for target in 0i64..60 {
        let copy = list.cached_copy(target).map(|block| block as u64);
        assert_eq!(cache.cached_block(target as u64), copy, "block {target}");
    }
    assert_eq!(cache.cached_block(41), Some(501));
    assert_eq!(cache.cached_block(45), Some(125));
}

// --- Checksums, sizes, types ------------------------------------------

#[test]
fn a_sealed_block_verifies_until_its_checksum_changes() {
    for len in [0usize, 4, 8, 4088] {
        let body: Vec<u8> = (0..len).map(|i| (i * 3 + 1) as u8).collect();
        let mut block = fletcher64(&body).to_le_bytes().to_vec();
        block.extend_from_slice(&body);
        assert!(verify_block(&block));
        for at in 0..8 {
            let mut altered = block.clone();
            altered[at] ^= 0x40;
            assert!(!verify_block(&altered));
        }
    }
}

#[test]
fn block_sizes_are_the_powers_of_two_in_range() {
    for size in [512u32, 4095, 4096, 5000, 8192, 16384, 32768, 65535, 65536, 131_072] {
        let mut block = vec![0u8; BLK];
        block[0x18..0x1C].copy_from_slice(&(OBJ_EPHEMERAL | 0x01).to_le_bytes());
        block[0x20..0x24].copy_from_slice(&NX_MAGIC.to_le_bytes());
        block[0x24..0x28].copy_from_slice(&size.to_le_bytes());
        block[0x28..0x30].copy_from_slice(&100u64.to_le_bytes());
        let parsed = NxSuperblock::parse(&block);
        let expected = size.is_power_of_two() && (4096..=65536).contains(&size);
        assert_eq!(parsed.is_ok(), expected, "size {size}");
    }
}

#[test]
fn object_types_are_told_apart() {
    let decoded: Vec<ObjectType> = (0u32..0x30).map(ObjectType::from_type_field).collect();
    for i in 0..decoded.len() {
        for j in 0..i {
            assert_ne!(decoded[i], decoded[j]);
        }
        let flagged = ObjectType::from_type_field(0xC000_0000 | i as u32);
        assert_eq!(flagged, decoded[i]);
    }
}

#[test]
fn timestamp_parts_make_up_the_timestamp() {
    for nanos in [0u64, 999_999_999, 1_000_000_000, u64::MAX] {
        let ts = ApfsTimestamp(nanos);
        let parts = ts.as_secs() * 1_000_000_000 + u64::from(ts.subsec_nanos());
        assert_eq!(parts, nanos);
        let chrono = ts.to_chrono().unwrap().and_utc();
        assert_eq!(chrono.timestamp() as u64, ts.as_secs());
        assert_eq!(chrono.timestamp_subsec_nanos(), ts.subsec_nanos());
        let time = ts.to_time().unwrap();
        assert_eq!(time.unix_timestamp() as u64, ts.as_secs());
    }
}

// --- Outside computations ---------------------------------------------

fn hex(bytes: &[u8]) -> String {
    bytes.iter().map(|b| format!("{b:02x}")).collect()
}

#[test]
fn digests_match_the_published_vectors() {
    let digest = |hash: ApfsHashType| hex(&hash.digest(b"abc").unwrap());
    assert_eq!(
        digest(ApfsHashType::Sha256),
        "ba7816bf8f01cfea414140de5dae2223b00361a396177a9cb410ff61f20015ad"
    );
    assert_eq!(
        digest(ApfsHashType::Sha512_256),
        "53048e2681941ef99b2e29b76b4c7dabe4c2d0c634fc6d46e0e2f13107e7af23"
    );
    assert_eq!(
        digest(ApfsHashType::Sha384),
        "cb00753f45a35e8bb5a03d699ac65007272c32ab0eded1631a8b605a43ff5bed\
         8086072ba1e7cc2358baeca134c825a7"
    );
    assert_eq!(
        digest(ApfsHashType::Sha512),
        "ddaf35a193617abacc417349ae20413112e6fa4e89a97ea20a9eeee64b55d39a\
         2192992a274fc1a836ba3c23a3feebbd454d4423643ce80e2a9ac94fa54ca49f"
    );
    for hash in [
        ApfsHashType::Sha256,
        ApfsHashType::Sha512_256,
        ApfsHashType::Sha384,
        ApfsHashType::Sha512,
    ] {
        assert_eq!(hash.digest(b"abc").unwrap().len(), hash.hash_size().unwrap());
    }
}

#[test]
fn folding_decomposes_and_lowercases() {
    assert_eq!(normalize_fold("\u{00C9}A", true), vec!['e', '\u{0301}', 'a']);
    assert_eq!(normalize_fold("\u{00C9}A", false), vec!['E', '\u{0301}', 'A']);
    assert!(normalize_fold("", true).is_empty());
}

#[test]
fn the_case_of_ascii_names_is_ignored() {
    let folded: Vec<char> = "read-me.txt".chars().collect();
    assert_eq!(normalize_fold("Read-ME.txt", true), folded);
    assert_eq!(name_hash("Read-ME.txt", true), name_hash("read-me.TXT", true));
    assert_ne!(name_hash("Read-ME.txt", false), name_hash("read-me.TXT", false));

    // A hashed key whose hash word holds the length alone.
    let stored = "Read-ME.txt";
    let mut key = jkey(2, JObjType::DirRec);
    key.extend_from_slice(&(stored.len() as u32 + 1).to_le_bytes());
    key.extend_from_slice(stored.as_bytes());
    key.push(0);
    let mut value = vec![0u8; 18];
    value[0..8].copy_from_slice(&77u64.to_le_bytes());
    let (catalog, mut reader) = catalog_on(&[(key, value)]);
    let comparison = |case_insensitive: bool| NameComparison { hashed: true, case_insensitive };
    let dir = Directory::new(&catalog, 2, comparison(true));
    for name in ["Read-ME.txt", "READ-ME.TXT", "read-me.txt"] {
        let found = dir.lookup(&mut reader, name).unwrap().unwrap();
        assert_eq!(found.file_id, 77);
        assert_eq!(found.name, stored);
    }
    assert_eq!(dir.lookup(&mut reader, "read_me.txt").unwrap(), None);
    let dir = Directory::new(&catalog, 2, comparison(false));
    assert_eq!(dir.lookup(&mut reader, "read-me.txt").unwrap(), None);
}

#[test]
fn stored_text_is_read_back() {
    for name in ["plain", "caf\u{e9}", "\u{65e5}\u{672c}", "\u{1f4be} disk", ""] {
        let entry = DirEntry::from_record(&record(drec(2, name, 5)), false).unwrap();
        assert_eq!(entry.name, name);
    }
}

#[test]
fn invalid_utf8_in_a_name_is_replaced() {
    let mut key = jkey(2, JObjType::DirRec);
    key.extend_from_slice(&4u16.to_le_bytes());
    key.extend_from_slice(b"a\xFFb\0");
    let (name, _) = fs_apfs::directory::parse_drec_name(&key, false).unwrap();
    assert_eq!(name, "a\u{FFFD}b");
}

// --- Recovery ----------------------------------------------------------

fn inode_value(parent_id: u64, private_id: u64) -> Vec<u8> {
    let mut value = vec![0u8; J_INODE_VAL_SIZE];
    value[0..8].copy_from_slice(&parent_id.to_le_bytes());
    value[8..16].copy_from_slice(&private_id.to_le_bytes());
    value
}

fn drec(dir_id: u64, name: &str, child: u64) -> (Vec<u8>, Vec<u8>) {
    let mut key = jkey(dir_id, JObjType::DirRec);
    key.extend_from_slice(&(name.len() as u16 + 1).to_le_bytes());
    key.extend_from_slice(name.as_bytes());
    key.push(0);
    let mut value = vec![0u8; 18];
    value[0..8].copy_from_slice(&child.to_le_bytes());
    (key, value)
}

fn extent(stream: u64, phys: u64) -> (Vec<u8>, Vec<u8>) {
    let mut key = jkey(stream, JObjType::FileExtent);
    key.extend(word(0));
    let mut value = word(4096);
    value.extend(word(phys));
    value.extend(word(0));
    (key, value)
}

fn record(parts: (Vec<u8>, Vec<u8>)) -> CatalogRecord {
    CatalogRecord {
        key_header: JKey::parse(&parts.0).unwrap(),
        key: parts.0,
        value: parts.1,
    }
}

#[test]
fn orphans_are_grouped_in_order_and_bad_records_are_skipped() {
    let good = |extra: Vec<CatalogRecord>| {
        let mut second = vec![
            record((jkey(4, JObjType::Inode), inode_value(2, 30))),
            record(drec(2, "late", 9)),
            record(drec(2, "later", 9)),
        ];
        second.extend(extra);
        vec![
            OrphanedNode {
                block: 11,
                records: vec![record(extent(30, 77)), record(extent(50, 78))],
            },
            OrphanedNode {
                block: 12,
                records: second,
            },
        ]
    };
    let plain = group_orphans(&good(Vec::new()));
    assert_eq!(
        plain.iter().map(|o| o.obj_id).collect::<Vec<_>>(),
        vec![4, 9, 50]
    );
    // The inode claims stream 30, whose extent was found first; stream 50 stands
    // alone, the first name wins.
    assert_eq!(plain[0].extents[0].phys_block_num, 77);
    assert_eq!(plain[0].provenance, Provenance::Unallocated(11));
    assert_eq!(plain[1].name.as_deref(), Some("late"));
    assert!(!plain[1].has_inode());
    assert_eq!(plain[2].extents[0].phys_block_num, 78);
    assert_eq!(plain[2].provenance, Provenance::Unallocated(11));

    // A short extent value and a short directory value change nothing.
    let (extent_key, _) = extent(60, 1);
    let (drec_key, _) = drec(2, "bad", 70);
    let noisy = group_orphans(&good(vec![
        record((extent_key, vec![0u8; 3])),
        record((drec_key, vec![0u8; 3])),
        record((jkey(80, JObjType::SiblingMap), word(1))),
        record((jkey(81, JObjType::Inode), Vec::new())),
        record((jkey(82, JObjType::Xattr), vec![0u8; 3])),
    ]));
    assert_eq!(
        noisy.iter().map(|o| o.obj_id).collect::<Vec<_>>(),
        vec![4, 9, 50]
    );
}

#[test]
fn extents_of_a_clone_and_of_its_own_stream_are_both_joined() {
    let objects = group_orphans(&[OrphanedNode {
        block: 600,
        records: vec![
            record((jkey(9, JObjType::Inode), inode_value(2, 77))),
            record(extent(77, 88)),
            record(extent(9, 99)),
        ],
    }]);
    assert_eq!(objects.len(), 1);
    assert_eq!(objects[0].obj_id, 9);
    assert!(objects[0].has_inode());
    let blocks: Vec<u64> = objects[0].extents.iter().map(|e| e.phys_block_num).collect();
    assert_eq!(blocks, vec![88, 99]);
    assert_eq!(objects[0].provenance, Provenance::Unallocated(600));
}

#[test]
fn an_object_comes_from_the_block_of_its_first_record() {
    let extents = OrphanedNode {
        block: 500,
        records: vec![record(extent(9, 42))],
    };
    let inode = OrphanedNode {
        block: 600,
        records: vec![record((jkey(9, JObjType::Inode), inode_value(2, 9)))],
    };
    let found = group_orphans(&[extents.clone(), inode.clone()]);
    assert_eq!(found.len(), 1);
    assert_eq!(found[0].provenance, Provenance::Unallocated(500));
    assert_eq!(found[0].extents[0].phys_block_num, 42);
    let found = group_orphans(&[inode, extents]);
    assert_eq!(found[0].provenance, Provenance::Unallocated(600));
}

#[test]
fn an_inode_that_cannot_be_decoded_gives_no_candidate() {
    let objects = group_orphans(&[OrphanedNode {
        block: 600,
        records: vec![record((jkey(9, JObjType::Inode), Vec::new()))],
    }]);
    assert!(objects.is_empty());
}

#[test]
fn a_parent_cycle_ends_the_path() {
    // Inodes 8 and 9 name each other as parent.
    let (live, _) = catalog_on(&[]);
    let snapshot_records = [
        (jkey(8, JObjType::Inode), inode_value(9, 8)),
        drec(8, "nine", 9),
        (jkey(9, JObjType::Inode), inode_value(8, 9)),
        drec(9, "eight", 8),
    ];
    let mut image = omap_phys(1);
    image.extend(fixed_node(0x0003, (16, 16), &[omap_entry(100, 1, 2), omap_entry(200, 1, 3)]));
    image.extend(variable_node(0x0003, &[]));
    image.extend(variable_node(0x0003, &snapshot_records));
    let omap = Omap::parse(&image[..BLK]).unwrap();
    let snapshot = Catalog::new(Oid(200), omap, BLOCK_SIZE, Xid(1));
    let mut reader = Cursor::new(image);
    let deleted = diff_snapshot(&mut reader, &live, &snapshot, 5).unwrap();
    assert_eq!(deleted.iter().map(|d| d.obj_id).collect::<Vec<_>>(), vec![8, 9]);
    for file in &deleted {
        assert!(file.path.len() <= fs_apfs::recovery::MAX_PATH_DEPTH);
        assert_eq!(file.provenance, Provenance::Snapshot(5));
    }
}

// --- Space manager -----------------------------------------------------

/// A container of eight blocks: the space manager, a chunk-info block, a bitmap,
/// and five more, with the blocks of `bits` allocated.
fn small_device(bits: u8) -> (SpaceManager, Vec<u8>) {
    let mut sm = vec![0u8; BLK];
    sm[0x20..0x24].copy_from_slice(&BLOCK_SIZE.to_le_bytes());
    sm[0x24..0x28].copy_from_slice(&8u32.to_le_bytes());
    sm[0x28..0x2C].copy_from_slice(&1u32.to_le_bytes());
    let free = 8 - u64::from(bits.count_ones());
    let dev = SM_DEV_OFFSET;
    sm[dev..dev + 8].copy_from_slice(&8u64.to_le_bytes());
    sm[dev + 8..dev + 16].copy_from_slice(&1u64.to_le_bytes());
    sm[dev + 16..dev + 20].copy_from_slice(&1u32.to_le_bytes());
    sm[dev + 24..dev + 32].copy_from_slice(&free.to_le_bytes());
    let addr = SM_DEV_OFFSET + SD_COUNT * SPACEMAN_DEVICE_SIZE;
    sm[dev + 32..dev + 36].copy_from_slice(&(addr as u32).to_le_bytes());
    sm[addr..addr + 8].copy_from_slice(&1u64.to_le_bytes());
    let mut cib = vec![0u8; BLK];
    let ci = CIB_CHUNK_INFO_OFFSET;
    cib[ci + 16..ci + 20].copy_from_slice(&8u32.to_le_bytes());
    cib[ci + 20..ci + 24].copy_from_slice(&(free as u32).to_le_bytes());
    cib[ci + 24..ci + 32].copy_from_slice(&2u64.to_le_bytes());
    let mut bitmap = vec![0u8; BLK];
    bitmap[0] = bits;
    let parsed = SpaceManager::parse(sm.clone()).unwrap();
    let mut image = sm;
    image.extend(cib);
    image.extend(bitmap);
    (parsed, image)
}

#[test]
fn free_extents_are_the_blocks_that_are_not_allocated() {
    for bits in 0u8..=255 {
        let (sm, image) = small_device(bits);
        let mut reader = Cursor::new(image);
        let extents = sm.free_extents(&mut reader).unwrap();
        let mut listed = Vec::new();
        for run in &extents {
            listed.extend(run.start..run.start + run.length);
        }
        let mut free = Vec::new();
        for block in 0..8u64 {
            if !sm.is_allocated(&mut reader, block).unwrap() {
                free.push(block);
            }
        }
        assert_eq!(listed, free, "bits {bits:08b}");
        assert_eq!(listed.len() as u64, sm.free_blocks());
    }
}

/// A device of `blocks` blocks in chunks of eight, all listed in one chunk-info
/// block, without bitmaps; chunk number `used` is allocated.
fn chunked_device(blocks: u64, used: u64) -> (SpaceManager, Vec<u8>) {
    let chunks = blocks.div_ceil(8);
    let mut sm = vec![0u8; BLK];
    sm[0x20..0x24].copy_from_slice(&BLOCK_SIZE.to_le_bytes());
    sm[0x24..0x28].copy_from_slice(&8u32.to_le_bytes());
    sm[0x28..0x2C].copy_from_slice(&100u32.to_le_bytes());
    let dev = SM_DEV_OFFSET;
    sm[dev..dev + 8].copy_from_slice(&blocks.to_le_bytes());
    sm[dev + 8..dev + 16].copy_from_slice(&chunks.to_le_bytes());
    sm[dev + 16..dev + 20].copy_from_slice(&1u32.to_le_bytes());
    let addr = SM_DEV_OFFSET + SD_COUNT * SPACEMAN_DEVICE_SIZE;
    sm[dev + 32..dev + 36].copy_from_slice(&(addr as u32).to_le_bytes());
    sm[addr..addr + 8].copy_from_slice(&1u64.to_le_bytes());
    let mut cib = vec![0u8; BLK];
    for chunk in 0..chunks {
        let held = (blocks - chunk * 8).min(8) as u32;
        let free = if chunk == used { 0 } else { held };
        let ci = CIB_CHUNK_INFO_OFFSET + chunk as usize * 32;
        cib[ci + 16..ci + 20].copy_from_slice(&held.to_le_bytes());
        cib[ci + 20..ci + 24].copy_from_slice(&free.to_le_bytes());
    }
    let parsed = SpaceManager::parse(sm.clone()).unwrap();
    let mut image = sm;
    image.extend(cib);
    (parsed, image)
}

#[test]
fn free_extents_end_with_a_short_last_chunk() {
    for (blocks, used) in [(20u64, 9u64), (20, 0), (20, 1), (20, 2), (24, 1), (3, 5), (0, 0)] {
        let (sm, image) = chunked_device(blocks, used);
        let mut reader = Cursor::new(image);
        let extents = sm.free_extents(&mut reader).unwrap();
        let mut listed = Vec::new();
        for (i, run) in extents.iter().enumerate() {
            assert!(run.length > 0);
            assert!(i == 0 || extents[i - 1].start + extents[i - 1].length < run.start);
            listed.extend(run.start..run.start + run.length);
        }
        let mut free = Vec::new();
        for block in 0..blocks {
            if !sm.is_allocated(&mut reader, block).unwrap() {
                free.push(block);
            }
        }
        assert_eq!(listed, free, "{blocks} blocks, chunk {used} allocated");
    }
}

#[test]
fn a_scan_skips_allocated_blocks_and_stops_at_the_device_end() {
    // The same leaf in blocks 5 and 6; block 6 is allocated.
    let (sm, mut image) = small_device(0b0100_0111);
    image.extend(vec![0u8; 2 * BLK]);
    let mut leaf = variable_node(
        0x0002,
        &[(jkey(42, JObjType::Inode), inode_value(2, 42))],
    );
    leaf[0x18..0x1C].copy_from_slice(&0x03u32.to_le_bytes());
    leaf[0x1C..0x20].copy_from_slice(&0x0Eu32.to_le_bytes());
    let sum = fletcher64(&leaf[8..]);
    leaf[..8].copy_from_slice(&sum.to_le_bytes());
    image.extend(leaf.clone());
    image.extend(leaf);
    image.extend(vec![0u8; BLK]);
    let mut reader = Cursor::new(image);
    let found = scan_unallocated(&mut reader, &sm, 0, 1000).unwrap();
    assert_eq!(found.iter().map(|n| n.block).collect::<Vec<_>>(), vec![5]);
    assert_eq!(found[0].records[0].key_header.obj_id, 42);
    assert!(OBJ_PHYS_SIZE < found[0].records[0].value.len());
    assert!(scan_unallocated(&mut reader, &sm, 6, 5).unwrap().is_empty());
}
