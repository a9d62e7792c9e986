use fs_apfs::error::ApfsError;
use fs_apfs::inode::{FileType, Inode, InodeFlags, J_INODE_VAL_SIZE};

/// Builds a `j_inode_val_t` value with the given mode, flags, and link
/// field, plus `xfield_bytes` of trailing extended-field data.
fn inode_value(mode: u16, flags: u64, link: i32, xfield_bytes: &[u8]) -> Vec<u8> {
    let mut v = vec![0u8; J_INODE_VAL_SIZE];
    v[0x00..0x08].copy_from_slice(&7u64.to_le_bytes()); // parent_id
    v[0x08..0x10].copy_from_slice(&7u64.to_le_bytes()); // private_id
    v[0x10..0x18].copy_from_slice(&1_000u64.to_le_bytes()); // create_time
    v[0x18..0x20].copy_from_slice(&2_000u64.to_le_bytes()); // mod_time
    v[0x30..0x38].copy_from_slice(&flags.to_le_bytes()); // internal_flags
    v[0x38..0x3C].copy_from_slice(&link.to_le_bytes()); // nchildren/nlink
    v[0x48..0x4C].copy_from_slice(&501u32.to_le_bytes()); // owner
    v[0x4C..0x50].copy_from_slice(&20u32.to_le_bytes()); // group
    v[0x50..0x52].copy_from_slice(&mode.to_le_bytes()); // mode
    v[0x54..0x5C].copy_from_slice(&4096u64.to_le_bytes()); // uncompressed_size
    v.extend_from_slice(xfield_bytes);
    v
}

#[test]
fn fixed_inode_value_is_92_bytes() {
    assert_eq!(J_INODE_VAL_SIZE, 92);
}

#[test]
fn parses_a_directory_inode() {
    let value = inode_value(0o040_755, 0, 4, &[]);
    let inode = Inode::parse(&value).unwrap();
    assert_eq!(inode.file_type(), FileType::Directory);
    assert!(inode.is_directory());
    assert_eq!(inode.permissions(), 0o755);
    assert_eq!(inode.child_count(), 4);
    assert_eq!(inode.owner, 501);
    assert_eq!(inode.create_time, 1_000);
}

#[test]
fn parses_a_regular_file_inode_with_flags() {
    let flags = InodeFlags::IS_SPARSE | InodeFlags::WAS_EVER_CLONED;
    let value = inode_value(0o100_644, flags, 2, &[]);
    let inode = Inode::parse(&value).unwrap();
    assert_eq!(inode.file_type(), FileType::Regular);
    assert!(!inode.is_directory());
    assert_eq!(inode.link_count(), 2);
    assert!(inode.flags.contains(InodeFlags::IS_SPARSE));
    assert!(inode.flags.contains(InodeFlags::WAS_EVER_CLONED));
}

#[test]
fn file_type_decodes_each_posix_type() {
    assert_eq!(FileType::from_mode(0o010_000), FileType::Fifo);
    assert_eq!(FileType::from_mode(0o020_644), FileType::CharDevice);
    assert_eq!(FileType::from_mode(0o060_644), FileType::BlockDevice);
    assert_eq!(FileType::from_mode(0o120_777), FileType::Symlink);
    assert_eq!(FileType::from_mode(0o140_000), FileType::Socket);
}

#[test]
fn xfields_region_is_captured() {
    let value = inode_value(0o100_644, 0, 1, &[0xDE, 0xAD, 0xBE, 0xEF]);
    let inode = Inode::parse(&value).unwrap();
    assert_eq!(inode.xfields, vec![0xDE, 0xAD, 0xBE, 0xEF]);
}

#[test]
fn truncated_inode_value_is_rejected() {
    assert!(matches!(
        Inode::parse(&[0u8; 20]),
        Err(ApfsError::Truncated { .. })
    ));
}
