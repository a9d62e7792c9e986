//! Inode records (`j_inode_val_t`): the core metadata of every file and
//! directory on a volume.

use vstd::prelude::*;

use crate::bytes;
use crate::catalog;
use crate::catalog::{Catalog, JObjType};
use crate::error;
use crate::error::ApfsError;
use crate::io::{Device, Reader};
use crate::time::ApfsTimestamp;

verus! {

/// The invalid inode number.
pub const INVALID_INO_NUM: u64 = 0;

/// Inode number used as the parent of the root directory.
pub const ROOT_DIR_PARENT: u64 = 1;

/// Inode number of the volume root directory.
pub const ROOT_DIR_INO_NUM: u64 = 2;

/// Inode number of the private directory.
pub const PRIV_DIR_INO_NUM: u64 = 3;

/// Inode number of the snapshot directory.
pub const SNAP_DIR_INO_NUM: u64 = 6;

/// Inode number of the purgeable-data directory.
pub const PURGEABLE_DIR_INO_NUM: u64 = 7;

/// First inode number available for user files.
pub const MIN_USER_INO_NUM: u64 = 16;

/// Mask selecting the file-type bits of a `mode_t`.
pub const S_IFMT: u16 = 0o170_000;

/// Size of the fixed portion of `j_inode_val_t`.
pub const J_INODE_VAL_SIZE: usize = 92;

/// Inode flags (the `internal_flags` field).
#[derive(Debug, Clone, Copy, PartialEq, Eq, Structural)]
pub struct InodeFlags(pub u64);

impl InodeFlags {
    /// The inode is an APFS-internal object, hidden from users.
    pub const IS_APFS_PRIVATE: u64 = 0x0000_0001;

    /// The directory maintains a `DIR_STATS` record.
    pub const MAINTAIN_DIR_STATS: u64 = 0x0000_0002;

    /// The directory is the origin of its directory statistics.
    pub const DIR_STATS_ORIGIN: u64 = 0x0000_0004;

    /// The inode's protection class was set explicitly.
    pub const PROT_CLASS_EXPLICIT: u64 = 0x0000_0008;

    /// The inode was created by cloning another inode.
    pub const WAS_CLONED: u64 = 0x0000_0010;

    /// Unused flag bit.
    pub const FLAG_UNUSED: u64 = 0x0000_0020;

    /// The inode has a security (ACL) extended attribute.
    pub const HAS_SECURITY_EA: u64 = 0x0000_0040;

    /// The inode is being truncated.
    pub const BEING_TRUNCATED: u64 = 0x0000_0080;

    /// The inode has a Finder-info extended attribute.
    pub const HAS_FINDER_INFO: u64 = 0x0000_0100;

    /// The file is sparse.
    pub const IS_SPARSE: u64 = 0x0000_0200;

    /// The inode has been cloned at least once.
    pub const WAS_EVER_CLONED: u64 = 0x0000_0400;

    /// An active file was trimmed.
    pub const ACTIVE_FILE_TRIMMED: u64 = 0x0000_0800;

    /// The inode's storage is pinned to the main (fast) device.
    pub const PINNED_TO_MAIN: u64 = 0x0000_1000;

    /// The inode's storage is pinned to the secondary device.
    pub const PINNED_TO_TIER2: u64 = 0x0000_2000;

    /// The inode has a resource fork.
    pub const HAS_RSRC_FORK: u64 = 0x0000_4000;

    /// The inode explicitly has no resource fork.
    pub const NO_RSRC_FORK: u64 = 0x0000_8000;

    /// The inode's allocation has spilled over to another volume.
    pub const ALLOCATION_SPILLEDOVER: u64 = 0x0001_0000;

    /// The inode is a candidate for fast promotion to the fast device.
    pub const FAST_PROMOTE: u64 = 0x0002_0000;

    /// The `uncompressed_size` field is populated.
    pub const HAS_UNCOMPRESSED_SIZE: u64 = 0x0004_0000;

    /// The inode is purgeable.
    pub const IS_PURGEABLE: u64 = 0x0008_0000;

    /// The inode wants to become purgeable.
    pub const WANTS_TO_BE_PURGEABLE: u64 = 0x0010_0000;

    /// The inode is a sync-root.
    pub const IS_SYNC_ROOT: u64 = 0x0020_0000;

    /// The inode is exempt from snapshot copy-on-write.
    pub const SNAPSHOT_COW_EXEMPTION: u64 = 0x0040_0000;

    /// The raw bits of the set.
    #[must_use]
    pub fn bits(self) -> (bits: u64)
        ensures
            bits == self.0,
    {
        self.0
    }

    /// The set with the given bits, known or not.
    #[must_use]
    pub fn from_bits_retain(bits: u64) -> (flags: InodeFlags)
        ensures
            flags == InodeFlags(bits),
    {
        InodeFlags(bits)
    }

    /// Whether every bit of `flag` is set.
    pub open spec fn has(self, flag: u64) -> bool {
        self.0 & flag == flag
    }

    /// Whether every bit of `flag` is set.
    #[must_use]
    pub fn contains(self, flag: u64) -> (set: bool)
        ensures
            set == self.has(flag),
    {
        self.0 & flag == flag
    }
}

/// The POSIX file type of an inode, decoded from the `S_IFMT` bits of `mode`.
#[derive(Debug, Clone, Copy, PartialEq, Eq, Structural)]
pub enum FileType {
    /// A named pipe (FIFO).
    Fifo,
    /// A character device.
    CharDevice,
    /// A directory.
    Directory,
    /// A block device.
    BlockDevice,
    /// A regular file.
    Regular,
    /// A symbolic link.
    Symlink,
    /// A socket.
    Socket,
    /// A whiteout entry.
    Whiteout,
    /// A mode whose type bits this parser does not recognize.
    Unknown(u16),
}

/// The file type that the type bits of `mode` select.
pub open spec fn file_type_of(mode: u16) -> FileType {
    let kind = mode & S_IFMT;
    if kind == 0o010_000 {
        FileType::Fifo
    } else if kind == 0o020_000 {
        FileType::CharDevice
    } else if kind == 0o040_000 {
        FileType::Directory
    } else if kind == 0o060_000 {
        FileType::BlockDevice
    } else if kind == 0o100_000 {
        FileType::Regular
    } else if kind == 0o120_000 {
        FileType::Symlink
    } else if kind == 0o140_000 {
        FileType::Socket
    } else if kind == 0o160_000 {
        FileType::Whiteout
    } else {
        FileType::Unknown(kind)
    }
}

impl FileType {
    /// Decodes the file type from a `mode_t` value.
    #[must_use]
    pub fn from_mode(mode: u16) -> (kind: FileType)
        ensures
            kind == file_type_of(mode),
    {
        match mode & S_IFMT {
            0o010_000 => FileType::Fifo,
            0o020_000 => FileType::CharDevice,
            0o040_000 => FileType::Directory,
            0o060_000 => FileType::BlockDevice,
            0o100_000 => FileType::Regular,
            0o120_000 => FileType::Symlink,
            0o140_000 => FileType::Socket,
            0o160_000 => FileType::Whiteout,
            other => FileType::Unknown(other),
        }
    }
}

/// A parsed APFS inode.
#[derive(Debug)]
pub struct Inode {
    /// Inode number of the parent directory of the primary link.
    pub parent_id: u64,
    /// Identifier used by this file's data stream.
    pub private_id: u64,
    /// Creation time, in nanoseconds since the Unix epoch.
    pub create_time: u64,
    /// Last content-modification time, in nanoseconds since the Unix epoch.
    pub mod_time: u64,
    /// Last attribute-change time, in nanoseconds since the Unix epoch.
    pub change_time: u64,
    /// Last access time, in nanoseconds since the Unix epoch.
    pub access_time: u64,
    /// Inode flags.
    pub flags: InodeFlags,
    /// For a directory, the number of children; otherwise the hard-link count.
    pub nchildren_or_nlink: i32,
    /// Default protection class for files created in this directory.
    pub default_protection_class: u32,
    /// BSD flags (`chflags(2)`).
    pub bsd_flags: u32,
    /// Owning user identifier.
    pub owner: u32,
    /// Owning group identifier.
    pub group: u32,
    /// POSIX mode (file type and permission bits).
    pub mode: u16,
    /// Uncompressed size, valid only with `HAS_UNCOMPRESSED_SIZE`.
    pub uncompressed_size: u64,
    /// The raw extended-fields region, parsed by the extended-fields module.
    pub xfields: Vec<u8>,
}

/// The content of an [`Inode`].
#[verifier::ext_equal]
pub struct InodeView {
    /// Inode number of the parent directory of the primary link.
    pub parent_id: u64,
    /// Identifier used by this file's data stream.
    pub private_id: u64,
    /// Creation time, in nanoseconds since the Unix epoch.
    pub create_time: u64,
    /// Last content-modification time, in nanoseconds since the Unix epoch.
    pub mod_time: u64,
    /// Last attribute-change time, in nanoseconds since the Unix epoch.
    pub change_time: u64,
    /// Last access time, in nanoseconds since the Unix epoch.
    pub access_time: u64,
    /// Inode flags.
    pub flags: InodeFlags,
    /// For a directory, the number of children; otherwise the hard-link count.
    pub nchildren_or_nlink: i32,
    /// Default protection class for files created in this directory.
    pub default_protection_class: u32,
    /// BSD flags (`chflags(2)`).
    pub bsd_flags: u32,
    /// Owning user identifier.
    pub owner: u32,
    /// Owning group identifier.
    pub group: u32,
    /// POSIX mode (file type and permission bits).
    pub mode: u16,
    /// Uncompressed size, valid only with `HAS_UNCOMPRESSED_SIZE`.
    pub uncompressed_size: u64,
    /// The raw extended-fields region, parsed by the extended-fields module.
    pub xfields: Seq<u8>,
}

impl View for Inode {
    type V = InodeView;

    open spec fn view(&self) -> InodeView {
        InodeView {
            parent_id: self.parent_id,
            private_id: self.private_id,
            create_time: self.create_time,
            mod_time: self.mod_time,
            change_time: self.change_time,
            access_time: self.access_time,
            flags: self.flags,
            nchildren_or_nlink: self.nchildren_or_nlink,
            default_protection_class: self.default_protection_class,
            bsd_flags: self.bsd_flags,
            owner: self.owner,
            group: self.group,
            mode: self.mode,
            uncompressed_size: self.uncompressed_size,
            xfields: self.xfields@,
        }
    }
}

impl Clone for Inode {
    fn clone(&self) -> (copy: Inode)
        ensures
            copy@ == self@,
    {
        Inode {
            parent_id: self.parent_id,
            private_id: self.private_id,
            create_time: self.create_time,
            mod_time: self.mod_time,
            change_time: self.change_time,
            access_time: self.access_time,
            flags: self.flags,
            nchildren_or_nlink: self.nchildren_or_nlink,
            default_protection_class: self.default_protection_class,
            bsd_flags: self.bsd_flags,
            owner: self.owner,
            group: self.group,
            mode: self.mode,
            uncompressed_size: self.uncompressed_size,
            xfields: vstd::slice::slice_to_vec(self.xfields.as_slice()),
        }
    }
}

/// The inode in a record value.
pub open spec fn inode_of(value: Seq<u8>) -> Result<InodeView, ApfsError> {
    if value.len() < J_INODE_VAL_SIZE {
        error::truncated("j_inode_val_t", J_INODE_VAL_SIZE as int, value.len())
    } else {
        Ok(
            InodeView {
                parent_id: bytes::le_u64(value, 0),
                private_id: bytes::le_u64(value, 8),
                create_time: bytes::le_u64(value, 16),
                mod_time: bytes::le_u64(value, 24),
                change_time: bytes::le_u64(value, 32),
                access_time: bytes::le_u64(value, 40),
                flags: InodeFlags(bytes::le_u64(value, 48)),
                nchildren_or_nlink: bytes::le_i32(value, 56),
                default_protection_class: bytes::le_u32(value, 60),
                bsd_flags: bytes::le_u32(value, 68),
                owner: bytes::le_u32(value, 72),
                group: bytes::le_u32(value, 76),
                mode: bytes::le_u16(value, 80),
                uncompressed_size: bytes::le_u64(value, 84),
                xfields: value.skip(J_INODE_VAL_SIZE as int),
            },
        )
    }
}

/// The inode of object `obj_id` in a catalog.
pub open spec fn inode_in(device: Device, catalog: Catalog, obj_id: u64) -> Result<
    Option<InodeView>,
    ApfsError,
> {
    match catalog::record_value(device, catalog, obj_id, JObjType::Inode) {
        Err(error) => Err(error),
        Ok(None) => Ok(None),
        Ok(Some(value)) => match inode_of(value) {
            Err(error) => Err(error),
            Ok(inode) => Ok(Some(inode)),
        },
    }
}

impl Inode {
    /// Parses an inode from a `j_inode_val_t` record value.
    pub fn parse(value: &[u8]) -> (parsed: Result<Inode, ApfsError>)
        ensures
            error::viewed(parsed) == inode_of(value@),
    {
        if value.len() < J_INODE_VAL_SIZE {
            return Err(
                ApfsError::Truncated {
                    structure: "j_inode_val_t",
                    expected: J_INODE_VAL_SIZE,
                    actual: value.len(),
                },
            );
        }
        Ok(
            Inode {
                parent_id: bytes::read_u64(value, 0),
                private_id: bytes::read_u64(value, 8),
                create_time: bytes::read_u64(value, 16),
                mod_time: bytes::read_u64(value, 24),
                change_time: bytes::read_u64(value, 32),
                access_time: bytes::read_u64(value, 40),
                flags: InodeFlags::from_bits_retain(bytes::read_u64(value, 48)),
                nchildren_or_nlink: bytes::read_i32(value, 56),
                default_protection_class: bytes::read_u32(value, 60),
                bsd_flags: bytes::read_u32(value, 68),
                owner: bytes::read_u32(value, 72),
                group: bytes::read_u32(value, 76),
                mode: bytes::read_u16(value, 80),
                uncompressed_size: bytes::read_u64(value, 84),
                xfields: vstd::slice::slice_to_vec(bytes::skip_bytes(value, J_INODE_VAL_SIZE)),
            },
        )
    }

    /// Looks up the inode for `obj_id` in a volume catalog.
    ///
    /// There is none when the object has no inode record.
    pub fn lookup<T: Reader>(catalog: &Catalog, reader: &mut T, obj_id: u64) -> (found: Result<
        Option<Inode>,
        ApfsError,
    >)
        ensures
            final(reader).device() == old(reader).device(),
            error::viewed_option(found) == inode_in(old(reader).device(), *catalog, obj_id),
    {
        match catalog.find_record(reader, obj_id, JObjType::Inode) {
            Err(error) => Err(error),
            Ok(None) => Ok(None),
            Ok(Some(value)) => match Inode::parse(value.as_slice()) {
                Err(error) => Err(error),
                Ok(inode) => Ok(Some(inode)),
            },
        }
    }

    /// The inode's POSIX file type.
    #[must_use]
    pub fn file_type(&self) -> (kind: FileType)
        ensures
            kind == file_type_of(self.mode),
    {
        FileType::from_mode(self.mode)
    }

    /// Whether the inode is a directory.
    #[must_use]
    pub fn is_directory(&self) -> (directory: bool)
        ensures
            directory == (file_type_of(self.mode) == FileType::Directory),
    {
        self.file_type() == FileType::Directory
    }

    /// The POSIX permission bits of `mode` (the low 12 bits).
    #[must_use]
    pub fn permissions(&self) -> (permissions: u16)
        ensures
            permissions == self.mode % 0o10000,
    {
        self.mode % 0o10000
    }

    /// The number of children of a directory inode.
    ///
    /// Meaningful only when [`Inode::is_directory`] is true.
    #[must_use]
    pub fn child_count(&self) -> (count: i32)
        ensures
            count == self.nchildren_or_nlink,
    {
        self.nchildren_or_nlink
    }

    /// The hard-link count of a non-directory inode.
    ///
    /// Meaningful only when [`Inode::is_directory`] is false.
    #[must_use]
    pub fn link_count(&self) -> (count: i32)
        ensures
            count == self.nchildren_or_nlink,
    {
        self.nchildren_or_nlink
    }

    /// The inode's creation time.
    #[must_use]
    pub fn created(&self) -> (timestamp: ApfsTimestamp)
        ensures
            timestamp == ApfsTimestamp(self.create_time),
    {
        ApfsTimestamp(self.create_time)
    }

    /// The inode's last content-modification time.
    #[must_use]
    pub fn modified(&self) -> (timestamp: ApfsTimestamp)
        ensures
            timestamp == ApfsTimestamp(self.mod_time),
    {
        ApfsTimestamp(self.mod_time)
    }

    /// The inode's last attribute-change time.
    #[must_use]
    pub fn changed(&self) -> (timestamp: ApfsTimestamp)
        ensures
            timestamp == ApfsTimestamp(self.change_time),
    {
        ApfsTimestamp(self.change_time)
    }

    /// The inode's last access time.
    #[must_use]
    pub fn accessed(&self) -> (timestamp: ApfsTimestamp)
        ensures
            timestamp == ApfsTimestamp(self.access_time),
    {
        ApfsTimestamp(self.access_time)
    }
}

} // verus!
