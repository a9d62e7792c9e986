//! A verified low-level Apple File System (APFS) parser.
//!
//! An APFS *container* is a space-management pool that can hold several
//! *volumes*. It is copy-on-write, organizes file-system records in B-trees, and
//! supports snapshots, cloning, per-file encryption, and sealed
//! (integrity-verified) volumes. This crate mounts containers, selects the latest
//! valid checkpoint, resolves virtual objects through object maps, walks the
//! catalog B-tree, reads file content, and recovers deleted files. It never
//! writes.
//!
//! # Layers
//!
//! - The container layer (`nx_` prefix) organizes physical space: the container
//!   superblock, checkpoints, the space manager, and volume metadata.
//! - The file-system layer (`j_` prefix) holds directories, inodes, file metadata
//!   and file content as key/value records in B-trees.
//!
//! # How results are stated
//!
//! What a parser makes of its bytes is a spec function from the bytes to the
//! parsed value or the error, and the parser's contract equates the two. A reader
//! has a [`io::Device`], which says what it answers at every place; everything
//! that is read through it is a function of the device. Names that begin with
//! `law_` state what holds across functions: that a descent finds what the whole
//! tree holds, that the pieces of a file read in turn are the file, that the free
//! extents are the free blocks.

pub mod agreement;
pub mod apfs;
pub mod btree;
pub mod bytes;
pub mod catalog;
pub mod checkpoint;
pub mod checksum;
pub mod clones;
pub mod container;
pub mod directory;
pub mod efi;
pub mod enc_rolling;
pub mod error;
pub mod extended_field;
pub mod extent;
pub mod fext;
pub mod forensic;
pub mod fusion;
pub mod index;
pub mod inode;
pub mod io;
pub mod keybag;
pub mod layout;
pub mod object;
pub mod omap;
pub mod orphans;
pub mod pruning;
pub mod reaper;
pub mod recovery;
pub mod sealed;
pub mod search;
pub mod sibling;
pub mod snapshot;
pub mod sort;
pub mod space_manager;
pub mod text;
pub mod time;
pub mod timeline;
pub mod traverse;
pub mod tree;
pub mod types;
pub mod unicode;
pub mod volume;
pub mod xattr;

pub use apfs::Apfs;
pub use btree::{descend, descend_le, BtnodeFlags, BtreeFlags, BtreeInfo, BtreeNode, Entry};
pub use catalog::{Catalog, CatalogRecord, JKey, JObjType};
pub use checkpoint::{latest_checkpoint, Checkpoint, CheckpointMapPhys, CheckpointMapping};
pub use clones::{classify_extents, ClassifiedExtent, ExtentRefs, JObjKind, PhysicalExtent};
pub use container::{CheckpointArea, NxFeatures, NxFlags, NxIncompatFeatures, NxSuperblock};
pub use directory::{DirEntry, DirEntryType, Directory, NameComparison};
pub use efi::{is_apfs_container, EfiJumpstart, APFS_GPT_PARTITION_UUID};
pub use enc_rolling::{ErPhase, ErRecoveryBlock, ErState, ErStateFlags, GeneralBitmap};
pub use error::ApfsError;
pub use extended_field::{ExtendedFields, XField, XfFlags};
pub use extent::{DataStream, File, FileExtent};
pub use fext::FextTree;
pub use forensic::{build_clone_map, build_timeline, CloneSet, TimelineEvent, TimestampKind};
pub use fusion::{
    decode_address, FusionAddress, FusionCache, FusionMtVal, FusionReader, FusionWbc, FusionWbcList,
};
pub use inode::{FileType, Inode, InodeFlags};
pub use keybag::{Keybag, KeybagEntry, KeybagTag, ProtectionClass};
pub use object::{ObjPhys, StorageClass};
pub use omap::{Omap, OmapFlags, OmapSnapshotFlags, OmapValFlags, OmapValue};
pub use orphans::{group_orphans, RecoveredObject};
pub use reaper::{ReapList, ReapListEntry, ReapPhase, Reaper, ReaperFlags};
pub use recovery::{
    diff_snapshot, read_deleted_content, scan_unallocated, DeletedFile, OrphanedNode, Provenance,
};
pub use sealed::{
    verify_file_hashes, ApfsHashType, FileDataHash, HashMismatch, IntegrityMeta,
    IntegrityMetaFlags, SealReport, SealVerification,
};
pub use sibling::{resolve_sibling, SiblingLink};
pub use snapshot::{snapshot_xid_by_name, SnapMetaExt, SnapMetaFlags, Snapshot};
pub use space_manager::{FreeExtent, SpaceManager, SpacemanDevice};
pub use time::ApfsTimestamp;
pub use traverse::{ApfsDir, ApfsTraversalEntry, Volume};
pub use types::{ObjectType, Oid, Paddr, Prange, Uuid, Xid};
pub use unicode::{name_hash, normalize_fold};
pub use volume::{ApfsIncompatFeatures, ApfsSuperblock};
pub use xattr::{Xattr, XattrFlags, XattrValue};
