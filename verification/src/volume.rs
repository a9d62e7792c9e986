//! Volume superblocks (`apfs_superblock_t`).
//!
//! A volume superblock names the volume and locates its object map and its
//! trees.

use vstd::prelude::*;

use crate::bytes;
use crate::error;
use crate::error::ApfsError;
use crate::object::ObjPhys;
use crate::text;
use crate::types;
use crate::types::{ObjectType, Oid};

verus! {

/// Volume superblock magic as the little-endian `u32` it forms on disk: the
/// bytes `APSB`.
pub const APFS_MAGIC: u32 = 0x4253_5041;

/// Size of the `apfs_superblock_t` prefix this parser decodes.
pub const APFS_SUPERBLOCK_SIZE: usize = 0x410;

/// Offset of the volume name.
pub const APFS_VOLNAME_OFFSET: usize = 0x2C0;

/// Size of the volume name field.
pub const APFS_VOLNAME_LEN: usize = 256;

/// Incompatible volume features (`apfs_incompatible_features`).
#[derive(Debug, Clone, Copy, PartialEq, Eq, Structural)]
pub struct ApfsIncompatFeatures(pub u64);

impl ApfsIncompatFeatures {
    /// File names on the volume are case-insensitive.
    pub const CASE_INSENSITIVE: u64 = 0x0000_0001;

    /// File names on the volume are normalization-insensitive.
    pub const NORMALIZATION_INSENSITIVE: u64 = 0x0000_0008;

    /// The volume is sealed.
    pub const SEALED_VOLUME: u64 = 0x0000_0020;

    /// The raw bits of the set.
    #[must_use]
    pub fn bits(self) -> (bits: u64)
        ensures
            bits == self.0,
    {
        self.0
    }

    /// The set with the given bits, known or not.
    #[must_use]
    pub fn from_bits_retain(bits: u64) -> (flags: ApfsIncompatFeatures)
        ensures
            flags == ApfsIncompatFeatures(bits),
    {
        ApfsIncompatFeatures(bits)
    }

    /// Whether every bit of `flag` is set.
    pub open spec fn has(self, flag: u64) -> bool {
        self.0 & flag == flag
    }

    /// Whether every bit of `flag` is set.
    #[must_use]
    pub fn contains(self, flag: u64) -> (set: bool)
        ensures
            set == self.has(flag),
    {
        self.0 & flag == flag
    }
}

/// A parsed volume superblock (`apfs_superblock_t`).
#[derive(Debug, Clone, PartialEq, Eq)]
pub struct ApfsSuperblock {
    /// Incompatible features the volume uses.
    pub incompatible_features: ApfsIncompatFeatures,
    /// Physical object id of the volume's object map.
    pub omap_oid: Oid,
    /// Virtual object id of the volume's file-system tree.
    pub root_tree_oid: Oid,
    /// Physical object id of the volume's extent-reference tree.
    pub extentref_tree_oid: Oid,
    /// Virtual object id of the volume's snapshot-metadata tree.
    pub snap_meta_tree_oid: Oid,
    /// Virtual object id of the integrity metadata; zero when the volume is
    /// not sealed.
    pub integrity_meta_oid: Oid,
    /// Physical block of the file-extent tree; zero when the volume is not
    /// sealed.
    pub fext_tree_oid: Oid,
    /// The volume's name.
    pub name: String,
}

/// The content of an [`ApfsSuperblock`].
#[verifier::ext_equal]
pub struct ApfsSuperblockView {
    /// Incompatible features the volume uses.
    pub incompatible_features: ApfsIncompatFeatures,
    /// Physical object id of the volume's object map.
    pub omap_oid: Oid,
    /// Virtual object id of the volume's file-system tree.
    pub root_tree_oid: Oid,
    /// Physical object id of the volume's extent-reference tree.
    pub extentref_tree_oid: Oid,
    /// Virtual object id of the volume's snapshot-metadata tree.
    pub snap_meta_tree_oid: Oid,
    /// Virtual object id of the integrity metadata.
    pub integrity_meta_oid: Oid,
    /// Physical block of the file-extent tree.
    pub fext_tree_oid: Oid,
    /// The volume's name.
    pub name: Seq<char>,
}

impl View for ApfsSuperblock {
    type V = ApfsSuperblockView;

    open spec fn view(&self) -> ApfsSuperblockView {
        ApfsSuperblockView {
            incompatible_features: self.incompatible_features,
            omap_oid: self.omap_oid,
            root_tree_oid: self.root_tree_oid,
            extentref_tree_oid: self.extentref_tree_oid,
            snap_meta_tree_oid: self.snap_meta_tree_oid,
            integrity_meta_oid: self.integrity_meta_oid,
            fext_tree_oid: self.fext_tree_oid,
            name: self.name@,
        }
    }
}

/// The volume superblock in `block`.
pub open spec fn volume_superblock_of(block: Seq<u8>) -> Result<ApfsSuperblockView, ApfsError> {
    let magic = bytes::le_u32(block, 0x20);
    if block.len() < APFS_SUPERBLOCK_SIZE {
        error::truncated("apfs_superblock_t", APFS_SUPERBLOCK_SIZE as int, block.len())
    } else if types::object_type_of(bytes::le_u32(block, 0x18)) != ObjectType::Fs {
        error::malformed("apfs_superblock_t", "object type is not a volume superblock")
    } else if magic != APFS_MAGIC {
        Err(
            ApfsError::InvalidMagic {
                structure: "apfs_superblock_t",
                expected: APFS_MAGIC,
                actual: magic,
            },
        )
    } else {
        Ok(
            ApfsSuperblockView {
                incompatible_features: ApfsIncompatFeatures(bytes::le_u64(block, 0x38)),
                omap_oid: Oid(bytes::le_u64(block, 0x80)),
                root_tree_oid: Oid(bytes::le_u64(block, 0x88)),
                extentref_tree_oid: Oid(bytes::le_u64(block, 0x90)),
                snap_meta_tree_oid: Oid(bytes::le_u64(block, 0x98)),
                integrity_meta_oid: Oid(bytes::le_u64(block, 0x400)),
                fext_tree_oid: Oid(bytes::le_u64(block, 0x408)),
                name: text::decoded(
                    bytes::before_nul(
                        block.subrange(
                            APFS_VOLNAME_OFFSET as int,
                            APFS_VOLNAME_OFFSET + APFS_VOLNAME_LEN,
                        ),
                    ),
                ),
            },
        )
    }
}

impl ApfsSuperblock {
    /// Parses a volume superblock from its block.
    pub fn parse(block: &[u8]) -> (parsed: Result<ApfsSuperblock, ApfsError>)
        ensures
            error::viewed(parsed) == volume_superblock_of(block@),
    {
        if block.len() < APFS_SUPERBLOCK_SIZE {
            return Err(
                ApfsError::Truncated {
                    structure: "apfs_superblock_t",
                    expected: APFS_SUPERBLOCK_SIZE,
                    actual: block.len(),
                },
            );
        }
        let header: ObjPhys = match ObjPhys::parse(block) {
            Ok(header) => header,
            Err(error) => return Err(error),
        };
        if header.object_kind() != ObjectType::Fs {
            return Err(
                ApfsError::Malformed {
                    structure: "apfs_superblock_t",
                    reason: "object type is not a volume superblock",
                },
            );
        }
        let magic: u32 = bytes::read_u32(block, 0x20);
        if magic != APFS_MAGIC {
            return Err(
                ApfsError::InvalidMagic {
                    structure: "apfs_superblock_t",
                    expected: APFS_MAGIC,
                    actual: magic,
                },
            );
        }
        let name: &[u8] = vstd::slice::slice_subrange(
            block,
            APFS_VOLNAME_OFFSET,
            APFS_VOLNAME_OFFSET + APFS_VOLNAME_LEN,
        );
        Ok(
            ApfsSuperblock {
                incompatible_features: ApfsIncompatFeatures::from_bits_retain(
                    bytes::read_u64(block, 0x38),
                ),
                omap_oid: Oid(bytes::read_u64(block, 0x80)),
                root_tree_oid: Oid(bytes::read_u64(block, 0x88)),
                extentref_tree_oid: Oid(bytes::read_u64(block, 0x90)),
                snap_meta_tree_oid: Oid(bytes::read_u64(block, 0x98)),
                integrity_meta_oid: Oid(bytes::read_u64(block, 0x400)),
                fext_tree_oid: Oid(bytes::read_u64(block, 0x408)),
                name: text::decode(bytes::until_nul(name)),
            },
        )
    }

    /// Whether file names on the volume are case-insensitive.
    #[must_use]
    pub fn is_case_insensitive(&self) -> (insensitive: bool)
        ensures
            insensitive == self.incompatible_features.has(ApfsIncompatFeatures::CASE_INSENSITIVE),
    {
        self.incompatible_features.contains(ApfsIncompatFeatures::CASE_INSENSITIVE)
    }

    /// Whether file names on the volume are normalization-insensitive.
    #[must_use]
    pub fn is_normalization_insensitive(&self) -> (insensitive: bool)
        ensures
            insensitive == self.incompatible_features.has(
                ApfsIncompatFeatures::NORMALIZATION_INSENSITIVE,
            ),
    {
        self.incompatible_features.contains(ApfsIncompatFeatures::NORMALIZATION_INSENSITIVE)
    }
}

} // verus!
