//! General-purpose APFS on-disk primitives: the building-block types shared by
//! every container- and file-system-layer structure.

use vstd::prelude::*;

use crate::bytes;
use crate::error;
use crate::error::ApfsError;

verus! {

/// An invalid object identifier.
pub const OID_INVALID: u64 = 0;

/// The object identifier of the container superblock.
pub const OID_NX_SUPERBLOCK: u64 = 1;

/// Number of object identifiers reserved for objects with a fixed identifier.
pub const OID_RESERVED_COUNT: u64 = 1024;

/// A physical block address; a negative address is not valid.
#[derive(Debug, Clone, Copy, PartialEq, Eq, PartialOrd, Ord, Hash, Structural)]
pub struct Paddr(pub i64);

impl Paddr {
    /// Whether the address is a valid (non-negative) block address.
    #[must_use]
    pub fn is_valid(self) -> (valid: bool)
        ensures
            valid == (self.0 >= 0),
    {
        self.0 >= 0
    }

    /// The address as an unsigned block number, when it is valid.
    pub open spec fn block(self) -> Option<u64> {
        if self.0 >= 0 {
            Some(self.0 as u64)
        } else {
            None
        }
    }

    /// The address as an unsigned block number, when it is valid.
    #[must_use]
    pub fn as_block(self) -> (block: Option<u64>)
        ensures
            block == self.block(),
    {
        if self.0 >= 0 {
            Some(self.0 as u64)
        } else {
            None
        }
    }
}

/// An object identifier.
#[derive(Debug, Clone, Copy, PartialEq, Eq, PartialOrd, Ord, Hash, Structural)]
pub struct Oid(pub u64);

impl Oid {
    /// Whether the identifier is not the invalid one.
    #[must_use]
    pub fn is_valid(self) -> (valid: bool)
        ensures
            valid == (self.0 != OID_INVALID),
    {
        self.0 != OID_INVALID
    }

    /// Whether the identifier is reserved.
    #[must_use]
    pub fn is_reserved(self) -> (reserved: bool)
        ensures
            reserved == (self.0 < OID_RESERVED_COUNT),
    {
        self.0 < OID_RESERVED_COUNT
    }
}

/// A transaction identifier.
#[derive(Debug, Clone, Copy, PartialEq, Eq, PartialOrd, Ord, Hash, Structural)]
pub struct Xid(pub u64);

impl Xid {
    /// Whether the identifier is valid: zero is not.
    #[must_use]
    pub fn is_valid(self) -> (valid: bool)
        ensures
            valid == (self.0 != 0),
    {
        self.0 != 0
    }
}

/// A universally unique identifier.
#[derive(Debug, Clone, Copy, PartialEq, Eq, Hash)]
pub struct Uuid(pub [u8; 16]);

/// Size of a `prange_t`.
pub const PRANGE_SIZE: usize = 16;

/// A range of physical blocks (`prange_t`).
#[derive(Debug, Clone, Copy, PartialEq, Eq, Structural)]
pub struct Prange {
    /// First block of the range.
    pub start: Paddr,
    /// Number of blocks in the range.
    pub block_count: u64,
}

/// The block range stored at the start of `bytes`.
pub open spec fn prange_at(bytes: Seq<u8>) -> Result<Prange, ApfsError> {
    if bytes.len() < PRANGE_SIZE {
        error::truncated("prange_t", PRANGE_SIZE as int, bytes.len())
    } else {
        Ok(Prange { start: Paddr(bytes::le_i64(bytes, 0)), block_count: bytes::le_u64(bytes, 8) })
    }
}

impl Prange {
    /// Parses a `prange_t` from the start of `bytes`.
    pub fn parse(bytes: &[u8]) -> (parsed: Result<Prange, ApfsError>)
        ensures
            parsed == prange_at(bytes@),
    {
        if bytes.len() < PRANGE_SIZE {
            return Err(
                ApfsError::Truncated {
                    structure: "prange_t",
                    expected: PRANGE_SIZE,
                    actual: bytes.len(),
                },
            );
        }
        Ok(Prange { start: Paddr(bytes::read_i64(bytes, 0)), block_count: bytes::read_u64(bytes, 8) })
    }

    /// Whether the range holds no block.
    #[must_use]
    pub fn is_empty(self) -> (empty: bool)
        ensures
            empty == (self.block_count == 0),
    {
        self.block_count == 0
    }
}

/// Object type of a container keybag: the four-character code `keys`.
pub const OBJECT_TYPE_CONTAINER_KEYBAG: u32 = 0x6B65_7973;

/// Object type of a volume keybag: the four-character code `recs`.
pub const OBJECT_TYPE_VOLUME_KEYBAG: u32 = 0x7265_6373;

/// Object type of a media keybag: the four-character code `mkey`.
pub const OBJECT_TYPE_MEDIA_KEYBAG: u32 = 0x6D6B_6579;

/// The type of an object (`OBJECT_TYPE_*`).
#[derive(Debug, Clone, Copy, PartialEq, Eq, Structural)]
pub enum ObjectType {
    /// No object.
    Invalid,
    /// A container superblock.
    NxSuperblock,
    /// A B-tree root node.
    Btree,
    /// A B-tree node.
    BtreeNode,
    /// A space manager.
    Spaceman,
    /// A chunk-info address block.
    SpacemanCab,
    /// A chunk-info block.
    SpacemanCib,
    /// A free-space bitmap.
    SpacemanBitmap,
    /// A free-space queue.
    SpacemanFreeQueue,
    /// An extents-list tree.
    ExtentListTree,
    /// An object map.
    Omap,
    /// A checkpoint map.
    CheckpointMap,
    /// A volume.
    Fs,
    /// A file-system tree.
    FsTree,
    /// An extent-reference tree.
    BlockRefTree,
    /// A snapshot-metadata tree.
    SnapMetaTree,
    /// A reaper.
    NxReaper,
    /// A reap list.
    NxReapList,
    /// An object-map snapshot tree.
    OmapSnapshot,
    /// An EFI jumpstart record.
    EfiJumpstart,
    /// A Fusion middle tree.
    FusionMiddleTree,
    /// A Fusion write-back cache.
    NxFusionWbc,
    /// A Fusion write-back-cache list.
    NxFusionWbcList,
    /// An encryption-rolling state.
    ErState,
    /// A general-purpose bitmap.
    GBitmap,
    /// A general-purpose bitmap tree.
    GBitmapTree,
    /// A general-purpose bitmap block.
    GBitmapBlock,
    /// An encryption-rolling recovery block.
    ErRecoveryBlock,
    /// Extended snapshot metadata.
    SnapMetaExt,
    /// Integrity metadata.
    IntegrityMeta,
    /// A file-extent tree.
    FextTree,
    /// A reserved type.
    Reserved20,
    /// A type used for testing.
    Test,
    /// A container keybag.
    ContainerKeybag,
    /// A volume keybag.
    VolumeKeybag,
    /// A media keybag.
    MediaKeybag,
    /// A type value this parser does not recognize.
    Unknown(u16),
}

/// The object type of a sixteen-bit type value.
pub open spec fn object_type_of_value(value: u16) -> ObjectType {
    match value {
        0x00 => ObjectType::Invalid,
        0x01 => ObjectType::NxSuperblock,
        0x02 => ObjectType::Btree,
        0x03 => ObjectType::BtreeNode,
        0x05 => ObjectType::Spaceman,
        0x06 => ObjectType::SpacemanCab,
        0x07 => ObjectType::SpacemanCib,
        0x08 => ObjectType::SpacemanBitmap,
        0x09 => ObjectType::SpacemanFreeQueue,
        0x0A => ObjectType::ExtentListTree,
        0x0B => ObjectType::Omap,
        0x0C => ObjectType::CheckpointMap,
        0x0D => ObjectType::Fs,
        0x0E => ObjectType::FsTree,
        0x0F => ObjectType::BlockRefTree,
        0x10 => ObjectType::SnapMetaTree,
        0x11 => ObjectType::NxReaper,
        0x12 => ObjectType::NxReapList,
        0x13 => ObjectType::OmapSnapshot,
        0x14 => ObjectType::EfiJumpstart,
        0x15 => ObjectType::FusionMiddleTree,
        0x16 => ObjectType::NxFusionWbc,
        0x17 => ObjectType::NxFusionWbcList,
        0x18 => ObjectType::ErState,
        0x19 => ObjectType::GBitmap,
        0x1A => ObjectType::GBitmapTree,
        0x1B => ObjectType::GBitmapBlock,
        0x1C => ObjectType::ErRecoveryBlock,
        0x1D => ObjectType::SnapMetaExt,
        0x1E => ObjectType::IntegrityMeta,
        0x1F => ObjectType::FextTree,
        0x20 => ObjectType::Reserved20,
        0xFF => ObjectType::Test,
        _ => ObjectType::Unknown(value),
    }
}

/// Whether a type field is one of the four-character codes of a keybag, which
/// take the whole field.
pub open spec fn is_keybag_code(field: u32) -> bool {
    field == OBJECT_TYPE_CONTAINER_KEYBAG || field == OBJECT_TYPE_VOLUME_KEYBAG || field
        == OBJECT_TYPE_MEDIA_KEYBAG
}

/// The object type of a whole `o_type` field: a keybag code, or the type value
/// in the low sixteen bits.
pub open spec fn object_type_of(field: u32) -> ObjectType {
    if field == OBJECT_TYPE_CONTAINER_KEYBAG {
        ObjectType::ContainerKeybag
    } else if field == OBJECT_TYPE_VOLUME_KEYBAG {
        ObjectType::VolumeKeybag
    } else if field == OBJECT_TYPE_MEDIA_KEYBAG {
        ObjectType::MediaKeybag
    } else {
        object_type_of_value((field % 0x1_0000) as u16)
    }
}

/// The flag bits in the high half of a type field do not change the decoded
/// type, unless one of the two fields is a keybag code.
pub proof fn law_type_ignores_flag_bits(left: u32, right: u32)
    requires
        left % 0x1_0000 == right % 0x1_0000,
        !is_keybag_code(left),
        !is_keybag_code(right),
    ensures
        object_type_of(left) == object_type_of(right),
{
}

/// Two sixteen-bit type values decode to the same type only when they are the
/// same value.
pub proof fn law_type_values_are_distinct(left: u16, right: u16)
    requires
        object_type_of_value(left) == object_type_of_value(right),
    ensures
        left == right,
{
}

impl ObjectType {
    /// Decodes the object type from a whole `o_type` (or subtype) field.
    ///
    /// A keybag object carries a four-character code that takes the whole
    /// field; of every other object the type is in the low sixteen bits.
    #[must_use]
    pub fn from_type_field(field: u32) -> (kind: ObjectType)
        ensures
            kind == object_type_of(field),
    {
        if field == OBJECT_TYPE_CONTAINER_KEYBAG {
            return ObjectType::ContainerKeybag;
        }
        if field == OBJECT_TYPE_VOLUME_KEYBAG {
            return ObjectType::VolumeKeybag;
        }
        if field == OBJECT_TYPE_MEDIA_KEYBAG {
            return ObjectType::MediaKeybag;
        }
        let value: u16 = (field % 0x1_0000) as u16;
        match value {
            0x00 => ObjectType::Invalid,
            0x01 => ObjectType::NxSuperblock,
            0x02 => ObjectType::Btree,
            0x03 => ObjectType::BtreeNode,
            0x05 => ObjectType::Spaceman,
            0x06 => ObjectType::SpacemanCab,
            0x07 => ObjectType::SpacemanCib,
            0x08 => ObjectType::SpacemanBitmap,
            0x09 => ObjectType::SpacemanFreeQueue,
            0x0A => ObjectType::ExtentListTree,
            0x0B => ObjectType::Omap,
            0x0C => ObjectType::CheckpointMap,
            0x0D => ObjectType::Fs,
            0x0E => ObjectType::FsTree,
            0x0F => ObjectType::BlockRefTree,
            0x10 => ObjectType::SnapMetaTree,
            0x11 => ObjectType::NxReaper,
            0x12 => ObjectType::NxReapList,
            0x13 => ObjectType::OmapSnapshot,
            0x14 => ObjectType::EfiJumpstart,
            0x15 => ObjectType::FusionMiddleTree,
            0x16 => ObjectType::NxFusionWbc,
            0x17 => ObjectType::NxFusionWbcList,
            0x18 => ObjectType::ErState,
            0x19 => ObjectType::GBitmap,
            0x1A => ObjectType::GBitmapTree,
            0x1B => ObjectType::GBitmapBlock,
            0x1C => ObjectType::ErRecoveryBlock,
            0x1D => ObjectType::SnapMetaExt,
            0x1E => ObjectType::IntegrityMeta,
            0x1F => ObjectType::FextTree,
            0x20 => ObjectType::Reserved20,
            0xFF => ObjectType::Test,
            other => ObjectType::Unknown(other),
        }
    }
}

} // verus!
