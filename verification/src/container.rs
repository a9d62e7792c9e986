//! The APFS container superblock (`nx_superblock_t`).
//!
//! The container superblock is the root of an APFS container: it carries the
//! block geometry, the checkpoint areas, the feature-flag triplet, and the
//! object identifiers of the space manager, object map, reaper, and volumes.

use vstd::prelude::*;

use crate::bytes;
use crate::error;
use crate::error::ApfsError;
use crate::object::ObjPhys;
use crate::types;
use crate::types::{ObjectType, Oid, Paddr, Prange, Xid};

verus! {

/// Container superblock magic as the little-endian `u32` it forms on disk: the
/// bytes `NXSB`.
pub const NX_MAGIC: u32 = 0x4253_584E;

/// Maximum number of volumes in a container.
pub const NX_MAX_FILE_SYSTEMS: usize = 100;

/// Number of performance counters in the superblock.
pub const NX_NUM_COUNTERS: usize = 32;

/// Number of ephemeral-info entries.
pub const NX_EPH_INFO_COUNT: usize = 4;

/// Smallest permitted container block size.
pub const NX_MINIMUM_BLOCK_SIZE: u32 = 4096;

/// Largest permitted container block size.
pub const NX_MAXIMUM_BLOCK_SIZE: u32 = 65536;

/// Size of an `nx_superblock_t` on disk.
pub const NX_SUPERBLOCK_SIZE: usize = 1408;

/// Offset of the volume identifiers in the superblock.
pub const NX_FS_OID_OFFSET: usize = 184;

/// Incompatible features this parser understands: the current format
/// (`VERSION2`) and Fusion drives (`FUSION`).
pub const NX_SUPPORTED_INCOMPAT_MASK: u64 = 0x0000_0102;

/// Container flags (`nx_flags`).
#[derive(Debug, Clone, Copy, PartialEq, Eq, Structural)]
pub struct NxFlags(pub u64);

impl NxFlags {
    /// Reserved (`NX_RESERVED_1`).
    pub const RESERVED_1: u64 = 0x0000_0001;

    /// Reserved (`NX_RESERVED_2`).
    pub const RESERVED_2: u64 = 0x0000_0002;

    /// The container uses software encryption (`NX_CRYPTO_SW`).
    pub const CRYPTO_SW: u64 = 0x0000_0004;

    /// The raw bits of the set.
    #[must_use]
    pub fn bits(self) -> (bits: u64)
        ensures
            bits == self.0,
    {
        self.0
    }

    /// The set with the given bits, known or not.
    #[must_use]
    pub fn from_bits_retain(bits: u64) -> (flags: NxFlags)
        ensures
            flags == NxFlags(bits),
    {
        NxFlags(bits)
    }

    /// Whether every bit of `flag` is set.
    pub open spec fn has(self, flag: u64) -> bool {
        self.0 & flag == flag
    }

    /// Whether every bit of `flag` is set.
    #[must_use]
    pub fn contains(self, flag: u64) -> (set: bool)
        ensures
            set == self.has(flag),
    {
        self.0 & flag == flag
    }
}

/// Optional container feature flags (`nx_features`).
#[derive(Debug, Clone, Copy, PartialEq, Eq, Structural)]
pub struct NxFeatures(pub u64);

impl NxFeatures {
    /// The container supports defragmentation (`NX_FEATURE_DEFRAG`).
    pub const DEFRAG: u64 = 0x0000_0001;

    /// The container is using low-capacity Fusion-drive mode (`NX_FEATURE_LCFD`).
    pub const LCFD: u64 = 0x0000_0002;

    /// The raw bits of the set.
    #[must_use]
    pub fn bits(self) -> (bits: u64)
        ensures
            bits == self.0,
    {
        self.0
    }

    /// The set with the given bits, known or not.
    #[must_use]
    pub fn from_bits_retain(bits: u64) -> (flags: NxFeatures)
        ensures
            flags == NxFeatures(bits),
    {
        NxFeatures(bits)
    }

    /// Whether every bit of `flag` is set.
    pub open spec fn has(self, flag: u64) -> bool {
        self.0 & flag == flag
    }

    /// Whether every bit of `flag` is set.
    #[must_use]
    pub fn contains(self, flag: u64) -> (set: bool)
        ensures
            set == self.has(flag),
    {
        self.0 & flag == flag
    }
}

/// Incompatible container feature flags (`nx_incompatible_features`).
#[derive(Debug, Clone, Copy, PartialEq, Eq, Structural)]
pub struct NxIncompatFeatures(pub u64);

impl NxIncompatFeatures {
    /// The original pre-release APFS format (`NX_INCOMPAT_VERSION1`).
    pub const VERSION1: u64 = 0x0000_0001;

    /// The current APFS format (`NX_INCOMPAT_VERSION2`).
    pub const VERSION2: u64 = 0x0000_0002;

    /// The container spans a Fusion drive (`NX_INCOMPAT_FUSION`).
    pub const FUSION: u64 = 0x0000_0100;

    /// The raw bits of the set.
    #[must_use]
    pub fn bits(self) -> (bits: u64)
        ensures
            bits == self.0,
    {
        self.0
    }

    /// The set with the given bits, known or not.
    #[must_use]
    pub fn from_bits_retain(bits: u64) -> (flags: NxIncompatFeatures)
        ensures
            flags == NxIncompatFeatures(bits),
    {
        NxIncompatFeatures(bits)
    }

    /// Whether every bit of `flag` is set.
    pub open spec fn has(self, flag: u64) -> bool {
        self.0 & flag == flag
    }

    /// Whether every bit of `flag` is set.
    #[must_use]
    pub fn contains(self, flag: u64) -> (set: bool)
        ensures
            set == self.has(flag),
    {
        self.0 & flag == flag
    }
}

/// Locates a checkpoint area (`nx_xp_desc_*` or `nx_xp_data_*`).
#[derive(Debug, Clone, Copy, PartialEq, Eq, Structural)]
pub struct CheckpointArea {
    /// Number of blocks in the area. The high bit, if set, indicates the area
    /// is itself a B-tree rather than a contiguous range.
    pub blocks: u32,
    /// First block of the area (when stored contiguously).
    pub base: Paddr,
    /// Next index to write within the ring.
    pub next: u32,
    /// Index of the oldest valid entry in the ring.
    pub index: u32,
    /// Number of valid entries in the ring.
    pub len: u32,
}

/// A parsed, validated APFS container superblock.
#[derive(Debug, Clone)]
pub struct NxSuperblock {
    /// The transaction identifier of this superblock.
    pub xid: Xid,
    /// Block size of the container, in bytes.
    pub block_size: u32,
    /// Total number of blocks in the container.
    pub block_count: u64,
    /// Optional feature flags.
    pub features: NxFeatures,
    /// Read-only compatible feature flags (none are currently defined).
    pub readonly_compatible_features: u64,
    /// Incompatible feature flags.
    pub incompatible_features: NxIncompatFeatures,
    /// Container flags.
    pub flags: NxFlags,
    /// The container's UUID.
    pub uuid: [u8; 16],
    /// The next object identifier to be assigned.
    pub next_oid: Oid,
    /// The next transaction identifier to be assigned.
    pub next_xid: Xid,
    /// The checkpoint descriptor area.
    pub xp_desc: CheckpointArea,
    /// The checkpoint data area.
    pub xp_data: CheckpointArea,
    /// Object id of the space manager (an ephemeral object).
    pub spaceman_oid: Oid,
    /// Object id of the container object map (a physical object).
    pub omap_oid: Oid,
    /// Object id of the reaper (an ephemeral object).
    pub reaper_oid: Oid,
    /// Object ids of the container's volumes (virtual objects resolved
    /// through the container object map).
    pub fs_oids: Vec<Oid>,
    /// Physical address of the EFI jumpstart record, if any.
    pub efi_jumpstart: Paddr,
    /// Location of the container keybag.
    pub keylocker: Prange,
    /// Location of the Fusion write-back cache; a zero range on a non-Fusion
    /// container.
    pub fusion_wbc: Prange,
}

/// The content of an [`NxSuperblock`].
pub struct NxSuperblockView {
    /// The transaction identifier of this superblock.
    pub xid: Xid,
    /// Block size of the container, in bytes.
    pub block_size: u32,
    /// Total number of blocks in the container.
    pub block_count: u64,
    /// Optional feature flags.
    pub features: NxFeatures,
    /// Read-only compatible feature flags (none are currently defined).
    pub readonly_compatible_features: u64,
    /// Incompatible feature flags.
    pub incompatible_features: NxIncompatFeatures,
    /// Container flags.
    pub flags: NxFlags,
    /// The container's UUID.
    pub uuid: Seq<u8>,
    /// The next object identifier to be assigned.
    pub next_oid: Oid,
    /// The next transaction identifier to be assigned.
    pub next_xid: Xid,
    /// The checkpoint descriptor area.
    pub xp_desc: CheckpointArea,
    /// The checkpoint data area.
    pub xp_data: CheckpointArea,
    /// Object id of the space manager (an ephemeral object).
    pub spaceman_oid: Oid,
    /// Object id of the container object map (a physical object).
    pub omap_oid: Oid,
    /// Object id of the reaper (an ephemeral object).
    pub reaper_oid: Oid,
    /// Object ids of the container's volumes (virtual objects resolved
    /// through the container object map).
    pub fs_oids: Seq<Oid>,
    /// Physical address of the EFI jumpstart record, if any.
    pub efi_jumpstart: Paddr,
    /// Location of the container keybag.
    pub keylocker: Prange,
    /// Location of the Fusion write-back cache; a zero range on a non-Fusion
    /// container.
    pub fusion_wbc: Prange,
}

impl View for NxSuperblock {
    type V = NxSuperblockView;

    open spec fn view(&self) -> NxSuperblockView {
        NxSuperblockView {
            xid: self.xid,
            block_size: self.block_size,
            block_count: self.block_count,
            features: self.features,
            readonly_compatible_features: self.readonly_compatible_features,
            incompatible_features: self.incompatible_features,
            flags: self.flags,
            uuid: self.uuid@,
            next_oid: self.next_oid,
            next_xid: self.next_xid,
            xp_desc: self.xp_desc,
            xp_data: self.xp_data,
            spaceman_oid: self.spaceman_oid,
            omap_oid: self.omap_oid,
            reaper_oid: self.reaper_oid,
            fs_oids: self.fs_oids@,
            efi_jumpstart: self.efi_jumpstart,
            keylocker: self.keylocker,
            fusion_wbc: self.fusion_wbc,
        }
    }
}

/// Whether `size` is a permitted block size: a power of two within 4 KiB and
/// 64 KiB.
pub open spec fn is_block_size(size: u32) -> bool {
    size == 4096 || size == 8192 || size == 16384 || size == 32768 || size == 65536
}

/// The permitted block sizes are the powers of two within the two limits.
pub proof fn law_block_sizes_are_powers_of_two(size: u32)
    ensures
        is_block_size(size) <==> NX_MINIMUM_BLOCK_SIZE <= size <= NX_MAXIMUM_BLOCK_SIZE && size & (
        (size - 1) as u32) == 0,
{
    assert(is_block_size(size) <==> 4096 <= size <= 65536 && size & ((size - 1) as u32) == 0)
        by (bit_vector);
}

/// The volumes in the first `slots` of a superblock's volume slots: those
/// that are not empty.
pub open spec fn volume_oids(block: Seq<u8>, slots: nat) -> Seq<Oid>
    decreases slots,
{
    if slots == 0 {
        Seq::empty()
    } else {
        let before = volume_oids(block, (slots - 1) as nat);
        let oid = bytes::le_u64(block, NX_FS_OID_OFFSET + 8 * (slots - 1));
        if oid != 0 {
            before.push(Oid(oid))
        } else {
            before
        }
    }
}

/// The container superblock in `block`.
pub open spec fn superblock_of(block: Seq<u8>) -> Result<NxSuperblockView, ApfsError> {
    if block.len() < NX_SUPERBLOCK_SIZE {
        error::truncated("nx_superblock_t", NX_SUPERBLOCK_SIZE as int, block.len())
    } else if types::object_type_of(bytes::le_u32(block, 0x18)) != ObjectType::NxSuperblock {
        error::malformed("nx_superblock_t", "object type is not a container superblock")
    } else if bytes::le_u32(block, 32) != NX_MAGIC {
        Err(
            ApfsError::InvalidMagic {
                structure: "nx_superblock_t",
                expected: NX_MAGIC,
                actual: bytes::le_u32(block, 32),
            },
        )
    } else if !is_block_size(bytes::le_u32(block, 36)) {
        error::malformed(
            "nx_superblock_t",
            "block size is not a power of two within 4 KiB..=64 KiB",
        )
    } else if bytes::le_u64(block, 64) & !NX_SUPPORTED_INCOMPAT_MASK != 0 {
        Err(ApfsError::Unsupported("unrecognized incompatible container feature flag"))
    } else if bytes::le_u32(block, 180) > NX_MAX_FILE_SYSTEMS {
        error::malformed(
            "nx_superblock_t",
            "nx_max_file_systems exceeds NX_MAX_FILE_SYSTEMS",
        )
    } else {
        Ok(
            NxSuperblockView {
                xid: Xid(bytes::le_u64(block, 0x10)),
                block_size: bytes::le_u32(block, 36),
                block_count: bytes::le_u64(block, 40),
                features: NxFeatures(bytes::le_u64(block, 48)),
                readonly_compatible_features: bytes::le_u64(block, 56),
                incompatible_features: NxIncompatFeatures(bytes::le_u64(block, 64)),
                flags: NxFlags(bytes::le_u64(block, 1264)),
                uuid: block.subrange(72, 88),
                next_oid: Oid(bytes::le_u64(block, 88)),
                next_xid: Xid(bytes::le_u64(block, 96)),
                xp_desc: CheckpointArea {
                    blocks: bytes::le_u32(block, 104),
                    base: Paddr(bytes::le_i64(block, 112)),
                    next: bytes::le_u32(block, 128),
                    index: bytes::le_u32(block, 136),
                    len: bytes::le_u32(block, 140),
                },
                xp_data: CheckpointArea {
                    blocks: bytes::le_u32(block, 108),
                    base: Paddr(bytes::le_i64(block, 120)),
                    next: bytes::le_u32(block, 132),
                    index: bytes::le_u32(block, 144),
                    len: bytes::le_u32(block, 148),
                },
                spaceman_oid: Oid(bytes::le_u64(block, 152)),
                omap_oid: Oid(bytes::le_u64(block, 160)),
                reaper_oid: Oid(bytes::le_u64(block, 168)),
                fs_oids: volume_oids(block, bytes::le_u32(block, 180) as nat),
                efi_jumpstart: Paddr(bytes::le_i64(block, 1272)),
                keylocker: Prange {
                    start: Paddr(bytes::le_i64(block, 1296)),
                    block_count: bytes::le_u64(block, 1304),
                },
                fusion_wbc: Prange {
                    start: Paddr(bytes::le_i64(block, 1368)),
                    block_count: bytes::le_u64(block, 1376),
                },
            },
        )
    }
}

/// Reads the volumes in the first `slots` volume slots.
fn read_volume_oids(block: &[u8], slots: usize) -> (oids: Vec<Oid>)
    requires
        slots <= NX_MAX_FILE_SYSTEMS,
        block@.len() >= NX_SUPERBLOCK_SIZE,
    ensures
        oids@ == volume_oids(block@, slots as nat),
{
    let mut oids: Vec<Oid> = Vec::new();
    let mut i: usize = 0;
    while i < slots
        invariant
            i <= slots <= NX_MAX_FILE_SYSTEMS,
            block@.len() >= NX_SUPERBLOCK_SIZE,
            oids@ == volume_oids(block@, i as nat),
        decreases slots - i,
    {
        let oid: u64 = bytes::read_u64(block, NX_FS_OID_OFFSET + 8 * i);
        if oid != 0 {
            oids.push(Oid(oid));
        }
        i += 1;
    }
    oids
}

impl NxSuperblock {
    /// Whether the container spans a Fusion drive: a fast solid-state device
    /// paired with a slower hard drive.
    #[must_use]
    pub fn is_fusion(&self) -> (fusion: bool)
        ensures
            fusion == self.incompatible_features.has(NxIncompatFeatures::FUSION),
    {
        self.incompatible_features.contains(NxIncompatFeatures::FUSION)
    }

    /// Parses and validates a container superblock from a block buffer.
    ///
    /// The block's Fletcher-64 checksum is not verified here; the checkpoint
    /// scan verifies it while choosing the latest valid checkpoint.
    pub fn parse(block: &[u8]) -> (parsed: Result<NxSuperblock, ApfsError>)
        ensures
            error::viewed(parsed) == superblock_of(block@),
    {
        if block.len() < NX_SUPERBLOCK_SIZE {
            return Err(
                ApfsError::Truncated {
                    structure: "nx_superblock_t",
                    expected: NX_SUPERBLOCK_SIZE,
                    actual: block.len(),
                },
            );
        }
        let header: ObjPhys = match ObjPhys::parse(block) {
            Ok(header) => header,
            Err(error) => return Err(error),
        };
        if header.object_kind() != ObjectType::NxSuperblock {
            return Err(
                ApfsError::Malformed {
                    structure: "nx_superblock_t",
                    reason: "object type is not a container superblock",
                },
            );
        }
        let magic: u32 = bytes::read_u32(block, 32);
        if magic != NX_MAGIC {
            return Err(
                ApfsError::InvalidMagic {
                    structure: "nx_superblock_t",
                    expected: NX_MAGIC,
                    actual: magic,
                },
            );
        }
        let block_size: u32 = bytes::read_u32(block, 36);
        proof {
            law_block_sizes_are_powers_of_two(block_size);
        }
        if !(NX_MINIMUM_BLOCK_SIZE <= block_size && block_size <= NX_MAXIMUM_BLOCK_SIZE)
            || block_size & (block_size - 1) != 0 {
            return Err(
                ApfsError::Malformed {
                    structure: "nx_superblock_t",
                    reason: "block size is not a power of two within 4 KiB..=64 KiB",
                },
            );
        }
        let incompatible: u64 = bytes::read_u64(block, 64);
        if incompatible & !NX_SUPPORTED_INCOMPAT_MASK != 0 {
            return Err(
                ApfsError::Unsupported("unrecognized incompatible container feature flag"),
            );
        }
        // Only the first `nx_max_file_systems` slots hold volumes; values
        // behind them are stale or crafted.
        let slots: usize = bytes::read_u32(block, 180) as usize;
        if slots > NX_MAX_FILE_SYSTEMS {
            return Err(
                ApfsError::Malformed {
                    structure: "nx_superblock_t",
                    reason: "nx_max_file_systems exceeds NX_MAX_FILE_SYSTEMS",
                },
            );
        }
        let fs_oids: Vec<Oid> = read_volume_oids(block, slots);
        Ok(
            NxSuperblock {
                xid: Xid(header.xid),
                block_size,
                block_count: bytes::read_u64(block, 40),
                features: NxFeatures(bytes::read_u64(block, 48)),
                readonly_compatible_features: bytes::read_u64(block, 56),
                incompatible_features: NxIncompatFeatures(bytes::read_u64(block, 64)),
                flags: NxFlags(bytes::read_u64(block, 1264)),
                uuid: bytes::read_bytes16(block, 72),
                next_oid: Oid(bytes::read_u64(block, 88)),
                next_xid: Xid(bytes::read_u64(block, 96)),
                xp_desc: CheckpointArea {
                    blocks: bytes::read_u32(block, 104),
                    base: Paddr(bytes::read_i64(block, 112)),
                    next: bytes::read_u32(block, 128),
                    index: bytes::read_u32(block, 136),
                    len: bytes::read_u32(block, 140),
                },
                xp_data: CheckpointArea {
                    blocks: bytes::read_u32(block, 108),
                    base: Paddr(bytes::read_i64(block, 120)),
                    next: bytes::read_u32(block, 132),
                    index: bytes::read_u32(block, 144),
                    len: bytes::read_u32(block, 148),
                },
                spaceman_oid: Oid(bytes::read_u64(block, 152)),
                omap_oid: Oid(bytes::read_u64(block, 160)),
                reaper_oid: Oid(bytes::read_u64(block, 168)),
                fs_oids,
                efi_jumpstart: Paddr(bytes::read_i64(block, 1272)),
                keylocker: Prange {
                    start: Paddr(bytes::read_i64(block, 1296)),
                    block_count: bytes::read_u64(block, 1304),
                },
                fusion_wbc: Prange {
                    start: Paddr(bytes::read_i64(block, 1368)),
                    block_count: bytes::read_u64(block, 1376),
                },
            },
        )
    }
}

} // verus!
