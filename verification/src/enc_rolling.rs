//! Encryption-rolling state (`er_state_phys_t`).
//!
//! When a volume is being encrypted or decrypted in place, APFS tracks
//! progress in encryption-rolling state. A volume caught mid-roll has part of
//! its content in one state and part in another; the rolling progress marks
//! the boundary.

use vstd::prelude::*;

use crate::bytes;
use crate::error;
use crate::error::ApfsError;
use crate::object::OBJ_PHYS_SIZE;

verus! {

/// Encryption-rolling state magic as the little-endian `u32` it forms on disk:
/// the bytes `BALF`.
pub const ER_MAGIC: u32 = 0x464C_4142;

/// Size of an `er_state_phys_t`.
pub const ER_STATE_PHYS_SIZE: usize = 128;

/// Size of an `er_recovery_block_phys_t` header.
pub const ER_RECOVERY_BLOCK_SIZE: usize = OBJ_PHYS_SIZE + 16;

/// Size of a `gbitmap_phys_t`.
pub const GBITMAP_PHYS_SIZE: usize = OBJ_PHYS_SIZE + 24;

/// Encryption-rolling flags (`ersb_flags`).
#[derive(Debug, Clone, Copy, PartialEq, Eq, Structural)]
pub struct ErStateFlags(pub u64);

impl ErStateFlags {
    /// The volume is being encrypted.
    pub const ENCRYPTING: u64 = 0x0000_0001;

    /// The volume is being decrypted.
    pub const DECRYPTING: u64 = 0x0000_0002;

    /// The volume's encryption key is being rolled.
    pub const KEYROLLING: u64 = 0x0000_0004;

    /// Rolling is paused.
    pub const PAUSED: u64 = 0x0000_0008;

    /// Rolling has failed.
    pub const FAILED: u64 = 0x0000_0010;

    /// The crypto id is an AES-XTS tweak rather than a key id.
    pub const CID_IS_TWEAK: u64 = 0x0000_0020;

    /// Rolling started from a one-key volume.
    pub const FROM_ONEKEY: u64 = 0x0000_4000;

    /// The raw bits of the set.
    #[must_use]
    pub fn bits(self) -> (bits: u64)
        ensures
            bits == self.0,
    {
        self.0
    }

    /// The set with the given bits, known or not.
    #[must_use]
    pub fn from_bits_retain(bits: u64) -> (flags: ErStateFlags)
        ensures
            flags == ErStateFlags(bits),
    {
        ErStateFlags(bits)
    }

    /// Whether every bit of `flag` is set.
    pub open spec fn has(self, flag: u64) -> bool {
        self.0 & flag == flag
    }

    /// Whether every bit of `flag` is set.
    #[must_use]
    pub fn contains(self, flag: u64) -> (set: bool)
        ensures
            set == self.has(flag),
    {
        self.0 & flag == flag
    }
}

/// The phase of an in-progress encryption roll (`er_phase_t`).
#[derive(Debug, Clone, Copy, PartialEq, Eq, Structural)]
pub enum ErPhase {
    /// No rolling phase is recorded.
    NoPhase,
    /// The object map is being rolled.
    OmapRoll,
    /// File data is being rolled.
    DataRoll,
    /// Snapshots are being rolled.
    SnapRoll,
    /// A phase value this parser does not recognize.
    Unknown(u64),
}

/// The phase that bits 12 and 13 of `flags` select.
pub open spec fn phase_of(flags: u64) -> ErPhase {
    let phase = flags / 0x1000 % 4;
    if phase == 0 {
        ErPhase::NoPhase
    } else if phase == 1 {
        ErPhase::OmapRoll
    } else if phase == 2 {
        ErPhase::DataRoll
    } else {
        ErPhase::SnapRoll
    }
}

impl ErPhase {
    /// Decodes the phase from the `ersb_flags` value.
    #[must_use]
    fn from_flags(flags: u64) -> (phase: ErPhase)
        ensures
            phase == phase_of(flags),
    {
        match flags / 0x1000 % 4 {
            0 => ErPhase::NoPhase,
            1 => ErPhase::OmapRoll,
            2 => ErPhase::DataRoll,
            3 => ErPhase::SnapRoll,
            other => ErPhase::Unknown(other),
        }
    }
}

/// Parsed encryption-rolling state (`er_state_phys_t`).
#[derive(Debug, Clone, Copy, PartialEq, Eq, Structural)]
pub struct ErState {
    /// The state structure's version.
    pub version: u32,
    /// Encryption-rolling flags.
    pub flags: ErStateFlags,
    /// Transaction id of the snapshot being rolled, if any.
    pub snap_xid: u64,
    /// Logical file offset rolling has reached.
    pub file_offset: u64,
    /// Number of blocks rolled so far.
    pub progress: u64,
    /// Total number of blocks to roll.
    pub total_blocks: u64,
    /// Object id of the bitmap tracking which blocks have been rolled.
    pub blockmap_oid: u64,
    /// Object id of the recovery-block list, or `None` on the first layout,
    /// which has no recovery list.
    pub recovery_list_oid: Option<u64>,
}

/// The encryption-rolling state in `block`.
///
/// The two versions differ in where the progress fields stand: the first one
/// has two more fields before them, and no recovery list.
pub open spec fn er_state_of(block: Seq<u8>) -> Result<ErState, ApfsError> {
    let magic = bytes::le_u32(block, OBJ_PHYS_SIZE as int);
    let version = bytes::le_u32(block, OBJ_PHYS_SIZE + 4);
    if block.len() < ER_STATE_PHYS_SIZE {
        error::truncated("er_state_phys_t", ER_STATE_PHYS_SIZE as int, block.len())
    } else if magic != ER_MAGIC {
        Err(
            ApfsError::InvalidMagic {
                structure: "er_state_phys_t",
                expected: ER_MAGIC,
                actual: magic,
            },
        )
    } else if version != 1 && version != 2 {
        Err(ApfsError::Unsupported("unrecognized er_state_phys version"))
    } else {
        let progress_at: int = if version == 1 {
            88
        } else {
            72
        };
        Ok(
            ErState {
                version,
                flags: ErStateFlags(bytes::le_u64(block, 40)),
                snap_xid: bytes::le_u64(block, 48),
                file_offset: bytes::le_u64(block, 64),
                progress: bytes::le_u64(block, progress_at),
                total_blocks: bytes::le_u64(block, progress_at + 8),
                blockmap_oid: bytes::le_u64(block, progress_at + 16),
                recovery_list_oid: if version == 1 {
                    None
                } else {
                    Some(bytes::le_u64(block, 112))
                },
            },
        )
    }
}

impl ErState {
    /// Parses encryption-rolling state from its block.
    ///
    /// Two on-disk layouts exist. The current one (version 2) places the
    /// progress at offset 72. The older one (version 1) inserts two fields
    /// before it, shifting the progress, the total and the block map to
    /// 88/96/104, and has no recovery-list fields.
    pub fn parse(block: &[u8]) -> (parsed: Result<ErState, ApfsError>)
        ensures
            parsed == er_state_of(block@),
    {
        if block.len() < ER_STATE_PHYS_SIZE {
            return Err(
                ApfsError::Truncated {
                    structure: "er_state_phys_t",
                    expected: ER_STATE_PHYS_SIZE,
                    actual: block.len(),
                },
            );
        }
        let magic: u32 = bytes::read_u32(block, OBJ_PHYS_SIZE);
        if magic != ER_MAGIC {
            return Err(
                ApfsError::InvalidMagic {
                    structure: "er_state_phys_t",
                    expected: ER_MAGIC,
                    actual: magic,
                },
            );
        }
        let version: u32 = bytes::read_u32(block, OBJ_PHYS_SIZE + 4);
        // An unknown version must error, never misparse.
        let progress_at: usize;
        let recovery_list_oid: Option<u64>;
        if version == 1 {
            progress_at = 88;
            recovery_list_oid = None;
        } else if version == 2 {
            progress_at = 72;
            recovery_list_oid = Some(bytes::read_u64(block, 112));
        } else {
            return Err(ApfsError::Unsupported("unrecognized er_state_phys version"));
        }
        Ok(
            ErState {
                version,
                flags: ErStateFlags::from_bits_retain(bytes::read_u64(block, 40)),
                snap_xid: bytes::read_u64(block, 48),
                file_offset: bytes::read_u64(block, 64),
                progress: bytes::read_u64(block, progress_at),
                total_blocks: bytes::read_u64(block, progress_at + 8),
                blockmap_oid: bytes::read_u64(block, progress_at + 16),
                recovery_list_oid,
            },
        )
    }

    /// The current rolling phase.
    #[must_use]
    pub fn phase(&self) -> (phase: ErPhase)
        ensures
            phase == phase_of(self.flags.0),
    {
        ErPhase::from_flags(self.flags.bits())
    }

    /// Whether a roll is actively in progress (not paused or failed).
    #[must_use]
    pub fn is_rolling(&self) -> (rolling: bool)
        ensures
            rolling == ((self.flags.has(ErStateFlags::ENCRYPTING) || self.flags.has(
                ErStateFlags::DECRYPTING,
            ) || self.flags.has(ErStateFlags::KEYROLLING)) && !self.flags.has(
                ErStateFlags::PAUSED,
            ) && !self.flags.has(ErStateFlags::FAILED)),
    {
        (self.flags.contains(ErStateFlags::ENCRYPTING) || self.flags.contains(
            ErStateFlags::DECRYPTING,
        ) || self.flags.contains(ErStateFlags::KEYROLLING)) && !self.flags.contains(
            ErStateFlags::PAUSED,
        ) && !self.flags.contains(ErStateFlags::FAILED)
    }

    /// Whether the block at `block_index` has already been rolled.
    ///
    /// Blocks below the rolling progress are in the new state; blocks at or
    /// above it are still in the old state.
    #[must_use]
    pub fn is_rolled(&self, block_index: u64) -> (rolled: bool)
        ensures
            rolled == (block_index < self.progress),
    {
        block_index < self.progress
    }
}

/// A parsed encryption-rolling recovery block (`er_recovery_block_phys_t`).
#[derive(Debug, Clone, Copy, PartialEq, Eq, Structural)]
pub struct ErRecoveryBlock {
    /// Offset the recovery block applies to.
    pub offset: u64,
    /// Object id of the next recovery block, or zero at the end.
    pub next_oid: u64,
}

/// The recovery block in `block`.
pub open spec fn recovery_block_of(block: Seq<u8>) -> Result<ErRecoveryBlock, ApfsError> {
    if block.len() < ER_RECOVERY_BLOCK_SIZE {
        error::truncated("er_recovery_block_phys_t", ER_RECOVERY_BLOCK_SIZE as int, block.len())
    } else {
        Ok(
            ErRecoveryBlock {
                offset: bytes::le_u64(block, OBJ_PHYS_SIZE as int),
                next_oid: bytes::le_u64(block, OBJ_PHYS_SIZE + 8),
            },
        )
    }
}

impl ErRecoveryBlock {
    /// Parses an `er_recovery_block_phys_t` block.
    pub fn parse(block: &[u8]) -> (parsed: Result<ErRecoveryBlock, ApfsError>)
        ensures
            parsed == recovery_block_of(block@),
    {
        if block.len() < ER_RECOVERY_BLOCK_SIZE {
            return Err(
                ApfsError::Truncated {
                    structure: "er_recovery_block_phys_t",
                    expected: ER_RECOVERY_BLOCK_SIZE,
                    actual: block.len(),
                },
            );
        }
        Ok(
            ErRecoveryBlock {
                offset: bytes::read_u64(block, OBJ_PHYS_SIZE),
                next_oid: bytes::read_u64(block, OBJ_PHYS_SIZE + 8),
            },
        )
    }
}

/// A parsed general-purpose bitmap object (`gbitmap_phys_t`).
#[derive(Debug, Clone, Copy, PartialEq, Eq, Structural)]
pub struct GeneralBitmap {
    /// Object id of the bitmap's B-tree.
    pub tree_oid: u64,
    /// Number of bits the bitmap tracks.
    pub bit_count: u64,
    /// Bitmap flags.
    pub flags: u64,
}

/// The general-purpose bitmap object in `block`.
pub open spec fn general_bitmap_of(block: Seq<u8>) -> Result<GeneralBitmap, ApfsError> {
    if block.len() < GBITMAP_PHYS_SIZE {
        error::truncated("gbitmap_phys_t", GBITMAP_PHYS_SIZE as int, block.len())
    } else {
        Ok(
            GeneralBitmap {
                tree_oid: bytes::le_u64(block, OBJ_PHYS_SIZE as int),
                bit_count: bytes::le_u64(block, OBJ_PHYS_SIZE + 8),
                flags: bytes::le_u64(block, OBJ_PHYS_SIZE + 16),
            },
        )
    }
}

impl GeneralBitmap {
    /// Parses a `gbitmap_phys_t` block.
    pub fn parse(block: &[u8]) -> (parsed: Result<GeneralBitmap, ApfsError>)
        ensures
            parsed == general_bitmap_of(block@),
    {
        if block.len() < GBITMAP_PHYS_SIZE {
            return Err(
                ApfsError::Truncated {
                    structure: "gbitmap_phys_t",
                    expected: GBITMAP_PHYS_SIZE,
                    actual: block.len(),
                },
            );
        }
        Ok(
            GeneralBitmap {
                tree_oid: bytes::read_u64(block, OBJ_PHYS_SIZE),
                bit_count: bytes::read_u64(block, OBJ_PHYS_SIZE + 8),
                flags: bytes::read_u64(block, OBJ_PHYS_SIZE + 16),
            },
        )
    }
}

/// Reads bit `index` from the `bmb_field` words of a `gbitmap_block_phys_t`.
///
/// Returns `false` for an index past the block.
#[must_use]
pub fn gbitmap_block_bit(block: &[u8], index: u64) -> (set: bool)
    ensures
        set == (OBJ_PHYS_SIZE + index / 8 < block@.len() && bytes::bit_set(
            block@.skip(OBJ_PHYS_SIZE as int),
            index as int,
        )),
{
    if block.len() < OBJ_PHYS_SIZE {
        return false;
    }
    let field: &[u8] = bytes::skip_bytes(block, OBJ_PHYS_SIZE);
    index / 8 < field.len() as u64 && bytes::test_bit(field, index)
}

} // verus!
