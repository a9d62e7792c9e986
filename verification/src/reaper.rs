//! The reaper (`nx_reaper_phys_t`): deferred object deletion.
//!
//! The reaper frees objects too large to delete between two transactions,
//! tracking the deletion across multiple transactions. Reaper state names
//! objects that were mid-deletion, a forensic indicator of recently removed
//! large files or volumes.

use vstd::prelude::*;

use crate::bytes;
use crate::error;
use crate::error::ApfsError;
use crate::object::OBJ_PHYS_SIZE;

verus! {

/// Offset of the `nrl_entries` array within `nx_reap_list_phys_t`.
pub const NRL_ENTRIES_OFFSET: usize = OBJ_PHYS_SIZE + 32;

/// Size of an `nx_reap_list_entry_t`.
pub const REAP_LIST_ENTRY_SIZE: usize = 40;

/// Size of the `nx_reaper_phys_t` prefix this parser decodes.
pub const REAPER_PREFIX_SIZE: usize = OBJ_PHYS_SIZE + 0x48;

/// Reaper flags (`nr_flags`).
#[derive(Debug, Clone, Copy, PartialEq, Eq, Structural)]
pub struct ReaperFlags(pub u32);

impl ReaperFlags {
    /// The reaper is between hashed-object-map phases.
    pub const BHM_FLAG: u32 = 0x0000_0001;

    /// The reaper has more work and should continue.
    pub const CONTINUE: u32 = 0x0000_0002;

    /// The raw bits of the set.
    #[must_use]
    pub fn bits(self) -> (bits: u32)
        ensures
            bits == self.0,
    {
        self.0
    }

    /// The set with the given bits, known or not.
    #[must_use]
    pub fn from_bits_retain(bits: u32) -> (flags: ReaperFlags)
        ensures
            flags == ReaperFlags(bits),
    {
        ReaperFlags(bits)
    }

    /// Whether every bit of `flag` is set.
    pub open spec fn has(self, flag: u32) -> bool {
        self.0 & flag == flag
    }

    /// Whether every bit of `flag` is set.
    #[must_use]
    pub fn contains(self, flag: u32) -> (set: bool)
        ensures
            set == self.has(flag),
    {
        self.0 & flag == flag
    }
}

/// Reap-list entry flags (`nrle_flags`).
#[derive(Debug, Clone, Copy, PartialEq, Eq, Structural)]
pub struct ReapListEntryFlags(pub u32);

impl ReapListEntryFlags {
    /// The entry is valid.
    pub const VALID: u32 = 0x0000_0001;

    /// The entry is a reap-id record.
    pub const REAP_ID_RECORD: u32 = 0x0000_0002;

    /// The entry needs a reaper callback.
    pub const CALL: u32 = 0x0000_0004;

    /// The entry marks a completion.
    pub const COMPLETION: u32 = 0x0000_0008;

    /// The entry marks a cleanup step.
    pub const CLEANUP: u32 = 0x0000_0010;

    /// The raw bits of the set.
    #[must_use]
    pub fn bits(self) -> (bits: u32)
        ensures
            bits == self.0,
    {
        self.0
    }

    /// The set with the given bits, known or not.
    #[must_use]
    pub fn from_bits_retain(bits: u32) -> (flags: ReapListEntryFlags)
        ensures
            flags == ReapListEntryFlags(bits),
    {
        ReapListEntryFlags(bits)
    }

    /// Whether every bit of `flag` is set.
    pub open spec fn has(self, flag: u32) -> bool {
        self.0 & flag == flag
    }

    /// Whether every bit of `flag` is set.
    #[must_use]
    pub fn contains(self, flag: u32) -> (set: bool)
        ensures
            set == self.has(flag),
    {
        self.0 & flag == flag
    }
}

/// A volume reaper phase (`APFS_REAP_PHASE_*`).
#[derive(Debug, Clone, Copy, PartialEq, Eq, Structural)]
pub enum ReapPhase {
    /// The reaper has not started.
    Start,
    /// The reaper is freeing snapshots.
    Snapshots,
    /// The reaper is freeing the active file system.
    ActiveFs,
    /// The reaper is destroying the object map.
    DestroyOmap,
    /// The reaper has finished.
    Done,
    /// A phase value this parser does not recognize.
    Unknown(u32),
}

/// The phase with the given value.
pub open spec fn phase_of(value: u32) -> ReapPhase {
    if value == 0 {
        ReapPhase::Start
    } else if value == 1 {
        ReapPhase::Snapshots
    } else if value == 2 {
        ReapPhase::ActiveFs
    } else if value == 3 {
        ReapPhase::DestroyOmap
    } else if value == 4 {
        ReapPhase::Done
    } else {
        ReapPhase::Unknown(value)
    }
}

impl ReapPhase {
    /// Decodes a reap-phase value.
    #[must_use]
    pub fn from_value(value: u32) -> (phase: ReapPhase)
        ensures
            phase == phase_of(value),
    {
        match value {
            0 => ReapPhase::Start,
            1 => ReapPhase::Snapshots,
            2 => ReapPhase::ActiveFs,
            3 => ReapPhase::DestroyOmap,
            4 => ReapPhase::Done,
            other => ReapPhase::Unknown(other),
        }
    }
}

/// A parsed container reaper (`nx_reaper_phys_t`).
#[derive(Debug, Clone, Copy, PartialEq, Eq, Structural)]
pub struct Reaper {
    /// The next reap identifier to assign.
    pub next_reap_id: u64,
    /// The most recently completed reap identifier.
    pub completed_id: u64,
    /// Object id of the first reap list in the chain.
    pub head: u64,
    /// Object id of the last reap list in the chain.
    pub tail: u64,
    /// Reaper flags.
    pub flags: ReaperFlags,
    /// Number of reap lists in the chain.
    pub list_count: u32,
    /// Object id of the object currently being reaped.
    pub current_oid: u64,
    /// Volume object id the current object belongs to.
    pub current_fs_oid: u64,
    /// Transaction id of the current reap.
    pub current_xid: u64,
}

/// The reaper in `block`.
pub open spec fn reaper_of(block: Seq<u8>) -> Result<Reaper, ApfsError> {
    if block.len() < REAPER_PREFIX_SIZE {
        error::truncated("nx_reaper_phys_t", REAPER_PREFIX_SIZE as int, block.len())
    } else {
        Ok(
            Reaper {
                next_reap_id: bytes::le_u64(block, 0x20),
                completed_id: bytes::le_u64(block, 0x28),
                head: bytes::le_u64(block, 0x30),
                tail: bytes::le_u64(block, 0x38),
                flags: ReaperFlags(bytes::le_u32(block, 0x40)),
                list_count: bytes::le_u32(block, 0x44),
                current_fs_oid: bytes::le_u64(block, 0x50),
                current_oid: bytes::le_u64(block, 0x58),
                current_xid: bytes::le_u64(block, 0x60),
            },
        )
    }
}

impl Reaper {
    /// Parses a reaper from its (ephemeral) block.
    pub fn parse(block: &[u8]) -> (parsed: Result<Reaper, ApfsError>)
        ensures
            parsed == reaper_of(block@),
    {
        if block.len() < REAPER_PREFIX_SIZE {
            return Err(
                ApfsError::Truncated {
                    structure: "nx_reaper_phys_t",
                    expected: REAPER_PREFIX_SIZE,
                    actual: block.len(),
                },
            );
        }
        Ok(
            Reaper {
                next_reap_id: bytes::read_u64(block, 0x20),
                completed_id: bytes::read_u64(block, 0x28),
                head: bytes::read_u64(block, 0x30),
                tail: bytes::read_u64(block, 0x38),
                flags: ReaperFlags::from_bits_retain(bytes::read_u32(block, 0x40)),
                list_count: bytes::read_u32(block, 0x44),
                current_fs_oid: bytes::read_u64(block, 0x50),
                current_oid: bytes::read_u64(block, 0x58),
                current_xid: bytes::read_u64(block, 0x60),
            },
        )
    }

    /// Whether the reaper has deletions in progress.
    #[must_use]
    pub fn is_active(&self) -> (active: bool)
        ensures
            active == (self.flags.has(ReaperFlags::CONTINUE) || self.current_oid != 0),
    {
        self.flags.contains(ReaperFlags::CONTINUE) || self.current_oid != 0
    }
}

/// One entry of a reap list (`nx_reap_list_entry_t`).
#[derive(Debug, Clone, Copy, PartialEq, Eq, Structural)]
pub struct ReapListEntry {
    /// Index of the next entry in the list, or all-ones for the end.
    pub next: u32,
    /// Entry flags.
    pub flags: ReapListEntryFlags,
    /// The object's type.
    pub obj_type: u32,
    /// The object's size.
    pub size: u32,
    /// Volume object id the object belongs to.
    pub fs_oid: u64,
    /// The object's identifier.
    pub oid: u64,
    /// Transaction id of the reap.
    pub xid: u64,
}

/// A parsed reap list (`nx_reap_list_phys_t`).
#[derive(Debug, Clone, PartialEq, Eq)]
pub struct ReapList {
    /// Object id of the next reap list in the chain (zero at the end).
    pub next: u64,
    /// The list's entries.
    pub entries: Vec<ReapListEntry>,
}

/// The content of a [`ReapList`].
#[verifier::ext_equal]
pub struct ReapListView {
    /// Object id of the next reap list in the chain.
    pub next: u64,
    /// The list's entries.
    pub entries: Seq<ReapListEntry>,
}

impl View for ReapList {
    type V = ReapListView;

    open spec fn view(&self) -> ReapListView {
        ReapListView { next: self.next, entries: self.entries@ }
    }
}

/// The reap-list entry at `at`.
pub open spec fn reap_entry_at(block: Seq<u8>, at: int) -> ReapListEntry {
    ReapListEntry {
        next: bytes::le_u32(block, at),
        flags: ReapListEntryFlags(bytes::le_u32(block, at + 4)),
        obj_type: bytes::le_u32(block, at + 8),
        size: bytes::le_u32(block, at + 12),
        fs_oid: bytes::le_u64(block, at + 16),
        oid: bytes::le_u64(block, at + 24),
        xid: bytes::le_u64(block, at + 32),
    }
}

/// The first `count` entries of a reap-list block.
pub open spec fn reap_entries(block: Seq<u8>, count: nat) -> Seq<ReapListEntry> {
    Seq::new(
        count,
        |i: int| reap_entry_at(block, NRL_ENTRIES_OFFSET + i * REAP_LIST_ENTRY_SIZE),
    )
}

/// The reap list in `block`: as many entries as its live-entry count says.
pub open spec fn reap_list_of(block: Seq<u8>) -> Result<ReapListView, ApfsError> {
    let count = bytes::le_u32(block, OBJ_PHYS_SIZE + 16);
    if block.len() < NRL_ENTRIES_OFFSET {
        error::truncated("nx_reap_list_phys_t", NRL_ENTRIES_OFFSET as int, block.len())
    } else if NRL_ENTRIES_OFFSET + count * REAP_LIST_ENTRY_SIZE > block.len() {
        error::malformed("nx_reap_list_phys_t", "reap-list entry count exceeds the block")
    } else {
        Ok(
            ReapListView {
                next: bytes::le_u64(block, OBJ_PHYS_SIZE as int),
                entries: reap_entries(block, count as nat),
            },
        )
    }
}

/// The entries that are valid.
pub open spec fn pending_of(entries: Seq<ReapListEntry>) -> Seq<ReapListEntry> {
    entries.filter(|entry: ReapListEntry| entry.flags.has(ReapListEntryFlags::VALID))
}

impl ReapList {
    /// Parses a reap-list block.
    pub fn parse(block: &[u8]) -> (parsed: Result<ReapList, ApfsError>)
        ensures
            error::viewed(parsed) == reap_list_of(block@),
    {
        if block.len() < NRL_ENTRIES_OFFSET {
            return Err(
                ApfsError::Truncated {
                    structure: "nx_reap_list_phys_t",
                    expected: NRL_ENTRIES_OFFSET,
                    actual: block.len(),
                },
            );
        }
        let next: u64 = bytes::read_u64(block, OBJ_PHYS_SIZE);
        // The live entry count follows the capacity.
        let count: u32 = bytes::read_u32(block, OBJ_PHYS_SIZE + 16);
        let needed: u64 = NRL_ENTRIES_OFFSET as u64 + count as u64 * REAP_LIST_ENTRY_SIZE as u64;
        if needed > block.len() as u64 {
            return Err(
                ApfsError::Malformed {
                    structure: "nx_reap_list_phys_t",
                    reason: "reap-list entry count exceeds the block",
                },
            );
        }
        let mut entries: Vec<ReapListEntry> = Vec::new();
        let mut i: usize = 0;
        while i < count as usize
            invariant
                i <= count,
                NRL_ENTRIES_OFFSET + count * REAP_LIST_ENTRY_SIZE <= block.len(),
                entries@ =~= reap_entries(block@, i as nat),
            decreases count - i,
        {
            let at: usize = NRL_ENTRIES_OFFSET + i * REAP_LIST_ENTRY_SIZE;
            entries.push(
                ReapListEntry {
                    next: bytes::read_u32(block, at),
                    flags: ReapListEntryFlags::from_bits_retain(bytes::read_u32(block, at + 4)),
                    obj_type: bytes::read_u32(block, at + 8),
                    size: bytes::read_u32(block, at + 12),
                    fs_oid: bytes::read_u64(block, at + 16),
                    oid: bytes::read_u64(block, at + 24),
                    xid: bytes::read_u64(block, at + 32),
                },
            );
            i += 1;
        }
        Ok(ReapList { next, entries })
    }

    /// The valid entries of the list: objects pending reap.
    #[must_use]
    pub fn pending(&self) -> (pending: Vec<ReapListEntry>)
        ensures
            pending@ == pending_of(self.entries@),
    {
        let mut pending: Vec<ReapListEntry> = Vec::new();
        let mut i: usize = 0;
        proof {
            reveal(Seq::filter);
        }
        while i < self.entries.len()
            invariant
                i <= self.entries@.len(),
                pending@ == pending_of(self.entries@.take(i as int)),
            decreases self.entries@.len() - i,
        {
            let entry: ReapListEntry = self.entries[i];
            proof {
                reveal(Seq::filter);
                assert(self.entries@.take(i + 1).drop_last() =~= self.entries@.take(i as int));
            }
            if entry.flags.contains(ReapListEntryFlags::VALID) {
                pending.push(entry);
            }
            i += 1;
        }
        proof {
            assert(self.entries@.take(i as int) =~= self.entries@);
        }
        pending
    }
}

/// The entries pending reap are those with an odd flags word, in the order of the list.
pub proof fn law_pending_entries_are_marked_valid(entries: Seq<ReapListEntry>)
    ensures
        pending_of(entries) == entries.filter(|entry: ReapListEntry| entry.flags.0 % 2 == 1),
    decreases entries.len(),
{
    reveal(Seq::filter);
    if entries.len() > 0 {
        law_pending_entries_are_marked_valid(entries.drop_last());
        let flags = entries.last().flags.0;
        assert(flags & 1 == 1 <==> flags % 2 == 1) by (bit_vector);
    }
}

} // verus!
