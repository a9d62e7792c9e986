//! Fusion-drive support: address markers, write-back cache, middle tree.
//!
//! A Fusion drive presents a solid-state drive and a hard drive as one APFS
//! container. Block addresses are tagged to select the device, and an SSD
//! write-back cache tracks blocks staged for the hard drive.

use vstd::prelude::*;

use vstd::arithmetic::div_mod::*;
use vstd::arithmetic::power2::*;

use crate::bytes;
use crate::error;
use crate::error::ApfsError;
use crate::io;
use crate::io::{Device, Error, ErrorKind, Reader, SeekFrom};
use crate::object::OBJ_PHYS_SIZE;

verus! {

/// Byte-address marker selecting the Fusion tier-2 (hard-drive) device.
pub const FUSION_TIER2_DEVICE_BYTE_ADDR: u64 = 0x4000_0000_0000_0000;

/// Size of a `fusion_wbc_phys_t`.
pub const FUSION_WBC_SIZE: usize = OBJ_PHYS_SIZE + 56;

/// Size of a `fusion_wbc_list_entry_t`.
pub const FUSION_WBC_LIST_ENTRY_SIZE: usize = 24;

/// Offset of the `fwlp_listEntries` array within `fusion_wbc_list_phys_t`.
pub const FUSION_WBC_LIST_ENTRIES_OFFSET: usize = OBJ_PHYS_SIZE + 32;

/// Size of a `fusion_mt_val_t`.
pub const FUSION_MT_VAL_SIZE: usize = 16;

/// Fusion middle-tree flags (`FUSION_MT_*`).
#[derive(Debug, Clone, Copy, PartialEq, Eq, Structural)]
pub struct FusionMtFlags(pub u32);

impl FusionMtFlags {
    /// The cached block is dirty (not yet written back to the hard drive).
    pub const DIRTY: u32 = 0x0000_0001;

    /// The block belongs to a tenant.
    pub const TENANT: u32 = 0x0000_0002;

    /// The raw bits of the set.
    #[must_use]
    pub fn bits(self) -> (bits: u32)
        ensures
            bits == self.0,
    {
        self.0
    }

    /// The set with the given bits, known or not.
    #[must_use]
    pub fn from_bits_retain(bits: u32) -> (flags: FusionMtFlags)
        ensures
            flags == FusionMtFlags(bits),
    {
        FusionMtFlags(bits)
    }

    /// Whether every bit of `flag` is set.
    pub open spec fn has(self, flag: u32) -> bool {
        self.0 & flag == flag
    }

    /// Whether every bit of `flag` is set.
    #[must_use]
    pub fn contains(self, flag: u32) -> (set: bool)
        ensures
            set == self.has(flag),
    {
        self.0 & flag == flag
    }
}

/// A decoded Fusion block address: which device, and the block on it.
#[derive(Debug, Clone, Copy, PartialEq, Eq, Structural)]
pub struct FusionAddress {
    /// Whether the address is on the tier-2 (hard-drive) device.
    pub tier2: bool,
    /// The block number on the selected device.
    pub block: u64,
}

/// The byte-address marker divided by the largest power of two that divides
/// `block_size`.
pub open spec fn marker_of(block_size: nat) -> nat
    decreases block_size,
{
    if block_size == 0 {
        0
    } else if block_size % 2 == 1 {
        FUSION_TIER2_DEVICE_BYTE_ADDR as nat
    } else {
        marker_of(block_size / 2) / 2
    }
}

/// The device and the block that a tagged address selects.
pub open spec fn address_of(addr: u64, block_size: u32) -> FusionAddress {
    let marker = marker_of(block_size as nat) as u64;
    if marker != 0 && addr & marker != 0 {
        FusionAddress { tier2: true, block: addr & !marker }
    } else {
        FusionAddress { tier2: false, block: addr }
    }
}

proof fn lemma_marker_bound(block_size: nat)
    ensures
        marker_of(block_size) <= FUSION_TIER2_DEVICE_BYTE_ADDR,
    decreases block_size,
{
    if block_size != 0 && block_size % 2 == 0 {
        lemma_marker_bound(block_size / 2);
    }
}

proof fn lemma_marker_of_power(exponent: nat)
    requires
        exponent <= 62,
    ensures
        marker_of(pow2(exponent)) == pow2((62 - exponent) as nat),
    decreases exponent,
{
    lemma2_to64();
    lemma2_to64_rest();
    if exponent > 0 {
        let less = (exponent - 1) as nat;
        lemma_marker_of_power(less);
        lemma_pow2_unfold(exponent);
        lemma_pow2_pos(less);
        lemma_pow2_unfold((62 - less) as nat);
        assert((62 - less) as nat - 1 == 62 - exponent);
    }
}

/// Where the block size is a power of two, the marked block address is the
/// marked byte address.
pub proof fn law_marker_is_the_byte_marker(block_size: u32, exponent: nat)
    requires
        block_size == pow2(exponent),
    ensures
        marker_of(block_size as nat) * block_size == FUSION_TIER2_DEVICE_BYTE_ADDR,
{
    lemma2_to64();
    lemma2_to64_rest();
    if exponent > 32 {
        lemma_pow2_strictly_increases(32, exponent);
    }
    lemma_marker_of_power(exponent);
    lemma_pow2_adds((62 - exponent) as nat, exponent);
}

/// A block number without the marker bit decodes to that block of the main
/// device, and with the bit added to that block of the hard drive.
pub proof fn law_tagged_address_decodes(block: u64, block_size: u32)
    requires
        marker_of(block_size as nat) != 0,
        block & (marker_of(block_size as nat) as u64) == 0,
    ensures
        address_of(block, block_size) == (FusionAddress { tier2: false, block }),
        address_of(block | (marker_of(block_size as nat) as u64), block_size) == (FusionAddress {
            tier2: true,
            block,
        }),
{
    lemma_marker_bound(block_size as nat);
    let marker = marker_of(block_size as nat) as u64;
    assert((block | marker) & marker != 0 && (block | marker) & !marker == block) by (bit_vector)
        requires
            marker != 0,
            block & marker == 0,
    ;
}

/// The tier-2 block-address marker for a given block size.
///
/// A block address with this bit set refers to the hard drive.
#[must_use]
pub fn tier2_marker(block_size: u32) -> (marker: u64)
    ensures
        marker == marker_of(block_size as nat),
{
    if block_size == 0 {
        return 0;
    }
    let mut size: u32 = block_size;
    let mut divisor: u64 = 1;
    while size % 2 == 0
        invariant
            size > 0,
            divisor > 0,
            size * divisor == block_size,
            marker_of(block_size as nat) == marker_of(size as nat) / divisor as nat,
        decreases size,
    {
        proof {
            let half = size / 2;
            let whole = marker_of(half as nat);
            assert(half * (divisor * 2) == size * divisor) by (nonlinear_arith)
                requires
                    size == half * 2,
            ;
            assert(divisor <= block_size) by (nonlinear_arith)
                requires
                    size > 0,
                    size * divisor == block_size,
            ;
            vstd::arithmetic::div_mod::lemma_div_denominator(
                whole as int,
                2,
                divisor as int,
            );
        }
        size = size / 2;
        divisor = divisor * 2;
    }
    FUSION_TIER2_DEVICE_BYTE_ADDR / divisor
}

/// Decodes a Fusion-tagged block address into its device and block number.
#[must_use]
pub fn decode_address(addr: u64, block_size: u32) -> (decoded: FusionAddress)
    ensures
        decoded == address_of(addr, block_size),
{
    let marker: u64 = tier2_marker(block_size);
    if marker != 0 && addr & marker != 0 {
        FusionAddress { tier2: true, block: addr & !marker }
    } else {
        FusionAddress { tier2: false, block: addr }
    }
}

/// A parsed Fusion write-back cache (`fusion_wbc_phys_t`).
#[derive(Debug, Clone, Copy, PartialEq, Eq, Structural)]
pub struct FusionWbc {
    /// The write-back cache format version.
    pub version: u64,
    /// Object id of the first write-back-cache list.
    pub list_head_oid: u64,
    /// Object id of the last write-back-cache list.
    pub list_tail_oid: u64,
    /// Number of blocks the list chain occupies.
    pub list_blocks_count: u32,
}

/// The write-back cache in `block`.
pub open spec fn wbc_of(block: Seq<u8>) -> Result<FusionWbc, ApfsError> {
    if block.len() < FUSION_WBC_SIZE {
        error::truncated("fusion_wbc_phys_t", FUSION_WBC_SIZE as int, block.len())
    } else {
        Ok(
            FusionWbc {
                version: bytes::le_u64(block, OBJ_PHYS_SIZE as int),
                list_head_oid: bytes::le_u64(block, OBJ_PHYS_SIZE + 8),
                list_tail_oid: bytes::le_u64(block, OBJ_PHYS_SIZE + 16),
                list_blocks_count: bytes::le_u32(block, OBJ_PHYS_SIZE + 40),
            },
        )
    }
}

impl FusionWbc {
    /// Parses a `fusion_wbc_phys_t` block.
    pub fn parse(block: &[u8]) -> (parsed: Result<FusionWbc, ApfsError>)
        ensures
            parsed == wbc_of(block@),
    {
        if block.len() < FUSION_WBC_SIZE {
            return Err(
                ApfsError::Truncated {
                    structure: "fusion_wbc_phys_t",
                    expected: FUSION_WBC_SIZE,
                    actual: block.len(),
                },
            );
        }
        Ok(
            FusionWbc {
                version: bytes::read_u64(block, OBJ_PHYS_SIZE),
                list_head_oid: bytes::read_u64(block, OBJ_PHYS_SIZE + 8),
                list_tail_oid: bytes::read_u64(block, OBJ_PHYS_SIZE + 16),
                list_blocks_count: bytes::read_u32(block, OBJ_PHYS_SIZE + 40),
            },
        )
    }
}

/// One write-back-cache mapping (`fusion_wbc_list_entry_t`).
#[derive(Debug, Clone, Copy, PartialEq, Eq, Structural)]
pub struct FusionWbcEntry {
    /// Block address of the cached copy on the solid-state drive.
    pub wbc_lba: i64,
    /// Block address of the data's home on the hard drive.
    pub target_lba: i64,
    /// Length of the cached run, in blocks.
    pub length: u64,
}

impl FusionWbcEntry {
    /// Whether `target` falls within this entry's hard-drive run, which is at
    /// most `i64::MAX` blocks long.
    pub open spec fn has(self, target: i64) -> bool {
        let offset = target - self.target_lba;
        0 <= offset < self.length && offset < i64::MAX
    }

    /// Whether `target` falls within this entry's hard-drive run.
    #[must_use]
    pub fn covers(&self, target: i64) -> (covered: bool)
        ensures
            covered == self.has(target),
    {
        let offset: i128 = target as i128 - self.target_lba as i128;
        0 <= offset && offset < self.length as i128 && offset < i64::MAX as i128
    }
}

/// A parsed write-back-cache list block (`fusion_wbc_list_phys_t`).
#[derive(Debug, Clone, PartialEq, Eq)]
pub struct FusionWbcList {
    /// The list's mappings.
    pub entries: Vec<FusionWbcEntry>,
}

impl View for FusionWbcList {
    type V = Seq<FusionWbcEntry>;

    open spec fn view(&self) -> Seq<FusionWbcEntry> {
        self.entries@
    }
}

/// Entry `index` of a write-back-cache list block.
pub open spec fn wbc_entry_at(block: Seq<u8>, index: int) -> FusionWbcEntry {
    let at = FUSION_WBC_LIST_ENTRIES_OFFSET + index * FUSION_WBC_LIST_ENTRY_SIZE;
    FusionWbcEntry {
        wbc_lba: bytes::le_i64(block, at),
        target_lba: bytes::le_i64(block, at + 8),
        length: bytes::le_u64(block, at + 16),
    }
}

/// The entries from index `begin` up to index `end`.
pub open spec fn wbc_entries(block: Seq<u8>, begin: int, end: int) -> Seq<FusionWbcEntry> {
    Seq::new((end - begin) as nat, |i: int| wbc_entry_at(block, begin + i))
}

/// The write-back-cache list in `block`: the entries between its begin index
/// and its end index.
pub open spec fn wbc_list_of(block: Seq<u8>) -> Result<Seq<FusionWbcEntry>, ApfsError> {
    let begin = bytes::le_u32(block, OBJ_PHYS_SIZE + 16);
    let end = bytes::le_u32(block, OBJ_PHYS_SIZE + 20);
    if block.len() < FUSION_WBC_LIST_ENTRIES_OFFSET {
        error::truncated(
            "fusion_wbc_list_phys_t",
            FUSION_WBC_LIST_ENTRIES_OFFSET as int,
            block.len(),
        )
    } else if end < begin {
        error::malformed("fusion_wbc_list_phys_t", "list end index precedes the begin index")
    } else if FUSION_WBC_LIST_ENTRIES_OFFSET + end * FUSION_WBC_LIST_ENTRY_SIZE > block.len() {
        error::malformed("fusion_wbc_list_phys_t", "list entry range exceeds the block")
    } else {
        Ok(wbc_entries(block, begin as int, end as int))
    }
}

/// The sum of two addresses, kept within the range of an address.
pub open spec fn clamped_sum(base: i64, offset: int) -> i64 {
    if base + offset > i64::MAX {
        i64::MAX
    } else {
        (base + offset) as i64
    }
}

/// The cached copy that the first entry covering `target` gives.
pub open spec fn copy_in(entries: Seq<FusionWbcEntry>, target: i64) -> Option<i64>
    decreases entries.len(),
{
    if entries.len() == 0 {
        None
    } else if entries[0].has(target) {
        Some(clamped_sum(entries[0].wbc_lba, target - entries[0].target_lba))
    } else {
        copy_in(entries.drop_first(), target)
    }
}

impl FusionWbcList {
    /// Parses a `fusion_wbc_list_phys_t` block.
    pub fn parse(block: &[u8]) -> (parsed: Result<FusionWbcList, ApfsError>)
        ensures
            error::viewed(parsed) == wbc_list_of(block@),
    {
        if block.len() < FUSION_WBC_LIST_ENTRIES_OFFSET {
            return Err(
                ApfsError::Truncated {
                    structure: "fusion_wbc_list_phys_t",
                    expected: FUSION_WBC_LIST_ENTRIES_OFFSET,
                    actual: block.len(),
                },
            );
        }
        let begin: u32 = bytes::read_u32(block, OBJ_PHYS_SIZE + 16);
        let end: u32 = bytes::read_u32(block, OBJ_PHYS_SIZE + 20);
        if end < begin {
            return Err(
                ApfsError::Malformed {
                    structure: "fusion_wbc_list_phys_t",
                    reason: "list end index precedes the begin index",
                },
            );
        }
        let needed: u64 = FUSION_WBC_LIST_ENTRIES_OFFSET as u64 + end as u64
            * FUSION_WBC_LIST_ENTRY_SIZE as u64;
        if needed > block.len() as u64 {
            return Err(
                ApfsError::Malformed {
                    structure: "fusion_wbc_list_phys_t",
                    reason: "list entry range exceeds the block",
                },
            );
        }
        let mut entries: Vec<FusionWbcEntry> = Vec::new();
        let mut i: u32 = begin;
        while i < end
            invariant
                begin <= i <= end,
                FUSION_WBC_LIST_ENTRIES_OFFSET + end * FUSION_WBC_LIST_ENTRY_SIZE <= block.len(),
                entries@ =~= wbc_entries(block@, begin as int, i as int),
            decreases end - i,
        {
            let at: usize = FUSION_WBC_LIST_ENTRIES_OFFSET + i as usize
                * FUSION_WBC_LIST_ENTRY_SIZE;
            entries.push(
                FusionWbcEntry {
                    wbc_lba: bytes::read_i64(block, at),
                    target_lba: bytes::read_i64(block, at + 8),
                    length: bytes::read_u64(block, at + 16),
                },
            );
            i += 1;
        }
        Ok(FusionWbcList { entries })
    }

    /// Resolves a hard-drive block to its cached solid-state copy, if any.
    #[must_use]
    pub fn cached_copy(&self, target_block: i64) -> (copy: Option<i64>)
        ensures
            copy == copy_in(self@, target_block),
    {
        let mut i: usize = 0;
        proof {
            assert(self@.skip(0) =~= self@);
        }
        while i < self.entries.len()
            invariant
                i <= self.entries@.len(),
                copy_in(self@, target_block) == copy_in(self@.skip(i as int), target_block),
            decreases self.entries@.len() - i,
        {
            let entry: FusionWbcEntry = self.entries[i];
            if entry.covers(target_block) {
                let copy: i128 = entry.wbc_lba as i128 + (target_block as i128
                    - entry.target_lba as i128);
                // A malformed cache address saturates.
                if copy > i64::MAX as i128 {
                    return Some(i64::MAX);
                }
                return Some(copy as i64);
            }
            proof {
                assert(self@.skip(i as int).drop_first() =~= self@.skip(i + 1));
            }
            i += 1;
        }
        None
    }
}

/// A parsed Fusion middle-tree value (`fusion_mt_val_t`).
#[derive(Debug, Clone, Copy, PartialEq, Eq, Structural)]
pub struct FusionMtVal {
    /// Block address of the cached data.
    pub lba: i64,
    /// Length of the cached run, in blocks.
    pub length: u32,
    /// Middle-tree flags.
    pub flags: FusionMtFlags,
}

/// The middle-tree value in `value`.
pub open spec fn mt_val_of(value: Seq<u8>) -> Result<FusionMtVal, ApfsError> {
    if value.len() < FUSION_MT_VAL_SIZE {
        error::truncated("fusion_mt_val_t", FUSION_MT_VAL_SIZE as int, value.len())
    } else {
        Ok(
            FusionMtVal {
                lba: bytes::le_i64(value, 0),
                length: bytes::le_u32(value, 8),
                flags: FusionMtFlags(bytes::le_u32(value, 12)),
            },
        )
    }
}

impl FusionMtVal {
    /// Parses a `fusion_mt_val_t` value (16 bytes).
    pub fn parse(value: &[u8]) -> (parsed: Result<FusionMtVal, ApfsError>)
        ensures
            parsed == mt_val_of(value@),
    {
        if value.len() < FUSION_MT_VAL_SIZE {
            return Err(
                ApfsError::Truncated {
                    structure: "fusion_mt_val_t",
                    expected: FUSION_MT_VAL_SIZE,
                    actual: value.len(),
                },
            );
        }
        Ok(
            FusionMtVal {
                lba: bytes::read_i64(value, 0),
                length: bytes::read_u32(value, 8),
                flags: FusionMtFlags::from_bits_retain(bytes::read_u32(value, 12)),
            },
        )
    }
}

/// A cached run: the first hard-drive block, the first main-device block, and
/// the number of blocks.
#[derive(Debug, Clone, Copy, PartialEq, Eq, Structural)]
pub struct CachedRun {
    /// First block of the run on the hard drive.
    pub tier2_start: u64,
    /// First block of its copy on the main device.
    pub main_start: u64,
    /// Number of blocks.
    pub length: u64,
}

/// A read-time map from tier-2 (hard-drive) blocks to their cached copies on
/// the main (solid-state) device.
///
/// Built from a volume's Fusion write-back cache; a [`FusionReader`] consults
/// it so a read of a cached hard-drive block is served from the faster SSD
/// copy, exactly as the live file system would.
#[derive(Debug, Clone)]
pub struct FusionCache {
    runs: Vec<CachedRun>,
}

impl View for FusionCache {
    type V = Seq<CachedRun>;

    closed spec fn view(&self) -> Seq<CachedRun> {
        self.runs@
    }
}

impl Default for FusionCache {
    fn default() -> (cache: FusionCache)
        ensures
            cache@ == Seq::<CachedRun>::empty(),
    {
        FusionCache { runs: Vec::new() }
    }
}

/// The runs with another one at their end; an empty run adds nothing.
pub open spec fn with_run(runs: Seq<CachedRun>, run: CachedRun) -> Seq<CachedRun> {
    if run.length == 0 {
        runs
    } else {
        runs.push(run)
    }
}

/// The cached runs that write-back-cache entries give; an entry with a negative
/// address gives none.
pub open spec fn runs_of(entries: Seq<FusionWbcEntry>) -> Seq<CachedRun>
    decreases entries.len(),
{
    if entries.len() == 0 {
        Seq::empty()
    } else {
        let before = runs_of(entries.drop_last());
        let entry = entries.last();
        if entry.target_lba >= 0 && entry.wbc_lba >= 0 {
            with_run(
                before,
                CachedRun {
                    tier2_start: entry.target_lba as u64,
                    main_start: entry.wbc_lba as u64,
                    length: entry.length,
                },
            )
        } else {
            before
        }
    }
}

/// The main-device block that the first run holding `block` gives.
pub open spec fn cached_in(runs: Seq<CachedRun>, block: u64) -> Option<u64>
    decreases runs.len(),
{
    if runs.len() == 0 {
        None
    } else {
        let run = runs[0];
        let offset = block - run.tier2_start;
        if 0 <= offset < run.length {
            if run.main_start + offset <= u64::MAX {
                Some((run.main_start + offset) as u64)
            } else {
                None
            }
        } else {
            cached_in(runs.drop_first(), block)
        }
    }
}

proof fn lemma_runs_of_two(first: Seq<FusionWbcEntry>, second: Seq<FusionWbcEntry>)
    ensures
        runs_of(first + second) == runs_of(first) + runs_of(second),
    decreases second.len(),
{
    if second.len() == 0 {
        assert(first + second =~= first);
        assert(runs_of(first) + runs_of(second) =~= runs_of(first));
    } else {
        assert((first + second).drop_last() =~= first + second.drop_last());
        assert((first + second).last() == second.last());
        lemma_runs_of_two(first, second.drop_last());
        assert(runs_of(first + second) =~= runs_of(first) + runs_of(second));
    }
}

/// A cache built from a write-back-cache list gives the copies that the list
/// gives, for entries whose runs lie within the range of an address.
pub proof fn law_cache_gives_the_copies_of_the_list(entries: Seq<FusionWbcEntry>, target: i64)
    requires
        target >= 0,
        forall|i: int|
            0 <= i < entries.len() ==> {
                let entry = #[trigger] entries[i];
                &&& entry.target_lba >= 0
                &&& entry.wbc_lba >= 0
                &&& entry.wbc_lba + entry.length <= i64::MAX
            },
    ensures
        cached_in(runs_of(entries), target as u64) == match copy_in(entries, target) {
            Some(copy) => Some(copy as u64),
            None => None,
        },
    decreases entries.len(),
{
    if entries.len() > 0 {
        let entry = entries[0];
        let rest = entries.drop_first();
        let one = seq![entry];
        assert(entries =~= one + rest);
        lemma_runs_of_two(one, rest);
        law_cache_gives_the_copies_of_the_list(rest, target);
        assert(one.drop_last() =~= Seq::empty());
        assert(one.last() == entry);
        reveal_with_fuel(runs_of, 2);
        let runs = runs_of(entries);
        if entry.length == 0 {
            assert(runs_of(one) =~= Seq::empty());
            assert(runs =~= runs_of(rest));
        } else {
            assert(runs_of(one).len() == 1);
            assert(runs.drop_first() =~= runs_of(rest));
            assert(runs[0] == runs_of(one)[0]);
        }
    }
}

impl FusionCache {
    /// Creates an empty cache: every tier-2 block reads from the hard-drive
    /// device.
    #[must_use]
    pub fn new() -> (cache: FusionCache)
        ensures
            cache@ == Seq::<CachedRun>::empty(),
    {
        FusionCache { runs: Vec::new() }
    }

    /// Records a cached run: `length` blocks starting at hard-drive block
    /// `tier2_start` are mirrored from main-device block `main_start`.
    pub fn add_run(&mut self, tier2_start: u64, main_start: u64, length: u64)
        ensures
            final(self)@ == with_run(
                old(self)@,
                (CachedRun { tier2_start, main_start, length }),
            ),
    {
        if length != 0 {
            self.runs.push(CachedRun { tier2_start, main_start, length });
        }
    }

    /// Builds a cache from a write-back-cache list block.
    ///
    /// Each [`FusionWbcEntry`] maps a hard-drive run (`target_lba`) to its
    /// solid-state copy (`wbc_lba`); a negative address is skipped.
    #[must_use]
    pub fn from_wbc_list(list: &FusionWbcList) -> (cache: FusionCache)
        ensures
            cache@ == runs_of(list@),
    {
        let mut cache: FusionCache = FusionCache::new();
        let mut i: usize = 0;
        while i < list.entries.len()
            invariant
                i <= list.entries@.len(),
                cache@ == runs_of(list@.take(i as int)),
            decreases list.entries@.len() - i,
        {
            let entry: FusionWbcEntry = list.entries[i];
            proof {
                assert(list@.take(i + 1).drop_last() =~= list@.take(i as int));
            }
            if entry.target_lba >= 0 && entry.wbc_lba >= 0 {
                cache.add_run(entry.target_lba as u64, entry.wbc_lba as u64, entry.length);
            }
            i += 1;
        }
        proof {
            assert(list@.take(i as int) =~= list@);
        }
        cache
    }

    /// The main-device block holding the cached copy of `tier2_block`, if the
    /// hard-drive block is currently cached.
    #[must_use]
    pub fn cached_block(&self, tier2_block: u64) -> (block: Option<u64>)
        ensures
            block == cached_in(self@, tier2_block),
    {
        let mut i: usize = 0;
        proof {
            assert(self@.skip(0) =~= self@);
        }
        // Runs are stored in write-back-list order, not sorted by their start;
        // a block below this run's start may still fall in a later run.
        while i < self.runs.len()
            invariant
                i <= self.runs@.len(),
                cached_in(self@, tier2_block) == cached_in(self@.skip(i as int), tier2_block),
            decreases self.runs@.len() - i,
        {
            let run: CachedRun = self.runs[i];
            if tier2_block >= run.tier2_start && tier2_block - run.tier2_start < run.length {
                return run.main_start.checked_add(tier2_block - run.tier2_start);
            }
            proof {
                assert(self@.skip(i as int).drop_first() =~= self@.skip(i + 1));
            }
            i += 1;
        }
        None
    }
}

/// A device that a Fusion read goes to, and the block on it.
#[derive(Debug, Clone, Copy, PartialEq, Eq, Structural)]
pub struct Route {
    /// Whether the read goes to the hard drive.
    pub tier2: bool,
    /// The block on that device.
    pub block: u64,
}

/// Where a tagged block is read: a hard-drive block from the hard drive, unless
/// the cache holds a copy of it on the main device.
pub open spec fn route_of(runs: Seq<CachedRun>, block_size: u32, block: u64) -> Route {
    let decoded = address_of(block, block_size);
    if decoded.tier2 {
        match cached_in(runs, decoded.block) {
            Some(cached) => Route { tier2: false, block: cached },
            None => Route { tier2: true, block: decoded.block },
        }
    } else {
        Route { tier2: false, block: decoded.block }
    }
}

/// How many of `len` bytes at `at` one read serves: no more than to the end of
/// the block, or of the address space.
pub open spec fn span_at(block_size: u32, at: nat, len: nat) -> nat {
    let span = block_size - at as int % block_size as int;
    let left = u64::MAX - at;
    let most = if left < span {
        left
    } else {
        span
    };
    if len < most {
        len
    } else {
        most as nat
    }
}

/// What a device answers to a seek and a read.
pub open spec fn seek_and_read(device: Device, offset: u64, len: nat) -> Result<Seq<u8>, Error> {
    match (device.fault)(offset) {
        Some(error) => Err(error),
        None => (device.answer)(offset as nat, len),
    }
}

/// What a Fusion container answers to a read at `at`.
pub open spec fn fusion_answer(
    main: Device,
    tier2: Option<Device>,
    block_size: u32,
    runs: Seq<CachedRun>,
    at: nat,
    len: nat,
) -> Result<Seq<u8>, Error> {
    let route = route_of(runs, block_size, (at as int / block_size as int) as u64);
    let offset = route.block * block_size + at as int % block_size as int;
    let served = span_at(block_size, at, len);
    if len == 0 {
        Ok(Seq::empty())
    } else if block_size == 0 {
        Err(io::error_of(ErrorKind::InvalidInput))
    } else if offset > u64::MAX {
        Err(io::error_of(ErrorKind::InvalidData))
    } else if route.tier2 {
        match tier2 {
            Some(device) => seek_and_read(device, offset as u64, served),
            None => Err(io::error_of(ErrorKind::InvalidData)),
        }
    } else {
        seek_and_read(main, offset as u64, served)
    }
}

/// A hard-drive block that no copy is cached of is never read from the main
/// device: without a hard drive the read fails.
pub proof fn law_missing_drive_is_an_error(
    main: Device,
    block_size: u32,
    runs: Seq<CachedRun>,
    at: u64,
    len: nat,
)
    requires
        len > 0,
        block_size > 0,
        address_of((at / block_size as u64) as u64, block_size).tier2,
        cached_in(runs, address_of((at / block_size as u64) as u64, block_size).block) is None,
    ensures
        fusion_answer(main, None, block_size, runs, at as nat, len) == Err::<Seq<u8>, Error>(
            io::error_of(ErrorKind::InvalidData),
        ),
{
}

/// The device that a Fusion container's two devices form.
pub open spec fn fusion_device(
    main: Device,
    tier2: Option<Device>,
    block_size: u32,
    runs: Seq<CachedRun>,
) -> Device {
    Device {
        answer: |at: nat, len: nat| fusion_answer(main, tier2, block_size, runs, at, len),
        fault: |offset: u64| None,
    }
}

/// The device of an optional reader.
pub open spec fn some_device<T: Reader>(reader: Option<T>) -> Option<Device> {
    match reader {
        Some(reader) => Some(reader.device()),
        None => None,
    }
}

/// A read-only view over a Fusion container's two physical devices.
///
/// A Fusion container spans a fast solid-state device and a slower hard drive;
/// block addresses are tagged to select the device (see [`decode_address`]).
/// `FusionReader` is a [`Reader`] over the tagged address space the rest of the
/// crate already computes, so an `Apfs` mounted on it resolves every block to
/// the correct device, and a hard-drive block present in the write-back cache
/// to its SSD copy, without any change to the single-reader path used for
/// non-Fusion containers.
pub struct FusionReader<M, T2> {
    main: M,
    tier2: Option<T2>,
    block_size: u32,
    cache: FusionCache,
    pos: u64,
}

impl<M: Reader, T2: Reader> FusionReader<M, T2> {
    /// Creates a Fusion reader over the `main` (solid-state) device and an
    /// optional `tier2` (hard-drive) device.
    ///
    /// A container whose data never references the hard drive can be read
    /// with `tier2` absent; a tier-2 read with no hard-drive reader then fails
    /// with a typed error rather than returning wrong bytes.
    #[must_use]
    pub fn new(main: M, tier2: Option<T2>, block_size: u32, cache: FusionCache) -> (reader:
        FusionReader<M, T2>)
        ensures
            reader.device() == fusion_device(
                main.device(),
                some_device(tier2),
                block_size,
                cache@,
            ),
            reader.position() == 0,
    {
        FusionReader { main, tier2, block_size, cache, pos: 0 }
    }
}

/// Seeks and reads once, at most as many bytes as `buf` holds.
fn read_once<T: Reader>(reader: &mut T, offset: u64, buf: &mut [u8]) -> (outcome: Result<
    usize,
    Error,
>)
    ensures
        final(reader).device() == old(reader).device(),
        final(buf)@.len() == old(buf)@.len(),
        match outcome {
            Ok(n) => {
                &&& n <= old(buf)@.len()
                &&& seek_and_read(old(reader).device(), offset, old(buf)@.len()) == Ok::<
                    Seq<u8>,
                    Error,
                >(final(buf)@.take(n as int))
                &&& final(buf)@.skip(n as int) == old(buf)@.skip(n as int)
            },
            Err(error) => seek_and_read(old(reader).device(), offset, old(buf)@.len()) == Err::<
                Seq<u8>,
                Error,
            >(error),
        },
{
    match reader.seek(SeekFrom::Start(offset)) {
        Ok(_) => reader.read(buf),
        Err(error) => Err(error),
    }
}

impl<M: Reader, T2: Reader> Reader for FusionReader<M, T2> {
    closed spec fn device(&self) -> Device {
        fusion_device(
            self.main.device(),
            some_device(self.tier2),
            self.block_size,
            self.cache@,
        )
    }

    closed spec fn position(&self) -> nat {
        self.pos as nat
    }

    fn read(&mut self, buf: &mut [u8]) -> (outcome: Result<usize, Error>)
        ensures
            outcome is Err ==> final(self).position() == old(self).position(),
    {
        if buf.len() == 0 {
            assert(buf@.take(0) =~= Seq::<u8>::empty());
            return Ok(0);
        }
        let block_size: u64 = self.block_size as u64;
        if block_size == 0 {
            // A zero block size cannot map an address to a device.
            return Err(Error::new(ErrorKind::InvalidInput));
        }
        let block: u64 = self.pos / block_size;
        let intra: u64 = self.pos % block_size;
        let decoded: FusionAddress = decode_address(block, self.block_size);
        let mut route: Route = Route { tier2: decoded.tier2, block: decoded.block };
        if decoded.tier2 {
            if let Some(cached) = self.cache.cached_block(decoded.block) {
                route = Route { tier2: false, block: cached };
            }
        }
        // A device address that overflows is structurally invalid.
        let base: u64 = match route.block.checked_mul(block_size) {
            Some(base) => base,
            None => return Err(Error::new(ErrorKind::InvalidData)),
        };
        let offset: u64 = match base.checked_add(intra) {
            Some(offset) => offset,
            None => return Err(Error::new(ErrorKind::InvalidData)),
        };
        // Serve at most to the end of the current block, so each read is
        // routed to a single device.
        let mut want: u64 = block_size - intra;
        if u64::MAX - self.pos < want {
            want = u64::MAX - self.pos;
        }
        let served: usize = if (buf.len() as u64) < want {
            buf.len()
        } else {
            want as usize
        };
        let ghost start = buf@;
        let (part, rest) = buf.split_at_mut(served);
        let ghost asked = part@;
        let outcome: Result<usize, Error> = if route.tier2 {
            match &mut self.tier2 {
                Some(tier2) => read_once(tier2, offset, part),
                None => Err(Error::new(ErrorKind::InvalidData)),
            }
        } else {
            read_once(&mut self.main, offset, part)
        };
        match outcome {
            Ok(n) => {
                let ghost got = part@;
                proof {
                    assert(buf@.take(n as int) =~= got.take(n as int));
                    assert(buf@.skip(n as int) =~= start.skip(n as int)) by {
                        assert forall|i: int| n <= i < start.len() implies buf@[i] == start[i] by {
                            if i < served {
                                assert(got.skip(n as int)[i - n] == asked.skip(n as int)[i - n]);
                            }
                        }
                    }
                }
                self.pos = self.pos + n as u64;
                Ok(n)
            },
            Err(error) => Err(error),
        }
    }

    fn seek(&mut self, pos: SeekFrom) -> (outcome: Result<u64, Error>)
        ensures
            match io::seek_target(old(self).position(), None, pos) {
                Some(target) => outcome == Ok::<u64, Error>(target) && final(self).position()
                    == target,
                None => outcome == Err::<u64, Error>(io::error_of(ErrorKind::InvalidInput))
                    && final(self).position() == old(self).position(),
            },
    {
        let target: Option<u64> = match pos {
            SeekFrom::Start(offset) => Some(offset),
            SeekFrom::Current(delta) => io::offset_by(self.pos, delta),
            // A Fusion container has no single end offset: the two devices
            // occupy disjoint regions of the tagged address space.
            SeekFrom::End(_) => None,
        };
        match target {
            Some(offset) => {
                self.pos = offset;
                Ok(offset)
            },
            None => Err(Error::new(ErrorKind::InvalidInput)),
        }
    }
}

proof fn lemma_offset_in_block(block: int, block_size: u32, off: int)
    requires
        block_size > 0,
        0 <= block,
        0 <= off < block_size,
    ensures
        (block * block_size + off) / (block_size as int) == block,
        (block * block_size + off) % (block_size as int) == off,
        block * block_size >= 0,
{
    lemma_fundamental_div_mod_converse(block * block_size + off, block_size as int, block, off);
    assert(block * block_size >= 0) by (nonlinear_arith)
        requires
            block >= 0,
            block_size > 0,
    ;
}

/// A read inside a block of the main device gives what the main device has there. A read
/// inside a block with the marker added gives what the hard drive has in that block, or, where
/// the block has a cached copy, what the main device has in the copy.
pub proof fn law_reads_go_to_the_marked_drive(
    main: Device,
    tier2: Device,
    block_size: u32,
    runs: Seq<CachedRun>,
    block: u64,
    off: nat,
    len: nat,
)
    requires
        marker_of(block_size as nat) != 0,
        block & (marker_of(block_size as nat) as u64) == 0,
        len > 0,
        off + len <= block_size,
        (block + marker_of(block_size as nat)) * block_size + block_size <= u64::MAX,
    ensures
        ({
            let plain = (block * block_size + off) as nat;
            let marked = ((block + marker_of(block_size as nat)) * block_size + off) as nat;
            &&& fusion_answer(main, Some(tier2), block_size, runs, plain, len) == seek_and_read(
                main,
                plain as u64,
                len,
            )
            &&& cached_in(runs, block) is None ==> fusion_answer(
                main,
                Some(tier2),
                block_size,
                runs,
                marked,
                len,
            ) == seek_and_read(tier2, plain as u64, len)
            &&& cached_in(runs, block) matches Some(copy) ==> (copy * block_size + off <= u64::MAX
                ==> fusion_answer(main, Some(tier2), block_size, runs, marked, len)
                == seek_and_read(main, (copy * block_size + off) as u64, len))
        }),
{
    lemma_marker_bound(block_size as nat);
    law_tagged_address_decodes(block, block_size);
    let marker = marker_of(block_size as nat) as u64;
    let tagged = (block + marker) as int;
    assert(block * block_size <= tagged * block_size) by (nonlinear_arith)
        requires
            block <= tagged,
            block_size >= 0,
    ;
    assert(tagged <= tagged * block_size) by (nonlinear_arith)
        requires
            tagged >= 0,
            block_size >= 1,
    ;
    assert((block | marker) == block + marker) by (bit_vector)
        requires
            block & marker == 0,
            block + marker <= 0xFFFF_FFFF_FFFF_FFFF,
    ;
    lemma_offset_in_block(block as int, block_size, off as int);
    lemma_offset_in_block(tagged, block_size, off as int);
    let plain = (block * block_size + off) as nat;
    let marked = (tagged * block_size + off) as nat;
    assert(span_at(block_size, plain, len) == len);
    assert(span_at(block_size, marked, len) == len);
}

/// A cached block is that of the first run which holds it, as far into the copy as it is into
/// the run; and a block that no run holds is not cached.
pub proof fn law_cached_block_is_in_the_first_run(runs: Seq<CachedRun>, block: u64)
    ensures
        forall|i: int|
            0 <= i < runs.len() && is_in_run(#[trigger] runs[i], block) && (forall|j: int|
                0 <= j < i ==> !is_in_run(#[trigger] runs[j], block)) ==> cached_in(runs, block)
                == if runs[i].main_start + (block - runs[i].tier2_start) <= u64::MAX {
                Some((runs[i].main_start + (block - runs[i].tier2_start)) as u64)
            } else {
                None
            },
        (forall|i: int| 0 <= i < runs.len() ==> !is_in_run(#[trigger] runs[i], block))
            ==> cached_in(runs, block) is None,
    decreases runs.len(),
{
    if runs.len() > 0 && !is_in_run(runs[0], block) {
        let rest = runs.drop_first();
        law_cached_block_is_in_the_first_run(rest, block);
        assert forall|i: int|
            0 <= i < runs.len() && is_in_run(#[trigger] runs[i], block) && (forall|j: int|
                0 <= j < i ==> !is_in_run(#[trigger] runs[j], block)) implies cached_in(
            runs,
            block,
        ) == if runs[i].main_start + (block - runs[i].tier2_start) <= u64::MAX {
            Some((runs[i].main_start + (block - runs[i].tier2_start)) as u64)
        } else {
            None
        } by {
            assert(rest[i - 1] == runs[i]);
            assert forall|j: int| 0 <= j < i - 1 implies !is_in_run(#[trigger] rest[j], block) by {
                assert(rest[j] == runs[j + 1]);
            }
        }
        if forall|i: int| 0 <= i < runs.len() ==> !is_in_run(#[trigger] runs[i], block) {
            assert forall|i: int| 0 <= i < rest.len() implies !is_in_run(
                #[trigger] rest[i],
                block,
            ) by {
                assert(rest[i] == runs[i + 1]);
            }
        }
    }
}

/// Whether a run holds a block of the hard drive.
pub open spec fn is_in_run(run: CachedRun, block: u64) -> bool {
    run.tier2_start <= block < run.tier2_start + run.length
}

/// The copy of a hard-drive block is in the first entry whose run holds the block, as far into
/// the copy as the block is into the run; a block that no entry's run holds has none.
pub proof fn law_copy_is_in_the_first_entry(entries: Seq<FusionWbcEntry>, target: i64)
    requires
        forall|i: int|
            0 <= i < entries.len() ==> (#[trigger] entries[i]).length < i64::MAX
                && entries[i].wbc_lba + entries[i].length <= i64::MAX,
    ensures
        forall|i: int|
            0 <= i < entries.len() && is_in_entry(#[trigger] entries[i], target) && (forall|j: int|
                0 <= j < i ==> !is_in_entry(#[trigger] entries[j], target)) ==> copy_in(
                entries,
                target,
            ) == Some((entries[i].wbc_lba + (target - entries[i].target_lba)) as i64),
        (forall|i: int| 0 <= i < entries.len() ==> !is_in_entry(#[trigger] entries[i], target))
            ==> copy_in(entries, target) is None,
    decreases entries.len(),
{
    if entries.len() > 0 && !is_in_entry(entries[0], target) {
        let rest = entries.drop_first();
        assert forall|i: int| 0 <= i < rest.len() implies (#[trigger] rest[i]).length < i64::MAX
            && rest[i].wbc_lba + rest[i].length <= i64::MAX by {
            assert(rest[i] == entries[i + 1]);
        }
        law_copy_is_in_the_first_entry(rest, target);
        assert forall|i: int|
            0 <= i < entries.len() && is_in_entry(#[trigger] entries[i], target) && (forall|j: int|
                0 <= j < i ==> !is_in_entry(#[trigger] entries[j], target)) implies copy_in(
            entries,
            target,
        ) == Some((entries[i].wbc_lba + (target - entries[i].target_lba)) as i64) by {
            assert(rest[i - 1] == entries[i]);
            assert forall|j: int| 0 <= j < i - 1 implies !is_in_entry(
                #[trigger] rest[j],
                target,
            ) by {
                assert(rest[j] == entries[j + 1]);
            }
        }
        if forall|i: int| 0 <= i < entries.len() ==> !is_in_entry(#[trigger] entries[i], target) {
            assert forall|i: int| 0 <= i < rest.len() implies !is_in_entry(
                #[trigger] rest[i],
                target,
            ) by {
                assert(rest[i] == entries[i + 1]);
            }
        }
    }
}

/// Whether an entry's run holds a block of the hard drive.
pub open spec fn is_in_entry(entry: FusionWbcEntry, target: i64) -> bool {
    entry.target_lba <= target < entry.target_lba + entry.length
}

/// A read that goes past the end of its block gives what the read up to that end gives, so that
/// no read runs from one drive's blocks into another's.
pub proof fn law_reads_end_with_their_block(
    main: Device,
    tier2: Option<Device>,
    block_size: u32,
    runs: Seq<CachedRun>,
    at: nat,
    len: nat,
)
    requires
        block_size > 0,
        at + block_size <= u64::MAX,
        len > block_size - at % (block_size as nat),
    ensures
        fusion_answer(main, tier2, block_size, runs, at, len) == fusion_answer(
            main,
            tier2,
            block_size,
            runs,
            at,
            (block_size - at % (block_size as nat)) as nat,
        ),
{
    let left = (block_size - at % (block_size as nat)) as nat;
    lemma_mod_bound(at as int, block_size as int);
    assert(at as int % block_size as int == at % (block_size as nat));
    assert(0 < left <= block_size);
    assert(span_at(block_size, at, len) == left);
    assert(span_at(block_size, at, left) == left);
}

} // verus!
