//! The checkpoint descriptor area and latest-valid-checkpoint selection.
//!
//! The block-zero container superblock only locates the checkpoints; the
//! authoritative container state is the most recent *valid* checkpoint in the
//! checkpoint descriptor area. This module scans that ring, verifies
//! checksums, and resolves ephemeral object identifiers through the chosen
//! checkpoint.

use vstd::prelude::*;

use crate::btree;
use crate::btree::{BtreeNode, Entry, EntryView};
use crate::bytes;
use crate::checksum;
use crate::container;
use crate::container::{NxSuperblock, NxSuperblockView};
use crate::error;
use crate::error::ApfsError;
use crate::io;
use crate::io::{Device, Reader};
use crate::object;
use crate::object::ObjPhys;
use crate::sort;
use crate::sort::Ranked;
use crate::tree;
use crate::tree::{TreeLayout, TreeRecord};
use crate::types;
use crate::types::{ObjectType, Oid, Paddr};

verus! {

/// Block `addr` of a container, whose blocks have `block_size` bytes.
pub open spec fn block_at(device: Device, block_size: u32, addr: u64) -> Result<
    Seq<u8>,
    ApfsError,
> {
    if addr * block_size > u64::MAX {
        error::malformed("container", "block address overflows the device")
    } else {
        match io::read_at(device, (addr * block_size) as u64, block_size as nat) {
            Ok(block) => Ok(block),
            Err(error) => Err(ApfsError::Io(error)),
        }
    }
}

/// The B-tree node in block `addr` of a container.
pub open spec fn node_at(device: Device, block_size: u32, addr: u64) -> Result<
    Seq<u8>,
    ApfsError,
> {
    match block_at(device, block_size, addr) {
        Ok(block) => btree::node_of(block),
        Err(error) => Err(error),
    }
}

/// Reads block `addr` of a container into an owned buffer.
pub fn read_block<R: Reader>(reader: &mut R, block_size: u32, addr: u64) -> (block: Result<
    Vec<u8>,
    ApfsError,
>)
    ensures
        final(reader).device() == old(reader).device(),
        error::viewed(block) == block_at(old(reader).device(), block_size, addr),
{
    let offset: u64 = match addr.checked_mul(block_size as u64) {
        Some(offset) => offset,
        None => return Err(
            ApfsError::Malformed {
                structure: "container",
                reason: "block address overflows the device",
            },
        ),
    };
    match io::read_vec_at(reader, offset, block_size as usize) {
        Ok(block) => Ok(block),
        Err(error) => Err(ApfsError::Io(error)),
    }
}

/// Reads the B-tree node in block `addr` of a container.
pub fn read_node<R: Reader>(reader: &mut R, block_size: u32, addr: u64) -> (node: Result<
    BtreeNode,
    ApfsError,
>)
    ensures
        final(reader).device() == old(reader).device(),
        error::viewed(node) == node_at(old(reader).device(), block_size, addr),
{
    match read_block(reader, block_size, addr) {
        Ok(block) => BtreeNode::parse(block),
        Err(error) => Err(error),
    }
}

/// Flag marking the last checkpoint-mapping block of a checkpoint.
pub const CHECKPOINT_MAP_LAST: u32 = 0x0000_0001;

/// Value of `nx_xp_desc_blocks` from which on the descriptor area is a tree:
/// its high bit is a flag.
pub const XP_AREA_TREE_FLAG: u32 = 0x8000_0000;

/// Size of a `checkpoint_mapping_t`.
pub const CHECKPOINT_MAPPING_SIZE: usize = 40;

/// Size of the `checkpoint_map_phys_t` header before its mappings.
pub const CHECKPOINT_MAP_HEADER_SIZE: usize = 40;

/// A mapping from an ephemeral object identifier to its physical address in
/// the checkpoint data area (`checkpoint_mapping_t`).
#[derive(Debug, Clone, Copy, PartialEq, Eq, Structural)]
pub struct CheckpointMapping {
    /// The object's type field (`o_type` semantics).
    pub obj_type: u32,
    /// The object's subtype.
    pub subtype: u32,
    /// Size of the object in bytes.
    pub size: u32,
    /// Object id of the volume the object belongs to, if any.
    pub fs_oid: Oid,
    /// The ephemeral object identifier.
    pub oid: Oid,
    /// Address of the object in the checkpoint data area.
    pub paddr: Paddr,
}

/// A parsed checkpoint-mapping block (`checkpoint_map_phys_t`).
#[derive(Debug, Clone)]
pub struct CheckpointMapPhys {
    /// Checkpoint-map flags.
    pub flags: u32,
    /// The block's mappings.
    pub mappings: Vec<CheckpointMapping>,
}

/// The content of a [`CheckpointMapPhys`].
pub struct CheckpointMapView {
    /// Checkpoint-map flags.
    pub flags: u32,
    /// The block's mappings.
    pub mappings: Seq<CheckpointMapping>,
}

impl View for CheckpointMapPhys {
    type V = CheckpointMapView;

    open spec fn view(&self) -> CheckpointMapView {
        CheckpointMapView { flags: self.flags, mappings: self.mappings@ }
    }
}

/// The mapping stored at `at`.
pub open spec fn mapping_at(block: Seq<u8>, at: int) -> CheckpointMapping {
    CheckpointMapping {
        obj_type: bytes::le_u32(block, at),
        subtype: bytes::le_u32(block, at + 4),
        size: bytes::le_u32(block, at + 8),
        fs_oid: Oid(bytes::le_u64(block, at + 16)),
        oid: Oid(bytes::le_u64(block, at + 24)),
        paddr: Paddr(bytes::le_i64(block, at + 32)),
    }
}

/// The checkpoint-mapping block in `block`.
pub open spec fn map_of(block: Seq<u8>) -> Result<CheckpointMapView, ApfsError> {
    let count = bytes::le_u32(block, 36);
    if block.len() < CHECKPOINT_MAP_HEADER_SIZE {
        error::truncated(
            "checkpoint_map_phys_t",
            CHECKPOINT_MAP_HEADER_SIZE as int,
            block.len(),
        )
    } else if CHECKPOINT_MAP_HEADER_SIZE + count * CHECKPOINT_MAPPING_SIZE > block.len() {
        error::malformed("checkpoint_map_phys_t", "mapping count exceeds the block")
    } else {
        Ok(
            CheckpointMapView {
                flags: bytes::le_u32(block, 32),
                mappings: Seq::new(
                    count as nat,
                    |i: int|
                        mapping_at(
                            block,
                            CHECKPOINT_MAP_HEADER_SIZE + i * CHECKPOINT_MAPPING_SIZE,
                        ),
                ),
            },
        )
    }
}

impl CheckpointMapPhys {
    /// Whether this is the last mapping block of its checkpoint.
    #[must_use]
    pub fn is_last(&self) -> (last: bool)
        ensures
            last == (self.flags & CHECKPOINT_MAP_LAST != 0),
    {
        self.flags & CHECKPOINT_MAP_LAST != 0
    }

    /// Parses a checkpoint-mapping block from a block buffer.
    pub fn parse(block: &[u8]) -> (parsed: Result<CheckpointMapPhys, ApfsError>)
        ensures
            error::viewed(parsed) == map_of(block@),
    {
        if block.len() < CHECKPOINT_MAP_HEADER_SIZE {
            return Err(
                ApfsError::Truncated {
                    structure: "checkpoint_map_phys_t",
                    expected: CHECKPOINT_MAP_HEADER_SIZE,
                    actual: block.len(),
                },
            );
        }
        let flags: u32 = bytes::read_u32(block, 32);
        let count: u32 = bytes::read_u32(block, 36);
        let needed: u64 = CHECKPOINT_MAP_HEADER_SIZE as u64 + count as u64
            * CHECKPOINT_MAPPING_SIZE as u64;
        if needed > block.len() as u64 {
            return Err(
                ApfsError::Malformed {
                    structure: "checkpoint_map_phys_t",
                    reason: "mapping count exceeds the block",
                },
            );
        }
        let mut mappings: Vec<CheckpointMapping> = Vec::new();
        let mut i: usize = 0;
        while i < count as usize
            invariant
                i <= count,
                CHECKPOINT_MAP_HEADER_SIZE + count * CHECKPOINT_MAPPING_SIZE <= block.len(),
                mappings@ =~= Seq::new(
                    i as nat,
                    |k: int|
                        mapping_at(
                            block@,
                            CHECKPOINT_MAP_HEADER_SIZE + k * CHECKPOINT_MAPPING_SIZE,
                        ),
                ),
            decreases count - i,
        {
            let at: usize = CHECKPOINT_MAP_HEADER_SIZE + i * CHECKPOINT_MAPPING_SIZE;
            mappings.push(
                CheckpointMapping {
                    obj_type: bytes::read_u32(block, at),
                    subtype: bytes::read_u32(block, at + 4),
                    size: bytes::read_u32(block, at + 8),
                    fs_oid: Oid(bytes::read_u64(block, at + 16)),
                    oid: Oid(bytes::read_u64(block, at + 24)),
                    paddr: Paddr(bytes::read_i64(block, at + 32)),
                },
            );
            i += 1;
        }
        Ok(CheckpointMapPhys { flags, mappings })
    }
}

/// The latest valid checkpoint of a container.
#[derive(Debug, Clone)]
pub struct Checkpoint {
    /// The checkpoint's container superblock.
    pub superblock: NxSuperblock,
    /// Every ephemeral-object mapping of the checkpoint, in ring order.
    pub mappings: Vec<CheckpointMapping>,
}

/// The content of a [`Checkpoint`].
pub struct CheckpointView {
    /// The checkpoint's container superblock.
    pub superblock: NxSuperblockView,
    /// Every ephemeral-object mapping of the checkpoint, in ring order.
    pub mappings: Seq<CheckpointMapping>,
}

impl View for Checkpoint {
    type V = CheckpointView;

    open spec fn view(&self) -> CheckpointView {
        CheckpointView { superblock: self.superblock@, mappings: self.mappings@ }
    }
}

/// The address of the first mapping of `oid`.
pub open spec fn ephemeral_addr(mappings: Seq<CheckpointMapping>, oid: Oid) -> Option<Paddr>
    decreases mappings.len(),
{
    if mappings.len() == 0 {
        None
    } else if mappings[0].oid == oid {
        Some(mappings[0].paddr)
    } else {
        ephemeral_addr(mappings.drop_first(), oid)
    }
}

impl Checkpoint {
    /// Resolves an ephemeral object identifier to its address in the
    /// checkpoint data area.
    #[must_use]
    pub fn resolve_ephemeral(&self, oid: Oid) -> (found: Option<Paddr>)
        ensures
            found == ephemeral_addr(self.mappings@, oid),
    {
        let mut i: usize = 0;
        assert(self.mappings@.skip(0) =~= self.mappings@);
        while i < self.mappings.len()
            invariant
                i <= self.mappings@.len(),
                ephemeral_addr(self.mappings@, oid) == ephemeral_addr(
                    self.mappings@.skip(i as int),
                    oid,
                ),
            decreases self.mappings@.len() - i,
        {
            assert(self.mappings@.skip(i as int).drop_first() =~= self.mappings@.skip(i + 1));
            if self.mappings[i].oid == oid {
                return Some(self.mappings[i].paddr);
            }
            i += 1;
        }
        None
    }
}

/// One fragment of a tree-stored checkpoint descriptor area: a run of
/// descriptor-area block offsets mapped to a contiguous physical range, the
/// key and `prange_t` value of one descriptor-tree leaf entry.
#[derive(Debug, Clone, Copy, PartialEq, Eq, Structural)]
pub struct DescFragment {
    /// First descriptor-area block offset the fragment covers.
    pub start_index: u64,
    /// Physical block address that `start_index` maps to.
    pub phys_addr: u64,
    /// Number of consecutive blocks in the fragment.
    pub block_count: u64,
}

impl Ranked for DescFragment {
    open spec fn spec_rank(&self) -> nat {
        self.start_index as nat
    }

    fn rank(&self) -> (rank: u128) {
        self.start_index as u128
    }
}

impl TreeRecord for DescFragment {
    open spec fn spec_layout() -> TreeLayout {
        TreeLayout {
            structure: "checkpoint descriptor tree",
            no_child: "non-leaf entry has no child pointer",
            short_child: "non-leaf child pointer is not an object id",
            key_len: 8,
            val_len: 16,
            max_nodes: 4096,
        }
    }

    fn layout() -> (layout: TreeLayout) {
        TreeLayout {
            structure: "checkpoint descriptor tree",
            no_child: "non-leaf entry has no child pointer",
            short_child: "non-leaf child pointer is not an object id",
            key_len: 8,
            val_len: 16,
            max_nodes: 4096,
        }
    }

    /// The key is a descriptor-area block offset, the value a `prange_t`.
    open spec fn record_of(entry: EntryView) -> Result<DescFragment, ApfsError> {
        if entry.key.len() < 8 {
            error::malformed("checkpoint descriptor tree", "leaf key is not a u64 block offset")
        } else {
            match entry.value {
                None => error::malformed(
                    "checkpoint descriptor tree",
                    "leaf entry has no prange value",
                ),
                Some(value) => if value.len() < types::PRANGE_SIZE {
                    error::malformed(
                        "checkpoint descriptor tree",
                        "leaf value is shorter than a prange_t",
                    )
                } else if bytes::le_i64(value, 0) < 0 {
                    error::malformed(
                        "checkpoint descriptor tree",
                        "fragment physical address is negative",
                    )
                } else {
                    Ok(
                        DescFragment {
                            start_index: bytes::le_u64(entry.key, 0),
                            phys_addr: bytes::le_i64(value, 0) as u64,
                            block_count: bytes::le_u64(value, 8),
                        },
                    )
                },
            }
        }
    }

    fn read_record(entry: &Entry<'_>) -> (record: Result<DescFragment, ApfsError>) {
        if entry.key.len() < 8 {
            return Err(
                ApfsError::Malformed {
                    structure: "checkpoint descriptor tree",
                    reason: "leaf key is not a u64 block offset",
                },
            );
        }
        let value: &[u8] = match entry.value {
            Some(value) => value,
            None => return Err(
                ApfsError::Malformed {
                    structure: "checkpoint descriptor tree",
                    reason: "leaf entry has no prange value",
                },
            ),
        };
        if value.len() < types::PRANGE_SIZE {
            return Err(
                ApfsError::Malformed {
                    structure: "checkpoint descriptor tree",
                    reason: "leaf value is shorter than a prange_t",
                },
            );
        }
        let start_addr: i64 = bytes::read_i64(value, 0);
        if start_addr < 0 {
            return Err(
                ApfsError::Malformed {
                    structure: "checkpoint descriptor tree",
                    reason: "fragment physical address is negative",
                },
            );
        }
        Ok(
            DescFragment {
                start_index: bytes::read_u64(entry.key, 0),
                phys_addr: start_addr as u64,
                block_count: bytes::read_u64(value, 8),
            },
        )
    }
}

/// How the checkpoint descriptor area is laid out on disk.
pub enum DescriptorArea {
    /// A contiguous run of blocks starting at `base`.
    Contiguous {
        /// Physical address of descriptor-area block offset zero.
        base: u64,
    },
    /// A B-tree-mapped area: descriptor offsets resolve through the fragments,
    /// which are sorted by `start_index`.
    Fragmented {
        /// The descriptor-tree leaf fragments.
        fragments: Vec<DescFragment>,
    },
}

/// The layout of a [`DescriptorArea`].
pub enum AreaView {
    /// A contiguous run of blocks.
    Contiguous(u64),
    /// Fragments, sorted by their first offset.
    Fragmented(Seq<DescFragment>),
}

impl View for DescriptorArea {
    type V = AreaView;

    open spec fn view(&self) -> AreaView {
        match self {
            DescriptorArea::Contiguous { base } => AreaView::Contiguous(*base),
            DescriptorArea::Fragmented { fragments } => AreaView::Fragmented(fragments@),
        }
    }
}

/// `base` moved by `offset`, where that is an address.
pub open spec fn addr_plus(base: u64, offset: int) -> Option<u64> {
    if base + offset <= u64::MAX {
        Some((base + offset) as u64)
    } else {
        None
    }
}

/// The address of the descriptor offset `index` in one fragment, if the
/// fragment covers it.
pub open spec fn fragment_addr(fragment: DescFragment, index: u64) -> Option<u64> {
    if fragment.start_index <= index && index - fragment.start_index < fragment.block_count {
        addr_plus(fragment.phys_addr, index - fragment.start_index)
    } else {
        None
    }
}

/// The address of the descriptor offset `index` in the first fragment that
/// has one.
pub open spec fn fragments_addr(fragments: Seq<DescFragment>, index: u64) -> Option<u64>
    decreases fragments.len(),
{
    if fragments.len() == 0 {
        None
    } else {
        match fragment_addr(fragments[0], index) {
            Some(addr) => Some(addr),
            None => fragments_addr(fragments.drop_first(), index),
        }
    }
}

/// The address of the descriptor offset `index`, when it is mapped.
pub open spec fn area_addr(area: AreaView, index: u64) -> Option<u64> {
    match area {
        AreaView::Contiguous(base) => addr_plus(base, index as int),
        AreaView::Fragmented(fragments) => fragments_addr(fragments, index),
    }
}

impl DescriptorArea {
    /// The physical block address of descriptor-area block offset `index`, or
    /// `None` when `index` is not mapped.
    pub fn block_addr(&self, index: u64) -> (addr: Option<u64>)
        ensures
            addr == area_addr(self@, index),
    {
        match self {
            DescriptorArea::Contiguous { base } => base.checked_add(index),
            DescriptorArea::Fragmented { fragments } => {
                let mut i: usize = 0;
                assert(fragments@.skip(0) =~= fragments@);
                while i < fragments.len()
                    invariant
                        i <= fragments@.len(),
                        self@ == AreaView::Fragmented(fragments@),
                        fragments_addr(fragments@, index) == fragments_addr(
                            fragments@.skip(i as int),
                            index,
                        ),
                    decreases fragments@.len() - i,
                {
                    assert(fragments@.skip(i as int).drop_first() =~= fragments@.skip(i + 1));
                    let fragment: DescFragment = fragments[i];
                    if fragment.start_index <= index && index - fragment.start_index
                        < fragment.block_count {
                        let addr: Option<u64> = fragment.phys_addr.checked_add(
                            index - fragment.start_index,
                        );
                        if addr.is_some() {
                            return addr;
                        }
                    }
                    i += 1;
                }
                None
            },
        }
    }
}

/// The descriptor area of a tree with its root in block `root`.
pub open spec fn tree_area(device: Device, block_size: u32, root: u64) -> Result<
    AreaView,
    ApfsError,
> {
    match tree::tree_records::<DescFragment>(device, block_size, root) {
        Err(error) => Err(error),
        Ok(fragments) => Ok(
            AreaView::Fragmented(
                sort::stable_sort(fragments, sort::rank_of::<DescFragment>()),
            ),
        ),
    }
}

/// Reads a descriptor area that is stored as a B-tree with its root in block
/// `root_addr`.
fn read_descriptor_tree<R: Reader>(reader: &mut R, block_size: u32, root_addr: u64) -> (area:
    Result<DescriptorArea, ApfsError>)
    ensures
        final(reader).device() == old(reader).device(),
        error::viewed(area) == tree_area(old(reader).device(), block_size, root_addr),
{
    match tree::collect_records::<DescFragment, R>(reader, block_size, root_addr) {
        Ok(mut fragments) => {
            sort::sort_by_rank(&mut fragments);
            Ok(DescriptorArea::Fragmented { fragments })
        },
        Err(error) => Err(error),
    }
}

/// The number of blocks in the descriptor ring, without the tree flag.
pub open spec fn ring_length(desc_blocks: u32) -> u32 {
    (desc_blocks % XP_AREA_TREE_FLAG) as u32
}

/// The descriptor area that a superblock locates: contiguous, or a tree when
/// the flag in its block count is set.
pub open spec fn area_of(device: Device, superblock: NxSuperblockView, base: u64) -> Result<
    AreaView,
    ApfsError,
> {
    if superblock.xp_desc.blocks >= XP_AREA_TREE_FLAG {
        tree_area(device, superblock.block_size, base)
    } else {
        Ok(AreaView::Contiguous(base))
    }
}

/// The container superblock in a block of the ring, if the block holds one
/// with a valid checksum.
pub open spec fn candidate_in(block: Seq<u8>) -> Option<NxSuperblockView> {
    if checksum::is_valid_block(block) {
        match container::superblock_of(block) {
            Ok(superblock) => Some(superblock),
            Err(_) => None,
        }
    } else {
        None
    }
}

/// The candidate superblocks in the first `count` blocks of the ring.
pub open spec fn candidates(device: Device, block_size: u32, area: AreaView, count: nat) -> Result<
    Seq<NxSuperblockView>,
    ApfsError,
>
    decreases count,
{
    if count == 0 {
        Ok(Seq::empty())
    } else {
        match candidates(device, block_size, area, (count - 1) as nat) {
            Err(error) => Err(error),
            Ok(before) => match area_addr(area, (count - 1) as u64) {
                None => Ok(before),
                Some(addr) => match block_at(device, block_size, addr) {
                    Err(error) => Err(error),
                    Ok(block) => match candidate_in(block) {
                        None => Ok(before),
                        Some(superblock) => Ok(before.push(superblock)),
                    },
                },
            },
        }
    }
}

/// The mappings that a block of a checkpoint's ring range adds: none for the
/// superblock, those of a checkpoint map; `None` for a block that does not
/// belong there.
pub open spec fn mappings_in(block: Seq<u8>) -> Result<Option<Seq<CheckpointMapping>>, ApfsError> {
    if !checksum::is_valid_block(block) || block.len() < object::OBJ_PHYS_SIZE {
        Ok(None)
    } else {
        match types::object_type_of(bytes::le_u32(block, 0x18)) {
            ObjectType::NxSuperblock => Ok(Some(Seq::empty())),
            ObjectType::CheckpointMap => match map_of(block) {
                Err(error) => Err(error),
                Ok(map) => Ok(Some(map.mappings)),
            },
            _ => Ok(None),
        }
    }
}

/// The mappings of the first `count` blocks of the ring range that starts at
/// `start`; `None` as soon as one block is missing or torn.
pub open spec fn mappings_from(
    device: Device,
    block_size: u32,
    area: AreaView,
    ring_len: u64,
    start: u64,
    count: nat,
) -> Result<Option<Seq<CheckpointMapping>>, ApfsError>
    decreases count,
{
    if count == 0 {
        Ok(Some(Seq::empty()))
    } else {
        match mappings_from(device, block_size, area, ring_len, start, (count - 1) as nat) {
            Err(error) => Err(error),
            Ok(None) => Ok(None),
            Ok(Some(before)) => match area_addr(
                area,
                ((start + count - 1) % ring_len as int) as u64,
            ) {
                None => Ok(None),
                Some(addr) => match block_at(device, block_size, addr) {
                    Err(error) => Err(error),
                    Ok(block) => match mappings_in(block) {
                        Err(error) => Err(error),
                        Ok(None) => Ok(None),
                        Ok(Some(added)) => Ok(Some(before + added)),
                    },
                },
            },
        }
    }
}

/// The mappings of the checkpoint of `superblock`, or `None` when the
/// checkpoint is torn: its ring range is not one, or a block of it is missing
/// or does not verify.
pub open spec fn checkpoint_mappings(
    device: Device,
    block_size: u32,
    area: AreaView,
    ring_len: u64,
    superblock: NxSuperblockView,
) -> Result<Option<Seq<CheckpointMapping>>, ApfsError> {
    let span = superblock.xp_desc.len;
    let start = superblock.xp_desc.index;
    if span == 0 || span > ring_len || start >= ring_len {
        Ok(None)
    } else {
        mappings_from(device, block_size, area, ring_len, start as u64, span as nat)
    }
}

/// The first checkpoint among `superblocks` that is not torn.
pub open spec fn first_whole(
    device: Device,
    block_size: u32,
    area: AreaView,
    ring_len: u64,
    superblocks: Seq<NxSuperblockView>,
) -> Result<CheckpointView, ApfsError>
    decreases superblocks.len(),
{
    if superblocks.len() == 0 {
        Err(ApfsError::NotFound { what: "valid checkpoint" })
    } else {
        match checkpoint_mappings(device, block_size, area, ring_len, superblocks[0]) {
            Err(error) => Err(error),
            Ok(Some(mappings)) => Ok(CheckpointView { superblock: superblocks[0], mappings }),
            Ok(None) => first_whole(
                device,
                block_size,
                area,
                ring_len,
                superblocks.drop_first(),
            ),
        }
    }
}

/// The rank of a superblock: the newest transaction comes first.
pub open spec fn newest_first() -> spec_fn(NxSuperblockView) -> nat {
    |superblock: NxSuperblockView| (u64::MAX - superblock.xid.0) as nat
}

/// The latest valid checkpoint of the container whose block-zero superblock is
/// `zero`.
pub open spec fn latest_of(device: Device, zero: NxSuperblockView) -> Result<
    CheckpointView,
    ApfsError,
> {
    let ring_len = ring_length(zero.xp_desc.blocks);
    match zero.xp_desc.base.block() {
        None => error::malformed(
            "nx_superblock_t",
            "checkpoint descriptor base is not a valid address",
        ),
        Some(base) => if ring_len == 0 {
            Err(ApfsError::NotFound { what: "checkpoint descriptor area" })
        } else {
            match area_of(device, zero, base) {
                Err(error) => Err(error),
                Ok(area) => match candidates(device, zero.block_size, area, ring_len as nat) {
                    Err(error) => Err(error),
                    Ok(found) => first_whole(
                        device,
                        zero.block_size,
                        area,
                        ring_len as u64,
                        sort::stable_sort(found, newest_first()),
                    ),
                },
            }
        },
    }
}

impl Ranked for NxSuperblock {
    open spec fn spec_rank(&self) -> nat {
        newest_first()(self@)
    }

    fn rank(&self) -> (rank: u128) {
        (u64::MAX - self.xid.0) as u128
    }
}

/// An error in a prefix of the ring is the error of the whole ring.
proof fn lemma_candidates_error(
    device: Device,
    block_size: u32,
    area: AreaView,
    some: nat,
    all: nat,
    error: ApfsError,
)
    requires
        some <= all,
        candidates(device, block_size, area, some) == Err::<Seq<NxSuperblockView>, ApfsError>(
            error,
        ),
    ensures
        candidates(device, block_size, area, all) == Err::<Seq<NxSuperblockView>, ApfsError>(error),
    decreases all,
{
    if some < all {
        lemma_candidates_error(device, block_size, area, some, (all - 1) as nat, error);
    }
}

/// A torn or failing prefix of a ring range decides for the whole range.
proof fn lemma_mappings_stop(
    device: Device,
    block_size: u32,
    area: AreaView,
    ring_len: u64,
    start: u64,
    some: nat,
    all: nat,
)
    requires
        some <= all,
        !(mappings_from(device, block_size, area, ring_len, start, some) matches Ok(Some(_))),
    ensures
        mappings_from(device, block_size, area, ring_len, start, all) == mappings_from(
            device,
            block_size,
            area,
            ring_len,
            start,
            some,
        ),
    decreases all,
{
    if some < all {
        lemma_mappings_stop(device, block_size, area, ring_len, start, some, (all - 1) as nat);
    }
}

/// Reads the superblock in a block of the ring, if it holds a valid one.
fn read_candidate(block: &[u8]) -> (found: Option<NxSuperblock>)
    ensures
        error::some_view(found) == candidate_in(block@),
{
    if !checksum::verify_block(block) {
        return None;
    }
    match NxSuperblock::parse(block) {
        Ok(superblock) => Some(superblock),
        Err(_) => None,
    }
}

/// Collects every checksum-valid container superblock of the ring.
fn collect_candidates<R: Reader>(
    reader: &mut R,
    block_size: u32,
    area: &DescriptorArea,
    ring_len: u64,
) -> (collected: Result<Vec<NxSuperblock>, ApfsError>)
    ensures
        final(reader).device() == old(reader).device(),
        error::viewed_all(collected) == candidates(
            old(reader).device(),
            block_size,
            area@,
            ring_len as nat,
        ),
{
    let ghost device = reader.device();
    let mut found: Vec<NxSuperblock> = Vec::new();
    let mut i: u64 = 0;
    assert(error::views(found@) =~= Seq::<NxSuperblockView>::empty());
    while i < ring_len
        invariant
            i <= ring_len,
            device == old(reader).device(),
            reader.device() == device,
            candidates(device, block_size, area@, i as nat) == Ok::<
                Seq<NxSuperblockView>,
                ApfsError,
            >(error::views(found@)),
        decreases ring_len - i,
    {
        if let Some(addr) = area.block_addr(i) {
            match read_block(reader, block_size, addr) {
                Ok(block) => {
                    let ghost before = found@;
                    if let Some(superblock) = read_candidate(block.as_slice()) {
                        found.push(superblock);
                        assert(error::views(found@) =~= error::views(before).push(superblock@));
                    }
                },
                Err(error) => {
                    proof {
                        lemma_candidates_error(
                            device,
                            block_size,
                            area@,
                            (i + 1) as nat,
                            ring_len as nat,
                            error,
                        );
                    }
                    return Err(error);
                },
            }
        }
        i += 1;
    }
    Ok(found)
}

/// Reads the mappings that a block of a checkpoint's ring range adds.
fn read_mappings(block: &[u8]) -> (added: Result<Option<Vec<CheckpointMapping>>, ApfsError>)
    ensures
        error::viewed_option(added) == mappings_in(block@),
{
    if !checksum::verify_block(block) {
        return Ok(None);
    }
    let header: ObjPhys = match ObjPhys::parse(block) {
        Ok(header) => header,
        Err(_) => return Ok(None),
    };
    match header.object_kind() {
        ObjectType::NxSuperblock => Ok(Some(Vec::new())),
        ObjectType::CheckpointMap => match CheckpointMapPhys::parse(block) {
            Ok(map) => Ok(Some(map.mappings)),
            Err(error) => Err(error),
        },
        _ => Ok(None),
    }
}

/// Gathers a candidate checkpoint's mappings from the descriptor ring.
///
/// Returns `None` when the candidate is torn and an older checkpoint should be
/// tried.
fn gather_mappings<R: Reader>(
    reader: &mut R,
    block_size: u32,
    area: &DescriptorArea,
    ring_len: u64,
    superblock: &NxSuperblock,
) -> (gathered: Result<Option<Vec<CheckpointMapping>>, ApfsError>)
    ensures
        final(reader).device() == old(reader).device(),
        error::viewed_option(gathered) == checkpoint_mappings(
            old(reader).device(),
            block_size,
            area@,
            ring_len,
            superblock@,
        ),
{
    let ghost device = reader.device();
    let span: u64 = superblock.xp_desc.len as u64;
    let start: u64 = superblock.xp_desc.index as u64;
    if span == 0 || span > ring_len || start >= ring_len {
        return Ok(None);
    }
    let mut mappings: Vec<CheckpointMapping> = Vec::new();
    let mut j: u64 = 0;
    while j < span
        invariant
            j <= span <= 0xFFFF_FFFF,
            start <= 0xFFFF_FFFF,
            ring_len > 0,
            device == old(reader).device(),
            reader.device() == device,
            checkpoint_mappings(device, block_size, area@, ring_len, superblock@) == mappings_from(
                device,
                block_size,
                area@,
                ring_len,
                start,
                span as nat,
            ),
            mappings_from(device, block_size, area@, ring_len, start, j as nat) == Ok::<
                Option<Seq<CheckpointMapping>>,
                ApfsError,
            >(Some(mappings@)),
        decreases span - j,
    {
        let index: u64 = (start + j) % ring_len;
        let ghost next = mappings_from(device, block_size, area@, ring_len, start, (j + 1) as nat);
        proof {
            if !(next matches Ok(Some(_))) {
                lemma_mappings_stop(
                    device,
                    block_size,
                    area@,
                    ring_len,
                    start,
                    (j + 1) as nat,
                    span as nat,
                );
            }
        }
        let addr: u64 = match area.block_addr(index) {
            Some(addr) => addr,
            None => return Ok(None),
        };
        let block: Vec<u8> = match read_block(reader, block_size, addr) {
            Ok(block) => block,
            Err(error) => return Err(error),
        };
        match read_mappings(block.as_slice()) {
            Ok(Some(mut added)) => {
                mappings.append(&mut added);
            },
            Ok(None) => return Ok(None),
            Err(error) => return Err(error),
        }
        j += 1;
    }
    Ok(Some(mappings))
}

/// Scans the checkpoint descriptor area and returns the latest valid
/// checkpoint.
///
/// `block_zero` is the container superblock read from block zero, used only to
/// locate the descriptor area: contiguous, or a B-tree when the high bit of
/// `nx_xp_desc_blocks` is set. Superblocks are tried in descending transaction
/// order until one whose checkpoint blocks all verify is found.
pub fn latest_checkpoint<R: Reader>(reader: &mut R, block_zero: &NxSuperblock) -> (latest: Result<
    Checkpoint,
    ApfsError,
>)
    ensures
        final(reader).device() == old(reader).device(),
        error::viewed(latest) == latest_of(old(reader).device(), block_zero@),
{
    let ghost device = reader.device();
    let block_size: u32 = block_zero.block_size;
    let base: u64 = match block_zero.xp_desc.base.as_block() {
        Some(base) => base,
        None => return Err(
            ApfsError::Malformed {
                structure: "nx_superblock_t",
                reason: "checkpoint descriptor base is not a valid address",
            },
        ),
    };
    let ring_len: u64 = (block_zero.xp_desc.blocks % XP_AREA_TREE_FLAG) as u64;
    if ring_len == 0 {
        return Err(ApfsError::NotFound { what: "checkpoint descriptor area" });
    }
    let area: DescriptorArea = if block_zero.xp_desc.blocks >= XP_AREA_TREE_FLAG {
        match read_descriptor_tree(reader, block_size, base) {
            Ok(area) => area,
            Err(error) => return Err(error),
        }
    } else {
        DescriptorArea::Contiguous { base }
    };
    let mut found: Vec<NxSuperblock> = match collect_candidates(
        reader,
        block_size,
        &area,
        ring_len,
    ) {
        Ok(found) => found,
        Err(error) => return Err(error),
    };
    let ghost unsorted = found@;
    sort::sort_by_rank(&mut found);
    let ghost sorted = sort::stable_sort(error::views(unsorted), newest_first());
    proof {
        sort::lemma_stable_sort_map(
            unsorted,
            sort::rank_of::<NxSuperblock>(),
            |superblock: NxSuperblock| superblock@,
            newest_first(),
        );
        assert(error::views(found@) =~= sorted);
    }
    let mut i: usize = 0;
    assert(sorted.skip(0) =~= sorted);
    while i < found.len()
        invariant
            i <= found@.len(),
            device == old(reader).device(),
            reader.device() == device,
            sorted == error::views(found@),
            latest_of(device, block_zero@) == first_whole(
                device,
                block_size,
                area@,
                ring_len,
                sorted.skip(i as int),
            ),
        decreases found@.len() - i,
    {
        assert(sorted.skip(i as int)[0] == found@[i as int]@);
        assert(sorted.skip(i as int).drop_first() =~= sorted.skip(i + 1));
        match gather_mappings(reader, block_size, &area, ring_len, &found[i]) {
            Ok(Some(mappings)) => {
                let superblock: NxSuperblock = found.swap_remove(i);
                return Ok(Checkpoint { superblock, mappings });
            },
            Ok(None) => {},
            Err(error) => return Err(error),
        }
        i += 1;
    }
    Err(ApfsError::NotFound { what: "valid checkpoint" })
}

/// Of two candidate superblocks the chosen checkpoint is the newer: every
/// candidate of a later transaction than the chosen one is torn.
pub proof fn law_latest_is_newest_whole(
    device: Device,
    block_size: u32,
    area: AreaView,
    ring_len: u64,
    found: Seq<NxSuperblockView>,
    other: NxSuperblockView,
)
    requires
        found.contains(other),
        first_whole(
            device,
            block_size,
            area,
            ring_len,
            sort::stable_sort(found, newest_first()),
        ) is Ok,
        other.xid.0 > first_whole(
            device,
            block_size,
            area,
            ring_len,
            sort::stable_sort(found, newest_first()),
        )->Ok_0.superblock.xid.0,
    ensures
        checkpoint_mappings(device, block_size, area, ring_len, other) == Ok::<
            Option<Seq<CheckpointMapping>>,
            ApfsError,
        >(None),
{
    let sorted = sort::stable_sort(found, newest_first());
    sort::law_stable_sort_sorts(found, newest_first());
    sort::law_stable_sort_permutes(found, newest_first());
    sort::lemma_same_multiset_contains(sorted, found, other);
    let at = sorted.index_of(other);
    lemma_first_whole(device, block_size, area, ring_len, sorted, at);
}

/// What `first_whole` chooses among sorted superblocks is a candidate whose
/// checkpoint is whole, and no later candidate than itself comes before it
/// unless that one is torn.
proof fn lemma_first_whole(
    device: Device,
    block_size: u32,
    area: AreaView,
    ring_len: u64,
    sorted: Seq<NxSuperblockView>,
    at: int,
)
    requires
        0 <= at < sorted.len(),
        sort::is_sorted(sorted, newest_first()),
        first_whole(device, block_size, area, ring_len, sorted) is Ok,
        sorted[at].xid.0 > first_whole(
            device,
            block_size,
            area,
            ring_len,
            sorted,
        )->Ok_0.superblock.xid.0,
    ensures
        checkpoint_mappings(device, block_size, area, ring_len, sorted[at]) == Ok::<
            Option<Seq<CheckpointMapping>>,
            ApfsError,
        >(None),
    decreases sorted.len(),
{
    assert(newest_first()(sorted[0]) <= newest_first()(sorted[at]));
    if checkpoint_mappings(device, block_size, area, ring_len, sorted[0]) matches Ok(None) {
        if at > 0 {
            let rest = sorted.drop_first();
            assert(rest[at - 1] == sorted[at]);
            assert(sort::is_sorted(rest, newest_first())) by {
                assert forall|i: int, j: int|
                    #![trigger rest[i], rest[j]]
                    0 <= i <= j < rest.len() implies newest_first()(rest[i]) <= newest_first()(
                    rest[j],
                ) by {
                    assert(rest[i] == sorted[i + 1] && rest[j] == sorted[j + 1]);
                }
            }
            lemma_first_whole(device, block_size, area, ring_len, rest, at - 1);
        }
    }
}

/// The chosen checkpoint belongs to one of the superblocks, and is whole.
pub proof fn law_latest_is_whole(
    device: Device,
    block_size: u32,
    area: AreaView,
    ring_len: u64,
    superblocks: Seq<NxSuperblockView>,
)
    requires
        first_whole(device, block_size, area, ring_len, superblocks) is Ok,
    ensures
        ({
            let chosen = first_whole(device, block_size, area, ring_len, superblocks)->Ok_0;
            superblocks.contains(chosen.superblock) && checkpoint_mappings(
                device,
                block_size,
                area,
                ring_len,
                chosen.superblock,
            ) == Ok::<Option<Seq<CheckpointMapping>>, ApfsError>(Some(chosen.mappings))
        }),
    decreases superblocks.len(),
{
    match checkpoint_mappings(device, block_size, area, ring_len, superblocks[0]) {
        Ok(None) => {
            let rest = superblocks.drop_first();
            law_latest_is_whole(device, block_size, area, ring_len, rest);
            let chosen = first_whole(device, block_size, area, ring_len, rest)->Ok_0;
            let k = rest.index_of(chosen.superblock);
            assert(superblocks[k + 1] == chosen.superblock);
        },
        _ => {
            assert(superblocks.contains(superblocks[0]));
        },
    }
}

proof fn lemma_candidates(device: Device, block_size: u32, area: AreaView, count: nat)
    requires
        count <= u64::MAX,
        candidates(device, block_size, area, count) is Ok,
    ensures
        forall|superblock: NxSuperblockView| #[trigger]
            candidates(device, block_size, area, count)->Ok_0.contains(superblock)
                <==> exists|index: u64|
                index < count && #[trigger] holds_superblock(
                    device,
                    block_size,
                    area,
                    index,
                    superblock,
                ),
    decreases count,
{
    let found = candidates(device, block_size, area, count)->Ok_0;
    if count > 0 {
        let last = (count - 1) as nat;
        lemma_candidates(device, block_size, area, last);
        let before = candidates(device, block_size, area, last)->Ok_0;
        assert forall|superblock: NxSuperblockView| #[trigger]
            found.contains(superblock) <==> exists|index: u64|
                index < count && #[trigger] holds_superblock(
                    device,
                    block_size,
                    area,
                    index,
                    superblock,
                ) by {
            if found.contains(superblock) {
                let k = found.index_of(superblock);
                if k < before.len() {
                    assert(before[k] == superblock);
                    assert(before.contains(superblock));
                } else {
                    assert(holds_superblock(device, block_size, area, last as u64, superblock));
                }
            }
            if exists|index: u64|
                index < count && #[trigger] holds_superblock(
                    device,
                    block_size,
                    area,
                    index,
                    superblock,
                ) {
                let index = choose|index: u64|
                    index < count && #[trigger] holds_superblock(
                        device,
                        block_size,
                        area,
                        index,
                        superblock,
                    );
                if index < last {
                    assert(before.contains(superblock));
                    let k = before.index_of(superblock);
                    assert(found[k] == superblock);
                } else {
                    assert(found.last() == superblock);
                }
            }
        }
    }
}

/// Whether the block at an index of a descriptor area holds a superblock, under a valid
/// checksum.
pub open spec fn holds_superblock(
    device: Device,
    block_size: u32,
    area: AreaView,
    index: u64,
    superblock: NxSuperblockView,
) -> bool {
    area_addr(area, index) matches Some(addr) && (block_at(device, block_size, addr) matches Ok(
        block,
    ) && checksum::is_valid_block(block) && container::superblock_of(block) == Ok::<
        NxSuperblockView,
        ApfsError,
    >(superblock))
}

/// The checkpoint that a container is read as of is that of a superblock in the descriptor
/// area, under a valid checksum, and it is whole; and every superblock there of a later
/// transaction is torn. A superblock that nothing is wrong with is so never passed over for
/// an older one.
pub proof fn law_checkpoint_is_the_newest_whole_one(
    device: Device,
    zero: NxSuperblockView,
    area: AreaView,
)
    requires
        zero.xp_desc.base.0 >= 0,
        area_of(device, zero, zero.xp_desc.base.0 as u64) == Ok::<AreaView, ApfsError>(area),
        latest_of(device, zero) is Ok,
    ensures
        ({
            let chosen = latest_of(device, zero)->Ok_0;
            let ring = (zero.xp_desc.blocks % 0x8000_0000) as u64;
            &&& exists|index: u64|
                index < ring && #[trigger] holds_superblock(
                    device,
                    zero.block_size,
                    area,
                    index,
                    chosen.superblock,
                )
            &&& checkpoint_mappings(device, zero.block_size, area, ring, chosen.superblock) == Ok::<
                Option<Seq<CheckpointMapping>>,
                ApfsError,
            >(Some(chosen.mappings))
            &&& forall|index: u64, other: NxSuperblockView|
                index < ring && #[trigger] holds_superblock(
                    device,
                    zero.block_size,
                    area,
                    index,
                    other,
                ) && other.xid.0 > chosen.superblock.xid.0 ==> checkpoint_mappings(
                    device,
                    zero.block_size,
                    area,
                    ring,
                    other,
                ) == Ok::<Option<Seq<CheckpointMapping>>, ApfsError>(None)
        }),
{
    let chosen = latest_of(device, zero)->Ok_0;
    let ring = (zero.xp_desc.blocks % 0x8000_0000) as u64;
    let found = candidates(device, zero.block_size, area, ring as nat)->Ok_0;
    let sorted = sort::stable_sort(found, newest_first());
    lemma_candidates(device, zero.block_size, area, ring as nat);
    law_latest_is_whole(device, zero.block_size, area, ring, sorted);
    sort::law_stable_sort_permutes(found, newest_first());
    sort::lemma_same_multiset_contains(found, sorted, chosen.superblock);
    assert forall|index: u64, other: NxSuperblockView|
        index < ring && #[trigger] holds_superblock(device, zero.block_size, area, index, other)
            && other.xid.0 > chosen.superblock.xid.0 implies checkpoint_mappings(
        device,
        zero.block_size,
        area,
        ring,
        other,
    ) == Ok::<Option<Seq<CheckpointMapping>>, ApfsError>(None) by {
        assert(found.contains(other));
        law_latest_is_newest_whole(device, zero.block_size, area, ring, found, other);
    }
}

/// A descriptor area without the top bit of its block count set is one run of blocks from
/// its base on; one with it set is a tree of fragments, each a run of blocks for the
/// indices from its start on.
pub proof fn law_descriptor_addresses(
    device: Device,
    zero: NxSuperblockView,
    base: u64,
    index: u64,
    fragment: DescFragment,
)
    ensures
        zero.xp_desc.blocks < 0x8000_0000 ==> (area_of(device, zero, base) matches Ok(area)
            && area_addr(area, index) == if base + index <= u64::MAX {
            Some((base + index) as u64)
        } else {
            None
        }),
        zero.xp_desc.blocks >= 0x8000_0000 ==> area_of(device, zero, base) == tree_area(
            device,
            zero.block_size,
            base,
        ),
        area_addr(AreaView::Fragmented(seq![fragment]), index) is Some <==> fragment.start_index
            <= index < fragment.start_index + fragment.block_count && fragment.phys_addr + index
            - fragment.start_index <= u64::MAX,
        area_addr(AreaView::Fragmented(seq![fragment]), index) matches Some(addr) ==> addr
            - fragment.phys_addr == index - fragment.start_index,
{
    assert(seq![fragment].drop_first() =~= Seq::<DescFragment>::empty());
    assert(fragments_addr(seq![fragment].drop_first(), index) is None);
}

/// A checkpoint is whole exactly when each block of its span, which wraps round the end of
/// the ring, is there under a valid checksum and is a superblock or a checkpoint map; its
/// mappings are those of the maps among them.
pub proof fn law_whole_checkpoint(
    device: Device,
    block_size: u32,
    area: AreaView,
    ring_len: u64,
    superblock: NxSuperblockView,
    mappings: Seq<CheckpointMapping>,
)
    requires
        checkpoint_mappings(device, block_size, area, ring_len, superblock) == Ok::<
            Option<Seq<CheckpointMapping>>,
            ApfsError,
        >(Some(mappings)),
    ensures
        0 < superblock.xp_desc.len <= ring_len,
        superblock.xp_desc.index < ring_len,
        forall|i: int|
            0 <= i < superblock.xp_desc.len ==> #[trigger] is_block_of_checkpoint(
                device,
                block_size,
                area,
                (superblock.xp_desc.index + i) % ring_len as int,
                mappings,
            ),
{
    lemma_whole_span(
        device,
        block_size,
        area,
        ring_len,
        superblock.xp_desc.index as u64,
        superblock.xp_desc.len as nat,
        mappings,
    );
}

/// Whether the block at an index of a descriptor area is whole and is a superblock, or a
/// checkpoint map whose mappings are all among the given ones.
pub open spec fn is_block_of_checkpoint(
    device: Device,
    block_size: u32,
    area: AreaView,
    index: int,
    mappings: Seq<CheckpointMapping>,
) -> bool {
    area_addr(area, index as u64) matches Some(addr) && (block_at(
        device,
        block_size,
        addr,
    ) matches Ok(block) && checksum::is_valid_block(block) && {
        let kind = types::object_type_of(bytes::le_u32(block, 24));
        ||| kind == ObjectType::NxSuperblock
        ||| kind == ObjectType::CheckpointMap && (map_of(block) matches Ok(map) && forall|k: int|
            0 <= k < map.mappings.len() ==> mappings.contains(#[trigger] map.mappings[k]))
    })
}

proof fn lemma_whole_span(
    device: Device,
    block_size: u32,
    area: AreaView,
    ring_len: u64,
    start: u64,
    count: nat,
    mappings: Seq<CheckpointMapping>,
)
    requires
        mappings_from(device, block_size, area, ring_len, start, count) == Ok::<
            Option<Seq<CheckpointMapping>>,
            ApfsError,
        >(Some(mappings)),
    ensures
        forall|i: int|
            0 <= i < count ==> #[trigger] is_block_of_checkpoint(
                device,
                block_size,
                area,
                (start + i) % ring_len as int,
                mappings,
            ),
    decreases count,
{
    if count > 0 {
        let last = (count - 1) as nat;
        let before = mappings_from(device, block_size, area, ring_len, start, last)->Ok_0->0;
        lemma_whole_span(device, block_size, area, ring_len, start, last, before);
        let index = ((start + count - 1) % ring_len as int) as u64;
        let addr = area_addr(area, index)->0;
        let block = block_at(device, block_size, addr)->Ok_0;
        let added = mappings_in(block)->Ok_0->0;
        assert(mappings == before + added);
        assert forall|i: int| 0 <= i < count implies #[trigger] is_block_of_checkpoint(
            device,
            block_size,
            area,
            (start + i) % ring_len as int,
            mappings,
        ) by {
            if i < last {
                assert(is_block_of_checkpoint(
                    device,
                    block_size,
                    area,
                    (start + i) % ring_len as int,
                    before,
                ));
                assert forall|m: CheckpointMapping| before.contains(m) implies mappings.contains(
                    m,
                ) by {
                    let k = before.index_of(m);
                    assert(mappings[k] == m);
                }
            } else {
                assert forall|k: int| 0 <= k < added.len() implies mappings.contains(
                    #[trigger] added[k],
                ) by {
                    assert(mappings[before.len() + k] == added[k]);
                }
            }
        }
    }
}

/// An ephemeral object is where the first mapping of its identifier says, and nowhere where
/// no mapping has it.
pub proof fn law_ephemeral_object_is_where_mapped(mappings: Seq<CheckpointMapping>, oid: Oid)
    ensures
        forall|i: int|
            0 <= i < mappings.len() && (#[trigger] mappings[i]).oid == oid && (forall|j: int|
                0 <= j < i ==> (#[trigger] mappings[j]).oid != oid) ==> ephemeral_addr(
                mappings,
                oid,
            ) == Some(mappings[i].paddr),
        (forall|i: int| 0 <= i < mappings.len() ==> (#[trigger] mappings[i]).oid != oid)
            ==> ephemeral_addr(mappings, oid) is None,
    decreases mappings.len(),
{
    if mappings.len() > 0 && mappings[0].oid != oid {
        let rest = mappings.drop_first();
        law_ephemeral_object_is_where_mapped(rest, oid);
        assert forall|i: int|
            0 <= i < mappings.len() && (#[trigger] mappings[i]).oid == oid && (forall|j: int|
                0 <= j < i ==> (#[trigger] mappings[j]).oid != oid) implies ephemeral_addr(
            mappings,
            oid,
        ) == Some(mappings[i].paddr) by {
            assert(rest[i - 1] == mappings[i]);
            assert forall|j: int| 0 <= j < i - 1 implies (#[trigger] rest[j]).oid != oid by {
                assert(rest[j] == mappings[j + 1]);
            }
        }
        if forall|i: int| 0 <= i < mappings.len() ==> (#[trigger] mappings[i]).oid != oid {
            assert forall|i: int| 0 <= i < rest.len() implies (#[trigger] rest[i]).oid != oid by {
                assert(rest[i] == mappings[i + 1]);
            }
        }
    }
}

/// A block is as long as the block size says and holds the bytes of the device from that many
/// times its address on; and it cannot be read where these lie past the largest offset. The
/// bytes are so on a device whose content does not change.
pub proof fn law_block_is_at_its_address(
    device: Device,
    content: spec_fn(nat) -> u8,
    block_size: u32,
    addr: u64,
)
    requires
        io::is_steady(device, content),
    ensures
        block_at(device, block_size, addr) matches Ok(block) ==> block.len() == block_size
            && forall|i: int|
            0 <= i < block_size ==> #[trigger] block[i] == content(
                (addr * block_size + i) as nat,
            ),
        addr * block_size > u64::MAX ==> block_at(device, block_size, addr) is Err,
{
    if block_at(device, block_size, addr) is Ok {
        assert(addr * block_size >= 0) by (nonlinear_arith);
        io::lemma_exact_len(device, (addr * block_size) as nat, block_size as nat);
        io::law_steady_read(device, content, (addr * block_size) as nat, block_size as nat);
    }
}

/// Whether the block at an index of a descriptor area makes a checkpoint torn: the area has no
/// such block, or its checksum is not valid, or it is neither a superblock nor a checkpoint
/// map.
pub open spec fn is_torn_at(device: Device, block_size: u32, area: AreaView, index: int) -> bool {
    match area_addr(area, index as u64) {
        None => true,
        Some(addr) => block_at(device, block_size, addr) matches Ok(block) && (
        !checksum::is_valid_block(block) || block.len() < 32 || {
            let kind = types::object_type_of(bytes::le_u32(block, 24));
            kind != ObjectType::NxSuperblock && kind != ObjectType::CheckpointMap
        }),
    }
}

proof fn lemma_torn_span(
    device: Device,
    block_size: u32,
    area: AreaView,
    ring_len: u64,
    start: u64,
    count: nat,
)
    requires
        mappings_from(device, block_size, area, ring_len, start, count) == Ok::<
            Option<Seq<CheckpointMapping>>,
            ApfsError,
        >(None),
    ensures
        exists|i: int|
            0 <= i < count && #[trigger] is_torn_at(
                device,
                block_size,
                area,
                (start + i) % ring_len as int,
            ),
    decreases count,
{
    let last = (count - 1) as nat;
    if mappings_from(device, block_size, area, ring_len, start, last) matches Ok(None) {
        lemma_torn_span(device, block_size, area, ring_len, start, last);
    } else {
        assert(is_torn_at(device, block_size, area, (start + last) % ring_len as int));
    }
}

/// A checkpoint is passed over as torn only where its span is empty, longer than the ring or
/// starts past it, or where a block of the span is torn.
pub proof fn law_torn_checkpoint(
    device: Device,
    block_size: u32,
    area: AreaView,
    ring_len: u64,
    superblock: NxSuperblockView,
)
    requires
        checkpoint_mappings(device, block_size, area, ring_len, superblock) == Ok::<
            Option<Seq<CheckpointMapping>>,
            ApfsError,
        >(None),
        0 < superblock.xp_desc.len <= ring_len,
        superblock.xp_desc.index < ring_len,
    ensures
        exists|i: int|
            0 <= i < superblock.xp_desc.len && #[trigger] is_torn_at(
                device,
                block_size,
                area,
                (superblock.xp_desc.index + i) % ring_len as int,
            ),
{
    lemma_torn_span(
        device,
        block_size,
        area,
        ring_len,
        superblock.xp_desc.index as u64,
        superblock.xp_desc.len as nat,
    );
}

/// Whether the block at an index of a descriptor area is a checkpoint map with a mapping.
pub open spec fn maps_at(
    device: Device,
    block_size: u32,
    area: AreaView,
    index: int,
    mapping: CheckpointMapping,
) -> bool {
    area_addr(area, index as u64) matches Some(addr) && (block_at(
        device,
        block_size,
        addr,
    ) matches Ok(block) && checksum::is_valid_block(block) && types::object_type_of(
        bytes::le_u32(block, 24),
    ) == ObjectType::CheckpointMap && (map_of(block) matches Ok(map) && map.mappings.contains(
        mapping,
    )))
}

proof fn lemma_mapping_is_mapped(
    device: Device,
    block_size: u32,
    area: AreaView,
    ring_len: u64,
    start: u64,
    count: nat,
    mappings: Seq<CheckpointMapping>,
    mapping: CheckpointMapping,
)
    requires
        mappings_from(device, block_size, area, ring_len, start, count) == Ok::<
            Option<Seq<CheckpointMapping>>,
            ApfsError,
        >(Some(mappings)),
        mappings.contains(mapping),
    ensures
        exists|i: int|
            0 <= i < count && #[trigger] maps_at(
                device,
                block_size,
                area,
                (start + i) % ring_len as int,
                mapping,
            ),
    decreases count,
{
    if count > 0 {
        let last = (count - 1) as nat;
        let before = mappings_from(device, block_size, area, ring_len, start, last)->Ok_0->0;
        let k = mappings.index_of(mapping);
        if k < before.len() {
            assert(before[k] == mapping);
            lemma_mapping_is_mapped(
                device,
                block_size,
                area,
                ring_len,
                start,
                last,
                before,
                mapping,
            );
        } else {
            let addr = area_addr(area, ((start + count - 1) % ring_len as int) as u64)->0;
            let block = block_at(device, block_size, addr)->Ok_0;
            let added = mappings_in(block)->Ok_0->0;
            assert(added[k - before.len()] == mapping);
            assert(maps_at(device, block_size, area, (start + last) % ring_len as int, mapping));
        }
    }
}

/// Every mapping of a checkpoint is one of a checkpoint map in its span.
pub proof fn law_mappings_are_those_of_the_maps(
    device: Device,
    block_size: u32,
    area: AreaView,
    ring_len: u64,
    superblock: NxSuperblockView,
    mappings: Seq<CheckpointMapping>,
    mapping: CheckpointMapping,
)
    requires
        checkpoint_mappings(device, block_size, area, ring_len, superblock) == Ok::<
            Option<Seq<CheckpointMapping>>,
            ApfsError,
        >(Some(mappings)),
        mappings.contains(mapping),
    ensures
        exists|i: int|
            0 <= i < superblock.xp_desc.len && #[trigger] maps_at(
                device,
                block_size,
                area,
                (superblock.xp_desc.index + i) % ring_len as int,
                mapping,
            ),
{
    lemma_mapping_is_mapped(
        device,
        block_size,
        area,
        ring_len,
        superblock.xp_desc.index as u64,
        superblock.xp_desc.len as nat,
        mappings,
        mapping,
    );
}

proof fn lemma_first_whole_is_given(
    device: Device,
    block_size: u32,
    area: AreaView,
    ring_len: u64,
    superblocks: Seq<NxSuperblockView>,
    at: int,
)
    requires
        0 <= at < superblocks.len(),
        forall|i: int|
            0 <= i < superblocks.len() ==> checkpoint_mappings(
                device,
                block_size,
                area,
                ring_len,
                #[trigger] superblocks[i],
            ) is Ok,
        checkpoint_mappings(device, block_size, area, ring_len, superblocks[at]) matches Ok(
            Some(_),
        ),
    ensures
        first_whole(device, block_size, area, ring_len, superblocks) is Ok,
    decreases superblocks.len(),
{
    assert(checkpoint_mappings(device, block_size, area, ring_len, superblocks[0]) is Ok);
    if checkpoint_mappings(device, block_size, area, ring_len, superblocks[0]) matches Ok(None) {
        let rest = superblocks.drop_first();
        assert forall|i: int| 0 <= i < rest.len() implies checkpoint_mappings(
            device,
            block_size,
            area,
            ring_len,
            #[trigger] rest[i],
        ) is Ok by {
            assert(rest[i] == superblocks[i + 1]);
        }
        assert(rest[at - 1] == superblocks[at]);
        lemma_first_whole_is_given(device, block_size, area, ring_len, rest, at - 1);
    }
}

/// A checkpoint is found wherever the descriptor area can be read and one of its superblocks
/// has a whole checkpoint.
pub proof fn law_whole_checkpoint_is_found(
    device: Device,
    zero: NxSuperblockView,
    area: AreaView,
    found: Seq<NxSuperblockView>,
    at: int,
)
    requires
        zero.xp_desc.base.0 >= 0,
        zero.xp_desc.blocks % 0x8000_0000 != 0,
        area_of(device, zero, zero.xp_desc.base.0 as u64) == Ok::<AreaView, ApfsError>(area),
        candidates(
            device,
            zero.block_size,
            area,
            (zero.xp_desc.blocks % 0x8000_0000) as nat,
        ) == Ok::<Seq<NxSuperblockView>, ApfsError>(found),
        forall|i: int|
            0 <= i < found.len() ==> checkpoint_mappings(
                device,
                zero.block_size,
                area,
                (zero.xp_desc.blocks % 0x8000_0000) as u64,
                #[trigger] found[i],
            ) is Ok,
        0 <= at < found.len(),
        checkpoint_mappings(
            device,
            zero.block_size,
            area,
            (zero.xp_desc.blocks % 0x8000_0000) as u64,
            found[at],
        ) matches Ok(Some(_)),
    ensures
        latest_of(device, zero) is Ok,
{
    let ring = (zero.xp_desc.blocks % 0x8000_0000) as u64;
    let sorted = sort::stable_sort(found, newest_first());
    sort::law_stable_sort_permutes(found, newest_first());
    sort::lemma_same_multiset_contains(sorted, found, found[at]);
    assert forall|i: int| 0 <= i < sorted.len() implies checkpoint_mappings(
        device,
        zero.block_size,
        area,
        ring,
        #[trigger] sorted[i],
    ) is Ok by {
        assert(sorted.contains(sorted[i]));
        sort::lemma_same_multiset_contains(found, sorted, sorted[i]);
        let k = found.index_of(sorted[i]);
        assert(found[k] == sorted[i]);
    }
    let k = sorted.index_of(found[at]);
    lemma_first_whole_is_given(device, zero.block_size, area, ring, sorted, k);
}

} // verus!
