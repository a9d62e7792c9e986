//! The space manager (`spaceman_phys_t`): free-space and allocation mapping.
//!
//! The space manager tracks which blocks of a container are allocated. Its
//! per-chunk allocation bitmaps are the basis for free-space reporting and for
//! unallocated-block recovery scanning.

use vstd::arithmetic::div_mod::*;
use vstd::prelude::*;

use crate::bytes;
use crate::checkpoint;
use crate::error;
use crate::error::ApfsError;
use crate::io;
use crate::io::{Device, Reader};
use crate::object::OBJ_PHYS_SIZE;

verus! {

/// Number of storage devices a space manager describes.
pub const SD_COUNT: usize = 2;

/// Index of the main storage device.
pub const SD_MAIN: usize = 0;

/// Offset of the `sm_dev` array within `spaceman_phys_t`.
pub const SM_DEV_OFFSET: usize = OBJ_PHYS_SIZE + 16;

/// Size of a `spaceman_device_t`.
pub const SPACEMAN_DEVICE_SIZE: usize = 48;

/// Size of the fixed part of a `spaceman_phys_t`.
pub const SPACEMAN_MIN_SIZE: usize = SM_DEV_OFFSET + SPACEMAN_DEVICE_SIZE
    + SPACEMAN_DEVICE_SIZE;

/// Size of a `chunk_info_t`.
pub const CHUNK_INFO_SIZE: usize = 32;

/// Offset of the `chunk_info` array within a `chunk_info_block`.
pub const CIB_CHUNK_INFO_OFFSET: usize = OBJ_PHYS_SIZE + 8;

/// Offset of the `cab_cib_addr` array within a `cib_addr_block`.
pub const CAB_CIB_ADDR_OFFSET: usize = OBJ_PHYS_SIZE + 8;

/// Offset of `cab_cib_count` within a `cib_addr_block`.
pub const CAB_CIB_COUNT_OFFSET: usize = OBJ_PHYS_SIZE + 4;

/// One of a space manager's storage devices (`spaceman_device_t`).
#[derive(Debug, Clone, Copy, PartialEq, Eq, Structural)]
pub struct SpacemanDevice {
    /// Total number of blocks on the device.
    pub block_count: u64,
    /// Number of allocation chunks on the device.
    pub chunk_count: u64,
    /// Number of chunk-info blocks.
    pub cib_count: u32,
    /// Number of chunk-info address blocks (zero for a single-level layout).
    pub cab_count: u32,
    /// Number of free blocks on the device.
    pub free_count: u64,
    /// Offset, within `spaceman_phys_t`, of the device's address array.
    pub addr_offset: u32,
}

/// The state of an allocation chunk (`chunk_info_t`).
#[derive(Debug, Clone, Copy, PartialEq, Eq, Structural)]
pub struct ChunkInfo {
    /// Transaction of the last change.
    pub xid: u64,
    /// First block of the chunk.
    pub addr: u64,
    /// Number of blocks in the chunk.
    pub block_count: u32,
    /// Number of free blocks in the chunk.
    pub free_count: u32,
    /// Address of the allocation bitmap; not positive when there is none.
    pub bitmap_addr: i64,
}

/// A parsed space manager.
#[derive(Debug, Clone)]
pub struct SpaceManager {
    /// The space-manager block, kept to read the per-device address arrays.
    pub block: Vec<u8>,
    /// Container block size, in bytes.
    pub block_size: u32,
    /// Number of blocks per allocation chunk.
    pub blocks_per_chunk: u32,
    /// Number of chunks per chunk-info block.
    pub chunks_per_cib: u32,
    /// Number of chunk-info blocks per chunk-info address block (the two-level
    /// layout).
    pub cibs_per_cab: u32,
    /// The main storage device.
    pub main_device: SpacemanDevice,
    /// The secondary (Fusion tier-2) storage device.
    pub tier2_device: SpacemanDevice,
}

/// The content of a [`SpaceManager`].
pub struct SpaceManagerView {
    /// The space-manager block.
    pub block: Seq<u8>,
    /// Container block size, in bytes.
    pub block_size: u32,
    /// Number of blocks per allocation chunk.
    pub blocks_per_chunk: u32,
    /// Number of chunks per chunk-info block.
    pub chunks_per_cib: u32,
    /// Number of chunk-info blocks per chunk-info address block.
    pub cibs_per_cab: u32,
    /// The main storage device.
    pub main_device: SpacemanDevice,
    /// The secondary storage device.
    pub tier2_device: SpacemanDevice,
}

impl View for SpaceManager {
    type V = SpaceManagerView;

    open spec fn view(&self) -> SpaceManagerView {
        SpaceManagerView {
            block: self.block@,
            block_size: self.block_size,
            blocks_per_chunk: self.blocks_per_chunk,
            chunks_per_cib: self.chunks_per_cib,
            cibs_per_cab: self.cibs_per_cab,
            main_device: self.main_device,
            tier2_device: self.tier2_device,
        }
    }
}

/// The device stored at `at`.
pub open spec fn device_at(block: Seq<u8>, at: int) -> SpacemanDevice {
    SpacemanDevice {
        block_count: bytes::le_u64(block, at),
        chunk_count: bytes::le_u64(block, at + 8),
        cib_count: bytes::le_u32(block, at + 16),
        cab_count: bytes::le_u32(block, at + 20),
        free_count: bytes::le_u64(block, at + 24),
        addr_offset: bytes::le_u32(block, at + 32),
    }
}

/// The device stored at `at`, if the block reaches so far.
pub open spec fn device_of(block: Seq<u8>, at: usize) -> Result<SpacemanDevice, ApfsError> {
    if at + SPACEMAN_DEVICE_SIZE > block.len() {
        error::truncated("spaceman_device_t", at + SPACEMAN_DEVICE_SIZE, block.len())
    } else {
        Ok(device_at(block, at as int))
    }
}

/// Parses a `spaceman_device_t` at `offset` within `block`.
pub fn parse_device(block: &[u8], offset: usize) -> (parsed: Result<SpacemanDevice, ApfsError>)
    requires
        offset + SPACEMAN_DEVICE_SIZE <= usize::MAX,
    ensures
        parsed == device_of(block@, offset),
{
    if offset + SPACEMAN_DEVICE_SIZE > block.len() {
        return Err(
            ApfsError::Truncated {
                structure: "spaceman_device_t",
                expected: offset + SPACEMAN_DEVICE_SIZE,
                actual: block.len(),
            },
        );
    }
    Ok(
        SpacemanDevice {
            block_count: bytes::read_u64(block, offset),
            chunk_count: bytes::read_u64(block, offset + 8),
            cib_count: bytes::read_u32(block, offset + 16),
            cab_count: bytes::read_u32(block, offset + 20),
            free_count: bytes::read_u64(block, offset + 24),
            addr_offset: bytes::read_u32(block, offset + 32),
        },
    )
}

/// The space manager in `block`.
pub open spec fn space_manager_of(block: Seq<u8>) -> Result<SpaceManagerView, ApfsError> {
    if block.len() < SPACEMAN_MIN_SIZE {
        error::truncated("spaceman_phys_t", SPACEMAN_MIN_SIZE as int, block.len())
    } else {
        Ok(
            SpaceManagerView {
                block,
                block_size: bytes::le_u32(block, 0x20),
                blocks_per_chunk: bytes::le_u32(block, 0x24),
                chunks_per_cib: bytes::le_u32(block, 0x28),
                cibs_per_cab: bytes::le_u32(block, 0x2C),
                main_device: device_at(block, SM_DEV_OFFSET as int),
                tier2_device: device_at(block, SM_DEV_OFFSET + SPACEMAN_DEVICE_SIZE),
            },
        )
    }
}

/// The entry `index` of the main device's address array.
pub open spec fn address_entry(sm: SpaceManagerView, index: u64) -> Result<u64, ApfsError> {
    let at = sm.main_device.addr_offset + index * 8;
    if at + 8 > sm.block.len() {
        error::malformed("spaceman_phys_t", "device address array out of range")
    } else {
        Ok(bytes::le_u64(sm.block, at))
    }
}

/// The address of chunk-info block number `index` in a chunk-info address
/// block.
pub open spec fn address_in_cab(cab: Seq<u8>, index: u64) -> Result<u64, ApfsError> {
    let at = CAB_CIB_ADDR_OFFSET + index * 8;
    if cab.len() < CAB_CIB_COUNT_OFFSET + 4 {
        error::malformed("cib_addr_block", "truncated address block")
    } else if index >= bytes::le_u32(cab, CAB_CIB_COUNT_OFFSET as int) {
        error::malformed("cib_addr_block", "chunk-info-block index past the address block")
    } else if at + 8 > cab.len() {
        error::malformed("cib_addr_block", "chunk-info-block address out of range")
    } else {
        Ok(bytes::le_u64(cab, at))
    }
}

/// The address of the chunk-info block of a chunk on the main device.
///
/// Without chunk-info address blocks the device's address array holds it;
/// otherwise the array holds the address block that holds it.
pub open spec fn cib_address_of(device: Device, sm: SpaceManagerView, chunk: u64) -> Result<
    u64,
    ApfsError,
> {
    let cib = (chunk / sm.chunks_per_cib as u64) as u64;
    let cab = (cib / sm.cibs_per_cab as u64) as u64;
    if sm.chunks_per_cib == 0 {
        error::malformed("spaceman_phys_t", "chunks-per-cib is zero")
    } else if cib >= sm.main_device.cib_count {
        error::malformed(
            "spaceman_device_t",
            "chunk index past the device's chunk-info blocks",
        )
    } else if sm.main_device.cab_count == 0 {
        address_entry(sm, cib)
    } else if sm.cibs_per_cab == 0 {
        error::malformed("spaceman_phys_t", "cibs-per-cab is zero with a two-level layout")
    } else if cab >= sm.main_device.cab_count {
        error::malformed("spaceman_device_t", "chunk index past the device's address blocks")
    } else {
        match address_entry(sm, cab) {
            Err(error) => Err(error),
            Ok(addr) => match checkpoint::block_at(device, sm.block_size, addr) {
                Err(error) => Err(error),
                Ok(block) => address_in_cab(block, (cib % sm.cibs_per_cab as u64) as u64),
            },
        }
    }
}

/// The entry `index` of a chunk-info block.
pub open spec fn chunk_in_cib(cib: Seq<u8>, index: u64) -> Result<ChunkInfo, ApfsError> {
    let at = CIB_CHUNK_INFO_OFFSET + index * CHUNK_INFO_SIZE;
    if at + CHUNK_INFO_SIZE > cib.len() {
        error::malformed("chunk_info_block", "chunk-info entry out of range")
    } else {
        Ok(
            ChunkInfo {
                xid: bytes::le_u64(cib, at),
                addr: bytes::le_u64(cib, at + 8),
                block_count: bytes::le_u32(cib, at + 16),
                free_count: bytes::le_u32(cib, at + 20),
                bitmap_addr: bytes::le_i64(cib, at + 24),
            },
        )
    }
}

/// The state of a chunk on the main device.
pub open spec fn chunk_info_of(device: Device, sm: SpaceManagerView, chunk: u64) -> Result<
    ChunkInfo,
    ApfsError,
> {
    match cib_address_of(device, sm, chunk) {
        Err(error) => Err(error),
        Ok(addr) => match checkpoint::block_at(device, sm.block_size, addr) {
            Err(error) => Err(error),
            Ok(cib) => chunk_in_cib(cib, (chunk % sm.chunks_per_cib as u64) as u64),
        },
    }
}

/// Whether a block of the main device is allocated.
///
/// A chunk without a bitmap is allocated as a whole when none of its blocks is
/// free; in a bitmap a set bit marks an allocated block.
pub open spec fn allocated_at(device: Device, sm: SpaceManagerView, addr: u64) -> Result<
    bool,
    ApfsError,
> {
    let chunk = (addr / sm.blocks_per_chunk as u64) as u64;
    let bit = addr % sm.blocks_per_chunk as u64;
    if addr >= sm.main_device.block_count {
        error::malformed("spaceman", "block address past the main device")
    } else if sm.blocks_per_chunk == 0 {
        error::malformed("spaceman_phys_t", "blocks-per-chunk is zero")
    } else {
        match chunk_info_of(device, sm, chunk) {
            Err(error) => Err(error),
            Ok(info) => if info.bitmap_addr <= 0 {
                Ok(info.free_count == 0 && info.block_count != 0)
            } else {
                match checkpoint::block_at(device, sm.block_size, info.bitmap_addr as u64) {
                    Err(error) => Err(error),
                    Ok(bitmap) => if bit / 8 >= bitmap.len() {
                        error::malformed("spaceman bitmap", "bit index past the bitmap block")
                    } else {
                        Ok(bytes::bit_set(bitmap, bit as int))
                    },
                }
            },
        }
    }
}

/// A run of contiguous free (unallocated) blocks on the main device.
#[derive(Debug, Clone, Copy, PartialEq, Eq, Structural)]
pub struct FreeExtent {
    /// First free block of the run.
    pub start: u64,
    /// Number of consecutive free blocks.
    pub length: u64,
}

/// The sum of two numbers, or the largest number when they have none.
pub open spec fn capped_sum(a: int, b: int) -> u64 {
    if a + b <= u64::MAX {
        (a + b) as u64
    } else {
        u64::MAX
    }
}

/// `extents` with a free run at its end: an empty run adds nothing, and a run
/// that starts where the last extent ends extends it.
pub open spec fn with_run(extents: Seq<FreeExtent>, start: u64, length: u64) -> Seq<FreeExtent> {
    if length == 0 {
        extents
    } else if extents.len() > 0 && capped_sum(
        extents.last().start as int,
        extents.last().length as int,
    ) == start {
        extents.drop_last().push(
            FreeExtent {
                start: extents.last().start,
                length: capped_sum(extents.last().length as int, length as int),
            },
        )
    } else {
        extents.push(FreeExtent { start, length })
    }
}

/// `extents` with the free runs of a chunk's bitmap from `bit` on at its end,
/// when `run` is the start of the free run that `bit` continues.
pub open spec fn with_bits(
    extents: Seq<FreeExtent>,
    bitmap: Seq<u8>,
    chunk_start: u64,
    count: u64,
    bit: u64,
    run: Option<u64>,
) -> Seq<FreeExtent>
    decreases count - bit,
{
    if bit >= count {
        match run {
            Some(start) => with_run(
                extents,
                capped_sum(chunk_start as int, start as int),
                (count - start) as u64,
            ),
            None => extents,
        }
    } else if bytes::bit_set(bitmap, bit as int) {
        match run {
            Some(start) => with_bits(
                with_run(
                    extents,
                    capped_sum(chunk_start as int, start as int),
                    (bit - start) as u64,
                ),
                bitmap,
                chunk_start,
                count,
                (bit + 1) as u64,
                None,
            ),
            None => with_bits(extents, bitmap, chunk_start, count, (bit + 1) as u64, None),
        }
    } else {
        with_bits(
            extents,
            bitmap,
            chunk_start,
            count,
            (bit + 1) as u64,
            Some(
                match run {
                    Some(start) => start,
                    None => bit,
                },
            ),
        )
    }
}

/// The first block of a chunk.
pub open spec fn chunk_start_of(sm: SpaceManagerView, chunk: u64) -> u64 {
    if chunk * sm.blocks_per_chunk <= u64::MAX {
        (chunk * sm.blocks_per_chunk) as u64
    } else {
        u64::MAX
    }
}

/// `extents` with the free runs of a chunk at its end.
pub open spec fn with_chunk(
    device: Device,
    sm: SpaceManagerView,
    extents: Seq<FreeExtent>,
    chunk: u64,
) -> Result<Seq<FreeExtent>, ApfsError> {
    let start = chunk_start_of(sm, chunk);
    match chunk_info_of(device, sm, chunk) {
        Err(error) => Err(error),
        Ok(info) => if info.bitmap_addr <= 0 {
            if info.free_count != 0 {
                Ok(with_run(extents, start, info.block_count as u64))
            } else {
                Ok(extents)
            }
        } else {
            match checkpoint::block_at(device, sm.block_size, info.bitmap_addr as u64) {
                Err(error) => Err(error),
                Ok(bitmap) => if bitmap.len() * 8 < info.block_count {
                    error::malformed(
                        "spaceman bitmap",
                        "bitmap is shorter than the chunk it covers",
                    )
                } else {
                    Ok(with_bits(extents, bitmap, start, info.block_count as u64, 0, None))
                },
            }
        },
    }
}

/// The free extents of the first `chunks` chunks of the main device.
pub open spec fn free_extents_of(device: Device, sm: SpaceManagerView, chunks: nat) -> Result<
    Seq<FreeExtent>,
    ApfsError,
>
    decreases chunks,
{
    if chunks == 0 {
        Ok(Seq::empty())
    } else {
        match free_extents_of(device, sm, (chunks - 1) as nat) {
            Err(error) => Err(error),
            Ok(before) => with_chunk(device, sm, before, (chunks - 1) as u64),
        }
    }
}

proof fn lemma_free_extents_error(
    device: Device,
    sm: SpaceManagerView,
    some: nat,
    all: nat,
    error: ApfsError,
)
    requires
        some <= all,
        free_extents_of(device, sm, some) == Err::<Seq<FreeExtent>, ApfsError>(error),
    ensures
        free_extents_of(device, sm, all) == Err::<Seq<FreeExtent>, ApfsError>(error),
    decreases all,
{
    if some < all {
        lemma_free_extents_error(device, sm, some, (all - 1) as nat, error);
    }
}

/// Whether a block lies in one of the extents.
pub open spec fn in_extents(extents: Seq<FreeExtent>, block: int) -> bool {
    exists|i: int|
        0 <= i < extents.len() && (#[trigger] extents[i]).start <= block < extents[i].start
            + extents[i].length
}

/// Whether the extents are in order, are not empty, leave a gap between each
/// two, and end at `limit` or before.
pub open spec fn separated(extents: Seq<FreeExtent>, limit: int) -> bool {
    &&& forall|i: int|
        0 <= i < extents.len() ==> (#[trigger] extents[i]).length > 0 && extents[i].start
            + extents[i].length <= limit
    &&& forall|i: int, j: int|
        0 <= i < j < extents.len() ==> (#[trigger] extents[i]).start + extents[i].length < (
        #[trigger] extents[j]).start
}

/// The number of blocks in the extents.
pub open spec fn total_length(extents: Seq<FreeExtent>) -> int
    decreases extents.len(),
{
    if extents.len() == 0 {
        0
    } else {
        total_length(extents.drop_last()) + extents.last().length
    }
}

proof fn lemma_with_run(extents: Seq<FreeExtent>, start: u64, length: u64)
    requires
        separated(extents, start as int),
        start + length <= u64::MAX,
    ensures
        separated(with_run(extents, start, length), start + length),
        total_length(with_run(extents, start, length)) == total_length(extents) + length,
        forall|block: int| #[trigger]
            in_extents(with_run(extents, start, length), block) <==> in_extents(extents, block)
                || start <= block < start + length,
{
    let result = with_run(extents, start, length);
    if length != 0 {
        let merged = extents.len() > 0 && extents.last().start + extents.last().length == start;
        assert(extents.len() > 0 ==> extents.last() == extents[extents.len() - 1]);
        if merged {
            assert(result.drop_last() =~= extents.drop_last());
        } else {
            assert(result.drop_last() =~= extents);
        }
        assert forall|block: int| #[trigger] in_extents(result, block) <==> in_extents(
            extents,
            block,
        ) || start <= block < start + length by {
            if in_extents(extents, block) {
                let i = choose|i: int|
                    0 <= i < extents.len() && (#[trigger] extents[i]).start <= block
                        < extents[i].start + extents[i].length;
                assert(result[i].start <= block < result[i].start + result[i].length);
            }
            if start <= block < start + length {
                let last = result.len() - 1;
                assert(result[last].start <= block < result[last].start + result[last].length);
            }
            if in_extents(result, block) {
                let i = choose|i: int|
                    0 <= i < result.len() && (#[trigger] result[i]).start <= block
                        < result[i].start + result[i].length;
                if i < extents.len() {
                    assert(extents[i].start == result[i].start);
                }
            }
        }
    }
}

/// The number of clear bits among the first `count` bits of a bitmap.
pub open spec fn clear_bits(bitmap: Seq<u8>, count: nat) -> nat
    decreases count,
{
    if count == 0 {
        0
    } else {
        clear_bits(bitmap, (count - 1) as nat) + if bytes::bit_set(bitmap, count - 1) {
            0nat
        } else {
            1nat
        }
    }
}

/// The first bit of the run that `bit` continues, or `bit` itself.
spec fn run_from(bit: u64, run: Option<u64>) -> u64 {
    match run {
        Some(start) => start,
        None => bit,
    }
}

proof fn lemma_with_bits(
    extents: Seq<FreeExtent>,
    bitmap: Seq<u8>,
    chunk_start: u64,
    count: u64,
    bit: u64,
    run: Option<u64>,
)
    requires
        bit <= count,
        run_from(bit, run) <= bit,
        chunk_start + count <= u64::MAX,
        separated(extents, chunk_start + run_from(bit, run)),
        forall|at: int| run_from(bit, run) <= at < bit ==> !#[trigger] bytes::bit_set(bitmap, at),
    ensures
        ({
            let result = with_bits(extents, bitmap, chunk_start, count, bit, run);
            &&& separated(result, chunk_start + count)
            &&& total_length(result) == total_length(extents) + (bit - run_from(bit, run))
                + clear_bits(bitmap, count as nat) - clear_bits(bitmap, bit as nat)
            &&& forall|block: int| #[trigger]
                in_extents(result, block) <==> in_extents(extents, block) || (chunk_start
                    + run_from(bit, run) <= block < chunk_start + count && !bytes::bit_set(
                    bitmap,
                    block - chunk_start,
                ))
        }),
    decreases count - bit,
{
    let from = run_from(bit, run);
    let start = (chunk_start + from) as u64;
    let length = (bit - from) as u64;
    if bit >= count {
        if run is Some {
            lemma_with_run(extents, start, length);
        }
    } else if bytes::bit_set(bitmap, bit as int) {
        if run is Some {
            lemma_with_run(extents, start, length);
            let before = with_run(extents, start, length);
            lemma_with_bits(before, bitmap, chunk_start, count, (bit + 1) as u64, None);
        } else {
            lemma_with_bits(extents, bitmap, chunk_start, count, (bit + 1) as u64, None);
        }
        let result = with_bits(extents, bitmap, chunk_start, count, bit, run);
        assert forall|block: int| #[trigger] in_extents(result, block) <==> in_extents(
            extents,
            block,
        ) || (chunk_start + from <= block < chunk_start + count && !bytes::bit_set(
            bitmap,
            block - chunk_start,
        )) by {
            if chunk_start + from <= block < chunk_start + bit {
                assert(!bytes::bit_set(bitmap, block - chunk_start));
            }
            if run is Some {
                assert(in_extents(with_run(extents, start, length), block) <==> in_extents(
                    extents,
                    block,
                ) || start <= block < start + length);
            }
        }
    } else {
        lemma_with_bits(extents, bitmap, chunk_start, count, (bit + 1) as u64, Some(from));
    }
}

/// The number of free blocks that a chunk's bitmap, or its lack, shows.
pub open spec fn free_in_chunk(device: Device, sm: SpaceManagerView, info: ChunkInfo) -> int {
    if info.bitmap_addr <= 0 {
        if info.free_count != 0 {
            info.block_count as int
        } else {
            0
        }
    } else {
        match checkpoint::block_at(device, sm.block_size, info.bitmap_addr as u64) {
            Ok(bitmap) => clear_bits(bitmap, info.block_count as nat) as int,
            Err(_) => 0,
        }
    }
}

/// Whether block number `at` of a chunk is free.
pub open spec fn free_at(device: Device, sm: SpaceManagerView, info: ChunkInfo, at: int) -> bool {
    0 <= at < info.block_count && if info.bitmap_addr <= 0 {
        info.free_count != 0
    } else {
        match checkpoint::block_at(device, sm.block_size, info.bitmap_addr as u64) {
            Ok(bitmap) => !bytes::bit_set(bitmap, at),
            Err(_) => false,
        }
    }
}

/// Whether a block of the first `chunks` chunks is free.
pub open spec fn is_free(device: Device, sm: SpaceManagerView, chunks: int, block: int) -> bool {
    let chunk = block / sm.blocks_per_chunk as int;
    0 <= block && chunk < chunks && match chunk_info_of(device, sm, chunk as u64) {
        Ok(info) => free_at(device, sm, info, block % sm.blocks_per_chunk as int),
        Err(_) => false,
    }
}

/// Whether no chunk claims more blocks than a chunk has, nor blocks past the
/// range of block addresses.
pub open spec fn chunks_fit(device: Device, sm: SpaceManagerView, chunks: int) -> bool {
    forall|chunk: u64|
        chunk < chunks ==> match #[trigger] chunk_info_of(device, sm, chunk) {
            Ok(info) => info.block_count <= sm.blocks_per_chunk && chunk * sm.blocks_per_chunk
                + info.block_count <= u64::MAX,
            Err(_) => true,
        }
}

/// Whether the chunks cover the main device: each holds a full chunk of blocks,
/// but the last, which holds the blocks that are left.
pub open spec fn chunks_cover(device: Device, sm: SpaceManagerView) -> bool {
    let size = sm.blocks_per_chunk as int;
    let blocks = sm.main_device.block_count as int;
    &&& size > 0
    &&& sm.main_device.chunk_count == (blocks + size - 1) / size
    &&& forall|chunk: u64|
        chunk < sm.main_device.chunk_count ==> match #[trigger] chunk_info_of(device, sm, chunk) {
            Ok(info) => info.block_count == if blocks - chunk * size < size {
                blocks - chunk * size
            } else {
                size
            },
            Err(_) => true,
        }
}

/// The sum of the free-block counts of the first `chunks` chunks.
pub open spec fn counted_free(device: Device, sm: SpaceManagerView, chunks: nat) -> int
    decreases chunks,
{
    if chunks == 0 {
        0
    } else {
        counted_free(device, sm, (chunks - 1) as nat) + match chunk_info_of(
            device,
            sm,
            (chunks - 1) as u64,
        ) {
            Ok(info) => info.free_count as int,
            Err(_) => 0,
        }
    }
}

proof fn lemma_chunk_of(block: int, size: int, chunk: int)
    requires
        size > 0,
        chunk >= 0,
        chunk * size <= block < (chunk + 1) * size,
    ensures
        block / size == chunk,
        block % size == block - chunk * size,
{
    assert((chunk + 1) * size == chunk * size + size) by (nonlinear_arith);
    lemma_fundamental_div_mod_converse(block, size, chunk, block - chunk * size);
}

proof fn lemma_with_chunk(
    device: Device,
    sm: SpaceManagerView,
    extents: Seq<FreeExtent>,
    chunk: u64,
)
    requires
        sm.blocks_per_chunk > 0,
        separated(extents, chunk * sm.blocks_per_chunk),
        chunks_fit(device, sm, chunk + 1),
        with_chunk(device, sm, extents, chunk) is Ok,
    ensures
        ({
            let result = with_chunk(device, sm, extents, chunk)->Ok_0;
            let info = chunk_info_of(device, sm, chunk)->Ok_0;
            let start = chunk * sm.blocks_per_chunk;
            &&& chunk_info_of(device, sm, chunk) is Ok
            &&& separated(result, (chunk + 1) * sm.blocks_per_chunk)
            &&& total_length(result) == total_length(extents) + free_in_chunk(device, sm, info)
            &&& forall|block: int| #[trigger]
                in_extents(result, block) <==> in_extents(extents, block) || (start <= block
                    && free_at(device, sm, info, block - start))
        }),
{
    let size = sm.blocks_per_chunk as int;
    assert((chunk + 1) * size == chunk * size + size) by (nonlinear_arith);
    assert(0 <= chunk * size) by (nonlinear_arith)
        requires
            size > 0,
    ;
    let start = chunk_start_of(sm, chunk);
    let info = chunk_info_of(device, sm, chunk)->Ok_0;
    if info.bitmap_addr <= 0 {
        if info.free_count != 0 {
            lemma_with_run(extents, start, info.block_count as u64);
        }
    } else {
        let bitmap = checkpoint::block_at(device, sm.block_size, info.bitmap_addr as u64)->Ok_0;
        lemma_with_bits(extents, bitmap, start, info.block_count as u64, 0, None);
    }
}

proof fn lemma_free_extents(device: Device, sm: SpaceManagerView, chunks: nat)
    requires
        sm.blocks_per_chunk > 0,
        chunks <= u64::MAX,
        chunks_fit(device, sm, chunks as int),
        free_extents_of(device, sm, chunks) is Ok,
    ensures
        ({
            let extents = free_extents_of(device, sm, chunks)->Ok_0;
            &&& separated(extents, chunks * sm.blocks_per_chunk)
            &&& forall|block: int| #[trigger]
                in_extents(extents, block) <==> is_free(device, sm, chunks as int, block)
        }),
    decreases chunks,
{
    let extents = free_extents_of(device, sm, chunks)->Ok_0;
    let size = sm.blocks_per_chunk as int;
    if chunks == 0 {
        assert forall|block: int| #[trigger] in_extents(extents, block) <==> is_free(
            device,
            sm,
            0,
            block,
        ) by {
            if 0 <= block {
                lemma_div_pos_is_pos(block, size);
            }
        }
    } else {
        let chunk = (chunks - 1) as u64;
        assert(chunks * size == chunk * size + size) by (nonlinear_arith)
            requires
                chunks == chunk + 1,
        ;
        lemma_free_extents(device, sm, chunk as nat);
        let before = free_extents_of(device, sm, chunk as nat)->Ok_0;
        lemma_with_chunk(device, sm, before, chunk);
        let info = chunk_info_of(device, sm, chunk)->Ok_0;
        let start = chunk * size;
        assert forall|block: int| #[trigger] in_extents(extents, block) <==> is_free(
            device,
            sm,
            chunks as int,
            block,
        ) by {
            assert(in_extents(extents, block) <==> in_extents(before, block) || (start <= block
                && free_at(device, sm, info, block - start)));
            assert(in_extents(before, block) <==> is_free(device, sm, chunk as int, block));
            if start <= block < start + size {
                lemma_chunk_of(block, size, chunk as int);
            } else if 0 <= block < start {
                lemma_div_is_ordered(block, start - 1, size);
                lemma_chunk_of_last(chunk as int, size);
            } else if start + size <= block {
                lemma_div_is_ordered(start + size, block, size);
                lemma_div_multiples_vanish(chunks as int, size);
                assert(start + size == size * chunks) by (nonlinear_arith)
                    requires
                        start + size == chunks * size,
                ;
            }
        }
    }
}

proof fn lemma_chunk_of_last(chunk: int, size: int)
    requires
        size > 0,
        chunk > 0 || chunk * size > 0,
        chunk >= 0,
    ensures
        (chunk * size - 1) / size < chunk,
{
    assert(chunk > 0) by (nonlinear_arith)
        requires
            chunk > 0 || chunk * size > 0,
            chunk >= 0,
    ;
    assert((chunk - 1) * size <= chunk * size - 1 < (chunk - 1 + 1) * size) by (nonlinear_arith)
        requires
            size > 0,
    ;
    lemma_chunk_of(chunk * size - 1, size, chunk - 1);
}

/// The free extents of the main device are in order, do not overlap or touch,
/// and hold exactly the free blocks.
pub proof fn law_free_extents_are_the_free_blocks(
    device: Device,
    sm: SpaceManagerView,
    extents: Seq<FreeExtent>,
)
    requires
        sm.blocks_per_chunk > 0,
        chunks_fit(device, sm, sm.main_device.chunk_count as int),
        free_extents_of(device, sm, sm.main_device.chunk_count as nat) == Ok::<
            Seq<FreeExtent>,
            ApfsError,
        >(extents),
    ensures
        separated(extents, sm.main_device.chunk_count * sm.blocks_per_chunk),
        forall|block: int| #[trigger]
            in_extents(extents, block) <==> is_free(
                device,
                sm,
                sm.main_device.chunk_count as int,
                block,
            ),
{
    lemma_free_extents(device, sm, sm.main_device.chunk_count as nat);
}

proof fn lemma_free_total(device: Device, sm: SpaceManagerView, chunks: nat)
    requires
        sm.blocks_per_chunk > 0,
        chunks <= u64::MAX,
        chunks_fit(device, sm, chunks as int),
        free_extents_of(device, sm, chunks) is Ok,
        forall|chunk: u64|
            chunk < chunks ==> match #[trigger] chunk_info_of(device, sm, chunk) {
                Ok(info) => info.free_count == free_in_chunk(device, sm, info),
                Err(_) => true,
            },
    ensures
        total_length(free_extents_of(device, sm, chunks)->Ok_0) == counted_free(
            device,
            sm,
            chunks,
        ),
    decreases chunks,
{
    if chunks > 0 {
        let chunk = (chunks - 1) as u64;
        let size = sm.blocks_per_chunk as int;
        assert(chunks * size == chunk * size + size) by (nonlinear_arith)
            requires
                chunks == chunk + 1,
        ;
        lemma_free_total(device, sm, chunk as nat);
        lemma_free_extents(device, sm, chunk as nat);
        lemma_with_chunk(device, sm, free_extents_of(device, sm, chunk as nat)->Ok_0, chunk);
    }
}

/// Where each chunk records the number of its free blocks, and the device the
/// sum of these numbers, the lengths of the free extents sum to the device's
/// free-block count.
pub proof fn law_free_extents_sum_to_the_free_count(
    device: Device,
    sm: SpaceManagerView,
    extents: Seq<FreeExtent>,
)
    requires
        sm.blocks_per_chunk > 0,
        chunks_fit(device, sm, sm.main_device.chunk_count as int),
        forall|chunk: u64|
            chunk < sm.main_device.chunk_count ==> match #[trigger] chunk_info_of(
                device,
                sm,
                chunk,
            ) {
                Ok(info) => info.free_count == free_in_chunk(device, sm, info),
                Err(_) => true,
            },
        sm.main_device.free_count == counted_free(
            device,
            sm,
            sm.main_device.chunk_count as nat,
        ),
        free_extents_of(device, sm, sm.main_device.chunk_count as nat) == Ok::<
            Seq<FreeExtent>,
            ApfsError,
        >(extents),
    ensures
        total_length(extents) == sm.main_device.free_count,
{
    lemma_free_total(device, sm, sm.main_device.chunk_count as nat);
}

/// What the walk over the chunks read of each.
proof fn lemma_chunks_were_read(device: Device, sm: SpaceManagerView, chunks: nat, chunk: u64)
    requires
        chunk < chunks <= u64::MAX,
        free_extents_of(device, sm, chunks) is Ok,
    ensures
        chunk_info_of(device, sm, chunk) matches Ok(info) && (info.bitmap_addr > 0 ==> (
        checkpoint::block_at(device, sm.block_size, info.bitmap_addr as u64) matches Ok(bitmap)
            && bitmap.len() * 8 >= info.block_count)),
    decreases chunks,
{
    if chunk + 1 < chunks {
        lemma_chunks_were_read(device, sm, (chunks - 1) as nat, chunk);
    }
}

/// Where a chunk of a device that the chunks cover lies.
proof fn lemma_cover(blocks: int, size: int, chunks: int, chunk: int)
    requires
        size > 0,
        blocks >= 0,
        chunks == (blocks + size - 1) / size,
    ensures
        0 <= chunk < chunks <==> chunk >= 0 && chunk * size < blocks,
{
    let left = (blocks + size - 1) % size;
    lemma_fundamental_div_mod(blocks + size - 1, size);
    if chunk >= 0 && chunk < chunks {
        assert(chunk * size < blocks) by (nonlinear_arith)
            requires
                chunk + 1 <= chunks,
                size > 0,
                blocks + size - 1 == size * chunks + left,
                0 <= left < size,
        ;
    }
    if chunk >= chunks {
        assert(chunk * size >= blocks) by (nonlinear_arith)
            requires
                chunk >= chunks,
                size > 0,
                blocks + size - 1 == size * chunks + left,
                0 <= left < size,
        ;
    }
}

/// Of a main device that its chunks cover, the free extents are in order, do not
/// overlap or touch, lie inside the device, and hold exactly the blocks that are
/// not allocated.
pub proof fn law_free_extents_are_the_unallocated_blocks(
    device: Device,
    sm: SpaceManagerView,
    extents: Seq<FreeExtent>,
)
    requires
        chunks_cover(device, sm),
        free_extents_of(device, sm, sm.main_device.chunk_count as nat) == Ok::<
            Seq<FreeExtent>,
            ApfsError,
        >(extents),
    ensures
        separated(extents, sm.main_device.block_count as int),
        forall|block: u64|
            block < sm.main_device.block_count ==> {
                &&& #[trigger] allocated_at(device, sm, block) is Ok
                &&& in_extents(extents, block as int) <==> allocated_at(device, sm, block) == Ok::<
                    bool,
                    ApfsError,
                >(false)
            },
{
    let size = sm.blocks_per_chunk as int;
    let blocks = sm.main_device.block_count as int;
    let chunks = sm.main_device.chunk_count;
    assert forall|chunk: u64| chunk < chunks implies match #[trigger] chunk_info_of(
        device,
        sm,
        chunk,
    ) {
        Ok(info) => info.block_count <= sm.blocks_per_chunk && chunk * sm.blocks_per_chunk
            + info.block_count <= u64::MAX,
        Err(_) => true,
    } by {
        lemma_cover(blocks, size, chunks as int, chunk as int);
    }
    law_free_extents_are_the_free_blocks(device, sm, extents);
    assert forall|block: u64| block < blocks implies {
        &&& #[trigger] allocated_at(device, sm, block) is Ok
        &&& in_extents(extents, block as int) <==> allocated_at(device, sm, block) == Ok::<
            bool,
            ApfsError,
        >(false)
    } by {
        let chunk = block / sm.blocks_per_chunk as u64;
        lemma_fundamental_div_mod(block as int, size);
        lemma_div_pos_is_pos(block as int, size);
        assert(chunk * size == size * chunk) by (nonlinear_arith);
        lemma_cover(blocks, size, chunks as int, chunk as int);
        lemma_chunks_were_read(device, sm, chunks as nat, chunk);
        assert(in_extents(extents, block as int) <==> is_free(
            device,
            sm,
            chunks as int,
            block as int,
        ));
    }
    assert forall|i: int| 0 <= i < extents.len() implies (#[trigger] extents[i]).length > 0
        && extents[i].start + extents[i].length <= blocks by {
        let block = extents[i].start + extents[i].length - 1;
        assert(in_extents(extents, block));
        assert(is_free(device, sm, chunks as int, block));
        let chunk = block / size;
        lemma_fundamental_div_mod(block, size);
        lemma_div_pos_is_pos(block, size);
        assert(chunk * size == size * chunk) by (nonlinear_arith);
        lemma_cover(blocks, size, chunks as int, chunk);
        assert(chunk_info_of(device, sm, chunk as u64) is Ok);
    }
}

/// Whether the first `chunks` chunks can be read, with bitmaps that cover them.
pub open spec fn chunks_readable(device: Device, sm: SpaceManagerView, chunks: int) -> bool {
    forall|chunk: u64|
        chunk < chunks ==> (#[trigger] chunk_info_of(device, sm, chunk) matches Ok(info) && (
        info.bitmap_addr > 0 ==> info.block_count <= 8 * sm.block_size && checkpoint::block_at(
            device,
            sm.block_size,
            info.bitmap_addr as u64,
        ) is Ok))
}

proof fn lemma_readable(device: Device, sm: SpaceManagerView, chunks: nat)
    requires
        chunks <= u64::MAX,
        chunks_readable(device, sm, chunks as int),
    ensures
        free_extents_of(device, sm, chunks) is Ok,
    decreases chunks,
{
    if chunks > 0 {
        let chunk = (chunks - 1) as u64;
        lemma_readable(device, sm, chunk as nat);
        let info = chunk_info_of(device, sm, chunk)->Ok_0;
        assert(chunk_info_of(device, sm, chunk) is Ok);
        if info.bitmap_addr > 0 {
            let addr = info.bitmap_addr as u64;
            io::lemma_exact_len(device, (addr * sm.block_size) as nat, sm.block_size as nat);
        }
    }
}

/// The free extents of a main device whose chunks can be read are listed.
pub proof fn law_free_extents_of_readable_chunks(device: Device, sm: SpaceManagerView)
    requires
        chunks_readable(device, sm, sm.main_device.chunk_count as int),
    ensures
        free_extents_of(device, sm, sm.main_device.chunk_count as nat) is Ok,
{
    lemma_readable(device, sm, sm.main_device.chunk_count as nat);
}

/// A block that its chunk records is free exactly when it is not allocated.
pub proof fn law_free_is_not_allocated(device: Device, sm: SpaceManagerView, block: u64)
    requires
        sm.blocks_per_chunk > 0,
        (block / sm.blocks_per_chunk as u64) < sm.main_device.chunk_count,
        allocated_at(device, sm, block) is Ok,
        (block % sm.blocks_per_chunk as u64) < chunk_info_of(
            device,
            sm,
            block / sm.blocks_per_chunk as u64,
        )->Ok_0.block_count,
    ensures
        is_free(device, sm, sm.main_device.chunk_count as int, block as int) <==> allocated_at(
            device,
            sm,
            block,
        ) == Ok::<bool, ApfsError>(false),
{
}

/// Appends a free run, coalescing it with the previous extent when the two are
/// contiguous.
fn push_free(extents: &mut Vec<FreeExtent>, start: u64, length: u64)
    ensures
        final(extents)@ == with_run(old(extents)@, start, length),
{
    if length == 0 {
        return;
    }
    let count: usize = extents.len();
    if count > 0 {
        let last: FreeExtent = extents[count - 1];
        if last.start.saturating_add(last.length) == start {
            extents.pop();
            extents.push(
                FreeExtent { start: last.start, length: last.length.saturating_add(length) },
            );
            return;
        }
    }
    extents.push(FreeExtent { start, length });
}

/// Appends the free runs of a chunk's bitmap.
fn push_bits(extents: &mut Vec<FreeExtent>, bitmap: &[u8], chunk_start: u64, count: u64)
    requires
        count <= bitmap@.len() * 8,
    ensures
        final(extents)@ == with_bits(old(extents)@, bitmap@, chunk_start, count, 0, None),
{
    let mut run: Option<u64> = None;
    let mut bit: u64 = 0;
    while bit < count
        invariant
            bit <= count <= bitmap@.len() * 8,
            run matches Some(start) ==> start <= bit,
            with_bits(old(extents)@, bitmap@, chunk_start, count, 0, None) == with_bits(
                extents@,
                bitmap@,
                chunk_start,
                count,
                bit,
                run,
            ),
        decreases count - bit,
    {
        if bytes::test_bit(bitmap, bit) {
            if let Some(start) = run {
                push_free(extents, chunk_start.saturating_add(start), bit - start);
            }
            run = None;
        } else if run.is_none() {
            run = Some(bit);
        }
        bit += 1;
    }
    if let Some(start) = run {
        push_free(extents, chunk_start.saturating_add(start), count - start);
    }
}

/// Reads the `u64` at `base + 8 * index` of `block`, if it lies inside.
fn read_indexed(block: &[u8], base: usize, index: u64) -> (found: Option<u64>)
    requires
        base <= u32::MAX,
    ensures
        found == if base + index * 8 + 8 > block@.len() {
            None
        } else {
            Some(bytes::le_u64(block@, base + index * 8))
        },
{
    if block.len() < 8 || base > block.len() - 8 {
        return None;
    }
    if index > ((block.len() - base - 8) / 8) as u64 {
        return None;
    }
    Some(bytes::read_u64(block, base + index as usize * 8))
}

/// Reads the address of chunk-info block number `index` in a chunk-info
/// address block.
fn read_address_in_cab(cab: &[u8], index: u64) -> (addr: Result<u64, ApfsError>)
    ensures
        addr == address_in_cab(cab@, index),
{
    if cab.len() < CAB_CIB_COUNT_OFFSET + 4 {
        return Err(
            ApfsError::Malformed {
                structure: "cib_addr_block",
                reason: "truncated address block",
            },
        );
    }
    if index >= bytes::read_u32(cab, CAB_CIB_COUNT_OFFSET) as u64 {
        return Err(
            ApfsError::Malformed {
                structure: "cib_addr_block",
                reason: "chunk-info-block index past the address block",
            },
        );
    }
    match read_indexed(cab, CAB_CIB_ADDR_OFFSET, index) {
        Some(addr) => Ok(addr),
        None => Err(
            ApfsError::Malformed {
                structure: "cib_addr_block",
                reason: "chunk-info-block address out of range",
            },
        ),
    }
}

/// Reads the entry `index` of a chunk-info block.
fn read_chunk_in_cib(cib: &[u8], index: u64) -> (info: Result<ChunkInfo, ApfsError>)
    requires
        index <= u32::MAX,
    ensures
        info == chunk_in_cib(cib@, index),
{
    let at: u64 = CIB_CHUNK_INFO_OFFSET as u64 + index * CHUNK_INFO_SIZE as u64;
    if at + CHUNK_INFO_SIZE as u64 > cib.len() as u64 {
        return Err(
            ApfsError::Malformed {
                structure: "chunk_info_block",
                reason: "chunk-info entry out of range",
            },
        );
    }
    let at: usize = at as usize;
    Ok(
        ChunkInfo {
            xid: bytes::read_u64(cib, at),
            addr: bytes::read_u64(cib, at + 8),
            block_count: bytes::read_u32(cib, at + 16),
            free_count: bytes::read_u32(cib, at + 20),
            bitmap_addr: bytes::read_i64(cib, at + 24),
        },
    )
}

impl SpaceManager {
    /// Parses a space manager from its (ephemeral) block.
    pub fn parse(block: Vec<u8>) -> (parsed: Result<SpaceManager, ApfsError>)
        ensures
            error::viewed(parsed) == space_manager_of(block@),
    {
        if block.len() < SPACEMAN_MIN_SIZE {
            return Err(
                ApfsError::Truncated {
                    structure: "spaceman_phys_t",
                    expected: SPACEMAN_MIN_SIZE,
                    actual: block.len(),
                },
            );
        }
        let block_size: u32 = bytes::read_u32(&block, 0x20);
        let blocks_per_chunk: u32 = bytes::read_u32(&block, 0x24);
        let chunks_per_cib: u32 = bytes::read_u32(&block, 0x28);
        let cibs_per_cab: u32 = bytes::read_u32(&block, 0x2C);
        let main_device: SpacemanDevice = match parse_device(&block, SM_DEV_OFFSET) {
            Ok(device) => device,
            Err(error) => return Err(error),
        };
        let tier2_device: SpacemanDevice = match parse_device(
            &block,
            SM_DEV_OFFSET + SPACEMAN_DEVICE_SIZE,
        ) {
            Ok(device) => device,
            Err(error) => return Err(error),
        };
        Ok(
            SpaceManager {
                block,
                block_size,
                blocks_per_chunk,
                chunks_per_cib,
                cibs_per_cab,
                main_device,
                tier2_device,
            },
        )
    }

    /// Total number of blocks tracked across both devices.
    #[must_use]
    pub fn total_blocks(&self) -> (total: u64)
        requires
            self.main_device.block_count + self.tier2_device.block_count <= u64::MAX,
        ensures
            total == self.main_device.block_count + self.tier2_device.block_count,
    {
        self.main_device.block_count + self.tier2_device.block_count
    }

    /// Number of free blocks across both devices.
    #[must_use]
    pub fn free_blocks(&self) -> (free: u64)
        requires
            self.main_device.free_count + self.tier2_device.free_count <= u64::MAX,
        ensures
            free == self.main_device.free_count + self.tier2_device.free_count,
    {
        self.main_device.free_count + self.tier2_device.free_count
    }

    /// Reads the `index`-th eight-byte address from the main device's address
    /// array in the space-manager block.
    pub fn device_address(&self, index: u64) -> (addr: Result<u64, ApfsError>)
        ensures
            addr == address_entry(self@, index),
    {
        match read_indexed(
            self.block.as_slice(),
            self.main_device.addr_offset as usize,
            index,
        ) {
            Some(addr) => Ok(addr),
            None => Err(
                ApfsError::Malformed {
                    structure: "spaceman_phys_t",
                    reason: "device address array out of range",
                },
            ),
        }
    }

    /// Resolves the chunk-info-block address for `chunk_index` on the main
    /// device.
    ///
    /// A single-level device indexes the chunk-info blocks directly; a
    /// two-level device goes through a chunk-info address block.
    fn cib_address<T: Reader>(&self, reader: &mut T, chunk_index: u64) -> (addr: Result<
        u64,
        ApfsError,
    >)
        ensures
            final(reader).device() == old(reader).device(),
            addr == cib_address_of(old(reader).device(), self@, chunk_index),
    {
        if self.chunks_per_cib == 0 {
            return Err(
                ApfsError::Malformed {
                    structure: "spaceman_phys_t",
                    reason: "chunks-per-cib is zero",
                },
            );
        }
        let cib_index: u64 = chunk_index / self.chunks_per_cib as u64;
        if cib_index >= self.main_device.cib_count as u64 {
            return Err(
                ApfsError::Malformed {
                    structure: "spaceman_device_t",
                    reason: "chunk index past the device's chunk-info blocks",
                },
            );
        }
        if self.main_device.cab_count == 0 {
            return self.device_address(cib_index);
        }
        if self.cibs_per_cab == 0 {
            return Err(
                ApfsError::Malformed {
                    structure: "spaceman_phys_t",
                    reason: "cibs-per-cab is zero with a two-level layout",
                },
            );
        }
        let cab_index: u64 = cib_index / self.cibs_per_cab as u64;
        if cab_index >= self.main_device.cab_count as u64 {
            return Err(
                ApfsError::Malformed {
                    structure: "spaceman_device_t",
                    reason: "chunk index past the device's address blocks",
                },
            );
        }
        let cab_addr: u64 = match self.device_address(cab_index) {
            Ok(addr) => addr,
            Err(error) => return Err(error),
        };
        match checkpoint::read_block(reader, self.block_size, cab_addr) {
            Ok(cab) => read_address_in_cab(cab.as_slice(), cib_index % self.cibs_per_cab as u64),
            Err(error) => Err(error),
        }
    }

    /// Reads the state of a chunk on the main device.
    fn chunk_info<T: Reader>(&self, reader: &mut T, chunk_index: u64) -> (info: Result<
        ChunkInfo,
        ApfsError,
    >)
        ensures
            final(reader).device() == old(reader).device(),
            info == chunk_info_of(old(reader).device(), self@, chunk_index),
    {
        let cib_addr: u64 = match self.cib_address(reader, chunk_index) {
            Ok(addr) => addr,
            Err(error) => return Err(error),
        };
        match checkpoint::read_block(reader, self.block_size, cib_addr) {
            Ok(cib) => read_chunk_in_cib(cib.as_slice(), chunk_index % self.chunks_per_cib as u64),
            Err(error) => Err(error),
        }
    }

    /// Returns whether the block at `block_addr` on the **main device** is
    /// allocated.
    ///
    /// Tier-2 (Fusion hard-drive) allocation is not queried here; a
    /// `block_addr` past the main device is rejected.
    pub fn is_allocated<T: Reader>(&self, reader: &mut T, block_addr: u64) -> (allocated: Result<
        bool,
        ApfsError,
    >)
        ensures
            final(reader).device() == old(reader).device(),
            allocated == allocated_at(old(reader).device(), self@, block_addr),
    {
        if block_addr >= self.main_device.block_count {
            return Err(
                ApfsError::Malformed {
                    structure: "spaceman",
                    reason: "block address past the main device",
                },
            );
        }
        if self.blocks_per_chunk == 0 {
            return Err(
                ApfsError::Malformed {
                    structure: "spaceman_phys_t",
                    reason: "blocks-per-chunk is zero",
                },
            );
        }
        let info: ChunkInfo = match self.chunk_info(
            reader,
            block_addr / self.blocks_per_chunk as u64,
        ) {
            Ok(info) => info,
            Err(error) => return Err(error),
        };
        // A chunk with no bitmap is uniformly allocated or uniformly free.
        if info.bitmap_addr <= 0 {
            return Ok(info.free_count == 0 && info.block_count != 0);
        }
        let bitmap: Vec<u8> = match checkpoint::read_block(
            reader,
            self.block_size,
            info.bitmap_addr as u64,
        ) {
            Ok(bitmap) => bitmap,
            Err(error) => return Err(error),
        };
        let bit: u64 = block_addr % self.blocks_per_chunk as u64;
        if bit / 8 >= bitmap.len() as u64 {
            return Err(
                ApfsError::Malformed {
                    structure: "spaceman bitmap",
                    reason: "bit index past the bitmap block",
                },
            );
        }
        Ok(bytes::test_bit(bitmap.as_slice(), bit))
    }

    /// Appends the free runs of a chunk.
    fn push_chunk<T: Reader>(
        &self,
        reader: &mut T,
        extents: &mut Vec<FreeExtent>,
        chunk_index: u64,
    ) -> (done: Result<(), ApfsError>)
        ensures
            final(reader).device() == old(reader).device(),
            match done {
                Ok(()) => with_chunk(old(reader).device(), self@, old(extents)@, chunk_index)
                    == Ok::<Seq<FreeExtent>, ApfsError>(final(extents)@),
                Err(error) => with_chunk(old(reader).device(), self@, old(extents)@, chunk_index)
                    == Err::<Seq<FreeExtent>, ApfsError>(error),
            },
    {
        let chunk_start: u64 = match chunk_index.checked_mul(self.blocks_per_chunk as u64) {
            Some(start) => start,
            None => u64::MAX,
        };
        let info: ChunkInfo = match self.chunk_info(reader, chunk_index) {
            Ok(info) => info,
            Err(error) => return Err(error),
        };
        if info.bitmap_addr <= 0 {
            // Uniform chunk: every block free, or every block allocated.
            if info.free_count != 0 {
                push_free(extents, chunk_start, info.block_count as u64);
            }
            return Ok(());
        }
        let bitmap: Vec<u8> = match checkpoint::read_block(
            reader,
            self.block_size,
            info.bitmap_addr as u64,
        ) {
            Ok(bitmap) => bitmap,
            Err(error) => return Err(error),
        };
        // The bitmap block must cover every block of the chunk.
        if (bitmap.len() as u128) * 8 < info.block_count as u128 {
            return Err(
                ApfsError::Malformed {
                    structure: "spaceman bitmap",
                    reason: "bitmap is shorter than the chunk it covers",
                },
            );
        }
        push_bits(extents, bitmap.as_slice(), chunk_start, info.block_count as u64);
        Ok(())
    }

    /// Lists every free (unallocated) extent on the main device.
    ///
    /// The chunks are scanned in order, and contiguous free blocks, across
    /// chunk boundaries too, are coalesced into a single [`FreeExtent`]. This
    /// lets a recovery scan iterate only the unallocated ranges instead of
    /// probing every block.
    pub fn free_extents<T: Reader>(&self, reader: &mut T) -> (listed: Result<
        Vec<FreeExtent>,
        ApfsError,
    >)
        ensures
            final(reader).device() == old(reader).device(),
            error::viewed(listed) == if self.blocks_per_chunk == 0 {
                error::malformed("spaceman_phys_t", "blocks-per-chunk is zero")
            } else {
                free_extents_of(
                    old(reader).device(),
                    self@,
                    self.main_device.chunk_count as nat,
                )
            },
    {
        if self.blocks_per_chunk == 0 {
            return Err(
                ApfsError::Malformed {
                    structure: "spaceman_phys_t",
                    reason: "blocks-per-chunk is zero",
                },
            );
        }
        let ghost device = reader.device();
        let chunks: u64 = self.main_device.chunk_count;
        let mut extents: Vec<FreeExtent> = Vec::new();
        let mut chunk: u64 = 0;
        while chunk < chunks
            invariant
                chunk <= chunks,
                chunks == self.main_device.chunk_count,
                self.blocks_per_chunk != 0,
                device == old(reader).device(),
                reader.device() == device,
                free_extents_of(device, self@, chunk as nat) == Ok::<Seq<FreeExtent>, ApfsError>(
                    extents@,
                ),
            decreases chunks - chunk,
        {
            match self.push_chunk(reader, &mut extents, chunk) {
                Ok(()) => {},
                Err(error) => {
                    proof {
                        lemma_free_extents_error(
                            device,
                            self@,
                            (chunk + 1) as nat,
                            chunks as nat,
                            error,
                        );
                    }
                    return Err(error);
                },
            }
            chunk += 1;
        }
        Ok(extents)
    }
}

proof fn lemma_place(at: int, size: int, index: int, left: int)
    requires
        size > 0,
        0 <= left < size,
        at == index * size + left,
    ensures
        at / size == index,
        at % size == left,
{
    lemma_fundamental_div_mod_converse(at, size, index, left);
}

/// Whether a block is allocated is told by one bit. Block `bit` of a chunk has bit `bit` of
/// the chunk's bitmap; chunk `slot` of an info block has that place among the info block's
/// chunks; and the address of info block `cib` is the word of that index from the device's
/// address offset on, or, where the device has address blocks, word `inner` of address block
/// `cab`, whose own address is there. A chunk without a bitmap is free, or is allocated where
/// it has blocks and none of them is free.
pub proof fn law_allocated_block_has_its_bit(
    device: Device,
    sm: SpaceManagerView,
    addr: u64,
    chunk: u64,
    bit: u64,
    cib: u64,
    slot: u64,
    cab: u64,
    inner: u64,
)
    requires
        addr == chunk * sm.blocks_per_chunk + bit,
        bit < sm.blocks_per_chunk,
        chunk == cib * sm.chunks_per_cib + slot,
        slot < sm.chunks_per_cib,
        sm.main_device.cab_count > 0 ==> cib == cab * sm.cibs_per_cab + inner && inner
            < sm.cibs_per_cab,
        allocated_at(device, sm, addr) is Ok,
    ensures
        addr < sm.main_device.block_count,
        ({
            let table = |index: int| bytes::le_u64(sm.block, sm.main_device.addr_offset + 8 * index);
            let cab_block = checkpoint::block_at(device, sm.block_size, table(cab as int));
            let cib_addr = if sm.main_device.cab_count == 0 {
                table(cib as int)
            } else {
                bytes::le_u64(cab_block->Ok_0, 40 + 8 * inner)
            };
            let cib_block = checkpoint::block_at(device, sm.block_size, cib_addr);
            let info = chunk_in_cib(cib_block->Ok_0, slot);
            &&& sm.main_device.cab_count > 0 ==> cab_block is Ok
            &&& cib_block is Ok
            &&& info is Ok
            &&& if info->Ok_0.bitmap_addr > 0 {
                checkpoint::block_at(
                    device,
                    sm.block_size,
                    info->Ok_0.bitmap_addr as u64,
                ) matches Ok(bitmap) && allocated_at(device, sm, addr)->Ok_0 == bytes::bit_set(
                    bitmap,
                    bit as int,
                )
            } else {
                allocated_at(device, sm, addr)->Ok_0 <==> info->Ok_0.free_count == 0
                    && info->Ok_0.block_count > 0
            }
        }),
{
    lemma_place(addr as int, sm.blocks_per_chunk as int, chunk as int, bit as int);
    lemma_place(chunk as int, sm.chunks_per_cib as int, cib as int, slot as int);
    if sm.main_device.cab_count > 0 {
        lemma_place(cib as int, sm.cibs_per_cab as int, cab as int, inner as int);
    }
}

} // verus!
