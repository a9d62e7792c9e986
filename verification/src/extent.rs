//! Data streams and file extents: reading file content.
//!
//! A file's content is a *data stream*: a [`DataStream`] recording its logical
//! size, plus `FILE_EXTENT` records mapping logical offsets to physical block
//! extents.

use vstd::prelude::*;

use crate::bytes;
use crate::catalog;
use crate::catalog::{
    Catalog, JKey, JObjType, RecordView, Selection, Stream, Visitor, J_KEY_SIZE,
};
use crate::error;
use crate::error::ApfsError;
use crate::io;
use crate::io::{Device, Reader};
use crate::sort;
use crate::sort::Ranked;

verus! {

/// Mask selecting the byte length of a file extent.
pub const J_FILE_EXTENT_LEN_MASK: u64 = 0x00FF_FFFF_FFFF_FFFF;

/// One more than the largest length of a file extent; flags are stored above
/// it.
pub const J_FILE_EXTENT_LEN_LIMIT: u64 = 0x0100_0000_0000_0000;

/// Size of a `j_dstream_t`.
pub const J_DSTREAM_SIZE: usize = 40;

/// Size of a `j_file_extent_key_t` (`j_key_t` + `logical_addr`).
pub const J_FILE_EXTENT_KEY_SIZE: usize = J_KEY_SIZE + 8;

/// Size of a `j_file_extent_val_t`.
pub const J_FILE_EXTENT_VAL_SIZE: usize = 24;

/// A parsed data stream (`j_dstream_t`).
#[derive(Debug, Clone, Copy, PartialEq, Eq, Structural)]
pub struct DataStream {
    /// Logical size of the data, in bytes.
    pub size: u64,
    /// Total space allocated for the data stream, in bytes.
    pub alloced_size: u64,
    /// Default encryption key or tweak identifier for the stream's extents.
    pub default_crypto_id: u64,
    /// Total bytes ever written to the stream.
    pub total_bytes_written: u64,
    /// Total bytes ever read from the stream.
    pub total_bytes_read: u64,
}

/// The data stream stored at the start of `bytes`.
pub open spec fn data_stream_of(bytes: Seq<u8>) -> Result<DataStream, ApfsError> {
    if bytes.len() < J_DSTREAM_SIZE {
        error::truncated("j_dstream_t", J_DSTREAM_SIZE as int, bytes.len())
    } else {
        Ok(
            DataStream {
                size: bytes::le_u64(bytes, 0),
                alloced_size: bytes::le_u64(bytes, 8),
                default_crypto_id: bytes::le_u64(bytes, 16),
                total_bytes_written: bytes::le_u64(bytes, 24),
                total_bytes_read: bytes::le_u64(bytes, 32),
            },
        )
    }
}

impl DataStream {
    /// Parses a `j_dstream_t`, typically the data-stream extended field of an
    /// inode.
    pub fn parse(bytes: &[u8]) -> (parsed: Result<DataStream, ApfsError>)
        ensures
            parsed == data_stream_of(bytes@),
    {
        if bytes.len() < J_DSTREAM_SIZE {
            return Err(
                ApfsError::Truncated {
                    structure: "j_dstream_t",
                    expected: J_DSTREAM_SIZE,
                    actual: bytes.len(),
                },
            );
        }
        Ok(
            DataStream {
                size: bytes::read_u64(bytes, 0),
                alloced_size: bytes::read_u64(bytes, 8),
                default_crypto_id: bytes::read_u64(bytes, 16),
                total_bytes_written: bytes::read_u64(bytes, 24),
                total_bytes_read: bytes::read_u64(bytes, 32),
            },
        )
    }
}

/// One file extent: a contiguous run of a file's content.
#[derive(Debug, Clone, Copy, PartialEq, Eq, Structural)]
pub struct FileExtent {
    /// Offset of this extent within the file's logical data, in bytes.
    pub logical_addr: u64,
    /// Length of the extent, in bytes (a multiple of the block size).
    pub length: u64,
    /// Physical block address the extent's data starts at.
    pub phys_block_num: u64,
    /// Encryption key or tweak identifier for this extent.
    pub crypto_id: u64,
}

impl FileExtent {
    /// Whether `offset` falls inside this extent; an extent that runs past the
    /// largest offset ends there.
    pub open spec fn covers(self, offset: int) -> bool {
        self.logical_addr <= offset && offset < self.logical_addr + self.length && offset
            < u64::MAX
    }

    /// Whether `offset` (a file-logical byte offset) falls inside this extent.
    #[must_use]
    pub fn contains(&self, offset: u64) -> (inside: bool)
        ensures
            inside == self.covers(offset as int),
    {
        offset >= self.logical_addr && offset < self.logical_addr.saturating_add(self.length)
    }
}

impl Ranked for FileExtent {
    open spec fn spec_rank(&self) -> nat {
        self.logical_addr as nat
    }

    fn rank(&self) -> (rank: u128) {
        self.logical_addr as u128
    }
}

/// The extent in a `FILE_EXTENT` record.
pub open spec fn file_extent_of(key: Seq<u8>, value: Seq<u8>) -> Result<FileExtent, ApfsError> {
    if key.len() < J_FILE_EXTENT_KEY_SIZE {
        error::truncated("j_file_extent_key_t", J_FILE_EXTENT_KEY_SIZE as int, key.len())
    } else if value.len() < J_FILE_EXTENT_VAL_SIZE {
        error::truncated("j_file_extent_val_t", J_FILE_EXTENT_VAL_SIZE as int, value.len())
    } else {
        Ok(
            FileExtent {
                logical_addr: bytes::le_u64(key, J_KEY_SIZE as int),
                length: bytes::le_u64(value, 0) % J_FILE_EXTENT_LEN_LIMIT,
                phys_block_num: bytes::le_u64(value, 8),
                crypto_id: bytes::le_u64(value, 16),
            },
        )
    }
}

/// Parses a `FILE_EXTENT` record into a [`FileExtent`].
pub fn parse_file_extent(key: &[u8], value: &[u8]) -> (parsed: Result<FileExtent, ApfsError>)
    ensures
        parsed == file_extent_of(key@, value@),
{
    if key.len() < J_FILE_EXTENT_KEY_SIZE {
        return Err(
            ApfsError::Truncated {
                structure: "j_file_extent_key_t",
                expected: J_FILE_EXTENT_KEY_SIZE,
                actual: key.len(),
            },
        );
    }
    if value.len() < J_FILE_EXTENT_VAL_SIZE {
        return Err(
            ApfsError::Truncated {
                structure: "j_file_extent_val_t",
                expected: J_FILE_EXTENT_VAL_SIZE,
                actual: value.len(),
            },
        );
    }
    Ok(
        FileExtent {
            logical_addr: bytes::read_u64(key, J_KEY_SIZE),
            length: bytes::read_u64(value, 0) % J_FILE_EXTENT_LEN_LIMIT,
            phys_block_num: bytes::read_u64(value, 8),
            crypto_id: bytes::read_u64(value, 16),
        },
    )
}

/// A consumer of catalog records that keeps the file extents.
pub struct ExtentCollector {
    extents: Vec<FileExtent>,
}

impl Visitor for ExtentCollector {
    type Seen = Seq<FileExtent>;

    closed spec fn seen(&self) -> Seq<FileExtent> {
        self.extents@
    }

    open spec fn consumed(seen: Seq<FileExtent>, record: RecordView) -> (Seq<FileExtent>, Result<
        bool,
        ApfsError,
    >) {
        if record.key_header.kind != JObjType::FileExtent {
            (seen, Ok(false))
        } else {
            match file_extent_of(record.key, record.value) {
                Ok(extent) => (seen.push(extent), Ok(false)),
                Err(error) => (seen, Err(error)),
            }
        }
    }

    fn visit(&mut self, key_header: JKey, key: &[u8], value: &[u8]) -> (flow: Result<
        bool,
        ApfsError,
    >) {
        if key_header.kind != JObjType::FileExtent {
            return Ok(false);
        }
        match parse_file_extent(key, value) {
            Ok(extent) => {
                self.extents.push(extent);
                Ok(false)
            },
            Err(error) => Err(error),
        }
    }
}

/// Extents sorted by their logical offset.
pub open spec fn sorted_extents(extents: Seq<FileExtent>) -> Seq<FileExtent> {
    sort::stable_sort(extents, sort::rank_of::<FileExtent>())
}

/// The file extents of an object in a catalog, sorted by logical offset.
pub open spec fn catalog_extents(device: Device, catalog: Catalog, obj_id: u64) -> Result<
    Seq<FileExtent>,
    ApfsError,
> {
    let (extents, flow) = catalog::consumed_by::<ExtentCollector>(
        catalog::catalog_walk(device, catalog, Selection::Object(obj_id)),
        Seq::empty(),
    );
    match flow {
        Ok(_) => Ok(sorted_extents(extents)),
        Err(error) => Err(error),
    }
}

/// A file's content: its logical size and the extents backing it.
#[derive(Debug)]
pub struct File {
    size: u64,
    extents: Vec<FileExtent>,
}

/// The model of a [`File`].
pub struct FileView {
    /// The file's logical size in bytes.
    pub size: u64,
    /// The file's extents, sorted by logical offset.
    pub extents: Seq<FileExtent>,
}

impl View for File {
    type V = FileView;

    closed spec fn view(&self) -> FileView {
        FileView { size: self.size, extents: self.extents@ }
    }
}

/// How many leading extents start at or before `pos`.
pub open spec fn leading(extents: Seq<FileExtent>, pos: u64) -> nat
    decreases extents.len(),
{
    if extents.len() == 0 || extents[0].logical_addr > pos {
        0
    } else {
        1 + leading(extents.drop_first(), pos)
    }
}

/// The last of the first `count` extents that is not empty, or the first one.
pub open spec fn last_filled(extents: Seq<FileExtent>, count: nat) -> nat
    decreases count,
{
    if count == 0 {
        0
    } else if extents[count - 1].length > 0 {
        (count - 1) as nat
    } else {
        last_filled(extents, (count - 1) as nat)
    }
}

/// The extent that a read at `pos` starts its search at: the last one with any
/// bytes that does not start behind `pos`, or the first one.
pub open spec fn start_index(extents: Seq<FileExtent>, pos: u64) -> nat {
    last_filled(extents, leading(extents, pos))
}

/// The first extent from `index` on that covers `pos` or starts behind it.
pub open spec fn next_index(extents: Seq<FileExtent>, index: nat, pos: int) -> nat
    decreases extents.len() - index,
{
    if index < extents.len() && extents[index as int].logical_addr <= pos
        && !extents[index as int].covers(pos) {
        next_index(extents, index + 1, pos)
    } else {
        index
    }
}

/// `count` zero bytes.
pub open spec fn zeros(count: nat) -> Seq<u8> {
    Seq::new(count, |i: int| 0u8)
}

/// The smaller of two numbers.
pub open spec fn smaller(a: int, b: int) -> int {
    if a < b {
        a
    } else {
        b
    }
}

/// The device address of `pos` in an extent that covers it.
pub open spec fn device_addr(extent: FileExtent, block_size: u32, pos: int) -> int {
    extent.phys_block_num * block_size + (pos - extent.logical_addr)
}

/// The first piece of at most `len` bytes of a file's content at `pos`, when
/// the search for an extent starts at `index`; with the index it ends at.
///
/// The content of an extent is read from the device in one piece as far as it
/// is wanted; where no extent covers the file there is a hole of zeros up to
/// the next extent or the end of the file.
pub open spec fn piece_at(
    device: Device,
    block_size: u32,
    file: FileView,
    index: nat,
    pos: int,
    len: nat,
) -> Result<(nat, Seq<u8>), ApfsError> {
    let found = next_index(file.extents, index, pos);
    if found < file.extents.len() && file.extents[found as int].covers(pos) {
        let extent = file.extents[found as int];
        let chunk = smaller(len as int, extent.logical_addr + extent.length - pos);
        let addr = device_addr(extent, block_size, pos);
        if addr > u64::MAX {
            error::malformed("j_file_extent_val_t", "extent address overflows the device")
        } else {
            match io::read_at(device, addr as u64, chunk as nat) {
                Err(error) => Err(ApfsError::Io(error)),
                Ok(part) => Ok((found, part)),
            }
        }
    } else {
        let next = if found < file.extents.len() {
            file.extents[found as int].logical_addr
        } else {
            file.size
        };
        Ok((found, zeros(smaller(len as int, next - pos) as nat)))
    }
}

/// The content of a file from `pos` on, `len` bytes of it: its pieces put
/// together.
pub open spec fn content_from(
    device: Device,
    block_size: u32,
    file: FileView,
    index: nat,
    pos: int,
    len: nat,
) -> Result<Seq<u8>, ApfsError>
    decreases len,
{
    if len == 0 {
        Ok(Seq::empty())
    } else {
        match piece_at(device, block_size, file, index, pos, len) {
            Err(error) => Err(error),
            Ok((found, part)) => if part.len() == 0 || part.len() > len {
                Ok(Seq::empty())
            } else {
                match content_from(
                    device,
                    block_size,
                    file,
                    found,
                    pos + part.len(),
                    (len - part.len()) as nat,
                ) {
                    Err(error) => Err(error),
                    Ok(rest) => Ok(part + rest),
                }
            },
        }
    }
}

/// How many bytes a read of at most `len` bytes at `offset` gives.
pub open spec fn read_len(size: u64, offset: u64, len: nat) -> nat {
    if offset >= size {
        0
    } else {
        smaller(len as int, size - offset) as nat
    }
}

/// The content that a read of at most `len` bytes at `offset` gives.
pub open spec fn content_at(
    device: Device,
    block_size: u32,
    file: FileView,
    offset: u64,
    len: nat,
) -> Result<Seq<u8>, ApfsError> {
    content_from(
        device,
        block_size,
        file,
        start_index(file.extents, offset),
        offset as int,
        read_len(file.size, offset, len),
    )
}

/// The whole content of a file.
pub open spec fn whole_content(device: Device, block_size: u32, file: FileView) -> Result<
    Seq<u8>,
    ApfsError,
> {
    if file.size > isize::MAX {
        error::malformed("j_dstream_t", "logical file size exceeds the addressable range")
    } else {
        content_at(device, block_size, file, 0, file.size as nat)
    }
}

proof fn lemma_next_index(extents: Seq<FileExtent>, index: nat, pos: int)
    requires
        index <= extents.len(),
    ensures
        index <= next_index(extents, index, pos) <= extents.len(),
        next_index(extents, index, pos) < extents.len() ==> ({
            let extent = extents[next_index(extents, index, pos) as int];
            extent.covers(pos) || extent.logical_addr > pos
        }),
    decreases extents.len() - index,
{
    if index < extents.len() && extents[index as int].logical_addr <= pos
        && !extents[index as int].covers(pos) {
        lemma_next_index(extents, index + 1, pos);
    }
}

/// The leading extents of sorted extents are those that start at or before
/// `pos`.
proof fn lemma_leading(extents: Seq<FileExtent>, pos: u64, n: int)
    requires
        0 <= n <= extents.len(),
        forall|i: int| 0 <= i < n ==> (#[trigger] extents[i]).logical_addr <= pos,
        forall|i: int| n <= i < extents.len() ==> (#[trigger] extents[i]).logical_addr > pos,
    ensures
        leading(extents, pos) == n,
    decreases extents.len(),
{
    if extents.len() > 0 {
        if n > 0 {
            let rest = extents.drop_first();
            assert forall|i: int| 0 <= i < n - 1 implies (#[trigger] rest[i]).logical_addr
                <= pos by {
                assert(rest[i] == extents[i + 1]);
            }
            assert forall|i: int| n - 1 <= i < rest.len() implies (#[trigger] rest[i]).logical_addr
                > pos by {
                assert(rest[i] == extents[i + 1]);
            }
            assert(extents[0].logical_addr <= pos);
            lemma_leading(rest, pos, n - 1);
        } else {
            assert(extents[0].logical_addr > pos);
        }
    }
}

/// Finds the extent that a read at `pos` starts its search at.
fn extent_index_at_or_after(extents: &Vec<FileExtent>, pos: u64) -> (index: usize)
    requires
        sort::is_sorted(extents@, sort::rank_of::<FileExtent>()),
    ensures
        index == start_index(extents@, pos),
        index <= extents@.len(),
{
    let mut lo: usize = 0;
    let mut hi: usize = extents.len();
    while lo < hi
        invariant
            lo <= hi <= extents@.len(),
            sort::is_sorted(extents@, sort::rank_of::<FileExtent>()),
            forall|i: int| 0 <= i < lo ==> (#[trigger] extents@[i]).logical_addr <= pos,
            forall|i: int| hi <= i < extents@.len() ==> (#[trigger] extents@[i]).logical_addr > pos,
        decreases hi - lo,
    {
        let mid: usize = lo + (hi - lo) / 2;
        if extents[mid].logical_addr <= pos {
            assert forall|i: int| 0 <= i < mid + 1 implies (#[trigger] extents@[i]).logical_addr
                <= pos by {
                assert(extents@[i].spec_rank() <= extents@[mid as int].spec_rank());
            }
            lo = mid + 1;
        } else {
            assert forall|i: int| mid <= i < extents@.len() implies (
            #[trigger] extents@[i]).logical_addr > pos by {
                assert(extents@[mid as int].spec_rank() <= extents@[i].spec_rank());
            }
            hi = mid;
        }
    }
    proof {
        lemma_leading(extents@, pos, lo as int);
    }
    // An empty extent holds no byte, and the bytes at `pos` may lie in one before
    // it.
    while lo > 0 && extents[lo - 1].length == 0
        invariant
            lo <= extents@.len(),
            start_index(extents@, pos) == last_filled(extents@, lo as nat),
        decreases lo,
    {
        lo -= 1;
    }
    if lo == 0 {
        0
    } else {
        lo - 1
    }
}

/// Overwrites `len` bytes of `buf` from `start` on with zeros.
fn fill_zeros(buf: &mut [u8], start: usize, len: usize)
    requires
        start + len <= old(buf)@.len(),
    ensures
        final(buf)@ == old(buf)@.take(start as int) + zeros(len as nat) + old(buf)@.skip(
            start + len,
        ),
{
    let mut i: usize = 0;
    while i < len
        invariant
            i <= len,
            start + len <= buf@.len(),
            buf@.len() == old(buf)@.len(),
            buf.len() == buf@.len(),
            forall|j: int| 0 <= j < buf@.len() ==> #[trigger] buf@[j] == (if start <= j < start
                + i {
                0
            } else {
                old(buf)@[j]
            }),
        decreases len - i,
    {
        buf[start + i] = 0;
        i += 1;
    }
    assert(buf@ =~= old(buf)@.take(start as int) + zeros(len as nat) + old(buf)@.skip(start + len));
}

/// Reads `len` bytes at `addr` of the device into `buf` from `start` on.
fn read_into<T: Reader>(
    reader: &mut T,
    addr: u64,
    buf: &mut [u8],
    start: usize,
    len: usize,
) -> (outcome: Result<(), ApfsError>)
    requires
        start + len <= old(buf)@.len(),
    ensures
        final(reader).device() == old(reader).device(),
        final(buf)@.len() == old(buf)@.len(),
        match outcome {
            Ok(()) => io::read_at(old(reader).device(), addr, len as nat) matches Ok(part) && final(
                buf)@ == old(buf)@.take(start as int) + part + old(buf)@.skip(start + len),
            Err(error) => io::read_at(old(reader).device(), addr, len as nat) matches Err(cause)
                && error == ApfsError::Io(cause),
        },
{
    let ghost before = buf@;
    let (_head, tail) = buf.split_at_mut(start);
    let (middle, _rest) = tail.split_at_mut(len);
    match io::read_exact_at(reader, addr, middle) {
        Ok(()) => {
            let ghost part = middle@;
            proof {
                io::lemma_exact_len(reader.device(), addr as nat, len as nat);
                assert(buf@ =~= before.take(start as int) + part + before.skip(start + len));
            }
            Ok(())
        },
        Err(error) => Err(ApfsError::Io(error)),
    }
}

impl File {
    #[verifier::type_invariant]
    spec fn well_formed(self) -> bool {
        sort::is_sorted(self.extents@, sort::rank_of::<FileExtent>())
    }

    /// Builds a file handle for `obj_id` by collecting its `FILE_EXTENT`
    /// records from the catalog.
    ///
    /// `size` is the logical file size from the inode's data stream.
    pub fn open<T: Reader>(catalog: &Catalog, reader: &mut T, obj_id: u64, size: u64) -> (opened:
        Result<File, ApfsError>)
        ensures
            final(reader).device() == old(reader).device(),
            error::viewed(opened) == match catalog_extents(
                old(reader).device(),
                *catalog,
                obj_id,
            ) {
                Ok(extents) => Ok(FileView { size, extents }),
                Err(error) => Err(error),
            },
    {
        let mut collector: ExtentCollector = ExtentCollector { extents: Vec::new() };
        match catalog.visit_records(reader, Selection::Object(obj_id), &mut collector) {
            Ok(_) => Ok(File::from_extents(size, collector.extents)),
            Err(error) => Err(error),
        }
    }

    /// Builds a file handle from extents already resolved elsewhere, as those
    /// of a sealed volume, which come from its file-extent tree.
    #[must_use]
    pub fn from_extents(size: u64, extents: Vec<FileExtent>) -> (file: File)
        ensures
            file@ == (FileView { size, extents: sorted_extents(extents@) }),
    {
        let mut extents: Vec<FileExtent> = extents;
        proof {
            sort::law_stable_sort_sorts(extents@, sort::rank_of::<FileExtent>());
        }
        sort::sort_by_rank(&mut extents);
        File { size, extents }
    }

    /// The file's logical size in bytes.
    #[must_use]
    pub fn size(&self) -> (size: u64)
        ensures
            size == self@.size,
    {
        self.size
    }

    /// The file's extents, sorted by logical offset.
    #[must_use]
    pub fn extents(&self) -> (extents: &[FileExtent])
        ensures
            extents@ == self@.extents,
            sort::is_sorted(extents@, sort::rank_of::<FileExtent>()),
    {
        proof {
            use_type_invariant(self);
        }
        self.extents.as_slice()
    }

    /// Reads the first piece of at most `len` bytes of the content at `pos`
    /// into `buf` from `start` on; gives the index of the extent that the
    /// search ended at, and the length of the piece.
    fn read_piece<T: Reader>(
        &self,
        reader: &mut T,
        block_size: u32,
        index: usize,
        pos: u64,
        buf: &mut [u8],
        start: usize,
        len: usize,
    ) -> (outcome: Result<(usize, usize), ApfsError>)
        requires
            index <= self@.extents.len(),
            pos < self@.size,
            0 < len,
            start + len <= old(buf)@.len(),
        ensures
            final(reader).device() == old(reader).device(),
            final(buf)@.len() == old(buf)@.len(),
            match outcome {
                Ok((found, chunk)) => {
                    &&& found <= self@.extents.len()
                    &&& 0 < chunk <= len
                    &&& piece_at(
                        old(reader).device(),
                        block_size,
                        self@,
                        index as nat,
                        pos as int,
                        len as nat,
                    ) matches Ok((at, part)) && at == found && part.len() == chunk && final(buf)@
                        == old(buf)@.take(start as int) + part + old(buf)@.skip(start + chunk)
                },
                Err(error) => piece_at(
                    old(reader).device(),
                    block_size,
                    self@,
                    index as nat,
                    pos as int,
                    len as nat,
                ) == Err::<(nat, Seq<u8>), ApfsError>(error),
            },
    {
        let ghost extents = self.extents@;
        proof {
            lemma_next_index(extents, index as nat, pos as int);
        }
        let mut found: usize = index;
        while found < self.extents.len() && self.extents[found].logical_addr <= pos
            && !self.extents[found].contains(pos)
            invariant
                found <= extents.len(),
                extents == self.extents@,
                next_index(extents, found as nat, pos as int) == next_index(
                    extents,
                    index as nat,
                    pos as int,
                ),
            decreases extents.len() - found,
        {
            found += 1;
        }
        if found < self.extents.len() && self.extents[found].contains(pos) {
            let extent: FileExtent = self.extents[found];
            let within: u64 = pos - extent.logical_addr;
            let remaining: u64 = extent.length - within;
            let chunk: usize = if (len as u64) < remaining {
                len
            } else {
                remaining as usize
            };
            let addr: Option<u64> = match extent.phys_block_num.checked_mul(block_size as u64) {
                Some(base) => base.checked_add(within),
                None => None,
            };
            let addr: u64 = match addr {
                Some(addr) => addr,
                None => return Err(
                    ApfsError::Malformed {
                        structure: "j_file_extent_val_t",
                        reason: "extent address overflows the device",
                    },
                ),
            };
            proof {
                io::lemma_exact_len(reader.device(), addr as nat, chunk as nat);
            }
            match read_into(reader, addr, buf, start, chunk) {
                Ok(()) => Ok((found, chunk)),
                Err(error) => Err(error),
            }
        } else {
            let next: u64 = if found < self.extents.len() {
                self.extents[found].logical_addr
            } else {
                self.size
            };
            let chunk: usize = if (len as u64) < next - pos {
                len
            } else {
                (next - pos) as usize
            };
            fill_zeros(buf, start, chunk);
            Ok((found, chunk))
        }
    }

    /// Reads file content starting at logical byte `offset` into `buf`.
    ///
    /// Returns the number of bytes read, which is short at end-of-file.
    /// Logical regions with no backing extent read as zeros.
    pub fn read_at<T: Reader>(
        &self,
        reader: &mut T,
        block_size: u32,
        offset: u64,
        buf: &mut [u8],
    ) -> (outcome: Result<usize, ApfsError>)
        ensures
            final(reader).device() == old(reader).device(),
            final(buf)@.len() == old(buf)@.len(),
            match outcome {
                Ok(n) => {
                    &&& n == read_len(self@.size, offset, old(buf)@.len())
                    &&& content_at(
                        old(reader).device(),
                        block_size,
                        self@,
                        offset,
                        old(buf)@.len(),
                    ) == Ok::<Seq<u8>, ApfsError>(final(buf)@.take(n as int))
                    &&& final(buf)@.skip(n as int) == old(buf)@.skip(n as int)
                },
                Err(error) => content_at(
                    old(reader).device(),
                    block_size,
                    self@,
                    offset,
                    old(buf)@.len(),
                ) == Err::<Seq<u8>, ApfsError>(error),
            },
    {
        proof {
            use_type_invariant(self);
        }
        if offset >= self.size {
            assert(buf@.take(0) =~= Seq::<u8>::empty());
            return Ok(0);
        }
        let to_read: usize = if (buf.len() as u64) < self.size - offset {
            buf.len()
        } else {
            (self.size - offset) as usize
        };
        let mut index: usize = extent_index_at_or_after(&self.extents, offset);
        let mut done: usize = 0;
        let ghost device = reader.device();
        let ghost file = self@;
        let ghost goal = content_at(device, block_size, file, offset, old(buf)@.len());
        let ghost original = buf@;
        proof {
            if let Ok(rest) = goal {
                assert(buf@.take(0) + rest =~= rest);
            }
        }
        while done < to_read
            invariant
                done <= to_read <= original.len(),
                original == old(buf)@,
                buf@.len() == original.len(),
                offset + to_read <= file.size,
                file == self@,
                device == old(reader).device(),
                reader.device() == device,
                index <= file.extents.len(),
                goal == content_at(device, block_size, file, offset, original.len()),
                buf@.skip(to_read as int) == original.skip(to_read as int),
                match content_from(
                    device,
                    block_size,
                    file,
                    index as nat,
                    offset + done,
                    (to_read - done) as nat,
                ) {
                    Err(error) => goal == Err::<Seq<u8>, ApfsError>(error),
                    Ok(rest) => goal == Ok::<Seq<u8>, ApfsError>(buf@.take(done as int) + rest),
                },
            decreases to_read - done,
        {
            let pos: u64 = offset + done as u64;
            let ghost before = buf@;
            let ghost left = (to_read - done) as nat;
            let ghost from = index as nat;
            let (found, chunk) = match self.read_piece(
                reader,
                block_size,
                index,
                pos,
                buf,
                done,
                to_read - done,
            ) {
                Ok(piece) => piece,
                Err(error) => return Err(error),
            };
            proof {
                let part = piece_at(device, block_size, file, from, pos as int, left)->Ok_0.1;
                assert(buf@.take(done + chunk) =~= before.take(done as int) + part);
                assert(buf@.skip(to_read as int) =~= before.skip(to_read as int));
                if let Ok(rest) = content_from(
                    device,
                    block_size,
                    file,
                    found as nat,
                    pos + chunk,
                    (left - chunk) as nat,
                ) {
                    assert(before.take(done as int) + (part + rest) =~= buf@.take(done + chunk)
                        + rest);
                }
            }
            index = found;
            done += chunk;
        }
        assert(buf@.take(done as int) + Seq::<u8>::empty() =~= buf@.take(done as int));
        Ok(done)
    }

    /// Reads the file's entire content into a new buffer.
    ///
    /// A logical size that no buffer can have is an error.
    pub fn read_all<T: Reader>(&self, reader: &mut T, block_size: u32) -> (content: Result<
        Vec<u8>,
        ApfsError,
    >)
        ensures
            final(reader).device() == old(reader).device(),
            error::viewed(content) == whole_content(old(reader).device(), block_size, self@),
    {
        if self.size > isize::MAX as u64 {
            return Err(
                ApfsError::Malformed {
                    structure: "j_dstream_t",
                    reason: "logical file size exceeds the addressable range",
                },
            );
        }
        let len: usize = self.size as usize;
        let mut buf: Vec<u8> = vec![0u8; len];
        match self.read_at(reader, block_size, 0, buf.as_mut_slice()) {
            Ok(read) => {
                buf.truncate(read);
                Ok(buf)
            },
            Err(error) => Err(error),
        }
    }
}

impl Clone for File {
    fn clone(&self) -> (copy: File)
        ensures
            copy@ == self@,
    {
        proof {
            use_type_invariant(self);
        }
        let extents: Vec<FileExtent> = self.extents.clone();
        assert(extents@ =~= self.extents@);
        File { size: self.size, extents }
    }
}

/// Whether extents are sorted by logical offset, as those of a file are, and no
/// two hold the same byte.
pub open spec fn is_disjoint(extents: Seq<FileExtent>) -> bool {
    &&& sort::is_sorted(extents, sort::rank_of::<FileExtent>())
    &&& forall|i: int, j: int, pos: int|
        0 <= i < j < extents.len() ==> !(#[trigger] extents[i].covers(pos)
            && #[trigger] extents[j].covers(pos))
}

/// Whether every extent lies inside an in-memory source.
pub open spec fn is_backed(data: Seq<u8>, block_size: u32, extents: Seq<FileExtent>) -> bool {
    &&& data.len() <= u64::MAX
    &&& forall|i: int|
        0 <= i < extents.len() ==> (#[trigger] extents[i]).phys_block_num * block_size
            + extents[i].length <= data.len()
}

/// The first extent that covers `pos`.
pub open spec fn covering(extents: Seq<FileExtent>, pos: int) -> Option<FileExtent>
    decreases extents.len(),
{
    if extents.len() == 0 {
        None
    } else if extents[0].covers(pos) {
        Some(extents[0])
    } else {
        covering(extents.drop_first(), pos)
    }
}

/// The byte of a file at `pos`: the one of the source that the extent there
/// maps it to, and zero in a hole.
pub open spec fn file_byte(
    data: Seq<u8>,
    block_size: u32,
    extents: Seq<FileExtent>,
    pos: int,
) -> u8 {
    match covering(extents, pos) {
        Some(extent) => data[device_addr(extent, block_size, pos)],
        None => 0,
    }
}

proof fn lemma_covering(extents: Seq<FileExtent>, pos: int, at: int)
    requires
        0 <= at <= extents.len(),
        at < extents.len() ==> extents[at].covers(pos),
        forall|i: int| 0 <= i < at ==> !(#[trigger] extents[i]).covers(pos),
    ensures
        covering(extents, pos) == if at < extents.len() {
            Some(extents[at])
        } else {
            None
        },
    decreases extents.len(),
{
    if extents.len() > 0 && at > 0 {
        let rest = extents.drop_first();
        assert forall|i: int| 0 <= i < at - 1 implies !(#[trigger] rest[i]).covers(pos) by {
            assert(rest[i] == extents[i + 1]);
        }
        assert(!extents[0].covers(pos));
        lemma_covering(rest, pos, at - 1);
    }
}

/// Whether every extent before `index` ends at or before `pos`.
spec fn is_behind(extents: Seq<FileExtent>, index: nat, pos: int) -> bool {
    forall|i: int|
        0 <= i < index ==> (#[trigger] extents[i]).logical_addr + extents[i].length <= pos
}

proof fn lemma_next_is_behind(extents: Seq<FileExtent>, index: nat, pos: int)
    requires
        index <= extents.len(),
        0 <= pos < u64::MAX,
        is_behind(extents, index, pos),
    ensures
        is_behind(extents, next_index(extents, index, pos), pos),
    decreases extents.len() - index,
{
    if index < extents.len() && extents[index as int].logical_addr <= pos
        && !extents[index as int].covers(pos) {
        lemma_next_is_behind(extents, index + 1, pos);
    }
}

proof fn lemma_content_bytes(
    data: Seq<u8>,
    block_size: u32,
    file: FileView,
    index: nat,
    pos: int,
    len: nat,
)
    requires
        is_disjoint(file.extents),
        is_backed(data, block_size, file.extents),
        index <= file.extents.len(),
        is_behind(file.extents, index, pos),
        0 <= pos,
        pos + len <= file.size,
    ensures
        content_from(io::memory_device(data), block_size, file, index, pos, len) == Ok::<
            Seq<u8>,
            ApfsError,
        >(Seq::new(len, |i: int| file_byte(data, block_size, file.extents, pos + i))),
    decreases len,
{
    let extents = file.extents;
    let device = io::memory_device(data);
    let wanted = Seq::new(len, |i: int| file_byte(data, block_size, extents, pos + i));
    if len == 0 {
        assert(wanted =~= Seq::<u8>::empty());
    } else {
        let found = next_index(extents, index, pos);
        lemma_next_index(extents, index, pos);
        lemma_next_is_behind(extents, index, pos);
        let (at, part) = piece_at(device, block_size, file, index, pos, len)->Ok_0;
        if found < extents.len() && extents[found as int].covers(pos) {
            let extent = extents[found as int];
            let chunk = smaller(len as int, extent.logical_addr + extent.length - pos);
            let addr = device_addr(extent, block_size, pos);
            assert(extent.phys_block_num * block_size >= 0) by (nonlinear_arith);
            io::law_memory_read(data, addr as u64, chunk as nat);
            assert(part == data.subrange(addr, addr + chunk));
            assert forall|i: int| 0 <= i < chunk implies part[i] == #[trigger] wanted[i] by {
                assert(extent.covers(pos + i));
                assert forall|k: int| 0 <= k < found implies !(#[trigger] extents[k]).covers(
                    pos + i,
                ) by {}
                lemma_covering(extents, pos + i, found as int);
            }
        } else {
            let next = if found < extents.len() {
                extents[found as int].logical_addr
            } else {
                file.size
            };
            let chunk = smaller(len as int, next - pos);
            assert(chunk > 0);
            assert forall|i: int| 0 <= i < chunk implies part[i] == #[trigger] wanted[i] by {
                assert forall|k: int| 0 <= k < extents.len() implies !(
                #[trigger] extents[k]).covers(pos + i) by {
                    if k > found {
                        assert(extents[found as int].spec_rank() <= extents[k].spec_rank());
                    }
                }
                lemma_covering(extents, pos + i, extents.len() as int);
            }
        }
        let chunk = part.len();
        let left = (len - chunk) as nat;
        lemma_content_bytes(data, block_size, file, found, pos + chunk, left);
        let rest = Seq::new(
            left,
            |i: int| file_byte(data, block_size, extents, pos + chunk + i),
        );
        assert(wanted =~= part + rest) by {
            assert forall|i: int| chunk <= i < len implies wanted[i] == (part + rest)[i] by {
                assert(rest[i - chunk] == file_byte(data, block_size, extents, pos + i));
            }
        }
    }
}

proof fn lemma_leading_bounds(extents: Seq<FileExtent>, pos: u64)
    ensures
        leading(extents, pos) <= extents.len(),
        forall|i: int| 0 <= i < leading(extents, pos) ==> (#[trigger] extents[i]).logical_addr
            <= pos,
    decreases extents.len(),
{
    if extents.len() > 0 && extents[0].logical_addr <= pos {
        let rest = extents.drop_first();
        lemma_leading_bounds(rest, pos);
        assert forall|i: int| 0 <= i < leading(extents, pos) implies (
        #[trigger] extents[i]).logical_addr <= pos by {
            if i > 0 {
                assert(extents[i] == rest[i - 1]);
            }
        }
    }
}

proof fn lemma_last_filled(extents: Seq<FileExtent>, count: nat)
    ensures
        last_filled(extents, count) > 0 ==> last_filled(extents, count) < count
            && extents[last_filled(extents, count) as int].length > 0,
        last_filled(extents, count) <= count,
    decreases count,
{
    if count > 0 && extents[count - 1].length == 0 {
        lemma_last_filled(extents, (count - 1) as nat);
    }
}

/// The extents before the one that a read starts at end before the read.
proof fn lemma_start_is_behind(extents: Seq<FileExtent>, offset: u64)
    requires
        is_disjoint(extents),
        offset < u64::MAX,
    ensures
        start_index(extents, offset) <= extents.len(),
        is_behind(extents, start_index(extents, offset), offset as int),
{
    let index = start_index(extents, offset) as int;
    lemma_leading_bounds(extents, offset);
    lemma_last_filled(extents, leading(extents, offset));
    assert forall|i: int| 0 <= i < index implies (#[trigger] extents[i]).logical_addr
        + extents[i].length <= offset by {
        let start = extents[index].logical_addr as int;
        assert(extents[i].spec_rank() <= extents[index].spec_rank());
        assert(extents[index].logical_addr <= offset);
        assert(extents[index].covers(start));
        assert(!extents[i].covers(start));
    }
}

/// What a read gives is the file's content byte for byte: every byte that an
/// extent covers comes from the place the extent maps it to, and every other
/// byte, in a hole of a sparse file, is zero. This holds of a file no two extents
/// of which hold the same byte, on a source that backs them.
pub proof fn law_read_gives_file_bytes(
    data: Seq<u8>,
    block_size: u32,
    file: FileView,
    offset: u64,
    len: nat,
)
    requires
        is_disjoint(file.extents),
        is_backed(data, block_size, file.extents),
    ensures
        content_at(io::memory_device(data), block_size, file, offset, len) == Ok::<
            Seq<u8>,
            ApfsError,
        >(
            Seq::new(
                read_len(file.size, offset, len),
                |i: int| file_byte(data, block_size, file.extents, offset + i),
            ),
        ),
{
    let extents = file.extents;
    let index = start_index(extents, offset);
    let n = read_len(file.size, offset, len);
    if n > 0 {
        lemma_start_is_behind(extents, offset);
        lemma_content_bytes(data, block_size, file, index, offset as int, n);
    } else {
        assert(Seq::new(0, |i: int| file_byte(data, block_size, extents, offset + i)) =~= Seq::<
            u8,
        >::empty());
    }
}

/// The byte of a file at `pos`, on a device with the given content.
pub open spec fn steady_byte(
    content: spec_fn(nat) -> u8,
    block_size: u32,
    extents: Seq<FileExtent>,
    pos: int,
) -> u8 {
    match covering(extents, pos) {
        Some(extent) => content(device_addr(extent, block_size, pos) as nat),
        None => 0,
    }
}

proof fn lemma_steady_content(
    device: Device,
    content: spec_fn(nat) -> u8,
    block_size: u32,
    file: FileView,
    index: nat,
    pos: int,
    len: nat,
)
    requires
        io::is_steady(device, content),
        is_disjoint(file.extents),
        index <= file.extents.len(),
        is_behind(file.extents, index, pos),
        0 <= pos,
        pos + len <= file.size,
    ensures
        content_from(device, block_size, file, index, pos, len) matches Ok(bytes) ==> bytes
            == Seq::new(len, |i: int| steady_byte(content, block_size, file.extents, pos + i)),
    decreases len,
{
    let extents = file.extents;
    let wanted = Seq::new(len, |i: int| steady_byte(content, block_size, extents, pos + i));
    if len == 0 {
        assert(wanted =~= Seq::<u8>::empty());
    } else if let Ok((at, part)) = piece_at(device, block_size, file, index, pos, len) {
        let found = next_index(extents, index, pos);
        lemma_next_index(extents, index, pos);
        lemma_next_is_behind(extents, index, pos);
        if found < extents.len() && extents[found as int].covers(pos) {
            let extent = extents[found as int];
            let chunk = smaller(len as int, extent.logical_addr + extent.length - pos);
            let addr = device_addr(extent, block_size, pos);
            assert(extent.phys_block_num * block_size >= 0) by (nonlinear_arith);
            io::law_steady_read(device, content, addr as nat, chunk as nat);
            assert(part.len() == chunk);
            assert forall|i: int| 0 <= i < chunk implies part[i] == #[trigger] wanted[i] by {
                assert(extent.covers(pos + i));
                assert forall|k: int| 0 <= k < found implies !(#[trigger] extents[k]).covers(
                    pos + i,
                ) by {}
                lemma_covering(extents, pos + i, found as int);
                assert(part[i] == content((addr + i) as nat));
            }
        } else {
            let next = if found < extents.len() {
                extents[found as int].logical_addr
            } else {
                file.size
            };
            let chunk = smaller(len as int, next - pos);
            assert(chunk > 0);
            assert forall|i: int| 0 <= i < chunk implies part[i] == #[trigger] wanted[i] by {
                assert forall|k: int| 0 <= k < extents.len() implies !(
                #[trigger] extents[k]).covers(pos + i) by {
                    if k > found {
                        assert(extents[found as int].spec_rank() <= extents[k].spec_rank());
                    }
                }
                lemma_covering(extents, pos + i, extents.len() as int);
            }
        }
        let chunk = part.len();
        let left = (len - chunk) as nat;
        lemma_steady_content(device, content, block_size, file, found, pos + chunk, left);
        if let Ok(rest) = content_from(device, block_size, file, found, pos + chunk, left) {
            assert(wanted =~= part + rest) by {
                assert forall|i: int| chunk <= i < len implies wanted[i] == (part + rest)[i] by {
                    assert(rest[i - chunk] == steady_byte(content, block_size, extents, pos + i));
                }
            }
        }
    }
}

/// What a read gives is the file's content byte for byte, on every device whose
/// content does not change, wherever the read succeeds.
pub proof fn law_read_gives_device_bytes(
    device: Device,
    content: spec_fn(nat) -> u8,
    block_size: u32,
    file: FileView,
    offset: u64,
    len: nat,
)
    requires
        io::is_steady(device, content),
        is_disjoint(file.extents),
    ensures
        content_at(device, block_size, file, offset, len) matches Ok(bytes) ==> bytes == Seq::new(
            read_len(file.size, offset, len),
            |i: int| steady_byte(content, block_size, file.extents, offset + i),
        ),
{
    let extents = file.extents;
    let index = start_index(extents, offset);
    let n = read_len(file.size, offset, len);
    if n > 0 {
        lemma_start_is_behind(extents, offset);
        lemma_steady_content(device, content, block_size, file, index, offset as int, n);
    } else {
        assert(Seq::new(
            0,
            |i: int| steady_byte(content, block_size, extents, offset + i),
        ) =~= Seq::<u8>::empty());
    }
}

/// Wherever a file can be read whole, the content has the file's size, and what a
/// read at an offset gives is the part of it there, as long as was asked for or as
/// is left. This holds of a file no two extents of which hold the same byte, on a
/// device whose content does not change.
pub proof fn law_read_at_is_a_part_of_read_all(
    device: Device,
    content: spec_fn(nat) -> u8,
    block_size: u32,
    file: FileView,
    whole: Seq<u8>,
    offset: u64,
    len: nat,
)
    requires
        io::is_steady(device, content),
        is_disjoint(file.extents),
        whole_content(device, block_size, file) == Ok::<Seq<u8>, ApfsError>(whole),
    ensures
        whole.len() == file.size,
        content_at(device, block_size, file, offset, len) matches Ok(part) ==> part.len()
            == read_len(file.size, offset, len) && (offset <= file.size ==> part
            == whole.subrange(offset as int, offset + part.len())),
{
    law_read_gives_device_bytes(device, content, block_size, file, 0, file.size as nat);
    law_read_gives_device_bytes(device, content, block_size, file, offset, len);
    if let Ok(part) = content_at(device, block_size, file, offset, len) {
        if offset <= file.size {
            let there = whole.subrange(offset as int, offset + part.len());
            assert forall|i: int| 0 <= i < part.len() implies part[i] == there[i] by {
                assert(whole[offset + i] == steady_byte(
                    content,
                    block_size,
                    file.extents,
                    offset + i,
                ));
            }
            assert(part =~= there);
        }
    }
}

/// Reading a file in two parts gives what reading it at once gives.
pub proof fn law_read_in_parts(
    data: Seq<u8>,
    block_size: u32,
    file: FileView,
    offset: u64,
    first: nat,
    second: nat,
)
    requires
        is_disjoint(file.extents),
        is_backed(data, block_size, file.extents),
        offset + first <= file.size,
    ensures
        ({
            let device = io::memory_device(data);
            content_at(device, block_size, file, offset, first + second) == Ok::<
                Seq<u8>,
                ApfsError,
            >(
                content_at(device, block_size, file, offset, first)->Ok_0 + content_at(
                    device,
                    block_size,
                    file,
                    (offset + first) as u64,
                    second,
                )->Ok_0,
            )
        }),
{
    let device = io::memory_device(data);
    let middle = (offset + first) as u64;
    law_read_gives_file_bytes(data, block_size, file, offset, first + second);
    law_read_gives_file_bytes(data, block_size, file, offset, first);
    law_read_gives_file_bytes(data, block_size, file, middle, second);
    let whole = content_at(device, block_size, file, offset, first + second)->Ok_0;
    let left = content_at(device, block_size, file, offset, first)->Ok_0;
    let right = content_at(device, block_size, file, middle, second)->Ok_0;
    assert(whole =~= left + right);
}

proof fn lemma_content_len(
    device: Device,
    block_size: u32,
    file: FileView,
    index: nat,
    pos: int,
    len: nat,
)
    requires
        0 <= pos,
        pos + len <= file.size,
    ensures
        content_from(device, block_size, file, index, pos, len) matches Ok(bytes) ==> bytes.len()
            == len,
    decreases len,
{
    if len > 0 {
        if let Ok((at, part)) = piece_at(device, block_size, file, index, pos, len) {
            let found = next_index(file.extents, index, pos);
            lemma_next_stops(file.extents, index, pos);
            if found < file.extents.len() && file.extents[found as int].covers(pos) {
                let extent = file.extents[found as int];
                let chunk = smaller(len as int, extent.logical_addr + extent.length - pos);
                let addr = device_addr(extent, block_size, pos) as u64;
                assert(io::read_at(device, addr, chunk as nat) is Ok);
                io::lemma_exact_len(device, addr as nat, chunk as nat);
                assert(part.len() == chunk);
            }
            let left = (len - part.len()) as nat;
            lemma_content_len(device, block_size, file, found, pos + part.len(), left);
        }
    }
}

proof fn lemma_next_stops(extents: Seq<FileExtent>, index: nat, pos: int)
    ensures
        ({
            let found = next_index(extents, index, pos);
            found < extents.len() ==> extents[found as int].covers(pos)
                || extents[found as int].logical_addr > pos
        }),
    decreases extents.len() - index,
{
    if index < extents.len() && extents[index as int].logical_addr <= pos
        && !extents[index as int].covers(pos) {
        lemma_next_stops(extents, index + 1, pos);
    }
}

/// A read that succeeds gives as many bytes as were asked for, or as the file has from
/// the offset on where that is less; reading a file whole gives as many as its size says.
pub proof fn law_read_has_the_length(
    device: Device,
    block_size: u32,
    file: FileView,
    offset: u64,
    len: nat,
)
    ensures
        content_at(device, block_size, file, offset, len) matches Ok(bytes) ==> {
            &&& offset + len <= file.size ==> bytes.len() == len
            &&& offset <= file.size < offset + len ==> bytes.len() == file.size - offset
            &&& file.size < offset ==> bytes.len() == 0
        },
        whole_content(device, block_size, file) matches Ok(bytes) ==> bytes.len() == file.size,
{
    let index = start_index(file.extents, offset);
    let n = read_len(file.size, offset, len);
    if offset < file.size {
        lemma_content_len(device, block_size, file, index, offset as int, n);
    }
    lemma_content_len(
        device,
        block_size,
        file,
        start_index(file.extents, 0),
        0,
        file.size as nat,
    );
}

/// The extent that a `FILE_EXTENT` record stores: its place in the file from byte 8 of
/// the key on; its length in the low seven bytes of the value, its block from byte 8 on
/// and its key identifier from byte 16 on.
pub open spec fn is_stored_extent(record: RecordView, extent: FileExtent) -> bool {
    &&& record.key.len() >= 16
    &&& record.value.len() >= 24
    &&& extent.logical_addr == bytes::le_u64(record.key, 8)
    &&& extent.length == bytes::le_u64(record.value, 0) - 0x0100_0000_0000_0000 * record.value[7]
    &&& extent.phys_block_num == bytes::le_u64(record.value, 8)
    &&& extent.crypto_id == bytes::le_u64(record.value, 16)
}

proof fn lemma_stored_extent(record: RecordView)
    ensures
        file_extent_of(record.key, record.value) matches Ok(extent) ==> is_stored_extent(
            record,
            extent,
        ),
{
    let value = record.value;
    bytes::law_bytes_weigh_by_their_place(value, 0);
    let low = value[0] + 0x100 * value[1] + 0x1_0000 * value[2] + 0x100_0000 * value[3]
        + 0x1_0000_0000 * value[4] + 0x100_0000_0000 * value[5] + 0x1_0000_0000_0000 * value[6];
    assert(bytes::le_u64(value, 0) == low + 0x0100_0000_0000_0000 * value[7]);
    assert(bytes::le_u64(value, 0) % 0x0100_0000_0000_0000u64 == low);
}

proof fn lemma_collected_extents(walk: Stream, index: nat, seen: Seq<FileExtent>)
    requires
        index <= walk.records.len(),
        catalog::consumed_from::<ExtentCollector>(walk, index, seen).1 is Ok,
    ensures
        catalog::consumed_from::<ExtentCollector>(walk, index, seen).0 == seen + walk.records.skip(
            index as int,
        ).filter(|record: RecordView| record.key_header.kind == JObjType::FileExtent).map_values(
            |record: RecordView| file_extent_of(record.key, record.value)->Ok_0,
        ),
        walk.end is None,
        forall|i: int|
            index <= i < walk.records.len() && (#[trigger] walk.records[i]).key_header.kind
                == JObjType::FileExtent ==> file_extent_of(
                walk.records[i].key,
                walk.records[i].value,
            ) is Ok,
    decreases walk.records.len() - index,
{
    let of_kind = |record: RecordView| record.key_header.kind == JObjType::FileExtent;
    let stored = |record: RecordView| file_extent_of(record.key, record.value)->Ok_0;
    let rest = walk.records.skip(index as int);
    if index < walk.records.len() {
        let record = walk.records[index as int];
        let after = walk.records.skip(index as int + 1);
        let next = ExtentCollector::consumed(seen, record).0;
        lemma_collected_extents(walk, index + 1, next);
        assert(rest =~= seq![record] + after);
        Seq::filter_distributes_over_add(seq![record], after, of_kind);
        lemma_filter_one(record, of_kind);
        assert(rest.filter(of_kind).map_values(stored) =~= if of_kind(record) {
            seq![stored(record)] + after.filter(of_kind).map_values(stored)
        } else {
            after.filter(of_kind).map_values(stored)
        });
        assert(seen + rest.filter(of_kind).map_values(stored) =~= next + after.filter(
            of_kind,
        ).map_values(stored));
    } else {
        reveal(Seq::filter);
        assert(rest =~= Seq::<RecordView>::empty());
        assert(seen + rest.filter(of_kind).map_values(stored) =~= seen);
    }
}

proof fn lemma_filter_one(record: RecordView, wanted: spec_fn(RecordView) -> bool)
    ensures
        seq![record].filter(wanted) == if wanted(record) {
            seq![record]
        } else {
            Seq::empty()
        },
{
    reveal(Seq::filter);
    let one = seq![record];
    assert(one.drop_last() =~= Seq::<RecordView>::empty());
    assert(one.drop_last().filter(wanted) =~= Seq::<RecordView>::empty());
    assert(Seq::<RecordView>::empty().push(record) =~= one);
}

/// The extents of an object are those that its `FILE_EXTENT` records store, one each,
/// put in order of their place in the file.
pub proof fn law_extents_are_the_stored_ones(
    device: Device,
    catalog: Catalog,
    obj_id: u64,
    records: Seq<RecordView>,
    extents: Seq<FileExtent>,
)
    requires
        catalog::catalog_records(device, catalog, Selection::Object(obj_id)) == Ok::<
            Seq<RecordView>,
            ApfsError,
        >(records),
        catalog_extents(device, catalog, obj_id) == Ok::<Seq<FileExtent>, ApfsError>(extents),
    ensures
        ({
            let stored = records.filter(
                |record: RecordView| record.key_header.kind == JObjType::FileExtent,
            );
            &&& exists|unsorted: Seq<FileExtent>|
                unsorted.len() == stored.len() && (forall|i: int|
                    0 <= i < stored.len() ==> is_stored_extent(
                        #[trigger] stored[i],
                        unsorted[i],
                    )) && #[trigger] unsorted.to_multiset() == extents.to_multiset()
            &&& forall|i: int, j: int|
                0 <= i <= j < extents.len() ==> (#[trigger] extents[i]).logical_addr <= (
                #[trigger] extents[j]).logical_addr
        }),
{
    let of_kind = |record: RecordView| record.key_header.kind == JObjType::FileExtent;
    let parsed = |record: RecordView| file_extent_of(record.key, record.value)->Ok_0;
    let walk = catalog::catalog_walk(device, catalog, Selection::Object(obj_id));
    lemma_collected_extents(walk, 0, Seq::empty());
    assert(walk.records.skip(0) =~= records);
    let stored = records.filter(of_kind);
    let unsorted = stored.map_values(parsed);
    assert(Seq::<FileExtent>::empty() + unsorted =~= unsorted);
    assert forall|i: int| 0 <= i < stored.len() implies is_stored_extent(
        #[trigger] stored[i],
        unsorted[i],
    ) by {
        lemma_filter_keeps(records, of_kind, i);
        lemma_stored_extent(stored[i]);
    }
    let rank = sort::rank_of::<FileExtent>();
    sort::law_stable_sort_permutes(unsorted, rank);
    sort::law_stable_sort_sorts(unsorted, rank);
    assert forall|i: int, j: int| 0 <= i <= j < extents.len() implies (
    #[trigger] extents[i]).logical_addr <= (#[trigger] extents[j]).logical_addr by {
        assert(rank(extents[i]) <= rank(extents[j]));
    }
}

proof fn lemma_filter_keeps(
    records: Seq<RecordView>,
    wanted: spec_fn(RecordView) -> bool,
    i: int,
)
    requires
        0 <= i < records.filter(wanted).len(),
    ensures
        exists|k: int|
            0 <= k < records.len() && #[trigger] records[k] == records.filter(wanted)[i] && wanted(
                records[k],
            ),
    decreases records.len(),
{
    reveal(Seq::filter);
    if records.len() > 0 {
        let before = records.drop_last();
        if i < before.filter(wanted).len() {
            lemma_filter_keeps(before, wanted, i);
            let k = choose|k: int|
                0 <= k < before.len() && #[trigger] before[k] == before.filter(wanted)[i] && wanted(
                    before[k],
                );
            assert(records[k] == records.filter(wanted)[i]);
        } else {
            assert(records[records.len() - 1] == records.filter(wanted)[i]);
        }
    }
}

/// Each byte of what a read gives lies where the extent that holds it says: as far behind the
/// extent's first block on the device as it is behind the extent's place in the file. A byte
/// that no extent holds is zero. This holds on a device whose content does not change, of
/// extents no two of which hold the same byte.
pub proof fn law_bytes_lie_where_their_extent_says(
    device: Device,
    content: spec_fn(nat) -> u8,
    block_size: u32,
    file: FileView,
    offset: u64,
    len: nat,
    k: int,
)
    requires
        io::is_steady(device, content),
        is_disjoint(file.extents),
        content_at(device, block_size, file, offset, len) matches Ok(bytes) && 0 <= k
            < bytes.len(),
    ensures
        ({
            let byte = content_at(device, block_size, file, offset, len)->Ok_0[k];
            let pos = offset + k;
            &&& forall|i: int|
                0 <= i < file.extents.len() && (#[trigger] file.extents[i]).logical_addr <= pos
                    < file.extents[i].logical_addr + file.extents[i].length ==> byte == content(
                    (file.extents[i].phys_block_num * block_size + (pos
                        - file.extents[i].logical_addr)) as nat,
                )
            &&& (forall|i: int|
                0 <= i < file.extents.len() ==> !((#[trigger] file.extents[i]).logical_addr <= pos
                    < file.extents[i].logical_addr + file.extents[i].length)) ==> byte == 0
        }),
{
    let pos = offset + k;
    law_read_gives_device_bytes(device, content, block_size, file, offset, len);
    let n = read_len(file.size, offset, len);
    assert(pos < file.size <= u64::MAX);
    assert forall|i: int|
        0 <= i < file.extents.len() && (#[trigger] file.extents[i]).logical_addr <= pos
            < file.extents[i].logical_addr + file.extents[i].length implies content_at(
        device,
        block_size,
        file,
        offset,
        len,
    )->Ok_0[k] == content(
        (file.extents[i].phys_block_num * block_size + (pos - file.extents[i].logical_addr)) as nat,
    ) by {
        assert(file.extents[i].covers(pos));
        assert forall|j: int| 0 <= j < i implies !(#[trigger] file.extents[j]).covers(pos) by {}
        lemma_covering(file.extents, pos, i);
    }
    if forall|i: int|
        0 <= i < file.extents.len() ==> !((#[trigger] file.extents[i]).logical_addr <= pos
            < file.extents[i].logical_addr + file.extents[i].length) {
        assert forall|j: int| 0 <= j < file.extents.len() implies !(
        #[trigger] file.extents[j]).covers(pos) by {}
        lemma_covering(file.extents, pos, file.extents.len() as int);
    }
}

} // verus!
