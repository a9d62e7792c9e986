//! The top-level [`Apfs`] container handle.
//!
//! [`Apfs::new`] performs the APFS mount sequence (block-zero superblock, latest
//! valid checkpoint, container object map) and enumerates the container's
//! volumes. The handle holds parsed metadata only; every read takes a reader.

use vstd::prelude::*;

use crate::checkpoint;
use crate::checkpoint::Checkpoint;
use crate::container;
use crate::container::{NX_MINIMUM_BLOCK_SIZE, NxSuperblock, NxSuperblockView};
use crate::error;
use crate::error::ApfsError;
use crate::io;
use crate::io::{Device, Reader};
use crate::omap;
use crate::omap::{Omap, OmapValue};
use crate::types::{Oid, Xid};
use crate::volume;
use crate::volume::{ApfsSuperblock, ApfsSuperblockView};

verus! {

/// A mounted APFS container.
#[derive(Debug, Clone)]
pub struct Apfs {
    /// The container superblock of the latest valid checkpoint.
    pub superblock: NxSuperblock,
    /// The container object map, used to resolve volume superblocks.
    pub omap: Omap,
}

/// The content of an [`Apfs`].
#[verifier::ext_equal]
pub struct ApfsView {
    /// The container superblock of the latest valid checkpoint.
    pub superblock: NxSuperblockView,
    /// The container object map.
    pub omap: Omap,
}

impl View for Apfs {
    type V = ApfsView;

    open spec fn view(&self) -> ApfsView {
        ApfsView { superblock: self.superblock@, omap: self.omap }
    }
}

/// The container superblock at the start of a device.
///
/// The block size lies well within the smallest block.
pub open spec fn block_zero(device: Device) -> Result<NxSuperblockView, ApfsError> {
    match io::read_at(device, 0, NX_MINIMUM_BLOCK_SIZE as nat) {
        Err(error) => Err(ApfsError::Io(error)),
        Ok(probe) => container::superblock_of(probe),
    }
}

/// The object map in block `addr`.
pub open spec fn omap_at(device: Device, block_size: u32, addr: u64) -> Result<Omap, ApfsError> {
    match checkpoint::block_at(device, block_size, addr) {
        Err(error) => Err(error),
        Ok(block) => omap::omap_of(block),
    }
}

/// The container on a device: the superblock of its latest valid checkpoint,
/// and the object map that this superblock names.
pub open spec fn container_on(device: Device) -> Result<ApfsView, ApfsError> {
    match block_zero(device) {
        Err(error) => Err(error),
        Ok(zero) => match checkpoint::latest_of(device, zero) {
            Err(error) => Err(error),
            Ok(latest) => match omap_at(
                device,
                latest.superblock.block_size,
                latest.superblock.omap_oid.0,
            ) {
                Err(error) => Err(error),
                Ok(omap) => Ok(ApfsView { superblock: latest.superblock, omap }),
            },
        },
    }
}

/// The volume superblock at `index`: the one that the object map gives, as of
/// the checkpoint's transaction, for the volume's object identifier.
pub open spec fn volume_at(device: Device, apfs: ApfsView, index: int) -> Result<
    ApfsSuperblockView,
    ApfsError,
> {
    let sb = apfs.superblock;
    if index >= sb.fs_oids.len() {
        Err(ApfsError::NotFound { what: "volume" })
    } else {
        match omap::mapping_of(
            device,
            sb.block_size,
            apfs.omap.tree_oid,
            sb.fs_oids[index],
            sb.xid,
        ) {
            Err(error) => Err(error),
            Ok(None) => Err(ApfsError::NotFound { what: "volume superblock mapping" }),
            Ok(Some(mapping)) => match mapping.paddr.block() {
                None => error::malformed("omap_val_t", "volume superblock address is negative"),
                Some(addr) => match checkpoint::block_at(device, sb.block_size, addr) {
                    Err(error) => Err(error),
                    Ok(block) => volume::volume_superblock_of(block),
                },
            },
        }
    }
}

/// The first `count` volume superblocks.
pub open spec fn first_volumes(device: Device, apfs: ApfsView, count: nat) -> Result<
    Seq<ApfsSuperblockView>,
    ApfsError,
>
    decreases count,
{
    if count == 0 {
        Ok(Seq::empty())
    } else {
        match first_volumes(device, apfs, (count - 1) as nat) {
            Err(error) => Err(error),
            Ok(before) => match volume_at(device, apfs, count - 1) {
                Err(error) => Err(error),
                Ok(volume) => Ok(before.push(volume)),
            },
        }
    }
}

proof fn lemma_first_volumes_error(
    device: Device,
    apfs: ApfsView,
    some: nat,
    all: nat,
    error: ApfsError,
)
    requires
        some <= all,
        first_volumes(device, apfs, some) == Err::<Seq<ApfsSuperblockView>, ApfsError>(error),
    ensures
        first_volumes(device, apfs, all) == Err::<Seq<ApfsSuperblockView>, ApfsError>(error),
    decreases all,
{
    if some < all {
        lemma_first_volumes_error(device, apfs, some, (all - 1) as nat, error);
    }
}

/// Reads and parses the object map in block `addr`.
pub(crate) fn read_omap<T: Reader>(reader: &mut T, block_size: u32, addr: u64) -> (omap: Result<
    Omap,
    ApfsError,
>)
    ensures
        final(reader).device() == old(reader).device(),
        omap == omap_at(old(reader).device(), block_size, addr),
{
    match checkpoint::read_block(reader, block_size, addr) {
        Ok(block) => Omap::parse(block.as_slice()),
        Err(error) => Err(error),
    }
}

/// Reads and parses the container superblock at the start of a reader.
fn read_block_zero<T: Reader>(reader: &mut T) -> (zero: Result<NxSuperblock, ApfsError>)
    ensures
        final(reader).device() == old(reader).device(),
        error::viewed(zero) == block_zero(old(reader).device()),
{
    match io::read_vec_at(reader, 0, NX_MINIMUM_BLOCK_SIZE as usize) {
        Ok(probe) => NxSuperblock::parse(probe.as_slice()),
        Err(error) => Err(ApfsError::Io(error)),
    }
}

impl Apfs {
    /// Mounts an APFS container from a reader that starts at the container.
    ///
    /// Reads the block-zero superblock to locate the checkpoint ring, selects
    /// the latest valid checkpoint, and parses the container object map.
    pub fn new<T: Reader>(reader: &mut T) -> (mounted: Result<Apfs, ApfsError>)
        ensures
            final(reader).device() == old(reader).device(),
            error::viewed(mounted) == container_on(old(reader).device()),
    {
        let zero: NxSuperblock = match read_block_zero(reader) {
            Ok(zero) => zero,
            Err(error) => return Err(error),
        };
        let latest: Checkpoint = match checkpoint::latest_checkpoint(reader, &zero) {
            Ok(latest) => latest,
            Err(error) => return Err(error),
        };
        let superblock: NxSuperblock = latest.superblock;
        // The container object map is a physical object, read by its address.
        match read_omap(reader, superblock.block_size, superblock.omap_oid.0) {
            Ok(omap) => Ok(Apfs { superblock, omap }),
            Err(error) => Err(error),
        }
    }

    /// The container's block size in bytes.
    #[must_use]
    pub fn block_size(&self) -> (size: u32)
        ensures
            size == self@.superblock.block_size,
    {
        self.superblock.block_size
    }

    /// The total number of blocks in the container.
    #[must_use]
    pub fn block_count(&self) -> (count: u64)
        ensures
            count == self@.superblock.block_count,
    {
        self.superblock.block_count
    }

    /// The container's UUID.
    #[must_use]
    pub fn uuid(&self) -> (uuid: [u8; 16])
        ensures
            uuid@ == self@.superblock.uuid,
    {
        self.superblock.uuid
    }

    /// The number of volumes in the container.
    #[must_use]
    pub fn volume_count(&self) -> (count: usize)
        ensures
            count == self@.superblock.fs_oids.len(),
    {
        self.superblock.fs_oids.len()
    }

    /// The transaction identifier of the mounted checkpoint.
    ///
    /// Volume object maps are read as of this transaction.
    #[must_use]
    pub fn transaction_xid(&self) -> (xid: Xid)
        ensures
            xid == self@.superblock.xid,
    {
        self.superblock.xid
    }

    /// The virtual object identifiers of the container's volumes.
    #[must_use]
    pub fn volume_oids(&self) -> (oids: &[Oid])
        ensures
            oids@ == self@.superblock.fs_oids,
    {
        self.superblock.fs_oids.as_slice()
    }

    /// Reads and parses the volume superblock at `index`.
    ///
    /// The volume's virtual object identifier is resolved through the
    /// container object map as of the checkpoint's transaction.
    pub fn volume<T: Reader>(&self, reader: &mut T, index: usize) -> (volume: Result<
        ApfsSuperblock,
        ApfsError,
    >)
        ensures
            final(reader).device() == old(reader).device(),
            error::viewed(volume) == volume_at(old(reader).device(), self@, index as int),
    {
        if index >= self.superblock.fs_oids.len() {
            return Err(ApfsError::NotFound { what: "volume" });
        }
        let fs_oid: Oid = self.superblock.fs_oids[index];
        let block_size: u32 = self.superblock.block_size;
        let mapping: OmapValue = match self.omap.resolve(
            reader,
            block_size,
            fs_oid,
            self.superblock.xid,
        ) {
            Err(error) => return Err(error),
            Ok(None) => {
                return Err(ApfsError::NotFound { what: "volume superblock mapping" });
            },
            Ok(Some(mapping)) => mapping,
        };
        let addr: u64 = match mapping.paddr.as_block() {
            Some(addr) => addr,
            None => {
                return Err(
                    ApfsError::Malformed {
                        structure: "omap_val_t",
                        reason: "volume superblock address is negative",
                    },
                );
            },
        };
        match checkpoint::read_block(reader, block_size, addr) {
            Ok(block) => ApfsSuperblock::parse(block.as_slice()),
            Err(error) => Err(error),
        }
    }

    /// Reads and parses every volume superblock in the container.
    ///
    /// The first error ends the enumeration.
    pub fn volumes<T: Reader>(&self, reader: &mut T) -> (volumes: Result<
        Vec<ApfsSuperblock>,
        ApfsError,
    >)
        ensures
            final(reader).device() == old(reader).device(),
            error::viewed_all(volumes) == first_volumes(
                old(reader).device(),
                self@,
                self@.superblock.fs_oids.len(),
            ),
    {
        let ghost device = reader.device();
        let count: usize = self.volume_count();
        let mut volumes: Vec<ApfsSuperblock> = Vec::new();
        let mut i: usize = 0;
        proof {
            assert(error::views(volumes@) =~= Seq::<ApfsSuperblockView>::empty());
        }
        while i < count
            invariant
                i <= count == self@.superblock.fs_oids.len(),
                device == old(reader).device(),
                reader.device() == device,
                first_volumes(device, self@, i as nat) == Ok::<Seq<ApfsSuperblockView>, ApfsError>(
                    error::views(volumes@),
                ),
            decreases count - i,
        {
            match self.volume(reader, i) {
                Ok(volume) => {
                    proof {
                        assert(error::views(volumes@.push(volume)) =~= error::views(
                            volumes@,
                        ).push(volume@));
                    }
                    volumes.push(volume);
                },
                Err(error) => {
                    proof {
                        lemma_first_volumes_error(
                            device,
                            self@,
                            (i + 1) as nat,
                            count as nat,
                            error,
                        );
                    }
                    return Err(error);
                },
            }
            i += 1;
        }
        Ok(volumes)
    }
}

/// A container's volumes are listed one for each identifier, in the order of the
/// identifiers, each as it is read on its own.
pub proof fn law_volumes_are_listed_in_order(device: Device, apfs: ApfsView, count: nat)
    ensures
        first_volumes(device, apfs, count) matches Ok(volumes) ==> volumes.len() == count && forall|
            i: int,
        |
            0 <= i < count ==> volume_at(device, apfs, i) == Ok::<ApfsSuperblockView, ApfsError>(
                #[trigger] volumes[i],
            ),
    decreases count,
{
    if count > 0 {
        law_volumes_are_listed_in_order(device, apfs, (count - 1) as nat);
    }
}

/// A container is read as of its newest whole checkpoint, not as of its first block: its
/// superblock is that checkpoint's, and its object map is the one that the superblock
/// names.
pub proof fn law_container_is_as_of_its_checkpoint(device: Device)
    ensures
        container_on(device) matches Ok(found) ==> {
            &&& io::read_at(device, 0, 4096) matches Ok(probe) && (container::superblock_of(
                probe,
            ) matches Ok(zero) && (checkpoint::latest_of(device, zero) matches Ok(latest)
                && found.superblock == latest.superblock))
            &&& checkpoint::block_at(
                device,
                found.superblock.block_size,
                found.superblock.omap_oid.0,
            ) matches Ok(block) && omap::omap_of(block) == Ok::<Omap, ApfsError>(found.omap)
        },
{
}

/// A volume's superblock is read from where the container's object map has the volume's
/// identifier, as of the container's transaction.
pub proof fn law_volume_is_where_the_map_says(device: Device, apfs: ApfsView, index: int)
    requires
        0 <= index,
    ensures
        volume_at(device, apfs, index) is Ok ==> index < apfs.superblock.fs_oids.len(),
        volume_at(device, apfs, index) matches Ok(found) ==> exists|mapping: OmapValue|
            {
                &&& #[trigger] omap::is_as_of(
                    mapping,
                    apfs.superblock.fs_oids[index].0,
                    apfs.superblock.xid.0,
                )
                &&& mapping.paddr.0 >= 0
                &&& checkpoint::block_at(
                    device,
                    apfs.superblock.block_size,
                    mapping.paddr.0 as u64,
                ) matches Ok(block) && volume::volume_superblock_of(block) == Ok::<
                    ApfsSuperblockView,
                    ApfsError,
                >(found)
            },
{
    if let Ok(found) = volume_at(device, apfs, index) {
        let sb = apfs.superblock;
        omap::law_resolved_mapping_is_not_newer(
            device,
            sb.block_size,
            apfs.omap.tree_oid,
            sb.fs_oids[index],
            sb.xid,
        );
        let mapping = omap::mapping_of(
            device,
            sb.block_size,
            apfs.omap.tree_oid,
            sb.fs_oids[index],
            sb.xid,
        )->Ok_0->0;
        assert(omap::is_as_of(mapping, sb.fs_oids[index].0, sb.xid.0));
    }
}

/// A volume past the last one is not found.
pub proof fn law_missing_volume_is_not_found(device: Device, apfs: ApfsView, index: int)
    requires
        index >= apfs.superblock.fs_oids.len(),
    ensures
        volume_at(device, apfs, index) == Err::<ApfsSuperblockView, ApfsError>(
            ApfsError::NotFound { what: "volume" },
        ),
{
}

/// A volume's superblock is found wherever the container's object map has an address for its
/// identifier, and the block there can be read and is a volume superblock.
pub proof fn law_mapped_volume_is_found(
    device: Device,
    apfs: ApfsView,
    index: int,
    mapping: OmapValue,
    block: Seq<u8>,
)
    requires
        0 <= index < apfs.superblock.fs_oids.len(),
        omap::mapping_of(
            device,
            apfs.superblock.block_size,
            apfs.omap.tree_oid,
            apfs.superblock.fs_oids[index],
            apfs.superblock.xid,
        ) == Ok::<Option<OmapValue>, ApfsError>(Some(mapping)),
        mapping.paddr.0 >= 0,
        checkpoint::block_at(
            device,
            apfs.superblock.block_size,
            mapping.paddr.0 as u64,
        ) == Ok::<Seq<u8>, ApfsError>(block),
    ensures
        volume_at(device, apfs, index) == volume::volume_superblock_of(block),
{
}

/// A container is mounted wherever its first block is a container superblock, a checkpoint is
/// whole, and the object map that the checkpoint's superblock names can be read.
pub proof fn law_whole_container_is_mounted(device: Device)
    ensures
        container_on(device) is Ok <==> (io::read_at(device, 0, 4096) matches Ok(probe) && (
        container::superblock_of(probe) matches Ok(zero) && (checkpoint::latest_of(
            device,
            zero,
        ) matches Ok(latest) && omap_at(
            device,
            latest.superblock.block_size,
            latest.superblock.omap_oid.0,
        ) is Ok))),
{
}

} // verus!
