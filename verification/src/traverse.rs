//! Volume traversal: path resolution and directory walking.
//!
//! A [`Volume`] ties a volume superblock to its object map and catalog,
//! exposing absolute-path resolution and a directory tree.

use vstd::prelude::*;
use vstd::string::*;
use vstd::utf8::*;

use crate::apfs;
use crate::apfs::{Apfs, ApfsView};
use crate::bytes;
use crate::catalog;
use crate::catalog::{Catalog, FromRecord, JObjType, RecordView, Selection};
use crate::checkpoint;
use crate::directory;
use crate::directory::{DirEntry, DirEntryType, DirEntryView, Directory, NameComparison};
use crate::error;
use crate::error::ApfsError;
use crate::fext::FextTree;
use crate::inode;
use crate::inode::{Inode, ROOT_DIR_INO_NUM};
use crate::io::{Device, Reader};
use crate::omap;
use crate::omap::{Omap, OmapValue};
use crate::sealed;
use crate::sealed::{IntegrityMeta, IntegrityMetaView, SealReportView, SealVerification};
use crate::snapshot;
use crate::snapshot::{Snapshot, SnapshotView};
use crate::text;
use crate::types::{Oid, Xid};
use crate::unicode;
use crate::volume;
use crate::volume::{ApfsIncompatFeatures, ApfsSuperblock, ApfsSuperblockView};
use crate::xattr;
use crate::xattr::{Xattr, XattrView};

verus! {

/// The extended-attribute name holding a symbolic link's target.
pub const SYMLINK_XATTR_NAME: &'static str = "com.apple.fs.symlink";

/// A mounted APFS volume: the live volume, or a read-only point-in-time
/// snapshot view (see [`Volume::snapshot`]).
#[derive(Debug, Clone)]
pub struct Volume {
    /// The volume's catalog.
    pub catalog: Catalog,
    /// The container's block size.
    pub block_size: u32,
    /// How the volume matches names.
    pub comparison: NameComparison,
    /// The volume's object map, retained to resolve the snapshot-metadata tree
    /// on demand.
    pub omap: Omap,
    /// Object id of the volume's snapshot-metadata tree.
    pub snap_meta_tree_oid: Oid,
    /// Object id of the volume's integrity-metadata object; zero when the
    /// volume is not sealed.
    pub integrity_meta_oid: Oid,
    /// Physical block address of the volume's file-extent tree; zero when the
    /// volume is not sealed. Sealed volumes keep file extents here rather than
    /// as catalog `FILE_EXTENT` records.
    pub fext_tree_oid: Oid,
    /// The transaction the catalog is bound to.
    pub xid: Xid,
    /// The snapshot this view reflects, or `None` for the live volume. A
    /// snapshot view is read-only and carries the snapshot's provenance.
    pub snapshot: Option<Snapshot>,
}

/// The content of a [`Volume`].
#[verifier::ext_equal]
pub struct VolumeView {
    /// The volume's catalog.
    pub catalog: Catalog,
    /// The container's block size.
    pub block_size: u32,
    /// How the volume matches names.
    pub comparison: NameComparison,
    /// The volume's object map.
    pub omap: Omap,
    /// Object id of the volume's snapshot-metadata tree.
    pub snap_meta_tree_oid: Oid,
    /// Object id of the volume's integrity-metadata object.
    pub integrity_meta_oid: Oid,
    /// Physical block address of the volume's file-extent tree.
    pub fext_tree_oid: Oid,
    /// The transaction the catalog is bound to.
    pub xid: Xid,
    /// The snapshot this view reflects, or `None` for the live volume.
    pub snapshot: Option<SnapshotView>,
}

impl View for Volume {
    type V = VolumeView;

    open spec fn view(&self) -> VolumeView {
        VolumeView {
            catalog: self.catalog,
            block_size: self.block_size,
            comparison: self.comparison,
            omap: self.omap,
            snap_meta_tree_oid: self.snap_meta_tree_oid,
            integrity_meta_oid: self.integrity_meta_oid,
            fext_tree_oid: self.fext_tree_oid,
            xid: self.xid,
            snapshot: error::some_view(self.snapshot),
        }
    }
}

/// The name comparison of a volume: keys are hashed where names are insensitive
/// to case or normalization, and case is folded where they are insensitive to
/// it.
pub open spec fn comparison_of(superblock: ApfsSuperblockView) -> NameComparison {
    let features = superblock.incompatible_features;
    NameComparison {
        hashed: features.has(ApfsIncompatFeatures::CASE_INSENSITIVE) || features.has(
            ApfsIncompatFeatures::NORMALIZATION_INSENSITIVE,
        ),
        case_insensitive: features.has(ApfsIncompatFeatures::CASE_INSENSITIVE),
    }
}

/// The volume that a superblock describes, as of a transaction.
pub open spec fn volume_as_of(
    device: Device,
    block_size: u32,
    superblock: ApfsSuperblockView,
    comparison: NameComparison,
    xid: Xid,
    snapshot: Option<SnapshotView>,
) -> Result<VolumeView, ApfsError> {
    match apfs::omap_at(device, block_size, superblock.omap_oid.0) {
        Err(error) => Err(error),
        Ok(omap) => Ok(
            VolumeView {
                catalog: Catalog { root_oid: superblock.root_tree_oid, omap, block_size, xid },
                block_size,
                comparison,
                omap,
                snap_meta_tree_oid: superblock.snap_meta_tree_oid,
                integrity_meta_oid: superblock.integrity_meta_oid,
                fext_tree_oid: superblock.fext_tree_oid,
                xid,
                snapshot,
            },
        ),
    }
}

/// The live volume at `index` of a container.
pub open spec fn opened(device: Device, apfs: ApfsView, index: int) -> Result<
    VolumeView,
    ApfsError,
> {
    match apfs::volume_at(device, apfs, index) {
        Err(error) => Err(error),
        Ok(superblock) => volume_as_of(
            device,
            apfs.superblock.block_size,
            superblock,
            comparison_of(superblock),
            apfs.superblock.xid,
            None,
        ),
    }
}

/// The snapshots of a volume.
pub open spec fn snapshots_of(device: Device, vol: VolumeView) -> Result<
    Seq<SnapshotView>,
    ApfsError,
> {
    catalog::catalog_items::<(), Snapshot>(
        device,
        Catalog {
            root_oid: vol.snap_meta_tree_oid,
            omap: vol.omap,
            block_size: vol.block_size,
            xid: vol.xid,
        },
        Selection::Kind(JObjType::SnapMetadata),
        (),
    )
}

/// The view of a volume as it was at a snapshot: as the snapshot's own
/// superblock describes it, as of the snapshot's transaction.
pub open spec fn snapshot_view(device: Device, vol: VolumeView, snapshot: SnapshotView) -> Result<
    VolumeView,
    ApfsError,
> {
    match checkpoint::block_at(device, vol.block_size, snapshot.sblock_oid) {
        Err(error) => Err(error),
        Ok(block) => match volume::volume_superblock_of(block) {
            Err(error) => Err(error),
            Ok(superblock) => volume_as_of(
                device,
                vol.block_size,
                superblock,
                vol.comparison,
                Xid(snapshot.xid),
                Some(snapshot),
            ),
        },
    }
}

/// The first snapshot with the given name.
pub open spec fn snapshot_named(snapshots: Seq<SnapshotView>, name: Seq<char>) -> Option<
    SnapshotView,
>
    decreases snapshots.len(),
{
    if snapshots.len() == 0 {
        None
    } else if snapshots[0].name == name {
        Some(snapshots[0])
    } else {
        snapshot_named(snapshots.drop_first(), name)
    }
}

/// The view of a volume as it was at the snapshot with the given name.
pub open spec fn snapshot_view_named(device: Device, vol: VolumeView, name: Seq<char>) -> Result<
    VolumeView,
    ApfsError,
> {
    match snapshots_of(device, vol) {
        Err(error) => Err(error),
        Ok(snapshots) => match snapshot_named(snapshots, name) {
            None => Err(ApfsError::NotFound { what: "snapshot" }),
            Some(snapshot) => snapshot_view(device, vol, snapshot),
        },
    }
}

/// The content of a [`SealVerification`].
pub enum SealVerificationView {
    /// The volume is not a sealed volume.
    NotSealed,
    /// The seal is already broken.
    SealBroken,
    /// The volume was verified.
    Verified(SealReportView),
}

impl View for SealVerification {
    type V = SealVerificationView;

    open spec fn view(&self) -> SealVerificationView {
        match *self {
            SealVerification::NotSealed => SealVerificationView::NotSealed,
            SealVerification::SealBroken => SealVerificationView::SealBroken,
            SealVerification::Verified(report) => SealVerificationView::Verified(report@),
        }
    }
}

/// The integrity metadata of a sealed volume.
pub open spec fn integrity_of(device: Device, vol: VolumeView) -> Result<
    IntegrityMetaView,
    ApfsError,
> {
    match omap::mapping_of(
        device,
        vol.block_size,
        vol.omap.tree_oid,
        vol.integrity_meta_oid,
        vol.xid,
    ) {
        Err(error) => Err(error),
        Ok(None) => Err(ApfsError::NotFound { what: "integrity-metadata object" }),
        Ok(Some(mapping)) => match mapping.paddr.block() {
            None => error::malformed(
                "omap_val_t",
                "integrity-metadata address is not a valid block",
            ),
            Some(addr) => match checkpoint::block_at(device, vol.block_size, addr) {
                Err(error) => Err(error),
                Ok(block) => sealed::integrity_of(block),
            },
        },
    }
}

/// The outcome of verifying a volume's seal: a volume without integrity
/// metadata is not sealed, and one whose metadata marks the seal broken is not
/// verified further.
pub open spec fn seal_of(device: Device, vol: VolumeView) -> Result<
    SealVerificationView,
    ApfsError,
> {
    if vol.integrity_meta_oid.0 == 0 {
        Ok(SealVerificationView::NotSealed)
    } else {
        match integrity_of(device, vol) {
            Err(error) => Err(error),
            Ok(integrity) => if sealed::seal_broken(integrity) {
                Ok(SealVerificationView::SealBroken)
            } else {
                match sealed::seal_report(
                    device,
                    vol.catalog,
                    FextTree { root: vol.fext_tree_oid.0 },
                    integrity.hash_type,
                    vol.block_size,
                ) {
                    Err(error) => Err(error),
                    Ok(report) => Ok(SealVerificationView::Verified(report)),
                }
            },
        }
    }
}

/// The number of characters before the first slash.
pub open spec fn component_len(path: Seq<char>) -> nat
    decreases path.len(),
{
    if path.len() == 0 || path[0] == '/' {
        0
    } else {
        1 + component_len(path.drop_first())
    }
}

proof fn lemma_component_len(path: Seq<char>, n: nat)
    requires
        n <= path.len(),
        forall|i: int| 0 <= i < n ==> path[i] != '/',
        n == path.len() || path[n as int] == '/',
    ensures
        component_len(path) == n,
    decreases n,
{
    if n > 0 {
        let rest = path.drop_first();
        assert forall|i: int| 0 <= i < n - 1 implies rest[i] != '/' by {
            assert(rest[i] == path[i + 1]);
        }
        lemma_component_len(rest, (n - 1) as nat);
    }
}

proof fn lemma_component_len_bound(path: Seq<char>)
    ensures
        component_len(path) <= path.len(),
        path.len() > 0 && path[0] != '/' ==> component_len(path) > 0,
    decreases path.len(),
{
    if path.len() > 0 && path[0] != '/' {
        lemma_component_len_bound(path.drop_first());
    }
}

/// The components of a path: what stands between its slashes, except where
/// nothing does.
pub open spec fn components(path: Seq<char>) -> Seq<Seq<char>>
    decreases path.len(),
    via components_decreases
{
    if path.len() == 0 {
        Seq::empty()
    } else if path[0] == '/' {
        components(path.drop_first())
    } else {
        let n = component_len(path) as int;
        seq![path.take(n)] + components(path.skip(n))
    }
}

#[via_fn]
proof fn components_decreases(path: Seq<char>) {
    lemma_component_len_bound(path);
}

/// The entry with the given name in a directory of a volume.
pub open spec fn child_named(device: Device, vol: VolumeView, dir_id: u64, name: Seq<char>) -> Result<
    Option<DirEntryView>,
    ApfsError,
> {
    match directory::directory_entries(device, vol.catalog, dir_id, vol.comparison.hashed) {
        Err(error) => Err(error),
        Ok(entries) => Ok(directory::entry_named(entries, name, vol.comparison)),
    }
}

/// The object that a path leads to from a directory. No symbolic link is
/// followed.
pub open spec fn resolved(device: Device, vol: VolumeView, from: u64, names: Seq<Seq<char>>) -> Result<
    u64,
    ApfsError,
>
    decreases names.len(),
{
    if names.len() == 0 {
        Ok(from)
    } else {
        match child_named(device, vol, from, names[0]) {
            Err(error) => Err(error),
            Ok(None) => Err(ApfsError::NotFound { what: "path component" }),
            Ok(Some(entry)) => resolved(device, vol, entry.file_id, names.drop_first()),
        }
    }
}

/// A path that goes on behind another one leads where its second part leads
/// from the object that its first part leads to.
pub proof fn law_paths_compose(
    device: Device,
    vol: VolumeView,
    from: u64,
    first: Seq<Seq<char>>,
    second: Seq<Seq<char>>,
)
    ensures
        resolved(device, vol, from, first + second) == match resolved(device, vol, from, first) {
            Err(error) => Err(error),
            Ok(middle) => resolved(device, vol, middle, second),
        },
    decreases first.len(),
{
    let both = first + second;
    if first.len() == 0 {
        assert(both =~= second);
    } else {
        assert(both.drop_first() =~= first.drop_first() + second);
        assert(both[0] == first[0]);
        if let Ok(Some(entry)) = child_named(device, vol, from, first[0]) {
            law_paths_compose(device, vol, entry.file_id, first.drop_first(), second);
        }
    }
}

/// Slashes in front of a path do not change its components.
pub proof fn law_leading_slash_is_ignored(path: Seq<char>)
    ensures
        components(seq!['/'] + path) == components(path),
{
    let longer = seq!['/'] + path;
    assert(longer.drop_first() =~= path);
}

/// The first extended attribute that holds a symbolic link's target.
pub open spec fn symlink_in(xattrs: Seq<XattrView>) -> Option<XattrView>
    decreases xattrs.len(),
{
    if xattrs.len() == 0 {
        None
    } else if xattrs[0].name == SYMLINK_XATTR_NAME@ {
        Some(xattrs[0])
    } else {
        symlink_in(xattrs.drop_first())
    }
}

/// The target of a symbolic link.
pub open spec fn symlink_target(device: Device, vol: VolumeView, inode_id: u64) -> Result<
    Seq<char>,
    ApfsError,
> {
    match xattr::xattrs_of(device, vol.catalog, inode_id) {
        Err(error) => Err(error),
        Ok(xattrs) => match symlink_in(xattrs) {
            None => Err(ApfsError::NotFound { what: "symbolic-link target" }),
            Some(found) => match xattr::xattr_data(
                device,
                vol.catalog,
                vol.block_size,
                found.value,
            ) {
                Err(error) => Err(error),
                Ok(raw) => Ok(text::decoded(bytes::before_nul(raw))),
            },
        },
    }
}

/// Finds the first extended attribute that holds a symbolic link's target.
fn find_symlink(xattrs: &Vec<Xattr>) -> (found: Option<&Xattr>)
    ensures
        match found {
            Some(attribute) => symlink_in(error::views(xattrs@)) == Some(attribute@),
            None => symlink_in(error::views(xattrs@)) is None,
        },
{
    let wanted: String = SYMLINK_XATTR_NAME.to_owned();
    let ghost all = error::views(xattrs@);
    let mut i: usize = 0;
    proof {
        assert(all.skip(0) =~= all);
    }
    while i < xattrs.len()
        invariant
            i <= xattrs@.len(),
            all == error::views(xattrs@),
            wanted@ == SYMLINK_XATTR_NAME@,
            symlink_in(all) == symlink_in(all.skip(i as int)),
        decreases xattrs@.len() - i,
    {
        if xattrs[i].name == wanted {
            return Some(&xattrs[i]);
        }
        proof {
            assert(all.skip(i as int).drop_first() =~= all.skip(i + 1));
        }
        i += 1;
    }
    None
}

/// Finds the first snapshot with the given name.
fn find_snapshot(snapshots: &Vec<Snapshot>, name: &str) -> (found: Option<Snapshot>)
    ensures
        error::some_view(found) == snapshot_named(error::views(snapshots@), name@),
{
    let wanted: String = name.to_owned();
    let ghost all = error::views(snapshots@);
    let mut i: usize = 0;
    proof {
        assert(all.skip(0) =~= all);
    }
    while i < snapshots.len()
        invariant
            i <= snapshots@.len(),
            all == error::views(snapshots@),
            wanted@ == name@,
            snapshot_named(all, name@) == snapshot_named(all.skip(i as int), name@),
        decreases snapshots@.len() - i,
    {
        if snapshots[i].name == wanted {
            return Some(snapshots[i].clone());
        }
        proof {
            assert(all.skip(i as int).drop_first() =~= all.skip(i + 1));
        }
        i += 1;
    }
    None
}

/// The end of the component that starts at `start`.
fn component_end(path: &str, start: usize, len: usize) -> (end: usize)
    requires
        start <= len == path@.len(),
    ensures
        start <= end <= len,
        end == start + component_len(path@.skip(start as int)),
{
    let mut end: usize = start;
    while end < len && path.get_char(end) != '/'
        invariant
            start <= end <= len == path@.len(),
            forall|i: int| start <= i < end ==> path@[i] != '/',
        decreases len - end,
    {
        end += 1;
    }
    proof {
        let rest = path@.skip(start as int);
        assert forall|i: int| 0 <= i < end - start implies rest[i] != '/' by {
            assert(rest[i] == path@[start + i]);
        }
        lemma_component_len(rest, (end - start) as nat);
    }
    end
}

impl Volume {
    /// Opens volume `index` of a mounted container.
    ///
    /// Reads the volume superblock and its (physical) object map, and builds
    /// the catalog handle for the volume's file-system tree.
    pub fn open<T: Reader>(apfs: &Apfs, reader: &mut T, index: usize) -> (volume: Result<
        Volume,
        ApfsError,
    >)
        ensures
            final(reader).device() == old(reader).device(),
            error::viewed(volume) == opened(old(reader).device(), apfs@, index as int),
    {
        let superblock: ApfsSuperblock = match apfs.volume(reader, index) {
            Ok(superblock) => superblock,
            Err(error) => return Err(error),
        };
        let comparison: NameComparison = NameComparison {
            hashed: superblock.is_case_insensitive() || superblock.is_normalization_insensitive(),
            case_insensitive: superblock.is_case_insensitive(),
        };
        Volume::from_superblock(
            reader,
            apfs.block_size(),
            &superblock,
            comparison,
            apfs.transaction_xid(),
            None,
        )
    }

    /// Builds the volume that a superblock describes, as of a transaction.
    fn from_superblock<T: Reader>(
        reader: &mut T,
        block_size: u32,
        superblock: &ApfsSuperblock,
        comparison: NameComparison,
        xid: Xid,
        snapshot: Option<Snapshot>,
    ) -> (volume: Result<Volume, ApfsError>)
        ensures
            final(reader).device() == old(reader).device(),
            error::viewed(volume) == volume_as_of(
                old(reader).device(),
                block_size,
                superblock@,
                comparison,
                xid,
                error::some_view(snapshot),
            ),
    {
        match apfs::read_omap(reader, block_size, superblock.omap_oid.0) {
            Ok(omap) => Ok(
                Volume {
                    catalog: Catalog::new(superblock.root_tree_oid, omap, block_size, xid),
                    block_size,
                    comparison,
                    omap,
                    snap_meta_tree_oid: superblock.snap_meta_tree_oid,
                    integrity_meta_oid: superblock.integrity_meta_oid,
                    fext_tree_oid: superblock.fext_tree_oid,
                    xid,
                    snapshot,
                },
            ),
            Err(error) => Err(error),
        }
    }

    /// The snapshot this view reflects, or `None` for the live volume.
    ///
    /// A snapshot view is a read-only point-in-time copy; the returned
    /// [`Snapshot`] carries its name, transaction id, and timestamps.
    #[must_use]
    pub fn snapshot(&self) -> (snapshot: Option<&Snapshot>)
        ensures
            match snapshot {
                Some(found) => self@.snapshot == Some(found@),
                None => self@.snapshot is None,
            },
    {
        match &self.snapshot {
            Some(snapshot) => Some(snapshot),
            None => None,
        }
    }

    /// Whether this handle is a snapshot view rather than the live volume.
    #[must_use]
    pub fn is_snapshot(&self) -> (snapshot: bool)
        ensures
            snapshot == self@.snapshot is Some,
    {
        self.snapshot.is_some()
    }

    /// Enumerates the volume's snapshots, newest records last.
    ///
    /// The list is empty when the volume has no snapshots.
    pub fn snapshots<T: Reader>(&self, reader: &mut T) -> (snapshots: Result<
        Vec<Snapshot>,
        ApfsError,
    >)
        ensures
            final(reader).device() == old(reader).device(),
            error::viewed_all(snapshots) == snapshots_of(old(reader).device(), self@),
    {
        let tree: Catalog = Catalog::new(
            self.snap_meta_tree_oid,
            self.omap,
            self.block_size,
            self.xid,
        );
        Snapshot::list(&tree, reader)
    }

    /// Opens `snapshot` as a read-only point-in-time [`Volume`] view.
    ///
    /// The snapshot's volume superblock locates its own object map and root
    /// file-system tree; the catalog is bound to the snapshot's transaction
    /// id, so catalog, extent, and metadata lookups resolve the snapshot
    /// state, including files since deleted from the live volume.
    pub fn open_snapshot<T: Reader>(&self, reader: &mut T, snapshot: &Snapshot) -> (volume: Result<
        Volume,
        ApfsError,
    >)
        ensures
            final(reader).device() == old(reader).device(),
            error::viewed(volume) == snapshot_view(old(reader).device(), self@, snapshot@),
    {
        let block: Vec<u8> = match checkpoint::read_block(
            reader,
            self.block_size,
            snapshot.sblock_oid,
        ) {
            Ok(block) => block,
            Err(error) => return Err(error),
        };
        let superblock: ApfsSuperblock = match ApfsSuperblock::parse(block.as_slice()) {
            Ok(superblock) => superblock,
            Err(error) => return Err(error),
        };
        Volume::from_superblock(
            reader,
            self.block_size,
            &superblock,
            self.comparison,
            Xid(snapshot.xid),
            Some(snapshot.clone()),
        )
    }

    /// Opens the snapshot named `name` as a read-only [`Volume`] view.
    pub fn open_snapshot_by_name<T: Reader>(&self, reader: &mut T, name: &str) -> (volume: Result<
        Volume,
        ApfsError,
    >)
        ensures
            final(reader).device() == old(reader).device(),
            error::viewed(volume) == snapshot_view_named(old(reader).device(), self@, name@),
    {
        let snapshots: Vec<Snapshot> = match self.snapshots(reader) {
            Ok(snapshots) => snapshots,
            Err(error) => return Err(error),
        };
        match find_snapshot(&snapshots, name) {
            Some(snapshot) => self.open_snapshot(reader, &snapshot),
            None => Err(ApfsError::NotFound { what: "snapshot" }),
        }
    }

    /// Reads the volume's integrity metadata.
    fn read_integrity<T: Reader>(&self, reader: &mut T) -> (integrity: Result<
        IntegrityMeta,
        ApfsError,
    >)
        ensures
            final(reader).device() == old(reader).device(),
            error::viewed(integrity) == integrity_of(old(reader).device(), self@),
    {
        let addr: u64 = match self.omap.resolve(
            reader,
            self.block_size,
            self.integrity_meta_oid,
            self.xid,
        ) {
            Err(error) => return Err(error),
            Ok(None) => {
                return Err(ApfsError::NotFound { what: "integrity-metadata object" });
            },
            Ok(Some(mapping)) => match mapping.paddr.as_block() {
                Some(addr) => addr,
                None => {
                    return Err(
                        ApfsError::Malformed {
                            structure: "omap_val_t",
                            reason: "integrity-metadata address is not a valid block",
                        },
                    );
                },
            },
        };
        match checkpoint::read_block(reader, self.block_size, addr) {
            Ok(block) => IntegrityMeta::parse(block.as_slice()),
            Err(error) => Err(error),
        }
    }

    /// Verifies the volume's seal end to end.
    ///
    /// A volume with no integrity-metadata object is reported
    /// [`SealVerification::NotSealed`] without error. Otherwise the integrity
    /// metadata is read; an already-broken seal is reported
    /// [`SealVerification::SealBroken`]. A live sealed volume has every
    /// file-data hash checked, and the [`SealVerification::Verified`] report
    /// lists any mismatches.
    pub fn verify_seal<T: Reader>(&self, reader: &mut T) -> (verified: Result<
        SealVerification,
        ApfsError,
    >)
        ensures
            final(reader).device() == old(reader).device(),
            error::viewed(verified) == seal_of(old(reader).device(), self@),
    {
        if self.integrity_meta_oid.0 == 0 {
            return Ok(SealVerification::NotSealed);
        }
        let integrity: IntegrityMeta = match self.read_integrity(reader) {
            Ok(integrity) => integrity,
            Err(error) => return Err(error),
        };
        if integrity.is_seal_broken() {
            return Ok(SealVerification::SealBroken);
        }
        // A sealed volume keeps file extents in the file-extent tree, not as
        // catalog records; the verifier reads through it.
        let fext: FextTree = FextTree::new(self.fext_tree_oid.0);
        match sealed::verify_file_hashes(
            &self.catalog,
            &fext,
            reader,
            &integrity,
            self.block_size,
        ) {
            Ok(report) => Ok(SealVerification::Verified(report)),
            Err(error) => Err(error),
        }
    }

    /// The volume's catalog handle.
    #[must_use]
    pub fn catalog(&self) -> (catalog: &Catalog)
        ensures
            *catalog == self@.catalog,
    {
        &self.catalog
    }

    /// The volume's directory-name comparison mode.
    #[must_use]
    pub fn name_comparison(&self) -> (comparison: NameComparison)
        ensures
            comparison == self@.comparison,
    {
        self.comparison
    }

    /// Reads the inode of `obj_id`.
    ///
    /// There is none when the object has no inode record.
    pub fn inode<T: Reader>(&self, reader: &mut T, obj_id: u64) -> (found: Result<
        Option<Inode>,
        ApfsError,
    >)
        ensures
            final(reader).device() == old(reader).device(),
            error::viewed_option(found) == inode::inode_in(
                old(reader).device(),
                self@.catalog,
                obj_id,
            ),
    {
        Inode::lookup(&self.catalog, reader, obj_id)
    }

    /// Looks up one path component in a directory.
    fn step<T: Reader>(&self, reader: &mut T, dir_id: u64, name: &str) -> (next: Result<
        u64,
        ApfsError,
    >)
        ensures
            final(reader).device() == old(reader).device(),
            next == match child_named(old(reader).device(), self@, dir_id, name@) {
                Err(error) => Err(error),
                Ok(None) => Err(ApfsError::NotFound { what: "path component" }),
                Ok(Some(entry)) => Ok(entry.file_id),
            },
    {
        let dir: Directory<'_> = Directory::new(&self.catalog, dir_id, self.comparison);
        match dir.lookup(reader, name) {
            Err(error) => Err(error),
            Ok(None) => Err(ApfsError::NotFound { what: "path component" }),
            Ok(Some(entry)) => Ok(entry.file_id),
        }
    }

    /// Resolves an absolute path to its object identifier.
    ///
    /// Each component is resolved by a directory lookup. A symbolic link
    /// encountered mid-path is **not** followed (the link's own object id is
    /// returned for that component), so resolution cannot loop.
    pub fn resolve_path<T: Reader>(&self, reader: &mut T, path: &str) -> (found: Result<
        u64,
        ApfsError,
    >)
        ensures
            final(reader).device() == old(reader).device(),
            found == resolved(
                old(reader).device(),
                self@,
                ROOT_DIR_INO_NUM,
                components(path@),
            ),
    {
        let ghost device = reader.device();
        let ghost goal = resolved(device, self@, ROOT_DIR_INO_NUM, components(path@));
        let len: usize = path.unicode_len();
        let mut current: u64 = ROOT_DIR_INO_NUM;
        let mut at: usize = 0;
        proof {
            assert(path@.skip(0) =~= path@);
        }
        while at < len
            invariant
                at <= len == path@.len(),
                device == old(reader).device(),
                reader.device() == device,
                goal == resolved(device, self@, ROOT_DIR_INO_NUM, components(path@)),
                goal == resolved(device, self@, current, components(path@.skip(at as int))),
            decreases len - at,
        {
            let ghost rest = path@.skip(at as int);
            if path.get_char(at) == '/' {
                proof {
                    assert(rest.drop_first() =~= path@.skip(at + 1));
                }
                at += 1;
            } else {
                let end: usize = component_end(path, at, len);
                let component: &str = path.substring_char(at, end);
                proof {
                    lemma_component_len_bound(rest);
                    let names = components(rest);
                    let n = component_len(rest) as int;
                    assert(rest.take(n) =~= component@);
                    assert(rest.skip(n) =~= path@.skip(end as int));
                    assert(names =~= seq![component@] + components(path@.skip(end as int)));
                    assert(names.drop_first() =~= components(path@.skip(end as int)));
                }
                current = match self.step(reader, current, component) {
                    Ok(next) => next,
                    Err(error) => return Err(error),
                };
                at = end;
            }
        }
        proof {
            assert(path@.skip(at as int) =~= Seq::<char>::empty());
        }
        Ok(current)
    }

    /// Reads a symbolic link's target path.
    ///
    /// APFS stores the target in the `com.apple.fs.symlink` extended
    /// attribute.
    pub fn read_symlink<T: Reader>(&self, reader: &mut T, inode_id: u64) -> (target: Result<
        String,
        ApfsError,
    >)
        ensures
            final(reader).device() == old(reader).device(),
            error::viewed(target) == symlink_target(old(reader).device(), self@, inode_id),
    {
        let xattrs: Vec<Xattr> = match Xattr::list(&self.catalog, reader, inode_id) {
            Ok(xattrs) => xattrs,
            Err(error) => return Err(error),
        };
        match find_symlink(&xattrs) {
            None => Err(ApfsError::NotFound { what: "symbolic-link target" }),
            Some(found) => match found.read(&self.catalog, reader, self.block_size) {
                Ok(raw) => Ok(text::decode(bytes::until_nul(raw.as_slice()))),
                Err(error) => Err(error),
            },
        }
    }

    /// Lists the entries of the directory with object identifier `dir_id`.
    pub fn read_dir<T: Reader>(&self, reader: &mut T, dir_id: u64) -> (entries: Result<
        Vec<DirEntry>,
        ApfsError,
    >)
        ensures
            final(reader).device() == old(reader).device(),
            error::viewed_all(entries) == directory::directory_entries(
                old(reader).device(),
                self@.catalog,
                dir_id,
                self@.comparison.hashed,
            ),
    {
        let dir: Directory<'_> = Directory::new(&self.catalog, dir_id, self.comparison);
        dir.entries(reader)
    }

    /// Returns the volume's root directory as a traversal handle.
    #[must_use]
    pub fn root(&self) -> (dir: ApfsDir)
        ensures
            dir == (ApfsDir {
                catalog: self@.catalog,
                dir_id: ROOT_DIR_INO_NUM,
                comparison: self@.comparison,
            }),
    {
        ApfsDir {
            catalog: self.catalog,
            dir_id: ROOT_DIR_INO_NUM,
            comparison: self.comparison,
        }
    }
}

/// The kind of a directory entry, whatever the file system.
#[derive(Debug, Clone, Copy, PartialEq, Eq, Structural)]
pub enum EntryKind {
    /// A regular file.
    File,
    /// A directory.
    Directory,
    /// A symbolic link.
    Symlink,
    /// A named pipe (FIFO).
    Fifo,
    /// A character device.
    CharDevice,
    /// A block device.
    BlockDevice,
    /// A socket.
    Socket,
    /// Anything else.
    Other,
}

/// The kind of an entry with the given type.
pub open spec fn kind_of(file_type: DirEntryType) -> EntryKind {
    match file_type {
        DirEntryType::Directory => EntryKind::Directory,
        DirEntryType::Regular => EntryKind::File,
        DirEntryType::Symlink => EntryKind::Symlink,
        DirEntryType::Fifo => EntryKind::Fifo,
        DirEntryType::CharDevice => EntryKind::CharDevice,
        DirEntryType::BlockDevice => EntryKind::BlockDevice,
        DirEntryType::Socket => EntryKind::Socket,
        DirEntryType::Unknown => EntryKind::Other,
        DirEntryType::Whiteout => EntryKind::Other,
        DirEntryType::Other(_) => EntryKind::Other,
    }
}

/// Maps an APFS directory-entry type to a filesystem-agnostic [`EntryKind`].
#[must_use]
pub fn entry_kind(file_type: DirEntryType) -> (kind: EntryKind)
    ensures
        kind == kind_of(file_type),
{
    match file_type {
        DirEntryType::Directory => EntryKind::Directory,
        DirEntryType::Regular => EntryKind::File,
        DirEntryType::Symlink => EntryKind::Symlink,
        DirEntryType::Fifo => EntryKind::Fifo,
        DirEntryType::CharDevice => EntryKind::CharDevice,
        DirEntryType::BlockDevice => EntryKind::BlockDevice,
        DirEntryType::Socket => EntryKind::Socket,
        DirEntryType::Unknown => EntryKind::Other,
        DirEntryType::Whiteout => EntryKind::Other,
        DirEntryType::Other(_) => EntryKind::Other,
    }
}

/// An APFS directory as a traversal handle.
#[derive(Debug, Clone, Copy, PartialEq, Eq, Structural)]
pub struct ApfsDir {
    /// The volume's catalog.
    pub catalog: Catalog,
    /// The object identifier of the directory inode.
    pub dir_id: u64,
    /// How the volume matches names.
    pub comparison: NameComparison,
}

/// One entry of an [`ApfsDir`], as a traversal entry.
#[derive(Debug)]
pub struct ApfsTraversalEntry {
    /// The volume's catalog.
    pub catalog: Catalog,
    /// How the volume matches names.
    pub comparison: NameComparison,
    /// The directory entry.
    pub entry: DirEntry,
}

/// The content of an [`ApfsTraversalEntry`].
#[verifier::ext_equal]
pub struct TraversalEntryView {
    /// The volume's catalog.
    pub catalog: Catalog,
    /// How the volume matches names.
    pub comparison: NameComparison,
    /// The directory entry.
    pub entry: DirEntryView,
}

impl View for ApfsTraversalEntry {
    type V = TraversalEntryView;

    open spec fn view(&self) -> TraversalEntryView {
        TraversalEntryView {
            catalog: self.catalog,
            comparison: self.comparison,
            entry: self.entry@,
        }
    }
}

impl Clone for ApfsTraversalEntry {
    fn clone(&self) -> (copy: ApfsTraversalEntry)
        ensures
            copy@ == self@,
    {
        ApfsTraversalEntry {
            catalog: self.catalog,
            comparison: self.comparison,
            entry: self.entry.clone(),
        }
    }
}

impl ApfsTraversalEntry {
    /// The kind of the entry.
    #[must_use]
    pub fn kind(&self) -> (kind: EntryKind)
        ensures
            kind == kind_of(self@.entry.file_type),
    {
        entry_kind(self.entry.file_type)
    }

    /// The entry's name as UTF-8 bytes.
    #[must_use]
    pub fn name_bytes(&self) -> (name: &[u8])
        ensures
            name@ == vstd::utf8::encode_utf8(self@.entry.name),
    {
        self.entry.name.as_str().as_bytes()
    }

    /// The object identifier of the entry.
    #[must_use]
    pub fn id(&self) -> (id: u64)
        ensures
            id == self@.entry.file_id,
    {
        self.entry.file_id
    }

    /// The directory that the entry names, if it names one.
    #[must_use]
    pub fn open_dir(&self) -> (dir: Option<ApfsDir>)
        ensures
            dir == if self@.entry.file_type == DirEntryType::Directory {
                Some(
                    ApfsDir {
                        catalog: self@.catalog,
                        dir_id: self@.entry.file_id,
                        comparison: self@.comparison,
                    },
                )
            } else {
                None
            },
    {
        if self.entry.file_type == DirEntryType::Directory {
            Some(
                ApfsDir {
                    catalog: self.catalog,
                    dir_id: self.entry.file_id,
                    comparison: self.comparison,
                },
            )
        } else {
            None
        }
    }
}

/// An iterator over an [`ApfsDir`]'s entries.
pub struct ApfsEntryIter {
    items: Vec<ApfsTraversalEntry>,
    index: usize,
}

impl ApfsEntryIter {
    /// Every entry that the iterator was made with.
    pub closed spec fn all(&self) -> Seq<TraversalEntryView> {
        error::views(self.items@)
    }

    /// How many entries the iterator has given.
    pub closed spec fn given(&self) -> nat {
        self.index as nat
    }

    /// The next entry, if there is one.
    pub fn try_next(&mut self) -> (next: Option<ApfsTraversalEntry>)
        ensures
            final(self).all() == old(self).all(),
            match next {
                Some(item) => {
                    &&& old(self).given() < old(self).all().len()
                    &&& item@ == old(self).all()[old(self).given() as int]
                    &&& final(self).given() == old(self).given() + 1
                },
                None => {
                    &&& old(self).given() >= old(self).all().len()
                    &&& final(self).given() == old(self).given()
                },
            },
    {
        if self.index >= self.items.len() {
            return None;
        }
        let item: ApfsTraversalEntry = self.items[self.index].clone();
        self.index = self.index + 1;
        Some(item)
    }
}

/// The entries of a directory as traversal entries.
pub open spec fn traversal_entries(dir: ApfsDir, entries: Seq<DirEntryView>) -> Seq<
    TraversalEntryView,
> {
    entries.map_values(
        |entry: DirEntryView|
            TraversalEntryView { catalog: dir.catalog, comparison: dir.comparison, entry },
    )
}

impl ApfsDir {
    /// The directory's object identifier.
    #[must_use]
    pub fn id(&self) -> (id: u64)
        ensures
            id == self.dir_id,
    {
        self.dir_id
    }

    /// The directory's entries.
    pub fn entries<T: Reader>(&self, reader: &mut T) -> (entries: Result<ApfsEntryIter, ApfsError>)
        ensures
            final(reader).device() == old(reader).device(),
            match directory::directory_entries(
                old(reader).device(),
                self.catalog,
                self.dir_id,
                self.comparison.hashed,
            ) {
                Ok(found) => entries matches Ok(iter) && iter.all() == traversal_entries(
                    *self,
                    found,
                ) && iter.given() == 0,
                Err(error) => entries matches Err(reported) && reported == error,
            },
    {
        let dir: Directory<'_> = Directory::new(&self.catalog, self.dir_id, self.comparison);
        let found: Vec<DirEntry> = match dir.entries(reader) {
            Ok(found) => found,
            Err(error) => return Err(error),
        };
        let mut items: Vec<ApfsTraversalEntry> = Vec::new();
        let mut i: usize = 0;
        while i < found.len()
            invariant
                i <= found@.len(),
                error::views(items@) =~= traversal_entries(
                    *self,
                    error::views(found@).take(i as int),
                ),
            decreases found@.len() - i,
        {
            let item: ApfsTraversalEntry = ApfsTraversalEntry {
                catalog: self.catalog,
                comparison: self.comparison,
                entry: found[i].clone(),
            };
            proof {
                let all = error::views(found@);
                assert(error::views(items@.push(item)) =~= error::views(items@).push(item@));
                assert(traversal_entries(*self, all.take(i + 1)) =~= traversal_entries(
                    *self,
                    all.take(i as int),
                ).push(item@));
            }
            items.push(item);
            i += 1;
        }
        proof {
            assert(error::views(found@).take(i as int) =~= error::views(found@));
        }
        Ok(ApfsEntryIter { items, index: 0 })
    }
}

/// A volume opened at a snapshot is bound to the snapshot's transaction, itself and in
/// its catalog, whatever transaction the live volume is bound to; it is marked with the
/// snapshot, and reads blocks and names as the live volume does. Every object that it
/// resolves, catalog nodes among them, has a mapping not newer than the snapshot.
pub proof fn law_snapshot_view_is_as_of_the_snapshot(
    device: Device,
    vol: VolumeView,
    snapshot: SnapshotView,
    oid: u64,
)
    ensures
        snapshot_view(device, vol, snapshot) matches Ok(view) ==> {
            &&& view.xid.0 == snapshot.xid
            &&& view.catalog.xid.0 == snapshot.xid
            &&& view.snapshot == Some(snapshot)
            &&& view.block_size == vol.block_size
            &&& view.catalog.block_size == vol.block_size
            &&& view.catalog.omap == view.omap
            &&& view.comparison == vol.comparison
            &&& omap::mapping_of(
                device,
                view.block_size,
                view.omap.tree_oid,
                Oid(oid),
                view.xid,
            ) matches Ok(Some(mapping)) ==> omap::is_as_of(mapping, oid, snapshot.xid)
            &&& catalog::catalog_node(device, view.catalog, oid) matches Ok(node) ==> exists|
                mapping: OmapValue,
            | #[trigger]
                omap::is_as_of(mapping, oid, snapshot.xid) && mapping.paddr.0 >= 0
                    && checkpoint::node_at(device, vol.block_size, mapping.paddr.0 as u64) == Ok::<
                    Seq<u8>,
                    ApfsError,
                >(node)
        },
{
    if let Ok(view) = snapshot_view(device, vol, snapshot) {
        omap::law_resolved_mapping_is_not_newer(
            device,
            view.block_size,
            view.omap.tree_oid,
            Oid(oid),
            view.xid,
        );
        if let Ok(node) = catalog::catalog_node(device, view.catalog, oid) {
            let mapping = omap::mapping_of(
                device,
                view.block_size,
                view.omap.tree_oid,
                Oid(oid),
                view.xid,
            )->Ok_0->0;
            assert(omap::is_as_of(mapping, oid, snapshot.xid));
        }
    }
}

/// What a snapshot shows does not depend on the live volume that it is opened from,
/// beyond how the volume reads blocks and names.
pub proof fn law_snapshot_view_ignores_the_live_volume(
    device: Device,
    left: VolumeView,
    right: VolumeView,
    snapshot: SnapshotView,
)
    requires
        left.block_size == right.block_size,
        left.comparison == right.comparison,
    ensures
        snapshot_view(device, left, snapshot) == snapshot_view(device, right, snapshot),
{
}

/// A snapshot opened by name is the first of the volume's snapshots with that name, and
/// the name is not found exactly where no snapshot has it.
pub proof fn law_snapshot_is_found_by_its_name(
    device: Device,
    vol: VolumeView,
    name: Seq<char>,
    snapshots: Seq<SnapshotView>,
)
    requires
        snapshots_of(device, vol) == Ok::<Seq<SnapshotView>, ApfsError>(snapshots),
    ensures
        forall|i: int|
            0 <= i < snapshots.len() && (#[trigger] snapshots[i]).name == name && (forall|j: int|
                0 <= j < i ==> (#[trigger] snapshots[j]).name != name) ==> snapshot_view_named(
                device,
                vol,
                name,
            ) == snapshot_view(device, vol, snapshots[i]),
        (forall|i: int| 0 <= i < snapshots.len() ==> (#[trigger] snapshots[i]).name != name)
            ==> snapshot_view_named(device, vol, name) == Err::<VolumeView, ApfsError>(
            ApfsError::NotFound { what: "snapshot" },
        ),
{
    lemma_snapshot_named(snapshots, name);
}

proof fn lemma_snapshot_named(snapshots: Seq<SnapshotView>, name: Seq<char>)
    ensures
        forall|i: int|
            0 <= i < snapshots.len() && (#[trigger] snapshots[i]).name == name && (forall|j: int|
                0 <= j < i ==> (#[trigger] snapshots[j]).name != name) ==> snapshot_named(
                snapshots,
                name,
            ) == Some(snapshots[i]),
        (forall|i: int| 0 <= i < snapshots.len() ==> (#[trigger] snapshots[i]).name != name)
            ==> snapshot_named(snapshots, name) is None,
    decreases snapshots.len(),
{
    if snapshots.len() > 0 {
        let rest = snapshots.drop_first();
        lemma_snapshot_named(rest, name);
        if snapshots[0].name != name {
            assert forall|i: int|
                0 <= i < snapshots.len() && (#[trigger] snapshots[i]).name == name && (forall|
                    j: int,
                |
                    0 <= j < i ==> (#[trigger] snapshots[j]).name != name) implies snapshot_named(
                snapshots,
                name,
            ) == Some(snapshots[i]) by {
                assert(rest[i - 1] == snapshots[i]);
                assert forall|j: int| 0 <= j < i - 1 implies (#[trigger] rest[j]).name != name by {
                    assert(rest[j] == snapshots[j + 1]);
                }
            }
            if forall|i: int| 0 <= i < snapshots.len() ==> (#[trigger] snapshots[i]).name != name {
                assert forall|i: int| 0 <= i < rest.len() implies (#[trigger] rest[i]).name
                    != name by {
                    assert(rest[i] == snapshots[i + 1]);
                }
            }
        }
    }
}

/// A volume whose superblock has the lowest bit of byte 56 set, or the fourth lowest,
/// keeps hashed directory keys, and one with neither keeps plain ones; names are matched
/// without regard to case exactly with the lowest.
pub proof fn law_names_are_compared_by_the_feature_bits(block: Seq<u8>)
    ensures
        volume::volume_superblock_of(block) matches Ok(superblock) ==> {
            let comparison = comparison_of(superblock);
            &&& comparison.hashed <==> block[56] % 2 == 1 || block[56] / 8 % 2 == 1
            &&& comparison.case_insensitive <==> block[56] % 2 == 1
        },
{
    if let Ok(superblock) = volume::volume_superblock_of(block) {
        assert(superblock.incompatible_features.0 == bytes::le_u64(block, 56));
        bytes::lemma_low_bits_of_word(block, 56);
    }
}

/// Whether a volume is the one that the superblock in `block` describes: its object map,
/// its trees and its integrity metadata are those at the identifiers which the block
/// holds from byte 128 and from byte 1024 on.
pub open spec fn is_described_by(device: Device, vol: VolumeView, block: Seq<u8>) -> bool {
    &&& volume::volume_superblock_of(block) is Ok
    &&& apfs::omap_at(device, vol.block_size, bytes::le_u64(block, 128)) == Ok::<Omap, ApfsError>(
        vol.omap,
    )
    &&& vol.catalog.omap == vol.omap
    &&& vol.catalog.block_size == vol.block_size
    &&& vol.catalog.xid == vol.xid
    &&& vol.catalog.root_oid.0 == bytes::le_u64(block, 136)
    &&& vol.snap_meta_tree_oid.0 == bytes::le_u64(block, 152)
    &&& vol.integrity_meta_oid.0 == bytes::le_u64(block, 1024)
    &&& vol.fext_tree_oid.0 == bytes::le_u64(block, 1032)
}

/// A live volume is bound to the container's transaction and is no snapshot. The block
/// that describes it is where the container's object map has the volume's identifier as
/// of that transaction, and the feature bits of that block say how it compares names.
pub proof fn law_opened_volume_is_the_stored_one(device: Device, apfs: ApfsView, index: int)
    requires
        0 <= index,
    ensures
        opened(device, apfs, index) matches Ok(vol) ==> {
            let container = apfs.superblock;
            &&& index < container.fs_oids.len()
            &&& vol.xid == container.xid
            &&& vol.block_size == container.block_size
            &&& vol.snapshot is None
            &&& exists|mapping: OmapValue, block: Seq<u8>|
                {
                    &&& #[trigger] omap::is_as_of(
                        mapping,
                        container.fs_oids[index].0,
                        container.xid.0,
                    )
                    &&& mapping.paddr.0 >= 0
                    &&& checkpoint::block_at(
                        device,
                        container.block_size,
                        mapping.paddr.0 as u64,
                    ) == Ok::<Seq<u8>, ApfsError>(block)
                    &&& #[trigger] is_described_by(device, vol, block)
                    &&& vol.comparison.hashed <==> block[56] % 2 == 1 || block[56] / 8 % 2 == 1
                    &&& vol.comparison.case_insensitive <==> block[56] % 2 == 1
                }
        },
{
    if let Ok(vol) = opened(device, apfs, index) {
        let container = apfs.superblock;
        let oid = container.fs_oids[index];
        omap::law_resolved_mapping_is_not_newer(
            device,
            container.block_size,
            apfs.omap.tree_oid,
            oid,
            container.xid,
        );
        let mapping = omap::mapping_of(
            device,
            container.block_size,
            apfs.omap.tree_oid,
            oid,
            container.xid,
        )->Ok_0->0;
        let block = checkpoint::block_at(
            device,
            container.block_size,
            mapping.paddr.0 as u64,
        )->Ok_0;
        law_names_are_compared_by_the_feature_bits(block);
        assert(omap::is_as_of(mapping, oid.0, container.xid.0));
        assert(is_described_by(device, vol, block));
    }
}

/// A snapshot's volume is the one that the superblock at the snapshot's own address
/// describes.
pub proof fn law_snapshot_view_is_the_stored_one(
    device: Device,
    vol: VolumeView,
    snapshot: SnapshotView,
)
    ensures
        snapshot_view(device, vol, snapshot) matches Ok(view) ==> {
            &&& checkpoint::block_at(device, vol.block_size, snapshot.sblock_oid) is Ok
            &&& is_described_by(
                device,
                view,
                checkpoint::block_at(device, vol.block_size, snapshot.sblock_oid)->Ok_0,
            )
        },
{
}

/// On a volume whose features make names case-insensitive, an entry that is stored under
/// a hashed key, its name in UTF-8 with a zero after it from byte 12 on and the length of
/// that in the low ten bits of the word before, is listed under its name and with the
/// object that the first eight bytes of its value name; and looking its name up finds an
/// entry of that name. This holds of a directory whose entries can all be read.
pub proof fn law_hashed_entry_is_listed_and_found(
    device: Device,
    vol: VolumeView,
    block: Seq<u8>,
    dir_id: u64,
    records: Seq<RecordView>,
    at: int,
    name: Seq<char>,
)
    requires
        volume::volume_superblock_of(block) matches Ok(superblock) && vol.comparison
            == comparison_of(superblock),
        block[56] % 2 == 1,
        catalog::catalog_records(device, vol.catalog, Selection::Object(dir_id)) == Ok::<
            Seq<RecordView>,
            ApfsError,
        >(records),
        directory::directory_entries(device, vol.catalog, dir_id, true) is Ok,
        0 <= at < records.len(),
        records[at].key_header.kind == JObjType::DirRec,
        ({
            let key = records[at].key;
            let len = encode_utf8(name).len() as int + 1;
            &&& 12 + len <= key.len()
            &&& bytes::le_u32(key, 8) % 1024 == len
            &&& key.subrange(12, 12 + len) == encode_utf8(name).push(0u8)
        }),
    ensures
        ({
            let entries = directory::directory_entries(
                device,
                vol.catalog,
                dir_id,
                vol.comparison.hashed,
            )->Ok_0;
            &&& directory::directory_entries(
                device,
                vol.catalog,
                dir_id,
                vol.comparison.hashed,
            ) is Ok
            &&& exists|k: int|
                0 <= k < entries.len() && (#[trigger] entries[k]).name == name && entries[k].file_id
                    == bytes::le_u64(records[at].value, 0)
            &&& child_named(device, vol, dir_id, name) matches Ok(Some(found))
                && entries.contains(found) && unicode::folded(found.name, true)
                == unicode::folded(name, true)
        }),
{
    law_names_are_compared_by_the_feature_bits(block);
    assert(vol.comparison == (NameComparison { hashed: true, case_insensitive: true }));
    let record = records[at];
    let entries = directory::directory_entries(device, vol.catalog, dir_id, true)->Ok_0;
    catalog::law_items_are_those_of_the_kind::<bool, DirEntry>(true, records, records.len());
    directory::law_entry_name_is_read_back(record.key, name, true);
    let entry = directory::dir_entry_of(record, true)->Ok_0;
    let k = entries.index_of(entry);
    assert(entries[k] == entry);
    assert(directory::names_match(entries[k], name, true));
    directory::law_hashed_lookup_misses_no_name(entries, name, true);
}

/// Whether a name can be a component of a path: it is not empty and has no slash.
pub open spec fn is_component(name: Seq<char>) -> bool {
    name.len() > 0 && forall|i: int| 0 <= i < name.len() ==> name[i] != '/'
}

/// The components of a name, a slash and a further path are the name and the components of
/// that path; those of a name alone are the name, and those of a slash and a path are those
/// of the path. A path made of names with slashes between them so has those names as its
/// components, whatever they are: no name, not even one of dots, stands for anything else.
pub proof fn law_components_are_between_slashes(name: Seq<char>, rest: Seq<char>)
    requires
        is_component(name),
    ensures
        components(name + seq!['/'] + rest) == seq![name] + components(rest),
        components(seq!['/'] + rest) == components(rest),
        components(name) == seq![name],
        components(Seq::empty()) == Seq::<Seq<char>>::empty(),
{
    let n = name.len();
    let path = name + seq!['/'] + rest;
    lemma_component_len(path, n);
    lemma_component_len(name, n);
    assert(path[0] == name[0]);
    assert(path.take(n as int) =~= name);
    assert(path.skip(n as int) =~= seq!['/'] + rest);
    law_leading_slash_is_ignored(rest);
    assert(name.take(n as int) =~= name);
    assert(name.skip(n as int) =~= Seq::<char>::empty());
    assert(components(path) == seq![path.take(n as int)] + components(path.skip(n as int)));
    assert(components(name) == seq![name.take(n as int)] + components(name.skip(n as int)));
    assert(components(Seq::<char>::empty()) =~= Seq::<Seq<char>>::empty());
    assert(seq![name] + Seq::<Seq<char>>::empty() =~= seq![name]);
}

/// Each component of a path is not empty and has no slash.
pub proof fn law_components_have_no_slash(path: Seq<char>)
    ensures
        forall|i: int| 0 <= i < components(path).len() ==> is_component(#[trigger] components(
            path,
        )[i]),
    decreases path.len(),
{
    if path.len() > 0 {
        if path[0] == '/' {
            law_components_have_no_slash(path.drop_first());
            assert(components(path) == components(path.drop_first()));
        } else {
            let n = component_len(path) as int;
            lemma_component_len_bound(path);
            lemma_no_slash_before(path);
            law_components_have_no_slash(path.skip(n));
            let first = path.take(n);
            assert(is_component(first));
            let found = components(path);
            assert(found == seq![first] + components(path.skip(n)));
            assert forall|i: int| 0 <= i < found.len() implies is_component(#[trigger] found[i]) by {
                if i > 0 {
                    assert(found[i] == components(path.skip(n))[i - 1]);
                } else {
                    assert(found[0] == first);
                }
            }
        }
    }
}

proof fn lemma_no_slash_before(path: Seq<char>)
    ensures
        component_len(path) <= path.len(),
        forall|i: int| 0 <= i < component_len(path) ==> path[i] != '/',
    decreases path.len(),
{
    if path.len() > 0 && path[0] != '/' {
        let rest = path.drop_first();
        lemma_no_slash_before(rest);
        assert forall|i: int| 0 <= i < component_len(path) implies path[i] != '/' by {
            if i > 0 {
                assert(rest[i - 1] == path[i]);
            }
        }
    }
}

/// A path of one further name leads to the object of the entry with that name in the
/// directory that the path before it leads to; it leads nowhere where there is none.
pub proof fn law_path_steps_to_the_named_entry(
    device: Device,
    vol: VolumeView,
    from: u64,
    names: Seq<Seq<char>>,
    name: Seq<char>,
)
    ensures
        resolved(device, vol, from, Seq::empty()) == Ok::<u64, ApfsError>(from),
        resolved(device, vol, from, names) matches Ok(dir_id) ==> match child_named(
            device,
            vol,
            dir_id,
            name,
        ) {
            Ok(Some(entry)) => resolved(device, vol, from, names.push(name)) == Ok::<
                u64,
                ApfsError,
            >(entry.file_id),
            Ok(None) => resolved(device, vol, from, names.push(name)) == Err::<u64, ApfsError>(
                ApfsError::NotFound { what: "path component" },
            ),
            Err(error) => resolved(device, vol, from, names.push(name)) == Err::<u64, ApfsError>(
                error,
            ),
        },
{
    law_paths_compose(device, vol, from, names, seq![name]);
    assert(names + seq![name] =~= names.push(name));
    let one = seq![name];
    assert(one[0] == name);
    assert(one.drop_first() =~= Seq::<Seq<char>>::empty());
    if let Ok(dir_id) = resolved(device, vol, from, names) {
        if let Ok(Some(entry)) = child_named(device, vol, dir_id, name) {
            assert(resolved(device, vol, entry.file_id, one.drop_first()) == Ok::<u64, ApfsError>(
                entry.file_id,
            ));
        }
    }
}

/// The target of a symbolic link is the text before the first zero byte in the content of
/// the first of its attributes named `com.apple.fs.symlink`.
pub proof fn law_symlink_target_is_in_its_attribute(
    device: Device,
    vol: VolumeView,
    inode_id: u64,
    xattrs: Seq<XattrView>,
    at: int,
)
    requires
        xattr::xattrs_of(device, vol.catalog, inode_id) == Ok::<Seq<XattrView>, ApfsError>(xattrs),
        0 <= at < xattrs.len(),
        xattrs[at].name == "com.apple.fs.symlink"@,
        forall|j: int| 0 <= j < at ==> (#[trigger] xattrs[j]).name != "com.apple.fs.symlink"@,
    ensures
        match xattr::xattr_data(device, vol.catalog, vol.block_size, xattrs[at].value) {
            Ok(raw) => symlink_target(device, vol, inode_id) == Ok::<Seq<char>, ApfsError>(
                text::decoded(bytes::before_nul(raw)),
            ),
            Err(error) => symlink_target(device, vol, inode_id) == Err::<Seq<char>, ApfsError>(
                error,
            ),
        },
{
    lemma_symlink_in(xattrs, at);
}

proof fn lemma_symlink_in(xattrs: Seq<XattrView>, at: int)
    requires
        0 <= at < xattrs.len(),
        xattrs[at].name == "com.apple.fs.symlink"@,
        forall|j: int| 0 <= j < at ==> (#[trigger] xattrs[j]).name != "com.apple.fs.symlink"@,
    ensures
        symlink_in(xattrs) == Some(xattrs[at]),
    decreases at,
{
    if at > 0 {
        let rest = xattrs.drop_first();
        assert(rest[at - 1] == xattrs[at]);
        assert forall|j: int| 0 <= j < at - 1 implies (#[trigger] rest[j]).name
            != "com.apple.fs.symlink"@ by {
            assert(rest[j] == xattrs[j + 1]);
        }
        assert(xattrs[0].name != "com.apple.fs.symlink"@);
        lemma_symlink_in(rest, at - 1);
    }
}

/// A volume without integrity metadata is not sealed. One whose metadata marks the seal as
/// broken, in the lowest bit of byte 36 or in the word at byte 48, is reported as broken and
/// verified no further; and only of another is every hash verified.
pub proof fn law_seal_outcomes(device: Device, vol: VolumeView)
    ensures
        seal_of(device, vol) == Ok::<SealVerificationView, ApfsError>(
            SealVerificationView::NotSealed,
        ) <==> vol.integrity_meta_oid.0 == 0,
        vol.integrity_meta_oid.0 != 0 && seal_of(device, vol) is Ok ==> exists|mapping: OmapValue|
            {
                let found = checkpoint::block_at(device, vol.block_size, mapping.paddr.0 as u64);
                let block = found->Ok_0;
                &&& #[trigger] omap::is_as_of(mapping, vol.integrity_meta_oid.0, vol.xid.0)
                &&& mapping.paddr.0 >= 0
                &&& found is Ok
                &&& if block[36] % 2 == 1 || bytes::le_u64(block, 48) != 0 {
                    seal_of(device, vol)->Ok_0 == SealVerificationView::SealBroken
                } else {
                    sealed::seal_report(
                        device,
                        vol.catalog,
                        FextTree { root: vol.fext_tree_oid.0 },
                        sealed::hash_type_of(bytes::le_u32(block, 40)),
                        vol.block_size,
                    ) matches Ok(report) && seal_of(device, vol)->Ok_0
                        == SealVerificationView::Verified(report)
                }
            },
{
    if vol.integrity_meta_oid.0 != 0 && seal_of(device, vol) is Ok {
        omap::law_resolved_mapping_is_not_newer(
            device,
            vol.block_size,
            vol.omap.tree_oid,
            vol.integrity_meta_oid,
            vol.xid,
        );
        let mapping = omap::mapping_of(
            device,
            vol.block_size,
            vol.omap.tree_oid,
            vol.integrity_meta_oid,
            vol.xid,
        )->Ok_0->0;
        let block = checkpoint::block_at(
            device,
            vol.block_size,
            mapping.paddr.0 as u64,
        )->Ok_0;
        lemma_broken_seal(block);
        assert(omap::is_as_of(mapping, vol.integrity_meta_oid.0, vol.xid.0));
    }
}

proof fn lemma_broken_seal(block: Seq<u8>)
    ensures
        sealed::integrity_of(block) matches Ok(found) ==> {
            &&& sealed::seal_broken(found) <==> block[36] % 2 == 1 || bytes::le_u64(block, 48) != 0
            &&& found.hash_type == sealed::hash_type_of(bytes::le_u32(block, 40))
        },
{
    let flags = bytes::le_u32(block, 36);
    bytes::law_bytes_weigh_by_their_place(block, 36);
    assert(flags & 1 == 1 <==> flags % 2 == 1) by (bit_vector);
}

/// On a volume whose features make names neither case- nor normalization-insensitive, an
/// entry that is stored under a plain key, its name in UTF-8 with a zero after it from byte
/// 10 on and the length of that in the two bytes before, is listed under its name and with
/// the object that the first eight bytes of its value name; and looking its name up finds an
/// entry of exactly that name. This holds of a directory whose entries can all be read.
pub proof fn law_plain_entry_is_listed_and_found(
    device: Device,
    vol: VolumeView,
    block: Seq<u8>,
    dir_id: u64,
    records: Seq<RecordView>,
    at: int,
    name: Seq<char>,
)
    requires
        volume::volume_superblock_of(block) matches Ok(superblock) && vol.comparison
            == comparison_of(superblock),
        block[56] % 2 == 0,
        block[56] / 8 % 2 == 0,
        catalog::catalog_records(device, vol.catalog, Selection::Object(dir_id)) == Ok::<
            Seq<RecordView>,
            ApfsError,
        >(records),
        directory::directory_entries(device, vol.catalog, dir_id, false) is Ok,
        0 <= at < records.len(),
        records[at].key_header.kind == JObjType::DirRec,
        ({
            let key = records[at].key;
            let len = encode_utf8(name).len() as int + 1;
            &&& 10 + len <= key.len()
            &&& bytes::le_u16(key, 8) == len
            &&& key.subrange(10, 10 + len) == encode_utf8(name).push(0u8)
        }),
    ensures
        ({
            let listed = directory::directory_entries(
                device,
                vol.catalog,
                dir_id,
                vol.comparison.hashed,
            );
            let entries = listed->Ok_0;
            &&& listed is Ok
            &&& exists|k: int|
                0 <= k < entries.len() && (#[trigger] entries[k]).name == name && entries[k].file_id
                    == bytes::le_u64(records[at].value, 0)
            &&& child_named(device, vol, dir_id, name) matches Ok(Some(found))
                && entries.contains(found) && found.name == name
        }),
{
    law_names_are_compared_by_the_feature_bits(block);
    assert(vol.comparison == (NameComparison { hashed: false, case_insensitive: false }));
    let record = records[at];
    let entries = directory::directory_entries(device, vol.catalog, dir_id, false)->Ok_0;
    catalog::law_items_are_those_of_the_kind::<bool, DirEntry>(false, records, records.len());
    directory::law_entry_name_is_read_back(record.key, name, false);
    let entry = directory::dir_entry_of(record, false)->Ok_0;
    let k = entries.index_of(entry);
    assert(entries[k] == entry);
    directory::law_exact_lookup_misses_no_name(entries, name);
}

/// The snapshots of a volume are those of the snapshot records in its snapshot-metadata tree,
/// read through the volume's object map as of the volume's transaction: one for each record,
/// in their order, with the object number of the record's key as its transaction.
pub proof fn law_snapshots_are_those_of_the_metadata_tree(
    device: Device,
    vol: VolumeView,
    records: Seq<RecordView>,
    snapshots: Seq<SnapshotView>,
)
    requires
        catalog::catalog_records(
            device,
            (Catalog {
                root_oid: vol.snap_meta_tree_oid,
                omap: vol.omap,
                block_size: vol.block_size,
                xid: vol.xid,
            }),
            Selection::Kind(JObjType::SnapMetadata),
        ) == Ok::<Seq<RecordView>, ApfsError>(records),
        snapshots_of(device, vol) == Ok::<Seq<SnapshotView>, ApfsError>(snapshots),
    ensures
        snapshots == records.filter(
            |record: RecordView| record.key_header.kind == JObjType::SnapMetadata,
        ).map_values(
            |record: RecordView|
                snapshot::snapshot_of(record.key_header.obj_id, record.value)->Ok_0,
        ),
{
    catalog::law_items_are_those_of_the_kind::<(), Snapshot>((), records, records.len());
    assert(records.take(records.len() as int) =~= records);
    let left = |record: RecordView| Snapshot::item_of((), record)->Ok_0;
    let right = |record: RecordView|
        snapshot::snapshot_of(record.key_header.obj_id, record.value)->Ok_0;
    let kept = records.filter(
        |record: RecordView| record.key_header.kind == JObjType::SnapMetadata,
    );
    assert(kept.map_values(left) =~= kept.map_values(right));
}

/// A snapshot opens exactly when the block at its superblock's address can be read and is a
/// volume superblock, and the object map that it names can be read.
pub proof fn law_snapshot_opens(device: Device, vol: VolumeView, snapshot: SnapshotView)
    ensures
        snapshot_view(device, vol, snapshot) is Ok <==> {
            let found = checkpoint::block_at(device, vol.block_size, snapshot.sblock_oid);
            let block = found->Ok_0;
            &&& found is Ok
            &&& volume::volume_superblock_of(block) is Ok
            &&& apfs::omap_at(device, vol.block_size, bytes::le_u64(block, 128)) is Ok
        },
{
}

/// A volume opens exactly when its superblock can be read and the object map that it names can
/// be read.
pub proof fn law_volume_opens(device: Device, apfs: ApfsView, index: int)
    ensures
        opened(device, apfs, index) is Ok <==> (apfs::volume_at(device, apfs, index) matches Ok(
            superblock,
        ) && apfs::omap_at(device, apfs.superblock.block_size, superblock.omap_oid.0) is Ok),
{
}

} // verus!
