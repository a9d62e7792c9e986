//! Deleted-file recovery: snapshot diffing and free-space scanning.
//!
//! APFS deletes copy-on-write: a file removed from the live volume often still
//! exists in a snapshot, and its catalog records may persist in unallocated
//! blocks. This module recovers both.

use std::collections::{BTreeMap, BTreeSet};

use vstd::prelude::*;

use crate::btree;
use crate::btree::{BtreeNode, Entry, EntryView};
use crate::bytes;
use crate::catalog;
use crate::catalog::{Catalog, CatalogRecord, JKey, JObjType, RecordView, Selection};
use crate::checkpoint;
use crate::checksum;
use crate::directory;
use crate::directory::{DirEntry, DirEntryView};
use crate::error;
use crate::error::ApfsError;
use crate::extended_field;
use crate::extended_field::{ExtendedFields, INO_EXT_TYPE_DSTREAM, XFieldView};
use crate::extent;
use crate::extent::{DataStream, File, FileExtent, FileView};
use crate::index;
use crate::inode;
use crate::inode::{Inode, InodeView, ROOT_DIR_INO_NUM};
use crate::io;
use crate::io::{Device, Reader};
use crate::object;
use crate::object::ObjPhys;
use crate::space_manager;
use crate::space_manager::{SpaceManager, SpaceManagerView};
use crate::types;
use crate::types::ObjectType;

pub use crate::orphans::{group_orphans, RecoveredObject};

verus! {

/// Upper bound on parent-directory hops while reconstructing a path, guarding
/// against a corrupt `parent_id` cycle.
pub const MAX_PATH_DEPTH: usize = 256;

/// Where a recovered item was found.
#[derive(Debug, Clone, Copy, PartialEq, Eq, Structural)]
pub enum Provenance {
    /// Recovered from a snapshot, identified by its transaction id.
    Snapshot(u64),
    /// Salvaged from an unallocated block, identified by its address.
    Unallocated(u64),
}

/// A file present in a snapshot but absent from the live volume.
#[derive(Debug, Clone)]
pub struct DeletedFile {
    /// The file's object identifier.
    pub obj_id: u64,
    /// The file's inode, as it existed in the snapshot.
    pub inode: Inode,
    /// Where the file was recovered from.
    pub provenance: Provenance,
    /// The file's reconstructed path components, root-first. Empty or partial
    /// when an ancestor link could not be resolved in the snapshot: the
    /// missing-data state is observable as a short path.
    pub path: Vec<String>,
}

/// The content of a [`DeletedFile`].
#[verifier::ext_equal]
pub struct DeletedFileView {
    /// The file's object identifier.
    pub obj_id: u64,
    /// The file's inode, as it existed in the snapshot.
    pub inode: InodeView,
    /// Where the file was recovered from.
    pub provenance: Provenance,
    /// The file's reconstructed path components, root-first.
    pub path: Seq<Seq<char>>,
}

impl View for DeletedFile {
    type V = DeletedFileView;

    open spec fn view(&self) -> DeletedFileView {
        DeletedFileView {
            obj_id: self.obj_id,
            inode: self.inode@,
            provenance: self.provenance,
            path: error::views(self.path@),
        }
    }
}

/// The object identifiers of records.
pub open spec fn ids_of(records: Seq<RecordView>) -> Set<u64> {
    Set::new(
        |id: u64|
            exists|i: int| 0 <= i < records.len() && (#[trigger] records[i]).key_header.obj_id
                == id,
    )
}

/// The inodes in the first `count` records, by object identifier. A record that
/// is no inode is skipped, and a later record of an object replaces an earlier
/// one.
pub open spec fn inodes_in(records: Seq<RecordView>, count: nat) -> Map<u64, InodeView>
    decreases count,
{
    if count == 0 {
        Map::empty()
    } else {
        let before = inodes_in(records, (count - 1) as nat);
        match inode::inode_of(records[count - 1].value) {
            Ok(inode) => before.insert(records[count - 1].key_header.obj_id, inode),
            Err(_) => before,
        }
    }
}

/// The directory entry in a record, whose key is hashed or, failing that, is
/// not.
pub open spec fn entry_either(record: RecordView) -> Option<DirEntryView> {
    match directory::dir_entry_of(record, true) {
        Ok(entry) => Some(entry),
        Err(_) => match directory::dir_entry_of(record, false) {
            Ok(entry) => Some(entry),
            Err(_) => None,
        },
    }
}

/// The names in the first `count` records, by directory and child; the first
/// name of a child in a directory stands.
pub open spec fn names_in(records: Seq<RecordView>, count: nat) -> Map<(u64, u64), Seq<char>>
    decreases count,
{
    if count == 0 {
        Map::empty()
    } else {
        let before = names_in(records, (count - 1) as nat);
        match entry_either(records[count - 1]) {
            Some(entry) => {
                let pair = (records[count - 1].key_header.obj_id, entry.file_id);
                if before.dom().contains(pair) {
                    before
                } else {
                    before.insert(pair, entry.name)
                }
            },
            None => before,
        }
    }
}

/// The names on the way from the root to an object, followed upwards for at most
/// `hops` steps, and no further than both the inode and the name are known.
pub open spec fn path_of(
    inodes: Map<u64, InodeView>,
    names: Map<(u64, u64), Seq<char>>,
    obj_id: u64,
    hops: nat,
) -> Seq<Seq<char>>
    decreases hops,
{
    if hops == 0 || obj_id == ROOT_DIR_INO_NUM || !inodes.dom().contains(obj_id) {
        Seq::empty()
    } else {
        let parent = inodes[obj_id].parent_id;
        if names.dom().contains((parent, obj_id)) {
            path_of(inodes, names, parent, (hops - 1) as nat).push(names[(parent, obj_id)])
        } else {
            Seq::empty()
        }
    }
}

/// The deleted file with the given identifier.
pub open spec fn deleted_file(
    inodes: Map<u64, InodeView>,
    names: Map<(u64, u64), Seq<char>>,
    snapshot_xid: u64,
    obj_id: u64,
) -> DeletedFileView {
    DeletedFileView {
        obj_id,
        inode: inodes[obj_id],
        provenance: Provenance::Snapshot(snapshot_xid),
        path: path_of(inodes, names, obj_id, MAX_PATH_DEPTH as nat),
    }
}

/// The deleted files: those whose inode the snapshot has and the live volume has
/// not, in ascending order.
pub open spec fn deleted_files(
    live: Seq<RecordView>,
    inodes: Map<u64, InodeView>,
    names: Map<(u64, u64), Seq<char>>,
    snapshot_xid: u64,
) -> Seq<DeletedFileView> {
    index::ascending(inodes.dom().difference(ids_of(live))).map_values(
        |id: u64| deleted_file(inodes, names, snapshot_xid, id),
    )
}

/// The files that a snapshot catalog has and a live catalog has not.
pub open spec fn snapshot_diff(
    device: Device,
    live: Catalog,
    snapshot: Catalog,
    snapshot_xid: u64,
) -> Result<Seq<DeletedFileView>, ApfsError> {
    match catalog::catalog_records(device, live, Selection::Kind(JObjType::Inode)) {
        Err(error) => Err(error),
        Ok(live_records) => match catalog::catalog_records(
            device,
            snapshot,
            Selection::Kind(JObjType::Inode),
        ) {
            Err(error) => Err(error),
            Ok(inode_records) => match catalog::catalog_records(
                device,
                snapshot,
                Selection::Kind(JObjType::DirRec),
            ) {
                Err(error) => Err(error),
                Ok(dir_records) => Ok(
                    deleted_files(
                        live_records,
                        inodes_in(inode_records, inode_records.len()),
                        names_in(dir_records, dir_records.len()),
                        snapshot_xid,
                    ),
                ),
            },
        },
    }
}

proof fn lemma_inodes_come_from_records(records: Seq<RecordView>, count: nat, id: u64)
    requires
        count <= records.len(),
        inodes_in(records, count).dom().contains(id),
    ensures
        ids_of(records).contains(id),
    decreases count,
{
    if count > 0 {
        if records[count - 1].key_header.obj_id == id {
            assert(ids_of(records).contains(id));
        } else {
            lemma_inodes_come_from_records(records, (count - 1) as nat, id);
        }
    }
}

/// A catalog compared with itself has no deleted files.
pub proof fn law_diff_with_itself_is_empty(device: Device, catalog: Catalog, xid: u64)
    ensures
        snapshot_diff(device, catalog, catalog, xid) matches Ok(files) ==> files.len() == 0,
{
    if let Ok(records) = catalog::catalog_records(
        device,
        catalog,
        Selection::Kind(JObjType::Inode),
    ) {
        let inodes = inodes_in(records, records.len());
        let gone = inodes.dom().difference(ids_of(records));
        assert forall|id: u64| !gone.contains(id) by {
            if inodes.dom().contains(id) {
                lemma_inodes_come_from_records(records, records.len(), id);
            }
        }
        index::lemma_ascending_is(Seq::empty(), gone);
    }
}

/// Each deleted file has an inode in the snapshot and none in the live volume,
/// and each such inode is a deleted file.
pub proof fn law_deleted_files_are_the_missing_ones(
    live: Seq<RecordView>,
    inodes: Map<u64, InodeView>,
    names: Map<(u64, u64), Seq<char>>,
    snapshot_xid: u64,
)
    ensures
        forall|id: u64|
            inodes.dom().contains(id) && !ids_of(live).contains(id) <==> exists|i: int|
                0 <= i < deleted_files(live, inodes, names, snapshot_xid).len() && (
                #[trigger] deleted_files(live, inodes, names, snapshot_xid)[i]).obj_id == id,
{
    let gone = inodes.dom().difference(ids_of(live));
    let files = deleted_files(live, inodes, names, snapshot_xid);
    index::law_ascending_lists_the_set(gone);
    assert forall|id: u64|
        inodes.dom().contains(id) && !ids_of(live).contains(id) <==> exists|i: int|
            0 <= i < files.len() && (#[trigger] files[i]).obj_id == id by {
        if gone.contains(id) {
            assert(index::ascending(gone).contains(id));
            let i = index::ascending(gone).index_of(id);
            assert(files[i].obj_id == id);
        }
        if exists|i: int| 0 <= i < files.len() && (#[trigger] files[i]).obj_id == id {
            let i = choose|i: int| 0 <= i < files.len() && (#[trigger] files[i]).obj_id == id;
            assert(index::ascending(gone)[i] == id);
            assert(index::ascending(gone).contains(id));
        }
    }
}

/// A reconstructed path has at most as many components as steps were taken.
pub proof fn law_path_is_bounded(
    inodes: Map<u64, InodeView>,
    names: Map<(u64, u64), Seq<char>>,
    obj_id: u64,
    hops: nat,
)
    ensures
        path_of(inodes, names, obj_id, hops).len() <= hops,
    decreases hops,
{
    if hops > 0 && inodes.dom().contains(obj_id) {
        law_path_is_bounded(inodes, names, inodes[obj_id].parent_id, (hops - 1) as nat);
    }
}

/// The inodes of an index, seen through their views.
pub open spec fn inode_views(inodes: Map<u64, Inode>) -> Map<u64, InodeView> {
    inodes.map_values(|inode: Inode| inode@)
}

/// The names of an index, seen through their views.
pub open spec fn name_views(names: Map<(u64, u64), String>) -> Map<(u64, u64), Seq<char>> {
    names.map_values(|name: String| name@)
}

/// Parses the directory entry in a record, whose key is hashed or, failing that,
/// is not.
pub(crate) fn parse_either(record: &CatalogRecord) -> (entry: Option<DirEntry>)
    ensures
        error::some_view(entry) == entry_either(record@),
{
    match DirEntry::from_record(record, true) {
        Ok(entry) => Some(entry),
        Err(_) => match DirEntry::from_record(record, false) {
            Ok(entry) => Some(entry),
            Err(_) => None,
        },
    }
}

/// Collects the object identifiers of records.
fn collect_ids(records: &Vec<CatalogRecord>) -> (ids: BTreeSet<u64>)
    ensures
        ids@ == ids_of(error::views(records@)),
{
    let ghost all = error::views(records@);
    let mut ids: BTreeSet<u64> = BTreeSet::new();
    let mut i: usize = 0;
    proof {
        assert(ids@ =~= ids_of(all.take(0)));
    }
    while i < records.len()
        invariant
            i <= records@.len(),
            all == error::views(records@),
            ids@ == ids_of(all.take(i as int)),
        decreases records@.len() - i,
    {
        let id: u64 = records[i].key_header.obj_id;
        index::include_id(&mut ids, id);
        proof {
            let before = all.take(i as int);
            let after = all.take(i + 1);
            assert(after =~= before.push(all[i as int]));
            assert forall|other: u64| ids_of(after).contains(other) <==> ids_of(before).insert(
                id,
            ).contains(other) by {
                if ids_of(before).contains(other) {
                    let k = choose|k: int|
                        0 <= k < before.len() && (#[trigger] before[k]).key_header.obj_id == other;
                    assert(after[k].key_header.obj_id == other);
                }
                if other == id {
                    assert(after[i as int].key_header.obj_id == other);
                }
                if ids_of(after).contains(other) {
                    let k = choose|k: int|
                        0 <= k < after.len() && (#[trigger] after[k]).key_header.obj_id == other;
                    if k < i {
                        assert(before[k].key_header.obj_id == other);
                    }
                }
            }
            assert(ids@ =~= ids_of(after));
        }
        i += 1;
    }
    proof {
        assert(all.take(i as int) =~= all);
    }
    ids
}

/// Indexes the inodes in records, skipping what is no inode.
fn collect_inodes(records: &Vec<CatalogRecord>) -> (inodes: BTreeMap<u64, Inode>)
    ensures
        inode_views(inodes@) == inodes_in(error::views(records@), records@.len()),
{
    let ghost all = error::views(records@);
    let mut inodes: BTreeMap<u64, Inode> = BTreeMap::new();
    let mut i: usize = 0;
    proof {
        assert(inode_views(inodes@) =~= Map::<u64, InodeView>::empty());
    }
    while i < records.len()
        invariant
            i <= records@.len(),
            all == error::views(records@),
            inode_views(inodes@) == inodes_in(all, i as nat),
        decreases records@.len() - i,
    {
        proof {
            assert(all[i as int] == records@[i as int]@);
        }
        if let Ok(inode) = Inode::parse(records[i].value.as_slice()) {
            let obj_id: u64 = records[i].key_header.obj_id;
            proof {
                assert(inode_views(inodes@.insert(obj_id, inode)) =~= inode_views(inodes@).insert(
                    obj_id,
                    inode@,
                ));
            }
            index::put(&mut inodes, obj_id, inode);
        }
        i += 1;
    }
    inodes
}

/// Indexes the names in records by directory and child.
fn collect_names(records: &Vec<CatalogRecord>) -> (names: BTreeMap<(u64, u64), String>)
    ensures
        name_views(names@) == names_in(error::views(records@), records@.len()),
{
    let ghost all = error::views(records@);
    let mut names: BTreeMap<(u64, u64), String> = BTreeMap::new();
    let mut i: usize = 0;
    proof {
        assert(name_views(names@) =~= Map::<(u64, u64), Seq<char>>::empty());
    }
    while i < records.len()
        invariant
            i <= records@.len(),
            all == error::views(records@),
            name_views(names@) == names_in(all, i as nat),
        decreases records@.len() - i,
    {
        proof {
            assert(all[i as int] == records@[i as int]@);
        }
        if let Some(entry) = parse_either(&records[i]) {
            let pair: (u64, u64) = (records[i].key_header.obj_id, entry.file_id);
            if index::get_pair(&names, pair).is_none() {
                let name: String = entry.name;
                proof {
                    assert(name_views(names@.insert(pair, name)) =~= name_views(names@).insert(
                        pair,
                        name@,
                    ));
                }
                index::put_pair(&mut names, pair, name);
            }
        }
        i += 1;
    }
    names
}

/// Reconstructs a file's path by walking `parent_id` links up to the volume
/// root, naming each step from the directory-entry index.
///
/// A name or parent that cannot be resolved ends the walk early, yielding a
/// partial path rather than failing.
fn reconstruct_path(
    inodes: &BTreeMap<u64, Inode>,
    names: &BTreeMap<(u64, u64), String>,
    obj_id: u64,
    hops: usize,
) -> (path: Vec<String>)
    ensures
        error::views(path@) == path_of(
            inode_views(inodes@),
            name_views(names@),
            obj_id,
            hops as nat,
        ),
    decreases hops,
{
    if hops == 0 || obj_id == ROOT_DIR_INO_NUM {
        let none: Vec<String> = Vec::new();
        assert(error::views(none@) =~= Seq::empty());
        return none;
    }
    let parent: u64 = match index::get(inodes, obj_id) {
        Some(inode) => inode.parent_id,
        None => {
            let none: Vec<String> = Vec::new();
            assert(error::views(none@) =~= Seq::empty());
            return none;
        },
    };
    match index::get_pair(names, (parent, obj_id)) {
        Some(name) => {
            let mut path: Vec<String> = reconstruct_path(inodes, names, parent, hops - 1);
            let last: String = name.clone();
            assert(error::views(path@.push(last)) =~= error::views(path@).push(last@));
            path.push(last);
            path
        },
        None => {
            let none: Vec<String> = Vec::new();
            assert(error::views(none@) =~= Seq::empty());
            none
        },
    }
}

/// Lists the deleted files with the given identifiers.
fn list_deleted(
    inodes: &BTreeMap<u64, Inode>,
    names: &BTreeMap<(u64, u64), String>,
    snapshot_xid: u64,
    ids: &Vec<u64>,
) -> (deleted: Vec<DeletedFile>)
    requires
        forall|i: int| 0 <= i < ids@.len() ==> inodes@.dom().contains(#[trigger] ids@[i]),
    ensures
        error::views(deleted@) == ids@.map_values(
            |id: u64|
                deleted_file(inode_views(inodes@), name_views(names@), snapshot_xid, id),
        ),
{
    let ghost at = |id: u64|
        deleted_file(inode_views(inodes@), name_views(names@), snapshot_xid, id);
    let mut deleted: Vec<DeletedFile> = Vec::new();
    let mut i: usize = 0;
    while i < ids.len()
        invariant
            i <= ids@.len(),
            forall|k: int| 0 <= k < ids@.len() ==> inodes@.dom().contains(#[trigger] ids@[k]),
            at == |id: u64|
                deleted_file(inode_views(inodes@), name_views(names@), snapshot_xid, id),
            error::views(deleted@) =~= ids@.take(i as int).map_values(at),
        decreases ids@.len() - i,
    {
        let obj_id: u64 = ids[i];
        if let Some(inode) = index::get(inodes, obj_id) {
            let file: DeletedFile = DeletedFile {
                obj_id,
                inode: inode.clone(),
                provenance: Provenance::Snapshot(snapshot_xid),
                path: reconstruct_path(inodes, names, obj_id, MAX_PATH_DEPTH),
            };
            proof {
                assert(file@ == at(obj_id));
                assert(error::views(deleted@.push(file)) =~= error::views(deleted@).push(file@));
                assert(ids@.take(i + 1).map_values(at) =~= ids@.take(i as int).map_values(at).push(
                    at(obj_id),
                ));
            }
            deleted.push(file);
        }
        i += 1;
    }
    proof {
        assert(ids@.take(i as int) =~= ids@);
    }
    deleted
}

/// Lists files that exist in `snapshot` but have been deleted from `live`.
///
/// Both catalogs are walked for inode records; an object id present in the
/// snapshot but not the live volume is a deleted file, recoverable from the
/// snapshot. Each result carries its reconstructed path.
///
/// The snapshot's inodes and directory entries are each indexed in a single
/// catalog walk, so reconstructing every deleted file's path costs map lookups
/// rather than a full-tree scan per parent hop.
pub fn diff_snapshot<T: Reader>(
    reader: &mut T,
    live: &Catalog,
    snapshot: &Catalog,
    snapshot_xid: u64,
) -> (deleted: Result<Vec<DeletedFile>, ApfsError>)
    ensures
        final(reader).device() == old(reader).device(),
        error::viewed_all(deleted) == snapshot_diff(
            old(reader).device(),
            *live,
            *snapshot,
            snapshot_xid,
        ),
{
    let live_records: Vec<CatalogRecord> = match live.records_of_kind(reader, JObjType::Inode) {
        Ok(records) => records,
        Err(error) => return Err(error),
    };
    let live_ids: BTreeSet<u64> = collect_ids(&live_records);
    let inode_records: Vec<CatalogRecord> = match snapshot.records_of_kind(
        reader,
        JObjType::Inode,
    ) {
        Ok(records) => records,
        Err(error) => return Err(error),
    };
    let inodes: BTreeMap<u64, Inode> = collect_inodes(&inode_records);
    let dir_records: Vec<CatalogRecord> = match snapshot.records_of_kind(
        reader,
        JObjType::DirRec,
    ) {
        Ok(records) => records,
        Err(error) => return Err(error),
    };
    let names: BTreeMap<(u64, u64), String> = collect_names(&dir_records);
    let ids: Vec<u64> = index::ids(&inodes);
    let gone: Vec<u64> = index::without(&ids, &live_ids, Ghost(inodes@.dom()));
    proof {
        index::law_ascending_lists_the_set(inodes@.dom().difference(live_ids@));
        assert forall|i: int| 0 <= i < gone@.len() implies inodes@.dom().contains(
            #[trigger] gone@[i],
        ) by {
            assert(gone@.contains(gone@[i]));
        }
        assert(inode_views(inodes@).dom() =~= inodes@.dom());
    }
    Ok(list_deleted(&inodes, &names, snapshot_xid, &gone))
}

/// The logical size of a file: the size of its data stream, if it has one.
pub open spec fn size_of_file(inode: InodeView) -> Result<u64, ApfsError> {
    match extended_field::fields_of(inode.xfields) {
        Err(error) => Err(error),
        Ok(fields) => match extended_field::data_of_type(fields, INO_EXT_TYPE_DSTREAM) {
            None => Ok(0),
            Some(data) => match extent::data_stream_of(data) {
                Err(error) => Err(error),
                Ok(stream) => Ok(stream.size),
            },
        },
    }
}

/// The content of a recovered file, read through the extents of its data stream.
pub open spec fn deleted_content(
    device: Device,
    catalog: Catalog,
    inode: InodeView,
    block_size: u32,
) -> Result<Seq<u8>, ApfsError> {
    match size_of_file(inode) {
        Err(error) => Err(error),
        Ok(size) => match extent::catalog_extents(device, catalog, inode.private_id) {
            Err(error) => Err(error),
            Ok(extents) => extent::whole_content(device, block_size, FileView { size, extents }),
        },
    }
}

/// Determines the logical size of a file.
fn file_size(inode: &Inode) -> (size: Result<u64, ApfsError>)
    ensures
        size == size_of_file(inode@),
{
    match ExtendedFields::parse(inode.xfields.as_slice()) {
        Err(error) => Err(error),
        Ok(fields) => match fields.dstream() {
            None => Ok(0),
            Some(data) => match DataStream::parse(data) {
                Err(error) => Err(error),
                Ok(stream) => Ok(stream.size),
            },
        },
    }
}

/// Reads a recovered file's content from the catalog it was found in.
///
/// The logical size comes from the inode's data-stream extended field; content
/// is read through the file's extents. For a snapshot view this reconstructs the
/// file exactly as it existed at the snapshot.
pub fn read_deleted_content<T: Reader>(
    catalog: &Catalog,
    reader: &mut T,
    deleted: &DeletedFile,
    block_size: u32,
) -> (content: Result<Vec<u8>, ApfsError>)
    ensures
        final(reader).device() == old(reader).device(),
        error::viewed(content) == deleted_content(
            old(reader).device(),
            *catalog,
            deleted@.inode,
            block_size,
        ),
{
    let size: u64 = match file_size(&deleted.inode) {
        Ok(size) => size,
        Err(error) => return Err(error),
    };
    match File::open(catalog, reader, deleted.inode.private_id, size) {
        Ok(file) => file.read_all(reader, block_size),
        Err(error) => Err(error),
    }
}

/// A catalog leaf node salvaged from an unallocated block.
#[derive(Debug, Clone, PartialEq, Eq)]
pub struct OrphanedNode {
    /// The block address the node was found at.
    pub block: u64,
    /// The file-system records recovered from the node.
    pub records: Vec<CatalogRecord>,
}

/// The content of an [`OrphanedNode`].
#[verifier::ext_equal]
pub struct OrphanedNodeView {
    /// The block address the node was found at.
    pub block: u64,
    /// The file-system records recovered from the node.
    pub records: Seq<RecordView>,
}

impl View for OrphanedNode {
    type V = OrphanedNodeView;

    open spec fn view(&self) -> OrphanedNodeView {
        OrphanedNodeView { block: self.block, records: error::views(self.records@) }
    }
}

/// Whether a block is a file-system-tree leaf node with a valid checksum.
pub open spec fn is_catalog_leaf(block: Seq<u8>) -> bool {
    &&& checksum::is_valid_block(block)
    &&& object::header_at(block) matches Ok(header) && types::object_type_of(header.raw_type)
        == ObjectType::BtreeNode && types::object_type_of(header.subtype) == ObjectType::FsTree
    &&& btree::node_of(block) is Ok
    &&& btree::node_is_leaf(block)
}

/// The records in the first `count` entries of a leaf node. An entry whose key
/// is no record key is skipped; one that does not lie in the node is an error.
pub open spec fn leaf_records(block: Seq<u8>, count: nat) -> Result<Seq<RecordView>, ApfsError>
    decreases count,
{
    if count == 0 {
        Ok(Seq::empty())
    } else {
        match leaf_records(block, (count - 1) as nat) {
            Err(error) => Err(error),
            Ok(before) => match btree::entry_of(block, (count - 1) as u32, 0, 0) {
                Err(error) => Err(error),
                Ok(entry) => match catalog::header_of(entry.key) {
                    Err(_) => Ok(before),
                    Ok(key_header) => Ok(
                        before.push(
                            RecordView {
                                key_header,
                                key: entry.key,
                                value: match entry.value {
                                    Some(value) => value,
                                    None => Seq::empty(),
                                },
                            },
                        ),
                    ),
                },
            },
        }
    }
}

/// The catalog leaf node that a raw block holds, if it holds one.
pub open spec fn salvaged(block: Seq<u8>, addr: u64) -> Result<
    Option<OrphanedNodeView>,
    ApfsError,
> {
    if !is_catalog_leaf(block) {
        Ok(None)
    } else {
        match leaf_records(block, btree::node_key_count(block) as nat) {
            Err(error) => Err(error),
            Ok(records) => Ok(Some(OrphanedNodeView { block: addr, records })),
        }
    }
}

proof fn lemma_leaf_records_error(block: Seq<u8>, some: nat, all: nat, error: ApfsError)
    requires
        some <= all,
        leaf_records(block, some) == Err::<Seq<RecordView>, ApfsError>(error),
    ensures
        leaf_records(block, all) == Err::<Seq<RecordView>, ApfsError>(error),
    decreases all,
{
    if some < all {
        lemma_leaf_records_error(block, some, (all - 1) as nat, error);
    }
}

/// A block whose checksum is not valid is never salvaged.
pub proof fn law_damaged_block_is_not_salvaged(block: Seq<u8>, addr: u64)
    requires
        !checksum::is_valid_block(block),
    ensures
        salvaged(block, addr) == Ok::<Option<OrphanedNodeView>, ApfsError>(None),
{
}

/// Reads the records of a leaf node.
fn read_leaf(node: &BtreeNode) -> (records: Result<Vec<CatalogRecord>, ApfsError>)
    ensures
        error::viewed_all(records) == leaf_records(node@, btree::node_key_count(node@) as nat),
{
    // The key count is an unvalidated on-disk field: the vector grows as
    // entries are decoded.
    let count: u32 = node.key_count();
    let mut records: Vec<CatalogRecord> = Vec::new();
    let mut i: u32 = 0;
    proof {
        assert(error::views(records@) =~= Seq::<RecordView>::empty());
    }
    while i < count
        invariant
            i <= count == btree::node_key_count(node@),
            leaf_records(node@, i as nat) == Ok::<Seq<RecordView>, ApfsError>(
                error::views(records@),
            ),
        decreases count - i,
    {
        let entry: Entry<'_> = match node.entry(i, 0, 0) {
            Ok(entry) => entry,
            Err(error) => {
                proof {
                    lemma_leaf_records_error(node@, (i + 1) as nat, count as nat, error);
                }
                return Err(error);
            },
        };
        if let Ok(key_header) = JKey::parse(entry.key) {
            let value: Vec<u8> = match entry.value {
                Some(value) => vstd::slice::slice_to_vec(value),
                None => Vec::new(),
            };
            let record: CatalogRecord = CatalogRecord {
                key_header,
                key: vstd::slice::slice_to_vec(entry.key),
                value,
            };
            proof {
                assert(error::views(records@.push(record)) =~= error::views(records@).push(
                    record@,
                ));
            }
            records.push(record);
        }
        i += 1;
    }
    Ok(records)
}

/// Attempts to salvage a catalog leaf node from a raw block.
///
/// There is none unless the block is a checksum-valid file-system-tree leaf
/// node: only then are its records trustworthy enough to recover.
pub fn salvage_block(block: &[u8], block_addr: u64) -> (found: Result<
    Option<OrphanedNode>,
    ApfsError,
>)
    ensures
        error::viewed_option(found) == salvaged(block@, block_addr),
{
    // A stale catalog node still carries a valid checksum; a mismatch means
    // the block has been reused for unrelated data.
    if !checksum::verify_block(block) {
        return Ok(None);
    }
    let header: ObjPhys = match ObjPhys::parse(block) {
        Ok(header) => header,
        Err(_) => return Ok(None),
    };
    if header.object_kind() != ObjectType::BtreeNode || header.subtype_kind()
        != ObjectType::FsTree {
        return Ok(None);
    }
    let node: BtreeNode = match BtreeNode::parse(vstd::slice::slice_to_vec(block)) {
        Ok(node) => node,
        Err(_) => return Ok(None),
    };
    if !node.is_leaf() {
        return Ok(None);
    }
    match read_leaf(&node) {
        Ok(records) => Ok(Some(OrphanedNode { block: block_addr, records })),
        Err(error) => Err(error),
    }
}

/// The node that the block at `addr` holds, if the block is not allocated.
#[verifier::opaque]
pub open spec fn orphan_at(device: Device, sm: SpaceManagerView, addr: u64) -> Result<
    Option<OrphanedNodeView>,
    ApfsError,
> {
    match space_manager::allocated_at(device, sm, addr) {
        Err(error) => Err(error),
        Ok(true) => Ok(None),
        Ok(false) => match checkpoint::block_at(device, sm.block_size, addr) {
            Err(error) => Err(error),
            Ok(block) => salvaged(block, addr),
        },
    }
}

/// The nodes in the unallocated blocks from `start` up to `end`, and no further
/// than the main device goes.
pub open spec fn orphans_between(
    device: Device,
    sm: SpaceManagerView,
    start: nat,
    end: nat,
) -> Result<Seq<OrphanedNodeView>, ApfsError>
    decreases end,
{
    if end <= start {
        Ok(Seq::empty())
    } else {
        match orphans_between(device, sm, start, (end - 1) as nat) {
            Err(error) => Err(error),
            Ok(before) => if end > sm.main_device.block_count {
                Ok(before)
            } else {
                match orphan_at(device, sm, (end - 1) as u64) {
                    Err(error) => Err(error),
                    Ok(None) => Ok(before),
                    Ok(Some(node)) => Ok(before.push(node)),
                }
            },
        }
    }
}

proof fn lemma_orphans_error(
    device: Device,
    sm: SpaceManagerView,
    start: nat,
    some: nat,
    all: nat,
    error: ApfsError,
)
    requires
        some <= all,
        orphans_between(device, sm, start, some) == Err::<Seq<OrphanedNodeView>, ApfsError>(error),
    ensures
        orphans_between(device, sm, start, all) == Err::<Seq<OrphanedNodeView>, ApfsError>(error),
    decreases all,
{
    if some < all {
        lemma_orphans_error(device, sm, start, some, (all - 1) as nat, error);
    }
}

proof fn lemma_orphans_past_device(
    device: Device,
    sm: SpaceManagerView,
    start: nat,
    some: nat,
    all: nat,
)
    requires
        some <= all,
        sm.main_device.block_count <= some,
    ensures
        orphans_between(device, sm, start, all) == orphans_between(device, sm, start, some),
    decreases all,
{
    if some < all {
        lemma_orphans_past_device(device, sm, start, some, (all - 1) as nat);
    }
}

/// A scan finds nodes only in unallocated blocks of the range, in order of their
/// addresses.
pub proof fn law_scan_finds_only_unallocated(
    device: Device,
    sm: SpaceManagerView,
    start: nat,
    end: nat,
)
    requires
        end <= u64::MAX,
    ensures
        orphans_between(device, sm, start, end) matches Ok(found) ==> {
            &&& forall|i: int|
                0 <= i < found.len() ==> start <= (#[trigger] found[i]).block < end
                    && space_manager::allocated_at(device, sm, found[i].block) == Ok::<
                    bool,
                    ApfsError,
                >(false)
            &&& forall|i: int, j: int|
                0 <= i < j < found.len() ==> (#[trigger] found[i]).block < (
                #[trigger] found[j]).block
        },
    decreases end,
{
    reveal(orphan_at);
    if start < end {
        law_scan_finds_only_unallocated(device, sm, start, (end - 1) as nat);
    }
}

/// Reads the node in a block that is not allocated.
fn read_orphan<T: Reader>(reader: &mut T, space_manager: &SpaceManager, addr: u64) -> (found:
    Result<Option<OrphanedNode>, ApfsError>)
    ensures
        final(reader).device() == old(reader).device(),
        error::viewed_option(found) == orphan_at(old(reader).device(), space_manager@, addr),
{
    proof {
        reveal(orphan_at);
    }
    match space_manager.is_allocated(reader, addr) {
        Err(error) => return Err(error),
        Ok(allocated) => {
            if allocated {
                return Ok(None);
            }
        },
    }
    match checkpoint::read_block(reader, space_manager.block_size, addr) {
        Ok(block) => salvage_block(block.as_slice(), addr),
        Err(error) => Err(error),
    }
}

/// Scans the unallocated blocks in `[start, end)` for orphaned catalog leaf
/// nodes.
///
/// Blocks the space manager reports as allocated are skipped: live data is not a
/// recovery candidate. The range is caller-bounded so a forensic tool can scan
/// incrementally rather than the whole container at once; a range that runs past
/// the main device stops at the device's last block. Any failure aborts the scan
/// rather than silently dropping coverage.
pub fn scan_unallocated<T: Reader>(
    reader: &mut T,
    space_manager: &SpaceManager,
    start: u64,
    end: u64,
) -> (found: Result<Vec<OrphanedNode>, ApfsError>)
    ensures
        final(reader).device() == old(reader).device(),
        error::viewed_all(found) == orphans_between(
            old(reader).device(),
            space_manager@,
            start as nat,
            end as nat,
        ),
{
    let ghost device = reader.device();
    let ghost sm = space_manager@;
    let mut found: Vec<OrphanedNode> = Vec::new();
    let mut addr: u64 = start;
    proof {
        assert(error::views(found@) =~= Seq::<OrphanedNodeView>::empty());
    }
    while addr < end && addr < space_manager.main_device.block_count
        invariant
            start <= addr,
            addr <= end || addr == start,
            device == old(reader).device(),
            reader.device() == device,
            sm == space_manager@,
            orphans_between(device, sm, start as nat, addr as nat) == Ok::<
                Seq<OrphanedNodeView>,
                ApfsError,
            >(error::views(found@)),
        decreases end - addr,
    {
        match read_orphan(reader, space_manager, addr) {
            Ok(Some(node)) => {
                proof {
                    assert(error::views(found@.push(node)) =~= error::views(found@).push(node@));
                }
                found.push(node);
            },
            Ok(None) => {},
            Err(error) => {
                proof {
                    lemma_orphans_error(
                        device,
                        sm,
                        start as nat,
                        (addr + 1) as nat,
                        end as nat,
                        error,
                    );
                }
                return Err(error);
            },
        }
        addr += 1;
    }
    proof {
        if addr < end {
            lemma_orphans_past_device(device, sm, start as nat, addr as nat, end as nat);
        } else if end < start {
            assert(orphans_between(device, sm, start as nat, end as nat) == Ok::<
                Seq<OrphanedNodeView>,
                ApfsError,
            >(Seq::empty()));
        }
    }
    Ok(found)
}

/// Whether `data` is the data-stream field of an inode: the first of its extended
/// fields of type 8.
pub open spec fn is_stream_field(inode: InodeView, data: Seq<u8>) -> bool {
    extended_field::fields_of(inode.xfields) matches Ok(fields) && exists|k: int|
        0 <= k < fields.len() && (#[trigger] fields[k]).field_type == 8 && fields[k].data == data
            && forall|j: int| 0 <= j < k ==> (#[trigger] fields[j]).field_type != 8
}

proof fn lemma_stream_size(inode: InodeView, data: Seq<u8>)
    requires
        is_stream_field(inode, data),
    ensures
        size_of_file(inode) matches Ok(size) ==> data.len() >= 40 && size == bytes::le_u64(data, 0),
        data.len() >= 40 ==> size_of_file(inode) is Ok,
{
    let fields = extended_field::fields_of(inode.xfields)->Ok_0;
    extended_field::law_first_field_of_a_type(fields, 8);
}

/// The content of a recovered file has as many bytes as the first eight bytes of its
/// data-stream field count, and a file without that field has none.
pub proof fn law_deleted_content_has_the_stored_size(
    device: Device,
    catalog: Catalog,
    inode: InodeView,
    block_size: u32,
)
    ensures
        deleted_content(device, catalog, inode, block_size) matches Ok(content) ==> {
            &&& forall|data: Seq<u8>| #[trigger]
                is_stream_field(inode, data) ==> content.len() == bytes::le_u64(data, 0)
            &&& (forall|data: Seq<u8>| !#[trigger] is_stream_field(inode, data)) ==> content.len()
                == 0
        },
{
    if let Ok(content) = deleted_content(device, catalog, inode, block_size) {
        let size = size_of_file(inode)->Ok_0;
        let extents = extent::catalog_extents(device, catalog, inode.private_id)->Ok_0;
        extent::law_read_has_the_length(device, block_size, FileView { size, extents }, 0, 0);
        assert forall|data: Seq<u8>| #[trigger] is_stream_field(inode, data) implies content.len()
            == bytes::le_u64(data, 0) by {
            lemma_stream_size(inode, data);
        }
        if forall|data: Seq<u8>| !#[trigger] is_stream_field(inode, data) {
            let fields = extended_field::fields_of(inode.xfields)->Ok_0;
            extended_field::law_first_field_of_a_type(fields, 8);
            assert forall|i: int| 0 <= i < fields.len() implies (#[trigger] fields[i]).field_type
                != 8 by {
                if fields[i].field_type == 8 {
                    let first = first_stream_field(fields, i);
                    assert(is_stream_field(inode, fields[first].data));
                }
            }
        }
    }
}

/// The index of the first field of type 8, at most `upto`.
proof fn first_stream_field(fields: Seq<XFieldView>, upto: int) -> (first: int)
    requires
        0 <= upto < fields.len(),
        fields[upto].field_type == 8,
    ensures
        0 <= first <= upto,
        fields[first].field_type == 8,
        forall|j: int| 0 <= j < first ==> (#[trigger] fields[j]).field_type != 8,
    decreases upto,
{
    if exists|j: int| 0 <= j < upto && (#[trigger] fields[j]).field_type == 8 {
        let j = choose|j: int| 0 <= j < upto && (#[trigger] fields[j]).field_type == 8;
        first_stream_field(fields, j)
    } else {
        upto
    }
}

/// The content of a recovered file is, byte for byte, what the device holds where the
/// extents of the file's private identifier map it, and zero where none does. This holds
/// on a device whose content does not change, of extents no two of which hold the same
/// byte.
pub proof fn law_deleted_content_is_read_through_the_private_id(
    device: Device,
    content: spec_fn(nat) -> u8,
    catalog: Catalog,
    inode: InodeView,
    block_size: u32,
    extents: Seq<FileExtent>,
)
    requires
        io::is_steady(device, content),
        extent::catalog_extents(device, catalog, inode.private_id) == Ok::<
            Seq<FileExtent>,
            ApfsError,
        >(extents),
        extent::is_disjoint(extents),
    ensures
        deleted_content(device, catalog, inode, block_size) matches Ok(found) ==> forall|i: int|
            0 <= i < found.len() ==> #[trigger] found[i] == extent::steady_byte(
                content,
                block_size,
                extents,
                i,
            ),
{
    if let Ok(found) = deleted_content(device, catalog, inode, block_size) {
        let size = size_of_file(inode)->Ok_0;
        let file = FileView { size, extents };
        extent::law_read_gives_device_bytes(device, content, block_size, file, 0, size as nat);
    }
}

/// Only the size in its data stream decides how much of a file is recovered: two inodes
/// of one data stream, whose stream fields agree in their first eight bytes, have the
/// same content, whatever sizes were allocated for them.
pub proof fn law_allocated_size_is_ignored(
    device: Device,
    catalog: Catalog,
    left: InodeView,
    right: InodeView,
    left_data: Seq<u8>,
    right_data: Seq<u8>,
    block_size: u32,
)
    requires
        left.private_id == right.private_id,
        is_stream_field(left, left_data),
        is_stream_field(right, right_data),
        left_data.len() >= 40,
        right_data.len() >= 40,
        left_data.take(8) == right_data.take(8),
    ensures
        deleted_content(device, catalog, left, block_size) == deleted_content(
            device,
            catalog,
            right,
            block_size,
        ),
{
    lemma_same_size(left, right, left_data, right_data);
}

proof fn lemma_same_size(
    left: InodeView,
    right: InodeView,
    left_data: Seq<u8>,
    right_data: Seq<u8>,
)
    requires
        is_stream_field(left, left_data),
        is_stream_field(right, right_data),
        left_data.len() >= 40,
        right_data.len() >= 40,
        left_data.take(8) == right_data.take(8),
    ensures
        size_of_file(left) == size_of_file(right),
{
    lemma_stream_size(left, left_data);
    lemma_stream_size(right, right_data);
    lemma_same_word(left_data, right_data);
}

proof fn lemma_same_word(left: Seq<u8>, right: Seq<u8>)
    requires
        left.len() >= 8,
        right.len() >= 8,
        left.take(8) == right.take(8),
    ensures
        bytes::le_u64(left, 0) == bytes::le_u64(right, 0),
{
    assert forall|i: int| 0 <= i < 8 implies left[i] == right[i] by {
        assert(left.take(8)[i] == left[i]);
        assert(right.take(8)[i] == right[i]);
    }
}

/// Whether the record at `at` is the last one of an object that holds an inode.
pub open spec fn is_inode_record(records: Seq<RecordView>, at: int, id: u64) -> bool {
    &&& 0 <= at < records.len()
    &&& records[at].key_header.obj_id == id
    &&& inode::inode_of(records[at].value) is Ok
    &&& forall|i: int|
        at < i < records.len() && (#[trigger] records[i]).key_header.obj_id == id
            ==> inode::inode_of(records[i].value) is Err
}

proof fn lemma_inodes_in(records: Seq<RecordView>, count: nat)
    requires
        count <= records.len(),
    ensures
        forall|at: int, id: u64| #[trigger]
            is_inode_record(records.take(count as int), at, id) ==> inodes_in(
                records,
                count,
            ).dom().contains(id) && inode::inode_of(records[at].value) == Ok::<
                InodeView,
                ApfsError,
            >(inodes_in(records, count)[id]),
        forall|id: u64| #[trigger]
            inodes_in(records, count).dom().contains(id) ==> exists|at: int|
                is_inode_record(records.take(count as int), at, id),
    decreases count,
{
    let now = records.take(count as int);
    let inodes = inodes_in(records, count);
    if count > 0 {
        let last = (count - 1) as nat;
        let before = records.take(last as int);
        lemma_inodes_in(records, last);
        assert(now[last as int] == records[last as int]);
        assert forall|at: int, id: u64| #[trigger] is_inode_record(now, at, id) implies inodes.dom()
            .contains(id) && inode::inode_of(records[at].value) == Ok::<InodeView, ApfsError>(
            inodes[id],
        ) by {
            if at < last {
                assert forall|i: int|
                    at < i < before.len() && (#[trigger] before[i]).key_header.obj_id
                        == id implies inode::inode_of(before[i].value) is Err by {
                    assert(before[i] == now[i]);
                }
                assert(is_inode_record(before, at, id));
            }
        }
        assert forall|id: u64| #[trigger] inodes.dom().contains(id) implies exists|at: int|
            is_inode_record(now, at, id) by {
            let record = records[last as int];
            if record.key_header.obj_id == id && inode::inode_of(record.value) is Ok {
                assert(is_inode_record(now, last as int, id));
            } else {
                assert(inodes_in(records, last).dom().contains(id));
                let at = choose|at: int| is_inode_record(before, at, id);
                assert(now[at] == before[at]);
                assert forall|i: int|
                    at < i < now.len() && (#[trigger] now[i]).key_header.obj_id
                        == id implies inode::inode_of(now[i].value) is Err by {
                    if i < last {
                        assert(before[i] == now[i]);
                    }
                }
                assert(is_inode_record(now, at, id));
            }
        }
    }
}

/// The deleted files of a snapshot are the objects that have an inode record in it and no
/// inode record in the live volume: each of them once, in order of their identifiers, with
/// the inode that its record in the snapshot holds, and marked with the snapshot.
pub proof fn law_deleted_files_are_those_of_the_snapshot(
    device: Device,
    live: Catalog,
    snapshot: Catalog,
    snapshot_xid: u64,
    live_records: Seq<RecordView>,
    inode_records: Seq<RecordView>,
)
    requires
        catalog::catalog_records(device, live, Selection::Kind(JObjType::Inode)) == Ok::<
            Seq<RecordView>,
            ApfsError,
        >(live_records),
        catalog::catalog_records(device, snapshot, Selection::Kind(JObjType::Inode)) == Ok::<
            Seq<RecordView>,
            ApfsError,
        >(inode_records),
        snapshot_diff(device, live, snapshot, snapshot_xid) is Ok,
    ensures
        ({
            let files = snapshot_diff(device, live, snapshot, snapshot_xid)->Ok_0;
            &&& forall|at: int, id: u64| #[trigger]
                is_inode_record(inode_records, at, id) && (forall|k: int|
                    0 <= k < live_records.len() ==> (#[trigger] live_records[k]).key_header.obj_id
                        != id) ==> exists|i: int|
                    0 <= i < files.len() && (#[trigger] files[i]).obj_id == id
            &&& forall|i: int|
                0 <= i < files.len() ==> {
                    let file = #[trigger] files[i];
                    &&& file.provenance == Provenance::Snapshot(snapshot_xid)
                    &&& exists|at: int| #[trigger]
                        is_inode_record(inode_records, at, file.obj_id) && inode::inode_of(
                            inode_records[at].value,
                        ) == Ok::<InodeView, ApfsError>(file.inode)
                    &&& forall|k: int|
                        0 <= k < live_records.len() ==> (
                        #[trigger] live_records[k]).key_header.obj_id != file.obj_id
                }
            &&& forall|i: int, j: int|
                0 <= i < j < files.len() ==> (#[trigger] files[i]).obj_id < (
                #[trigger] files[j]).obj_id
        }),
{
    let files = snapshot_diff(device, live, snapshot, snapshot_xid)->Ok_0;
    let inodes = inodes_in(inode_records, inode_records.len());
    let gone = inodes.dom().difference(ids_of(live_records));
    let order = index::ascending(gone);
    lemma_inodes_in(inode_records, inode_records.len());
    assert(inode_records.take(inode_records.len() as int) =~= inode_records);
    index::law_ascending_lists_the_set(gone);
    assert forall|at: int, id: u64| #[trigger]
        is_inode_record(inode_records, at, id) && (forall|k: int|
            0 <= k < live_records.len() ==> (#[trigger] live_records[k]).key_header.obj_id
                != id) implies exists|i: int|
        0 <= i < files.len() && (#[trigger] files[i]).obj_id == id by {
        assert(gone.contains(id));
        assert(order.contains(id));
        let i = order.index_of(id);
        assert(files[i].obj_id == id);
    }
    assert forall|i: int| 0 <= i < files.len() implies {
        let file = #[trigger] files[i];
        &&& file.provenance == Provenance::Snapshot(snapshot_xid)
        &&& exists|at: int| #[trigger]
            is_inode_record(inode_records, at, file.obj_id) && inode::inode_of(
                inode_records[at].value,
            ) == Ok::<InodeView, ApfsError>(file.inode)
        &&& forall|k: int|
            0 <= k < live_records.len() ==> (#[trigger] live_records[k]).key_header.obj_id
                != file.obj_id
    } by {
        let id = order[i];
        assert(order.contains(id));
        assert(gone.contains(id));
        assert(inodes.dom().contains(id));
        let at = choose|at: int| is_inode_record(inode_records, at, id);
        assert(is_inode_record(inode_records, at, id));
        assert forall|k: int| 0 <= k < live_records.len() implies (
        #[trigger] live_records[k]).key_header.obj_id != id by {
            if live_records[k].key_header.obj_id == id {
                assert(ids_of(live_records).contains(id));
            }
        }
    }
}

/// The name of an object in a directory is that in the first record of the directory whose
/// entry names the object, its key read as hashed where it can be and as plain where not.
pub proof fn law_name_is_that_of_the_first_entry(
    records: Seq<RecordView>,
    count: nat,
    dir_id: u64,
    id: u64,
)
    requires
        count <= records.len(),
    ensures
        forall|i: int|
            0 <= i < count && names_object(#[trigger] records[i], dir_id, id) && (forall|j: int|
                0 <= j < i ==> !names_object(#[trigger] records[j], dir_id, id)) ==> names_in(
                records,
                count,
            ).dom().contains((dir_id, id)) && names_in(records, count)[(dir_id, id)]
                == entry_either(records[i])->0.name,
        names_in(records, count).dom().contains((dir_id, id)) <==> exists|i: int|
            0 <= i < count && names_object(#[trigger] records[i], dir_id, id),
    decreases count,
{
    if count > 0 {
        let last = (count - 1) as nat;
        law_name_is_that_of_the_first_entry(records, last, dir_id, id);
        let before = names_in(records, last);
        if before.dom().contains((dir_id, id)) {
            let i = choose|i: int|
                0 <= i < last && names_object(#[trigger] records[i], dir_id, id);
            assert(names_object(records[i], dir_id, id));
        } else {
            assert forall|i: int| 0 <= i < last implies !names_object(
                #[trigger] records[i],
                dir_id,
                id,
            ) by {}
            if names_object(records[last as int], dir_id, id) {
                assert(names_in(records, count).dom().contains((dir_id, id)));
            }
        }
    }
}

/// Whether a directory record is in a directory and its entry names an object.
pub open spec fn names_object(record: RecordView, dir_id: u64, id: u64) -> bool {
    record.key_header.obj_id == dir_id && (entry_either(record) matches Some(entry)
        && entry.file_id == id)
}

/// A record's entry is read with a hashed key wherever that can be read, and else with a
/// plain key.
pub proof fn law_entry_is_read_either_way(record: RecordView)
    ensures
        directory::dir_entry_of(record, true) matches Ok(entry) ==> entry_either(record) == Some(
            entry,
        ),
        directory::dir_entry_of(record, true) is Err ==> (entry_either(record) is Some
            <==> directory::dir_entry_of(record, false) is Ok),
        directory::dir_entry_of(record, true) is Err ==> (directory::dir_entry_of(
            record,
            false,
        ) matches Ok(entry) ==> entry_either(record) == Some(entry)),
{
}

/// The path of a recovered object is that of its parent and its name there; it is empty for
/// the root directory, object 2, and for an object that its parent does not name.
pub proof fn law_path_goes_through_the_parent(
    inodes: Map<u64, InodeView>,
    names: Map<(u64, u64), Seq<char>>,
    id: u64,
    hops: nat,
)
    requires
        hops > 0,
    ensures
        id == 2 ==> path_of(inodes, names, id, hops).len() == 0,
        id != 2 && inodes.dom().contains(id) ==> {
            let parent = inodes[id].parent_id;
            if names.dom().contains((parent, id)) {
                let path = path_of(inodes, names, id, hops);
                &&& path.len() > 0
                &&& path.last() == names[(parent, id)]
                &&& path.drop_last() == path_of(inodes, names, parent, (hops - 1) as nat)
            } else {
                path_of(inodes, names, id, hops).len() == 0
            }
        },
{
    if id != 2 && inodes.dom().contains(id) {
        let parent = inodes[id].parent_id;
        if names.dom().contains((parent, id)) {
            let above = path_of(inodes, names, parent, (hops - 1) as nat);
            assert(above.push(names[(parent, id)]).drop_last() =~= above);
        }
    }
}

/// Whether a block can be salvaged: its checksum is valid, it is a node of a file-system
/// tree, type 3 and subtype 14, and the second lowest bit of byte 32 makes it a leaf.
pub open spec fn is_salvageable(block: Seq<u8>) -> bool {
    &&& checksum::is_valid_block(block)
    &&& block.len() >= 32
    &&& bytes::le_u16(block, 24) == 3
    &&& bytes::le_u16(block, 28) == 14
    &&& !types::is_keybag_code(bytes::le_u32(block, 24))
    &&& !types::is_keybag_code(bytes::le_u32(block, 28))
    &&& btree::node_of(block) is Ok
    &&& block[32] / 2 % 2 == 1
}

/// Whether records have one with the key, its header and the value of an entry, no value
/// standing for an empty one.
pub open spec fn has_record_of(records: Seq<RecordView>, entry: EntryView) -> bool {
    exists|k: int|
        0 <= k < records.len() && (#[trigger] records[k]).key == entry.key && catalog::header_of(
            entry.key,
        ) == Ok::<JKey, ApfsError>(records[k].key_header) && records[k].value == match entry.value {
            Some(value) => value,
            None => Seq::empty(),
        }
}

/// A block is salvaged exactly when it can be; then its node has the block's address, and
/// a record for each entry of the leaf whose key has the eight bytes of a header.
pub proof fn law_salvageable_blocks_are_salvaged(block: Seq<u8>, addr: u64)
    ensures
        salvaged(block, addr) == Ok::<Option<OrphanedNodeView>, ApfsError>(None)
            <==> !is_salvageable(block),
        salvaged(block, addr) matches Ok(Some(node)) ==> {
            &&& node.block == addr
            &&& forall|i: u32|
                i < bytes::le_u32(block, 36) ==> (#[trigger] btree::entry_of(
                    block,
                    i,
                    0,
                    0,
                ) matches Ok(entry) && (entry.key.len() >= 8 ==> has_record_of(
                    node.records,
                    entry,
                )))
        },
{
    lemma_salvageable(block);
    if salvaged(block, addr) matches Ok(Some(node)) {
        lemma_leaf_records(block, btree::node_key_count(block) as nat);
    }
}

proof fn lemma_type_number(block: Seq<u8>, at: int)
    ensures
        ({
            let field = bytes::le_u32(block, at);
            &&& types::object_type_of(field) == ObjectType::BtreeNode <==> bytes::le_u16(block, at)
                == 3 && !types::is_keybag_code(field)
            &&& types::object_type_of(field) == ObjectType::FsTree <==> bytes::le_u16(block, at)
                == 14 && !types::is_keybag_code(field)
        }),
{
    let field = bytes::le_u32(block, at);
    assert(field == bytes::le_u16(block, at) + 0x1_0000 * (block[at + 2] + 0x100 * block[at + 3]));
    assert(field % 0x1_0000 == bytes::le_u16(block, at));
}

proof fn lemma_salvageable(block: Seq<u8>)
    ensures
        is_catalog_leaf(block) <==> is_salvageable(block),
{
    lemma_type_number(block, 24);
    lemma_type_number(block, 28);
    let flags = bytes::le_u16(block, 32);
    assert(flags & 2 == 2 <==> flags / 2 % 2 == 1) by (bit_vector);
    assert(flags / 2 == block[32] / 2 + 128 * block[33]);
    assert(btree::node_is_leaf(block) <==> block[32] / 2 % 2 == 1);
}

proof fn lemma_leaf_records(block: Seq<u8>, count: nat)
    requires
        count <= u32::MAX,
        leaf_records(block, count) is Ok,
    ensures
        forall|i: u32|
            i < count ==> (#[trigger] btree::entry_of(block, i, 0, 0) matches Ok(entry) && (
            entry.key.len() >= 8 ==> has_record_of(leaf_records(block, count)->Ok_0, entry))),
    decreases count,
{
    if count > 0 {
        let last = (count - 1) as nat;
        lemma_leaf_records(block, last);
        let before = leaf_records(block, last)->Ok_0;
        let records = leaf_records(block, count)->Ok_0;
        assert forall|i: u32| i < count implies (#[trigger] btree::entry_of(
            block,
            i,
            0,
            0,
        ) matches Ok(entry) && (entry.key.len() >= 8 ==> has_record_of(records, entry))) by {
            let entry = btree::entry_of(block, i, 0, 0)->Ok_0;
            if entry.key.len() >= 8 {
                if i < last {
                    assert(has_record_of(before, entry));
                    let k = choose|k: int|
                        0 <= k < before.len() && (#[trigger] before[k]).key == entry.key
                            && catalog::header_of(entry.key) == Ok::<JKey, ApfsError>(
                            before[k].key_header,
                        ) && before[k].value == match entry.value {
                            Some(value) => value,
                            None => Seq::empty(),
                        };
                    assert(records[k] == before[k]);
                } else {
                    assert(records[before.len() as int].key == entry.key);
                }
            }
        }
    }
}

/// A scan misses no node: every block of the range that the device has, that is not
/// allocated and that can be salvaged is found.
pub proof fn law_scan_misses_no_node(
    device: Device,
    sm: SpaceManagerView,
    start: nat,
    end: nat,
    addr: u64,
)
    requires
        end <= u64::MAX,
        start <= addr < end,
        addr < sm.main_device.block_count,
        space_manager::allocated_at(device, sm, addr) == Ok::<bool, ApfsError>(false),
        checkpoint::block_at(device, sm.block_size, addr) matches Ok(block) && is_salvageable(
            block,
        ),
    ensures
        orphans_between(device, sm, start, end) matches Ok(found) ==> exists|i: int|
            0 <= i < found.len() && (#[trigger] found[i]).block == addr,
    decreases end,
{
    reveal(orphan_at);
    if let Ok(found) = orphans_between(device, sm, start, end) {
        let before = orphans_between(device, sm, start, (end - 1) as nat)->Ok_0;
        if addr < end - 1 {
            law_scan_misses_no_node(device, sm, start, (end - 1) as nat, addr);
            let i = choose|i: int|
                0 <= i < before.len() && (#[trigger] before[i]).block == addr;
            assert(found[i] == before[i]);
        } else {
            let block = checkpoint::block_at(device, sm.block_size, addr)->Ok_0;
            law_salvageable_blocks_are_salvaged(block, addr);
            assert(found[before.len() as int].block == addr);
        }
    }
}

/// A deleted file has the path which the snapshot's own inodes and directory entries give it,
/// through at most 256 directories.
pub proof fn law_deleted_file_has_its_snapshot_path(
    device: Device,
    live: Catalog,
    snapshot: Catalog,
    snapshot_xid: u64,
    inode_records: Seq<RecordView>,
    dir_records: Seq<RecordView>,
    i: int,
)
    requires
        catalog::catalog_records(device, snapshot, Selection::Kind(JObjType::Inode)) == Ok::<
            Seq<RecordView>,
            ApfsError,
        >(inode_records),
        catalog::catalog_records(device, snapshot, Selection::Kind(JObjType::DirRec)) == Ok::<
            Seq<RecordView>,
            ApfsError,
        >(dir_records),
        snapshot_diff(device, live, snapshot, snapshot_xid) matches Ok(files) && 0 <= i
            < files.len(),
    ensures
        ({
            let file = snapshot_diff(device, live, snapshot, snapshot_xid)->Ok_0[i];
            let inodes = inodes_in(inode_records, inode_records.len());
            let names = names_in(dir_records, dir_records.len());
            let parent = file.inode.parent_id;
            if file.obj_id != 2 && names.dom().contains((parent, file.obj_id)) {
                &&& file.path.len() > 0
                &&& file.path.last() == names[(parent, file.obj_id)]
                &&& file.path.drop_last() == path_of(inodes, names, parent, 255)
            } else {
                file.path.len() == 0
            }
        }),
{
    let files = snapshot_diff(device, live, snapshot, snapshot_xid)->Ok_0;
    let file = files[i];
    let live_records = catalog::catalog_records(
        device,
        live,
        Selection::Kind(JObjType::Inode),
    )->Ok_0;
    let inodes = inodes_in(inode_records, inode_records.len());
    let names = names_in(dir_records, dir_records.len());
    let gone = inodes.dom().difference(ids_of(live_records));
    index::law_ascending_lists_the_set(gone);
    let order = index::ascending(gone);
    assert(order.contains(order[i]));
    assert(gone.contains(file.obj_id));
    law_path_goes_through_the_parent(inodes, names, file.obj_id, 256);
}

/// Every record of a salvaged node is that of an entry of the leaf.
pub proof fn law_salvaged_records_are_those_of_the_leaf(block: Seq<u8>, addr: u64, k: int)
    requires
        salvaged(block, addr) matches Ok(Some(node)) && 0 <= k < node.records.len(),
    ensures
        exists|i: u32|
            i < bytes::le_u32(block, 36) && (#[trigger] btree::entry_of(block, i, 0, 0) matches Ok(
                entry,
            ) && has_record_of(seq![salvaged(block, addr)->Ok_0->0.records[k]], entry)),
{
    lemma_record_of_leaf(block, btree::node_key_count(block) as nat, k);
}

proof fn lemma_record_of_leaf(block: Seq<u8>, count: nat, k: int)
    requires
        count <= u32::MAX,
        leaf_records(block, count) matches Ok(records) && 0 <= k < records.len(),
    ensures
        exists|i: u32|
            i < count && (#[trigger] btree::entry_of(block, i, 0, 0) matches Ok(entry)
                && has_record_of(seq![leaf_records(block, count)->Ok_0[k]], entry)),
    decreases count,
{
    if count > 0 {
        let last = (count - 1) as nat;
        let before = leaf_records(block, last)->Ok_0;
        let records = leaf_records(block, count)->Ok_0;
        if k < before.len() {
            lemma_record_of_leaf(block, last, k);
            assert(records[k] == before[k]);
        } else {
            let entry = btree::entry_of(block, last as u32, 0, 0)->Ok_0;
            let one = seq![records[k]];
            assert(one[0].key == entry.key);
            assert(has_record_of(one, entry));
        }
    }
}

/// A recovered file is read wherever its extended fields and its extents can be read, its
/// data-stream field, if it has one, is whole, and the file that these make can be read.
pub proof fn law_deleted_content_is_given(
    device: Device,
    catalog: Catalog,
    inode: InodeView,
    block_size: u32,
    data: Seq<u8>,
)
    requires
        is_stream_field(inode, data),
        data.len() >= 40,
    ensures
        match extent::catalog_extents(device, catalog, inode.private_id) {
            Ok(extents) => deleted_content(device, catalog, inode, block_size)
                == extent::whole_content(
                device,
                block_size,
                (FileView { size: bytes::le_u64(data, 0), extents }),
            ),
            Err(error) => deleted_content(device, catalog, inode, block_size) == Err::<
                Seq<u8>,
                ApfsError,
            >(error),
        },
{
    lemma_stream_size(inode, data);
}

/// A comparison of two catalogs succeeds wherever their inode records and the directory records
/// of the snapshot can be read, whatever those records hold.
pub proof fn law_diff_is_given(device: Device, live: Catalog, snapshot: Catalog, xid: u64)
    ensures
        snapshot_diff(device, live, snapshot, xid) is Ok <==> catalog::catalog_records(
            device,
            live,
            Selection::Kind(JObjType::Inode),
        ) is Ok && catalog::catalog_records(
            device,
            snapshot,
            Selection::Kind(JObjType::Inode),
        ) is Ok && catalog::catalog_records(
            device,
            snapshot,
            Selection::Kind(JObjType::DirRec),
        ) is Ok,
{
}

/// A scan succeeds wherever it can tell of each block of the range that the device has whether
/// it is allocated, and can read those that are not and the leaves among them.
pub proof fn law_scan_is_given(device: Device, sm: SpaceManagerView, start: nat, end: nat)
    requires
        end <= u64::MAX,
        forall|addr: u64|
            start <= addr < end && addr < sm.main_device.block_count ==> match (
            #[trigger] space_manager::allocated_at(device, sm, addr)) {
                Err(_) => false,
                Ok(true) => true,
                Ok(false) => checkpoint::block_at(device, sm.block_size, addr) matches Ok(block)
                    && salvaged(block, addr) is Ok,
            },
    ensures
        orphans_between(device, sm, start, end) is Ok,
    decreases end,
{
    reveal(orphan_at);
    if start < end {
        law_scan_is_given(device, sm, start, (end - 1) as nat);
        let last = (end - 1) as u64;
        assert(end <= sm.main_device.block_count ==> space_manager::allocated_at(
            device,
            sm,
            last,
        ) is Ok);
    }
}

} // verus!
