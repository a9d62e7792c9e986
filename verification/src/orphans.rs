//! Reassembly of deleted objects from orphaned catalog records.
//!
//! The records salvaged from unallocated blocks are scattered; this module
//! gathers those of each object, and joins file extents to the inode that names
//! their data stream.

use std::collections::{BTreeMap, BTreeSet};

use vstd::prelude::*;

use crate::catalog::{CatalogRecord, JObjType, RecordView};
use crate::error;
use crate::extent;
use crate::extent::FileExtent;
use crate::index;
use crate::inode;
use crate::inode::{Inode, InodeView};
use crate::recovery;
use crate::recovery::{OrphanedNode, OrphanedNodeView, Provenance};
use crate::xattr;
use crate::xattr::{Xattr, XattrView};

verus! {

/// A deleted file-system object reconstructed from orphaned catalog records
/// salvaged out of unallocated space.
///
/// Each field is filled only when a corresponding record was recovered; an
/// absent inode, name, or extent list is the candidate's explicit missing-data
/// state.
#[derive(Debug, Clone)]
pub struct RecoveredObject {
    /// The object's identifier: the key shared by its records.
    pub obj_id: u64,
    /// The unallocated block that the first of the records it is recovered from
    /// was salvaged from.
    pub provenance: Provenance,
    /// The object's inode, if an inode record was recovered.
    pub inode: Option<Inode>,
    /// The object's name, if a directory entry naming it was recovered.
    pub name: Option<String>,
    /// The object's extended attributes, from any recovered `XATTR` records.
    pub xattrs: Vec<Xattr>,
    /// The object's file extents, from any recovered `FILE_EXTENT` records.
    pub extents: Vec<FileExtent>,
}

/// The content of a [`RecoveredObject`].
#[verifier::ext_equal]
pub struct RecoveredObjectView {
    /// The object's identifier.
    pub obj_id: u64,
    /// The unallocated block that the first of the records it is recovered from
    /// was salvaged from.
    pub provenance: Provenance,
    /// The object's inode, if an inode record was recovered.
    pub inode: Option<InodeView>,
    /// The object's name, if a directory entry naming it was recovered.
    pub name: Option<Seq<char>>,
    /// The object's extended attributes.
    pub xattrs: Seq<XattrView>,
    /// The object's file extents.
    pub extents: Seq<FileExtent>,
}

impl View for RecoveredObject {
    type V = RecoveredObjectView;

    open spec fn view(&self) -> RecoveredObjectView {
        RecoveredObjectView {
            obj_id: self.obj_id,
            provenance: self.provenance,
            inode: error::some_view(self.inode),
            name: error::some_view(self.name),
            xattrs: error::views(self.xattrs@),
            extents: self.extents@,
        }
    }
}

impl RecoveredObject {
    /// Whether an inode record was recovered for this object.
    ///
    /// A candidate without an inode (orphaned extents, or a name with no inode
    /// behind it) is incomplete and reports `false`.
    #[must_use]
    pub fn has_inode(&self) -> (recovered: bool)
        ensures
            recovered == self@.inode is Some,
    {
        self.inode.is_some()
    }
}

/// A record salvaged from a block.
pub struct Salvage {
    /// The place of the record's node among the salvaged nodes.
    pub node: nat,
    /// The block the record was found in.
    pub block: u64,
    /// The record.
    pub record: RecordView,
}

/// The first `count` records of the node at `place`.
pub open spec fn node_salvage(node: OrphanedNodeView, place: nat, count: nat) -> Seq<Salvage> {
    Seq::new(
        count,
        |i: int| Salvage { node: place, block: node.block, record: node.records[i] },
    )
}

/// The records of the first `count` nodes.
pub open spec fn all_salvage(nodes: Seq<OrphanedNodeView>, count: nat) -> Seq<Salvage>
    decreases count,
{
    if count == 0 {
        Seq::empty()
    } else {
        all_salvage(nodes, (count - 1) as nat) + node_salvage(
            nodes[count - 1],
            (count - 1) as nat,
            nodes[count - 1].records.len(),
        )
    }
}

/// Whether a record is of a kind that an object is recovered from, and can be
/// decoded.
pub open spec fn decodes(record: RecordView) -> bool {
    match record.key_header.kind {
        JObjType::Inode => inode::inode_of(record.value) is Ok,
        JObjType::Xattr => xattr::xattr_of(record.key, record.value) is Ok,
        JObjType::DirRec => recovery::entry_either(record) is Some,
        JObjType::FileExtent => extent::file_extent_of(record.key, record.value) is Ok,
        _ => false,
    }
}

/// The object that a record belongs to: its own for an inode or an extended
/// attribute, the child for a directory entry, and none for another record or
/// one that cannot be decoded.
pub open spec fn subject_of(record: RecordView) -> Option<u64> {
    if decodes(record) {
        match record.key_header.kind {
            JObjType::Inode => Some(record.key_header.obj_id),
            JObjType::Xattr => Some(record.key_header.obj_id),
            JObjType::DirRec => Some(recovery::entry_either(record)->0.file_id),
            _ => None,
        }
    } else {
        None
    }
}

/// The inode that a record gives the object `id`.
pub open spec fn inode_from(record: RecordView, id: u64) -> Option<InodeView> {
    if record.key_header.kind == JObjType::Inode && record.key_header.obj_id == id {
        match inode::inode_of(record.value) {
            Ok(inode) => Some(inode),
            Err(_) => None,
        }
    } else {
        None
    }
}

/// The name that a record gives the object `id`.
pub open spec fn name_from(record: RecordView, id: u64) -> Option<Seq<char>> {
    if record.key_header.kind == JObjType::DirRec {
        match recovery::entry_either(record) {
            Some(entry) => if entry.file_id == id {
                Some(entry.name)
            } else {
                None
            },
            None => None,
        }
    } else {
        None
    }
}

/// The extended attribute that a record gives the object `id`.
pub open spec fn xattr_from(record: RecordView, id: u64) -> Option<XattrView> {
    if record.key_header.kind == JObjType::Xattr && record.key_header.obj_id == id {
        match xattr::xattr_of(record.key, record.value) {
            Ok(found) => Some(found),
            Err(_) => None,
        }
    } else {
        None
    }
}

/// The extent that a record gives the data stream `id`.
pub open spec fn extent_from(record: RecordView, id: u64) -> Option<FileExtent> {
    if record.key_header.kind == JObjType::FileExtent && record.key_header.obj_id == id {
        match extent::file_extent_of(record.key, record.value) {
            Ok(found) => Some(found),
            Err(_) => None,
        }
    } else {
        None
    }
}

/// The records that belong to the object `id`.
pub open spec fn belongs_to(id: u64) -> spec_fn(RecordView) -> bool {
    |record: RecordView| subject_of(record) == Some(id)
}

/// The records that give the data stream `id` an extent.
pub open spec fn extends(id: u64) -> spec_fn(RecordView) -> bool {
    |record: RecordView| extent_from(record, id) is Some
}

/// The first record for which `wanted` holds.
pub open spec fn first_where(list: Seq<Salvage>, wanted: spec_fn(RecordView) -> bool) -> Option<
    Salvage,
>
    decreases list.len(),
{
    if list.len() == 0 {
        None
    } else {
        match first_where(list.drop_last(), wanted) {
            Some(found) => Some(found),
            None => if wanted(list.last().record) {
                Some(list.last())
            } else {
                None
            },
        }
    }
}

/// The last inode that the records give the object `id`.
pub open spec fn last_inode(list: Seq<Salvage>, id: u64) -> Option<InodeView>
    decreases list.len(),
{
    if list.len() == 0 {
        None
    } else {
        match inode_from(list.last().record, id) {
            Some(inode) => Some(inode),
            None => last_inode(list.drop_last(), id),
        }
    }
}

/// The first name that the records give the object `id`.
pub open spec fn first_name(list: Seq<Salvage>, id: u64) -> Option<Seq<char>>
    decreases list.len(),
{
    if list.len() == 0 {
        None
    } else {
        match first_name(list.drop_last(), id) {
            Some(name) => Some(name),
            None => name_from(list.last().record, id),
        }
    }
}

/// The extended attributes that the records give the object `id`, in their
/// order.
pub open spec fn all_xattrs(list: Seq<Salvage>, id: u64) -> Seq<XattrView>
    decreases list.len(),
{
    if list.len() == 0 {
        Seq::empty()
    } else {
        let before = all_xattrs(list.drop_last(), id);
        match xattr_from(list.last().record, id) {
            Some(found) => before.push(found),
            None => before,
        }
    }
}

/// The extents that the records give the data stream `id`, in their order.
pub open spec fn all_extents(list: Seq<Salvage>, id: u64) -> Seq<FileExtent>
    decreases list.len(),
{
    if list.len() == 0 {
        Seq::empty()
    } else {
        let before = all_extents(list.drop_last(), id);
        match extent_from(list.last().record, id) {
            Some(found) => before.push(found),
            None => before,
        }
    }
}

/// Whether an object has an inode that names the data stream `id`.
pub open spec fn is_claimed(list: Seq<Salvage>, id: u64) -> bool {
    exists|owner: u64|
        (#[trigger] last_inode(list, owner)) matches Some(inode) && inode.private_id == id
}

/// Whether the data stream `id` has extents that no inode claims.
pub open spec fn is_loose(list: Seq<Salvage>, id: u64) -> bool {
    first_where(list, extends(id)) is Some && !is_claimed(list, id)
}

/// The extents of the data stream `id` if no inode claims them.
pub open spec fn loose_extents(list: Seq<Salvage>, id: u64) -> Seq<FileExtent> {
    if is_loose(list, id) {
        all_extents(list, id)
    } else {
        Seq::empty()
    }
}

/// The extents of the object `id`: those of the data stream that its inode
/// names, then those of the stream with the object's own identifier if no inode
/// claims them.
pub open spec fn extents_of(list: Seq<Salvage>, id: u64) -> Seq<FileExtent> {
    match last_inode(list, id) {
        Some(inode) => all_extents(list, inode.private_id) + loose_extents(list, id),
        None => loose_extents(list, id),
    }
}

/// Whether the extents of the data stream `stream` are joined to the object
/// `id`.
pub open spec fn joins(list: Seq<Salvage>, id: u64, stream: u64) -> bool {
    ||| (last_inode(list, id) matches Some(inode) && inode.private_id == stream)
    ||| (stream == id && is_loose(list, id))
}

/// The records that the object `id` is recovered from: those that belong to it,
/// and those whose extents are joined to it.
pub open spec fn recovers(list: Seq<Salvage>, id: u64) -> spec_fn(RecordView) -> bool {
    |record: RecordView|
        subject_of(record) == Some(id) || (joins(list, id, record.key_header.obj_id)
            && extent_from(record, record.key_header.obj_id) is Some)
}

/// The recovered object `id`.
pub open spec fn recovered_at(list: Seq<Salvage>, id: u64) -> RecoveredObjectView {
    RecoveredObjectView {
        obj_id: id,
        provenance: Provenance::Unallocated(first_where(list, recovers(list, id))->0.block),
        inode: last_inode(list, id),
        name: first_name(list, id),
        xattrs: all_xattrs(list, id),
        extents: extents_of(list, id),
    }
}

/// The objects that records belong to, and the data streams that no inode
/// claims.
pub open spec fn recovered_ids(list: Seq<Salvage>) -> Set<u64> {
    Set::new(|id: u64| first_where(list, belongs_to(id)) is Some || is_loose(list, id))
}

/// The recovered objects, in order of their identifiers.
pub open spec fn recovered(list: Seq<Salvage>) -> Seq<RecoveredObjectView> {
    index::ascending(recovered_ids(list)).map_values(|id: u64| recovered_at(list, id))
}

/// The recovered objects come in order of their identifiers, each once: one for
/// every object that a record belongs to and for every data stream that no inode
/// claims.
pub proof fn law_objects_are_in_order(list: Seq<Salvage>)
    ensures
        forall|i: int, j: int|
            0 <= i < j < recovered(list).len() ==> (#[trigger] recovered(list)[i]).obj_id < (
            #[trigger] recovered(list)[j]).obj_id,
        forall|id: u64| #[trigger]
            recovered_ids(list).contains(id) ==> exists|i: int|
                0 <= i < recovered(list).len() && (#[trigger] recovered(list)[i]).obj_id == id,
        forall|i: int|
            0 <= i < recovered(list).len() ==> recovered_ids(list).contains(
                (#[trigger] recovered(list)[i]).obj_id,
            ),
{
    let ids = index::ascending(recovered_ids(list));
    index::law_ascending_lists_the_set(recovered_ids(list));
    assert forall|i: int, j: int| 0 <= i < j < recovered(list).len() implies (
    #[trigger] recovered(list)[i]).obj_id < (#[trigger] recovered(list)[j]).obj_id by {
        assert(ids[i] < ids[j]);
    }
    assert forall|id: u64| #[trigger] recovered_ids(list).contains(id) implies exists|i: int|
        0 <= i < recovered(list).len() && (#[trigger] recovered(list)[i]).obj_id == id by {
        assert(ids.contains(id));
        let i = ids.index_of(id);
        assert(recovered(list)[i].obj_id == id);
    }
    assert forall|i: int| 0 <= i < recovered(list).len() implies recovered_ids(list).contains(
        (#[trigger] recovered(list)[i]).obj_id,
    ) by {
        assert(ids.contains(ids[i]));
    }
}

/// What holds of the first record for which `wanted` holds.
proof fn lemma_first_where(list: Seq<Salvage>, wanted: spec_fn(RecordView) -> bool)
    ensures
        match first_where(list, wanted) {
            Some(found) => exists|at: int|
                0 <= at < list.len() && #[trigger] list[at] == found && wanted(found.record)
                    && forall|i: int| 0 <= i < at ==> !wanted((#[trigger] list[i]).record),
            None => forall|i: int| 0 <= i < list.len() ==> !wanted((#[trigger] list[i]).record),
        },
    decreases list.len(),
{
    if list.len() > 0 {
        let less = list.drop_last();
        lemma_first_where(less, wanted);
        assert forall|i: int| 0 <= i < less.len() implies #[trigger] list[i] == less[i] by {}
        match first_where(less, wanted) {
            Some(found) => {
                let at = choose|at: int|
                    0 <= at < less.len() && #[trigger] less[at] == found && wanted(found.record)
                        && forall|i: int| 0 <= i < at ==> !wanted((#[trigger] less[i]).record);
                assert(list[at] == found);
                assert forall|i: int| 0 <= i < at implies !wanted((#[trigger] list[i]).record) by {
                    assert(list[i] == less[i]);
                }
            },
            None => {
                assert forall|i: int| 0 <= i < less.len() implies !wanted(
                    (#[trigger] list[i]).record,
                ) by {
                    assert(list[i] == less[i]);
                }
                if wanted(list.last().record) {
                    assert(list[list.len() - 1] == list.last());
                }
            },
        }
    }
}

/// The first record does not depend on how the wanted ones are described.
proof fn lemma_same_first(
    list: Seq<Salvage>,
    wanted: spec_fn(RecordView) -> bool,
    other: spec_fn(RecordView) -> bool,
)
    requires
        forall|record: RecordView| #[trigger] wanted(record) == other(record),
    ensures
        first_where(list, wanted) == first_where(list, other),
    decreases list.len(),
{
    if list.len() > 0 {
        lemma_same_first(list.drop_last(), wanted, other);
    }
}

/// What the records give an object that none belongs to: nothing.
proof fn lemma_untouched(list: Seq<Salvage>, id: u64)
    requires
        first_where(list, belongs_to(id)) is None,
    ensures
        last_inode(list, id) is None,
        first_name(list, id) is None,
        all_xattrs(list, id) == Seq::<XattrView>::empty(),
    decreases list.len(),
{
    if list.len() > 0 {
        lemma_untouched(list.drop_last(), id);
    }
}

/// What the records give a data stream without extents: none.
proof fn lemma_no_stream(list: Seq<Salvage>, id: u64)
    requires
        first_where(list, extends(id)) is None,
    ensures
        all_extents(list, id) == Seq::<FileExtent>::empty(),
    decreases list.len(),
{
    if list.len() > 0 {
        lemma_no_stream(list.drop_last(), id);
    }
}

/// The extent of a record is among those of its data stream.
proof fn lemma_extent_is_listed(list: Seq<Salvage>, id: u64, at: int)
    requires
        0 <= at < list.len(),
        extent_from(list[at].record, id) is Some,
    ensures
        all_extents(list, id).contains(extent_from(list[at].record, id)->0),
    decreases list.len(),
{
    let found = extent_from(list[at].record, id)->0;
    let before = all_extents(list.drop_last(), id);
    if at == list.len() - 1 {
        assert(all_extents(list, id)[before.len() as int] == found);
    } else {
        lemma_extent_is_listed(list.drop_last(), id, at);
        let place = before.index_of(found);
        assert(all_extents(list, id)[place] == found);
    }
}

/// A recovered object comes from the block of the first record that belongs to
/// it or whose extent is joined to it.
pub proof fn law_provenance_is_the_first_record(list: Seq<Salvage>, id: u64)
    requires
        recovered_ids(list).contains(id),
    ensures
        exists|at: int|
            0 <= at < list.len() && recovered_at(list, id).provenance == Provenance::Unallocated(
                (#[trigger] list[at]).block,
            ) && recovers(list, id)(list[at].record) && forall|i: int|
                0 <= i < at ==> !recovers(list, id)((#[trigger] list[i]).record),
{
    let wanted = recovers(list, id);
    lemma_first_where(list, wanted);
    lemma_first_where(list, belongs_to(id));
    lemma_first_where(list, extends(id));
    if first_where(list, belongs_to(id)) is Some {
        let found = first_where(list, belongs_to(id))->0;
        let at = choose|at: int| 0 <= at < list.len() && #[trigger] list[at] == found;
        assert(wanted(list[at].record));
    } else {
        let found = first_where(list, extends(id))->0;
        let at = choose|at: int| 0 <= at < list.len() && #[trigger] list[at] == found;
        assert(wanted(list[at].record));
    }
}

/// No extent is lost: an extent that can be decoded is among those of a
/// recovered object.
pub proof fn law_no_extent_is_lost(list: Seq<Salvage>, at: int)
    requires
        0 <= at < list.len(),
        list[at].record.key_header.kind == JObjType::FileExtent,
        decodes(list[at].record),
    ensures
        exists|id: u64| #[trigger]
            recovered_ids(list).contains(id) && recovered_at(list, id).extents.contains(
                extent::file_extent_of(list[at].record.key, list[at].record.value)->Ok_0,
            ),
{
    let record = list[at].record;
    let stream = record.key_header.obj_id;
    let found = extent_from(record, stream)->0;
    lemma_extent_is_listed(list, stream, at);
    lemma_first_where(list, extends(stream));
    let own = all_extents(list, stream);
    let place = own.index_of(found);
    if is_claimed(list, stream) {
        let owner = choose|owner: u64|
            (#[trigger] last_inode(list, owner)) matches Some(inode) && inode.private_id == stream;
        if first_where(list, belongs_to(owner)) is None {
            lemma_untouched(list, owner);
        }
        assert(recovered_ids(list).contains(owner));
        assert(extents_of(list, owner)[place] == found);
        assert(recovered_at(list, owner).extents.contains(found));
    } else {
        assert(extends(stream)(list[at].record));
        assert(is_loose(list, stream));
        assert(recovered_ids(list).contains(stream));
        let before = match last_inode(list, stream) {
            Some(inode) => all_extents(list, inode.private_id),
            None => Seq::empty(),
        };
        assert(extents_of(list, stream) =~= before + own);
        assert(extents_of(list, stream)[before.len() + place] == found);
        assert(recovered_at(list, stream).extents.contains(found));
    }
}

/// A record that gives nothing changes nothing that is read from the list.
proof fn lemma_insert(list: Seq<Salvage>, at: int, salvage: Salvage, id: u64)
    requires
        0 <= at <= list.len(),
        !decodes(salvage.record),
    ensures
        last_inode(list.insert(at, salvage), id) == last_inode(list, id),
        first_name(list.insert(at, salvage), id) == first_name(list, id),
        all_xattrs(list.insert(at, salvage), id) == all_xattrs(list, id),
        all_extents(list.insert(at, salvage), id) == all_extents(list, id),
    decreases list.len(),
{
    let more = list.insert(at, salvage);
    if at == list.len() {
        assert(more.drop_last() =~= list);
        assert(inode_from(salvage.record, id) is None);
        assert(name_from(salvage.record, id) is None);
        assert(xattr_from(salvage.record, id) is None);
        assert(extent_from(salvage.record, id) is None);
    } else {
        lemma_insert(list.drop_last(), at, salvage, id);
        assert(more.drop_last() =~= list.drop_last().insert(at, salvage));
        assert(more.last() == list.last());
    }
}

/// A record that is not wanted does not change which wanted one is first.
proof fn lemma_insert_first(
    list: Seq<Salvage>,
    at: int,
    salvage: Salvage,
    wanted: spec_fn(RecordView) -> bool,
)
    requires
        0 <= at <= list.len(),
        !wanted(salvage.record),
    ensures
        first_where(list.insert(at, salvage), wanted) == first_where(list, wanted),
    decreases list.len(),
{
    let more = list.insert(at, salvage);
    if at == list.len() {
        assert(more.drop_last() =~= list);
    } else {
        lemma_insert_first(list.drop_last(), at, salvage, wanted);
        assert(more.drop_last() =~= list.drop_last().insert(at, salvage));
        assert(more.last() == list.last());
    }
}

/// A record that cannot be decoded, wherever it stands, changes nothing: it is
/// skipped, and every object is recovered as without it.
pub proof fn law_malformed_record_is_skipped(list: Seq<Salvage>, at: int, salvage: Salvage)
    requires
        0 <= at <= list.len(),
        !decodes(salvage.record),
    ensures
        recovered(list.insert(at, salvage)) == recovered(list),
{
    let more = list.insert(at, salvage);
    assert forall|id: u64| #[trigger] last_inode(more, id) == last_inode(list, id) by {
        lemma_insert(list, at, salvage, id);
    }
    assert forall|id: u64| #[trigger] is_claimed(more, id) == is_claimed(list, id) by {
        if is_claimed(more, id) {
            let owner = choose|owner: u64|
                (#[trigger] last_inode(more, owner)) matches Some(inode) && inode.private_id == id;
            assert(last_inode(list, owner) == last_inode(more, owner));
        }
        if is_claimed(list, id) {
            let owner = choose|owner: u64|
                (#[trigger] last_inode(list, owner)) matches Some(inode) && inode.private_id == id;
            assert(last_inode(list, owner) == last_inode(more, owner));
        }
    }
    assert forall|id: u64| #[trigger] is_loose(more, id) == is_loose(list, id) by {
        lemma_insert_first(list, at, salvage, extends(id));
        assert(is_claimed(more, id) == is_claimed(list, id));
    }
    assert forall|id: u64| recovered_at(more, id) == recovered_at(list, id) by {
        lemma_insert(list, at, salvage, id);
        assert(is_loose(more, id) == is_loose(list, id));
        if let Some(inode) = last_inode(list, id) {
            lemma_insert(list, at, salvage, inode.private_id);
        }
        assert forall|record: RecordView| #[trigger]
            recovers(more, id)(record) == recovers(list, id)(record) by {
            assert(joins(more, id, record.key_header.obj_id) == joins(
                list,
                id,
                record.key_header.obj_id,
            ));
        }
        lemma_same_first(more, recovers(more, id), recovers(list, id));
        lemma_insert_first(list, at, salvage, recovers(list, id));
    }
    assert(recovered_ids(more) =~= recovered_ids(list)) by {
        assert forall|id: u64| recovered_ids(more).contains(id) == recovered_ids(list).contains(
            id,
        ) by {
            lemma_insert_first(list, at, salvage, belongs_to(id));
            assert(is_loose(more, id) == is_loose(list, id));
        }
    }
    assert(recovered(more) =~= recovered(list));
}

/// The extents of the data stream that an object's inode names come first among
/// those of the object, and the stream is then not an object of its own unless a
/// record belongs to it.
pub proof fn law_clone_extents_are_joined(list: Seq<Salvage>, id: u64)
    requires
        last_inode(list, id) is Some,
    ensures
        recovered_at(list, id).extents == all_extents(list, last_inode(list, id)->0.private_id)
            + loose_extents(list, id),
        first_where(list, belongs_to(last_inode(list, id)->0.private_id)) is None
            ==> !recovered_ids(list).contains(last_inode(list, id)->0.private_id),
{
    assert(is_claimed(list, last_inode(list, id)->0.private_id));
}

/// What the records that belong to an object give it.
struct Candidate {
    /// The place of the node of the first record.
    node: usize,
    /// The object's inode.
    inode: Option<Inode>,
    /// The object's name.
    name: Option<String>,
    /// The object's extended attributes.
    xattrs: Vec<Xattr>,
}

/// The extents of a data stream.
struct StreamExtents {
    /// The place of the node of the first record.
    node: usize,
    /// The extents.
    extents: Vec<FileExtent>,
}

impl Candidate {
    /// Whether the candidate holds what the records give the object `id`.
    spec fn gathers(&self, list: Seq<Salvage>, id: u64) -> bool {
        &&& error::some_view(self.inode) == last_inode(list, id)
        &&& error::some_view(self.name) == first_name(list, id)
        &&& error::views(self.xattrs@) == all_xattrs(list, id)
    }
}

/// Whether `candidates` holds a candidate for each object that a record belongs
/// to.
spec fn holds_candidates(candidates: Map<u64, Candidate>, list: Seq<Salvage>) -> bool {
    forall|id: u64|
        {
            &&& #[trigger] candidates.dom().contains(id) <==> first_where(
                list,
                belongs_to(id),
            ) is Some
            &&& candidates.dom().contains(id) ==> candidates[id].gathers(list, id)
                && candidates[id].node == first_where(list, belongs_to(id))->0.node
        }
}

/// Whether `streams` holds the extents of each data stream.
spec fn holds_streams(streams: Map<u64, StreamExtents>, list: Seq<Salvage>) -> bool {
    forall|id: u64|
        {
            &&& #[trigger] streams.dom().contains(id) <==> first_where(list, extends(id)) is Some
            &&& streams.dom().contains(id) ==> streams[id].node == first_where(
                list,
                extends(id),
            )->0.node && streams[id].extents@ == all_extents(list, id)
        }
}

/// Takes the candidate of an object, or makes an empty one.
fn take_candidate(
    candidates: &mut BTreeMap<u64, Candidate>,
    id: u64,
    node: usize,
    Ghost(list): Ghost<Seq<Salvage>>,
) -> (candidate: Candidate)
    requires
        holds_candidates(old(candidates)@, list),
    ensures
        final(candidates)@ == old(candidates)@.remove(id),
        candidate.gathers(list, id),
        candidate.node == match first_where(list, belongs_to(id)) {
            Some(found) => found.node,
            None => node as nat,
        },
{
    proof {
        assert(candidates@.dom().contains(id) <==> first_where(list, belongs_to(id)) is Some);
        if first_where(list, belongs_to(id)) is None {
            lemma_untouched(list, id);
        }
    }
    match index::take(candidates, id) {
        Some(candidate) => candidate,
        None => {
            let candidate: Candidate = Candidate {
                node,
                inode: None,
                name: None,
                xattrs: Vec::new(),
            };
            assert(error::views(candidate.xattrs@) =~= Seq::<XattrView>::empty());
            candidate
        },
    }
}

/// Adds what a record gives to the candidate that it belongs to.
proof fn lemma_candidate_step(
    before: Map<u64, Candidate>,
    list: Seq<Salvage>,
    salvage: Salvage,
    id: u64,
    candidate: Candidate,
)
    requires
        holds_candidates(before, list),
        subject_of(salvage.record) == Some(id),
        candidate.gathers(list.push(salvage), id),
        candidate.node == match first_where(list, belongs_to(id)) {
            Some(found) => found.node,
            None => salvage.node,
        },
    ensures
        holds_candidates(before.remove(id).insert(id, candidate), list.push(salvage)),
{
    let more = list.push(salvage);
    let after = before.remove(id).insert(id, candidate);
    assert(more.drop_last() =~= list);
    assert forall|other: u64|
        {
            &&& #[trigger] after.dom().contains(other) <==> first_where(
                more,
                belongs_to(other),
            ) is Some
            &&& after.dom().contains(other) ==> after[other].gathers(more, other)
                && after[other].node == first_where(more, belongs_to(other))->0.node
        } by {
        assert(before.dom().contains(other) <==> first_where(list, belongs_to(other)) is Some);
        if other != id {
            assert(inode_from(salvage.record, other) is None);
            assert(name_from(salvage.record, other) is None);
            assert(xattr_from(salvage.record, other) is None);
        }
    }
}

/// A record that belongs to no object changes no candidate.
proof fn lemma_candidates_unchanged(
    candidates: Map<u64, Candidate>,
    list: Seq<Salvage>,
    salvage: Salvage,
)
    requires
        holds_candidates(candidates, list),
        subject_of(salvage.record) is None,
    ensures
        holds_candidates(candidates, list.push(salvage)),
{
    let more = list.push(salvage);
    assert(more.drop_last() =~= list);
    assert forall|other: u64|
        {
            &&& #[trigger] candidates.dom().contains(other) <==> first_where(
                more,
                belongs_to(other),
            ) is Some
            &&& candidates.dom().contains(other) ==> candidates[other].gathers(more, other)
                && candidates[other].node == first_where(more, belongs_to(other))->0.node
        } by {
        assert(candidates.dom().contains(other) <==> first_where(list, belongs_to(other)) is Some);
        assert(inode_from(salvage.record, other) is None);
        assert(name_from(salvage.record, other) is None);
        assert(xattr_from(salvage.record, other) is None);
    }
}

/// A record that gives no extent changes no data stream.
proof fn lemma_streams_unchanged(
    streams: Map<u64, StreamExtents>,
    list: Seq<Salvage>,
    salvage: Salvage,
)
    requires
        holds_streams(streams, list),
        extent_from(salvage.record, salvage.record.key_header.obj_id) is None,
    ensures
        holds_streams(streams, list.push(salvage)),
{
    let more = list.push(salvage);
    assert(more.drop_last() =~= list);
    assert forall|other: u64|
        {
            &&& #[trigger] streams.dom().contains(other) <==> first_where(
                more,
                extends(other),
            ) is Some
            &&& streams.dom().contains(other) ==> streams[other].node == first_where(
                more,
                extends(other),
            )->0.node && streams[other].extents@ == all_extents(more, other)
        } by {
        assert(streams.dom().contains(other) <==> first_where(list, extends(other)) is Some);
        assert(extent_from(salvage.record, other) is None);
    }
}

/// Adds an extent to those of a data stream.
fn add_extent(
    streams: &mut BTreeMap<u64, StreamExtents>,
    id: u64,
    node: usize,
    found: FileExtent,
    Ghost(list): Ghost<Seq<Salvage>>,
    Ghost(salvage): Ghost<Salvage>,
)
    requires
        holds_streams(old(streams)@, list),
        salvage.node == node,
        salvage.record.key_header.obj_id == id,
        extent_from(salvage.record, id) == Some(found),
    ensures
        holds_streams(final(streams)@, list.push(salvage)),
{
    let ghost before = streams@;
    proof {
        assert(before.dom().contains(id) <==> first_where(list, extends(id)) is Some);
        if first_where(list, extends(id)) is None {
            lemma_no_stream(list, id);
        }
    }
    let mut stream: StreamExtents = match index::take(streams, id) {
        Some(stream) => stream,
        None => StreamExtents { node, extents: Vec::new() },
    };
    stream.extents.push(found);
    index::put(streams, id, stream);
    proof {
        let more = list.push(salvage);
        assert(more.drop_last() =~= list);
        assert forall|other: u64|
            {
                &&& #[trigger] streams@.dom().contains(other) <==> first_where(
                    more,
                    extends(other),
                ) is Some
                &&& streams@.dom().contains(other) ==> streams@[other].node == first_where(
                    more,
                    extends(other),
                )->0.node && streams@[other].extents@ == all_extents(more, other)
            } by {
            assert(before.dom().contains(other) <==> first_where(list, extends(other)) is Some);
            if other != id {
                assert(extent_from(salvage.record, other) is None);
            }
        }
    }
}

/// Adds what a record that belongs to an object gives.
fn add_to_candidate(
    candidates: &mut BTreeMap<u64, Candidate>,
    record: &CatalogRecord,
    node: usize,
    Ghost(list): Ghost<Seq<Salvage>>,
    Ghost(salvage): Ghost<Salvage>,
)
    requires
        holds_candidates(old(candidates)@, list),
        salvage.node == node,
        salvage.record == record@,
    ensures
        holds_candidates(final(candidates)@, list.push(salvage)),
{
    let ghost more = list.push(salvage);
    let ghost before = candidates@;
    let obj_id: u64 = record.key_header.obj_id;
    let kind: JObjType = record.key_header.kind;
    proof {
        assert(more.drop_last() =~= list);
    }
    if kind == JObjType::Inode {
        if let Ok(inode) = Inode::parse(record.value.as_slice()) {
            let mut candidate: Candidate = take_candidate(candidates, obj_id, node, Ghost(list));
            candidate.inode = Some(inode);
            proof {
                assert(candidate.gathers(more, obj_id));
                lemma_candidate_step(before, list, salvage, obj_id, candidate);
            }
            index::put(candidates, obj_id, candidate);
            return;
        }
    } else if kind == JObjType::Xattr {
        if let Ok(found) = xattr::parse_xattr(record.key.as_slice(), record.value.as_slice()) {
            let mut candidate: Candidate = take_candidate(candidates, obj_id, node, Ghost(list));
            let ghost start = candidate.xattrs@;
            proof {
                assert(error::views(start.push(found)) =~= error::views(start).push(found@));
            }
            candidate.xattrs.push(found);
            proof {
                assert(candidate.gathers(more, obj_id));
                lemma_candidate_step(before, list, salvage, obj_id, candidate);
            }
            index::put(candidates, obj_id, candidate);
            return;
        }
    } else if kind == JObjType::DirRec {
        // A directory record names a *child* object; the name belongs to that
        // child's candidate, not the directory's.
        if let Some(entry) = recovery::parse_either(record) {
            let child: u64 = entry.file_id;
            let mut candidate: Candidate = take_candidate(candidates, child, node, Ghost(list));
            if candidate.name.is_none() {
                candidate.name = Some(entry.name);
            }
            proof {
                assert(candidate.gathers(more, child));
                lemma_candidate_step(before, list, salvage, child, candidate);
            }
            index::put(candidates, child, candidate);
            return;
        }
    }
    proof {
        lemma_candidates_unchanged(before, list, salvage);
    }
}

/// Adds what a record gives its data stream.
fn add_to_stream(
    streams: &mut BTreeMap<u64, StreamExtents>,
    record: &CatalogRecord,
    node: usize,
    Ghost(list): Ghost<Seq<Salvage>>,
    Ghost(salvage): Ghost<Salvage>,
)
    requires
        holds_streams(old(streams)@, list),
        salvage.node == node,
        salvage.record == record@,
    ensures
        holds_streams(final(streams)@, list.push(salvage)),
{
    if record.key_header.kind == JObjType::FileExtent {
        if let Ok(found) = extent::parse_file_extent(
            record.key.as_slice(),
            record.value.as_slice(),
        ) {
            add_extent(
                streams,
                record.key_header.obj_id,
                node,
                found,
                Ghost(list),
                Ghost(salvage),
            );
            return;
        }
    }
    proof {
        lemma_streams_unchanged(streams@, list, salvage);
    }
}

/// Adds what the records of the node at `place` give.
fn add_node(
    candidates: &mut BTreeMap<u64, Candidate>,
    streams: &mut BTreeMap<u64, StreamExtents>,
    node: &OrphanedNode,
    place: usize,
    Ghost(list): Ghost<Seq<Salvage>>,
)
    requires
        holds_candidates(old(candidates)@, list),
        holds_streams(old(streams)@, list),
    ensures
        holds_candidates(
            final(candidates)@,
            list + node_salvage(node@, place as nat, node@.records.len()),
        ),
        holds_streams(
            final(streams)@,
            list + node_salvage(node@, place as nat, node@.records.len()),
        ),
{
    let mut i: usize = 0;
    proof {
        assert(list + node_salvage(node@, place as nat, 0) =~= list);
    }
    while i < node.records.len()
        invariant
            i <= node.records@.len(),
            holds_candidates(candidates@, list + node_salvage(node@, place as nat, i as nat)),
            holds_streams(streams@, list + node_salvage(node@, place as nat, i as nat)),
        decreases node.records@.len() - i,
    {
        let ghost done = list + node_salvage(node@, place as nat, i as nat);
        let ghost salvage = Salvage {
            node: place as nat,
            block: node.block,
            record: node.records@[i as int]@,
        };
        add_to_candidate(candidates, &node.records[i], place, Ghost(done), Ghost(salvage));
        add_to_stream(streams, &node.records[i], place, Ghost(done), Ghost(salvage));
        proof {
            assert(node@.records[i as int] == node.records@[i as int]@);
            assert(done.push(salvage) =~= list + node_salvage(
                node@,
                place as nat,
                (i + 1) as nat,
            ));
        }
        i += 1;
    }
}

/// The data streams that the inodes of the candidates name.
spec fn named_streams(list: Seq<Salvage>) -> Set<u64> {
    Set::new(|id: u64| is_claimed(list, id))
}

/// Collects the data streams that the inodes of candidates name.
fn collect_claims(
    candidates: &BTreeMap<u64, Candidate>,
    Ghost(list): Ghost<Seq<Salvage>>,
) -> (claims: BTreeSet<u64>)
    requires
        holds_candidates(candidates@, list),
    ensures
        claims@ == named_streams(list),
{
    let ids: Vec<u64> = index::ids(candidates);
    let mut claims: BTreeSet<u64> = BTreeSet::new();
    let mut i: usize = 0;
    proof {
        index::law_ascending_lists_the_set(candidates@.dom());
    }
    while i < ids.len()
        invariant
            i <= ids@.len(),
            holds_candidates(candidates@, list),
            forall|id: u64| #[trigger] ids@.contains(id) <==> candidates@.dom().contains(id),
            forall|id: u64| #[trigger] claims@.contains(id) ==> is_claimed(list, id),
            forall|k: int|
                0 <= k < i ==> (last_inode(list, #[trigger] ids@[k]) matches Some(inode)
                    ==> claims@.contains(inode.private_id)),
        decreases ids@.len() - i,
    {
        let id: u64 = ids[i];
        proof {
            assert(ids@.contains(id));
            assert(candidates@.dom().contains(id));
        }
        if let Some(candidate) = index::get(candidates, id) {
            if let Some(inode) = &candidate.inode {
                proof {
                    assert(last_inode(list, id) == Some(inode@));
                    assert(is_claimed(list, inode@.private_id));
                }
                index::include_id(&mut claims, inode.private_id);
            }
        }
        i += 1;
    }
    proof {
        assert forall|id: u64| claims@.contains(id) <==> named_streams(list).contains(id) by {
            if is_claimed(list, id) {
                let owner = choose|owner: u64|
                    (#[trigger] last_inode(list, owner)) matches Some(inode) && inode.private_id
                        == id;
                if first_where(list, belongs_to(owner)) is None {
                    lemma_untouched(list, owner);
                }
                assert(candidates@.dom().contains(owner));
                assert(ids@.contains(owner));
                let k = ids@.index_of(owner);
                assert(last_inode(list, ids@[k]) is Some);
            }
        }
        assert(claims@ =~= named_streams(list));
    }
    claims
}

/// Whether the records stand in the order of their nodes, each with the block of
/// its node.
spec fn is_placed(list: Seq<Salvage>, nodes: Seq<OrphanedNodeView>) -> bool {
    &&& forall|i: int|
        0 <= i < list.len() ==> (#[trigger] list[i]).node < nodes.len() && list[i].block
            == nodes[list[i].node as int].block
    &&& forall|i: int, j: int|
        0 <= i <= j < list.len() ==> (#[trigger] list[i]).node <= (#[trigger] list[j]).node
}

/// The records of nodes stand in the order of the nodes.
proof fn lemma_placed(nodes: Seq<OrphanedNodeView>, count: nat)
    requires
        count <= nodes.len(),
    ensures
        is_placed(all_salvage(nodes, count), nodes),
        forall|i: int|
            0 <= i < all_salvage(nodes, count).len() ==> (#[trigger] all_salvage(
                nodes,
                count,
            )[i]).node < count,
    decreases count,
{
    if count > 0 {
        let last = (count - 1) as nat;
        lemma_placed(nodes, last);
        let before = all_salvage(nodes, last);
        let list = all_salvage(nodes, count);
        assert forall|i: int| 0 <= i < list.len() implies (#[trigger] list[i]).node < count
            && list[i].block == nodes[list[i].node as int].block && (i < before.len() ==> list[i]
            == before[i]) && (i >= before.len() ==> list[i].node == last) by {
            if i < before.len() {
                assert(list[i] == before[i]);
            }
        }
    }
}

/// The node that an object is first recovered from: the first of those of the
/// record that first belongs to it and of the first extents that are joined to
/// it.
proof fn lemma_first_node(list: Seq<Salvage>, nodes: Seq<OrphanedNodeView>, id: u64)
    requires
        is_placed(list, nodes),
        recovered_ids(list).contains(id),
    ensures
        first_where(list, recovers(list, id)) matches Some(first) && {
            &&& first.node < nodes.len()
            &&& first.block == nodes[first.node as int].block
            &&& first_where(list, belongs_to(id)) matches Some(found) ==> first.node <= found.node
            &&& forall|stream: u64| #[trigger]
                joins(list, id, stream) ==> (first_where(list, extends(stream)) matches Some(found)
                    ==> first.node <= found.node)
            &&& (first_where(list, belongs_to(id)) matches Some(found) && first.node == found.node)
                || exists|stream: u64| #[trigger]
                joins(list, id, stream) && (first_where(list, extends(stream)) matches Some(found)
                    && first.node == found.node)
        },
{
    let wanted = recovers(list, id);
    law_provenance_is_the_first_record(list, id);
    lemma_first_where(list, wanted);
    lemma_first_where(list, belongs_to(id));
    let first = first_where(list, wanted)->0;
    let at = choose|at: int|
        0 <= at < list.len() && #[trigger] list[at] == first && wanted(first.record) && forall|
            i: int,
        |
            0 <= i < at ==> !wanted((#[trigger] list[i]).record);
    if let Some(found) = first_where(list, belongs_to(id)) {
        let other = choose|other: int|
            0 <= other < list.len() && #[trigger] list[other] == found && belongs_to(id)(
                found.record,
            );
        assert(wanted(list[other].record));
        assert(list[at].node <= list[other].node);
    }
    assert forall|stream: u64| #[trigger] joins(list, id, stream) implies (first_where(
        list,
        extends(stream),
    ) matches Some(found) ==> first.node <= found.node) by {
        lemma_first_where(list, extends(stream));
        if let Some(found) = first_where(list, extends(stream)) {
            let other = choose|other: int|
                0 <= other < list.len() && #[trigger] list[other] == found && extends(stream)(
                    found.record,
                );
            assert(found.record.key_header.obj_id == stream);
            assert(wanted(list[other].record));
            assert(list[at].node <= list[other].node);
        }
    }
    if subject_of(first.record) == Some(id) {
        assert(belongs_to(id)(list[at].record));
        let found = first_where(list, belongs_to(id))->0;
        let other = choose|other: int|
            0 <= other < list.len() && #[trigger] list[other] == found && forall|i: int|
                0 <= i < other ==> !belongs_to(id)((#[trigger] list[i]).record);
        assert(other <= at);
        assert(list[other].node <= list[at].node);
    } else {
        let stream = first.record.key_header.obj_id;
        assert(joins(list, id, stream));
        lemma_first_where(list, extends(stream));
        assert(extends(stream)(list[at].record));
        let found = first_where(list, extends(stream))->0;
        let other = choose|other: int|
            0 <= other < list.len() && #[trigger] list[other] == found && forall|i: int|
                0 <= i < other ==> !extends(stream)((#[trigger] list[i]).record);
        assert(other <= at);
        assert(list[other].node <= list[at].node);
    }
}

/// Whether a candidate holds what the records give the object `id`, with the
/// node of the first of them or, without one, of the first extent of its stream.
spec fn is_candidate(candidate: Candidate, list: Seq<Salvage>, id: u64) -> bool {
    &&& candidate.gathers(list, id)
    &&& candidate.node == match first_where(list, belongs_to(id)) {
        Some(found) => found.node,
        None => first_where(list, extends(id))->0.node,
    }
}

/// Whether `candidates` holds, besides a candidate for each object that a record
/// belongs to, an empty one for each of the first `count` data streams that no
/// inode claims.
spec fn holds_loose(
    candidates: Map<u64, Candidate>,
    list: Seq<Salvage>,
    loose: Seq<u64>,
    count: int,
) -> bool {
    forall|id: u64|
        {
            &&& #[trigger] candidates.dom().contains(id) <==> first_where(
                list,
                belongs_to(id),
            ) is Some || loose.take(count).contains(id)
            &&& candidates.dom().contains(id) ==> is_candidate(candidates[id], list, id)
        }
}

/// Adds a candidate for each data stream that no inode claims.
fn add_loose(
    candidates: &mut BTreeMap<u64, Candidate>,
    streams: &BTreeMap<u64, StreamExtents>,
    loose: &Vec<u64>,
    Ghost(list): Ghost<Seq<Salvage>>,
)
    requires
        holds_candidates(old(candidates)@, list),
        holds_streams(streams@, list),
        forall|i: int| 0 <= i < loose@.len() ==> streams@.dom().contains(#[trigger] loose@[i]),
    ensures
        holds_loose(final(candidates)@, list, loose@, loose@.len() as int),
{
    let mut i: usize = 0;
    proof {
        assert(loose@.take(0) =~= Seq::<u64>::empty());
        assert forall|id: u64|
            {
                &&& #[trigger] candidates@.dom().contains(id) <==> first_where(
                    list,
                    belongs_to(id),
                ) is Some || loose@.take(0).contains(id)
                &&& candidates@.dom().contains(id) ==> is_candidate(candidates@[id], list, id)
            } by {}
    }
    while i < loose.len()
        invariant
            i <= loose@.len(),
            holds_streams(streams@, list),
            forall|k: int| 0 <= k < loose@.len() ==> streams@.dom().contains(#[trigger] loose@[k]),
            holds_loose(candidates@, list, loose@, i as int),
        decreases loose@.len() - i,
    {
        let ghost before = candidates@;
        let id: u64 = loose[i];
        proof {
            assert(streams@.dom().contains(id));
            assert(before.dom().contains(id) <==> first_where(list, belongs_to(id)) is Some
                || loose@.take(i as int).contains(id));
        }
        if index::get(candidates, id).is_none() {
            if let Some(stream) = index::get(streams, id) {
                let candidate: Candidate = Candidate {
                    node: stream.node,
                    inode: None,
                    name: None,
                    xattrs: Vec::new(),
                };
                proof {
                    lemma_untouched(list, id);
                    assert(error::views(candidate.xattrs@) =~= Seq::<XattrView>::empty());
                }
                index::put(candidates, id, candidate);
            }
        }
        proof {
            let old_part = loose@.take(i as int);
            let new_part = loose@.take(i + 1);
            assert(new_part =~= old_part.push(id));
            assert forall|other: u64| new_part.contains(other) <==> old_part.contains(other)
                || other == id by {
                if old_part.contains(other) {
                    let k = old_part.index_of(other);
                    assert(new_part[k] == other);
                }
                if other == id {
                    assert(new_part[i as int] == id);
                }
            }
            assert forall|other: u64|
                {
                    &&& #[trigger] candidates@.dom().contains(other) <==> first_where(
                        list,
                        belongs_to(other),
                    ) is Some || new_part.contains(other)
                    &&& candidates@.dom().contains(other) ==> is_candidate(
                        candidates@[other],
                        list,
                        other,
                    )
                } by {
                assert(before.dom().contains(other) <==> first_where(
                    list,
                    belongs_to(other),
                ) is Some || old_part.contains(other));
            }
        }
        i += 1;
    }
}

/// Joins extents to a candidate, through its inode and its own identifier.
fn join_candidate(
    candidate: Candidate,
    streams: &BTreeMap<u64, StreamExtents>,
    claims: &BTreeSet<u64>,
    nodes: &[OrphanedNode],
    id: u64,
    Ghost(list): Ghost<Seq<Salvage>>,
) -> (object: RecoveredObject)
    requires
        is_candidate(candidate, list, id),
        recovered_ids(list).contains(id),
        is_placed(list, error::views(nodes@)),
        holds_streams(streams@, list),
        claims@ == named_streams(list),
    ensures
        object@ == recovered_at(list, id),
{
    let mut node: usize = candidate.node;
    let mut extents: Vec<FileExtent> = Vec::new();
    proof {
        lemma_first_node(list, error::views(nodes@), id);
        assert(streams@.dom().contains(id) <==> first_where(list, extends(id)) is Some);
    }
    if let Some(inode) = &candidate.inode {
        let owner: u64 = inode.private_id;
        proof {
            assert(joins(list, id, owner));
            assert(streams@.dom().contains(owner) <==> first_where(list, extends(owner)) is Some);
            if first_where(list, extends(owner)) is None {
                lemma_no_stream(list, owner);
            }
        }
        if let Some(stream) = index::get(streams, owner) {
            if stream.node < node {
                node = stream.node;
            }
            extents = vstd::slice::slice_to_vec(stream.extents.as_slice());
        }
    }
    if !index::holds(claims, id) {
        if let Some(stream) = index::get(streams, id) {
            proof {
                assert(joins(list, id, id));
            }
            if stream.node < node {
                node = stream.node;
            }
            let mut own: Vec<FileExtent> = vstd::slice::slice_to_vec(stream.extents.as_slice());
            extents.append(&mut own);
        }
    }
    proof {
        assert(extents@ =~= extents_of(list, id));
        assert(node == first_where(list, recovers(list, id))->0.node);
        assert(error::views(nodes@)[node as int] == nodes@[node as int]@);
    }
    let object: RecoveredObject = RecoveredObject {
        obj_id: id,
        provenance: Provenance::Unallocated(nodes[node].block),
        inode: candidate.inode,
        name: candidate.name,
        xattrs: candidate.xattrs,
        extents,
    };
    assert(object@ =~= recovered_at(list, id));
    object
}

/// Turns candidates into recovered objects, in order of their identifiers.
fn join_candidates(
    candidates: &mut BTreeMap<u64, Candidate>,
    streams: &BTreeMap<u64, StreamExtents>,
    claims: &BTreeSet<u64>,
    nodes: &[OrphanedNode],
    Ghost(list): Ghost<Seq<Salvage>>,
) -> (objects: Vec<RecoveredObject>)
    requires
        old(candidates)@.dom() == recovered_ids(list),
        forall|id: u64| #[trigger]
            old(candidates)@.dom().contains(id) ==> is_candidate(old(candidates)@[id], list, id),
        is_placed(list, error::views(nodes@)),
        holds_streams(streams@, list),
        claims@ == named_streams(list),
    ensures
        error::views(objects@) == recovered(list),
{
    let ghost at = |id: u64| recovered_at(list, id);
    let ghost all = candidates@;
    let ids: Vec<u64> = index::ids(candidates);
    let mut objects: Vec<RecoveredObject> = Vec::new();
    let mut i: usize = 0;
    proof {
        index::law_ascending_lists_the_set(all.dom());
        assert forall|k: int| 0 <= k < ids@.len() implies candidates@.dom().contains(
            #[trigger] ids@[k],
        ) by {
            assert(ids@.contains(ids@[k]));
        }
        assert(error::views(objects@) =~= ids@.take(0).map_values(at));
    }
    while i < ids.len()
        invariant
            i <= ids@.len(),
            index::is_ascending(ids@),
            all.dom() == recovered_ids(list),
            forall|id: u64| #[trigger] ids@.contains(id) <==> all.dom().contains(id),
            forall|id: u64| #[trigger]
                all.dom().contains(id) ==> is_candidate(all[id], list, id),
            forall|k: int|
                i <= k < ids@.len() ==> candidates@.dom().contains(#[trigger] ids@[k])
                    && candidates@[ids@[k]] == all[ids@[k]],
            is_placed(list, error::views(nodes@)),
            holds_streams(streams@, list),
            claims@ == named_streams(list),
            at == |id: u64| recovered_at(list, id),
            error::views(objects@) == ids@.take(i as int).map_values(at),
        decreases ids@.len() - i,
    {
        let id: u64 = ids[i];
        let ghost before = candidates@;
        proof {
            assert(before.dom().contains(ids@[i as int]));
            assert(ids@.contains(id));
            assert(all.dom().contains(id));
        }
        if let Some(taken) = index::take(candidates, id) {
            let object: RecoveredObject = join_candidate(
                taken,
                streams,
                claims,
                nodes,
                id,
                Ghost(list),
            );
            proof {
                assert(object@ == at(id));
                assert(error::views(objects@.push(object)) =~= error::views(objects@).push(
                    object@,
                ));
                assert(ids@.take(i + 1).map_values(at) =~= ids@.take(i as int).map_values(at).push(
                    at(id),
                ));
            }
            objects.push(object);
        }
        proof {
            assert forall|k: int| i + 1 <= k < ids@.len() implies candidates@.dom().contains(
                #[trigger] ids@[k],
            ) && candidates@[ids@[k]] == all[ids@[k]] by {
                assert(ids@[i as int] < ids@[k]);
            }
        }
        i += 1;
    }
    proof {
        assert(ids@.take(i as int) =~= ids@);
    }
    objects
}

/// Groups orphaned catalog records by object identifier into recovery
/// candidates.
///
/// Records salvaged from unallocated space are scattered across nodes; this
/// reassembles each object's inode, name, extended attributes, and file extents.
/// A malformed record is skipped rather than aborting the group, so one bad
/// record never sinks an otherwise recoverable object.
///
/// `FILE_EXTENT` records are keyed by the file's *data-stream* identifier
/// (`j_inode_val_t.private_id`), which differs from the inode's object id for a
/// cloned file; inode, name, and xattr records are keyed by the inode's object
/// id. Extents are therefore collected by stream id and joined to their inode's
/// candidate through `private_id`, so a clone's content is not split into a
/// separate, headerless candidate.
/// Extents keyed by the object's own id that no inode claims follow them.
#[must_use]
pub fn group_orphans(nodes: &[OrphanedNode]) -> (objects: Vec<RecoveredObject>)
    ensures
        error::views(objects@) == recovered(all_salvage(error::views(nodes@), nodes@.len())),
{
    let ghost views = error::views(nodes@);
    let mut candidates: BTreeMap<u64, Candidate> = BTreeMap::new();
    let mut streams: BTreeMap<u64, StreamExtents> = BTreeMap::new();
    let mut i: usize = 0;
    while i < nodes.len()
        invariant
            i <= nodes@.len(),
            views == error::views(nodes@),
            holds_candidates(candidates@, all_salvage(views, i as nat)),
            holds_streams(streams@, all_salvage(views, i as nat)),
        decreases nodes@.len() - i,
    {
        proof {
            assert(views[i as int] == nodes@[i as int]@);
        }
        add_node(
            &mut candidates,
            &mut streams,
            &nodes[i],
            i,
            Ghost(all_salvage(views, i as nat)),
        );
        i += 1;
    }
    let ghost list = all_salvage(views, nodes@.len());
    // A hard-linked or cloned data stream can back more than one inode, so its
    // extents go to every claiming candidate. Extents with no inode behind
    // them stay recoverable as their own incomplete candidate.
    let claims: BTreeSet<u64> = collect_claims(&candidates, Ghost(list));
    let stream_ids: Vec<u64> = index::ids(&streams);
    let loose: Vec<u64> = index::without(&stream_ids, &claims, Ghost(streams@.dom()));
    proof {
        index::law_ascending_lists_the_set(streams@.dom().difference(claims@));
        assert forall|k: int| 0 <= k < loose@.len() implies streams@.dom().contains(
            #[trigger] loose@[k],
        ) by {
            assert(loose@.contains(loose@[k]));
        }
    }
    add_loose(&mut candidates, &streams, &loose, Ghost(list));
    proof {
        assert(loose@.take(loose@.len() as int) =~= loose@);
        assert forall|id: u64| candidates@.dom().contains(id) <==> recovered_ids(list).contains(
            id,
        ) by {
            assert(loose@.contains(id) <==> streams@.dom().difference(claims@).contains(id));
            assert(streams@.dom().contains(id) <==> first_where(
                list,
                extends(id),
            ) is Some);
        }
        assert(candidates@.dom() =~= recovered_ids(list));
        lemma_placed(views, nodes@.len());
    }
    join_candidates(&mut candidates, &streams, &claims, nodes, Ghost(list))
}

/// Whether a salvaged record is an inode of an object that can be decoded.
pub open spec fn is_inode_of(salvage: Salvage, id: u64) -> bool {
    salvage.record.key_header.kind == JObjType::Inode && salvage.record.key_header.obj_id == id
        && inode::inode_of(salvage.record.value) is Ok
}

/// The name in the entry of a salvaged directory record.
#[verifier::opaque]
pub open spec fn name_in(salvage: Salvage) -> Seq<char> {
    recovery::entry_either(salvage.record)->0.name
}

/// Whether a salvaged record is a directory entry that names an object.
#[verifier::opaque]
pub open spec fn is_name_of(salvage: Salvage, id: u64) -> bool {
    salvage.record.key_header.kind == JObjType::DirRec && (recovery::entry_either(
        salvage.record,
    ) matches Some(entry) && entry.file_id == id)
}

/// Whether a salvaged record is an attribute of an object that can be decoded.
pub open spec fn is_attribute_of(salvage: Salvage, id: u64) -> bool {
    salvage.record.key_header.kind == JObjType::Xattr && salvage.record.key_header.obj_id == id
        && xattr::xattr_of(salvage.record.key, salvage.record.value) is Ok
}

/// Whether a salvaged record is an extent of a data stream that can be decoded.
pub open spec fn is_extent_of(salvage: Salvage, id: u64) -> bool {
    salvage.record.key_header.kind == JObjType::FileExtent && salvage.record.key_header.obj_id == id
        && extent::file_extent_of(salvage.record.key, salvage.record.value) is Ok
}

/// The extents of a data stream among salvaged records, in the order of the records.
pub open spec fn stream_extents(list: Seq<Salvage>, stream: u64) -> Seq<FileExtent> {
    list.filter(|salvage: Salvage| is_extent_of(salvage, stream)).map_values(
        |salvage: Salvage| extent::file_extent_of(salvage.record.key, salvage.record.value)->Ok_0,
    )
}

proof fn lemma_lists_are_filtered(list: Seq<Salvage>, id: u64)
    ensures
        all_xattrs(list, id) == list.filter(
            |salvage: Salvage| is_attribute_of(salvage, id),
        ).map_values(
            |salvage: Salvage| xattr::xattr_of(salvage.record.key, salvage.record.value)->Ok_0,
        ),
        all_extents(list, id) == stream_extents(list, id),
    decreases list.len(),
{
    reveal(Seq::filter);
    let attribute = |salvage: Salvage| is_attribute_of(salvage, id);
    let extends = |salvage: Salvage| is_extent_of(salvage, id);
    let found_xattr = |salvage: Salvage|
        xattr::xattr_of(salvage.record.key, salvage.record.value)->Ok_0;
    let found_extent = |salvage: Salvage|
        extent::file_extent_of(salvage.record.key, salvage.record.value)->Ok_0;
    if list.len() > 0 {
        let before = list.drop_last();
        lemma_lists_are_filtered(before, id);
        assert(before.filter(attribute).push(list.last()).map_values(found_xattr)
            =~= before.filter(attribute).map_values(found_xattr).push(found_xattr(list.last())));
        assert(before.filter(extends).push(list.last()).map_values(found_extent)
            =~= before.filter(extends).map_values(found_extent).push(found_extent(list.last())));
    } else {
        assert(list.filter(attribute).map_values(found_xattr) =~= Seq::<XattrView>::empty());
        assert(list.filter(extends).map_values(found_extent) =~= Seq::<FileExtent>::empty());
    }
}

/// The attributes of a recovered object are those of its attribute records that can be
/// decoded, one each, in the order in which they were found. Its extents are those of the
/// data stream that its inode names, and after them those of the stream of its own number,
/// unless some inode names that stream.
pub proof fn law_recovered_lists_are_those_of_the_records(list: Seq<Salvage>, i: int)
    requires
        0 <= i < recovered(list).len(),
    ensures
        ({
            let object = recovered(list)[i];
            &&& object.xattrs == list.filter(
                |salvage: Salvage| is_attribute_of(salvage, object.obj_id),
            ).map_values(
                |salvage: Salvage| xattr::xattr_of(salvage.record.key, salvage.record.value)->Ok_0,
            )
            &&& object.inode is Some && is_claimed(list, object.obj_id) ==> object.extents
                == stream_extents(list, object.inode->0.private_id)
            &&& object.inode is Some && !is_claimed(list, object.obj_id) ==> object.extents
                == stream_extents(list, object.inode->0.private_id) + stream_extents(
                list,
                object.obj_id,
            )
            &&& object.inode is None && !is_claimed(list, object.obj_id) ==> object.extents
                == stream_extents(list, object.obj_id)
            &&& object.inode is None && is_claimed(list, object.obj_id) ==> object.extents.len()
                == 0
        }),
{
    let object = recovered(list)[i];
    let id = object.obj_id;
    lemma_lists_are_filtered(list, id);
    lemma_first_where(list, extends(id));
    if let Some(inode) = object.inode {
        lemma_lists_are_filtered(list, inode.private_id);
        assert(is_claimed(list, inode.private_id)) by {
            assert(last_inode(list, id) == Some(inode));
        }
        let own = all_extents(list, inode.private_id);
        assert(own + Seq::<FileExtent>::empty() =~= own);
    }
    if !is_claimed(list, id) && !is_loose(list, id) {
        lemma_no_extents(list, id);
        assert(all_extents(list, id) =~= Seq::<FileExtent>::empty());
    }
}

proof fn lemma_no_extents(list: Seq<Salvage>, id: u64)
    requires
        first_where(list, extends(id)) is None,
    ensures
        all_extents(list, id).len() == 0,
    decreases list.len(),
{
    if list.len() > 0 {
        lemma_no_extents(list.drop_last(), id);
    }
}

/// The inode of a recovered object is that of its last inode record that can be decoded, and
/// its name that of the first directory entry which names it.
pub proof fn law_recovered_inode_and_name(list: Seq<Salvage>, id: u64)
    ensures
        forall|at: int|
            0 <= at < list.len() && is_inode_of(#[trigger] list[at], id) && (forall|k: int|
                at < k < list.len() ==> !is_inode_of(#[trigger] list[k], id)) ==> recovered_at(
                list,
                id,
            ).inode == Some(inode::inode_of(list[at].record.value)->Ok_0),
        (forall|at: int| 0 <= at < list.len() ==> !is_inode_of(#[trigger] list[at], id))
            <==> recovered_at(list, id).inode is None,
        forall|at: int|
            0 <= at < list.len() && is_name_of(#[trigger] list[at], id) && (forall|k: int|
                0 <= k < at ==> !is_name_of(#[trigger] list[k], id)) ==> recovered_at(
                list,
                id,
            ).name == Some(name_in(list[at])),
        (forall|at: int| 0 <= at < list.len() ==> !is_name_of(#[trigger] list[at], id))
            <==> recovered_at(list, id).name is None,
{
    lemma_last_inode_is(list, id);
    lemma_first_name_is(list, id);
}

#[verifier::spinoff_prover]
#[verifier::rlimit(60)]
proof fn lemma_last_inode_is(list: Seq<Salvage>, id: u64)
    ensures
        forall|at: int|
            0 <= at < list.len() && is_inode_of(#[trigger] list[at], id) && (forall|k: int|
                at < k < list.len() ==> !is_inode_of(#[trigger] list[k], id)) ==> last_inode(
                list,
                id,
            ) == Some(inode::inode_of(list[at].record.value)->Ok_0),
        (forall|at: int| 0 <= at < list.len() ==> !is_inode_of(#[trigger] list[at], id))
            <==> last_inode(list, id) is None,
    decreases list.len(),
{
    if list.len() > 0 {
        let before = list.drop_last();
        let n = list.len() - 1;
        lemma_last_inode_is(before, id);
        assert(is_inode_of(list[n], id) <==> inode_from(list.last().record, id) is Some);
        assert forall|at: int|
            0 <= at < list.len() && is_inode_of(#[trigger] list[at], id) && (forall|k: int|
                at < k < list.len() ==> !is_inode_of(#[trigger] list[k], id)) implies last_inode(
            list,
            id,
        ) == Some(inode::inode_of(list[at].record.value)->Ok_0) by {
            if at < n {
                assert(!is_inode_of(list[n], id));
                assert(before[at] == list[at]);
                assert forall|k: int| at < k < before.len() implies !is_inode_of(
                    #[trigger] before[k],
                    id,
                ) by {
                    assert(before[k] == list[k]);
                }
            }
        }
        if last_inode(list, id) is None {
            assert forall|at: int| 0 <= at < list.len() implies !is_inode_of(
                #[trigger] list[at],
                id,
            ) by {
                if at < n {
                    assert(before[at] == list[at]);
                }
            }
        } else if is_inode_of(list[n], id) {
        } else {
            let at = choose|at: int|
                0 <= at < before.len() && is_inode_of(#[trigger] before[at], id);
            assert(is_inode_of(list[at], id));
        }
    }
}

/// The first of the names that are there.
spec fn first_there(names: Seq<Option<Seq<char>>>) -> Option<Seq<char>>
    decreases names.len(),
{
    if names.len() == 0 {
        None
    } else {
        match first_there(names.drop_last()) {
            Some(name) => Some(name),
            None => names.last(),
        }
    }
}

#[verifier::spinoff_prover]
proof fn lemma_first_there(names: Seq<Option<Seq<char>>>)
    ensures
        forall|at: int|
            0 <= at < names.len() && (#[trigger] names[at]) is Some && (forall|k: int|
                0 <= k < at ==> (#[trigger] names[k]) is None) ==> first_there(names) == names[at],
        (forall|at: int| 0 <= at < names.len() ==> (#[trigger] names[at]) is None)
            <==> first_there(names) is None,
    decreases names.len(),
{
    if names.len() > 0 {
        let before = names.drop_last();
        lemma_first_there(before);
        assert forall|at: int|
            0 <= at < names.len() && (#[trigger] names[at]) is Some && (forall|k: int|
                0 <= k < at ==> (#[trigger] names[k]) is None) implies first_there(names)
            == names[at] by {
            if at < before.len() {
                assert(before[at] == names[at]);
            }
            assert forall|k: int| 0 <= k < at implies (#[trigger] before[k]) is None by {
                assert(before[k] == names[k]);
            }
        }
        if first_there(names) is None {
            assert forall|at: int| 0 <= at < names.len() implies (#[trigger] names[at]) is None by {
                if at < before.len() {
                    assert(before[at] == names[at]);
                }
            }
        } else if names.last() is None {
            let at = choose|at: int| 0 <= at < before.len() && (#[trigger] before[at]) is Some;
            assert(names[at] is Some);
        }
    }
}

proof fn lemma_first_name_there(list: Seq<Salvage>, id: u64)
    ensures
        first_name(list, id) == first_there(
            list.map_values(|salvage: Salvage| name_from(salvage.record, id)),
        ),
    decreases list.len(),
{
    if list.len() > 0 {
        lemma_first_name_there(list.drop_last(), id);
        let named = |salvage: Salvage| name_from(salvage.record, id);
        assert(list.map_values(named).drop_last() =~= list.drop_last().map_values(named));
    }
}

proof fn lemma_name_from(salvage: Salvage, id: u64)
    ensures
        name_from(salvage.record, id) == if is_name_of(salvage, id) {
            Some(name_in(salvage))
        } else {
            None
        },
{
    reveal(is_name_of);
    reveal(name_in);
}

proof fn lemma_first_name_is(list: Seq<Salvage>, id: u64)
    ensures
        forall|at: int|
            0 <= at < list.len() && is_name_of(#[trigger] list[at], id) && (forall|k: int|
                0 <= k < at ==> !is_name_of(#[trigger] list[k], id)) ==> first_name(list, id)
                == Some(name_in(list[at])),
        (forall|at: int| 0 <= at < list.len() ==> !is_name_of(#[trigger] list[at], id))
            <==> first_name(list, id) is None,
{
    let names = list.map_values(|salvage: Salvage| name_from(salvage.record, id));
    lemma_first_name_there(list, id);
    lemma_names_are(list, names, id);
    lemma_first_of_named(list, names, id);
}

proof fn lemma_first_of_named(list: Seq<Salvage>, names: Seq<Option<Seq<char>>>, id: u64)
    requires
        names.len() == list.len(),
        forall|at: int|
            0 <= at < list.len() ==> #[trigger] names[at] == if is_name_of(list[at], id) {
                Some(name_in(list[at]))
            } else {
                None
            },
    ensures
        forall|at: int|
            0 <= at < list.len() && is_name_of(#[trigger] list[at], id) && (forall|k: int|
                0 <= k < at ==> !is_name_of(#[trigger] list[k], id)) ==> first_there(names) == Some(
                name_in(list[at]),
            ),
        (forall|at: int| 0 <= at < list.len() ==> !is_name_of(#[trigger] list[at], id))
            <==> first_there(names) is None,
{
    lemma_first_there(names);
    assert forall|at: int|
        0 <= at < list.len() && is_name_of(#[trigger] list[at], id) && (forall|k: int|
            0 <= k < at ==> !is_name_of(#[trigger] list[k], id)) implies first_there(names) == Some(
        name_in(list[at]),
    ) by {
        assert(names[at] is Some);
        assert forall|k: int| 0 <= k < at implies (#[trigger] names[k]) is None by {
            assert(!is_name_of(list[k], id));
        }
    }
    if first_there(names) is None {
        assert forall|at: int| 0 <= at < list.len() implies !is_name_of(
            #[trigger] list[at],
            id,
        ) by {
            assert(names[at] is None);
        }
    } else {
        let at = choose|at: int| 0 <= at < names.len() && (#[trigger] names[at]) is Some;
        assert(is_name_of(list[at], id));
    }
}

proof fn lemma_names_are(list: Seq<Salvage>, names: Seq<Option<Seq<char>>>, id: u64)
    requires
        names == list.map_values(|salvage: Salvage| name_from(salvage.record, id)),
    ensures
        names.len() == list.len(),
        forall|at: int|
            0 <= at < list.len() ==> #[trigger] names[at] == if is_name_of(list[at], id) {
                Some(name_in(list[at]))
            } else {
                None
            },
{
    assert forall|at: int| 0 <= at < list.len() implies #[trigger] names[at] == if is_name_of(
        list[at],
        id,
    ) {
        Some(name_in(list[at]))
    } else {
        None
    } by {
        lemma_name_from(list[at], id);
    }
}

/// An object is recovered exactly when some record that can be decoded is its inode or one
/// of its attributes, or names it, or is an extent of the data stream of its number while no
/// inode names that stream.
pub proof fn law_recovered_objects_are_those_of_the_records(list: Seq<Salvage>, id: u64)
    ensures
        (exists|i: int| 0 <= i < recovered(list).len() && (#[trigger] recovered(list)[i]).obj_id
            == id) <==> (exists|at: int|
            0 <= at < list.len() && (is_inode_of(#[trigger] list[at], id) || is_attribute_of(
                list[at],
                id,
            ) || is_name_of(list[at], id) || (is_extent_of(list[at], id) && !is_claimed(
                list,
                id,
            )))),
{
    reveal(is_name_of);
    law_objects_are_in_order(list);
    lemma_first_where(list, belongs_to(id));
    lemma_first_where(list, extends(id));
    assert forall|at: int| 0 <= at < list.len() implies (belongs_to(id)(
        (#[trigger] list[at]).record,
    ) <==> is_inode_of(list[at], id) || is_attribute_of(list[at], id) || is_name_of(
        list[at],
        id,
    )) by {}
    assert forall|at: int| 0 <= at < list.len() implies (extends(id)((#[trigger] list[at]).record)
        <==> is_extent_of(list[at], id)) by {}
    if recovered_ids(list).contains(id) {
        if first_where(list, belongs_to(id)) is Some {
            let found = first_where(list, belongs_to(id))->0;
            let at = choose|at: int| 0 <= at < list.len() && #[trigger] list[at] == found;
            assert(belongs_to(id)(list[at].record));
        } else {
            let found = first_where(list, extends(id))->0;
            let at = choose|at: int| 0 <= at < list.len() && #[trigger] list[at] == found;
            assert(extends(id)(list[at].record));
        }
    }
}

/// The salvaged records are those of the nodes, node by node, in the order of each node's
/// records, each with the block of its node.
pub proof fn law_salvage_is_in_order(nodes: Seq<OrphanedNodeView>, count: nat)
    requires
        0 < count <= nodes.len(),
    ensures
        ({
            let before = all_salvage(nodes, (count - 1) as nat);
            let now = all_salvage(nodes, count);
            let node = nodes[count - 1];
            &&& now.len() == before.len() + node.records.len()
            &&& now.take(before.len() as int) == before
            &&& forall|i: int|
                0 <= i < node.records.len() ==> (#[trigger] now[before.len() + i]).record
                    == node.records[i] && now[before.len() + i].block == node.block
        }),
{
    let before = all_salvage(nodes, (count - 1) as nat);
    assert(all_salvage(nodes, count).take(before.len() as int) =~= before);
}

/// Whether the record at `at` is the last of an object's inode records that can be decoded,
/// and names the data stream `stream`.
pub open spec fn names_stream(list: Seq<Salvage>, at: int, owner: u64, stream: u64) -> bool {
    &&& 0 <= at < list.len()
    &&& is_inode_of(list[at], owner)
    &&& inode::inode_of(list[at].record.value)->Ok_0.private_id == stream
    &&& forall|k: int| at < k < list.len() ==> !is_inode_of(#[trigger] list[k], owner)
}

/// A data stream is claimed exactly when the last inode record of some object names it.
pub proof fn law_claimed_streams_are_named_by_an_inode(list: Seq<Salvage>, stream: u64)
    ensures
        is_claimed(list, stream) <==> exists|at: int, owner: u64| #[trigger]
            names_stream(list, at, owner, stream),
{
    if is_claimed(list, stream) {
        let owner = choose|owner: u64|
            (#[trigger] last_inode(list, owner)) matches Some(inode) && inode.private_id == stream;
        lemma_last_inode_is(list, owner);
        let some = choose|at: int| 0 <= at < list.len() && is_inode_of(#[trigger] list[at], owner);
        let at = last_inode_record(list, owner, some);
        assert(names_stream(list, at, owner, stream));
    }
    if exists|at: int, owner: u64| #[trigger] names_stream(list, at, owner, stream) {
        let (at, owner) = choose|at: int, owner: u64| #[trigger]
            names_stream(list, at, owner, stream);
        lemma_last_inode_is(list, owner);
        assert(last_inode(list, owner) == Some(inode::inode_of(list[at].record.value)->Ok_0));
    }
}

/// The index of an object's last inode record, at least `from`.
proof fn last_inode_record(list: Seq<Salvage>, owner: u64, from: int) -> (last: int)
    requires
        0 <= from < list.len(),
        is_inode_of(list[from], owner),
    ensures
        from <= last < list.len(),
        is_inode_of(list[last], owner),
        forall|k: int| last < k < list.len() ==> !is_inode_of(#[trigger] list[k], owner),
    decreases list.len() - from,
{
    if exists|k: int| from < k < list.len() && is_inode_of(#[trigger] list[k], owner) {
        let k = choose|k: int| from < k < list.len() && is_inode_of(#[trigger] list[k], owner);
        last_inode_record(list, owner, k)
    } else {
        from
    }
}

/// Whether a salvaged record gives an object something: it is its inode or one of its
/// attributes, or names it, or is an extent of the data stream that its last inode record
/// names, or of the stream of its own number while no inode claims that one.
pub open spec fn gives(list: Seq<Salvage>, salvage: Salvage, id: u64) -> bool {
    ||| is_inode_of(salvage, id)
    ||| is_attribute_of(salvage, id)
    ||| is_name_of(salvage, id)
    ||| exists|at: int, stream: u64| #[trigger]
        names_stream(list, at, id, stream) && is_extent_of(salvage, stream)
    ||| is_extent_of(salvage, id) && !is_claimed(list, id)
}

#[verifier::spinoff_prover]
#[verifier::rlimit(60)]
proof fn lemma_gives(list: Seq<Salvage>, at: int, id: u64)
    requires
        0 <= at < list.len(),
    ensures
        gives(list, list[at], id) <==> recovers(list, id)(list[at].record),
{
    reveal(is_name_of);
    let salvage = list[at];
    let stream = salvage.record.key_header.obj_id;
    lemma_last_inode_is(list, id);
    lemma_first_where(list, extends(id));
    if is_extent_of(salvage, stream) {
        assert(extends(stream)(salvage.record));
        if last_inode(list, id) matches Some(inode) && inode.private_id == stream {
            let some = choose|k: int| 0 <= k < list.len() && is_inode_of(#[trigger] list[k], id);
            let last = last_inode_record(list, id, some);
            assert(names_stream(list, last, id, stream));
        }
    }
    if exists|k: int, other: u64| #[trigger]
        names_stream(list, k, id, other) && is_extent_of(salvage, other) {
        let (k, other) = choose|k: int, other: u64| #[trigger]
            names_stream(list, k, id, other) && is_extent_of(salvage, other);
        assert(last_inode(list, id) == Some(inode::inode_of(list[k].record.value)->Ok_0));
    }
}

/// A recovered object comes from the block of the first record that gives it something.
pub proof fn law_object_comes_from_its_first_record(list: Seq<Salvage>, i: int)
    requires
        0 <= i < recovered(list).len(),
    ensures
        exists|at: int|
            0 <= at < list.len() && gives(list, #[trigger] list[at], recovered(list)[i].obj_id)
                && recovered(list)[i].provenance == Provenance::Unallocated(list[at].block)
                && forall|k: int|
                0 <= k < at ==> !gives(list, #[trigger] list[k], recovered(list)[i].obj_id),
{
    let id = recovered(list)[i].obj_id;
    law_objects_are_in_order(list);
    law_provenance_is_the_first_record(list, id);
    let at = choose|at: int|
        0 <= at < list.len() && recovered_at(list, id).provenance == Provenance::Unallocated(
            (#[trigger] list[at]).block,
        ) && recovers(list, id)(list[at].record) && forall|k: int|
            0 <= k < at ==> !recovers(list, id)((#[trigger] list[k]).record);
    lemma_gives(list, at, id);
    assert forall|k: int| 0 <= k < at implies !gives(list, #[trigger] list[k], id) by {
        lemma_gives(list, k, id);
    }
    assert(gives(list, list[at], id));
}

} // verus!
