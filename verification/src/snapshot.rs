//! Snapshot metadata.
//!
//! Snapshots are point-in-time, read-only views of a volume; local Time Machine
//! snapshots are a prime forensic artifact. Snapshot metadata lives in
//! `SNAP_METADATA` / `SNAP_NAME` records in the volume's snapshot-metadata
//! tree.

use vstd::prelude::*;
use vstd::utf8::*;

use crate::agreement;
use crate::btree::BtreeInfo;
use crate::bytes;
use crate::catalog;
use crate::catalog::{
    Catalog, CatalogRecord, FromRecord, J_KEY_SIZE, JObjType, RecordView, Selection,
};
use crate::error;
use crate::error::ApfsError;
use crate::io::{Device, Reader};
use crate::object::OBJ_PHYS_SIZE;
use crate::text;
use crate::time::ApfsTimestamp;

verus! {

/// Size of the fixed portion of `j_snap_metadata_val_t` (before `name`).
pub const J_SNAP_METADATA_VAL_SIZE: usize = 50;

/// Size of a `j_snap_name_val_t`.
pub const J_SNAP_NAME_VAL_SIZE: usize = 8;

/// Size of a `snap_meta_ext_t`.
pub const SNAP_META_EXT_SIZE: usize = 40;

/// Snapshot-metadata flags (`snap_meta_flags`).
#[derive(Debug, Clone, Copy, PartialEq, Eq, Structural)]
pub struct SnapMetaFlags(pub u32);

impl SnapMetaFlags {
    /// The snapshot is pending conversion to dataless.
    pub const PENDING_DATALESS: u32 = 0x0000_0001;

    /// A merge of the snapshot is in progress.
    pub const MERGE_IN_PROGRESS: u32 = 0x0000_0002;

    /// The raw bits of the set.
    #[must_use]
    pub fn bits(self) -> (bits: u32)
        ensures
            bits == self.0,
    {
        self.0
    }

    /// The set with the given bits, known or not.
    #[must_use]
    pub fn from_bits_retain(bits: u32) -> (flags: SnapMetaFlags)
        ensures
            flags == SnapMetaFlags(bits),
    {
        SnapMetaFlags(bits)
    }

    /// Whether every bit of `flag` is set.
    pub open spec fn has(self, flag: u32) -> bool {
        self.0 & flag == flag
    }

    /// Whether every bit of `flag` is set.
    #[must_use]
    pub fn contains(self, flag: u32) -> (set: bool)
        ensures
            set == self.has(flag),
    {
        self.0 & flag == flag
    }
}

/// A parsed snapshot of a volume (`j_snap_metadata` record).
#[derive(Debug, PartialEq, Eq)]
pub struct Snapshot {
    /// The snapshot's transaction identifier (its key's object id).
    pub xid: u64,
    /// Physical object id of the snapshot's volume superblock.
    pub sblock_oid: u64,
    /// Physical object id of the snapshot's extent-reference tree.
    pub extentref_tree_oid: u64,
    /// Snapshot creation time.
    pub create_time: ApfsTimestamp,
    /// Snapshot last-modified time.
    pub change_time: ApfsTimestamp,
    /// The `inum` field of the snapshot metadata.
    pub inum: u64,
    /// Snapshot flags.
    pub flags: SnapMetaFlags,
    /// The snapshot's name.
    pub name: String,
}

/// The content of a [`Snapshot`].
#[verifier::ext_equal]
pub struct SnapshotView {
    /// The snapshot's transaction identifier.
    pub xid: u64,
    /// Physical object id of the snapshot's volume superblock.
    pub sblock_oid: u64,
    /// Physical object id of the snapshot's extent-reference tree.
    pub extentref_tree_oid: u64,
    /// Snapshot creation time.
    pub create_time: ApfsTimestamp,
    /// Snapshot last-modified time.
    pub change_time: ApfsTimestamp,
    /// The `inum` field of the snapshot metadata.
    pub inum: u64,
    /// Snapshot flags.
    pub flags: SnapMetaFlags,
    /// The snapshot's name.
    pub name: Seq<char>,
}

impl View for Snapshot {
    type V = SnapshotView;

    open spec fn view(&self) -> SnapshotView {
        SnapshotView {
            xid: self.xid,
            sblock_oid: self.sblock_oid,
            extentref_tree_oid: self.extentref_tree_oid,
            create_time: self.create_time,
            change_time: self.change_time,
            inum: self.inum,
            flags: self.flags,
            name: self.name@,
        }
    }
}

impl Clone for Snapshot {
    fn clone(&self) -> (copy: Snapshot)
        ensures
            copy@ == self@,
    {
        Snapshot {
            xid: self.xid,
            sblock_oid: self.sblock_oid,
            extentref_tree_oid: self.extentref_tree_oid,
            create_time: self.create_time,
            change_time: self.change_time,
            inum: self.inum,
            flags: self.flags,
            name: self.name.clone(),
        }
    }
}

/// The snapshot of transaction `xid` with the given record value.
pub open spec fn snapshot_of(xid: u64, value: Seq<u8>) -> Result<SnapshotView, ApfsError> {
    if value.len() < J_SNAP_METADATA_VAL_SIZE {
        error::truncated("j_snap_metadata_val_t", J_SNAP_METADATA_VAL_SIZE as int, value.len())
    } else {
        match bytes::range(
            value,
            J_SNAP_METADATA_VAL_SIZE as int,
            J_SNAP_METADATA_VAL_SIZE + bytes::le_u16(value, 48),
        ) {
            None => error::malformed(
                "j_snap_metadata_val_t",
                "snapshot name extends past the record",
            ),
            Some(raw) => Ok(
                SnapshotView {
                    xid,
                    extentref_tree_oid: bytes::le_u64(value, 0),
                    sblock_oid: bytes::le_u64(value, 8),
                    create_time: ApfsTimestamp(bytes::le_u64(value, 16)),
                    change_time: ApfsTimestamp(bytes::le_u64(value, 24)),
                    inum: bytes::le_u64(value, 32),
                    flags: SnapMetaFlags(bytes::le_u32(value, 44)),
                    name: text::decoded(bytes::before_nul(raw)),
                },
            ),
        }
    }
}

/// Parses a `j_snap_metadata_val_t` value into a [`Snapshot`].
pub fn parse_snapshot(xid: u64, value: &[u8]) -> (parsed: Result<Snapshot, ApfsError>)
    ensures
        error::viewed(parsed) == snapshot_of(xid, value@),
{
    if value.len() < J_SNAP_METADATA_VAL_SIZE {
        return Err(
            ApfsError::Truncated {
                structure: "j_snap_metadata_val_t",
                expected: J_SNAP_METADATA_VAL_SIZE,
                actual: value.len(),
            },
        );
    }
    let end: usize = J_SNAP_METADATA_VAL_SIZE + bytes::read_u16(value, 48) as usize;
    match bytes::get_range(value, J_SNAP_METADATA_VAL_SIZE, end) {
        None => Err(
            ApfsError::Malformed {
                structure: "j_snap_metadata_val_t",
                reason: "snapshot name extends past the record",
            },
        ),
        Some(raw) => Ok(
            Snapshot {
                xid,
                extentref_tree_oid: bytes::read_u64(value, 0),
                sblock_oid: bytes::read_u64(value, 8),
                create_time: ApfsTimestamp(bytes::read_u64(value, 16)),
                change_time: ApfsTimestamp(bytes::read_u64(value, 24)),
                inum: bytes::read_u64(value, 32),
                flags: SnapMetaFlags::from_bits_retain(bytes::read_u32(value, 44)),
                name: text::decode(bytes::until_nul(raw)),
            },
        ),
    }
}

impl FromRecord<()> for Snapshot {
    open spec fn spec_kind() -> JObjType {
        JObjType::SnapMetadata
    }

    fn record_kind() -> (kind: JObjType) {
        JObjType::SnapMetadata
    }

    open spec fn item_of(param: (), record: RecordView) -> Result<SnapshotView, ApfsError> {
        snapshot_of(record.key_header.obj_id, record.value)
    }

    fn read_item(param: (), record: &CatalogRecord) -> (item: Result<Snapshot, ApfsError>) {
        parse_snapshot(record.key_header.obj_id, record.value.as_slice())
    }
}

impl Snapshot {
    /// Enumerates every snapshot recorded in a volume's snapshot-metadata
    /// tree.
    ///
    /// `snap_meta_tree` is a [`Catalog`] built on the volume's
    /// `apfs_snap_meta_tree_oid`.
    pub fn list<T: Reader>(snap_meta_tree: &Catalog, reader: &mut T) -> (snapshots: Result<
        Vec<Snapshot>,
        ApfsError,
    >)
        ensures
            final(reader).device() == old(reader).device(),
            error::viewed_all(snapshots) == catalog::catalog_items::<(), Snapshot>(
                old(reader).device(),
                *snap_meta_tree,
                Selection::Kind(JObjType::SnapMetadata),
                (),
            ),
    {
        match snap_meta_tree.records_of_kind(reader, JObjType::SnapMetadata) {
            Ok(records) => catalog::read_items::<(), Snapshot>((), &records),
            Err(error) => Err(error),
        }
    }
}

proof fn lemma_listed(records: Seq<RecordView>, count: nat)
    requires
        count <= records.len(),
        forall|i: int|
            0 <= i < records.len() ==> (#[trigger] records[i]).key_header.kind
                == JObjType::SnapMetadata,
    ensures
        catalog::items_of::<(), Snapshot>((), records, count) matches Ok(snapshots)
            ==> snapshots.len() == count && forall|i: int|
            0 <= i < count ==> (#[trigger] snapshots[i]).xid == records[i].key_header.obj_id,
    decreases count,
{
    if count > 0 {
        lemma_listed(records, (count - 1) as nat);
        assert(records[count - 1].key_header.kind == JObjType::SnapMetadata);
    }
}

/// The snapshots that a snapshot-metadata tree in order records are listed oldest
/// first.
///
/// This holds of a tree whose nodes store the sizes of their entries and that is
/// not too deep to walk.
pub proof fn law_snapshots_are_listed_oldest_first(
    device: Device,
    tree: Catalog,
    root: Seq<u8>,
    info: BtreeInfo,
    depth: nat,
)
    requires
        catalog::catalog_node(device, tree, tree.root_oid.0) == Ok::<Seq<u8>, ApfsError>(root),
        depth < catalog::MAX_CATALOG_DEPTH,
        catalog::catalog_tree(device, tree, info).is_ordered(root, depth),
        agreement::stores_sizes(catalog::catalog_tree(device, tree, info), root, depth),
    ensures
        catalog::catalog_items::<(), Snapshot>(
            device,
            tree,
            Selection::Kind(JObjType::SnapMetadata),
            (),
        ) matches Ok(snapshots) ==> forall|i: int, j: int|
            0 <= i < j < snapshots.len() ==> (#[trigger] snapshots[i]).xid <= (
            #[trigger] snapshots[j]).xid,
{
    let kind = JObjType::SnapMetadata;
    agreement::law_records_of_a_kind_ascend(device, tree, kind, root, info, depth);
    let records = catalog::catalog_records(device, tree, Selection::Kind(kind))->Ok_0;
    lemma_listed(records, records.len());
    if let Ok(snapshots) = catalog::items_of::<(), Snapshot>((), records, records.len()) {
        assert forall|i: int, j: int| 0 <= i < j < snapshots.len() implies (
        #[trigger] snapshots[i]).xid <= (#[trigger] snapshots[j]).xid by {
            assert(records[i].key_header.obj_id <= records[j].key_header.obj_id);
        }
    }
}

/// The name in the key of a `SNAP_NAME` record, if it is whole.
pub open spec fn name_in_key(key: Seq<u8>) -> Option<Seq<u8>> {
    if key.len() < J_KEY_SIZE + 2 {
        None
    } else {
        match bytes::range(
            key,
            J_KEY_SIZE + 2,
            J_KEY_SIZE + 2 + bytes::le_u16(key, J_KEY_SIZE as int),
        ) {
            None => None,
            Some(raw) => Some(bytes::before_nul(raw)),
        }
    }
}

/// The transaction that the first record with the given name stores.
pub open spec fn xid_named(records: Seq<RecordView>, name: Seq<u8>) -> Result<
    Option<u64>,
    ApfsError,
>
    decreases records.len(),
{
    if records.len() == 0 {
        Ok(None)
    } else if name_in_key(records[0].key) == Some(name) {
        if records[0].value.len() < J_SNAP_NAME_VAL_SIZE {
            error::truncated(
                "j_snap_name_val_t",
                J_SNAP_NAME_VAL_SIZE as int,
                records[0].value.len(),
            )
        } else {
            Ok(Some(bytes::le_u64(records[0].value, 0)))
        }
    } else {
        xid_named(records.drop_first(), name)
    }
}

/// The transaction of the snapshot with the given name.
pub open spec fn snapshot_xid(device: Device, tree: Catalog, name: Seq<char>) -> Result<
    Option<u64>,
    ApfsError,
> {
    match catalog::catalog_records(device, tree, Selection::Kind(JObjType::SnapName)) {
        Err(error) => Err(error),
        Ok(records) => xid_named(records, encode_utf8(name)),
    }
}

/// Whether the key of a `SNAP_NAME` record holds the given name.
fn key_has_name(key: &[u8], name: &[u8]) -> (same: bool)
    ensures
        same == (name_in_key(key@) == Some(name@)),
{
    if key.len() < J_KEY_SIZE + 2 {
        return false;
    }
    let end: usize = J_KEY_SIZE + 2 + bytes::read_u16(key, J_KEY_SIZE) as usize;
    match bytes::get_range(key, J_KEY_SIZE + 2, end) {
        None => false,
        Some(raw) => bytes::same_bytes(bytes::until_nul(raw), name),
    }
}

/// Looks up the transaction id of a snapshot by name, using the `SNAP_NAME`
/// records of the snapshot-metadata tree.
pub fn snapshot_xid_by_name<T: Reader>(
    snap_meta_tree: &Catalog,
    reader: &mut T,
    name: &str,
) -> (found: Result<Option<u64>, ApfsError>)
    ensures
        final(reader).device() == old(reader).device(),
        found == snapshot_xid(old(reader).device(), *snap_meta_tree, name@),
{
    let records: Vec<CatalogRecord> = match snap_meta_tree.records_of_kind(
        reader,
        JObjType::SnapName,
    ) {
        Ok(records) => records,
        Err(error) => return Err(error),
    };
    let wanted: &[u8] = name.as_bytes();
    let ghost all = error::views(records@);
    let mut i: usize = 0;
    proof {
        assert(all.skip(0) =~= all);
    }
    while i < records.len()
        invariant
            i <= records@.len(),
            all == error::views(records@),
            reader.device() == old(reader).device(),
            catalog::catalog_records(
                old(reader).device(),
                *snap_meta_tree,
                Selection::Kind(JObjType::SnapName),
            ) == Ok::<Seq<RecordView>, ApfsError>(all),
            wanted@ == encode_utf8(name@),
            xid_named(all, wanted@) == xid_named(all.skip(i as int), wanted@),
        decreases records@.len() - i,
    {
        proof {
            assert(all.skip(i as int)[0] == records@[i as int]@);
            assert(all.skip(i as int).drop_first() =~= all.skip(i + 1));
        }
        if key_has_name(records[i].key.as_slice(), wanted) {
            let value: &[u8] = records[i].value.as_slice();
            if value.len() < J_SNAP_NAME_VAL_SIZE {
                return Err(
                    ApfsError::Truncated {
                        structure: "j_snap_name_val_t",
                        expected: J_SNAP_NAME_VAL_SIZE,
                        actual: value.len(),
                    },
                );
            }
            return Ok(Some(bytes::read_u64(value, 0)));
        }
        i += 1;
    }
    Ok(None)
}

/// Extended snapshot metadata (`snap_meta_ext_t`).
#[derive(Debug, Clone, Copy, PartialEq, Eq)]
pub struct SnapMetaExt {
    /// The structure's version.
    pub version: u32,
    /// Extended-metadata flags.
    pub flags: u32,
    /// The snapshot's transaction identifier.
    pub snap_xid: u64,
    /// The snapshot's UUID.
    pub uuid: [u8; 16],
    /// An opaque token associated with the snapshot.
    pub token: u64,
}

/// The content of a [`SnapMetaExt`].
#[verifier::ext_equal]
pub struct SnapMetaExtView {
    /// The structure's version.
    pub version: u32,
    /// Extended-metadata flags.
    pub flags: u32,
    /// The snapshot's transaction identifier.
    pub snap_xid: u64,
    /// The snapshot's UUID.
    pub uuid: Seq<u8>,
    /// An opaque token associated with the snapshot.
    pub token: u64,
}

impl View for SnapMetaExt {
    type V = SnapMetaExtView;

    open spec fn view(&self) -> SnapMetaExtView {
        SnapMetaExtView {
            version: self.version,
            flags: self.flags,
            snap_xid: self.snap_xid,
            uuid: self.uuid@,
            token: self.token,
        }
    }
}

/// The extended metadata at the start of `body`.
pub open spec fn snap_meta_ext_of(body: Seq<u8>) -> Result<SnapMetaExtView, ApfsError> {
    if body.len() < SNAP_META_EXT_SIZE {
        error::truncated("snap_meta_ext_t", SNAP_META_EXT_SIZE as int, body.len())
    } else {
        Ok(
            SnapMetaExtView {
                version: bytes::le_u32(body, 0),
                flags: bytes::le_u32(body, 4),
                snap_xid: bytes::le_u64(body, 8),
                uuid: body.subrange(16, 32),
                token: bytes::le_u64(body, 32),
            },
        )
    }
}

/// The extended metadata behind an object header.
pub open spec fn snap_meta_ext_object(block: Seq<u8>) -> Result<SnapMetaExtView, ApfsError> {
    if block.len() < OBJ_PHYS_SIZE {
        error::truncated(
            "snap_meta_ext_obj_phys_t",
            OBJ_PHYS_SIZE + SNAP_META_EXT_SIZE,
            block.len(),
        )
    } else {
        snap_meta_ext_of(block.skip(OBJ_PHYS_SIZE as int))
    }
}

impl SnapMetaExt {
    /// Parses a bare `snap_meta_ext_t` (no leading `obj_phys_t` header).
    ///
    /// To parse a whole `snap_meta_ext_obj_phys_t` block, use
    /// [`SnapMetaExt::parse_object`]: the two cannot be told apart by length
    /// alone, so the caller must state which it holds.
    pub fn parse(body: &[u8]) -> (parsed: Result<SnapMetaExt, ApfsError>)
        ensures
            error::viewed(parsed) == snap_meta_ext_of(body@),
    {
        if body.len() < SNAP_META_EXT_SIZE {
            return Err(
                ApfsError::Truncated {
                    structure: "snap_meta_ext_t",
                    expected: SNAP_META_EXT_SIZE,
                    actual: body.len(),
                },
            );
        }
        Ok(
            SnapMetaExt {
                version: bytes::read_u32(body, 0),
                flags: bytes::read_u32(body, 4),
                snap_xid: bytes::read_u64(body, 8),
                uuid: bytes::read_bytes16(body, 16),
                token: bytes::read_u64(body, 32),
            },
        )
    }

    /// Parses a `snap_meta_ext_obj_phys_t` block: an `obj_phys_t` header
    /// followed by the `snap_meta_ext_t` body.
    pub fn parse_object(block: &[u8]) -> (parsed: Result<SnapMetaExt, ApfsError>)
        ensures
            error::viewed(parsed) == snap_meta_ext_object(block@),
    {
        if block.len() < OBJ_PHYS_SIZE {
            return Err(
                ApfsError::Truncated {
                    structure: "snap_meta_ext_obj_phys_t",
                    expected: OBJ_PHYS_SIZE + SNAP_META_EXT_SIZE,
                    actual: block.len(),
                },
            );
        }
        SnapMetaExt::parse(bytes::skip_bytes(block, OBJ_PHYS_SIZE))
    }
}

/// Whether a record is that of a snapshot name: the length of the name at byte 8 of its
/// key, and from byte 10 on the name, up to a zero.
pub open spec fn has_name(record: RecordView, name: Seq<char>) -> bool {
    let end = 10 + bytes::le_u16(record.key, 8);
    &&& 10 <= record.key.len()
    &&& end <= record.key.len()
    &&& bytes::before_nul(record.key.subrange(10, end)) == encode_utf8(name)
}

/// The transaction of a snapshot's name is the one in the value of the first name record
/// with that name, and there is none exactly where no record has it.
pub proof fn law_snapshot_transaction_is_the_named_one(
    device: Device,
    tree: Catalog,
    name: Seq<char>,
    records: Seq<RecordView>,
)
    requires
        catalog::catalog_records(device, tree, Selection::Kind(JObjType::SnapName)) == Ok::<
            Seq<RecordView>,
            ApfsError,
        >(records),
    ensures
        forall|i: int|
            0 <= i < records.len() && has_name(#[trigger] records[i], name) && (forall|j: int|
                0 <= j < i ==> !has_name(#[trigger] records[j], name)) ==> (snapshot_xid(
                device,
                tree,
                name,
            ) matches Ok(found) ==> found == Some(bytes::le_u64(records[i].value, 0)))
                && (records[i].value.len() >= 8 ==> snapshot_xid(device, tree, name) is Ok),
        (forall|i: int| 0 <= i < records.len() ==> !has_name(#[trigger] records[i], name))
            ==> snapshot_xid(device, tree, name) == Ok::<Option<u64>, ApfsError>(None),
{
    lemma_xid_named(records, name);
}

proof fn lemma_xid_named(records: Seq<RecordView>, name: Seq<char>)
    ensures
        forall|i: int|
            0 <= i < records.len() && has_name(#[trigger] records[i], name) && (forall|j: int|
                0 <= j < i ==> !has_name(#[trigger] records[j], name)) ==> (xid_named(
                records,
                encode_utf8(name),
            ) matches Ok(found) ==> found == Some(bytes::le_u64(records[i].value, 0))) && (
            records[i].value.len() >= 8 ==> xid_named(records, encode_utf8(name)) is Ok),
        (forall|i: int| 0 <= i < records.len() ==> !has_name(#[trigger] records[i], name))
            ==> xid_named(records, encode_utf8(name)) == Ok::<Option<u64>, ApfsError>(None),
    decreases records.len(),
{
    let raw = encode_utf8(name);
    if records.len() > 0 {
        assert(has_name(records[0], name) <==> name_in_key(records[0].key) == Some(raw));
        let rest = records.drop_first();
        lemma_xid_named(rest, name);
        if !has_name(records[0], name) {
            assert forall|i: int|
                0 <= i < records.len() && has_name(#[trigger] records[i], name) && (forall|j: int|
                    0 <= j < i ==> !has_name(#[trigger] records[j], name)) implies (xid_named(
                records,
                raw,
            ) matches Ok(found) ==> found == Some(bytes::le_u64(records[i].value, 0))) && (
            records[i].value.len() >= 8 ==> xid_named(records, raw) is Ok) by {
                assert(rest[i - 1] == records[i]);
                assert forall|j: int| 0 <= j < i - 1 implies !has_name(
                    #[trigger] rest[j],
                    name,
                ) by {
                    assert(rest[j] == records[j + 1]);
                }
            }
            if forall|i: int| 0 <= i < records.len() ==> !has_name(#[trigger] records[i], name) {
                assert forall|i: int| 0 <= i < rest.len() implies !has_name(
                    #[trigger] rest[i],
                    name,
                ) by {
                    assert(rest[i] == records[i + 1]);
                }
            }
        }
    }
}

} // verus!
