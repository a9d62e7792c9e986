//! File-system records: the `j_key_t` header, record-type dispatch, and the
//! volume catalog B-tree.
//!
//! A volume's files and directories live as key/value records in the catalog
//! (file-system) B-tree. Every record key begins with [`JKey`], an 8-byte
//! header packing an object identifier and a record type.

use core::cmp::Ordering;

use vstd::prelude::*;

use crate::btree;
use crate::btree::{BtreeInfo, BtreeNode, Entry, EntryView};
use crate::bytes;
use crate::checkpoint;
use crate::error;
use crate::error::ApfsError;
use crate::io::{Device, Reader};
use crate::omap;
use crate::omap::{Omap, OmapValue};
use crate::search::Tree;
use crate::types::{Oid, Xid};

verus! {

/// Mask selecting the object identifier from `obj_id_and_type`.
pub const OBJ_ID_MASK: u64 = 0x0FFF_FFFF_FFFF_FFFF;

/// Shift selecting the record type from `obj_id_and_type`.
pub const OBJ_TYPE_SHIFT: u64 = 60;

/// One more than the largest object identifier: the weight of a record type in
/// `obj_id_and_type`.
pub const OBJ_TYPE_UNIT: u64 = 0x1000_0000_0000_0000;

/// Smallest object identifier belonging to a volume group's system volume.
pub const SYSTEM_OBJ_ID_MARK: u64 = 0x0FFF_FFFF_0000_0000;

/// Size of the `j_key_t` header.
pub const J_KEY_SIZE: usize = 8;

/// Maximum catalog B-tree depth walked before a tree is treated as corrupt.
pub const MAX_CATALOG_DEPTH: u32 = 32;

/// A file-system record type (`j_obj_types`).
#[derive(Debug, Clone, Copy, PartialEq, Eq, Structural)]
pub enum JObjType {
    /// Any type: used as a wildcard, not stored.
    Any,
    /// Snapshot metadata.
    SnapMetadata,
    /// A physical extent record.
    Extent,
    /// An inode.
    Inode,
    /// An extended attribute.
    Xattr,
    /// A hard-link sibling.
    SiblingLink,
    /// A data-stream id record.
    DstreamId,
    /// Per-file encryption state.
    CryptoState,
    /// A file extent.
    FileExtent,
    /// A directory entry.
    DirRec,
    /// Directory statistics.
    DirStats,
    /// A snapshot name.
    SnapName,
    /// A hard-link sibling map.
    SiblingMap,
    /// File-info (sealed-volume content hashes).
    FileInfo,
    /// An invalid record type.
    Invalid,
    /// A record type this parser does not recognize.
    Unknown(u8),
}

/// The record type of a `j_obj_types` value.
pub open spec fn kind_of(value: u8) -> JObjType {
    match value {
        0 => JObjType::Any,
        1 => JObjType::SnapMetadata,
        2 => JObjType::Extent,
        3 => JObjType::Inode,
        4 => JObjType::Xattr,
        5 => JObjType::SiblingLink,
        6 => JObjType::DstreamId,
        7 => JObjType::CryptoState,
        8 => JObjType::FileExtent,
        9 => JObjType::DirRec,
        10 => JObjType::DirStats,
        11 => JObjType::SnapName,
        12 => JObjType::SiblingMap,
        13 => JObjType::FileInfo,
        15 => JObjType::Invalid,
        _ => JObjType::Unknown(value),
    }
}

/// The `j_obj_types` value of a record type.
pub open spec fn value_of(kind: JObjType) -> u8 {
    match kind {
        JObjType::Any => 0,
        JObjType::SnapMetadata => 1,
        JObjType::Extent => 2,
        JObjType::Inode => 3,
        JObjType::Xattr => 4,
        JObjType::SiblingLink => 5,
        JObjType::DstreamId => 6,
        JObjType::CryptoState => 7,
        JObjType::FileExtent => 8,
        JObjType::DirRec => 9,
        JObjType::DirStats => 10,
        JObjType::SnapName => 11,
        JObjType::SiblingMap => 12,
        JObjType::FileInfo => 13,
        JObjType::Invalid => 15,
        JObjType::Unknown(value) => value,
    }
}

impl JObjType {
    /// Decodes a record type from its 4-bit `j_obj_types` value.
    #[must_use]
    pub fn from_value(value: u8) -> (kind: JObjType)
        ensures
            kind == kind_of(value),
    {
        match value {
            0 => JObjType::Any,
            1 => JObjType::SnapMetadata,
            2 => JObjType::Extent,
            3 => JObjType::Inode,
            4 => JObjType::Xattr,
            5 => JObjType::SiblingLink,
            6 => JObjType::DstreamId,
            7 => JObjType::CryptoState,
            8 => JObjType::FileExtent,
            9 => JObjType::DirRec,
            10 => JObjType::DirStats,
            11 => JObjType::SnapName,
            12 => JObjType::SiblingMap,
            13 => JObjType::FileInfo,
            15 => JObjType::Invalid,
            other => JObjType::Unknown(other),
        }
    }

    /// The 4-bit `j_obj_types` value of this record type.
    #[must_use]
    pub fn as_value(self) -> (value: u8)
        ensures
            value == value_of(self),
    {
        match self {
            JObjType::Any => 0,
            JObjType::SnapMetadata => 1,
            JObjType::Extent => 2,
            JObjType::Inode => 3,
            JObjType::Xattr => 4,
            JObjType::SiblingLink => 5,
            JObjType::DstreamId => 6,
            JObjType::CryptoState => 7,
            JObjType::FileExtent => 8,
            JObjType::DirRec => 9,
            JObjType::DirStats => 10,
            JObjType::SnapName => 11,
            JObjType::SiblingMap => 12,
            JObjType::FileInfo => 13,
            JObjType::Invalid => 15,
            JObjType::Unknown(value) => value,
        }
    }
}

/// Every value is the value of the record type it decodes to.
pub proof fn law_kind_round_trip(value: u8)
    ensures
        value_of(kind_of(value)) == value,
{
}

/// A parsed `j_key_t` header: the prefix of every file-system record key.
#[derive(Debug, Clone, Copy, PartialEq, Eq, Structural)]
pub struct JKey {
    /// The object identifier the record belongs to.
    pub obj_id: u64,
    /// The record's type.
    pub kind: JObjType,
}

/// The header packed in an `obj_id_and_type` word: the object id in the low 60
/// bits, the type above them.
pub open spec fn unpacked(word: u64) -> JKey {
    JKey { obj_id: word % OBJ_TYPE_UNIT, kind: kind_of((word / OBJ_TYPE_UNIT) as u8) }
}

/// The word of an object id and a record type; bits that do not fit are
/// dropped.
pub open spec fn packed(obj_id: u64, kind: JObjType) -> u64 {
    ((value_of(kind) % 16) * OBJ_TYPE_UNIT + obj_id % OBJ_TYPE_UNIT) as u64
}

/// Unpacking a packed header gives it back, for every object id and type that
/// fit.
pub proof fn law_header_round_trip(obj_id: u64, kind: JObjType)
    requires
        obj_id < OBJ_TYPE_UNIT,
        value_of(kind) < 16,
        kind == kind_of(value_of(kind)),
    ensures
        unpacked(packed(obj_id, kind)) == (JKey { obj_id, kind }),
{
}

/// The header of a record key.
pub open spec fn header_of(key: Seq<u8>) -> Result<JKey, ApfsError> {
    if key.len() < J_KEY_SIZE {
        error::truncated("j_key_t", J_KEY_SIZE as int, key.len())
    } else {
        Ok(unpacked(bytes::le_u64(key, 0)))
    }
}

impl JKey {
    /// Parses the `j_key_t` header from the start of a record key.
    pub fn parse(key: &[u8]) -> (parsed: Result<JKey, ApfsError>)
        ensures
            parsed == header_of(key@),
    {
        if key.len() < J_KEY_SIZE {
            return Err(
                ApfsError::Truncated {
                    structure: "j_key_t",
                    expected: J_KEY_SIZE,
                    actual: key.len(),
                },
            );
        }
        let word: u64 = bytes::read_u64(key, 0);
        Ok(
            JKey {
                obj_id: word % OBJ_TYPE_UNIT,
                kind: JObjType::from_value((word / OBJ_TYPE_UNIT) as u8),
            },
        )
    }

    /// Whether the object belongs to the system volume of a volume group.
    #[must_use]
    pub fn is_system_object(self) -> (system: bool)
        ensures
            system == (self.obj_id >= SYSTEM_OBJ_ID_MARK),
    {
        self.obj_id >= SYSTEM_OBJ_ID_MARK
    }
}

/// Packs an object id and a record type into the word that a record key
/// starts with.
#[must_use]
pub fn pack_jkey(obj_id: u64, kind: JObjType) -> (word: u64)
    ensures
        word == packed(obj_id, kind),
{
    (kind.as_value() % 16) as u64 * OBJ_TYPE_UNIT + obj_id % OBJ_TYPE_UNIT
}

/// The lexicographic order of byte strings.
pub open spec fn bytes_order(a: Seq<u8>, b: Seq<u8>) -> Ordering
    decreases a.len(),
{
    if a.len() == 0 && b.len() == 0 {
        Ordering::Equal
    } else if a.len() == 0 {
        Ordering::Less
    } else if b.len() == 0 {
        Ordering::Greater
    } else if a[0] < b[0] {
        Ordering::Less
    } else if a[0] > b[0] {
        Ordering::Greater
    } else {
        bytes_order(a.drop_first(), b.drop_first())
    }
}

/// The order of two record headers: by object id, then by type value.
pub open spec fn header_order(a: JKey, b: JKey) -> Ordering {
    if a.obj_id < b.obj_id {
        Ordering::Less
    } else if a.obj_id > b.obj_id {
        Ordering::Greater
    } else if value_of(a.kind) < value_of(b.kind) {
        Ordering::Less
    } else if value_of(a.kind) > value_of(b.kind) {
        Ordering::Greater
    } else {
        Ordering::Equal
    }
}

/// The order of two record keys by their headers; keys without a header are
/// ordered by their bytes.
pub open spec fn record_key_order(a: Seq<u8>, b: Seq<u8>) -> Ordering {
    match (header_of(a), header_of(b)) {
        (Ok(left), Ok(right)) => header_order(left, right),
        _ => bytes_order(a, b),
    }
}

/// [`record_key_order`], as the order of a tree.
pub open spec fn catalog_order() -> spec_fn(Seq<u8>, Seq<u8>) -> Ordering {
    |a: Seq<u8>, b: Seq<u8>| record_key_order(a, b)
}

/// Orders two byte strings lexicographically.
fn compare_bytes(a: &[u8], b: &[u8]) -> (order: Ordering)
    ensures
        order == bytes_order(a@, b@),
{
    let mut left: &[u8] = a;
    let mut right: &[u8] = b;
    while left.len() > 0 && right.len() > 0
        invariant
            bytes_order(left@, right@) == bytes_order(a@, b@),
        decreases left@.len(),
    {
        if left[0] < right[0] {
            return Ordering::Less;
        }
        if left[0] > right[0] {
            return Ordering::Greater;
        }
        assert(left@.skip(1) =~= left@.drop_first() && right@.skip(1) =~= right@.drop_first());
        left = bytes::skip_bytes(left, 1);
        right = bytes::skip_bytes(right, 1);
    }
    if left.len() > 0 {
        Ordering::Greater
    } else if right.len() > 0 {
        Ordering::Less
    } else {
        Ordering::Equal
    }
}

/// Orders two catalog record keys by their `j_key_t` header: object id
/// ascending, then record type ascending.
///
/// A malformed key sorts by its raw bytes, so that every two keys have an
/// order.
#[must_use]
pub fn j_key_header_cmp(a: &[u8], b: &[u8]) -> (order: Ordering)
    ensures
        order == record_key_order(a@, b@),
{
    match (JKey::parse(a), JKey::parse(b)) {
        (Ok(left), Ok(right)) => {
            if left.obj_id < right.obj_id {
                return Ordering::Less;
            }
            if left.obj_id > right.obj_id {
                return Ordering::Greater;
            }
            let left: u8 = left.kind.as_value();
            let right: u8 = right.kind.as_value();
            if left < right {
                Ordering::Less
            } else if left > right {
                Ordering::Greater
            } else {
                Ordering::Equal
            }
        },
        _ => compare_bytes(a, b),
    }
}

/// One file-system record read from the catalog.
#[derive(Debug, Clone, PartialEq, Eq)]
pub struct CatalogRecord {
    /// The record's parsed `j_key_t` header.
    pub key_header: JKey,
    /// The complete record key, including the `j_key_t` header.
    pub key: Vec<u8>,
    /// The complete record value.
    pub value: Vec<u8>,
}

/// The content of a [`CatalogRecord`].
pub struct RecordView {
    /// The record's `j_key_t` header.
    pub key_header: JKey,
    /// The complete record key.
    pub key: Seq<u8>,
    /// The complete record value.
    pub value: Seq<u8>,
}

impl View for CatalogRecord {
    type V = RecordView;

    open spec fn view(&self) -> RecordView {
        RecordView { key_header: self.key_header, key: self.key@, value: self.value@ }
    }
}

/// Which records of a catalog a walk is after.
#[derive(Debug, Clone, Copy, PartialEq, Eq, Structural)]
pub enum Selection {
    /// The records of one object. Object id is the primary sort key, so a walk
    /// skips the subtrees that cannot hold the object.
    Object(u64),
    /// The records of one type, of any object.
    Kind(JObjType),
}

impl Selection {
    /// Whether a record is selected.
    pub open spec fn selects(self, header: JKey) -> bool {
        match self {
            Selection::Object(obj_id) => header.obj_id == obj_id,
            Selection::Kind(kind) => header.kind == kind,
        }
    }

    /// Whether a record is selected.
    fn keeps(&self, header: &JKey) -> (kept: bool)
        ensures
            kept == self.selects(*header),
    {
        match self {
            Selection::Object(obj_id) => header.obj_id == *obj_id,
            Selection::Kind(kind) => header.kind == *kind,
        }
    }
}

/// What a walk comes across: records, and then its end or an error.
pub struct Stream {
    /// The records, in the order in which the walk meets them.
    pub records: Seq<RecordView>,
    /// The error that ends the walk.
    pub end: Option<ApfsError>,
}

/// A walk that meets nothing.
pub open spec fn nothing() -> Stream {
    Stream { records: Seq::empty(), end: None }
}

/// A walk that fails at once.
pub open spec fn failure(error: ApfsError) -> Stream {
    Stream { records: Seq::empty(), end: Some(error) }
}

/// One walk after another; the second does not take place when the first one
/// fails.
pub open spec fn followed_by(first: Stream, second: Stream) -> Stream {
    match first.end {
        Some(_) => first,
        None => Stream { records: first.records + second.records, end: second.end },
    }
}

/// The value of an entry, empty for an entry without one.
pub open spec fn value_or_empty(entry: EntryView) -> Seq<u8> {
    match entry.value {
        Some(value) => value,
        None => Seq::empty(),
    }
}

/// Whether the subtree of the non-leaf entry `index` ends before the object
/// `target`: the next entry's first object precedes it.
pub open spec fn ends_before(node: Seq<u8>, index: u32, target: u64) -> Result<bool, ApfsError> {
    if index + 1 < btree::node_key_count(node) {
        match btree::entry_of(node, (index + 1) as u32, 0, 0) {
            Err(error) => Err(error),
            Ok(next) => match header_of(next.key) {
                Err(error) => Err(error),
                Ok(header) => Ok(header.obj_id < target),
            },
        }
    } else {
        Ok(false)
    }
}

/// What a walk does with a subtree.
pub enum Step {
    /// It goes into the subtree of this object identifier.
    Enter(u64),
    /// It goes on to the next entry.
    Skip,
    /// It is done with the node.
    Stop,
    /// It fails.
    Fail(ApfsError),
}

/// The child link of a non-leaf catalog entry, as a step into it.
pub open spec fn enter(entry: EntryView) -> Step {
    match entry.value {
        None => Step::Fail(
            ApfsError::Malformed {
                structure: "fstree",
                reason: "non-leaf catalog entry has no child link",
            },
        ),
        Some(value) => if value.len() < 8 {
            Step::Fail(
                ApfsError::Malformed {
                    structure: "fstree",
                    reason: "catalog child link shorter than an object id",
                },
            )
        } else {
            Step::Enter(bytes::le_u64(value, 0))
        },
    }
}

/// What a walk does at the non-leaf entry `index`: with an object to look for
/// it stops at a subtree that starts behind the object, and skips one that
/// ends before it.
pub open spec fn step_at(node: Seq<u8>, entry: EntryView, index: u32, selection: Selection) -> Step {
    match selection {
        Selection::Kind(_) => enter(entry),
        Selection::Object(target) => match header_of(entry.key) {
            Err(error) => Step::Fail(error),
            Ok(separator) => if separator.obj_id > target {
                Step::Stop
            } else {
                match ends_before(node, index, target) {
                    Err(error) => Step::Fail(error),
                    Ok(true) => Step::Skip,
                    Ok(false) => enter(entry),
                }
            },
        },
    }
}

/// The walk over the tree under `node`, at most `levels` levels deep.
pub open spec fn walk_node(
    nodes: spec_fn(u64) -> Result<Seq<u8>, ApfsError>,
    node: Seq<u8>,
    selection: Selection,
    levels: nat,
) -> Stream
    decreases levels, 2 + btree::node_key_count(node),
{
    if levels == 0 {
        failure(
            ApfsError::Malformed {
                structure: "fstree",
                reason: "catalog B-tree is deeper than the supported limit",
            },
        )
    } else {
        walk_entries(nodes, node, selection, levels, 0)
    }
}

/// The walk over the entries of `node` from `index` on.
pub open spec fn walk_entries(
    nodes: spec_fn(u64) -> Result<Seq<u8>, ApfsError>,
    node: Seq<u8>,
    selection: Selection,
    levels: nat,
    index: u32,
) -> Stream
    decreases levels, 1 + btree::node_key_count(node) - index,
{
    if levels == 0 || index >= btree::node_key_count(node) {
        nothing()
    } else {
        let next = (index + 1) as u32;
        match btree::entry_of(node, index, 0, 0) {
            Err(error) => failure(error),
            Ok(entry) => if btree::node_is_leaf(node) {
                match header_of(entry.key) {
                    Err(error) => failure(error),
                    Ok(key_header) => if selection.selects(key_header) {
                        followed_by(
                            Stream {
                                records: seq![
                                    RecordView {
                                        key_header,
                                        key: entry.key,
                                        value: value_or_empty(entry),
                                    },
                                ],
                                end: None,
                            },
                            walk_entries(nodes, node, selection, levels, next),
                        )
                    } else {
                        walk_entries(nodes, node, selection, levels, next)
                    },
                }
            } else {
                match step_at(node, entry, index, selection) {
                    Step::Fail(error) => failure(error),
                    Step::Stop => nothing(),
                    Step::Skip => walk_entries(nodes, node, selection, levels, next),
                    Step::Enter(oid) => match nodes(oid) {
                        Err(error) => failure(error),
                        Ok(child) => followed_by(
                            walk_node(nodes, child, selection, (levels - 1) as nat),
                            walk_entries(nodes, node, selection, levels, next),
                        ),
                    },
                }
            },
        }
    }
}

/// A consumer of the records that a walk meets.
pub trait Visitor {
    /// What has been consumed.
    type Seen;

    /// What has been consumed so far.
    spec fn seen(&self) -> Self::Seen;

    /// What consuming a record makes of what was consumed before, and whether
    /// the walk is to end there: `Ok(true)` ends it, an error fails it.
    spec fn consumed(seen: Self::Seen, record: RecordView) -> (Self::Seen, Result<
        bool,
        ApfsError,
    >);

    /// Consumes a record.
    fn visit(&mut self, key_header: JKey, key: &[u8], value: &[u8]) -> (flow: Result<
        bool,
        ApfsError,
    >)
        ensures
            Self::consumed(
                old(self).seen(),
                (RecordView { key_header, key: key@, value: value@ }),
            ) == (final(self).seen(), flow),
    ;
}

/// What a consumer makes of the records of a walk from `index` on, and how the
/// walk ends: `Ok(true)` when the consumer ended it.
pub open spec fn consumed_from<V: Visitor>(walk: Stream, index: nat, seen: V::Seen) -> (
    V::Seen,
    Result<bool, ApfsError>,
)
    decreases walk.records.len() - index,
{
    if index >= walk.records.len() {
        match walk.end {
            Some(error) => (seen, Err(error)),
            None => (seen, Ok(false)),
        }
    } else {
        let (after, flow) = V::consumed(seen, walk.records[index as int]);
        match flow {
            Ok(false) => consumed_from::<V>(walk, index + 1, after),
            _ => (after, flow),
        }
    }
}

/// What a consumer makes of a whole walk.
pub open spec fn consumed_by<V: Visitor>(walk: Stream, seen: V::Seen) -> (V::Seen, Result<
    bool,
    ApfsError,
>) {
    consumed_from::<V>(walk, 0, seen)
}

/// Two walks one after the other are consumed one after the other.
proof fn lemma_consumed_in_turn<V: Visitor>(
    first: Stream,
    second: Stream,
    index: nat,
    seen: V::Seen,
)
    requires
        index <= first.records.len(),
    ensures
        consumed_from::<V>(followed_by(first, second), index, seen) == {
            let (after, flow) = consumed_from::<V>(first, index, seen);
            match flow {
                Ok(false) => consumed_from::<V>(second, 0, after),
                _ => (after, flow),
            }
        },
    decreases first.records.len() - index,
{
    let both = followed_by(first, second);
    if first.end is None {
        if index < first.records.len() {
            let (after, flow) = V::consumed(seen, first.records[index as int]);
            assert(both.records[index as int] == first.records[index as int]);
            if flow matches Ok(false) {
                lemma_consumed_in_turn::<V>(first, second, index + 1, after);
            }
        } else {
            lemma_consumed_suffix::<V>(first.records, second, 0, seen);
        }
    } else {
        lemma_no_quiet_end::<V>(first, index, seen);
    }
}

proof fn lemma_consumed_suffix<V: Visitor>(
    before: Seq<RecordView>,
    second: Stream,
    index: nat,
    seen: V::Seen,
)
    requires
        index <= second.records.len(),
    ensures
        consumed_from::<V>(
            (Stream { records: before + second.records, end: second.end }),
            (before.len() + index) as nat,
            seen,
        ) == consumed_from::<V>(second, index, seen),
    decreases second.records.len() - index,
{
    if index < second.records.len() {
        let (after, flow) = V::consumed(seen, second.records[index as int]);
        assert((before + second.records)[(before.len() + index) as int] == second.records[index as int]);
        if flow matches Ok(false) {
            lemma_consumed_suffix::<V>(before, second, index + 1, after);
        }
    }
}

/// A failing walk does not end quietly.
proof fn lemma_no_quiet_end<V: Visitor>(walk: Stream, index: nat, seen: V::Seen)
    requires
        walk.end is Some,
    ensures
        consumed_from::<V>(walk, index, seen).1 != Ok::<bool, ApfsError>(false),
    decreases walk.records.len() - index,
{
    if index < walk.records.len() {
        let (after, flow) = V::consumed(seen, walk.records[index as int]);
        if flow matches Ok(false) {
            lemma_no_quiet_end::<V>(walk, index + 1, after);
        }
    }
}

/// A consumer that keeps every record.
pub struct RecordCollector {
    records: Vec<CatalogRecord>,
}

impl Visitor for RecordCollector {
    type Seen = Seq<RecordView>;

    closed spec fn seen(&self) -> Seq<RecordView> {
        error::views(self.records@)
    }

    open spec fn consumed(seen: Seq<RecordView>, record: RecordView) -> (Seq<RecordView>, Result<
        bool,
        ApfsError,
    >) {
        (seen.push(record), Ok(false))
    }

    fn visit(&mut self, key_header: JKey, key: &[u8], value: &[u8]) -> (flow: Result<
        bool,
        ApfsError,
    >) {
        let ghost before = self.records@;
        self.records.push(
            CatalogRecord {
                key_header,
                key: vstd::slice::slice_to_vec(key),
                value: vstd::slice::slice_to_vec(value),
            },
        );
        assert(error::views(self.records@) =~= error::views(before).push(
            RecordView { key_header, key: key@, value: value@ },
        ));
        Ok(false)
    }
}

/// The records of a walk that does not fail.
pub open spec fn all_records(walk: Stream) -> Result<Seq<RecordView>, ApfsError> {
    match walk.end {
        Some(error) => Err(error),
        None => Ok(walk.records),
    }
}

/// Keeping every record of a walk gives its records.
proof fn lemma_collected(walk: Stream, index: nat)
    requires
        index <= walk.records.len(),
    ensures
        consumed_from::<RecordCollector>(walk, index, walk.records.take(index as int)) == (
            walk.records,
            match walk.end {
                Some(error) => Err::<bool, ApfsError>(error),
                None => Ok(false),
            },
        ),
    decreases walk.records.len() - index,
{
    if index < walk.records.len() {
        assert(walk.records.take(index as int).push(walk.records[index as int])
            =~= walk.records.take((index + 1) as int));
        lemma_collected(walk, index + 1);
    } else {
        assert(walk.records.take(index as int) =~= walk.records);
    }
}

/// A volume's catalog (file-system records) B-tree.
///
/// The catalog is a *virtual* tree: its nodes are virtual objects resolved
/// through the volume's object map.
#[derive(Debug, Clone, Copy, PartialEq, Eq, Structural)]
pub struct Catalog {
    /// Object id of the root node.
    pub root_oid: Oid,
    /// The object map that locates the nodes.
    pub omap: Omap,
    /// Container block size.
    pub block_size: u32,
    /// The transaction to read the tree as of.
    pub xid: Xid,
}

/// The node of a catalog with the object identifier `oid`.
pub open spec fn catalog_node(device: Device, catalog: Catalog, oid: u64) -> Result<
    Seq<u8>,
    ApfsError,
> {
    match omap::mapping_of(
        device,
        catalog.block_size,
        catalog.omap.tree_oid,
        Oid(oid),
        catalog.xid,
    ) {
        Err(error) => Err(error),
        Ok(None) => Err(ApfsError::NotFound { what: "catalog tree node" }),
        Ok(Some(mapping)) => match mapping.paddr.block() {
            None => error::malformed("omap_val_t", "catalog node address is negative"),
            Some(addr) => checkpoint::node_at(device, catalog.block_size, addr),
        },
    }
}

/// The nodes of a catalog.
pub open spec fn catalog_nodes(device: Device, catalog: Catalog) -> spec_fn(u64) -> Result<
    Seq<u8>,
    ApfsError,
> {
    |oid: u64| catalog_node(device, catalog, oid)
}

/// The walk over a catalog.
#[verifier::opaque]
pub open spec fn catalog_walk(device: Device, catalog: Catalog, selection: Selection) -> Stream {
    match catalog_node(device, catalog, catalog.root_oid.0) {
        Err(error) => failure(error),
        Ok(root) => walk_node(
            catalog_nodes(device, catalog),
            root,
            selection,
            MAX_CATALOG_DEPTH as nat,
        ),
    }
}

/// The selected records of a catalog, in catalog order.
pub open spec fn catalog_records(device: Device, catalog: Catalog, selection: Selection) -> Result<
    Seq<RecordView>,
    ApfsError,
> {
    all_records(catalog_walk(device, catalog, selection))
}

/// The value of the record of an object and a type.
#[verifier::opaque]
pub open spec fn record_value(device: Device, catalog: Catalog, obj_id: u64, kind: JObjType) -> Result<
    Option<Seq<u8>>,
    ApfsError,
> {
    match catalog_node(device, catalog, catalog.root_oid.0) {
        Err(error) => Err(error),
        Ok(root) => btree::tree_value(
            root,
            catalog_nodes(device, catalog),
            bytes::u64_le_bytes(packed(obj_id, kind)),
            catalog_order(),
        ),
    }
}

/// Reads whether the subtree of the non-leaf entry `index` ends before
/// `target`.
fn subtree_ends_before(node: &BtreeNode, index: u32, target: u64) -> (ends: Result<
    bool,
    ApfsError,
>)
    requires
        index < btree::node_key_count(node@),
    ensures
        ends == ends_before(node@, index, target),
{
    if index + 1 < node.key_count() {
        match node.entry(index + 1, 0, 0) {
            Err(error) => Err(error),
            Ok(next) => match JKey::parse(next.key) {
                Err(error) => Err(error),
                Ok(header) => Ok(header.obj_id < target),
            },
        }
    } else {
        Ok(false)
    }
}

/// The step into the child of a non-leaf entry.
fn read_enter(entry: &Entry<'_>) -> (step: Step)
    ensures
        step == enter(entry@),
{
    match entry.value {
        None => Step::Fail(
            ApfsError::Malformed {
                structure: "fstree",
                reason: "non-leaf catalog entry has no child link",
            },
        ),
        Some(value) => {
            if value.len() < 8 {
                return Step::Fail(
                    ApfsError::Malformed {
                        structure: "fstree",
                        reason: "catalog child link shorter than an object id",
                    },
                );
            }
            Step::Enter(bytes::read_u64(value, 0))
        },
    }
}

/// Decides what a walk does at the non-leaf entry `index`.
fn read_step(node: &BtreeNode, entry: &Entry<'_>, index: u32, selection: &Selection) -> (step: Step)
    requires
        index < btree::node_key_count(node@),
    ensures
        step == step_at(node@, entry@, index, *selection),
{
    match selection {
        Selection::Kind(_) => read_enter(entry),
        Selection::Object(target) => match JKey::parse(entry.key) {
            Err(error) => Step::Fail(error),
            Ok(separator) => {
                if separator.obj_id > *target {
                    return Step::Stop;
                }
                match subtree_ends_before(node, index, *target) {
                    Err(error) => Step::Fail(error),
                    Ok(true) => Step::Skip,
                    Ok(false) => read_enter(entry),
                }
            },
        },
    }
}

impl Catalog {
    /// Creates a catalog handle.
    ///
    /// `root_oid` is the volume's `apfs_root_tree_oid`; `omap` is the volume's
    /// object map; `xid` is the transaction to read the volume as of.
    #[must_use]
    pub fn new(root_oid: Oid, omap: Omap, block_size: u32, xid: Xid) -> (catalog: Catalog)
        ensures
            catalog == (Catalog { root_oid, omap, block_size, xid }),
    {
        Catalog { root_oid, omap, block_size, xid }
    }

    /// Resolves a virtual catalog-tree node identifier to a parsed node.
    fn resolve_node<T: Reader>(&self, reader: &mut T, node_oid: u64) -> (node: Result<
        BtreeNode,
        ApfsError,
    >)
        ensures
            final(reader).device() == old(reader).device(),
            error::viewed(node) == catalog_node(old(reader).device(), *self, node_oid),
    {
        let mapping: OmapValue = match self.omap.resolve(
            reader,
            self.block_size,
            Oid(node_oid),
            self.xid,
        ) {
            Ok(Some(mapping)) => mapping,
            Ok(None) => return Err(ApfsError::NotFound { what: "catalog tree node" }),
            Err(error) => return Err(error),
        };
        match mapping.paddr.as_block() {
            Some(addr) => checkpoint::read_node(reader, self.block_size, addr),
            None => Err(
                ApfsError::Malformed {
                    structure: "omap_val_t",
                    reason: "catalog node address is negative",
                },
            ),
        }
    }

    /// Walks the tree under `node`, handing each selected record to `visitor`;
    /// `Ok(true)` when the visitor ended the walk.
    fn walk<T: Reader, V: Visitor>(
        &self,
        reader: &mut T,
        node: &BtreeNode,
        selection: &Selection,
        levels: u32,
        visitor: &mut V,
    ) -> (flow: Result<bool, ApfsError>)
        ensures
            final(reader).device() == old(reader).device(),
            consumed_by::<V>(
                walk_node(
                    catalog_nodes(old(reader).device(), *self),
                    node@,
                    *selection,
                    levels as nat,
                ),
                old(visitor).seen(),
            ) == (final(visitor).seen(), flow),
        decreases levels,
    {
        if levels == 0 {
            return Err(
                ApfsError::Malformed {
                    structure: "fstree",
                    reason: "catalog B-tree is deeper than the supported limit",
                },
            );
        }
        let ghost device = reader.device();
        let ghost nodes = catalog_nodes(device, *self);
        let ghost goal = consumed_by::<V>(
            walk_node(nodes, node@, *selection, levels as nat),
            visitor.seen(),
        );
        let count: u32 = node.key_count();
        let leaf: bool = node.is_leaf();
        let mut index: u32 = 0;
        while index < count
            invariant
                levels > 0,
                index <= count,
                count == btree::node_key_count(node@),
                leaf == btree::node_is_leaf(node@),
                device == old(reader).device(),
                reader.device() == device,
                nodes == catalog_nodes(device, *self),
                goal == consumed_by::<V>(
                    walk_node(nodes, node@, *selection, levels as nat),
                    old(visitor).seen(),
                ),
                goal == consumed_by::<V>(
                    walk_entries(nodes, node@, *selection, levels as nat, index),
                    visitor.seen(),
                ),
            decreases count - index,
        {
            let ghost rest = walk_entries(
                nodes,
                node@,
                *selection,
                levels as nat,
                (index + 1) as u32,
            );
            let ghost seen = visitor.seen();
            let entry: Entry<'_> = match node.entry(index, 0, 0) {
                Ok(entry) => entry,
                Err(error) => return Err(error),
            };
            if leaf {
                let header: JKey = match JKey::parse(entry.key) {
                    Ok(header) => header,
                    Err(error) => return Err(error),
                };
                if selection.keeps(&header) {
                    let empty: [u8; 0] = [];
                    let value: &[u8] = match entry.value {
                        Some(value) => value,
                        None => &empty,
                    };
                    let ghost one = Stream {
                        records: seq![
                            RecordView { key_header: header, key: entry.key@, value: value@ },
                        ],
                        end: None,
                    };
                    proof {
                        assert(value@ =~= value_or_empty(entry@));
                        lemma_consumed_in_turn::<V>(one, rest, 0, seen);
                        reveal_with_fuel(consumed_from, 3);
                    }
                    match visitor.visit(header, entry.key, value) {
                        Ok(true) => return Ok(true),
                        Ok(false) => {},
                        Err(error) => return Err(error),
                    }
                }
            } else {
                match read_step(node, &entry, index, selection) {
                    Step::Fail(error) => return Err(error),
                    Step::Stop => return Ok(false),
                    Step::Skip => {},
                    Step::Enter(oid) => {
                        let child: BtreeNode = match self.resolve_node(reader, oid) {
                            Ok(child) => child,
                            Err(error) => return Err(error),
                        };
                        proof {
                            lemma_consumed_in_turn::<V>(
                                walk_node(nodes, child@, *selection, (levels - 1) as nat),
                                rest,
                                0,
                                seen,
                            );
                        }
                        match self.walk(reader, &child, selection, levels - 1, visitor) {
                            Ok(true) => return Ok(true),
                            Ok(false) => {},
                            Err(error) => return Err(error),
                        }
                    },
                }
            }
            index += 1;
        }
        Ok(false)
    }

    /// Hands each selected record of the catalog to `visitor`; `Ok(true)` when
    /// the visitor ended the walk.
    pub fn visit_records<T: Reader, V: Visitor>(
        &self,
        reader: &mut T,
        selection: Selection,
        visitor: &mut V,
    ) -> (flow: Result<bool, ApfsError>)
        ensures
            final(reader).device() == old(reader).device(),
            consumed_by::<V>(
                catalog_walk(old(reader).device(), *self, selection),
                old(visitor).seen(),
            ) == (final(visitor).seen(), flow),
    {
        proof {
            reveal(catalog_walk);
        }
        let root: BtreeNode = match self.resolve_node(reader, self.root_oid.0) {
            Ok(root) => root,
            Err(error) => return Err(error),
        };
        self.walk(reader, &root, &selection, MAX_CATALOG_DEPTH, visitor)
    }

    /// Collects the selected records of the catalog.
    fn collect<T: Reader>(&self, reader: &mut T, selection: Selection) -> (collected: Result<
        Vec<CatalogRecord>,
        ApfsError,
    >)
        ensures
            final(reader).device() == old(reader).device(),
            error::viewed_all(collected) == catalog_records(
                old(reader).device(),
                *self,
                selection,
            ),
    {
        let mut collector: RecordCollector = RecordCollector { records: Vec::new() };
        let ghost walk = catalog_walk(reader.device(), *self, selection);
        proof {
            assert(collector.seen() =~= walk.records.take(0));
            lemma_collected(walk, 0);
        }
        match self.visit_records(reader, selection, &mut collector) {
            Ok(_) => Ok(collector.records),
            Err(error) => Err(error),
        }
    }

    /// Returns every catalog record belonging to `obj_id`, across all record
    /// types, in catalog order.
    ///
    /// Records for one object are contiguous in the catalog B-tree, so the
    /// walk descends only the subtrees whose key range can hold `obj_id`.
    pub fn records_for<T: Reader>(&self, reader: &mut T, obj_id: u64) -> (records: Result<
        Vec<CatalogRecord>,
        ApfsError,
    >)
        ensures
            final(reader).device() == old(reader).device(),
            error::viewed_all(records) == catalog_records(
                old(reader).device(),
                *self,
                Selection::Object(obj_id),
            ),
    {
        self.collect(reader, Selection::Object(obj_id))
    }

    /// Returns every catalog record of the given record type, tree-wide.
    ///
    /// Record type is not the tree's sort key, so this is a whole-tree walk.
    pub fn records_of_kind<T: Reader>(&self, reader: &mut T, kind: JObjType) -> (records: Result<
        Vec<CatalogRecord>,
        ApfsError,
    >)
        ensures
            final(reader).device() == old(reader).device(),
            error::viewed_all(records) == catalog_records(
                old(reader).device(),
                *self,
                Selection::Kind(kind),
            ),
    {
        self.collect(reader, Selection::Kind(kind))
    }

    /// Looks up the single catalog record identified by `(obj_id, kind)` and
    /// returns its value bytes, via a keyed B-tree descent.
    ///
    /// Suitable for record types with exactly one record per object: an
    /// inode, a physical-extent record, a sibling-map record.
    pub fn find_record<T: Reader>(&self, reader: &mut T, obj_id: u64, kind: JObjType) -> (found:
        Result<Option<Vec<u8>>, ApfsError>)
        ensures
            final(reader).device() == old(reader).device(),
            error::viewed_option(found) == record_value(
                old(reader).device(),
                *self,
                obj_id,
                kind,
            ),
    {
        proof {
            reveal(record_value);
        }
        let root: BtreeNode = match self.resolve_node(reader, self.root_oid.0) {
            Ok(root) => root,
            Err(error) => return Err(error),
        };
        let search: Vec<u8> = bytes::u64_bytes(pack_jkey(obj_id, kind));
        let resolve = |r: &mut T, oid: u64| -> (node: Result<BtreeNode, ApfsError>)
            ensures
                final(r).device() == old(r).device(),
                error::viewed(node) == catalog_node(old(r).device(), *self, oid),
            { self.resolve_node(r, oid) };
        let ghost device = reader.device();
        let ghost start = root@;
        assert(btree::computes(j_key_header_cmp, catalog_order()));
        let found: Result<Option<Vec<u8>>, ApfsError> = btree::descend(
            root,
            reader,
            resolve,
            search.as_slice(),
            j_key_header_cmp,
        );
        assert(reader.device() == device && error::viewed_option(found) == btree::tree_value(
            start,
            catalog_nodes(device, *self),
            search@,
            catalog_order(),
        ));
        found
    }
}

/// An item that records of one kind hold, read with the help of a parameter.
pub trait FromRecord<P>: Sized + View {
    /// The kind of the records that hold such items.
    spec fn spec_kind() -> JObjType;

    /// The kind of the records that hold such items.
    fn record_kind() -> (kind: JObjType)
        ensures
            kind == Self::spec_kind(),
    ;

    /// The item in a record.
    spec fn item_of(param: P, record: RecordView) -> Result<<Self as View>::V, ApfsError>;

    /// Reads the item in a record.
    fn read_item(param: P, record: &CatalogRecord) -> (item: Result<Self, ApfsError>)
        ensures
            error::viewed(item) == Self::item_of(param, record@),
    ;
}

/// The items in the first `count` records; records of another kind hold none.
pub open spec fn items_of<P, A: FromRecord<P>>(
    param: P,
    records: Seq<RecordView>,
    count: nat,
) -> Result<Seq<<A as View>::V>, ApfsError>
    decreases count,
{
    if count == 0 {
        Ok(Seq::empty())
    } else {
        match items_of::<P, A>(param, records, (count - 1) as nat) {
            Err(error) => Err(error),
            Ok(before) => if records[count - 1].key_header.kind != A::spec_kind() {
                Ok(before)
            } else {
                match A::item_of(param, records[count - 1]) {
                    Err(error) => Err(error),
                    Ok(item) => Ok(before.push(item)),
                }
            },
        }
    }
}

/// The items in the records that a catalog holds of an object or a kind.
pub open spec fn catalog_items<P, A: FromRecord<P>>(
    device: Device,
    catalog: Catalog,
    selection: Selection,
    param: P,
) -> Result<Seq<<A as View>::V>, ApfsError> {
    match catalog_records(device, catalog, selection) {
        Err(error) => Err(error),
        Ok(records) => items_of::<P, A>(param, records, records.len()),
    }
}

proof fn lemma_items_error<P, A: FromRecord<P>>(
    param: P,
    records: Seq<RecordView>,
    some: nat,
    all: nat,
    error: ApfsError,
)
    requires
        some <= all,
        items_of::<P, A>(param, records, some) == Err::<Seq<<A as View>::V>, ApfsError>(error),
    ensures
        items_of::<P, A>(param, records, all) == Err::<Seq<<A as View>::V>, ApfsError>(error),
    decreases all,
{
    if some < all {
        lemma_items_error::<P, A>(param, records, some, (all - 1) as nat, error);
    }
}

/// Reads the items in records; records of another kind hold none.
pub fn read_items<P: Copy, A: FromRecord<P>>(param: P, records: &Vec<CatalogRecord>) -> (items:
    Result<Vec<A>, ApfsError>)
    ensures
        error::viewed_all(items) == items_of::<P, A>(
            param,
            error::views(records@),
            records@.len(),
        ),
{
    let ghost all = error::views(records@);
    let mut items: Vec<A> = Vec::new();
    let mut i: usize = 0;
    proof {
        assert(error::views(items@) =~= Seq::empty());
    }
    while i < records.len()
        invariant
            i <= records@.len(),
            all == error::views(records@),
            items_of::<P, A>(param, all, i as nat) == Ok::<Seq<<A as View>::V>, ApfsError>(
                error::views(items@),
            ),
        decreases records@.len() - i,
    {
        proof {
            assert(all[i as int] == records@[i as int]@);
        }
        if records[i].key_header.kind == A::record_kind() {
            match A::read_item(param, &records[i]) {
                Ok(item) => {
                    proof {
                        assert(error::views(items@.push(item)) =~= error::views(items@).push(
                            item@,
                        ));
                    }
                    items.push(item);
                },
                Err(error) => {
                    proof {
                        lemma_items_error::<P, A>(
                            param,
                            all,
                            (i + 1) as nat,
                            all.len(),
                            error,
                        );
                    }
                    return Err(error);
                },
            }
        }
        i += 1;
    }
    Ok(items)
}

/// Whether the header of a record key is not behind that of another.
pub open spec fn header_le(a: JKey, b: JKey) -> bool {
    a.obj_id < b.obj_id || (a.obj_id == b.obj_id && value_of(a.kind) <= value_of(b.kind))
}

/// A catalog, as a search sees it.
pub open spec fn catalog_tree(device: Device, catalog: Catalog, info: BtreeInfo) -> Tree {
    Tree {
        nodes: catalog_nodes(device, catalog),
        key_len: btree::sizes_of(info).0,
        val_len: btree::sizes_of(info).1,
        le: |a: Seq<u8>, b: Seq<u8>| header_le(header_of(a)->Ok_0, header_of(b)->Ok_0),
        valid: |key: Seq<u8>| header_of(key) is Ok,
    }
}

proof fn lemma_same_kind(key: Seq<u8>)
    requires
        header_of(key) is Ok,
    ensures
        header_of(key)->Ok_0.kind == kind_of(value_of(header_of(key)->Ok_0.kind)),
{
    law_kind_round_trip((bytes::le_u64(key, 0) / OBJ_TYPE_UNIT) as u8);
}

proof fn lemma_packed_key(obj_id: u64, kind: JObjType)
    requires
        obj_id < OBJ_TYPE_UNIT,
        value_of(kind) < 16,
        kind == kind_of(value_of(kind)),
    ensures
        header_of(bytes::u64_le_bytes(packed(obj_id, kind))) == Ok::<JKey, ApfsError>(
            JKey { obj_id, kind },
        ),
{
    bytes::lemma_u64_round_trip(packed(obj_id, kind));
    law_header_round_trip(obj_id, kind);
}

/// In a catalog that is in order, looking up an object's record of a type finds
/// the value of such a record, and finds none only where the whole catalog holds
/// none.
pub proof fn law_find_record_misses_no_record(
    device: Device,
    catalog: Catalog,
    obj_id: u64,
    kind: JObjType,
    root: Seq<u8>,
    info: BtreeInfo,
    depth: nat,
)
    requires
        obj_id < OBJ_TYPE_UNIT,
        value_of(kind) < 16,
        kind == kind_of(value_of(kind)),
        catalog_node(device, catalog, catalog.root_oid.0) == Ok::<Seq<u8>, ApfsError>(root),
        btree::root_info(root) == Ok::<BtreeInfo, ApfsError>(info),
        catalog_tree(device, catalog, info).is_ordered(root, depth),
        depth <= u64::MAX,
    ensures
        ({
            let all = catalog_tree(device, catalog, info).entries(root, depth);
            let header = Ok::<JKey, ApfsError>(JKey { obj_id, kind });
            match record_value(device, catalog, obj_id, kind) {
                Err(_) => false,
                Ok(value) => {
                    ||| exists|at: int|
                        0 <= at < all.len() && header_of((#[trigger] all[at]).key) == header
                            && value == all[at].value
                    ||| value is None && forall|at: int|
                        0 <= at < all.len() ==> header_of((#[trigger] all[at]).key) != header
                },
            }
        }),
{
    reveal(record_value);
    let tree = catalog_tree(device, catalog, info);
    let all = tree.entries(root, depth);
    let header = JKey { obj_id, kind };
    let search = bytes::u64_le_bytes(packed(obj_id, kind));
    lemma_packed_key(obj_id, kind);
    assert(tree.is_compared_by(catalog_order()));
    tree.law_entries_are_in_order(root, depth);
    tree.law_equal_search_finds_a_match(root, search, catalog_order(), depth);
    assert forall|at: int| 0 <= at < all.len() implies (tree.matches_at(all, search, at)
        <==> header_of((#[trigger] all[at]).key) == Ok::<JKey, ApfsError>(header)) by {
        assert((tree.valid)(all[at].key));
        lemma_same_kind(all[at].key);
    }
}

/// The items in records are those of the records of the items' kind, one each, in the
/// order of the records; and each of those records holds an item.
pub proof fn law_items_are_those_of_the_kind<P, A: FromRecord<P>>(
    param: P,
    records: Seq<RecordView>,
    count: nat,
)
    requires
        count <= records.len(),
        items_of::<P, A>(param, records, count) is Ok,
    ensures
        items_of::<P, A>(param, records, count)->Ok_0 == records.take(count as int).filter(
            |record: RecordView| record.key_header.kind == A::spec_kind(),
        ).map_values(|record: RecordView| A::item_of(param, record)->Ok_0),
        forall|i: int|
            0 <= i < count && (#[trigger] records[i]).key_header.kind == A::spec_kind()
                ==> A::item_of(param, records[i]) is Ok && items_of::<P, A>(
                param,
                records,
                count,
            )->Ok_0.contains(A::item_of(param, records[i])->Ok_0),
    decreases count,
{
    reveal(Seq::filter);
    let of_kind = |record: RecordView| record.key_header.kind == A::spec_kind();
    let item = |record: RecordView| A::item_of(param, record)->Ok_0;
    let now = records.take(count as int);
    let items = items_of::<P, A>(param, records, count)->Ok_0;
    if count > 0 {
        let last = (count - 1) as nat;
        let before = records.take(last as int);
        law_items_are_those_of_the_kind::<P, A>(param, records, last);
        let earlier = items_of::<P, A>(param, records, last)->Ok_0;
        assert(now.drop_last() =~= before);
        assert(before.filter(of_kind).push(records[last as int]).map_values(item)
            =~= before.filter(of_kind).map_values(item).push(item(records[last as int])));
        assert forall|i: int|
            0 <= i < count && (#[trigger] records[i]).key_header.kind
                == A::spec_kind() implies A::item_of(param, records[i]) is Ok && items.contains(
            A::item_of(param, records[i])->Ok_0,
        ) by {
            if i < last {
                let at = earlier.index_of(item(records[i]));
                assert(items[at] == item(records[i]));
            } else {
                assert(items.last() == item(records[i]));
            }
        }
    } else {
        assert(now.filter(of_kind).map_values(item) =~= items);
    }
}

/// Whether a record is the one in the entry at an index of a leaf: its key and its key's
/// header, and its value, which is empty where the entry has none.
pub open spec fn is_record_at(leaf: Seq<u8>, index: u32, record: RecordView) -> bool {
    btree::entry_of(leaf, index, 0, 0) matches Ok(entry) && record.key == entry.key && header_of(
        entry.key,
    ) == Ok::<JKey, ApfsError>(record.key_header) && record.value == match entry.value {
        Some(value) => value,
        None => Seq::empty(),
    }
}

/// Whether a walk is for a record: for its object, or for its kind.
pub open spec fn is_wanted(record: RecordView, selection: Selection) -> bool {
    match selection {
        Selection::Object(obj_id) => record.key_header.obj_id == obj_id,
        Selection::Kind(kind) => record.key_header.kind == kind,
    }
}

proof fn lemma_walked_leaf(
    nodes: spec_fn(u64) -> Result<Seq<u8>, ApfsError>,
    leaf: Seq<u8>,
    selection: Selection,
    levels: nat,
    from: u32,
)
    requires
        btree::node_is_leaf(leaf),
        levels > 0,
        walk_entries(nodes, leaf, selection, levels, from).end is None,
    ensures
        forall|record: RecordView| #[trigger]
            walk_entries(nodes, leaf, selection, levels, from).records.contains(record)
                <==> is_wanted(record, selection) && exists|i: u32|
                from <= i < btree::node_key_count(leaf) && #[trigger] is_record_at(leaf, i, record),
    decreases btree::node_key_count(leaf) - from,
{
    let walk = walk_entries(nodes, leaf, selection, levels, from);
    if from < btree::node_key_count(leaf) {
        let next = (from + 1) as u32;
        let entry = btree::entry_of(leaf, from, 0, 0)->Ok_0;
        let header = header_of(entry.key)->Ok_0;
        let here = RecordView { key_header: header, key: entry.key, value: value_or_empty(entry) };
        let rest = walk_entries(nodes, leaf, selection, levels, next);
        lemma_walked_leaf(nodes, leaf, selection, levels, next);
        assert(is_record_at(leaf, from, here));
        assert forall|record: RecordView| #[trigger]
            walk.records.contains(record) <==> is_wanted(record, selection) && exists|i: u32|
                from <= i < btree::node_key_count(leaf) && #[trigger] is_record_at(
                    leaf,
                    i,
                    record,
                ) by {
            if walk.records.contains(record) {
                let k = walk.records.index_of(record);
                if selection.selects(header) {
                    if k > 0 {
                        assert(rest.records[k - 1] == record);
                        assert(rest.records.contains(record));
                    }
                } else {
                    assert(rest.records.contains(record));
                }
            }
            if is_wanted(record, selection) && exists|i: u32|
                from <= i < btree::node_key_count(leaf) && #[trigger] is_record_at(
                    leaf,
                    i,
                    record,
                ) {
                let i = choose|i: u32|
                    from <= i < btree::node_key_count(leaf) && #[trigger] is_record_at(
                        leaf,
                        i,
                        record,
                    );
                if i == from {
                    assert(record == here);
                    assert(walk.records[0] == record);
                } else {
                    assert(rest.records.contains(record));
                    let k = rest.records.index_of(record);
                    if selection.selects(header) {
                        assert(walk.records[k + 1] == record);
                    }
                }
            }
        }
    }
}

/// A catalog whose root is a leaf gives, for an object or for a kind, exactly the records of
/// that object or kind among the entries of the leaf.
pub proof fn law_leaf_gives_its_wanted_records(
    device: Device,
    catalog: Catalog,
    selection: Selection,
    leaf: Seq<u8>,
    record: RecordView,
)
    requires
        catalog_node(device, catalog, catalog.root_oid.0) == Ok::<Seq<u8>, ApfsError>(leaf),
        btree::node_is_leaf(leaf),
    ensures
        catalog_records(device, catalog, selection) matches Ok(records) ==> (records.contains(
            record,
        ) <==> is_wanted(record, selection) && exists|i: u32|
            i < btree::node_key_count(leaf) && #[trigger] is_record_at(leaf, i, record)),
{
    reveal(catalog_walk);
    if catalog_records(device, catalog, selection) is Ok {
        lemma_walked_leaf(
            catalog_nodes(device, catalog),
            leaf,
            selection,
            MAX_CATALOG_DEPTH as nat,
            0,
        );
    }
}

/// Items are given wherever each record of their kind holds one; a record of another kind is
/// no hindrance.
pub proof fn law_items_are_given<P, A: FromRecord<P>>(
    param: P,
    records: Seq<RecordView>,
    count: nat,
)
    requires
        count <= records.len(),
        forall|i: int|
            0 <= i < count && (#[trigger] records[i]).key_header.kind == A::spec_kind()
                ==> A::item_of(param, records[i]) is Ok,
    ensures
        items_of::<P, A>(param, records, count) is Ok,
    decreases count,
{
    if count > 0 {
        law_items_are_given::<P, A>(param, records, (count - 1) as nat);
    }
}

} // verus!
