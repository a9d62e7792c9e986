//! The object map (`omap_phys_t`): virtual-object to physical-block
//! resolution.
//!
//! Most APFS objects are *virtual*: addressed by object identifier and located
//! through an object map, a B-tree keyed by `(oid, xid)`. Resolving a virtual
//! object means finding the entry with a matching object id and the largest
//! transaction id not exceeding the requested one.

use core::cmp::Ordering;

use vstd::prelude::*;

use crate::btree;
use crate::btree::{BtreeInfo, BtreeNode, EntryView};
use crate::bytes;
use crate::checkpoint;
use crate::error;
use crate::error::ApfsError;
use crate::io::{Device, Reader};
use crate::object;
use crate::object::ObjPhys;
use crate::search::Tree;
use crate::types;
use crate::types::{ObjectType, Oid, Paddr, Xid};

verus! {

/// Object-map flags (`om_flags`).
#[derive(Debug, Clone, Copy, PartialEq, Eq, Structural)]
pub struct OmapFlags(pub u32);

impl OmapFlags {
    /// The object map is not managed by the standard reaper.
    pub const MANUALLY_MANAGED: u32 = 0x0000_0001;

    /// The object map is being encrypted.
    pub const ENCRYPTING: u32 = 0x0000_0002;

    /// The object map is being decrypted.
    pub const DECRYPTING: u32 = 0x0000_0004;

    /// The object map's encryption key is being rolled.
    pub const KEYROLLING: u32 = 0x0000_0008;

    /// The object map's crypto generation bit.
    pub const CRYPTO_GENERATION: u32 = 0x0000_0010;

    /// The raw bits of the set.
    #[must_use]
    pub fn bits(self) -> (bits: u32)
        ensures
            bits == self.0,
    {
        self.0
    }

    /// The set with the given bits, known or not.
    #[must_use]
    pub fn from_bits_retain(bits: u32) -> (flags: OmapFlags)
        ensures
            flags == OmapFlags(bits),
    {
        OmapFlags(bits)
    }

    /// Whether every bit of `flag` is set.
    pub open spec fn has(self, flag: u32) -> bool {
        self.0 & flag == flag
    }

    /// Whether every bit of `flag` is set.
    #[must_use]
    pub fn contains(self, flag: u32) -> (set: bool)
        ensures
            set == self.has(flag),
    {
        self.0 & flag == flag
    }
}

/// Object-map value flags (`ov_flags`).
#[derive(Debug, Clone, Copy, PartialEq, Eq, Structural)]
pub struct OmapValFlags(pub u32);

impl OmapValFlags {
    /// The object was deleted; this mapping is a placeholder.
    pub const DELETED: u32 = 0x0000_0001;

    /// The mapping should not be replaced when the object is updated.
    pub const SAVED: u32 = 0x0000_0002;

    /// The mapped object is encrypted.
    pub const ENCRYPTED: u32 = 0x0000_0004;

    /// The mapped object is stored without an `obj_phys_t` header.
    pub const NOHEADER: u32 = 0x0000_0008;

    /// The mapping's crypto generation bit.
    pub const CRYPTO_GENERATION: u32 = 0x0000_0010;

    /// The raw bits of the set.
    #[must_use]
    pub fn bits(self) -> (bits: u32)
        ensures
            bits == self.0,
    {
        self.0
    }

    /// The set with the given bits, known or not.
    #[must_use]
    pub fn from_bits_retain(bits: u32) -> (flags: OmapValFlags)
        ensures
            flags == OmapValFlags(bits),
    {
        OmapValFlags(bits)
    }

    /// Whether every bit of `flag` is set.
    pub open spec fn has(self, flag: u32) -> bool {
        self.0 & flag == flag
    }

    /// Whether every bit of `flag` is set.
    #[must_use]
    pub fn contains(self, flag: u32) -> (set: bool)
        ensures
            set == self.has(flag),
    {
        self.0 & flag == flag
    }
}

/// Object-map snapshot flags (`oms_flags`).
#[derive(Debug, Clone, Copy, PartialEq, Eq, Structural)]
pub struct OmapSnapshotFlags(pub u32);

impl OmapSnapshotFlags {
    /// The snapshot has been deleted.
    pub const DELETED: u32 = 0x0000_0001;

    /// The snapshot has been reverted to.
    pub const REVERTED: u32 = 0x0000_0002;

    /// The raw bits of the set.
    #[must_use]
    pub fn bits(self) -> (bits: u32)
        ensures
            bits == self.0,
    {
        self.0
    }

    /// The set with the given bits, known or not.
    #[must_use]
    pub fn from_bits_retain(bits: u32) -> (flags: OmapSnapshotFlags)
        ensures
            flags == OmapSnapshotFlags(bits),
    {
        OmapSnapshotFlags(bits)
    }

    /// Whether every bit of `flag` is set.
    pub open spec fn has(self, flag: u32) -> bool {
        self.0 & flag == flag
    }

    /// Whether every bit of `flag` is set.
    #[must_use]
    pub fn contains(self, flag: u32) -> (set: bool)
        ensures
            set == self.has(flag),
    {
        self.0 & flag == flag
    }
}

/// Size of an `omap_phys_t`.
pub const OMAP_PHYS_SIZE: usize = 88;

/// Size of an `omap_val_t`.
pub const OMAP_VAL_SIZE: usize = 16;

/// A resolved object-map value (`omap_val_t`).
#[derive(Debug, Clone, Copy, PartialEq, Eq, Structural)]
pub struct OmapValue {
    /// Flags describing the mapped object.
    pub flags: OmapValFlags,
    /// Size of the object in bytes.
    pub size: u32,
    /// Physical address of the object.
    pub paddr: Paddr,
}

/// A parsed object map (`omap_phys_t`).
#[derive(Debug, Clone, Copy, PartialEq, Eq, Structural)]
pub struct Omap {
    /// Object-map flags.
    pub flags: OmapFlags,
    /// Number of snapshots the object map has.
    pub snapshot_count: u32,
    /// Object id of the B-tree holding the object mappings.
    pub tree_oid: Oid,
    /// Object id of the B-tree holding snapshot information.
    pub snapshot_tree_oid: Oid,
    /// Transaction id of the most recent snapshot.
    pub most_recent_snap: Xid,
}

/// The byte at `at`, or zero behind the end.
pub open spec fn byte_or_zero(bytes: Seq<u8>, at: int) -> u8 {
    if at < bytes.len() {
        bytes[at]
    } else {
        0
    }
}

/// The `u64` at `at` of `bytes` continued with zeros, so that a short key has
/// a value too.
pub open spec fn padded_u64(bytes: Seq<u8>, at: int) -> u64 {
    bytes::le_u64(Seq::new(8, |i: int| byte_or_zero(bytes, at + i)), 0)
}

/// The object id of an object-map key.
pub open spec fn key_oid(key: Seq<u8>) -> u64 {
    padded_u64(key, 0)
}

/// The transaction id of an object-map key.
pub open spec fn key_xid(key: Seq<u8>) -> u64 {
    padded_u64(key, 8)
}

/// The key of an object id and a transaction id.
pub open spec fn omap_key(oid: u64, xid: u64) -> Seq<u8> {
    bytes::u64_le_bytes(oid) + bytes::u64_le_bytes(xid)
}

/// The order of two numbers.
pub open spec fn number_order(a: u64, b: u64) -> Ordering {
    if a < b {
        Ordering::Less
    } else if a == b {
        Ordering::Equal
    } else {
        Ordering::Greater
    }
}

/// The order of object-map keys: by object id, then by transaction id.
pub open spec fn key_order(a: Seq<u8>, b: Seq<u8>) -> Ordering {
    if key_oid(a) != key_oid(b) {
        number_order(key_oid(a), key_oid(b))
    } else {
        number_order(key_xid(a), key_xid(b))
    }
}

/// [`key_order`], as the order of a tree.
pub open spec fn omap_order() -> spec_fn(Seq<u8>, Seq<u8>) -> Ordering {
    |a: Seq<u8>, b: Seq<u8>| key_order(a, b)
}

/// The nodes of a physical tree: a child link is a block address.
pub open spec fn physical_nodes(device: Device, block_size: u32) -> spec_fn(u64) -> Result<
    Seq<u8>,
    ApfsError,
> {
    |addr: u64| checkpoint::node_at(device, block_size, addr)
}

/// The object map in `block`.
pub open spec fn omap_of(block: Seq<u8>) -> Result<Omap, ApfsError> {
    if block.len() < OMAP_PHYS_SIZE {
        error::truncated("omap_phys_t", OMAP_PHYS_SIZE as int, block.len())
    } else if types::object_type_of(bytes::le_u32(block, 0x18)) != ObjectType::Omap {
        error::malformed("omap_phys_t", "object type is not an object map")
    } else {
        Ok(
            Omap {
                flags: OmapFlags(bytes::le_u32(block, 32)),
                snapshot_count: bytes::le_u32(block, 36),
                tree_oid: Oid(bytes::le_u64(block, 48)),
                snapshot_tree_oid: Oid(bytes::le_u64(block, 56)),
                most_recent_snap: Xid(bytes::le_u64(block, 64)),
            },
        )
    }
}

/// What a record of the mapping tree says of the object `oid`: nothing when
/// it belongs to another object or marks a deletion, otherwise its value.
pub open spec fn value_in(oid: Oid, key: Seq<u8>, value: Seq<u8>) -> Result<
    Option<OmapValue>,
    ApfsError,
> {
    if key_oid(key) != oid.0 {
        Ok(None)
    } else if value.len() < OMAP_VAL_SIZE {
        error::malformed("omap_val_t", "value is shorter than omap_val_t")
    } else if OmapValFlags(bytes::le_u32(value, 0)).has(OmapValFlags::DELETED) {
        Ok(None)
    } else {
        Ok(
            Some(
                OmapValue {
                    flags: OmapValFlags(bytes::le_u32(value, 0)),
                    size: bytes::le_u32(value, 4),
                    paddr: Paddr(bytes::le_i64(value, 8)),
                },
            ),
        )
    }
}

/// The mapping of the object `oid` as of transaction `xid` in the object map
/// whose mapping tree has its root in block `tree`: the record with the last
/// key that is not greater than `(oid, xid)`, if it is one of this object.
#[verifier::opaque]
pub open spec fn mapping_of(
    device: Device,
    block_size: u32,
    tree: Oid,
    oid: Oid,
    xid: Xid,
) -> Result<Option<OmapValue>, ApfsError> {
    match checkpoint::node_at(device, block_size, tree.0) {
        Err(error) => Err(error),
        Ok(root) => match btree::tree_le(
            root,
            physical_nodes(device, block_size),
            omap_key(oid.0, xid.0),
            omap_order(),
        ) {
            Err(error) => Err(error),
            Ok(None) => Ok(None),
            Ok(Some((key, value))) => value_in(oid, key, value),
        },
    }
}

/// The byte at `at`, or zero behind the end.
fn get_or_zero(bytes: &[u8], at: usize) -> (byte: u8)
    ensures
        byte == byte_or_zero(bytes@, at as int),
{
    if at < bytes.len() {
        bytes[at]
    } else {
        0
    }
}

/// Reads the `u64` at `at` of `bytes` continued with zeros.
fn read_padded_u64(bytes: &[u8], at: usize) -> (value: u64)
    requires
        at <= 8,
    ensures
        value == padded_u64(bytes@, at as int),
{
    let padded: [u8; 8] = [
        get_or_zero(bytes, at),
        get_or_zero(bytes, at + 1),
        get_or_zero(bytes, at + 2),
        get_or_zero(bytes, at + 3),
        get_or_zero(bytes, at + 4),
        get_or_zero(bytes, at + 5),
        get_or_zero(bytes, at + 6),
        get_or_zero(bytes, at + 7),
    ];
    assert(padded@ =~= Seq::new(8, |i: int| byte_or_zero(bytes@, at + i)));
    bytes::read_u64(&padded, 0)
}

/// Orders two numbers.
fn compare_numbers(a: u64, b: u64) -> (order: Ordering)
    ensures
        order == number_order(a, b),
{
    if a < b {
        Ordering::Less
    } else if a == b {
        Ordering::Equal
    } else {
        Ordering::Greater
    }
}

/// Orders two object-map keys: object id ascending, then transaction id
/// ascending, the order in which the tree stores its keys.
pub fn compare_omap_keys(a: &[u8], b: &[u8]) -> (order: Ordering)
    ensures
        order == key_order(a@, b@),
{
    let left: u64 = read_padded_u64(a, 0);
    let right: u64 = read_padded_u64(b, 0);
    if left != right {
        return compare_numbers(left, right);
    }
    compare_numbers(read_padded_u64(a, 8), read_padded_u64(b, 8))
}

/// The key of an object id and a transaction id.
fn search_key(oid: Oid, xid: Xid) -> (key: Vec<u8>)
    ensures
        key@ == omap_key(oid.0, xid.0),
{
    let mut key: Vec<u8> = bytes::u64_bytes(oid.0);
    let mut tail: Vec<u8> = bytes::u64_bytes(xid.0);
    key.append(&mut tail);
    key
}

/// What a record says of the object `oid`.
fn read_value(oid: Oid, key: &[u8], value: &[u8]) -> (found: Result<Option<OmapValue>, ApfsError>)
    ensures
        found == value_in(oid, key@, value@),
{
    if read_padded_u64(key, 0) != oid.0 {
        return Ok(None);
    }
    if value.len() < OMAP_VAL_SIZE {
        return Err(
            ApfsError::Malformed {
                structure: "omap_val_t",
                reason: "value is shorter than omap_val_t",
            },
        );
    }
    let flags: OmapValFlags = OmapValFlags::from_bits_retain(bytes::read_u32(value, 0));
    if flags.contains(OmapValFlags::DELETED) {
        return Ok(None);
    }
    Ok(
        Some(
            OmapValue {
                flags,
                size: bytes::read_u32(value, 4),
                paddr: Paddr(bytes::read_i64(value, 8)),
            },
        ),
    )
}

impl Omap {
    /// Parses an object map from its block.
    pub fn parse(block: &[u8]) -> (parsed: Result<Omap, ApfsError>)
        ensures
            parsed == omap_of(block@),
    {
        if block.len() < OMAP_PHYS_SIZE {
            return Err(
                ApfsError::Truncated {
                    structure: "omap_phys_t",
                    expected: OMAP_PHYS_SIZE,
                    actual: block.len(),
                },
            );
        }
        let header: ObjPhys = match ObjPhys::parse(block) {
            Ok(header) => header,
            Err(error) => return Err(error),
        };
        if header.object_kind() != ObjectType::Omap {
            return Err(
                ApfsError::Malformed {
                    structure: "omap_phys_t",
                    reason: "object type is not an object map",
                },
            );
        }
        Ok(
            Omap {
                flags: OmapFlags::from_bits_retain(bytes::read_u32(block, 32)),
                snapshot_count: bytes::read_u32(block, 36),
                tree_oid: Oid(bytes::read_u64(block, 48)),
                snapshot_tree_oid: Oid(bytes::read_u64(block, 56)),
                most_recent_snap: Xid(bytes::read_u64(block, 64)),
            },
        )
    }

    /// Resolves a virtual object identifier to its physical location as of
    /// transaction `xid`: the mapping with the object id and the largest
    /// transaction id not above `xid`, or `None` when there is none or the
    /// object was deleted.
    ///
    /// The object-map tree is a physical tree, so its nodes are read directly
    /// by block address.
    pub fn resolve<R: Reader>(&self, reader: &mut R, block_size: u32, oid: Oid, xid: Xid) -> (found:
        Result<Option<OmapValue>, ApfsError>)
        ensures
            final(reader).device() == old(reader).device(),
            found == mapping_of(old(reader).device(), block_size, self.tree_oid, oid, xid),
    {
        proof {
            reveal(mapping_of);
        }
        let root: BtreeNode = match checkpoint::read_node(reader, block_size, self.tree_oid.0) {
            Ok(root) => root,
            Err(error) => return Err(error),
        };
        let search: Vec<u8> = search_key(oid, xid);
        let resolve = |r: &mut R, addr: u64| -> (node: Result<BtreeNode, ApfsError>)
            ensures
                final(r).device() == old(r).device(),
                error::viewed(node) == checkpoint::node_at(old(r).device(), block_size, addr),
            { checkpoint::read_node(r, block_size, addr) };
        let ghost device = reader.device();
        let ghost start = root@;
        assert(btree::computes(compare_omap_keys, omap_order()));
        let found: Result<Option<(Vec<u8>, Vec<u8>)>, ApfsError> = btree::descend_le(
            root,
            reader,
            resolve,
            search.as_slice(),
            compare_omap_keys,
        );
        assert(reader.device() == device && error::viewed_option(found) == btree::tree_le(
            start,
            physical_nodes(device, block_size),
            search@,
            omap_order(),
        ));
        match found {
            Err(error) => Err(error),
            Ok(None) => Ok(None),
            Ok(Some((key, value))) => read_value(oid, key.as_slice(), value.as_slice()),
        }
    }
}

/// Whether an object-map key is not behind another.
pub open spec fn key_le(a: Seq<u8>, b: Seq<u8>) -> bool {
    key_oid(a) < key_oid(b) || (key_oid(a) == key_oid(b) && key_xid(a) <= key_xid(b))
}

/// The mapping tree of an object map, as a search sees it.
pub open spec fn mapping_tree(device: Device, block_size: u32, info: BtreeInfo) -> Tree {
    Tree {
        nodes: physical_nodes(device, block_size),
        key_len: btree::sizes_of(info).0,
        val_len: btree::sizes_of(info).1,
        le: |a: Seq<u8>, b: Seq<u8>| key_le(a, b),
        valid: |key: Seq<u8>| true,
    }
}

/// Whether an entry of the mapping tree maps the object `oid` as of a
/// transaction not behind `xid`.
pub open spec fn maps(entry: EntryView, oid: Oid, xid: Xid) -> bool {
    key_oid(entry.key) == oid.0 && key_xid(entry.key) <= xid.0
}

proof fn lemma_search_key(oid: u64, xid: u64)
    ensures
        key_oid(omap_key(oid, xid)) == oid,
        key_xid(omap_key(oid, xid)) == xid,
{
    let key = omap_key(oid, xid);
    bytes::lemma_u64_round_trip(oid);
    bytes::lemma_u64_round_trip(xid);
    assert(Seq::new(8, |i: int| byte_or_zero(key, 0 + i)) =~= bytes::u64_le_bytes(oid));
    assert(Seq::new(8, |i: int| byte_or_zero(key, 8 + i)) =~= bytes::u64_le_bytes(xid));
}

/// In an object map whose mapping tree is in order, resolving an object gives
/// the mapping with the largest transaction id not above the requested one,
/// whatever leaf holds it, and nothing where the tree holds no such mapping or
/// that mapping marks a deletion.
pub proof fn law_resolve_gives_the_newest_mapping(
    device: Device,
    block_size: u32,
    tree: Oid,
    oid: Oid,
    xid: Xid,
    root: Seq<u8>,
    info: BtreeInfo,
    depth: nat,
)
    requires
        checkpoint::node_at(device, block_size, tree.0) == Ok::<Seq<u8>, ApfsError>(root),
        btree::root_info(root) == Ok::<BtreeInfo, ApfsError>(info),
        mapping_tree(device, block_size, info).is_ordered(root, depth),
        depth <= u64::MAX,
    ensures
        ({
            let all = mapping_tree(device, block_size, info).entries(root, depth);
            let found = mapping_of(device, block_size, tree, oid, xid);
            &&& (forall|i: int| 0 <= i < all.len() ==> !maps(#[trigger] all[i], oid, xid))
                ==> found == Ok::<Option<OmapValue>, ApfsError>(None)
            &&& forall|i: int|
                0 <= i < all.len() && maps(#[trigger] all[i], oid, xid) && (forall|j: int|
                    i < j < all.len() ==> !maps(#[trigger] all[j], oid, xid)) ==> {
                    &&& forall|j: int|
                        0 <= j < all.len() && maps(#[trigger] all[j], oid, xid) ==> key_xid(
                            all[j].key,
                        ) <= key_xid(all[i].key)
                    &&& found == match all[i].value {
                        None => Ok(None),
                        Some(value) => value_in(oid, all[i].key, value),
                    }
                }
        }),
{
    reveal(mapping_of);
    let t = mapping_tree(device, block_size, info);
    let all = t.entries(root, depth);
    let search = omap_key(oid.0, xid.0);
    lemma_search_key(oid.0, xid.0);
    assert(t.is_compared_by(omap_order()));
    t.law_entries_are_in_order(root, depth);
    t.law_le_search_finds_the_last(root, search, omap_order(), depth);
    t.lemma_last_le_is_one(all, search);
    assert forall|i: int|
        0 <= i < all.len() && maps(#[trigger] all[i], oid, xid) && (forall|j: int|
            i < j < all.len() ==> !maps(#[trigger] all[j], oid, xid)) implies {
        &&& forall|j: int|
            0 <= j < all.len() && maps(#[trigger] all[j], oid, xid) ==> key_xid(all[j].key)
                <= key_xid(all[i].key)
        &&& mapping_of(device, block_size, tree, oid, xid) == match all[i].value {
            None => Ok(None),
            Some(value) => value_in(oid, all[i].key, value),
        }
    } by {
        assert forall|k: int| i < k < all.len() implies !t.le(#[trigger] all[k].key, search) by {
            assert(t.le(all[i].key, all[k].key));
            assert(!maps(all[k], oid, xid));
        }
        t.lemma_last_le_at(all, search, i);
        assert forall|j: int| 0 <= j < all.len() && maps(#[trigger] all[j], oid, xid) implies key_xid(
            all[j].key,
        ) <= key_xid(all[i].key) by {
            if j < i {
                assert(t.le(all[j].key, all[i].key));
            }
        }
    }
}

/// Whether an entry maps `oid` as of a transaction not above `xid`: its key, with
/// zeros for what it lacks of sixteen bytes, is the object's identifier and then such a
/// transaction, and its value has the flags, the size and the address of the mapping,
/// one after the other, with no deletion marked in its first bit.
pub open spec fn stores(
    key: Seq<u8>,
    value: Seq<u8>,
    mapping: OmapValue,
    oid: u64,
    xid: u64,
) -> bool {
    let full = key + Seq::new(16, |i: int| 0u8);
    &&& bytes::le_u64(full, 0) == oid
    &&& bytes::le_u64(full, 8) <= xid
    &&& value.len() >= 16
    &&& value[0] % 2 == 0
    &&& mapping.flags.0 == bytes::le_u32(value, 0)
    &&& mapping.size == bytes::le_u32(value, 4)
    &&& mapping.paddr.0 == bytes::le_i64(value, 8)
}

/// Whether a mapping is one that an entry can store for `oid` as of `xid`.
pub open spec fn is_as_of(mapping: OmapValue, oid: u64, xid: u64) -> bool {
    exists|key: Seq<u8>, value: Seq<u8>| stores(key, value, mapping, oid, xid)
}

proof fn lemma_padded_word(bytes: Seq<u8>, at: int)
    requires
        0 <= at <= 8,
    ensures
        padded_u64(bytes, at) == bytes::le_u64(bytes + Seq::new(16, |i: int| 0u8), at),
{
    let full = bytes + Seq::new(16, |i: int| 0u8);
    assert(Seq::new(8, |i: int| byte_or_zero(bytes, at + i)) =~= full.subrange(at, at + 8));
    let word = full.subrange(at, at + 8);
    assert(word[0] == full[at] && word[1] == full[at + 1] && word[2] == full[at + 2] && word[3]
        == full[at + 3]);
    assert(word[4] == full[at + 4] && word[5] == full[at + 5] && word[6] == full[at + 6] && word[7]
        == full[at + 7]);
}

proof fn lemma_stored_value(oid: Oid, xid: Xid, key: Seq<u8>, value: Seq<u8>, mapping: OmapValue)
    requires
        value_in(oid, key, value) == Ok::<Option<OmapValue>, ApfsError>(Some(mapping)),
        key_xid(key) <= xid.0,
    ensures
        stores(key, value, mapping, oid.0, xid.0),
{
    lemma_padded_word(key, 0);
    lemma_padded_word(key, 8);
    let flags = bytes::le_u32(value, 0);
    bytes::law_bytes_weigh_by_their_place(value, 0);
    assert(flags & 1 == 1 <==> flags % 2 == 1) by (bit_vector);
}

/// A mapping that resolving gives is never newer than the transaction that it was
/// asked for as of, is one of that object, and is no deletion: whatever the tree
/// holds, and in whatever order.
pub proof fn law_resolved_mapping_is_not_newer(
    device: Device,
    block_size: u32,
    tree: Oid,
    oid: Oid,
    xid: Xid,
)
    ensures
        mapping_of(device, block_size, tree, oid, xid) matches Ok(Some(mapping)) ==> is_as_of(
            mapping,
            oid.0,
            xid.0,
        ),
{
    reveal(mapping_of);
    if let Ok(Some(mapping)) = mapping_of(device, block_size, tree, oid, xid) {
        let root = checkpoint::node_at(device, block_size, tree.0)->Ok_0;
        let search = omap_key(oid.0, xid.0);
        let nodes = physical_nodes(device, block_size);
        btree::law_found_key_is_not_above(root, nodes, search, omap_order());
        lemma_search_key(oid.0, xid.0);
        let (key, value) = btree::tree_le(root, nodes, search, omap_order())->Ok_0->0;
        assert(key_order(key, search) != Ordering::Greater);
        lemma_stored_value(oid, xid, key, value, mapping);
    }
}

/// What an entry says of an object: nothing where its key has another object's identifier in
/// its first eight bytes; that the object is deleted where the lowest bit of its value is set;
/// and else the flags, the size and the address, one after the other.
pub proof fn law_entry_says_where_an_object_is(oid: Oid, key: Seq<u8>, value: Seq<u8>)
    requires
        key.len() >= 8,
    ensures
        bytes::le_u64(key, 0) != oid.0 ==> value_in(oid, key, value) == Ok::<
            Option<OmapValue>,
            ApfsError,
        >(None),
        bytes::le_u64(key, 0) == oid.0 && value.len() < 16 ==> value_in(oid, key, value) is Err,
        bytes::le_u64(key, 0) == oid.0 && value.len() >= 16 && value[0] % 2 == 1 ==> value_in(
            oid,
            key,
            value,
        ) == Ok::<Option<OmapValue>, ApfsError>(None),
        bytes::le_u64(key, 0) == oid.0 && value.len() >= 16 && value[0] % 2 == 0 ==> (value_in(
            oid,
            key,
            value,
        ) matches Ok(Some(mapping)) && mapping.flags.0 == bytes::le_u32(value, 0) && mapping.size
            == bytes::le_u32(value, 4) && mapping.paddr.0 == bytes::le_i64(value, 8)),
{
    lemma_padded_word(key, 0);
    let full = key + Seq::new(16, |i: int| 0u8);
    assert(full[0] == key[0] && full[1] == key[1] && full[2] == key[2] && full[3] == key[3]);
    assert(full[4] == key[4] && full[5] == key[5] && full[6] == key[6] && full[7] == key[7]);
    let flags = bytes::le_u32(value, 0);
    bytes::law_bytes_weigh_by_their_place(value, 0);
    assert(flags & 1 == 1 <==> flags % 2 == 1) by (bit_vector);
}

} // verus!
