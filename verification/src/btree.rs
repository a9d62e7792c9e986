//! Generic APFS B-tree node parsing and traversal.
//!
//! Every APFS lookup table (the object map, the volume catalog, the
//! space-manager free queues) is a B+ tree of `btree_node_phys_t` nodes. This
//! module parses a single node and walks a tree from its root.
//!
//! To a contract a node is its block: the spec functions read the header, the
//! table of contents, the keys and the values out of the bytes.

use core::cmp::Ordering;

use vstd::prelude::*;

use crate::bytes;
use crate::error;
use crate::error::ApfsError;
use crate::io::Reader;
use crate::object::OBJ_PHYS_SIZE;

verus! {

/// Offset of the data area of a node, behind the object header and the node
/// header.
pub const BTN_DATA_OFFSET: usize = OBJ_PHYS_SIZE + 8 + 16;

/// Size of the `btree_info_t` trailer of a root node.
pub const BTREE_INFO_SIZE: usize = 40;

/// The value offset of an entry without a value.
pub const BTOFF_INVALID: u16 = 0xFFFF;

/// Size of a child link: the object identifier of a node.
pub const CHILD_LINK_SIZE: usize = 8;

/// B-tree node flags (`btn_flags`).
#[derive(Debug, Clone, Copy, PartialEq, Eq, Structural)]
pub struct BtnodeFlags(pub u16);

impl BtnodeFlags {
    /// The node is a root node.
    pub const ROOT: u16 = 0x0001;

    /// The node is a leaf node.
    pub const LEAF: u16 = 0x0002;

    /// Keys and values have a fixed size, so the table of contents holds offsets only.
    pub const FIXED_KV_SIZE: u16 = 0x0004;

    /// The node carries the hashes of its children.
    pub const HASHED: u16 = 0x0008;

    /// The node is stored without an object header.
    pub const NOHEADER: u16 = 0x0010;

    /// The node is in a transient state.
    pub const CHECK_KOFF_INVAL: u16 = 0x8000;

    /// The raw bits of the set.
    #[must_use]
    pub fn bits(self) -> (bits: u16)
        ensures
            bits == self.0,
    {
        self.0
    }

    /// The set with the given bits, known or not.
    #[must_use]
    pub fn from_bits_retain(bits: u16) -> (flags: BtnodeFlags)
        ensures
            flags == BtnodeFlags(bits),
    {
        BtnodeFlags(bits)
    }

    /// Whether every bit of `flag` is set.
    pub open spec fn has(self, flag: u16) -> bool {
        self.0 & flag == flag
    }

    /// Whether every bit of `flag` is set.
    #[must_use]
    pub fn contains(self, flag: u16) -> (set: bool)
        ensures
            set == self.has(flag),
    {
        self.0 & flag == flag
    }
}

/// B-tree flags (`bt_flags`).
#[derive(Debug, Clone, Copy, PartialEq, Eq, Structural)]
pub struct BtreeFlags(pub u32);

impl BtreeFlags {
    /// The keys are 64-bit integers.
    pub const UINT64_KEYS: u32 = 0x0000_0001;

    /// Keys are usually inserted in order.
    pub const SEQUENTIAL_INSERT: u32 = 0x0000_0002;

    /// Keys without values are allowed.
    pub const ALLOW_GHOSTS: u32 = 0x0000_0004;

    /// Child links are ephemeral object identifiers.
    pub const EPHEMERAL: u32 = 0x0000_0008;

    /// Child links are physical block addresses.
    pub const PHYSICAL: u32 = 0x0000_0010;

    /// The tree is not persisted across unmounts.
    pub const NONPERSISTENT: u32 = 0x0000_0020;

    /// Keys and values are not aligned.
    pub const KV_NONALIGNED: u32 = 0x0000_0040;

    /// The nodes carry hashes.
    pub const HASHED: u32 = 0x0000_0080;

    /// The nodes are stored without an object header.
    pub const NOHEADER: u32 = 0x0000_0100;

    /// The raw bits of the set.
    #[must_use]
    pub fn bits(self) -> (bits: u32)
        ensures
            bits == self.0,
    {
        self.0
    }

    /// The set with the given bits, known or not.
    #[must_use]
    pub fn from_bits_retain(bits: u32) -> (flags: BtreeFlags)
        ensures
            flags == BtreeFlags(bits),
    {
        BtreeFlags(bits)
    }

    /// Whether every bit of `flag` is set.
    pub open spec fn has(self, flag: u32) -> bool {
        self.0 & flag == flag
    }

    /// Whether every bit of `flag` is set.
    #[must_use]
    pub fn contains(self, flag: u32) -> (set: bool)
        ensures
            set == self.has(flag),
    {
        self.0 & flag == flag
    }
}

/// The `btree_info_t` trailer of a root node.
#[derive(Debug, Clone, Copy, PartialEq, Eq, Structural)]
pub struct BtreeInfo {
    /// Tree flags.
    pub flags: BtreeFlags,
    /// On-disk size of a node, in bytes.
    pub node_size: u32,
    /// Size of a key, or zero when keys vary in size.
    pub key_size: u32,
    /// Size of a value, or zero when values vary in size.
    pub val_size: u32,
    /// Length of the longest key ever stored.
    pub longest_key: u32,
    /// Length of the longest value ever stored.
    pub longest_val: u32,
    /// Number of keys in the tree.
    pub key_count: u64,
    /// Number of nodes in the tree.
    pub node_count: u64,
}

/// One key/value pair of a node.
#[derive(Debug, Clone, Copy, PartialEq, Eq)]
pub struct Entry<'a> {
    /// The key bytes.
    pub key: &'a [u8],
    /// The value bytes, or `None` for an entry without a value.
    pub value: Option<&'a [u8]>,
}

/// The content of an [`Entry`].
pub struct EntryView {
    /// The key bytes.
    pub key: Seq<u8>,
    /// The value bytes, or `None` for an entry without a value.
    pub value: Option<Seq<u8>>,
}

impl View for Entry<'_> {
    type V = EntryView;

    open spec fn view(&self) -> EntryView {
        EntryView { key: self.key@, value: error::some_view(self.value) }
    }
}

/// The flags of the node in `block`.
pub open spec fn node_flags(block: Seq<u8>) -> BtnodeFlags {
    BtnodeFlags(bytes::le_u16(block, 32))
}

/// Whether the node in `block` is a leaf.
pub open spec fn node_is_leaf(block: Seq<u8>) -> bool {
    node_flags(block).has(BtnodeFlags::LEAF)
}

/// Whether the node in `block` is a root.
pub open spec fn node_is_root(block: Seq<u8>) -> bool {
    node_flags(block).has(BtnodeFlags::ROOT)
}

/// The level of the node in `block`: zero for a leaf.
pub open spec fn node_level(block: Seq<u8>) -> u16 {
    bytes::le_u16(block, 34)
}

/// The number of keys of the node in `block`.
pub open spec fn node_key_count(block: Seq<u8>) -> u32 {
    bytes::le_u32(block, 36)
}

/// Where the table of contents of the node in `block` starts.
pub open spec fn toc_start(block: Seq<u8>) -> int {
    BTN_DATA_OFFSET + bytes::le_u16(block, 40)
}

/// Where the table of contents ends and the keys start.
pub open spec fn toc_end(block: Seq<u8>) -> int {
    toc_start(block) + bytes::le_u16(block, 42)
}

/// Where the values end; their offsets count backwards from there.
pub open spec fn values_end(block: Seq<u8>) -> int {
    if node_is_root(block) {
        block.len() - BTREE_INFO_SIZE
    } else {
        block.len() as int
    }
}

/// Whether `block` holds a node: its header, and a table of contents that
/// lies inside the block.
pub open spec fn is_node(block: Seq<u8>) -> bool {
    block.len() >= BTN_DATA_OFFSET && toc_end(block) <= block.len()
}

/// The node in `block`, or the error of parsing it.
pub open spec fn node_of(block: Seq<u8>) -> Result<Seq<u8>, ApfsError> {
    if block.len() < BTN_DATA_OFFSET {
        error::truncated("btree_node_phys_t", BTN_DATA_OFFSET as int, block.len())
    } else if toc_end(block) > block.len() {
        error::malformed("btree_node_phys_t", "table of contents extends past the node")
    } else {
        Ok(block)
    }
}

/// The info trailer of the node in `block`; only a root node has one.
pub open spec fn info_of(block: Seq<u8>) -> Result<Option<BtreeInfo>, ApfsError> {
    let start = block.len() - BTREE_INFO_SIZE;
    if !node_is_root(block) {
        Ok(None)
    } else if start < BTN_DATA_OFFSET {
        error::malformed("btree_info_t", "root node too small for the info trailer")
    } else {
        Ok(
            Some(
                BtreeInfo {
                    flags: BtreeFlags(bytes::le_u32(block, start)),
                    node_size: bytes::le_u32(block, start + 4),
                    key_size: bytes::le_u32(block, start + 8),
                    val_size: bytes::le_u32(block, start + 12),
                    longest_key: bytes::le_u32(block, start + 16),
                    longest_val: bytes::le_u32(block, start + 20),
                    key_count: bytes::le_u64(block, start + 24),
                    node_count: bytes::le_u64(block, start + 32),
                },
            ),
        )
    }
}

/// Where an entry's key and value lie: the key's offset behind the table of
/// contents and its length, the value's offset before the end of the values
/// and its length.
pub struct Location {
    /// Key offset.
    pub key_off: int,
    /// Key length.
    pub key_len: int,
    /// Value offset, or [`BTOFF_INVALID`].
    pub val_off: int,
    /// Value length.
    pub val_len: int,
}

/// The table-of-contents entry `index`: two offsets in a node of fixed sizes
/// (`key_len` and `val_len`), otherwise an offset and a length for the key
/// and for the value.
pub open spec fn location_of(block: Seq<u8>, index: int, key_len: int, val_len: int) -> Option<
    Location,
> {
    let fixed = node_flags(block).has(BtnodeFlags::FIXED_KV_SIZE);
    let width = if fixed {
        4int
    } else {
        8
    };
    let base = toc_start(block) + index * width;
    if base + width > toc_end(block) {
        None
    } else if fixed {
        Some(
            Location {
                key_off: bytes::le_u16(block, base) as int,
                key_len,
                val_off: bytes::le_u16(block, base + 2) as int,
                val_len,
            },
        )
    } else {
        Some(
            Location {
                key_off: bytes::le_u16(block, base) as int,
                key_len: bytes::le_u16(block, base + 2) as int,
                val_off: bytes::le_u16(block, base + 4) as int,
                val_len: bytes::le_u16(block, base + 6) as int,
            },
        )
    }
}

/// The entry `index` of the node in `block`. In a node of fixed sizes a key
/// has `key_len` and a value `val_len` bytes.
pub open spec fn entry_of(block: Seq<u8>, index: u32, key_len: usize, val_len: usize) -> Result<
    EntryView,
    ApfsError,
> {
    if index >= node_key_count(block) {
        error::malformed("btree_node_phys_t", "entry index out of range")
    } else {
        match location_of(block, index as int, key_len as int, val_len as int) {
            None => error::malformed("btree_node_phys_t", "table-of-contents entry out of range"),
            Some(at) => {
                let key_start = toc_end(block) + at.key_off;
                let value_start = values_end(block) - at.val_off;
                match bytes::range(block, key_start, key_start + at.key_len) {
                    None => error::malformed("btree_node_phys_t", "key extends past the node"),
                    Some(key) => if at.val_off == BTOFF_INVALID {
                        Ok(EntryView { key, value: None })
                    } else if value_start < 0 {
                        error::malformed("btree_node_phys_t", "value offset precedes the node")
                    } else {
                        match bytes::range(block, value_start, value_start + at.val_len) {
                            None => error::malformed(
                                "btree_node_phys_t",
                                "value extends past the node",
                            ),
                            Some(value) => Ok(EntryView { key, value: Some(value) }),
                        }
                    },
                }
            },
        }
    }
}

/// A parsed B-tree node.
#[derive(Debug)]
pub struct BtreeNode {
    block: Vec<u8>,
    flags: BtnodeFlags,
    level: u16,
    nkeys: u32,
    toc_off: usize,
    toc_len: usize,
}

impl View for BtreeNode {
    type V = Seq<u8>;

    closed spec fn view(&self) -> Seq<u8> {
        self.block@
    }
}

impl Clone for BtreeNode {
    fn clone(&self) -> (copy: BtreeNode)
        ensures
            copy@ == self@,
    {
        proof {
            use_type_invariant(self);
        }
        let block: Vec<u8> = self.block.clone();
        assert(block@ =~= self.block@);
        BtreeNode {
            block,
            flags: self.flags,
            level: self.level,
            nkeys: self.nkeys,
            toc_off: self.toc_off,
            toc_len: self.toc_len,
        }
    }
}

impl BtreeNode {
    #[verifier::type_invariant]
    spec fn well_formed(self) -> bool {
        &&& is_node(self.block@)
        &&& self.flags == node_flags(self.block@)
        &&& self.level == node_level(self.block@)
        &&& self.nkeys == node_key_count(self.block@)
        &&& self.toc_off == toc_start(self.block@)
        &&& self.toc_off + self.toc_len == toc_end(self.block@)
    }

    /// Parses a node from its block.
    pub fn parse(block: Vec<u8>) -> (parsed: Result<BtreeNode, ApfsError>)
        ensures
            error::viewed(parsed) == node_of(block@),
    {
        if block.len() < BTN_DATA_OFFSET {
            return Err(
                ApfsError::Truncated {
                    structure: "btree_node_phys_t",
                    expected: BTN_DATA_OFFSET,
                    actual: block.len(),
                },
            );
        }
        let flags: BtnodeFlags = BtnodeFlags::from_bits_retain(bytes::read_u16(&block, 32));
        let level: u16 = bytes::read_u16(&block, 34);
        let nkeys: u32 = bytes::read_u32(&block, 36);
        let toc_off: usize = BTN_DATA_OFFSET + bytes::read_u16(&block, 40) as usize;
        let toc_len: usize = bytes::read_u16(&block, 42) as usize;
        if toc_off + toc_len > block.len() {
            return Err(
                ApfsError::Malformed {
                    structure: "btree_node_phys_t",
                    reason: "table of contents extends past the node",
                },
            );
        }
        Ok(BtreeNode { block, flags, level, nkeys, toc_off, toc_len })
    }

    /// The node's flags.
    #[must_use]
    pub fn flags(&self) -> (flags: BtnodeFlags)
        ensures
            flags == node_flags(self@),
    {
        proof {
            use_type_invariant(self);
        }
        self.flags
    }

    /// Whether the node is a leaf.
    #[must_use]
    pub fn is_leaf(&self) -> (leaf: bool)
        ensures
            leaf == node_is_leaf(self@),
    {
        proof {
            use_type_invariant(self);
        }
        self.flags.contains(BtnodeFlags::LEAF)
    }

    /// Whether the node is a root.
    #[must_use]
    pub fn is_root(&self) -> (root: bool)
        ensures
            root == node_is_root(self@),
    {
        proof {
            use_type_invariant(self);
        }
        self.flags.contains(BtnodeFlags::ROOT)
    }

    /// The node's level: zero for a leaf.
    #[must_use]
    pub fn level(&self) -> (level: u16)
        ensures
            level == node_level(self@),
    {
        proof {
            use_type_invariant(self);
        }
        self.level
    }

    /// The number of keys in the node.
    #[must_use]
    pub fn key_count(&self) -> (count: u32)
        ensures
            count == node_key_count(self@),
    {
        proof {
            use_type_invariant(self);
        }
        self.nkeys
    }

    /// The info trailer of a root node; `None` for any other node.
    pub fn btree_info(&self) -> (info: Result<Option<BtreeInfo>, ApfsError>)
        ensures
            info == info_of(self@),
    {
        proof {
            use_type_invariant(self);
        }
        if !self.is_root() {
            return Ok(None);
        }
        let len: usize = self.block.len();
        if len < BTREE_INFO_SIZE + BTN_DATA_OFFSET {
            return Err(
                ApfsError::Malformed {
                    structure: "btree_info_t",
                    reason: "root node too small for the info trailer",
                },
            );
        }
        let start: usize = len - BTREE_INFO_SIZE;
        let block: &[u8] = self.block.as_slice();
        Ok(
            Some(
                BtreeInfo {
                    flags: BtreeFlags::from_bits_retain(bytes::read_u32(block, start)),
                    node_size: bytes::read_u32(block, start + 4),
                    key_size: bytes::read_u32(block, start + 8),
                    val_size: bytes::read_u32(block, start + 12),
                    longest_key: bytes::read_u32(block, start + 16),
                    longest_val: bytes::read_u32(block, start + 20),
                    key_count: bytes::read_u64(block, start + 24),
                    node_count: bytes::read_u64(block, start + 32),
                },
            ),
        )
    }

    /// The table-of-contents entry `index`, as key offset, key length, value
    /// offset and value length.
    fn location(&self, index: u32, key_len: usize, val_len: usize) -> (found: Option<
        (usize, usize, u16, usize),
    >)
        ensures
            match found {
                Some((key_off, k_len, val_off, v_len)) => location_of(
                    self@,
                    index as int,
                    key_len as int,
                    val_len as int,
                ) == Some(
                    (Location {
                        key_off: key_off as int,
                        key_len: k_len as int,
                        val_off: val_off as int,
                        val_len: v_len as int,
                    }),
                ) && key_off <= 0xFFFF,
                None => location_of(self@, index as int, key_len as int, val_len as int) is None,
            },
    {
        proof {
            use_type_invariant(self);
        }
        let block: &[u8] = self.block.as_slice();
        let fixed: bool = self.flags.contains(BtnodeFlags::FIXED_KV_SIZE);
        let width: u64 = if fixed {
            4
        } else {
            8
        };
        assert(index * width <= 0xFFFF_FFFF * 8) by (nonlinear_arith)
            requires
                index <= 0xFFFF_FFFF,
                width <= 8,
        ;
        let base: u64 = self.toc_off as u64 + index as u64 * width;
        if base + width > (self.toc_off + self.toc_len) as u64 {
            return None;
        }
        let base: usize = base as usize;
        let key_off: usize = bytes::read_u16(block, base) as usize;
        if fixed {
            Some((key_off, key_len, bytes::read_u16(block, base + 2), val_len))
        } else {
            Some(
                (
                    key_off,
                    bytes::read_u16(block, base + 2) as usize,
                    bytes::read_u16(block, base + 4),
                    bytes::read_u16(block, base + 6) as usize,
                ),
            )
        }
    }

    /// The error of a malformed node.
    fn malformed(reason: &'static str) -> (error: ApfsError)
        ensures
            error == (ApfsError::Malformed { structure: "btree_node_phys_t", reason }),
    {
        ApfsError::Malformed { structure: "btree_node_phys_t", reason }
    }

    /// The sub-slice of `len` bytes at `start` of the node's block.
    fn part(&self, start: usize, len: usize) -> (found: Option<&[u8]>)
        ensures
            error::some_view(found) == bytes::range(self@, start as int, start + len),
    {
        match start.checked_add(len) {
            Some(end) => bytes::get_range(self.block.as_slice(), start, end),
            None => {
                assert(self.block.len() == self.block@.len());
                None
            },
        }
    }

    /// The entry `index` of the node.
    ///
    /// `key_len` and `val_len` are the sizes of keys and values in a node of
    /// fixed sizes; other nodes carry the sizes themselves.
    pub fn entry(&self, index: u32, key_len: usize, val_len: usize) -> (found: Result<
        Entry<'_>,
        ApfsError,
    >)
        ensures
            error::viewed(found) == entry_of(self@, index, key_len, val_len),
    {
        proof {
            use_type_invariant(self);
        }
        if index >= self.nkeys {
            return Err(Self::malformed("entry index out of range"));
        }
        let (key_off, k_len, val_off, v_len) = match self.location(index, key_len, val_len) {
            Some(location) => location,
            None => return Err(Self::malformed("table-of-contents entry out of range")),
        };
        let key: &[u8] = match self.part(self.toc_off + self.toc_len + key_off, k_len) {
            Some(key) => key,
            None => return Err(Self::malformed("key extends past the node")),
        };
        if val_off == BTOFF_INVALID {
            return Ok(Entry { key, value: None });
        }
        let values_end: usize = if self.is_root() {
            self.block.len() - BTREE_INFO_SIZE
        } else {
            self.block.len()
        };
        if values_end < val_off as usize {
            return Err(Self::malformed("value offset precedes the node"));
        }
        match self.part(values_end - val_off as usize, v_len) {
            Some(value) => Ok(Entry { key, value: Some(value) }),
            None => Err(Self::malformed("value extends past the node")),
        }
    }
}

/// Whether `ord` is what `compare` computes.
pub open spec fn computes<C: Fn(&[u8], &[u8]) -> Ordering>(
    compare: C,
    ord: spec_fn(Seq<u8>, Seq<u8>) -> Ordering,
) -> bool {
    forall|a: &[u8], b: &[u8], o: Ordering| call_ensures(compare, (a, b), o) ==> o == ord(a@, b@)
}

/// The middle of the indices from `lo` up to `hi`.
pub open spec fn midpoint(lo: u32, hi: u32) -> u32 {
    (lo + (hi - lo) / 2) as u32
}

/// The index behind `index`.
pub open spec fn index_after(index: u32) -> u32 {
    (index + 1) as u32
}

/// The sizes that a tree's info trailer gives for keys and values.
pub open spec fn sizes_of(info: BtreeInfo) -> (usize, usize) {
    (info.key_size as usize, info.val_size as usize)
}

/// What the binary search for a key equal to `search` finds among the entries
/// from `lo` up to `hi`.
pub open spec fn equal_between(
    block: Seq<u8>,
    search: Seq<u8>,
    key_len: usize,
    val_len: usize,
    ord: spec_fn(Seq<u8>, Seq<u8>) -> Ordering,
    lo: u32,
    hi: u32,
) -> Result<Option<EntryView>, ApfsError>
    decreases hi - lo,
{
    if lo >= hi {
        Ok(None)
    } else {
        let mid = midpoint(lo, hi);
        match entry_of(block, mid, key_len, val_len) {
            Err(error) => Err(error),
            Ok(entry) => match ord(search, entry.key) {
                Ordering::Equal => Ok(Some(entry)),
                Ordering::Less => equal_between(block, search, key_len, val_len, ord, lo, mid),
                Ordering::Greater => equal_between(
                    block,
                    search,
                    key_len,
                    val_len,
                    ord,
                    index_after(mid),
                    hi,
                ),
            },
        }
    }
}

/// The entry of the node in `block` whose key is equal to `search`.
pub open spec fn equal_entry(
    block: Seq<u8>,
    search: Seq<u8>,
    key_len: usize,
    val_len: usize,
    ord: spec_fn(Seq<u8>, Seq<u8>) -> Ordering,
) -> Result<Option<EntryView>, ApfsError> {
    equal_between(block, search, key_len, val_len, ord, 0, node_key_count(block))
}

/// What the binary search for the last key that is not greater than `search`
/// finds among the entries from `lo` up to `hi`, when `chosen` is the last
/// such entry before them.
pub open spec fn last_le_between(
    block: Seq<u8>,
    search: Seq<u8>,
    key_len: usize,
    val_len: usize,
    ord: spec_fn(Seq<u8>, Seq<u8>) -> Ordering,
    lo: u32,
    hi: u32,
    chosen: Option<u32>,
) -> Result<Option<u32>, ApfsError>
    decreases hi - lo,
{
    if lo >= hi {
        Ok(chosen)
    } else {
        let mid = midpoint(lo, hi);
        match entry_of(block, mid, key_len, val_len) {
            Err(error) => Err(error),
            Ok(entry) => if ord(entry.key, search) == Ordering::Greater {
                last_le_between(block, search, key_len, val_len, ord, lo, mid, chosen)
            } else {
                last_le_between(
                    block,
                    search,
                    key_len,
                    val_len,
                    ord,
                    index_after(mid),
                    hi,
                    Some(mid),
                )
            },
        }
    }
}

/// The index of the last entry whose key is not greater than `search`.
pub open spec fn last_le(
    block: Seq<u8>,
    search: Seq<u8>,
    key_len: usize,
    val_len: usize,
    ord: spec_fn(Seq<u8>, Seq<u8>) -> Ordering,
) -> Result<Option<u32>, ApfsError> {
    last_le_between(block, search, key_len, val_len, ord, 0, node_key_count(block), None)
}

/// The last entry whose key is not greater than `search`.
pub open spec fn le_entry(
    block: Seq<u8>,
    search: Seq<u8>,
    key_len: usize,
    val_len: usize,
    ord: spec_fn(Seq<u8>, Seq<u8>) -> Ordering,
) -> Result<Option<EntryView>, ApfsError> {
    match last_le(block, search, key_len, val_len, ord) {
        Err(error) => Err(error),
        Ok(None) => Ok(None),
        Ok(Some(index)) => match entry_of(block, index, key_len, val_len) {
            Err(error) => Err(error),
            Ok(entry) => Ok(Some(entry)),
        },
    }
}

/// The child of a non-leaf node that a search for `search` goes to: the last
/// one whose key is not greater, or the first one.
pub open spec fn child_of(
    block: Seq<u8>,
    search: Seq<u8>,
    key_len: usize,
    ord: spec_fn(Seq<u8>, Seq<u8>) -> Ordering,
) -> Result<u32, ApfsError> {
    if node_key_count(block) == 0 {
        error::malformed("btree_node_phys_t", "non-leaf node has no keys")
    } else {
        match last_le(block, search, key_len, CHILD_LINK_SIZE, ord) {
            Err(error) => Err(error),
            Ok(None) => Ok(0),
            Ok(Some(index)) => Ok(index),
        }
    }
}

/// The child link stored in an entry of a non-leaf node.
pub open spec fn link_in(entry: EntryView) -> Result<u64, ApfsError> {
    match entry.value {
        None => error::malformed("btree_node_phys_t", "non-leaf entry has no child link"),
        Some(value) => if value.len() < CHILD_LINK_SIZE {
            error::malformed(
                "btree_node_phys_t",
                "child link shorter than an object identifier",
            )
        } else {
            Ok(bytes::le_u64(value, 0))
        },
    }
}

/// The object identifier of the child that a search for `search` goes to.
pub open spec fn child_link_of(
    block: Seq<u8>,
    search: Seq<u8>,
    key_len: usize,
    ord: spec_fn(Seq<u8>, Seq<u8>) -> Ordering,
) -> Result<u64, ApfsError> {
    match child_of(block, search, key_len, ord) {
        Err(error) => Err(error),
        Ok(index) => match entry_of(block, index, key_len, CHILD_LINK_SIZE) {
            Err(error) => Err(error),
            Ok(entry) => link_in(entry),
        },
    }
}

/// The leaf that a search for `search` reaches from the node in `block`, when
/// `nodes` gives the node of an object identifier. A descent that follows
/// more links than there are object identifiers goes round in a cycle and
/// has no leaf.
pub open spec fn leaf_below(
    block: Seq<u8>,
    nodes: spec_fn(u64) -> Result<Seq<u8>, ApfsError>,
    search: Seq<u8>,
    key_len: usize,
    ord: spec_fn(Seq<u8>, Seq<u8>) -> Ordering,
    links: u64,
) -> Result<Seq<u8>, ApfsError>
    decreases links,
{
    if node_is_leaf(block) {
        Ok(block)
    } else {
        match child_link_of(block, search, key_len, ord) {
            Err(error) => Err(error),
            Ok(child) => if links == 0 {
                error::malformed("btree_node_phys_t", "descent does not reach a leaf")
            } else {
                match nodes(child) {
                    Err(error) => Err(error),
                    Ok(next) => leaf_below(next, nodes, search, key_len, ord, fewer(links)),
                }
            },
        }
    }
}

/// One less than `count`.
pub open spec fn fewer(count: u64) -> u64 {
    (count - 1) as u64
}

/// The info trailer that a descent needs of its root.
pub open spec fn root_info(root: Seq<u8>) -> Result<BtreeInfo, ApfsError> {
    match info_of(root) {
        Err(error) => Err(error),
        Ok(None) => error::malformed("btree_node_phys_t", "descent must start at a root node"),
        Ok(Some(info)) => Ok(info),
    }
}

/// The value of the key equal to `search` in the tree under `root`.
pub open spec fn tree_value(
    root: Seq<u8>,
    nodes: spec_fn(u64) -> Result<Seq<u8>, ApfsError>,
    search: Seq<u8>,
    ord: spec_fn(Seq<u8>, Seq<u8>) -> Ordering,
) -> Result<Option<Seq<u8>>, ApfsError> {
    match root_info(root) {
        Err(error) => Err(error),
        Ok(info) => {
            let (key_len, val_len) = sizes_of(info);
            match leaf_below(root, nodes, search, key_len, ord, u64::MAX) {
                Err(error) => Err(error),
                Ok(leaf) => match equal_entry(leaf, search, key_len, val_len, ord) {
                    Err(error) => Err(error),
                    Ok(None) => Ok(None),
                    Ok(Some(entry)) => Ok(entry.value),
                },
            }
        },
    }
}

/// The last key that is not greater than `search` in the leaf that a search
/// reaches in the tree under `root`, with its value.
pub open spec fn tree_le(
    root: Seq<u8>,
    nodes: spec_fn(u64) -> Result<Seq<u8>, ApfsError>,
    search: Seq<u8>,
    ord: spec_fn(Seq<u8>, Seq<u8>) -> Ordering,
) -> Result<Option<(Seq<u8>, Seq<u8>)>, ApfsError> {
    match root_info(root) {
        Err(error) => Err(error),
        Ok(info) => {
            let (key_len, val_len) = sizes_of(info);
            match leaf_below(root, nodes, search, key_len, ord, u64::MAX) {
                Err(error) => Err(error),
                Ok(leaf) => match le_entry(leaf, search, key_len, val_len, ord) {
                    Err(error) => Err(error),
                    Ok(None) => Ok(None),
                    Ok(Some(entry)) => match entry.value {
                        None => Ok(None),
                        Some(value) => Ok(Some((entry.key, value))),
                    },
                },
            }
        },
    }
}

impl BtreeNode {
    /// The entries of the node, in stored order.
    #[must_use]
    pub fn entries(&self, key_len: usize, val_len: usize) -> (entries: NodeEntries<'_>)
        ensures
            entries.node() == self@,
            entries.sizes() == (key_len, val_len),
            entries.index() == 0,
    {
        NodeEntries { node: self, key_len, val_len, index: 0 }
    }

    /// Finds the entry whose key is equal to `search`, by binary search.
    pub fn find_equal<C: Fn(&[u8], &[u8]) -> Ordering>(
        &self,
        search: &[u8],
        key_len: usize,
        val_len: usize,
        compare: C,
    ) -> (found: Result<Option<Entry<'_>>, ApfsError>)
        requires
            forall|a: &[u8], b: &[u8]| call_requires(compare, (a, b)),
        ensures
            forall|ord: spec_fn(Seq<u8>, Seq<u8>) -> Ordering| #[trigger]
                computes(compare, ord) ==> error::viewed_option(found) == equal_entry(
                    self@,
                    search@,
                    key_len,
                    val_len,
                    ord,
                ),
    {
        self.search_equal(search, key_len, val_len, &compare)
    }

    /// The binary search for a key equal to `search`.
    fn search_equal<C: Fn(&[u8], &[u8]) -> Ordering>(
        &self,
        search: &[u8],
        key_len: usize,
        val_len: usize,
        compare: &C,
    ) -> (found: Result<Option<Entry<'_>>, ApfsError>)
        requires
            forall|a: &[u8], b: &[u8]| call_requires(*compare, (a, b)),
        ensures
            forall|ord: spec_fn(Seq<u8>, Seq<u8>) -> Ordering| #[trigger]
                computes(*compare, ord) ==> error::viewed_option(found) == equal_entry(
                    self@,
                    search@,
                    key_len,
                    val_len,
                    ord,
                ),
    {
        let mut lo: u32 = 0;
        let mut hi: u32 = self.key_count();
        while lo < hi
            invariant
                forall|a: &[u8], b: &[u8]| call_requires(*compare, (a, b)),
                forall|ord: spec_fn(Seq<u8>, Seq<u8>) -> Ordering| #[trigger]
                    computes(*compare, ord) ==> equal_entry(self@, search@, key_len, val_len, ord)
                        == equal_between(self@, search@, key_len, val_len, ord, lo, hi),
            decreases hi - lo,
        {
            let mid: u32 = lo + (hi - lo) / 2;
            let entry: Entry<'_> = match self.entry(mid, key_len, val_len) {
                Ok(entry) => entry,
                Err(error) => return Err(error),
            };
            match compare(search, entry.key) {
                Ordering::Equal => return Ok(Some(entry)),
                Ordering::Less => {
                    hi = mid;
                },
                Ordering::Greater => {
                    lo = mid + 1;
                },
            }
        }
        Ok(None)
    }

    /// The index of the last entry whose key is not greater than `search`, by
    /// binary search.
    fn last_not_greater<C: Fn(&[u8], &[u8]) -> Ordering>(
        &self,
        search: &[u8],
        key_len: usize,
        val_len: usize,
        compare: &C,
    ) -> (found: Result<Option<u32>, ApfsError>)
        requires
            forall|a: &[u8], b: &[u8]| call_requires(*compare, (a, b)),
        ensures
            forall|ord: spec_fn(Seq<u8>, Seq<u8>) -> Ordering| #[trigger]
                computes(*compare, ord) ==> found == last_le(self@, search@, key_len, val_len, ord),
    {
        let mut chosen: Option<u32> = None;
        let mut lo: u32 = 0;
        let mut hi: u32 = self.key_count();
        while lo < hi
            invariant
                forall|a: &[u8], b: &[u8]| call_requires(*compare, (a, b)),
                forall|ord: spec_fn(Seq<u8>, Seq<u8>) -> Ordering| #[trigger]
                    computes(*compare, ord) ==> last_le(self@, search@, key_len, val_len, ord)
                        == last_le_between(
                        self@,
                        search@,
                        key_len,
                        val_len,
                        ord,
                        lo,
                        hi,
                        chosen,
                    ),
            decreases hi - lo,
        {
            let mid: u32 = lo + (hi - lo) / 2;
            let entry: Entry<'_> = match self.entry(mid, key_len, val_len) {
                Ok(entry) => entry,
                Err(error) => return Err(error),
            };
            match compare(entry.key, search) {
                Ordering::Greater => {
                    hi = mid;
                },
                _ => {
                    chosen = Some(mid);
                    lo = mid + 1;
                },
            }
        }
        Ok(chosen)
    }

    /// Finds the last entry whose key is not greater than `search`, by binary
    /// search.
    pub fn find_le<C: Fn(&[u8], &[u8]) -> Ordering>(
        &self,
        search: &[u8],
        key_len: usize,
        val_len: usize,
        compare: C,
    ) -> (found: Result<Option<Entry<'_>>, ApfsError>)
        requires
            forall|a: &[u8], b: &[u8]| call_requires(compare, (a, b)),
        ensures
            forall|ord: spec_fn(Seq<u8>, Seq<u8>) -> Ordering| #[trigger]
                computes(compare, ord) ==> error::viewed_option(found) == le_entry(
                    self@,
                    search@,
                    key_len,
                    val_len,
                    ord,
                ),
    {
        self.search_le(search, key_len, val_len, &compare)
    }

    /// The last entry whose key is not greater than `search`.
    fn search_le<C: Fn(&[u8], &[u8]) -> Ordering>(
        &self,
        search: &[u8],
        key_len: usize,
        val_len: usize,
        compare: &C,
    ) -> (found: Result<Option<Entry<'_>>, ApfsError>)
        requires
            forall|a: &[u8], b: &[u8]| call_requires(*compare, (a, b)),
        ensures
            forall|ord: spec_fn(Seq<u8>, Seq<u8>) -> Ordering| #[trigger]
                computes(*compare, ord) ==> error::viewed_option(found) == le_entry(
                    self@,
                    search@,
                    key_len,
                    val_len,
                    ord,
                ),
    {
        match self.last_not_greater(search, key_len, val_len, compare) {
            Err(error) => Err(error),
            Ok(None) => Ok(None),
            Ok(Some(index)) => match self.entry(index, key_len, val_len) {
                Ok(entry) => Ok(Some(entry)),
                Err(error) => Err(error),
            },
        }
    }

    /// The index of the child of a non-leaf node to go to for `search`.
    fn child_index<C: Fn(&[u8], &[u8]) -> Ordering>(
        &self,
        search: &[u8],
        key_len: usize,
        compare: &C,
    ) -> (found: Result<u32, ApfsError>)
        requires
            forall|a: &[u8], b: &[u8]| call_requires(*compare, (a, b)),
        ensures
            forall|ord: spec_fn(Seq<u8>, Seq<u8>) -> Ordering| #[trigger]
                computes(*compare, ord) ==> found == child_of(self@, search@, key_len, ord),
    {
        if self.key_count() == 0 {
            return Err(Self::malformed("non-leaf node has no keys"));
        }
        match self.last_not_greater(search, key_len, CHILD_LINK_SIZE, compare) {
            Err(error) => Err(error),
            Ok(None) => Ok(0),
            Ok(Some(index)) => Ok(index),
        }
    }
}

/// The entries of a node, one after the other.
pub struct NodeEntries<'a> {
    node: &'a BtreeNode,
    key_len: usize,
    val_len: usize,
    index: u32,
}

impl<'a> NodeEntries<'a> {
    /// The node whose entries these are.
    pub closed spec fn node(&self) -> Seq<u8> {
        self.node@
    }

    /// The sizes of keys and values in a node of fixed sizes.
    pub closed spec fn sizes(&self) -> (usize, usize) {
        (self.key_len, self.val_len)
    }

    /// The index of the next entry.
    pub closed spec fn index(&self) -> u32 {
        self.index
    }

    /// The next entry, or `None` behind the last one. An entry that cannot be
    /// decoded is an error, and stays the next one.
    pub fn try_next(&mut self) -> (next: Result<Option<Entry<'a>>, ApfsError>)
        ensures
            final(self).node() == old(self).node(),
            final(self).sizes() == old(self).sizes(),
            ({
                let entry = entry_of(
                    old(self).node(),
                    old(self).index(),
                    old(self).sizes().0,
                    old(self).sizes().1,
                );
                if old(self).index() >= node_key_count(old(self).node()) {
                    next == Ok::<Option<Entry>, ApfsError>(None) && final(self).index() == old(
                        self).index()
                } else {
                    match next {
                        Ok(Some(found)) => entry == Ok::<EntryView, ApfsError>(found@)
                            && final(self).index() == old(self).index() + 1,
                        Ok(None) => false,
                        Err(error) => entry == Err::<EntryView, ApfsError>(error)
                            && final(self).index() == old(self).index(),
                    }
                }
            }),
    {
        if self.index >= self.node.key_count() {
            return Ok(None);
        }
        match self.node.entry(self.index, self.key_len, self.val_len) {
            Ok(entry) => {
                self.index = self.index + 1;
                Ok(Some(entry))
            },
            Err(error) => Err(error),
        }
    }
}

/// Reads the child link of an entry of a non-leaf node.
pub fn entry_link(entry: &Entry<'_>) -> (link: Result<u64, ApfsError>)
    ensures
        link == link_in(entry@),
{
    match entry.value {
        None => Err(
            ApfsError::Malformed {
                structure: "btree_node_phys_t",
                reason: "non-leaf entry has no child link",
            },
        ),
        Some(value) => {
            if value.len() < CHILD_LINK_SIZE {
                return Err(
                    ApfsError::Malformed {
                        structure: "btree_node_phys_t",
                        reason: "child link shorter than an object identifier",
                    },
                );
            }
            Ok(bytes::read_u64(value, 0))
        },
    }
}

/// The object identifier of the child to go to for `search`.
fn child_link<C: Fn(&[u8], &[u8]) -> Ordering>(
    node: &BtreeNode,
    search: &[u8],
    key_len: usize,
    compare: &C,
) -> (link: Result<u64, ApfsError>)
    requires
        forall|a: &[u8], b: &[u8]| call_requires(*compare, (a, b)),
    ensures
        forall|ord: spec_fn(Seq<u8>, Seq<u8>) -> Ordering| #[trigger]
            computes(*compare, ord) ==> link == child_link_of(node@, search@, key_len, ord),
{
    match node.child_index(search, key_len, compare) {
        Err(error) => Err(error),
        Ok(index) => match node.entry(index, key_len, CHILD_LINK_SIZE) {
            Err(error) => Err(error),
            Ok(entry) => entry_link(&entry),
        },
    }
}

/// The sizes that the info trailer of `root` gives for keys and values.
fn root_sizes(root: &BtreeNode) -> (sizes: Result<(usize, usize), ApfsError>)
    ensures
        sizes == match root_info(root@) {
            Ok(info) => Ok(sizes_of(info)),
            Err(error) => Err(error),
        },
{
    match root.btree_info() {
        Err(error) => Err(error),
        Ok(None) => Err(
            ApfsError::Malformed {
                structure: "btree_node_phys_t",
                reason: "descent must start at a root node",
            },
        ),
        Ok(Some(info)) => Ok((info.key_size as usize, info.val_size as usize)),
    }
}

/// Follows child links from `root` down to the leaf for `search`.
fn find_leaf<
    R: Reader,
    F: Fn(&mut R, u64) -> Result<BtreeNode, ApfsError>,
    C: Fn(&[u8], &[u8]) -> Ordering,
>(
    root: BtreeNode,
    reader: &mut R,
    resolve: F,
    search: &[u8],
    key_len: usize,
    compare: &C,
) -> (found: Result<BtreeNode, ApfsError>)
    requires
        forall|a: &[u8], b: &[u8]| call_requires(*compare, (a, b)),
        forall|r: &mut R, oid: u64| call_requires(resolve, (r, oid)),
    ensures
        forall|
            nodes: spec_fn(u64) -> Result<Seq<u8>, ApfsError>,
            ord: spec_fn(Seq<u8>, Seq<u8>) -> Ordering,
        |
            (forall|r: &mut R, oid: u64, node: Result<BtreeNode, ApfsError>| #[trigger]
                call_ensures(resolve, (r, oid), node) && (*r).device() == old(reader).device()
                    ==> final(r).device() == (*r).device() && error::viewed(node) == nodes(oid))
                && computes(*compare, ord) ==> final(reader).device() == old(reader).device()
                && error::viewed(found) == #[trigger] leaf_below(
                root@,
                nodes,
                search@,
                key_len,
                ord,
                u64::MAX,
            ),
{
    let mut node: BtreeNode = root;
    let mut links: u64 = u64::MAX;
    let ghost goal = root@;
    loop
        invariant
            goal == root@,
            forall|a: &[u8], b: &[u8]| call_requires(*compare, (a, b)),
            forall|r: &mut R, oid: u64| call_requires(resolve, (r, oid)),
            forall|
                nodes: spec_fn(u64) -> Result<Seq<u8>, ApfsError>,
                ord: spec_fn(Seq<u8>, Seq<u8>) -> Ordering,
            |
                (forall|r: &mut R, oid: u64, node: Result<BtreeNode, ApfsError>| #[trigger]
                    call_ensures(resolve, (r, oid), node) && (*r).device() == old(reader).device()
                        ==> final(r).device() == (*r).device() && error::viewed(node) == nodes(
                        oid,
                    )) && computes(*compare, ord) ==> reader.device() == old(reader).device()
                    && leaf_below(node@, nodes, search@, key_len, ord, links)
                    == #[trigger] leaf_below(goal, nodes, search@, key_len, ord, u64::MAX),
        decreases links,
    {
        if node.is_leaf() {
            return Ok(node);
        }
        let ghost here = node@;
        let child: u64 = match child_link(&node, search, key_len, compare) {
            Ok(child) => child,
            Err(error) => return Err(error),
        };
        if links == 0 {
            return Err(BtreeNode::malformed("descent does not reach a leaf"));
        }
        let resolved: Result<BtreeNode, ApfsError> = resolve(reader, child);
        assert forall|
            nodes: spec_fn(u64) -> Result<Seq<u8>, ApfsError>,
            ord: spec_fn(Seq<u8>, Seq<u8>) -> Ordering,
        |
            (forall|r: &mut R, oid: u64, node: Result<BtreeNode, ApfsError>| #[trigger]
                call_ensures(resolve, (r, oid), node) && (*r).device() == old(reader).device()
                    ==> final(r).device() == (*r).device() && error::viewed(node) == nodes(oid))
                && computes(*compare, ord) implies reader.device() == old(reader).device() && #[trigger] leaf_below(
            goal,
            nodes,
            search@,
            key_len,
            ord,
            u64::MAX,
        ) == (match error::viewed(resolved) {
            Err(error) => Err(error),
            Ok(next) => leaf_below(next, nodes, search@, key_len, ord, fewer(links)),
        }) by {
            assert(leaf_below(here, nodes, search@, key_len, ord, links) == leaf_below(
                goal,
                nodes,
                search@,
                key_len,
                ord,
                u64::MAX,
            ));
            assert(error::viewed(resolved) == nodes(child));
        }
        node = match resolved {
            Ok(next) => next,
            Err(error) => return Err(error),
        };
        links = links - 1;
    }
}

/// A copy of an optional slice.
fn copied(value: Option<&[u8]>) -> (copy: Option<Vec<u8>>)
    ensures
        error::some_view(copy) == error::some_view(value),
{
    match value {
        Some(slice) => Some(vstd::slice::slice_to_vec(slice)),
        None => None,
    }
}

/// Looks up the value of the key equal to `search` in the tree under `root`.
///
/// `resolve` gives the node of an object identifier; the sizes of keys and
/// values come from the info trailer of the root.
pub fn descend<
    R: Reader,
    F: Fn(&mut R, u64) -> Result<BtreeNode, ApfsError>,
    C: Fn(&[u8], &[u8]) -> Ordering,
>(root: BtreeNode, reader: &mut R, resolve: F, search: &[u8], compare: C) -> (found: Result<
    Option<Vec<u8>>,
    ApfsError,
>)
    requires
        forall|a: &[u8], b: &[u8]| call_requires(compare, (a, b)),
        forall|r: &mut R, oid: u64| call_requires(resolve, (r, oid)),
    ensures
        forall|
            nodes: spec_fn(u64) -> Result<Seq<u8>, ApfsError>,
            ord: spec_fn(Seq<u8>, Seq<u8>) -> Ordering,
        |
            (forall|r: &mut R, oid: u64, node: Result<BtreeNode, ApfsError>| #[trigger]
                call_ensures(resolve, (r, oid), node) && (*r).device() == old(reader).device()
                    ==> final(r).device() == (*r).device() && error::viewed(node) == nodes(oid))
                && computes(compare, ord) ==> final(reader).device() == old(reader).device()
                && error::viewed_option(found) == #[trigger] tree_value(
                root@,
                nodes,
                search@,
                ord,
            ),
{
    let (key_len, val_len) = match root_sizes(&root) {
        Ok(sizes) => sizes,
        Err(error) => return Err(error),
    };
    let ghost start = root@;
    let found: Result<BtreeNode, ApfsError> = find_leaf(
        root,
        reader,
        resolve,
        search,
        key_len,
        &compare,
    );
    assert forall|
        nodes: spec_fn(u64) -> Result<Seq<u8>, ApfsError>,
        ord: spec_fn(Seq<u8>, Seq<u8>) -> Ordering,
    |
        (forall|r: &mut R, oid: u64, node: Result<BtreeNode, ApfsError>| #[trigger]
                call_ensures(resolve, (r, oid), node) && (*r).device() == old(reader).device()
                    ==> final(r).device() == (*r).device() && error::viewed(node) == nodes(oid))
                && computes(compare, ord) implies reader.device() == old(reader).device() && error::viewed(found)
        == #[trigger] leaf_below(start, nodes, search@, key_len, ord, u64::MAX) by {}
    match found {
        Err(error) => Err(error),
        Ok(leaf) => match leaf.search_equal(search, key_len, val_len, &compare) {
            Err(error) => Err(error),
            Ok(None) => Ok(None),
            Ok(Some(entry)) => Ok(copied(entry.value)),
        },
    }
}

/// Looks up the last key that is not greater than `search` in the tree under
/// `root`, with its value.
pub fn descend_le<
    R: Reader,
    F: Fn(&mut R, u64) -> Result<BtreeNode, ApfsError>,
    C: Fn(&[u8], &[u8]) -> Ordering,
>(root: BtreeNode, reader: &mut R, resolve: F, search: &[u8], compare: C) -> (found: Result<
    Option<(Vec<u8>, Vec<u8>)>,
    ApfsError,
>)
    requires
        forall|a: &[u8], b: &[u8]| call_requires(compare, (a, b)),
        forall|r: &mut R, oid: u64| call_requires(resolve, (r, oid)),
    ensures
        forall|
            nodes: spec_fn(u64) -> Result<Seq<u8>, ApfsError>,
            ord: spec_fn(Seq<u8>, Seq<u8>) -> Ordering,
        |
            (forall|r: &mut R, oid: u64, node: Result<BtreeNode, ApfsError>| #[trigger]
                call_ensures(resolve, (r, oid), node) && (*r).device() == old(reader).device()
                    ==> final(r).device() == (*r).device() && error::viewed(node) == nodes(oid))
                && computes(compare, ord) ==> final(reader).device() == old(reader).device()
                && error::viewed_option(found) == #[trigger] tree_le(root@, nodes, search@, ord),
{
    let (key_len, val_len) = match root_sizes(&root) {
        Ok(sizes) => sizes,
        Err(error) => return Err(error),
    };
    let ghost start = root@;
    let found: Result<BtreeNode, ApfsError> = find_leaf(
        root,
        reader,
        resolve,
        search,
        key_len,
        &compare,
    );
    assert forall|
        nodes: spec_fn(u64) -> Result<Seq<u8>, ApfsError>,
        ord: spec_fn(Seq<u8>, Seq<u8>) -> Ordering,
    |
        (forall|r: &mut R, oid: u64, node: Result<BtreeNode, ApfsError>| #[trigger]
                call_ensures(resolve, (r, oid), node) && (*r).device() == old(reader).device()
                    ==> final(r).device() == (*r).device() && error::viewed(node) == nodes(oid))
                && computes(compare, ord) implies reader.device() == old(reader).device() && error::viewed(found)
        == #[trigger] leaf_below(start, nodes, search@, key_len, ord, u64::MAX) by {}
    match found {
        Err(error) => Err(error),
        Ok(leaf) => match leaf.search_le(search, key_len, val_len, &compare) {
            Err(error) => Err(error),
            Ok(None) => Ok(None),
            Ok(Some(entry)) => match entry.value {
                None => Ok(None),
                Some(value) => Ok(
                    Some((vstd::slice::slice_to_vec(entry.key), vstd::slice::slice_to_vec(value))),
                ),
            },
        },
    }
}

/// The key of the entry `index`.
pub open spec fn key_of(block: Seq<u8>, index: u32, key_len: usize, val_len: usize) -> Seq<u8> {
    entry_of(block, index, key_len, val_len)->Ok_0.key
}

/// Whether every entry of the node in `block` can be decoded.
pub open spec fn all_decode(block: Seq<u8>, key_len: usize, val_len: usize) -> bool {
    forall|i: u32|
        i < node_key_count(block) ==> (#[trigger] entry_of(block, i, key_len, val_len)) is Ok
}

/// Whether the keys of a node are in order as seen from `search`: behind a
/// key that is greater than `search` every key is greater.
pub open spec fn in_order_for(
    block: Seq<u8>,
    search: Seq<u8>,
    key_len: usize,
    val_len: usize,
    ord: spec_fn(Seq<u8>, Seq<u8>) -> Ordering,
) -> bool {
    forall|i: u32, j: u32|
        #![trigger key_of(block, i, key_len, val_len), key_of(block, j, key_len, val_len)]
        i < j < node_key_count(block) && ord(key_of(block, i, key_len, val_len), search)
            == Ordering::Greater ==> ord(key_of(block, j, key_len, val_len), search)
            == Ordering::Greater
}

/// In a node whose keys are in order, the search for the last key that is not
/// greater than `search` finds exactly that key: the entry it names is not
/// greater, and every entry behind it is. Without such a key it finds none.
pub proof fn law_last_le_in_order(
    block: Seq<u8>,
    search: Seq<u8>,
    key_len: usize,
    val_len: usize,
    ord: spec_fn(Seq<u8>, Seq<u8>) -> Ordering,
)
    requires
        all_decode(block, key_len, val_len),
        in_order_for(block, search, key_len, val_len, ord),
    ensures
        match last_le(block, search, key_len, val_len, ord) {
            Err(_) => false,
            Ok(None) => forall|j: u32|
                j < node_key_count(block) ==> ord(
                    #[trigger] key_of(block, j, key_len, val_len),
                    search,
                ) == Ordering::Greater,
            Ok(Some(k)) => k < node_key_count(block) && ord(
                key_of(block, k, key_len, val_len),
                search,
            ) != Ordering::Greater && (forall|j: u32|
                k < j < node_key_count(block) ==> ord(
                    #[trigger] key_of(block, j, key_len, val_len),
                    search,
                ) == Ordering::Greater),
        },
{
    lemma_last_le_between(
        block,
        search,
        key_len,
        val_len,
        ord,
        0,
        node_key_count(block),
        None,
    );
}

proof fn lemma_last_le_between(
    block: Seq<u8>,
    search: Seq<u8>,
    key_len: usize,
    val_len: usize,
    ord: spec_fn(Seq<u8>, Seq<u8>) -> Ordering,
    lo: u32,
    hi: u32,
    chosen: Option<u32>,
)
    requires
        all_decode(block, key_len, val_len),
        in_order_for(block, search, key_len, val_len, ord),
        lo <= hi <= node_key_count(block),
        forall|j: u32|
            hi <= j < node_key_count(block) ==> ord(
                #[trigger] key_of(block, j, key_len, val_len),
                search,
            ) == Ordering::Greater,
        match chosen {
            None => lo == 0,
            Some(k) => k + 1 == lo && ord(key_of(block, k, key_len, val_len), search)
                != Ordering::Greater,
        },
    ensures
        match last_le_between(block, search, key_len, val_len, ord, lo, hi, chosen) {
            Err(_) => false,
            Ok(None) => forall|j: u32|
                j < node_key_count(block) ==> ord(
                    #[trigger] key_of(block, j, key_len, val_len),
                    search,
                ) == Ordering::Greater,
            Ok(Some(k)) => k < node_key_count(block) && ord(
                key_of(block, k, key_len, val_len),
                search,
            ) != Ordering::Greater && (forall|j: u32|
                k < j < node_key_count(block) ==> ord(
                    #[trigger] key_of(block, j, key_len, val_len),
                    search,
                ) == Ordering::Greater),
        },
    decreases hi - lo,
{
    if lo < hi {
        let mid = midpoint(lo, hi);
        let key = key_of(block, mid, key_len, val_len);
        assert(entry_of(block, mid, key_len, val_len) is Ok);
        if ord(key, search) == Ordering::Greater {
            lemma_last_le_between(block, search, key_len, val_len, ord, lo, mid, chosen);
        } else {
            lemma_last_le_between(
                block,
                search,
                key_len,
                val_len,
                ord,
                index_after(mid),
                hi,
                Some(mid),
            );
        }
    }
}

/// Whether the keys of a node are sorted as seen from `search`: a key behind
/// one that `search` precedes is preceded too, and a key before one that
/// `search` follows is followed too.
pub open spec fn sorted_for(
    block: Seq<u8>,
    search: Seq<u8>,
    key_len: usize,
    val_len: usize,
    ord: spec_fn(Seq<u8>, Seq<u8>) -> Ordering,
) -> bool {
    forall|i: u32, j: u32|
        #![trigger key_of(block, i, key_len, val_len), key_of(block, j, key_len, val_len)]
        i < j < node_key_count(block) ==> (ord(search, key_of(block, i, key_len, val_len))
            == Ordering::Less ==> ord(search, key_of(block, j, key_len, val_len))
            == Ordering::Less) && (ord(search, key_of(block, j, key_len, val_len))
            == Ordering::Greater ==> ord(search, key_of(block, i, key_len, val_len))
            == Ordering::Greater)
}

/// In a node whose keys are sorted, the search for `search` finds an entry
/// with a key equal to it, and finds none only where there is none.
pub proof fn law_find_equal_in_order(
    block: Seq<u8>,
    search: Seq<u8>,
    key_len: usize,
    val_len: usize,
    ord: spec_fn(Seq<u8>, Seq<u8>) -> Ordering,
)
    requires
        all_decode(block, key_len, val_len),
        sorted_for(block, search, key_len, val_len, ord),
    ensures
        match equal_entry(block, search, key_len, val_len, ord) {
            Err(_) => false,
            Ok(None) => forall|j: u32|
                j < node_key_count(block) ==> ord(
                    search,
                    #[trigger] key_of(block, j, key_len, val_len),
                ) != Ordering::Equal,
            Ok(Some(entry)) => ord(search, entry.key) == Ordering::Equal && exists|j: u32|
                j < node_key_count(block) && #[trigger] entry_of(block, j, key_len, val_len)
                    == Ok::<EntryView, ApfsError>(entry),
        },
{
    lemma_equal_between(block, search, key_len, val_len, ord, 0, node_key_count(block));
}

proof fn lemma_equal_between(
    block: Seq<u8>,
    search: Seq<u8>,
    key_len: usize,
    val_len: usize,
    ord: spec_fn(Seq<u8>, Seq<u8>) -> Ordering,
    lo: u32,
    hi: u32,
)
    requires
        all_decode(block, key_len, val_len),
        sorted_for(block, search, key_len, val_len, ord),
        lo <= hi <= node_key_count(block),
        forall|j: u32|
            j < lo || hi <= j < node_key_count(block) ==> ord(
                search,
                #[trigger] key_of(block, j, key_len, val_len),
            ) != Ordering::Equal,
    ensures
        match equal_between(block, search, key_len, val_len, ord, lo, hi) {
            Err(_) => false,
            Ok(None) => forall|j: u32|
                j < node_key_count(block) ==> ord(
                    search,
                    #[trigger] key_of(block, j, key_len, val_len),
                ) != Ordering::Equal,
            Ok(Some(entry)) => ord(search, entry.key) == Ordering::Equal && exists|j: u32|
                j < node_key_count(block) && #[trigger] entry_of(block, j, key_len, val_len)
                    == Ok::<EntryView, ApfsError>(entry),
        },
    decreases hi - lo,
{
    if lo < hi {
        let mid = midpoint(lo, hi);
        let key = key_of(block, mid, key_len, val_len);
        assert(entry_of(block, mid, key_len, val_len) is Ok);
        match ord(search, key) {
            Ordering::Equal => {},
            Ordering::Less => {
                lemma_equal_between(block, search, key_len, val_len, ord, lo, mid);
            },
            Ordering::Greater => {
                lemma_equal_between(block, search, key_len, val_len, ord, index_after(mid), hi);
            },
        }
    }
}

proof fn lemma_last_le_is_not_above(
    block: Seq<u8>,
    search: Seq<u8>,
    key_len: usize,
    val_len: usize,
    ord: spec_fn(Seq<u8>, Seq<u8>) -> Ordering,
    lo: u32,
    hi: u32,
    chosen: Option<u32>,
)
    requires
        chosen matches Some(index) ==> entry_of(block, index, key_len, val_len) matches Ok(entry)
            && ord(entry.key, search) != Ordering::Greater,
    ensures
        last_le_between(block, search, key_len, val_len, ord, lo, hi, chosen) matches Ok(
            Some(index),
        ) ==> entry_of(block, index, key_len, val_len) matches Ok(entry) && ord(entry.key, search)
            != Ordering::Greater,
    decreases hi - lo,
{
    if lo < hi {
        let mid = midpoint(lo, hi);
        if let Ok(entry) = entry_of(block, mid, key_len, val_len) {
            if ord(entry.key, search) == Ordering::Greater {
                lemma_last_le_is_not_above(block, search, key_len, val_len, ord, lo, mid, chosen);
            } else {
                lemma_last_le_is_not_above(
                    block,
                    search,
                    key_len,
                    val_len,
                    ord,
                    index_after(mid),
                    hi,
                    Some(mid),
                );
            }
        }
    }
}

/// What a search for the last key not above `search` finds is never above it, in
/// whatever order the tree holds its keys.
pub proof fn law_found_key_is_not_above(
    root: Seq<u8>,
    nodes: spec_fn(u64) -> Result<Seq<u8>, ApfsError>,
    search: Seq<u8>,
    ord: spec_fn(Seq<u8>, Seq<u8>) -> Ordering,
)
    ensures
        tree_le(root, nodes, search, ord) matches Ok(Some(found)) ==> ord(found.0, search)
            != Ordering::Greater,
{
    if let Ok(info) = root_info(root) {
        let (key_len, val_len) = sizes_of(info);
        if let Ok(leaf) = leaf_below(root, nodes, search, key_len, ord, u64::MAX) {
            lemma_last_le_is_not_above(
                leaf,
                search,
                key_len,
                val_len,
                ord,
                0,
                node_key_count(leaf),
                None,
            );
        }
    }
}

proof fn lemma_equal_between_matches(
    block: Seq<u8>,
    search: Seq<u8>,
    key_len: usize,
    val_len: usize,
    ord: spec_fn(Seq<u8>, Seq<u8>) -> Ordering,
    lo: u32,
    hi: u32,
)
    ensures
        equal_between(block, search, key_len, val_len, ord, lo, hi) matches Ok(Some(entry)) ==> ord(
            search,
            entry.key,
        ) == Ordering::Equal && exists|index: u32|
            index < node_key_count(block) && #[trigger] entry_of(block, index, key_len, val_len)
                == Ok::<EntryView, ApfsError>(entry),
    decreases hi - lo,
{
    if lo < hi {
        let mid = midpoint(lo, hi);
        if let Ok(entry) = entry_of(block, mid, key_len, val_len) {
            lemma_equal_between_matches(block, search, key_len, val_len, ord, lo, mid);
            lemma_equal_between_matches(
                block,
                search,
                key_len,
                val_len,
                ord,
                index_after(mid),
                hi,
            );
        }
    }
}

/// The value that a search for `search` gives is that of an entry of a leaf of the
/// tree whose key compares as equal to it, in whatever order the tree holds its keys.
pub proof fn law_found_value_has_the_key(
    root: Seq<u8>,
    nodes: spec_fn(u64) -> Result<Seq<u8>, ApfsError>,
    search: Seq<u8>,
    ord: spec_fn(Seq<u8>, Seq<u8>) -> Ordering,
)
    ensures
        tree_value(root, nodes, search, ord) matches Ok(Some(value)) ==> exists|
            leaf: Seq<u8>,
            index: u32,
            key_len: usize,
            val_len: usize,
        |
            node_is_leaf(leaf) && (#[trigger] entry_of(leaf, index, key_len, val_len) matches Ok(
                entry,
            ) && entry.value == Some(value) && ord(search, entry.key) == Ordering::Equal),
{
    if let Ok(Some(value)) = tree_value(root, nodes, search, ord) {
        let info = root_info(root)->Ok_0;
        let (key_len, val_len) = sizes_of(info);
        let leaf = leaf_below(root, nodes, search, key_len, ord, u64::MAX)->Ok_0;
        lemma_leaf_below_is_a_leaf(root, nodes, search, key_len, ord, u64::MAX);
        lemma_equal_between_matches(leaf, search, key_len, val_len, ord, 0, node_key_count(leaf));
        let entry = equal_entry(leaf, search, key_len, val_len, ord)->Ok_0->0;
        let index = choose|index: u32|
            index < node_key_count(leaf) && #[trigger] entry_of(leaf, index, key_len, val_len)
                == Ok::<EntryView, ApfsError>(entry);
        assert(entry_of(leaf, index, key_len, val_len) is Ok);
    }
}

proof fn lemma_leaf_below_is_a_leaf(
    block: Seq<u8>,
    nodes: spec_fn(u64) -> Result<Seq<u8>, ApfsError>,
    search: Seq<u8>,
    key_len: usize,
    ord: spec_fn(Seq<u8>, Seq<u8>) -> Ordering,
    links: u64,
)
    ensures
        leaf_below(block, nodes, search, key_len, ord, links) matches Ok(leaf) ==> node_is_leaf(
            leaf,
        ),
    decreases links,
{
    if !node_is_leaf(block) && links > 0 {
        if let Ok(child) = child_link_of(block, search, key_len, ord) {
            if let Ok(next) = nodes(child) {
                lemma_leaf_below_is_a_leaf(next, nodes, search, key_len, ord, fewer(links));
            }
        }
    }
}

} // verus!
