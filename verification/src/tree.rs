//! Walking every record of a physical B-tree.
//!
//! The checkpoint descriptor tree and the file-extent tree are physical trees
//! of fixed-size records: a child link is a block address, and every node
//! carries its checksum. A walk visits the nodes depth first and collects the
//! records of the leaves; it gives up on a tree of too many nodes, which is
//! corrupt or cyclic.

use vstd::prelude::*;

use crate::btree;
use crate::btree::{BtreeNode, Entry, EntryView};
use crate::bytes;
use crate::checkpoint;
use crate::checksum;
use crate::error;
use crate::error::ApfsError;
use crate::io::{Device, Reader};

verus! {

/// What a walk needs to know of a kind of tree.
#[derive(Debug, Clone, Copy)]
pub struct TreeLayout {
    /// The name of the tree, for errors.
    pub structure: &'static str,
    /// The reason given for a non-leaf entry without a value.
    pub no_child: &'static str,
    /// The reason given for a non-leaf value that is too short.
    pub short_child: &'static str,
    /// Size of a key.
    pub key_len: usize,
    /// Size of a leaf value.
    pub val_len: usize,
    /// Largest number of nodes that a walk visits.
    pub max_nodes: u32,
}

/// A leaf record of a physical tree.
pub trait TreeRecord: Sized {
    /// The layout of the tree.
    spec fn spec_layout() -> TreeLayout;

    /// The layout of the tree.
    fn layout() -> (layout: TreeLayout)
        ensures
            layout == Self::spec_layout(),
    ;

    /// The record in a leaf entry.
    spec fn record_of(entry: EntryView) -> Result<Self, ApfsError>;

    /// Reads the record in a leaf entry.
    fn read_record(entry: &Entry<'_>) -> (record: Result<Self, ApfsError>)
        ensures
            record == Self::record_of(entry@),
    ;
}

/// The records in the first `count` entries of a leaf.
pub open spec fn leaf_records<A: TreeRecord>(leaf: Seq<u8>, count: nat) -> Result<
    Seq<A>,
    ApfsError,
>
    decreases count,
{
    if count == 0 {
        Ok(Seq::empty())
    } else {
        let layout = A::spec_layout();
        match leaf_records::<A>(leaf, (count - 1) as nat) {
            Err(error) => Err(error),
            Ok(before) => match btree::entry_of(
                leaf,
                (count - 1) as u32,
                layout.key_len,
                layout.val_len,
            ) {
                Err(error) => Err(error),
                Ok(entry) => match A::record_of(entry) {
                    Err(error) => Err(error),
                    Ok(record) => Ok(before.push(record)),
                },
            },
        }
    }
}

/// The block address of the child in a non-leaf entry.
pub open spec fn child_in(layout: TreeLayout, entry: EntryView) -> Result<u64, ApfsError> {
    match entry.value {
        None => error::malformed(layout.structure, layout.no_child),
        Some(value) => if value.len() < btree::CHILD_LINK_SIZE {
            error::malformed(layout.structure, layout.short_child)
        } else {
            Ok(bytes::le_u64(value, 0))
        },
    }
}

/// The children in the first `count` entries of a non-leaf node.
pub open spec fn children(layout: TreeLayout, node: Seq<u8>, count: nat) -> Result<
    Seq<u64>,
    ApfsError,
>
    decreases count,
{
    if count == 0 {
        Ok(Seq::empty())
    } else {
        match children(layout, node, (count - 1) as nat) {
            Err(error) => Err(error),
            Ok(before) => match btree::entry_of(
                node,
                (count - 1) as u32,
                layout.key_len,
                btree::CHILD_LINK_SIZE,
            ) {
                Err(error) => Err(error),
                Ok(entry) => match child_in(layout, entry) {
                    Err(error) => Err(error),
                    Ok(child) => Ok(before.push(child)),
                },
            },
        }
    }
}

/// The node in block `addr`, whose checksum must be valid.
pub open spec fn checked_node(device: Device, block_size: u32, addr: u64) -> Result<
    Seq<u8>,
    ApfsError,
> {
    match checkpoint::block_at(device, block_size, addr) {
        Err(error) => Err(error),
        Ok(block) => if !checksum::is_valid_block(block) {
            Err(ApfsError::ChecksumMismatch { block: addr })
        } else {
            btree::node_of(block)
        },
    }
}

/// The records of the trees whose roots are in `pending`, the last root first
/// and each tree's last child first, when at most `nodes` nodes may be
/// visited.
pub open spec fn records_below<A: TreeRecord>(
    device: Device,
    block_size: u32,
    pending: Seq<u64>,
    nodes: nat,
) -> Result<Seq<A>, ApfsError>
    decreases nodes,
{
    let layout = A::spec_layout();
    if pending.len() == 0 {
        Ok(Seq::empty())
    } else if nodes == 0 {
        error::malformed(layout.structure, "tree has too many nodes — corrupt or cyclic")
    } else {
        match checked_node(device, block_size, pending.last()) {
            Err(error) => Err(error),
            Ok(node) => {
                let count = btree::node_key_count(node) as nat;
                let left = (nodes - 1) as nat;
                if btree::node_is_leaf(node) {
                    match leaf_records::<A>(node, count) {
                        Err(error) => Err(error),
                        Ok(records) => match records_below::<A>(
                            device,
                            block_size,
                            pending.drop_last(),
                            left,
                        ) {
                            Err(error) => Err(error),
                            Ok(rest) => Ok(records + rest),
                        },
                    }
                } else {
                    match children(layout, node, count) {
                        Err(error) => Err(error),
                        Ok(below) => records_below::<A>(
                            device,
                            block_size,
                            pending.drop_last() + below,
                            left,
                        ),
                    }
                }
            },
        }
    }
}

/// Every record of the tree with its root in block `root`.
#[verifier::opaque]
pub open spec fn tree_records<A: TreeRecord>(device: Device, block_size: u32, root: u64) -> Result<
    Seq<A>,
    ApfsError,
> {
    records_below::<A>(device, block_size, seq![root], A::spec_layout().max_nodes as nat)
}

/// Appends the records of a leaf to `records`.
fn push_leaf_records<A: TreeRecord>(leaf: &BtreeNode, records: &mut Vec<A>) -> (done: Result<
    (),
    ApfsError,
>)
    ensures
        match done {
            Ok(()) => leaf_records::<A>(leaf@, btree::node_key_count(leaf@) as nat) matches Ok(
                read,
            ) && final(records)@ == old(records)@ + read,
            Err(error) => leaf_records::<A>(leaf@, btree::node_key_count(leaf@) as nat) == Err::<
                Seq<A>,
                ApfsError,
            >(error),
        },
{
    let layout: TreeLayout = A::layout();
    let count: u32 = leaf.key_count();
    let mut i: u32 = 0;
    assert(old(records)@ + Seq::<A>::empty() =~= old(records)@);
    while i < count
        invariant
            i <= count,
            count == btree::node_key_count(leaf@),
            layout == A::spec_layout(),
            leaf_records::<A>(leaf@, i as nat) matches Ok(read) && records@ == old(records)@
                + read,
        decreases count - i,
    {
        let ghost before = leaf_records::<A>(leaf@, i as nat)->Ok_0;
        let entry: Entry<'_> = match leaf.entry(i, layout.key_len, layout.val_len) {
            Ok(entry) => entry,
            Err(error) => {
                proof {
                    lemma_leaf_error::<A>(leaf@, (i + 1) as nat, count as nat, error);
                }
                return Err(error);
            },
        };
        match A::read_record(&entry) {
            Ok(record) => {
                records.push(record);
                assert(old(records)@ + before.push(record) =~= (old(records)@ + before).push(
                    record,
                ));
            },
            Err(error) => {
                proof {
                    lemma_leaf_error::<A>(leaf@, (i + 1) as nat, count as nat, error);
                }
                return Err(error);
            },
        }
        i += 1;
    }
    Ok(())
}

/// An error among the first entries of a leaf is the error of all of them.
proof fn lemma_leaf_error<A: TreeRecord>(leaf: Seq<u8>, some: nat, all: nat, error: ApfsError)
    requires
        some <= all,
        leaf_records::<A>(leaf, some) == Err::<Seq<A>, ApfsError>(error),
    ensures
        leaf_records::<A>(leaf, all) == Err::<Seq<A>, ApfsError>(error),
    decreases all,
{
    if some < all {
        lemma_leaf_error::<A>(leaf, some, (all - 1) as nat, error);
    }
}

/// An error among the first entries of a node is the error of all of them.
proof fn lemma_child_error(
    layout: TreeLayout,
    node: Seq<u8>,
    some: nat,
    all: nat,
    error: ApfsError,
)
    requires
        some <= all,
        children(layout, node, some) == Err::<Seq<u64>, ApfsError>(error),
    ensures
        children(layout, node, all) == Err::<Seq<u64>, ApfsError>(error),
    decreases all,
{
    if some < all {
        lemma_child_error(layout, node, some, (all - 1) as nat, error);
    }
}

/// Reads the block address of the child in a non-leaf entry.
fn read_child(layout: &TreeLayout, entry: &Entry<'_>) -> (child: Result<u64, ApfsError>)
    ensures
        child == child_in(*layout, entry@),
{
    match entry.value {
        None => Err(
            ApfsError::Malformed { structure: layout.structure, reason: layout.no_child },
        ),
        Some(value) => {
            if value.len() < btree::CHILD_LINK_SIZE {
                return Err(
                    ApfsError::Malformed {
                        structure: layout.structure,
                        reason: layout.short_child,
                    },
                );
            }
            Ok(bytes::read_u64(value, 0))
        },
    }
}

/// Appends the children of a non-leaf node to `pending`.
fn push_children(layout: &TreeLayout, node: &BtreeNode, pending: &mut Vec<u64>) -> (done: Result<
    (),
    ApfsError,
>)
    ensures
        match done {
            Ok(()) => children(*layout, node@, btree::node_key_count(node@) as nat) matches Ok(
                read,
            ) && final(pending)@ == old(pending)@ + read,
            Err(error) => children(*layout, node@, btree::node_key_count(node@) as nat) == Err::<
                Seq<u64>,
                ApfsError,
            >(error),
        },
{
    let count: u32 = node.key_count();
    let mut i: u32 = 0;
    assert(old(pending)@ + Seq::<u64>::empty() =~= old(pending)@);
    while i < count
        invariant
            i <= count,
            count == btree::node_key_count(node@),
            children(*layout, node@, i as nat) matches Ok(read) && pending@ == old(pending)@
                + read,
        decreases count - i,
    {
        let ghost before = children(*layout, node@, i as nat)->Ok_0;
        let entry: Entry<'_> = match node.entry(i, layout.key_len, btree::CHILD_LINK_SIZE) {
            Ok(entry) => entry,
            Err(error) => {
                proof {
                    lemma_child_error(*layout, node@, (i + 1) as nat, count as nat, error);
                }
                return Err(error);
            },
        };
        match read_child(layout, &entry) {
            Ok(child) => {
                pending.push(child);
                assert(old(pending)@ + before.push(child) =~= (old(pending)@ + before).push(child));
            },
            Err(error) => {
                proof {
                    lemma_child_error(*layout, node@, (i + 1) as nat, count as nat, error);
                }
                return Err(error);
            },
        }
        i += 1;
    }
    Ok(())
}

/// Reads the node in block `addr`, whose checksum must be valid.
pub fn read_checked_node<R: Reader>(reader: &mut R, block_size: u32, addr: u64) -> (node: Result<
    BtreeNode,
    ApfsError,
>)
    ensures
        final(reader).device() == old(reader).device(),
        error::viewed(node) == checked_node(old(reader).device(), block_size, addr),
{
    let block: Vec<u8> = match checkpoint::read_block(reader, block_size, addr) {
        Ok(block) => block,
        Err(error) => return Err(error),
    };
    if !checksum::verify_block(block.as_slice()) {
        return Err(ApfsError::ChecksumMismatch { block: addr });
    }
    BtreeNode::parse(block)
}

/// Collects every record of the tree with its root in block `root`.
pub fn collect_records<A: TreeRecord, R: Reader>(reader: &mut R, block_size: u32, root: u64) -> (
collected: Result<Vec<A>, ApfsError>)
    ensures
        final(reader).device() == old(reader).device(),
        match collected {
            Ok(records) => tree_records::<A>(old(reader).device(), block_size, root) == Ok::<
                Seq<A>,
                ApfsError,
            >(records@),
            Err(error) => tree_records::<A>(old(reader).device(), block_size, root) == Err::<
                Seq<A>,
                ApfsError,
            >(error),
        },
{
    let layout: TreeLayout = A::layout();
    let ghost device = reader.device();
    let ghost goal = tree_records::<A>(device, block_size, root);
    proof {
        reveal(tree_records);
    }
    let mut records: Vec<A> = Vec::new();
    let mut pending: Vec<u64> = Vec::new();
    pending.push(root);
    let mut left: u32 = layout.max_nodes;
    proof {
        assert(pending@ =~= seq![root]);
        if let Ok(rest) = goal {
            assert(records@ + rest =~= rest);
        }
    }
    while pending.len() > 0
        invariant
            layout == A::spec_layout(),
            device == old(reader).device(),
            reader.device() == device,
            goal == tree_records::<A>(device, block_size, root),
            match records_below::<A>(device, block_size, pending@, left as nat) {
                Err(error) => goal == Err::<Seq<A>, ApfsError>(error),
                Ok(rest) => goal == Ok::<Seq<A>, ApfsError>(records@ + rest),
            },
        decreases left,
    {
        if left == 0 {
            return Err(
                ApfsError::Malformed {
                    structure: layout.structure,
                    reason: "tree has too many nodes — corrupt or cyclic",
                },
            );
        }
        let ghost waiting = pending@;
        let ghost found = records@;
        let addr: u64 = pending[pending.len() - 1];
        pending.pop();
        assert(pending@ =~= waiting.drop_last());
        let node: BtreeNode = match read_checked_node(reader, block_size, addr) {
            Ok(node) => node,
            Err(error) => return Err(error),
        };
        if node.is_leaf() {
            match push_leaf_records::<A>(&node, &mut records) {
                Ok(()) => {},
                Err(error) => return Err(error),
            }
            proof {
                let read = leaf_records::<A>(node@, btree::node_key_count(node@) as nat)->Ok_0;
                if let Ok(rest) = records_below::<A>(
                    device,
                    block_size,
                    pending@,
                    (left - 1) as nat,
                ) {
                    assert(found + (read + rest) =~= (found + read) + rest);
                }
            }
        } else {
            match push_children(&layout, &node, &mut pending) {
                Ok(()) => {},
                Err(error) => return Err(error),
            }
        }
        left = left - 1;
    }
    assert(records@ + Seq::<A>::empty() =~= records@);
    Ok(records)
}

/// Whether addresses lead down a tree: each is a node that is no leaf and has the next among
/// its children, and the last is a leaf.
pub open spec fn leads_to_leaf<A: TreeRecord>(
    device: Device,
    block_size: u32,
    path: Seq<u64>,
    leaf: Seq<u8>,
) -> bool
    decreases path.len(),
{
    &&& path.len() > 0
    &&& checked_node(device, block_size, path[0]) matches Ok(node) && if path.len() == 1 {
        btree::node_is_leaf(node) && node == leaf
    } else {
        &&& !btree::node_is_leaf(node)
        &&& exists|index: u32|
            index < btree::node_key_count(node) && #[trigger] is_child(
                device,
                block_size,
                A::spec_layout(),
                node,
                index,
                path[1],
            )
        &&& leads_to_leaf::<A>(device, block_size, path.drop_first(), leaf)
    }
}

/// Whether the entry at an index of a node links to a child: the first eight bytes of its
/// value are the child's address.
pub open spec fn is_child(
    device: Device,
    block_size: u32,
    layout: TreeLayout,
    node: Seq<u8>,
    index: u32,
    child: u64,
) -> bool {
    btree::entry_of(node, index, layout.key_len, 8) matches Ok(entry) && (entry.value matches Some(
        value,
    ) && value.len() >= 8 && bytes::le_u64(value, 0) == child)
}

proof fn lemma_children_has(layout: TreeLayout, node: Seq<u8>, count: nat, index: u32, child: u64)
    requires
        count <= u32::MAX,
        children(layout, node, count) is Ok,
        index < count,
        btree::entry_of(node, index, layout.key_len, 8) matches Ok(entry) && (
        entry.value matches Some(value) && value.len() >= 8 && bytes::le_u64(value, 0) == child),
    ensures
        children(layout, node, count)->Ok_0.contains(child),
    decreases count,
{
    let now = children(layout, node, count)->Ok_0;
    let last = (count - 1) as nat;
    let before = children(layout, node, last)->Ok_0;
    if index < last {
        lemma_children_has(layout, node, last, index, child);
        let k = before.index_of(child);
        assert(now[k] == child);
    } else {
        assert(now.last() == child);
    }
}

proof fn lemma_leaf_has<A: TreeRecord>(leaf: Seq<u8>, count: nat, index: u32)
    requires
        count <= u32::MAX,
        leaf_records::<A>(leaf, count) is Ok,
        index < count,
    ensures
        ({
            let layout = A::spec_layout();
            btree::entry_of(leaf, index, layout.key_len, layout.val_len) matches Ok(entry) && (
            A::record_of(entry) matches Ok(record) && leaf_records::<A>(
                leaf,
                count,
            )->Ok_0.contains(record))
        }),
    decreases count,
{
    let now = leaf_records::<A>(leaf, count)->Ok_0;
    let last = (count - 1) as nat;
    let before = leaf_records::<A>(leaf, last)->Ok_0;
    let layout = A::spec_layout();
    if index < last {
        lemma_leaf_has::<A>(leaf, last, index);
        let entry = btree::entry_of(leaf, index, layout.key_len, layout.val_len)->Ok_0;
        let record = A::record_of(entry)->Ok_0;
        let k = before.index_of(record);
        assert(now[k] == record);
    } else {
        let entry = btree::entry_of(leaf, index, layout.key_len, layout.val_len)->Ok_0;
        assert(now.last() == A::record_of(entry)->Ok_0);
    }
}

proof fn lemma_records_below_has<A: TreeRecord>(
    device: Device,
    block_size: u32,
    pending: Seq<u64>,
    nodes: nat,
    at: int,
    path: Seq<u64>,
    leaf: Seq<u8>,
    index: u32,
)
    requires
        records_below::<A>(device, block_size, pending, nodes) is Ok,
        0 <= at < pending.len(),
        leads_to_leaf::<A>(device, block_size, path, leaf),
        path[0] == pending[at],
        index < btree::node_key_count(leaf),
    ensures
        ({
            let layout = A::spec_layout();
            btree::entry_of(leaf, index, layout.key_len, layout.val_len) matches Ok(entry) && (
            A::record_of(entry) matches Ok(record) && records_below::<A>(
                device,
                block_size,
                pending,
                nodes,
            )->Ok_0.contains(record))
        }),
    decreases nodes,
{
    let layout = A::spec_layout();
    let all = records_below::<A>(device, block_size, pending, nodes)->Ok_0;
    let node = checked_node(device, block_size, pending.last())->Ok_0;
    let count = btree::node_key_count(node) as nat;
    let left = (nodes - 1) as nat;
    let others = pending.drop_last();
    if btree::node_is_leaf(node) {
        let own = leaf_records::<A>(node, count)->Ok_0;
        let rest = records_below::<A>(device, block_size, others, left)->Ok_0;
        if at < others.len() {
            lemma_records_below_has::<A>(device, block_size, others, left, at, path, leaf, index);
            let entry = btree::entry_of(leaf, index, layout.key_len, layout.val_len)->Ok_0;
            let record = A::record_of(entry)->Ok_0;
            let k = rest.index_of(record);
            assert(all[own.len() + k] == record);
        } else {
            assert(path.len() == 1 && node == leaf);
            lemma_leaf_has::<A>(leaf, count, index);
            let entry = btree::entry_of(leaf, index, layout.key_len, layout.val_len)->Ok_0;
            let record = A::record_of(entry)->Ok_0;
            let k = own.index_of(record);
            assert(all[k] == record);
        }
    } else {
        let below = children(layout, node, count)->Ok_0;
        let next = others + below;
        if at < others.len() {
            assert(next[at] == pending[at]);
            lemma_records_below_has::<A>(device, block_size, next, left, at, path, leaf, index);
        } else {
            let link = choose|link: u32|
                link < btree::node_key_count(node) && #[trigger] is_child(
                    device,
                    block_size,
                    layout,
                    node,
                    link,
                    path[1],
                );
            lemma_children_has(layout, node, count, link, path[1]);
            let k = below.index_of(path[1]);
            assert(next[others.len() + k] == path[1]);
            lemma_records_below_has::<A>(
                device,
                block_size,
                next,
                left,
                others.len() + k,
                path.drop_first(),
                leaf,
                index,
            );
        }
    }
}

/// The records of a tree are complete: every entry of every leaf that links lead to from the
/// root gives one of them.
pub proof fn law_no_leaf_entry_is_missed<A: TreeRecord>(
    device: Device,
    block_size: u32,
    root: u64,
    path: Seq<u64>,
    leaf: Seq<u8>,
    index: u32,
)
    requires
        tree_records::<A>(device, block_size, root) is Ok,
        leads_to_leaf::<A>(device, block_size, path, leaf),
        path[0] == root,
        index < btree::node_key_count(leaf),
    ensures
        ({
            let layout = A::spec_layout();
            btree::entry_of(leaf, index, layout.key_len, layout.val_len) matches Ok(entry) && (
            A::record_of(entry) matches Ok(record) && tree_records::<A>(
                device,
                block_size,
                root,
            )->Ok_0.contains(record))
        }),
{
    reveal(tree_records);
    lemma_records_below_has::<A>(
        device,
        block_size,
        seq![root],
        A::spec_layout().max_nodes as nat,
        0,
        path,
        leaf,
        index,
    );
}

/// Whether a record is the one in the entry at an index of a leaf.
pub open spec fn is_record_at<A: TreeRecord>(leaf: Seq<u8>, index: int, record: A) -> bool {
    let layout = A::spec_layout();
    let entry = btree::entry_of(leaf, index as u32, layout.key_len, layout.val_len);
    entry is Ok && A::record_of(entry->Ok_0) == Ok::<A, ApfsError>(record)
}

/// The records of a tree whose root is a leaf are those of its entries, in their order.
pub proof fn law_records_of_a_leaf<A: TreeRecord>(
    device: Device,
    block_size: u32,
    root: u64,
    leaf: Seq<u8>,
)
    requires
        A::spec_layout().max_nodes > 0,
        checked_node(device, block_size, root) == Ok::<Seq<u8>, ApfsError>(leaf),
        btree::node_is_leaf(leaf),
        tree_records::<A>(device, block_size, root) is Ok,
    ensures
        ({
            let records = tree_records::<A>(device, block_size, root)->Ok_0;
            &&& records.len() == btree::node_key_count(leaf)
            &&& forall|i: int|
                0 <= i < records.len() ==> #[trigger] is_record_at::<A>(leaf, i, records[i])
        }),
{
    reveal(tree_records);
    let count = btree::node_key_count(leaf) as nat;
    assert(seq![root].last() == root);
    assert(seq![root].drop_last() =~= Seq::<u64>::empty());
    lemma_leaf_in_order::<A>(leaf, count);
    let own = leaf_records::<A>(leaf, count)->Ok_0;
    let left = (A::spec_layout().max_nodes - 1) as nat;
    assert(records_below::<A>(device, block_size, Seq::empty(), left) == Ok::<Seq<A>, ApfsError>(
        Seq::empty(),
    ));
    assert(own + Seq::<A>::empty() =~= own);
}

proof fn lemma_leaf_in_order<A: TreeRecord>(leaf: Seq<u8>, count: nat)
    requires
        count <= u32::MAX,
        leaf_records::<A>(leaf, count) is Ok,
    ensures
        leaf_records::<A>(leaf, count)->Ok_0.len() == count,
        forall|i: int|
            0 <= i < count ==> #[trigger] is_record_at::<A>(
                leaf,
                i,
                leaf_records::<A>(leaf, count)->Ok_0[i],
            ),
    decreases count,
{
    if count > 0 {
        let last = (count - 1) as nat;
        lemma_leaf_in_order::<A>(leaf, last);
        let before = leaf_records::<A>(leaf, last)->Ok_0;
        let now = leaf_records::<A>(leaf, count)->Ok_0;
        assert forall|i: int| 0 <= i < count implies #[trigger] is_record_at::<A>(
            leaf,
            i,
            now[i],
        ) by {
            if i < last {
                assert(is_record_at::<A>(leaf, i, before[i]));
                assert(now[i] == before[i]);
            }
        }
    }
}

/// A node of such a tree is the block at its address, and only a block with a valid checksum
/// is taken for one.
pub proof fn law_nodes_are_checked(device: Device, block_size: u32, addr: u64)
    ensures
        checked_node(device, block_size, addr) matches Ok(node) ==> checkpoint::block_at(
            device,
            block_size,
            addr,
        ) == Ok::<Seq<u8>, ApfsError>(node) && checksum::is_valid_block(node),
        checkpoint::block_at(device, block_size, addr) matches Ok(block) && !checksum::is_valid_block(
            block,
        ) ==> checked_node(device, block_size, addr) == Err::<Seq<u8>, ApfsError>(
            ApfsError::ChecksumMismatch { block: addr },
        ),
{
}

/// The records of a tree whose root is a whole leaf are given wherever each entry of the leaf
/// holds a record.
pub proof fn law_records_of_a_leaf_are_given<A: TreeRecord>(
    device: Device,
    block_size: u32,
    root: u64,
    leaf: Seq<u8>,
)
    requires
        A::spec_layout().max_nodes > 0,
        checked_node(device, block_size, root) == Ok::<Seq<u8>, ApfsError>(leaf),
        btree::node_is_leaf(leaf),
        forall|i: u32|
            i < btree::node_key_count(leaf) ==> (#[trigger] btree::entry_of(
                leaf,
                i,
                A::spec_layout().key_len,
                A::spec_layout().val_len,
            ) matches Ok(entry) && A::record_of(entry) is Ok),
    ensures
        tree_records::<A>(device, block_size, root) is Ok,
{
    reveal(tree_records);
    assert(seq![root].last() == root);
    assert(seq![root].drop_last() =~= Seq::<u64>::empty());
    lemma_leaf_is_given::<A>(leaf, btree::node_key_count(leaf) as nat);
    let left = (A::spec_layout().max_nodes - 1) as nat;
    assert(records_below::<A>(device, block_size, Seq::empty(), left) is Ok);
}

proof fn lemma_leaf_is_given<A: TreeRecord>(leaf: Seq<u8>, count: nat)
    requires
        count <= btree::node_key_count(leaf),
        forall|i: u32|
            i < btree::node_key_count(leaf) ==> (#[trigger] btree::entry_of(
                leaf,
                i,
                A::spec_layout().key_len,
                A::spec_layout().val_len,
            ) matches Ok(entry) && A::record_of(entry) is Ok),
    ensures
        leaf_records::<A>(leaf, count) is Ok,
    decreases count,
{
    if count > 0 {
        lemma_leaf_is_given::<A>(leaf, (count - 1) as nat);
        assert(btree::entry_of(
            leaf,
            (count - 1) as u32,
            A::spec_layout().key_len,
            A::spec_layout().val_len,
        ) is Ok);
    }
}

} // verus!
