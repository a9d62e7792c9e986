//! Agreement of catalog lookups and catalog walks.
//!
//! A lookup descends to one leaf, and a walk for an object visits the subtrees
//! that can hold its records. In a catalog that is in order both see the same
//! records.

use vstd::prelude::*;

use crate::btree;
use crate::btree::{BtnodeFlags, BtreeInfo, EntryView};
use crate::catalog;
use crate::catalog::{Catalog, JKey, JObjType, RecordView, Selection, Step, Stream};
use crate::error::ApfsError;
use crate::io::Device;
use crate::pruning;
use crate::search::Tree;

verus! {

/// The record in a leaf entry whose key has a header.
pub open spec fn record_of(entry: EntryView) -> RecordView {
    pruning::record_in(catalog::header_of(entry.key)->Ok_0, entry)
}

/// The records in leaf entries whose keys have headers.
pub open spec fn records_in(entries: Seq<EntryView>) -> Seq<RecordView> {
    entries.map_values(|entry: EntryView| record_of(entry))
}

/// Whether the nodes of a tree store the sizes of their keys and values.
pub open spec fn stores_sizes(tree: Tree, node: Seq<u8>, depth: nat) -> bool
    decreases depth,
{
    &&& !btree::node_flags(node).has(BtnodeFlags::FIXED_KV_SIZE)
    &&& btree::node_is_leaf(node) || depth == 0 || forall|i: int|
        0 <= i < btree::node_key_count(node) ==> stores_sizes(
            tree,
            #[trigger] tree.child(node, i),
            (depth - 1) as nat,
        )
}

/// Whether in every non-leaf node of a tree the first separator is not behind
/// the keys of the first child.
pub open spec fn starts_at_separators(tree: Tree, node: Seq<u8>, depth: nat) -> bool
    decreases depth,
{
    btree::node_is_leaf(node) || depth == 0 || {
        &&& forall|k: int|
            0 <= k < tree.child_entries(node, 0, depth).len() ==> tree.le(
                tree.separator(node, 0).key,
                (#[trigger] tree.child_entries(node, 0, depth)[k]).key,
            )
        &&& forall|i: int|
            0 <= i < btree::node_key_count(node) ==> starts_at_separators(
                tree,
                #[trigger] tree.child(node, i),
                (depth - 1) as nat,
            )
    }
}

/// Whether the keys of a tree are ordered by their headers.
pub open spec fn is_by_header(tree: Tree) -> bool {
    &&& forall|key: Seq<u8>| #[trigger] (tree.valid)(key) <==> catalog::header_of(key) is Ok
    &&& forall|a: Seq<u8>, b: Seq<u8>| #[trigger]
        tree.le(a, b) <==> catalog::header_le(
            catalog::header_of(a)->Ok_0,
            catalog::header_of(b)->Ok_0,
        )
}

/// In a node that stores sizes, an entry does not depend on the sizes assumed.
proof fn lemma_same_entry(node: Seq<u8>, index: u32, key_len: usize, val_len: usize)
    requires
        !btree::node_flags(node).has(BtnodeFlags::FIXED_KV_SIZE),
    ensures
        btree::entry_of(node, index, key_len, val_len) == btree::entry_of(node, index, 0, 0),
{
}

/// A walk and a search go from an entry to the same child.
proof fn lemma_same_child(tree: Tree, node: Seq<u8>, index: u32)
    requires
        !btree::node_flags(node).has(BtnodeFlags::FIXED_KV_SIZE),
        tree.leads_to_children(node),
        index < btree::node_key_count(node),
    ensures
        btree::entry_of(node, index, 0, 0) == Ok::<EntryView, ApfsError>(
            tree.separator(node, index as int),
        ),
        catalog::enter(tree.separator(node, index as int)) matches Step::Enter(oid) && (tree.nodes)(
            oid,
        ) == Ok::<Seq<u8>, ApfsError>(tree.child(node, index as int)),
        pruning::child_at(tree.nodes, node, index) == tree.child(node, index as int),
        (tree.valid)(tree.separator(node, index as int).key),
{
    lemma_same_entry(node, index, tree.key_len, btree::CHILD_LINK_SIZE);
    assert(btree::entry_of(node, index, tree.key_len, btree::CHILD_LINK_SIZE) is Ok);
    let entry = tree.separator(node, index as int);
    assert(btree::link_in(entry) is Ok);
}

proof fn lemma_leaf_records(tree: Tree, leaf: Seq<u8>, levels: nat, index: u32)
    requires
        is_by_header(tree),
        btree::node_is_leaf(leaf),
        tree.is_ordered_leaf(leaf),
        !btree::node_flags(leaf).has(BtnodeFlags::FIXED_KV_SIZE),
        levels > 0,
        index <= btree::node_key_count(leaf),
    ensures
        pruning::whole_entries(tree.nodes, leaf, levels, index) == (Stream {
            records: records_in(tree.entries(leaf, 0).skip(index as int)),
            end: None,
        }),
    decreases btree::node_key_count(leaf) - index,
{
    let entries = tree.entries(leaf, 0);
    let rest = entries.skip(index as int);
    if index == btree::node_key_count(leaf) {
        assert(records_in(rest) =~= Seq::empty());
    } else {
        let next = (index + 1) as u32;
        lemma_same_entry(leaf, index, tree.key_len, tree.val_len);
        assert(btree::entry_of(leaf, index, tree.key_len, tree.val_len) is Ok);
        let entry = tree.leaf_entry(leaf, index as int);
        assert((tree.valid)(entry.key));
        lemma_leaf_records(tree, leaf, levels, next);
        assert(seq![record_of(entry)] + records_in(entries.skip(next as int)) =~= records_in(rest));
    }
}

proof fn lemma_node_records(tree: Tree, node: Seq<u8>, depth: nat, levels: nat)
    requires
        is_by_header(tree),
        tree.is_ordered(node, depth),
        stores_sizes(tree, node, depth),
        levels > depth,
    ensures
        pruning::whole_node(tree.nodes, node, levels) == (Stream {
            records: records_in(tree.entries(node, depth)),
            end: None,
        }),
    decreases depth, 2 + btree::node_key_count(node),
{
    if btree::node_is_leaf(node) {
        lemma_leaf_records(tree, node, levels, 0);
        assert(tree.entries(node, 0).skip(0) =~= tree.entries(node, 0));
        assert(tree.entries(node, 0) == tree.entries(node, depth));
    } else {
        lemma_child_records(tree, node, depth, levels, 0);
        let walk = pruning::whole_entries(tree.nodes, node, levels, 0);
        assert(records_in(tree.first_entries(node, depth, 0)) =~= Seq::empty());
        assert(Seq::<RecordView>::empty() + walk.records =~= walk.records);
    }
}

proof fn lemma_child_records(tree: Tree, node: Seq<u8>, depth: nat, levels: nat, index: u32)
    requires
        is_by_header(tree),
        !btree::node_is_leaf(node),
        tree.is_ordered(node, depth),
        stores_sizes(tree, node, depth),
        levels > depth,
        index <= btree::node_key_count(node),
    ensures
        ({
            let walk = pruning::whole_entries(tree.nodes, node, levels, index);
            &&& walk.end is None
            &&& records_in(tree.first_entries(node, depth, index as nat)) + walk.records
                == records_in(tree.entries(node, depth))
        }),
    decreases depth, 1 + btree::node_key_count(node) - index,
{
    let before = tree.first_entries(node, depth, index as nat);
    let walk = pruning::whole_entries(tree.nodes, node, levels, index);
    if index == btree::node_key_count(node) {
        assert(records_in(before) + Seq::<RecordView>::empty() =~= records_in(before));
    } else {
        let next = (index + 1) as u32;
        let child = tree.child(node, index as int);
        let under = (depth - 1) as nat;
        lemma_same_child(tree, node, index);
        assert(tree.is_ordered(child, under));
        assert(stores_sizes(tree, child, under));
        lemma_node_records(tree, child, under, (levels - 1) as nat);
        lemma_child_records(tree, node, depth, levels, next);
        let below = tree.entries(child, under);
        let rest = pruning::whole_entries(tree.nodes, node, levels, next);
        assert(tree.first_entries(node, depth, next as nat) == before + below);
        assert(walk.records == records_in(below) + rest.records);
        assert(records_in(before + below) =~= records_in(before) + records_in(below));
        assert(records_in(before) + walk.records =~= records_in(before + below) + rest.records);
    }
}

/// The separators of a tree in order tell its objects apart, so that a walk for
/// one object may skip what they rule out.
pub proof fn law_ordered_tree_is_separated(tree: Tree, node: Seq<u8>, depth: nat, levels: nat)
    requires
        is_by_header(tree),
        tree.is_ordered(node, depth),
        stores_sizes(tree, node, depth),
        starts_at_separators(tree, node, depth),
        levels > depth,
    ensures
        pruning::is_separated(tree.nodes, node, levels),
    decreases depth,
{
    if !btree::node_is_leaf(node) {
        let nodes = tree.nodes;
        let count = btree::node_key_count(node);
        let under = (levels - 1) as nat;
        let less = (depth - 1) as nat;
        assert forall|i: u32| i < count implies {
            let walk = pruning::whole_node(nodes, #[trigger] pruning::child_at(nodes, node, i), under);
            &&& pruning::is_separated(nodes, pruning::child_at(nodes, node, i), under)
            &&& walk.records == records_in(tree.child_entries(node, i as int, depth))
            &&& catalog::header_of(tree.separator(node, i as int).key) is Ok
            &&& btree::entry_of(node, i, 0, 0) == Ok::<EntryView, ApfsError>(
                tree.separator(node, i as int),
            )
        } by {
            lemma_same_child(tree, node, i);
            let child = tree.child(node, i as int);
            assert(tree.is_ordered(child, less));
            assert(stores_sizes(tree, child, less));
            assert(starts_at_separators(tree, child, less));
            law_ordered_tree_is_separated(tree, child, less, under);
            lemma_node_records(tree, child, less, under);
        }
        assert forall|i: u32| i < count implies catalog::header_of(
            (#[trigger] btree::entry_of(node, i, 0, 0))->Ok_0.key,
        ) is Ok by {
            lemma_same_child(tree, node, i);
        }
        assert forall|i: u32, j: u32| i < j < count implies #[trigger] pruning::separator_object(
            node,
            i,
        ) <= #[trigger] pruning::separator_object(node, j) by {
            lemma_same_child(tree, node, i);
            lemma_same_child(tree, node, j);
            assert(tree.le(
                tree.separator(node, i as int).key,
                tree.separator(node, j as int).key,
            ));
        }
        assert forall|i: u32, k: int|
            #![trigger pruning::whole_node(nodes, pruning::child_at(nodes, node, i), under).records[k]]
            i < count && 0 <= k < pruning::whole_node(
                nodes,
                pruning::child_at(nodes, node, i),
                under,
            ).records.len() implies pruning::separator_object(node, i) <= pruning::whole_node(
            nodes,
            pruning::child_at(nodes, node, i),
            under,
        ).records[k].key_header.obj_id by {
            let below = tree.child_entries(node, i as int, depth);
            let separator = tree.separator(node, i as int).key;
            if i == 0 {
                assert(tree.le(separator, below[k].key));
            } else {
                assert(tree.has_total_order());
                assert(tree.is_ordered(tree.child(node, i as int), less));
                tree.law_entries_are_in_order(tree.child(node, i as int), less);
                assert(tree.le(separator, below[0].key));
                if k > 0 {
                    assert(tree.le(below[0].key, below[k].key));
                }
            }
        }
        assert forall|i: u32, j: u32, k: int|
            #![trigger pruning::separator_object(node, j), pruning::whole_node(nodes, pruning::child_at(nodes, node, i), under).records[k]]
            i < j < count && 0 <= k < pruning::whole_node(
                nodes,
                pruning::child_at(nodes, node, i),
                under,
            ).records.len() implies pruning::whole_node(
            nodes,
            pruning::child_at(nodes, node, i),
            under,
        ).records[k].key_header.obj_id <= pruning::separator_object(node, j) by {
            lemma_same_child(tree, node, j);
            let below = tree.child_entries(node, i as int, depth);
            assert(tree.le(below[k].key, tree.separator(node, j as int).key));
        }
    }
}

/// The records of an object among those in leaf entries.
spec fn object_records(entries: Seq<EntryView>, obj_id: u64) -> Seq<RecordView> {
    records_in(entries).filter(
        |record: RecordView| Selection::Object(obj_id).selects(record.key_header),
    )
}

/// An entry of an object's record of a type gives such a record.
proof fn lemma_record_of_entry(entries: Seq<EntryView>, header: JKey, at: int) -> (i: int)
    requires
        0 <= at < entries.len(),
        catalog::header_of(entries[at].key) == Ok::<JKey, ApfsError>(header),
    ensures
        0 <= i < object_records(entries, header.obj_id).len(),
        object_records(entries, header.obj_id)[i].key_header == header,
        object_records(entries, header.obj_id)[i].value == catalog::value_or_empty(entries[at]),
{
    let selects = |record: RecordView|
        Selection::Object(header.obj_id).selects(record.key_header);
    let whole = records_in(entries);
    let records = object_records(entries, header.obj_id);
    assert(whole[at] == record_of(entries[at]));
    assert(selects(whole[at]));
    whole.lemma_filter_contains(selects, at);
    let i = records.index_of(whole[at]);
    assert(records[i] == whole[at]);
    i
}

/// An object's record of a type comes from an entry of such a record.
proof fn lemma_entry_of_record(entries: Seq<EntryView>, header: JKey, i: int) -> (at: int)
    requires
        forall|k: int|
            0 <= k < entries.len() ==> catalog::header_of((#[trigger] entries[k]).key) is Ok,
        0 <= i < object_records(entries, header.obj_id).len(),
        object_records(entries, header.obj_id)[i].key_header.kind == header.kind,
    ensures
        0 <= at < entries.len(),
        catalog::header_of(entries[at].key) == Ok::<JKey, ApfsError>(header),
{
    let selects = |record: RecordView|
        Selection::Object(header.obj_id).selects(record.key_header);
    let whole = records_in(entries);
    let records = object_records(entries, header.obj_id);
    whole.lemma_filter_pred(selects, i);
    assert(selects(records[i]));
    assert(records.contains(records[i]));
    whole.lemma_filter_contains_rev(selects, records[i]);
    let at = whole.index_of(records[i]);
    assert(whole[at] == record_of(entries[at]));
    at
}

/// What the walk for an object meets in a tree in order.
proof fn lemma_object_records(tree: Tree, root: Seq<u8>, depth: nat, levels: nat, obj_id: u64)
    requires
        is_by_header(tree),
        tree.is_ordered(root, depth),
        stores_sizes(tree, root, depth),
        starts_at_separators(tree, root, depth),
        levels > depth,
    ensures
        catalog::walk_node(tree.nodes, root, Selection::Object(obj_id), levels) == (Stream {
            records: object_records(tree.entries(root, depth), obj_id),
            end: None,
        }),
        forall|k: int|
            0 <= k < tree.entries(root, depth).len() ==> catalog::header_of(
                (#[trigger] tree.entries(root, depth)[k]).key,
            ) is Ok,
{
    lemma_node_records(tree, root, depth, levels);
    law_ordered_tree_is_separated(tree, root, depth, levels);
    pruning::law_object_walk_misses_no_record(tree.nodes, root, obj_id, levels);
    assert(tree.has_total_order());
    tree.law_entries_are_in_order(root, depth);
    let all = tree.entries(root, depth);
    assert forall|k: int| 0 <= k < all.len() implies catalog::header_of(
        (#[trigger] all[k]).key,
    ) is Ok by {
        assert((tree.valid)(all[k].key));
    }
}

/// A catalog is ordered by the headers of its keys.
proof fn lemma_catalog_is_by_header(device: Device, catalog: Catalog, info: BtreeInfo)
    ensures
        is_by_header(catalog::catalog_tree(device, catalog, info)),
{
}

/// The walk for one object gives exactly the object's records of the walk that
/// meets every record of the catalog, in the same order.
///
/// This holds of a catalog in order whose nodes store the sizes of their entries
/// and that is not too deep to walk.
pub proof fn law_object_walk_gives_the_object_records(
    device: Device,
    catalog: Catalog,
    obj_id: u64,
    root: Seq<u8>,
    info: BtreeInfo,
    depth: nat,
)
    requires
        catalog::catalog_node(device, catalog, catalog.root_oid.0) == Ok::<Seq<u8>, ApfsError>(
            root,
        ),
        depth < catalog::MAX_CATALOG_DEPTH,
        catalog::catalog_tree(device, catalog, info).is_ordered(root, depth),
        stores_sizes(catalog::catalog_tree(device, catalog, info), root, depth),
        starts_at_separators(catalog::catalog_tree(device, catalog, info), root, depth),
    ensures
        ({
            let whole = pruning::whole_node(
                catalog::catalog_nodes(device, catalog),
                root,
                catalog::MAX_CATALOG_DEPTH as nat,
            );
            &&& whole.end is None
            &&& whole.records == records_in(
                catalog::catalog_tree(device, catalog, info).entries(root, depth),
            )
            &&& catalog::catalog_records(device, catalog, Selection::Object(obj_id)) == Ok::<
                Seq<RecordView>,
                ApfsError,
            >(pruning::kept(whole, Selection::Object(obj_id)).records)
        }),
{
    let tree = catalog::catalog_tree(device, catalog, info);
    let levels = catalog::MAX_CATALOG_DEPTH as nat;
    lemma_catalog_is_by_header(device, catalog, info);
    lemma_node_records(tree, root, depth, levels);
    lemma_object_records(tree, root, depth, levels, obj_id);
    reveal(catalog::catalog_walk);
    assert(tree.nodes == catalog::catalog_nodes(device, catalog));
}

/// Whether the value that a lookup found agrees with the records of an object: it
/// is that of a record of the type, there is none exactly where there is no such
/// record, and where there is at most one it is the value of that one.
pub open spec fn agrees(found: Option<Seq<u8>>, records: Seq<RecordView>, kind: JObjType) -> bool {
    &&& found matches Some(value) ==> is_value_of(value, records, kind)
    &&& found is None <==> forall|i: int|
        0 <= i < records.len() ==> (#[trigger] records[i]).key_header.kind != kind
    &&& has_one(records, kind) ==> forall|value: Seq<u8>| #[trigger]
        is_value_of(value, records, kind) <==> found == Some(value)
}

/// Whether at most one of the records is of a type.
pub open spec fn has_one(records: Seq<RecordView>, kind: JObjType) -> bool {
    forall|i: int, j: int|
        0 <= i < records.len() && 0 <= j < records.len() && (
        #[trigger] records[i]).key_header.kind == kind && (#[trigger] records[j]).key_header.kind
            == kind ==> i == j
}

/// Whether a record of a type has the given value.
pub open spec fn is_value_of(value: Seq<u8>, records: Seq<RecordView>, kind: JObjType) -> bool {
    exists|i: int|
        0 <= i < records.len() && (#[trigger] records[i]).key_header.kind == kind
            && records[i].value == value
}

/// Whether every entry of an object's record of a type has a value.
pub open spec fn has_values(entries: Seq<EntryView>, header: JKey) -> bool {
    forall|at: int|
        0 <= at < entries.len() && catalog::header_of((#[trigger] entries[at]).key) == Ok::<
            JKey,
            ApfsError,
        >(header) ==> entries[at].value is Some
}

proof fn lemma_agrees(entries: Seq<EntryView>, header: JKey, found: Option<Seq<u8>>)
    requires
        forall|k: int|
            0 <= k < entries.len() ==> catalog::header_of((#[trigger] entries[k]).key) is Ok,
        has_values(entries, header),
        (exists|at: int|
            0 <= at < entries.len() && catalog::header_of((#[trigger] entries[at]).key) == Ok::<
                JKey,
                ApfsError,
            >(header) && found == entries[at].value) || (found is None && forall|at: int|
            0 <= at < entries.len() ==> catalog::header_of((#[trigger] entries[at]).key) != Ok::<
                JKey,
                ApfsError,
            >(header)),
    ensures
        agrees(found, object_records(entries, header.obj_id), header.kind),
{
    let records = object_records(entries, header.obj_id);
    if exists|at: int|
        0 <= at < entries.len() && catalog::header_of((#[trigger] entries[at]).key) == Ok::<
            JKey,
            ApfsError,
        >(header) && found == entries[at].value {
        let at = choose|at: int|
            0 <= at < entries.len() && catalog::header_of((#[trigger] entries[at]).key) == Ok::<
                JKey,
                ApfsError,
            >(header) && found == entries[at].value;
        let i = lemma_record_of_entry(entries, header, at);
        assert(records[i].key_header.kind == header.kind);
        assert(found == Some(records[i].value));
        assert(is_value_of(records[i].value, records, header.kind));
    } else {
        assert forall|i: int| 0 <= i < records.len() implies (
        #[trigger] records[i]).key_header.kind != header.kind by {
            if records[i].key_header.kind == header.kind {
                let at = lemma_entry_of_record(entries, header, i);
                assert(catalog::header_of(entries[at].key) == Ok::<JKey, ApfsError>(header));
            }
        }
    }
}

/// Looking up an object's record of a type and walking the object's records
/// agree: both succeed, the lookup finds the value of a record of that type that
/// the walk meets, and finds none exactly where the walk meets none. If the
/// object has one such record, the lookup finds its value.
///
/// This holds of a catalog in order whose nodes store the sizes of their entries,
/// that is not too deep to walk, and in which the object's records of that type
/// have values.
pub proof fn law_lookup_and_walk_agree(
    device: Device,
    catalog: Catalog,
    obj_id: u64,
    kind: JObjType,
    root: Seq<u8>,
    info: BtreeInfo,
    depth: nat,
)
    requires
        obj_id < catalog::OBJ_TYPE_UNIT,
        catalog::value_of(kind) < 16,
        kind == catalog::kind_of(catalog::value_of(kind)),
        catalog::catalog_node(device, catalog, catalog.root_oid.0) == Ok::<Seq<u8>, ApfsError>(
            root,
        ),
        btree::root_info(root) == Ok::<BtreeInfo, ApfsError>(info),
        depth < catalog::MAX_CATALOG_DEPTH,
        ({
            let tree = catalog::catalog_tree(device, catalog, info);
            &&& tree.is_ordered(root, depth)
            &&& stores_sizes(tree, root, depth)
            &&& starts_at_separators(tree, root, depth)
            &&& has_values(tree.entries(root, depth), (JKey { obj_id, kind }))
        }),
    ensures
        catalog::record_value(device, catalog, obj_id, kind) is Ok,
        catalog::catalog_records(device, catalog, Selection::Object(obj_id)) is Ok,
        agrees(
            catalog::record_value(device, catalog, obj_id, kind)->Ok_0,
            catalog::catalog_records(device, catalog, Selection::Object(obj_id))->Ok_0,
            kind,
        ),
{
    let tree = catalog::catalog_tree(device, catalog, info);
    let all = tree.entries(root, depth);
    let levels = catalog::MAX_CATALOG_DEPTH as nat;
    let header = JKey { obj_id, kind };
    catalog::law_find_record_misses_no_record(device, catalog, obj_id, kind, root, info, depth);
    lemma_catalog_is_by_header(device, catalog, info);
    lemma_object_records(tree, root, depth, levels, obj_id);
    lemma_agrees(all, header, catalog::record_value(device, catalog, obj_id, kind)->Ok_0);
    reveal(catalog::catalog_walk);
    assert(tree.nodes == catalog::catalog_nodes(device, catalog));
}

/// Whether records are in the order of their objects.
pub open spec fn are_ascending(records: Seq<RecordView>) -> bool {
    forall|i: int, j: int|
        0 <= i < j < records.len() ==> (#[trigger] records[i]).key_header.obj_id <= (
        #[trigger] records[j]).key_header.obj_id
}

/// Picking some of the records keeps their order.
proof fn lemma_filter_ascending(records: Seq<RecordView>, wanted: spec_fn(RecordView) -> bool)
    requires
        are_ascending(records),
    ensures
        are_ascending(records.filter(wanted)),
    decreases records.len(),
{
    reveal(Seq::filter);
    if records.len() > 0 {
        let less = records.drop_last();
        assert forall|i: int, j: int| 0 <= i < j < less.len() implies (
        #[trigger] less[i]).key_header.obj_id <= (#[trigger] less[j]).key_header.obj_id by {
            assert(less[i] == records[i] && less[j] == records[j]);
        }
        lemma_filter_ascending(less, wanted);
        let some = less.filter(wanted);
        assert forall|i: int| 0 <= i < some.len() implies (#[trigger] some[i]).key_header.obj_id
            <= records.last().key_header.obj_id by {
            assert(some.contains(some[i]));
            less.lemma_filter_contains_rev(wanted, some[i]);
            let at = less.index_of(some[i]);
            assert(less[at] == records[at]);
            assert(records[records.len() - 1] == records.last());
        }
    }
}

/// The records of a type in a catalog in order come in the order of their
/// objects.
///
/// This holds of a catalog whose nodes store the sizes of their entries and that
/// is not too deep to walk.
pub proof fn law_records_of_a_kind_ascend(
    device: Device,
    catalog: Catalog,
    kind: JObjType,
    root: Seq<u8>,
    info: BtreeInfo,
    depth: nat,
)
    requires
        catalog::catalog_node(device, catalog, catalog.root_oid.0) == Ok::<Seq<u8>, ApfsError>(
            root,
        ),
        depth < catalog::MAX_CATALOG_DEPTH,
        catalog::catalog_tree(device, catalog, info).is_ordered(root, depth),
        stores_sizes(catalog::catalog_tree(device, catalog, info), root, depth),
    ensures
        catalog::catalog_records(device, catalog, Selection::Kind(kind)) matches Ok(records)
            && are_ascending(records) && forall|i: int|
            0 <= i < records.len() ==> (#[trigger] records[i]).key_header.kind == kind,
{
    let tree = catalog::catalog_tree(device, catalog, info);
    let levels = catalog::MAX_CATALOG_DEPTH as nat;
    let selection = Selection::Kind(kind);
    let all = tree.entries(root, depth);
    let whole = records_in(all);
    lemma_catalog_is_by_header(device, catalog, info);
    lemma_node_records(tree, root, depth, levels);
    pruning::law_kind_walk_keeps_its_records(tree.nodes, root, kind, levels);
    assert(tree.has_total_order());
    tree.law_entries_are_in_order(root, depth);
    assert forall|i: int, j: int| 0 <= i < j < whole.len() implies (
    #[trigger] whole[i]).key_header.obj_id <= (#[trigger] whole[j]).key_header.obj_id by {
        assert(tree.le(all[i].key, all[j].key));
    }
    let wanted = |record: RecordView| selection.selects(record.key_header);
    lemma_filter_ascending(whole, wanted);
    let records = whole.filter(wanted);
    assert forall|i: int| 0 <= i < records.len() implies (#[trigger] records[i]).key_header.kind
        == kind by {
        whole.lemma_filter_pred(wanted, i);
    }
    reveal(catalog::catalog_walk);
    assert(tree.nodes == catalog::catalog_nodes(device, catalog));
}

} // verus!
