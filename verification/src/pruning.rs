//! Pruned catalog walks.
//!
//! A walk for the records of one object skips the subtrees that cannot hold
//! them. These laws relate it, and a walk for one record type, to the walk that
//! meets every record of the tree.

use vstd::prelude::*;

use crate::btree;
use crate::btree::EntryView;
use crate::catalog;
use crate::catalog::{JKey, JObjType, RecordView, Selection, Step, Stream};
use crate::error::ApfsError;

verus! {

/// The record in a leaf entry.
pub open spec fn record_in(key_header: JKey, entry: EntryView) -> RecordView {
    RecordView { key_header, key: entry.key, value: catalog::value_or_empty(entry) }
}

/// The walk that meets every record under `node`, at most `levels` levels deep.
pub open spec fn whole_node(
    nodes: spec_fn(u64) -> Result<Seq<u8>, ApfsError>,
    node: Seq<u8>,
    levels: nat,
) -> Stream
    decreases levels, 2 + btree::node_key_count(node),
{
    if levels == 0 {
        catalog::failure(
            ApfsError::Malformed {
                structure: "fstree",
                reason: "catalog B-tree is deeper than the supported limit",
            },
        )
    } else {
        whole_entries(nodes, node, levels, 0)
    }
}

/// The walk that meets every record of the entries of `node` from `index` on.
pub open spec fn whole_entries(
    nodes: spec_fn(u64) -> Result<Seq<u8>, ApfsError>,
    node: Seq<u8>,
    levels: nat,
    index: u32,
) -> Stream
    decreases levels, 1 + btree::node_key_count(node) - index,
{
    if levels == 0 || index >= btree::node_key_count(node) {
        catalog::nothing()
    } else {
        let next = (index + 1) as u32;
        match btree::entry_of(node, index, 0, 0) {
            Err(error) => catalog::failure(error),
            Ok(entry) => if btree::node_is_leaf(node) {
                match catalog::header_of(entry.key) {
                    Err(error) => catalog::failure(error),
                    Ok(key_header) => catalog::followed_by(
                        Stream { records: seq![record_in(key_header, entry)], end: None },
                        whole_entries(nodes, node, levels, next),
                    ),
                }
            } else {
                match catalog::enter(entry) {
                    Step::Enter(oid) => match nodes(oid) {
                        Err(error) => catalog::failure(error),
                        Ok(child) => catalog::followed_by(
                            whole_node(nodes, child, (levels - 1) as nat),
                            whole_entries(nodes, node, levels, next),
                        ),
                    },
                    Step::Fail(error) => catalog::failure(error),
                    _ => catalog::nothing(),
                }
            },
        }
    }
}

/// The records of a walk that are selected.
pub open spec fn kept(walk: Stream, selection: Selection) -> Stream {
    Stream {
        records: walk.records.filter(|record: RecordView| selection.selects(record.key_header)),
        end: walk.end,
    }
}

/// What is kept of two walks is kept of each.
proof fn lemma_kept_of_two(first: Stream, second: Stream, selection: Selection)
    ensures
        kept(catalog::followed_by(first, second), selection) == catalog::followed_by(
            kept(first, selection),
            kept(second, selection),
        ),
{
    Seq::filter_distributes_over_add(
        first.records,
        second.records,
        |record: RecordView| selection.selects(record.key_header),
    );
}

/// What is kept of one record.
proof fn lemma_kept_of_one(record: RecordView, selection: Selection)
    ensures
        kept(Stream { records: seq![record], end: None }, selection) == if selection.selects(
            record.key_header,
        ) {
            (Stream { records: seq![record], end: None })
        } else {
            catalog::nothing()
        },
{
    reveal_with_fuel(Seq::filter, 2);
    let one = seq![record];
    assert(one.drop_last() =~= Seq::empty());
    assert(Seq::<RecordView>::empty().push(record) =~= one);
}

/// What is kept of nothing.
proof fn lemma_kept_of_nothing(end: Option<ApfsError>, selection: Selection)
    ensures
        kept(Stream { records: Seq::empty(), end }, selection) == (Stream {
            records: Seq::empty(),
            end,
        }),
{
    reveal(Seq::filter);
    assert(Seq::<RecordView>::empty().filter(
        |record: RecordView| selection.selects(record.key_header),
    ) =~= Seq::empty());
}

/// Nothing is kept of records that are not selected.
proof fn lemma_none_kept(walk: Stream, selection: Selection)
    requires
        forall|k: int|
            0 <= k < walk.records.len() ==> !selection.selects(
                (#[trigger] walk.records[k]).key_header,
            ),
    ensures
        kept(walk, selection).records == Seq::<RecordView>::empty(),
{
    let selects = |record: RecordView| selection.selects(record.key_header);
    let some = walk.records.filter(selects);
    assert forall|k: int| 0 <= k < walk.records.len() implies !selects(
        #[trigger] walk.records[k],
    ) by {}
    walk.records.lemma_all_neg_filter_empty(selects);
    assert(some =~= Seq::empty());
}

/// A walk for one record type meets what the whole walk keeps of that type, and
/// ends as it does.
pub proof fn law_kind_walk_keeps_its_records(
    nodes: spec_fn(u64) -> Result<Seq<u8>, ApfsError>,
    node: Seq<u8>,
    kind: JObjType,
    levels: nat,
)
    ensures
        catalog::walk_node(nodes, node, Selection::Kind(kind), levels) == kept(
            whole_node(nodes, node, levels),
            Selection::Kind(kind),
        ),
    decreases levels, 2 + btree::node_key_count(node),
{
    if levels == 0 {
        lemma_kept_of_nothing(whole_node(nodes, node, levels).end, Selection::Kind(kind));
    } else {
        lemma_kind_walk(nodes, node, kind, levels, 0);
    }
}

proof fn lemma_kind_walk(
    nodes: spec_fn(u64) -> Result<Seq<u8>, ApfsError>,
    node: Seq<u8>,
    kind: JObjType,
    levels: nat,
    index: u32,
)
    ensures
        catalog::walk_entries(nodes, node, Selection::Kind(kind), levels, index) == kept(
            whole_entries(nodes, node, levels, index),
            Selection::Kind(kind),
        ),
    decreases levels, 1 + btree::node_key_count(node) - index,
{
    let selection = Selection::Kind(kind);
    let whole = whole_entries(nodes, node, levels, index);
    if levels == 0 || index >= btree::node_key_count(node) {
        lemma_kept_of_nothing(None, selection);
    } else {
        let next = (index + 1) as u32;
        match btree::entry_of(node, index, 0, 0) {
            Err(error) => lemma_kept_of_nothing(Some(error), selection),
            Ok(entry) => if btree::node_is_leaf(node) {
                match catalog::header_of(entry.key) {
                    Err(error) => lemma_kept_of_nothing(Some(error), selection),
                    Ok(key_header) => {
                        let record = record_in(key_header, entry);
                        lemma_kind_walk(nodes, node, kind, levels, next);
                        lemma_kept_of_one(record, selection);
                        lemma_kept_of_two(
                            Stream { records: seq![record], end: None },
                            whole_entries(nodes, node, levels, next),
                            selection,
                        );
                        let rest = kept(whole_entries(nodes, node, levels, next), selection);
                        assert(catalog::followed_by(catalog::nothing(), rest).records
                            =~= rest.records);
                    },
                }
            } else {
                match catalog::enter(entry) {
                    Step::Enter(oid) => match nodes(oid) {
                        Err(error) => lemma_kept_of_nothing(Some(error), selection),
                        Ok(child) => {
                            law_kind_walk_keeps_its_records(
                                nodes,
                                child,
                                kind,
                                (levels - 1) as nat,
                            );
                            lemma_kind_walk(nodes, node, kind, levels, next);
                            lemma_kept_of_two(
                                whole_node(nodes, child, (levels - 1) as nat),
                                whole_entries(nodes, node, levels, next),
                                selection,
                            );
                        },
                    },
                    Step::Fail(error) => lemma_kept_of_nothing(Some(error), selection),
                    _ => {},
                }
            },
        }
    }
}

/// The object that the separator `index` of a non-leaf node starts with.
pub open spec fn separator_object(node: Seq<u8>, index: u32) -> u64 {
    catalog::header_of(btree::entry_of(node, index, 0, 0)->Ok_0.key)->Ok_0.obj_id
}

/// The node that the entry `index` of a non-leaf node leads to.
pub open spec fn child_at(
    nodes: spec_fn(u64) -> Result<Seq<u8>, ApfsError>,
    node: Seq<u8>,
    index: u32,
) -> Seq<u8> {
    match catalog::enter(btree::entry_of(node, index, 0, 0)->Ok_0) {
        Step::Enter(oid) => nodes(oid)->Ok_0,
        _ => Seq::empty(),
    }
}

/// Whether the separators of a tree tell its objects apart: in every non-leaf
/// node they are record keys in the order of their objects, and no record below
/// a child belongs to an object before the child's separator or behind the next
/// one.
pub open spec fn is_separated(
    nodes: spec_fn(u64) -> Result<Seq<u8>, ApfsError>,
    node: Seq<u8>,
    levels: nat,
) -> bool
    decreases levels,
{
    btree::node_is_leaf(node) || levels == 0 || {
        let count = btree::node_key_count(node);
        let under = (levels - 1) as nat;
        &&& forall|i: u32|
            i < count ==> catalog::header_of(
                (#[trigger] btree::entry_of(node, i, 0, 0))->Ok_0.key,
            ) is Ok
        &&& forall|i: u32, j: u32|
            i < j < count ==> #[trigger] separator_object(node, i)
                <= #[trigger] separator_object(node, j)
        &&& forall|i: u32, k: int|
            #![trigger whole_node(nodes, child_at(nodes, node, i), under).records[k]]
            i < count && 0 <= k < whole_node(
                nodes,
                child_at(nodes, node, i),
                under,
            ).records.len() ==> separator_object(node, i) <= whole_node(
                nodes,
                child_at(nodes, node, i),
                under,
            ).records[k].key_header.obj_id
        &&& forall|i: u32, j: u32, k: int|
            #![trigger separator_object(node, j), whole_node(nodes, child_at(nodes, node, i), under).records[k]]
            i < j < count && 0 <= k < whole_node(
                nodes,
                child_at(nodes, node, i),
                under,
            ).records.len() ==> whole_node(
                nodes,
                child_at(nodes, node, i),
                under,
            ).records[k].key_header.obj_id <= separator_object(node, j)
        &&& forall|i: u32|
            i < count ==> is_separated(nodes, #[trigger] child_at(nodes, node, i), under)
    }
}

/// No record from the entry `index` on belongs to an object before that entry's
/// separator.
proof fn lemma_not_before(
    nodes: spec_fn(u64) -> Result<Seq<u8>, ApfsError>,
    node: Seq<u8>,
    levels: nat,
    index: u32,
    bound: u64,
)
    requires
        !btree::node_is_leaf(node),
        is_separated(nodes, node, levels),
        whole_entries(nodes, node, levels, index).end is None,
        index < btree::node_key_count(node) ==> bound <= separator_object(node, index),
    ensures
        forall|k: int|
            0 <= k < whole_entries(nodes, node, levels, index).records.len() ==> bound
                <= (#[trigger] whole_entries(
                nodes,
                node,
                levels,
                index,
            ).records[k]).key_header.obj_id,
    decreases btree::node_key_count(node) - index,
{
    let walk = whole_entries(nodes, node, levels, index);
    if levels > 0 && index < btree::node_key_count(node) {
        let next = (index + 1) as u32;
        let child = child_at(nodes, node, index);
        let below = whole_node(nodes, child, (levels - 1) as nat);
        let rest = whole_entries(nodes, node, levels, next);
        match catalog::enter(btree::entry_of(node, index, 0, 0)->Ok_0) {
            Step::Enter(oid) => {
                assert(walk == catalog::followed_by(below, rest));
                if next < btree::node_key_count(node) {
                    assert(separator_object(node, index) <= separator_object(node, next));
                }
                lemma_not_before(nodes, node, levels, next, bound);
                assert forall|k: int| 0 <= k < walk.records.len() implies bound
                    <= (#[trigger] walk.records[k]).key_header.obj_id by {
                    if k < below.records.len() {
                        assert(walk.records[k] == below.records[k]);
                    } else {
                        assert(walk.records[k] == rest.records[k - below.records.len()]);
                    }
                }
            },
            _ => {},
        }
    }
}

/// In a tree whose separators tell its objects apart, the walk for one object
/// meets every record of the object that the whole walk meets, in the same
/// order: the subtrees that it skips hold none.
pub proof fn law_object_walk_misses_no_record(
    nodes: spec_fn(u64) -> Result<Seq<u8>, ApfsError>,
    node: Seq<u8>,
    obj_id: u64,
    levels: nat,
)
    requires
        is_separated(nodes, node, levels),
        whole_node(nodes, node, levels).end is None,
    ensures
        catalog::walk_node(nodes, node, Selection::Object(obj_id), levels) == kept(
            whole_node(nodes, node, levels),
            Selection::Object(obj_id),
        ),
    decreases levels, 2 + btree::node_key_count(node),
{
    lemma_object_walk(nodes, node, obj_id, levels, 0);
}

proof fn lemma_object_walk(
    nodes: spec_fn(u64) -> Result<Seq<u8>, ApfsError>,
    node: Seq<u8>,
    obj_id: u64,
    levels: nat,
    index: u32,
)
    requires
        is_separated(nodes, node, levels),
        whole_entries(nodes, node, levels, index).end is None,
    ensures
        catalog::walk_entries(nodes, node, Selection::Object(obj_id), levels, index) == kept(
            whole_entries(nodes, node, levels, index),
            Selection::Object(obj_id),
        ),
    decreases levels, 1 + btree::node_key_count(node) - index,
{
    let selection = Selection::Object(obj_id);
    if levels == 0 || index >= btree::node_key_count(node) {
        lemma_kept_of_nothing(None, selection);
    } else {
        let next = (index + 1) as u32;
        let entry = btree::entry_of(node, index, 0, 0)->Ok_0;
        let rest = whole_entries(nodes, node, levels, next);
        let walk = whole_entries(nodes, node, levels, index);
        if btree::node_is_leaf(node) {
            let record = record_in(catalog::header_of(entry.key)->Ok_0, entry);
            lemma_object_walk(nodes, node, obj_id, levels, next);
            lemma_kept_of_one(record, selection);
            lemma_kept_of_two(Stream { records: seq![record], end: None }, rest, selection);
            assert(catalog::followed_by(catalog::nothing(), kept(rest, selection)).records =~= kept(
                rest,
                selection,
            ).records);
        } else {
            let child = child_at(nodes, node, index);
            let below = whole_node(nodes, child, (levels - 1) as nat);
            assert(catalog::enter(entry) is Enter);
            assert(walk == catalog::followed_by(below, rest));
            assert(btree::entry_of(node, index, 0, 0) is Ok);
            assert(catalog::header_of(entry.key) is Ok);
            if separator_object(node, index) > obj_id {
                lemma_not_before(nodes, node, levels, index, separator_object(node, index));
                lemma_none_kept(walk, selection);
            } else {
                lemma_object_walk(nodes, node, obj_id, levels, next);
                lemma_kept_of_two(below, rest, selection);
                if next < btree::node_key_count(node) {
                    assert(rest.end is None);
                    assert(btree::entry_of(node, next, 0, 0) is Ok);
                    assert(catalog::header_of(btree::entry_of(node, next, 0, 0)->Ok_0.key) is Ok);
                }
                if next < btree::node_key_count(node) && separator_object(node, next) < obj_id {
                    assert forall|k: int| 0 <= k < below.records.len() implies !selection.selects(
                        (#[trigger] below.records[k]).key_header,
                    ) by {
                        assert(below.records[k].key_header.obj_id <= separator_object(node, next));
                    }
                    lemma_none_kept(below, selection);
                    assert(catalog::followed_by(kept(below, selection), kept(rest, selection))
                        == kept(rest, selection)) by {
                        assert((kept(below, selection).records + kept(rest, selection).records)
                            =~= kept(rest, selection).records);
                    }
                } else {
                    assert(is_separated(nodes, child, (levels - 1) as nat));
                    law_object_walk_misses_no_record(nodes, child, obj_id, (levels - 1) as nat);
                }
            }
        }
    }
}

} // verus!
