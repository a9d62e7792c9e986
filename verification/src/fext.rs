//! Sealed-volume file-extent tree (`fext_tree_*`).
//!
//! On a sealed volume, the macOS Signed System Volume, file extents are not
//! stored as catalog `FILE_EXTENT` records. They live in a dedicated B-tree
//! located by the volume superblock, mapping `(private_id, logical_addr)` to a
//! physical extent.
//!
//! The tree is a *physical* object: its root identifier is a block address,
//! and so are its non-leaf child links. There is no object-map indirection.

use std::collections::BTreeMap;

use vstd::prelude::*;

use crate::btree::{Entry, EntryView};
use crate::bytes;
use crate::error;
use crate::error::ApfsError;
use crate::extent::{FileExtent, J_FILE_EXTENT_LEN_MASK};
use crate::io::Reader;
use crate::sort;
use crate::tree;
use crate::tree::{TreeLayout, TreeRecord};

verus! {

/// Size of a `fext_tree_key_t`: `private_id` and `logical_addr`.
pub const FEXT_TREE_KEY_SIZE: usize = 16;

/// Size of a `fext_tree_val_t`: `len_and_flags` and `phys_block_num`.
pub const FEXT_TREE_VAL_SIZE: usize = 16;

/// Upper bound on fext-tree nodes walked before the tree is treated as corrupt
/// or cyclic.
pub const MAX_FEXT_TREE_NODES: u32 = 1_048_576;

/// A leaf record of a file-extent tree.
#[derive(Debug, Clone, Copy, PartialEq, Eq, Structural)]
pub struct FextRecord {
    /// The data-stream identifier of the file.
    pub private_id: u64,
    /// The extent.
    pub extent: FileExtent,
}

/// The value of an entry, where a missing one counts as empty.
pub open spec fn value_or_empty(value: Option<Seq<u8>>) -> Seq<u8> {
    match value {
        Some(value) => value,
        None => Seq::empty(),
    }
}

/// The record with the given key and value.
///
/// The length occupies the low bits of its field; the high bits are flags.
/// There is no per-extent encryption identifier.
pub open spec fn fext_record_of(key: Seq<u8>, value: Option<Seq<u8>>) -> Result<
    FextRecord,
    ApfsError,
> {
    let data = value_or_empty(value);
    if key.len() < FEXT_TREE_KEY_SIZE {
        error::truncated("fext_tree_key_t", FEXT_TREE_KEY_SIZE as int, key.len())
    } else if data.len() < FEXT_TREE_VAL_SIZE {
        error::truncated("fext_tree_val_t", FEXT_TREE_VAL_SIZE as int, data.len())
    } else {
        Ok(
            FextRecord {
                private_id: bytes::le_u64(key, 0),
                extent: FileExtent {
                    logical_addr: bytes::le_u64(key, 8),
                    length: bytes::le_u64(data, 0) & J_FILE_EXTENT_LEN_MASK,
                    phys_block_num: bytes::le_u64(data, 8),
                    crypto_id: 0,
                },
            },
        )
    }
}

/// Parses a fext-tree leaf record into its file data-stream id and extent.
pub fn parse_fext_record(key: &[u8], value: Option<&[u8]>) -> (parsed: Result<
    (u64, FileExtent),
    ApfsError,
>)
    ensures
        match fext_record_of(
            key@,
            match value {
                Some(value) => Some(value@),
                None => None,
            },
        ) {
            Ok(record) => parsed == Ok::<(u64, FileExtent), ApfsError>(
                (record.private_id, record.extent),
            ),
            Err(error) => parsed == Err::<(u64, FileExtent), ApfsError>(error),
        },
{
    if key.len() < FEXT_TREE_KEY_SIZE {
        return Err(
            ApfsError::Truncated {
                structure: "fext_tree_key_t",
                expected: FEXT_TREE_KEY_SIZE,
                actual: key.len(),
            },
        );
    }
    let data: &[u8] = match value {
        Some(data) => data,
        None => {
            return Err(
                ApfsError::Truncated {
                    structure: "fext_tree_val_t",
                    expected: FEXT_TREE_VAL_SIZE,
                    actual: 0,
                },
            );
        },
    };
    if data.len() < FEXT_TREE_VAL_SIZE {
        return Err(
            ApfsError::Truncated {
                structure: "fext_tree_val_t",
                expected: FEXT_TREE_VAL_SIZE,
                actual: data.len(),
            },
        );
    }
    Ok(
        (
            bytes::read_u64(key, 0),
            FileExtent {
                logical_addr: bytes::read_u64(key, 8),
                length: bytes::read_u64(data, 0) & J_FILE_EXTENT_LEN_MASK,
                phys_block_num: bytes::read_u64(data, 8),
                crypto_id: 0,
            },
        ),
    )
}

impl TreeRecord for FextRecord {
    open spec fn spec_layout() -> TreeLayout {
        TreeLayout {
            structure: "fext_tree",
            no_child: "non-leaf entry has no child link",
            short_child: "non-leaf child link is not a block address",
            key_len: FEXT_TREE_KEY_SIZE,
            val_len: FEXT_TREE_VAL_SIZE,
            max_nodes: MAX_FEXT_TREE_NODES,
        }
    }

    fn layout() -> (layout: TreeLayout) {
        TreeLayout {
            structure: "fext_tree",
            no_child: "non-leaf entry has no child link",
            short_child: "non-leaf child link is not a block address",
            key_len: FEXT_TREE_KEY_SIZE,
            val_len: FEXT_TREE_VAL_SIZE,
            max_nodes: MAX_FEXT_TREE_NODES,
        }
    }

    open spec fn record_of(entry: EntryView) -> Result<FextRecord, ApfsError> {
        fext_record_of(entry.key, entry.value)
    }

    fn read_record(entry: &Entry<'_>) -> (record: Result<FextRecord, ApfsError>) {
        match parse_fext_record(entry.key, entry.value) {
            Ok((private_id, extent)) => Ok(FextRecord { private_id, extent }),
            Err(error) => Err(error),
        }
    }
}

/// The extents of one file, in the order of the records.
pub open spec fn runs_of(records: Seq<FextRecord>, private_id: u64) -> Seq<FileExtent>
    decreases records.len(),
{
    if records.len() == 0 {
        Seq::empty()
    } else {
        let before = runs_of(records.drop_last(), private_id);
        if records.last().private_id == private_id {
            before.push(records.last().extent)
        } else {
            before
        }
    }
}

/// Whether `groups` holds, for each file that has a record, the extents of the
/// file sorted by logical offset, and nothing else.
pub open spec fn groups_records(
    groups: Map<u64, Vec<FileExtent>>,
    records: Seq<FextRecord>,
) -> bool {
    forall|id: u64|
        {
            &&& #[trigger] groups.dom().contains(id) <==> runs_of(records, id).len() > 0
            &&& groups.dom().contains(id) ==> groups[id]@ == sort::stable_sort(
                runs_of(records, id),
                sort::rank_of::<FileExtent>(),
            )
        }
}

/// The extents of a file are in order of their logical offsets, and they are
/// the extents that the records give.
pub proof fn law_file_extents_are_sorted(
    groups: Map<u64, Vec<FileExtent>>,
    records: Seq<FextRecord>,
    private_id: u64,
)
    requires
        groups_records(groups, records),
        groups.dom().contains(private_id),
    ensures
        forall|i: int, j: int|
            0 <= i <= j < groups[private_id]@.len() ==> (#[trigger] groups[private_id]@[i])
                .logical_addr <= (#[trigger] groups[private_id]@[j]).logical_addr,
        groups[private_id]@.to_multiset() == runs_of(records, private_id).to_multiset(),
{
    let rank = sort::rank_of::<FileExtent>();
    let runs = runs_of(records, private_id);
    sort::law_stable_sort_sorts(runs, rank);
    sort::law_stable_sort_permutes(runs, rank);
    assert forall|i: int, j: int| 0 <= i <= j < groups[private_id]@.len() implies (
    #[trigger] groups[private_id]@[i]).logical_addr <= (#[trigger] groups[private_id]@[j])
        .logical_addr by {
        assert(rank(groups[private_id]@[i]) <= rank(groups[private_id]@[j]));
    }
}

/// The runs of a file are the extents of the records with its identifier, all of
/// them, in the order of the records.
pub proof fn law_runs_are_those_of_the_file(records: Seq<FextRecord>, private_id: u64)
    ensures
        runs_of(records, private_id) == records.filter(
            |record: FextRecord| record.private_id == private_id,
        ).map_values(|record: FextRecord| record.extent),
    decreases records.len(),
{
    let of_file = |record: FextRecord| record.private_id == private_id;
    let extent_of = |record: FextRecord| record.extent;
    reveal(Seq::filter);
    if records.len() > 0 {
        law_runs_are_those_of_the_file(records.drop_last(), private_id);
        let before = records.drop_last().filter(of_file);
        assert(before.push(records.last()).map_values(extent_of) =~= before.map_values(
            extent_of,
        ).push(records.last().extent));
    } else {
        assert(records.filter(of_file).map_values(extent_of) =~= Seq::<FileExtent>::empty());
    }
}

/// Adds a record to the groups.
fn add_record(
    groups: &mut BTreeMap<u64, Vec<FileExtent>>,
    record: FextRecord,
    Ghost(before): Ghost<Seq<FextRecord>>,
)
    requires
        groups_records(old(groups)@, before),
    ensures
        groups_records(final(groups)@, before.push(record)),
{
    broadcast use vstd::std_specs::btree::group_btree_axioms;
    broadcast use vstd::laws_cmp::group_laws_cmp;

    let ghost rank = sort::rank_of::<FileExtent>();
    let ghost start = groups@;
    let id: u64 = record.private_id;
    let mut runs: Vec<FileExtent> = match groups.remove(&id) {
        Some(runs) => runs,
        None => Vec::new(),
    };
    let ghost old_runs = runs_of(before, id);
    proof {
        assert(start.dom().contains(id) <==> old_runs.len() > 0);
        sort::law_stable_sort_sorts(old_runs, rank);
        if old_runs.len() == 0 {
            assert(sort::stable_sort(old_runs, rank) =~= Seq::<FileExtent>::empty());
        }
        assert(runs@ =~= sort::stable_sort(old_runs, rank));
    }
    sort::insert_ranked(&mut runs, record.extent);
    groups.insert(id, runs);
    proof {
        let all = before.push(record);
        assert(all.drop_last() =~= before);
        assert(old_runs.push(record.extent).drop_last() =~= old_runs);
        assert forall|other: u64|
            {
                &&& #[trigger] groups@.dom().contains(other) <==> runs_of(all, other).len() > 0
                &&& groups@.dom().contains(other) ==> groups@[other]@ == sort::stable_sort(
                    runs_of(all, other),
                    rank,
                )
            } by {
            assert(start.dom().contains(other) <==> runs_of(before, other).len() > 0);
        }
    }
}

/// The extents of one file, sorted by logical offset.
pub(crate) fn runs_for(
    groups: &BTreeMap<u64, Vec<FileExtent>>,
    private_id: u64,
    Ghost(records): Ghost<Seq<FextRecord>>,
) -> (runs: Vec<FileExtent>)
    requires
        groups_records(groups@, records),
    ensures
        runs@ == sort::stable_sort(
            runs_of(records, private_id),
            sort::rank_of::<FileExtent>(),
        ),
{
    broadcast use vstd::std_specs::btree::group_btree_axioms;
    broadcast use vstd::laws_cmp::group_laws_cmp;

    proof {
        assert(groups@.dom().contains(private_id) <==> runs_of(records, private_id).len() > 0);
        if runs_of(records, private_id).len() == 0 {
            assert(runs_of(records, private_id) =~= Seq::<FileExtent>::empty());
        }
    }
    match groups.get(&private_id) {
        Some(runs) => vstd::slice::slice_to_vec(runs.as_slice()),
        None => Vec::new(),
    }
}

/// A sealed volume's file-extent tree.
///
/// The tree is keyed by the file's data-stream identifier, the same identifier
/// catalog `FILE_EXTENT` records use on an unsealed volume.
#[derive(Debug, Clone, Copy, PartialEq, Eq, Structural)]
pub struct FextTree {
    /// The physical block of the root node.
    pub root: u64,
}

impl FextTree {
    /// Creates a handle for the file-extent tree rooted at physical block
    /// `root`, the volume superblock's `apfs_fext_tree_oid`.
    #[must_use]
    pub fn new(root: u64) -> (tree: FextTree)
        ensures
            tree.root == root,
    {
        FextTree { root }
    }

    /// Collects every extent in the tree, grouped by file data-stream id.
    ///
    /// Each node is Fletcher-64 verified, and the walk is bounded by
    /// [`MAX_FEXT_TREE_NODES`] so a corrupt or cyclic tree cannot loop. Each
    /// file's extents are returned sorted by logical offset.
    pub fn collect<T: Reader>(&self, reader: &mut T, block_size: u32) -> (collected: Result<
        BTreeMap<u64, Vec<FileExtent>>,
        ApfsError,
    >)
        ensures
            final(reader).device() == old(reader).device(),
            match tree::tree_records::<FextRecord>(old(reader).device(), block_size, self.root) {
                Ok(records) => collected matches Ok(groups) && groups_records(groups@, records),
                Err(error) => collected matches Err(reported) && reported == error,
            },
    {
        let records: Vec<FextRecord> = match tree::collect_records(
            reader,
            block_size,
            self.root,
        ) {
            Ok(records) => records,
            Err(error) => return Err(error),
        };
        let mut groups: BTreeMap<u64, Vec<FileExtent>> = BTreeMap::new();
        let mut i: usize = 0;
        assert(records@.take(0) =~= Seq::<FextRecord>::empty());
        while i < records.len()
            invariant
                i <= records@.len(),
                groups_records(groups@, records@.take(i as int)),
            decreases records@.len() - i,
        {
            add_record(&mut groups, records[i], Ghost(records@.take(i as int)));
            assert(records@.take(i as int).push(records@[i as int]) =~= records@.take(i + 1));
            i += 1;
        }
        assert(records@.take(i as int) =~= records@);
        Ok(groups)
    }
}

} // verus!
