//! Searches in an ordered B-tree.
//!
//! A descent follows one child per level and searches one leaf. In a tree whose
//! keys are in order that is enough: these laws relate what a descent finds to
//! the sequence of all entries of the tree's leaves.

use core::cmp::Ordering;

use vstd::prelude::*;

use crate::btree;
use crate::btree::EntryView;
use crate::error::ApfsError;

verus! {

/// A tree, as a search sees it.
pub struct Tree {
    /// The node of an object identifier.
    pub nodes: spec_fn(u64) -> Result<Seq<u8>, ApfsError>,
    /// Size of a key.
    pub key_len: usize,
    /// Size of a leaf value.
    pub val_len: usize,
    /// Whether a key is not behind another.
    pub le: spec_fn(Seq<u8>, Seq<u8>) -> bool,
    /// The keys that are ordered.
    pub valid: spec_fn(Seq<u8>) -> bool,
}

impl Tree {
    /// The entry `index` of a leaf.
    pub open spec fn leaf_entry(self, leaf: Seq<u8>, index: int) -> EntryView {
        btree::entry_of(leaf, index as u32, self.key_len, self.val_len)->Ok_0
    }

    /// The entry `index` of a non-leaf node.
    pub open spec fn separator(self, node: Seq<u8>, index: int) -> EntryView {
        btree::entry_of(node, index as u32, self.key_len, btree::CHILD_LINK_SIZE)->Ok_0
    }

    /// The child `index` of a non-leaf node.
    pub open spec fn child(self, node: Seq<u8>, index: int) -> Seq<u8> {
        (self.nodes)(btree::link_in(self.separator(node, index))->Ok_0)->Ok_0
    }

    /// The leaf entries below `node`, in stored order, in a tree of at most
    /// `depth` levels above the leaves.
    pub open spec fn entries(self, node: Seq<u8>, depth: nat) -> Seq<EntryView>
        decreases depth, 1 + btree::node_key_count(node),
    {
        if btree::node_is_leaf(node) {
            Seq::new(btree::node_key_count(node) as nat, |i: int| self.leaf_entry(node, i))
        } else {
            self.first_entries(node, depth, btree::node_key_count(node) as nat)
        }
    }

    /// The leaf entries below the first `count` children of a non-leaf node.
    pub open spec fn first_entries(self, node: Seq<u8>, depth: nat, count: nat) -> Seq<EntryView>
        decreases depth, count,
    {
        if depth == 0 || count == 0 {
            Seq::empty()
        } else {
            self.first_entries(node, depth, (count - 1) as nat) + self.entries(
                self.child(node, count - 1),
                (depth - 1) as nat,
            )
        }
    }

    /// The leaf entries below the child `index` of a non-leaf node.
    pub open spec fn child_entries(self, node: Seq<u8>, index: int, depth: nat) -> Seq<EntryView> {
        self.entries(self.child(node, index), (depth - 1) as nat)
    }

    /// Whether the key `a` is not behind the key `b`.
    pub open spec fn le(self, a: Seq<u8>, b: Seq<u8>) -> bool {
        (self.le)(a, b)
    }

    /// Whether the valid keys are in a total order.
    pub open spec fn has_total_order(self) -> bool {
        &&& forall|a: Seq<u8>, b: Seq<u8>|
            (self.valid)(a) && (self.valid)(b) ==> #[trigger] self.le(a, b) || self.le(b, a)
        &&& forall|a: Seq<u8>, b: Seq<u8>, c: Seq<u8>|
            #![trigger self.le(a, b), self.le(b, c)]
            (self.valid)(a) && (self.valid)(b) && (self.valid)(c) && self.le(a, b) && self.le(b, c)
                ==> self.le(a, c)
    }

    /// Whether `ord` compares the valid keys in the order of the tree.
    pub open spec fn is_compared_by(self, ord: spec_fn(Seq<u8>, Seq<u8>) -> Ordering) -> bool {
        forall|a: Seq<u8>, b: Seq<u8>|
            (self.valid)(a) && (self.valid)(b) ==> match #[trigger] ord(a, b) {
                Ordering::Less => self.le(a, b) && !self.le(b, a),
                Ordering::Equal => self.le(a, b) && self.le(b, a),
                Ordering::Greater => !self.le(a, b) && self.le(b, a),
            }
    }

    /// Whether a leaf can be decoded and its keys are in order.
    pub open spec fn is_ordered_leaf(self, leaf: Seq<u8>) -> bool {
        &&& btree::all_decode(leaf, self.key_len, self.val_len)
        &&& forall|i: int|
            0 <= i < btree::node_key_count(leaf) ==> (self.valid)(
                (#[trigger] self.leaf_entry(leaf, i)).key,
            )
        &&& forall|i: int, j: int|
            0 <= i < j < btree::node_key_count(leaf) ==> self.le(
                (#[trigger] self.leaf_entry(leaf, i)).key,
                (#[trigger] self.leaf_entry(leaf, j)).key,
            )
    }

    /// Whether a non-leaf node can be decoded and leads to its children.
    pub open spec fn leads_to_children(self, node: Seq<u8>) -> bool {
        &&& btree::node_key_count(node) > 0
        &&& btree::all_decode(node, self.key_len, btree::CHILD_LINK_SIZE)
        &&& forall|i: int|
            0 <= i < btree::node_key_count(node) ==> {
                let entry = #[trigger] self.separator(node, i);
                &&& (self.valid)(entry.key)
                &&& btree::link_in(entry) is Ok
                &&& (self.nodes)(btree::link_in(entry)->Ok_0) is Ok
            }
    }

    /// Whether the keys of a non-leaf node separate those of its children: no
    /// key of a child is behind the separators of later children, and from the
    /// second child on the separator is the child's first key.
    pub open spec fn separates_children(self, node: Seq<u8>, depth: nat) -> bool {
        &&& forall|i: int, j: int|
            0 <= i < j < btree::node_key_count(node) ==> self.le(
                (#[trigger] self.separator(node, i)).key,
                (#[trigger] self.separator(node, j)).key,
            )
        &&& forall|i: int, j: int, k: int|
            #![trigger self.separator(node, j), self.child_entries(node, i, depth)[k]]
            0 <= i < j < btree::node_key_count(node) && 0 <= k < self.child_entries(
                node,
                i,
                depth,
            ).len() ==> self.le(
                self.child_entries(node, i, depth)[k].key,
                self.separator(node, j).key,
            )
        &&& forall|i: int|
            0 < i < btree::node_key_count(node) ==> {
                let below = #[trigger] self.child_entries(node, i, depth);
                &&& below.len() > 0
                &&& self.le(below[0].key, self.separator(node, i).key)
                &&& self.le(self.separator(node, i).key, below[0].key)
            }
    }

    /// Whether the tree below `node` can be decoded, is at most `depth` levels
    /// deep above its leaves, and has its keys in order.
    pub open spec fn is_ordered(self, node: Seq<u8>, depth: nat) -> bool
        decreases depth,
    {
        if btree::node_is_leaf(node) {
            self.is_ordered_leaf(node)
        } else {
            &&& depth > 0
            &&& self.leads_to_children(node)
            &&& self.separates_children(node, depth)
            &&& forall|i: int|
                0 <= i < btree::node_key_count(node) ==> self.is_ordered(
                    #[trigger] self.child(node, i),
                    (depth - 1) as nat,
                )
        }
    }

    /// The last of `entries` whose key is not behind `search`.
    pub open spec fn last_upto(self, entries: Seq<EntryView>, search: Seq<u8>) -> Option<EntryView>
        decreases entries.len(),
    {
        if entries.len() == 0 {
            None
        } else if self.le(entries.last().key, search) {
            Some(entries.last())
        } else {
            self.last_upto(entries.drop_last(), search)
        }
    }

    /// What the last entry not behind `search` is in two runs of entries.
    proof fn lemma_last_le_of_two(
        self,
        first: Seq<EntryView>,
        second: Seq<EntryView>,
        search: Seq<u8>,
    )
        ensures
            self.last_upto(first + second, search) == match self.last_upto(second, search) {
                Some(entry) => Some(entry),
                None => self.last_upto(first, search),
            },
        decreases second.len(),
    {
        if second.len() == 0 {
            assert(first + second =~= first);
        } else {
            assert((first + second).drop_last() =~= first + second.drop_last());
            assert((first + second).last() == second.last());
            self.lemma_last_le_of_two(first, second.drop_last(), search);
        }
    }

    /// Entries that are all behind `search` hold none that is not.
    proof fn lemma_last_le_none(self, entries: Seq<EntryView>, search: Seq<u8>)
        requires
            forall|k: int| 0 <= k < entries.len() ==> !self.le(#[trigger] entries[k].key, search),
        ensures
            self.last_upto(entries, search) is None,
        decreases entries.len(),
    {
        if entries.len() > 0 {
            assert(!self.le(entries[entries.len() - 1].key, search));
            assert forall|k: int| 0 <= k < entries.drop_last().len() implies !self.le(
                #[trigger] entries.drop_last()[k].key,
                search,
            ) by {
                assert(entries.drop_last()[k] == entries[k]);
            }
            self.lemma_last_le_none(entries.drop_last(), search);
        }
    }

    /// The last entry not behind `search` is at the index from which on all are.
    pub(crate) proof fn lemma_last_le_at(self, entries: Seq<EntryView>, search: Seq<u8>, at: int)
        requires
            0 <= at < entries.len(),
            self.le(entries[at].key, search),
            forall|k: int| at < k < entries.len() ==> !self.le(#[trigger] entries[k].key, search),
        ensures
            self.last_upto(entries, search) == Some(entries[at]),
        decreases entries.len(),
    {
        if at < entries.len() - 1 {
            assert(!self.le(entries[entries.len() - 1].key, search));
            self.lemma_last_le_at(entries.drop_last(), search, at);
        }
    }

    /// The last entry not behind `search` is one of the entries.
    pub(crate) proof fn lemma_last_le_is_one(self, entries: Seq<EntryView>, search: Seq<u8>)
        ensures
            self.last_upto(entries, search) matches Some(entry) ==> self.le(entry.key, search)
                && exists|at: int| 0 <= at < entries.len() && #[trigger] entries[at] == entry,
        decreases entries.len(),
    {
        if entries.len() > 0 {
            if self.le(entries.last().key, search) {
                assert(entries[entries.len() - 1] == entries.last());
            } else {
                let rest = entries.drop_last();
                self.lemma_last_le_is_one(rest, search);
                if let Some(entry) = self.last_upto(rest, search) {
                    let at = choose|at: int| 0 <= at < rest.len() && #[trigger] rest[at] == entry;
                    assert(entries[at] == entry);
                }
            }
        }
    }

    /// The first entry being not behind `search`, there is a last one.
    proof fn lemma_last_le_some(self, entries: Seq<EntryView>, search: Seq<u8>)
        requires
            entries.len() > 0,
            self.le(entries[0].key, search),
        ensures
            self.last_upto(entries, search) is Some,
        decreases entries.len(),
    {
        if !self.le(entries.last().key, search) {
            assert(entries.drop_last()[0] == entries[0]);
            self.lemma_last_le_some(entries.drop_last(), search);
        }
    }

    /// An entry below the first `count` children is one below one of them.
    proof fn lemma_entry_of_child(self, node: Seq<u8>, depth: nat, count: nat, at: int) -> (found: (
        int,
        int,
    ))
        requires
            depth > 0,
            0 <= at < self.first_entries(node, depth, count).len(),
        ensures
            0 <= found.0 < count,
            0 <= found.1 < self.child_entries(node, found.0, depth).len(),
            self.child_entries(node, found.0, depth)[found.1] == self.first_entries(
                node,
                depth,
                count,
            )[at],
        decreases count,
    {
        let before = self.first_entries(node, depth, (count - 1) as nat);
        if at < before.len() {
            self.lemma_entry_of_child(node, depth, (count - 1) as nat, at)
        } else {
            (count - 1, at - before.len())
        }
    }

    /// An entry below one of the first `count` children is one below them.
    proof fn lemma_entry_from_child(
        self,
        node: Seq<u8>,
        depth: nat,
        count: nat,
        child: int,
        at: int,
    ) -> (found: int)
        requires
            depth > 0,
            0 <= child < count,
            0 <= at < self.child_entries(node, child, depth).len(),
        ensures
            0 <= found < self.first_entries(node, depth, count).len(),
            self.first_entries(node, depth, count)[found] == self.child_entries(
                node,
                child,
                depth,
            )[at],
        decreases count,
    {
        let before = self.first_entries(node, depth, (count - 1) as nat);
        if child == count - 1 {
            before.len() + at
        } else {
            self.lemma_entry_from_child(node, depth, (count - 1) as nat, child, at)
        }
    }

    /// Every key of an ordered tree is valid, and the keys are in order.
    pub proof fn law_entries_are_in_order(self, node: Seq<u8>, depth: nat)
        requires
            self.has_total_order(),
            self.is_ordered(node, depth),
        ensures
            forall|i: int|
                0 <= i < self.entries(node, depth).len() ==> (self.valid)(
                    (#[trigger] self.entries(node, depth)[i]).key,
                ),
            forall|i: int, j: int|
                0 <= i < j < self.entries(node, depth).len() ==> self.le(
                    (#[trigger] self.entries(node, depth)[i]).key,
                    (#[trigger] self.entries(node, depth)[j]).key,
                ),
        decreases depth, 1 + btree::node_key_count(node),
    {
        if !btree::node_is_leaf(node) {
            self.lemma_first_entries_in_order(node, depth, btree::node_key_count(node) as nat);
        }
    }

    proof fn lemma_first_entries_in_order(self, node: Seq<u8>, depth: nat, count: nat)
        requires
            self.has_total_order(),
            self.is_ordered(node, depth),
            !btree::node_is_leaf(node),
            count <= btree::node_key_count(node),
        ensures
            forall|i: int|
                0 <= i < self.first_entries(node, depth, count).len() ==> (self.valid)(
                    (#[trigger] self.first_entries(node, depth, count)[i]).key,
                ),
            forall|i: int, j: int|
                0 <= i < j < self.first_entries(node, depth, count).len() ==> self.le(
                    (#[trigger] self.first_entries(node, depth, count)[i]).key,
                    (#[trigger] self.first_entries(node, depth, count)[j]).key,
                ),
        decreases depth, count,
    {
        if count > 0 {
            let last = count - 1;
            let before = self.first_entries(node, depth, last as nat);
            let below = self.child_entries(node, last, depth);
            let all = self.first_entries(node, depth, count);
            self.lemma_first_entries_in_order(node, depth, last as nat);
            assert(self.is_ordered(self.child(node, last), (depth - 1) as nat));
            self.law_entries_are_in_order(self.child(node, last), (depth - 1) as nat);
            assert(all == before + below);
            assert forall|i: int, j: int| 0 <= i < j < all.len() implies self.le(
                (#[trigger] all[i]).key,
                (#[trigger] all[j]).key,
            ) by {
                if i < before.len() && j >= before.len() {
                    let (child, at) = self.lemma_entry_of_child(node, depth, last as nat, i);
                    let separator = self.separator(node, last).key;
                    let k = j - before.len();
                    assert(self.le(self.child_entries(node, child, depth)[at].key, separator));
                    assert(self.le(separator, below[0].key));
                    assert((self.valid)(separator));
                    assert((self.valid)(below[k].key));
                    assert((self.valid)(below[0].key));
                    assert(self.le(separator, below[k].key)) by {
                        if k > 0 {
                            assert(self.le(below[0].key, below[k].key));
                        }
                    }
                    assert(before[i] == all[i]);
                    assert((self.valid)(before[i].key));
                    assert(below[k] == all[j]);
                } else if j < before.len() {
                    assert(self.le(before[i].key, before[j].key));
                } else {
                    assert(self.le(below[i - before.len()].key, below[j - before.len()].key));
                }
            }
            assert forall|i: int| 0 <= i < all.len() implies (self.valid)(
                (#[trigger] all[i]).key,
            ) by {
                if i < before.len() {
                    assert((self.valid)(before[i].key));
                } else {
                    assert((self.valid)(below[i - before.len()].key));
                }
            }
        }
    }

    /// Whether the entry `index` has a key that is neither before nor behind
    /// `search`.
    pub open spec fn matches_at(self, entries: Seq<EntryView>, search: Seq<u8>, index: int) -> bool {
        &&& 0 <= index < entries.len()
        &&& self.le(entries[index].key, search)
        &&& self.le(search, entries[index].key)
    }

    /// Whether the keys of a node are valid and in order.
    spec fn has_keys_in_order(self, block: Seq<u8>, val_len: usize) -> bool {
        &&& forall|i: u32|
            i < btree::node_key_count(block) ==> (self.valid)(
                #[trigger] btree::key_of(block, i, self.key_len, val_len),
            )
        &&& forall|i: u32, j: u32|
            i < j < btree::node_key_count(block) ==> self.le(
                #[trigger] btree::key_of(block, i, self.key_len, val_len),
                #[trigger] btree::key_of(block, j, self.key_len, val_len),
            )
    }

    proof fn lemma_leaf_keys(self, leaf: Seq<u8>)
        requires
            self.is_ordered_leaf(leaf),
        ensures
            self.has_keys_in_order(leaf, self.val_len),
    {
        assert forall|i: u32| i < btree::node_key_count(leaf) implies (self.valid)(
            #[trigger] btree::key_of(leaf, i, self.key_len, self.val_len),
        ) by {
            assert((self.valid)(self.leaf_entry(leaf, i as int).key));
        }
        assert forall|i: u32, j: u32| i < j < btree::node_key_count(leaf) implies self.le(
            #[trigger] btree::key_of(leaf, i, self.key_len, self.val_len),
            #[trigger] btree::key_of(leaf, j, self.key_len, self.val_len),
        ) by {
            assert(self.le(
                self.leaf_entry(leaf, i as int).key,
                self.leaf_entry(leaf, j as int).key,
            ));
        }
    }

    proof fn lemma_separator_keys(self, node: Seq<u8>, depth: nat)
        requires
            self.leads_to_children(node),
            self.separates_children(node, depth),
        ensures
            self.has_keys_in_order(node, btree::CHILD_LINK_SIZE),
    {
        assert forall|i: u32| i < btree::node_key_count(node) implies (self.valid)(
            #[trigger] btree::key_of(node, i, self.key_len, btree::CHILD_LINK_SIZE),
        ) by {
            assert((self.valid)(self.separator(node, i as int).key));
        }
        assert forall|i: u32, j: u32| i < j < btree::node_key_count(node) implies self.le(
            #[trigger] btree::key_of(node, i, self.key_len, btree::CHILD_LINK_SIZE),
            #[trigger] btree::key_of(node, j, self.key_len, btree::CHILD_LINK_SIZE),
        ) by {
            assert(self.le(
                self.separator(node, i as int).key,
                self.separator(node, j as int).key,
            ));
        }
    }

    proof fn lemma_seen_in_order(
        self,
        block: Seq<u8>,
        val_len: usize,
        search: Seq<u8>,
        ord: spec_fn(Seq<u8>, Seq<u8>) -> Ordering,
    )
        requires
            self.has_total_order(),
            self.is_compared_by(ord),
            (self.valid)(search),
            self.has_keys_in_order(block, val_len),
        ensures
            btree::in_order_for(block, search, self.key_len, val_len, ord),
            btree::sorted_for(block, search, self.key_len, val_len, ord),
    {
        assert forall|i: u32, j: u32|
            #![trigger btree::key_of(block, i, self.key_len, val_len), btree::key_of(block, j, self.key_len, val_len)]
            i < j < btree::node_key_count(block) implies {
            let before = btree::key_of(block, i, self.key_len, val_len);
            let after = btree::key_of(block, j, self.key_len, val_len);
            &&& ord(before, search) == Ordering::Greater ==> ord(after, search)
                == Ordering::Greater
            &&& ord(search, before) == Ordering::Less ==> ord(search, after) == Ordering::Less
            &&& ord(search, after) == Ordering::Greater ==> ord(search, before)
                == Ordering::Greater
        } by {
            let before = btree::key_of(block, i, self.key_len, val_len);
            let after = btree::key_of(block, j, self.key_len, val_len);
            assert((self.valid)(before) && (self.valid)(after));
            assert(self.le(before, after));
            if self.le(after, search) {
                assert(self.le(before, search));
            }
            if self.le(search, before) {
                assert(self.le(search, after));
            }
            assert(ord(before, search) == ord(before, search));
            assert(ord(after, search) == ord(after, search));
            assert(ord(search, before) == ord(search, before));
            assert(ord(search, after) == ord(search, after));
        }
    }

    /// What the search of a leaf for the last key not behind `search` gives.
    proof fn lemma_leaf_last_le(self, leaf: Seq<u8>, search: Seq<u8>, found: Option<u32>)
        requires
            btree::node_is_leaf(leaf),
            match found {
                None => forall|j: u32|
                    j < btree::node_key_count(leaf) ==> !self.le(
                        #[trigger] btree::key_of(leaf, j, self.key_len, self.val_len),
                        search,
                    ),
                Some(k) => k < btree::node_key_count(leaf) && self.le(
                    btree::key_of(leaf, k, self.key_len, self.val_len),
                    search,
                ) && (forall|j: u32|
                    k < j < btree::node_key_count(leaf) ==> !self.le(
                        #[trigger] btree::key_of(leaf, j, self.key_len, self.val_len),
                        search,
                    )),
            },
        ensures
            self.last_upto(self.entries(leaf, 0), search) == match found {
                None => None,
                Some(k) => Some(
                    btree::entry_of(leaf, k, self.key_len, self.val_len)->Ok_0,
                ),
            },
    {
        let entries = self.entries(leaf, 0);
        let from: int = match found {
            None => 0,
            Some(k) => k + 1,
        };
        assert forall|k: int| from <= k < entries.len() implies !self.le(
            #[trigger] entries[k].key,
            search,
        ) by {
            assert(entries[k].key == btree::key_of(leaf, k as u32, self.key_len, self.val_len));
        }
        match found {
            None => self.lemma_last_le_none(entries, search),
            Some(k) => {
                assert(entries[k as int] == btree::entry_of(
                    leaf,
                    k,
                    self.key_len,
                    self.val_len,
                )->Ok_0);
                self.lemma_last_le_at(entries, search, k as int);
            },
        }
    }

    /// Whether a search for `search` goes to the child `index`: the last one whose
    /// separator is not behind `search`, or the first one.
    spec fn goes_to(self, node: Seq<u8>, search: Seq<u8>, index: u32) -> bool {
        &&& index < btree::node_key_count(node)
        &&& index > 0 ==> self.le(
            btree::key_of(node, index, self.key_len, btree::CHILD_LINK_SIZE),
            search,
        )
        &&& forall|j: u32|
            index < j < btree::node_key_count(node) ==> !self.le(
                #[trigger] btree::key_of(node, j, self.key_len, btree::CHILD_LINK_SIZE),
                search,
            )
    }

    /// Every key below a child behind the one that a search goes to is behind
    /// `search`.
    proof fn lemma_behind(
        self,
        node: Seq<u8>,
        depth: nat,
        search: Seq<u8>,
        index: u32,
        child: int,
        at: int,
    )
        requires
            self.has_total_order(),
            (self.valid)(search),
            !btree::node_is_leaf(node),
            self.is_ordered(node, depth),
            self.goes_to(node, search, index),
            index < child < btree::node_key_count(node),
            0 <= at < self.child_entries(node, child, depth).len(),
        ensures
            !self.le(self.child_entries(node, child, depth)[at].key, search),
    {
        let below = self.child_entries(node, child, depth);
        let separator = self.separator(node, child).key;
        assert(self.is_ordered(self.child(node, child), (depth - 1) as nat));
        self.law_entries_are_in_order(self.child(node, child), (depth - 1) as nat);
        assert((self.valid)(separator));
        assert((self.valid)(below[at].key));
        assert((self.valid)(below[0].key));
        assert(!self.le(
            btree::key_of(node, child as u32, self.key_len, btree::CHILD_LINK_SIZE),
            search,
        ));
        assert(self.le(separator, below[0].key));
        if at > 0 {
            assert(self.le(below[0].key, below[at].key));
        }
        assert(self.le(separator, below[at].key));
        if self.le(below[at].key, search) {
            assert(self.le(separator, search));
        }
    }

    /// The last entry not behind `search` is below the child that a search goes
    /// to.
    proof fn lemma_last_le_in_child(
        self,
        node: Seq<u8>,
        depth: nat,
        search: Seq<u8>,
        index: u32,
        count: nat,
    )
        requires
            self.has_total_order(),
            (self.valid)(search),
            !btree::node_is_leaf(node),
            self.is_ordered(node, depth),
            self.goes_to(node, search, index),
            index < count <= btree::node_key_count(node),
        ensures
            self.last_upto(self.first_entries(node, depth, count), search) == self.last_upto(
                self.child_entries(node, index as int, depth),
                search,
            ),
        decreases count,
    {
        let last = count - 1;
        let before = self.first_entries(node, depth, last as nat);
        let below = self.child_entries(node, last, depth);
        self.lemma_last_le_of_two(before, below, search);
        if index < last {
            assert forall|k: int| 0 <= k < below.len() implies !self.le(
                #[trigger] below[k].key,
                search,
            ) by {
                self.lemma_behind(node, depth, search, index, last, k);
            }
            self.lemma_last_le_none(below, search);
            self.lemma_last_le_in_child(node, depth, search, index, last as nat);
        } else if index > 0 {
            let separator = self.separator(node, last).key;
            assert(self.is_ordered(self.child(node, last), (depth - 1) as nat));
            self.law_entries_are_in_order(self.child(node, last), (depth - 1) as nat);
            assert((self.valid)(separator));
            assert((self.valid)(below[0].key));
            assert(self.le(below[0].key, separator));
            assert(self.le(separator, search));
            self.lemma_last_le_some(below, search);
        }
    }

    /// If an entry has the key `search`, one below the child that a search goes to
    /// has.
    proof fn lemma_match_in_child(
        self,
        node: Seq<u8>,
        depth: nat,
        search: Seq<u8>,
        index: u32,
        at: int,
    ) -> (found: int)
        requires
            self.has_total_order(),
            (self.valid)(search),
            !btree::node_is_leaf(node),
            self.is_ordered(node, depth),
            self.goes_to(node, search, index),
            self.matches_at(self.entries(node, depth), search, at),
        ensures
            self.matches_at(self.child_entries(node, index as int, depth), search, found),
    {
        let count = btree::node_key_count(node) as nat;
        let (child, place) = self.lemma_entry_of_child(node, depth, count, at);
        if child > index {
            self.lemma_behind(node, depth, search, index, child, place);
            place
        } else if child == index {
            place
        } else {
            let below = self.child_entries(node, index as int, depth);
            let other = self.child_entries(node, child, depth);
            let separator = self.separator(node, index as int).key;
            assert(self.is_ordered(self.child(node, index as int), (depth - 1) as nat));
            assert(self.is_ordered(self.child(node, child), (depth - 1) as nat));
            self.law_entries_are_in_order(self.child(node, index as int), (depth - 1) as nat);
            self.law_entries_are_in_order(self.child(node, child), (depth - 1) as nat);
            assert((self.valid)(separator));
            assert((self.valid)(below[0].key));
            assert((self.valid)(other[place].key));
            assert(self.le(other[place].key, separator));
            assert(self.le(search, other[place].key));
            assert(self.le(search, separator));
            assert(self.le(separator, search));
            assert(self.le(below[0].key, separator));
            assert(self.le(separator, below[0].key));
            assert(self.le(below[0].key, search));
            assert(self.le(search, below[0].key));
            0
        }
    }

    /// One less than a depth.
    spec fn under(depth: nat) -> nat {
        (depth - 1) as nat
    }

    /// The child that a search goes to, with the entries below it.
    proof fn lemma_choice(self, node: Seq<u8>, depth: nat, search: Seq<u8>, index: u32) -> (next: Seq<
        u8,
    >)
        requires
            self.has_total_order(),
            (self.valid)(search),
            !btree::node_is_leaf(node),
            self.is_ordered(node, depth),
            self.goes_to(node, search, index),
        ensures
            btree::entry_of(node, index, self.key_len, btree::CHILD_LINK_SIZE) matches Ok(entry)
                && btree::link_in(entry) matches Ok(link) && (self.nodes)(link) == Ok::<
                Seq<u8>,
                ApfsError,
            >(next),
            self.is_ordered(next, Self::under(depth)),
            self.last_upto(self.entries(node, depth), search) == self.last_upto(
                self.entries(next, Self::under(depth)),
                search,
            ),
            forall|at: int|
                #[trigger] self.matches_at(self.entries(node, depth), search, at) ==> exists|found: int|
                    self.matches_at(self.entries(next, Self::under(depth)), search, found),
            forall|at: int| #![trigger self.entries(next, Self::under(depth))[at]]
                0 <= at < self.entries(next, Self::under(depth)).len() ==> exists|found: int|
                    0 <= found < self.entries(node, depth).len() && #[trigger] self.entries(
                        node,
                        depth,
                    )[found] == self.entries(next, Self::under(depth))[at],
    {
        let count = btree::node_key_count(node) as nat;
        let next = self.child(node, index as int);
        let separator = self.separator(node, index as int);
        assert(btree::entry_of(node, index, self.key_len, btree::CHILD_LINK_SIZE) is Ok);
        assert(btree::link_in(separator) is Ok);
        assert(self.is_ordered(next, Self::under(depth)));
        self.lemma_last_le_in_child(node, depth, search, index, count);
        let below = self.entries(next, Self::under(depth));
        assert forall|at: int| #[trigger] self.matches_at(
            self.entries(node, depth),
            search,
            at,
        ) implies exists|found: int| self.matches_at(below, search, found) by {
            let found = self.lemma_match_in_child(node, depth, search, index, at);
            assert(self.matches_at(below, search, found));
        }
        assert forall|at: int| #![trigger below[at]] 0 <= at < below.len() implies exists|found: int|
            0 <= found < self.entries(node, depth).len() && #[trigger] self.entries(
                node,
                depth,
            )[found] == below[at] by {
            let found = self.lemma_entry_from_child(node, depth, count, index as int, at);
            assert(self.entries(node, depth)[found] == below[at]);
        }
        next
    }

    /// What a search of one leaf finds there.
    spec fn is_searched_leaf(
        self,
        leaf: Seq<u8>,
        entries: Seq<EntryView>,
        search: Seq<u8>,
        ord: spec_fn(Seq<u8>, Seq<u8>) -> Ordering,
    ) -> bool {
        &&& btree::le_entry(leaf, search, self.key_len, self.val_len, ord) == Ok::<
            Option<EntryView>,
            ApfsError,
        >(self.last_upto(entries, search))
        &&& match btree::equal_entry(leaf, search, self.key_len, self.val_len, ord) {
            Err(_) => false,
            Ok(None) => forall|at: int| !self.matches_at(entries, search, at),
            Ok(Some(entry)) => exists|at: int| #[trigger]
                self.matches_at(entries, search, at) && entries[at] == entry,
        }
    }

    /// A search of an ordered leaf finds what its entries hold.
    proof fn lemma_search_leaf(
        self,
        leaf: Seq<u8>,
        search: Seq<u8>,
        ord: spec_fn(Seq<u8>, Seq<u8>) -> Ordering,
        depth: nat,
    )
        requires
            self.has_total_order(),
            self.is_compared_by(ord),
            (self.valid)(search),
            btree::node_is_leaf(leaf),
            self.is_ordered_leaf(leaf),
        ensures
            self.is_searched_leaf(leaf, self.entries(leaf, depth), search, ord),
    {
        self.lemma_leaf_keys(leaf);
        self.lemma_seen_in_order(leaf, self.val_len, search, ord);
        btree::law_last_le_in_order(leaf, search, self.key_len, self.val_len, ord);
        btree::law_find_equal_in_order(leaf, search, self.key_len, self.val_len, ord);
        self.lemma_same_leaf_entries(leaf, depth);
        assert forall|j: u32| j < btree::node_key_count(leaf) implies self.le(
            #[trigger] btree::key_of(leaf, j, self.key_len, self.val_len),
            search,
        ) == (ord(btree::key_of(leaf, j, self.key_len, self.val_len), search)
            != Ordering::Greater) by {}
        let found = btree::last_le(leaf, search, self.key_len, self.val_len, ord);
        self.lemma_leaf_last_le(leaf, search, found->Ok_0);
        match found->Ok_0 {
            None => {},
            Some(k) => {
                assert(btree::entry_of(leaf, k, self.key_len, self.val_len) is Ok);
            },
        }
        let entries = self.entries(leaf, depth);
        match btree::equal_entry(leaf, search, self.key_len, self.val_len, ord) {
            Err(_) => {},
            Ok(None) => {
                assert forall|at: int| !self.matches_at(entries, search, at) by {
                    if self.matches_at(entries, search, at) {
                        let j = self.lemma_leaf_index(leaf, depth, at);
                        assert(ord(search, btree::key_of(leaf, j, self.key_len, self.val_len))
                            != Ordering::Equal);
                    }
                }
            },
            Ok(Some(entry)) => {
                let j = choose|j: u32|
                    j < btree::node_key_count(leaf) && #[trigger] btree::entry_of(
                        leaf,
                        j,
                        self.key_len,
                        self.val_len,
                    ) == Ok::<EntryView, ApfsError>(entry);
                let at = self.lemma_leaf_place(leaf, depth, j);
                assert((self.valid)(btree::key_of(leaf, j, self.key_len, self.val_len)));
                assert(self.matches_at(entries, search, at));
            },
        }
    }

    proof fn lemma_same_leaf_entries(self, leaf: Seq<u8>, depth: nat)
        requires
            btree::node_is_leaf(leaf),
        ensures
            self.entries(leaf, depth) == self.entries(leaf, 0),
    {
        assert(self.entries(leaf, depth) =~= self.entries(leaf, 0));
    }

    /// The index of an entry of a leaf.
    proof fn lemma_leaf_index(self, leaf: Seq<u8>, depth: nat, at: int) -> (index: u32)
        requires
            btree::node_is_leaf(leaf),
            0 <= at < self.entries(leaf, depth).len(),
        ensures
            index < btree::node_key_count(leaf),
            self.entries(leaf, depth)[at].key == btree::key_of(
                leaf,
                index,
                self.key_len,
                self.val_len,
            ),
    {
        at as u32
    }

    /// The place of an entry of a leaf.
    proof fn lemma_leaf_place(self, leaf: Seq<u8>, depth: nat, index: u32) -> (at: int)
        requires
            btree::node_is_leaf(leaf),
            index < btree::node_key_count(leaf),
        ensures
            0 <= at < self.entries(leaf, depth).len(),
            self.entries(leaf, depth)[at] == btree::entry_of(
                leaf,
                index,
                self.key_len,
                self.val_len,
            )->Ok_0,
    {
        index as int
    }

    /// A descent in an ordered tree reaches a leaf whose search finds what the
    /// entries of the whole tree hold.
    proof fn lemma_descent(
        self,
        node: Seq<u8>,
        search: Seq<u8>,
        ord: spec_fn(Seq<u8>, Seq<u8>) -> Ordering,
        depth: nat,
        links: u64,
    )
        requires
            self.has_total_order(),
            self.is_compared_by(ord),
            (self.valid)(search),
            self.is_ordered(node, depth),
            depth <= links,
        ensures
            btree::leaf_below(node, self.nodes, search, self.key_len, ord, links) matches Ok(leaf)
                && self.is_searched_leaf(leaf, self.entries(node, depth), search, ord),
        decreases depth,
    {
        if btree::node_is_leaf(node) {
            self.lemma_search_leaf(node, search, ord, depth);
        } else {
            self.lemma_separator_keys(node, depth);
            self.lemma_seen_in_order(node, btree::CHILD_LINK_SIZE, search, ord);
            btree::law_last_le_in_order(node, search, self.key_len, btree::CHILD_LINK_SIZE, ord);
            assert forall|j: u32| j < btree::node_key_count(node) implies self.le(
                #[trigger] btree::key_of(node, j, self.key_len, btree::CHILD_LINK_SIZE),
                search,
            ) == (ord(btree::key_of(node, j, self.key_len, btree::CHILD_LINK_SIZE), search)
                != Ordering::Greater) by {}
            let index = btree::child_of(node, search, self.key_len, ord)->Ok_0;
            assert(self.goes_to(node, search, index));
            let next = self.lemma_choice(node, depth, search, index);
            self.lemma_descent(next, search, ord, Self::under(depth), btree::fewer(links));
            let leaf = btree::leaf_below(node, self.nodes, search, self.key_len, ord, links)->Ok_0;
            let entries = self.entries(node, depth);
            let below = self.entries(next, Self::under(depth));
            match btree::equal_entry(leaf, search, self.key_len, self.val_len, ord) {
                Err(_) => {},
                Ok(None) => {
                    assert forall|at: int| !self.matches_at(entries, search, at) by {
                        if self.matches_at(entries, search, at) {
                            let found = choose|found: int| self.matches_at(below, search, found);
                            assert(!self.matches_at(below, search, found));
                        }
                    }
                },
                Ok(Some(entry)) => {
                    let at = choose|at: int| #[trigger]
                        self.matches_at(below, search, at) && below[at] == entry;
                    let found = choose|found: int|
                        0 <= found < entries.len() && #[trigger] entries[found] == below[at];
                    assert(self.matches_at(entries, search, found) && entries[found] == entry);
                },
            }
        }
    }

    /// In an ordered tree, the search for the last key not behind `search` finds
    /// the last such entry of the whole tree, though it looks into one leaf only.
    pub proof fn law_le_search_finds_the_last(
        self,
        root: Seq<u8>,
        search: Seq<u8>,
        ord: spec_fn(Seq<u8>, Seq<u8>) -> Ordering,
        depth: nat,
    )
        requires
            self.has_total_order(),
            self.is_compared_by(ord),
            (self.valid)(search),
            btree::root_info(root) matches Ok(info) && btree::sizes_of(info) == (
                self.key_len,
                self.val_len,
            ),
            self.is_ordered(root, depth),
            depth <= u64::MAX,
        ensures
            btree::tree_le(root, self.nodes, search, ord) == Ok::<
                Option<(Seq<u8>, Seq<u8>)>,
                ApfsError,
            >(
                match self.last_upto(self.entries(root, depth), search) {
                    None => None,
                    Some(entry) => match entry.value {
                        None => None,
                        Some(value) => Some((entry.key, value)),
                    },
                },
            ),
    {
        self.lemma_descent(root, search, ord, depth, u64::MAX);
    }

    /// In an ordered tree, the search for `search` finds the value of an entry
    /// with that key, and finds none only where the whole tree holds none.
    pub proof fn law_equal_search_finds_a_match(
        self,
        root: Seq<u8>,
        search: Seq<u8>,
        ord: spec_fn(Seq<u8>, Seq<u8>) -> Ordering,
        depth: nat,
    )
        requires
            self.has_total_order(),
            self.is_compared_by(ord),
            (self.valid)(search),
            btree::root_info(root) matches Ok(info) && btree::sizes_of(info) == (
                self.key_len,
                self.val_len,
            ),
            self.is_ordered(root, depth),
            depth <= u64::MAX,
        ensures
            match btree::tree_value(root, self.nodes, search, ord) {
                Err(_) => false,
                Ok(value) => {
                    ||| exists|at: int| #[trigger]
                        self.matches_at(self.entries(root, depth), search, at) && value
                            == self.entries(root, depth)[at].value
                    ||| value is None && forall|at: int|
                        !self.matches_at(self.entries(root, depth), search, at)
                },
            },
    {
        self.lemma_descent(root, search, ord, depth, u64::MAX);
    }
}

} // verus!
