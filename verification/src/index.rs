//! Maps from identifiers.

use std::collections::{BTreeMap, BTreeSet};

use vstd::prelude::*;

verus! {

/// The identifiers of a set that are below `bound`, in ascending order.
pub open spec fn ids_below(ids: Set<u64>, bound: nat) -> Seq<u64>
    decreases bound,
{
    if bound == 0 {
        Seq::empty()
    } else {
        let before = ids_below(ids, (bound - 1) as nat);
        if ids.contains((bound - 1) as u64) {
            before.push((bound - 1) as u64)
        } else {
            before
        }
    }
}

/// The identifiers of a set in ascending order.
pub open spec fn ascending(ids: Set<u64>) -> Seq<u64> {
    ids_below(ids, 0x1_0000_0000_0000_0000)
}

/// Whether each identifier is larger than those before it.
pub open spec fn is_ascending(ids: Seq<u64>) -> bool {
    forall|i: int, j: int| 0 <= i < j < ids.len() ==> #[trigger] ids[i] < #[trigger] ids[j]
}

proof fn lemma_ids_below(list: Seq<u64>, ids: Set<u64>, bound: nat) -> (count: nat)
    requires
        bound <= 0x1_0000_0000_0000_0000,
        is_ascending(list),
        forall|id: u64| #[trigger] list.contains(id) <==> ids.contains(id),
    ensures
        count <= list.len(),
        list.take(count as int) == ids_below(ids, bound),
        forall|i: int| 0 <= i < count ==> #[trigger] list[i] < bound,
        forall|i: int| count <= i < list.len() ==> #[trigger] list[i] >= bound,
    decreases bound,
{
    if bound == 0 {
        assert(list.take(0) =~= ids_below(ids, 0));
        0
    } else {
        let last = (bound - 1) as u64;
        let count = lemma_ids_below(list, ids, (bound - 1) as nat);
        if ids.contains(last) {
            assert(list.contains(last));
            let at = choose|at: int| 0 <= at < list.len() && list[at] == last;
            assert(at == count) by {
                if at > count {
                    assert(list[count as int] < list[at]);
                }
            }
            assert(list.take(count as int + 1) =~= list.take(count as int).push(last));
            assert forall|i: int| count + 1 <= i < list.len() implies #[trigger] list[i]
                >= bound by {
                assert(list[count as int] < list[i]);
            }
            (count + 1) as nat
        } else {
            assert forall|i: int| count <= i < list.len() implies #[trigger] list[i] >= bound by {
                assert(list.contains(list[i]));
            }
            count
        }
    }
}

/// An ascending list of exactly the identifiers of a set is the list of them in
/// ascending order.
pub proof fn lemma_ascending_is(list: Seq<u64>, ids: Set<u64>)
    requires
        is_ascending(list),
        forall|id: u64| #[trigger] list.contains(id) <==> ids.contains(id),
    ensures
        list == ascending(ids),
{
    let count = lemma_ids_below(list, ids, 0x1_0000_0000_0000_0000);
    assert(count == list.len()) by {
        if count < list.len() {
            assert(list[count as int] >= 0x1_0000_0000_0000_0000);
        }
    }
    assert(list.take(count as int) =~= list);
}

proof fn lemma_ids_below_sound(ids: Set<u64>, bound: nat)
    requires
        bound <= 0x1_0000_0000_0000_0000,
    ensures
        is_ascending(ids_below(ids, bound)),
        forall|i: int|
            0 <= i < ids_below(ids, bound).len() ==> #[trigger] ids_below(ids, bound)[i] < bound
                && ids.contains(ids_below(ids, bound)[i]),
        forall|id: u64|
            id < bound && ids.contains(id) ==> #[trigger] ids_below(ids, bound).contains(id),
    decreases bound,
{
    if bound > 0 {
        lemma_ids_below_sound(ids, (bound - 1) as nat);
        let last = (bound - 1) as u64;
        let before = ids_below(ids, (bound - 1) as nat);
        let list = ids_below(ids, bound);
        assert forall|id: u64| id < bound && ids.contains(id) implies #[trigger] list.contains(
            id,
        ) by {
            if id == last {
                assert(list[list.len() - 1] == last);
            } else {
                assert(before.contains(id));
                let at = choose|at: int| 0 <= at < before.len() && before[at] == id;
                assert(list[at] == id);
            }
        }
    }
}

/// The ascending list of a set is in order and holds exactly its identifiers.
pub proof fn law_ascending_lists_the_set(ids: Set<u64>)
    ensures
        is_ascending(ascending(ids)),
        forall|id: u64| #[trigger] ascending(ids).contains(id) <==> ids.contains(id),
{
    lemma_ids_below_sound(ids, 0x1_0000_0000_0000_0000);
    assert forall|id: u64| #[trigger] ascending(ids).contains(id) implies ids.contains(id) by {
        let at = choose|at: int| 0 <= at < ascending(ids).len() && ascending(ids)[at] == id;
        assert(ids.contains(ascending(ids)[at]));
    }
}

/// The value of an identifier.
pub(crate) fn get<V>(map: &BTreeMap<u64, V>, id: u64) -> (found: Option<&V>)
    ensures
        match found {
            Some(value) => map@.dom().contains(id) && map@[id] == *value,
            None => !map@.dom().contains(id),
        },
{
    broadcast use vstd::std_specs::btree::group_btree_axioms;
    broadcast use vstd::laws_cmp::group_laws_cmp;

    map.get(&id)
}

/// Gives an identifier a value.
pub(crate) fn put<V>(map: &mut BTreeMap<u64, V>, id: u64, value: V)
    ensures
        final(map)@ == old(map)@.insert(id, value),
{
    broadcast use vstd::std_specs::btree::group_btree_axioms;
    broadcast use vstd::laws_cmp::group_laws_cmp;

    map.insert(id, value);
}

/// Removes the value of an identifier.
pub(crate) fn take<V>(map: &mut BTreeMap<u64, V>, id: u64) -> (found: Option<V>)
    ensures
        final(map)@ == old(map)@.remove(id),
        match found {
            Some(value) => old(map)@.dom().contains(id) && old(map)@[id] == value,
            None => !old(map)@.dom().contains(id),
        },
{
    broadcast use vstd::std_specs::btree::group_btree_axioms;
    broadcast use vstd::laws_cmp::group_laws_cmp;

    map.remove(&id)
}

/// The identifiers of a map in ascending order.
pub(crate) fn ids<V>(map: &BTreeMap<u64, V>) -> (list: Vec<u64>)
    ensures
        list@ == ascending(map@.dom()),
{
    broadcast use vstd::std_specs::btree::group_btree_axioms;
    broadcast use vstd::laws_cmp::group_laws_cmp;

    let ghost order = vstd::std_specs::iter::IteratorSpec::remaining(
        &vstd::std_specs::btree::spec_keys_iter(map),
    );
    let mut list: Vec<u64> = Vec::new();
    for id in keys: map.keys()
        invariant
            keys.seq() == order,
            list@.len() == keys.index(),
            forall|i: int| 0 <= i < list@.len() ==> list@[i] == *order[i],
    {
        list.push(*id);
    }
    proof {
        assert(list@ =~= order.unref());
        assert(order.unref().to_set() == map@.dom());
        assert(vstd::std_specs::btree::increasing_seq(order));
        assert forall|i: int, j: int| 0 <= i < j < list@.len() implies #[trigger] list@[i]
            < #[trigger] list@[j] by {
            assert(vstd::std_specs::cmp::OrdSpec::cmp_spec(&order[i], &order[j]) is Less);
        }
        assert forall|id: u64| #[trigger] list@.contains(id) <==> map@.dom().contains(id) by {
            assert(list@.to_set().contains(id) <==> list@.contains(id));
        }
        lemma_ascending_is(list@, map@.dom());
    }
    list
}

/// Whether a set holds an identifier.
pub(crate) fn holds(set: &BTreeSet<u64>, id: u64) -> (found: bool)
    ensures
        found == set@.contains(id),
{
    broadcast use vstd::std_specs::btree::group_btree_axioms;
    broadcast use vstd::laws_cmp::group_laws_cmp;

    set.contains(&id)
}

/// Adds an identifier to a set.
pub(crate) fn include_id(set: &mut BTreeSet<u64>, id: u64)
    ensures
        final(set)@ == old(set)@.insert(id),
{
    broadcast use vstd::std_specs::btree::group_btree_axioms;
    broadcast use vstd::laws_cmp::group_laws_cmp;

    set.insert(id);
}

/// The value of a pair of identifiers.
pub(crate) fn get_pair<V>(map: &BTreeMap<(u64, u64), V>, pair: (u64, u64)) -> (found: Option<&V>)
    ensures
        match found {
            Some(value) => map@.dom().contains(pair) && map@[pair] == *value,
            None => !map@.dom().contains(pair),
        },
{
    broadcast use vstd::std_specs::btree::group_btree_axioms;
    broadcast use vstd::laws_cmp::group_laws_cmp;

    map.get(&pair)
}

/// Gives a pair of identifiers a value.
pub(crate) fn put_pair<V>(map: &mut BTreeMap<(u64, u64), V>, pair: (u64, u64), value: V)
    ensures
        final(map)@ == old(map)@.insert(pair, value),
{
    broadcast use vstd::std_specs::btree::group_btree_axioms;
    broadcast use vstd::laws_cmp::group_laws_cmp;

    map.insert(pair, value);
}

/// The identifiers of an ascending list that a set does not hold.
pub(crate) fn without(list: &Vec<u64>, set: &BTreeSet<u64>, Ghost(all): Ghost<Set<u64>>) -> (left:
    Vec<u64>)
    requires
        list@ == ascending(all),
    ensures
        left@ == ascending(all.difference(set@)),
{
    let ghost wanted = all.difference(set@);
    let mut left: Vec<u64> = Vec::new();
    let mut i: usize = 0;
    proof {
        law_ascending_lists_the_set(all);
    }
    while i < list.len()
        invariant
            i <= list@.len(),
            wanted == all.difference(set@),
            is_ascending(list@),
            forall|id: u64| #[trigger] list@.contains(id) <==> all.contains(id),
            is_ascending(left@),
            forall|k: int| 0 <= k < left@.len() ==> wanted.contains(#[trigger] left@[k]),
            forall|k: int, n: int|
                0 <= k < left@.len() && i <= n < list@.len() ==> #[trigger] left@[k]
                    < #[trigger] list@[n],
            forall|n: int|
                0 <= n < i && wanted.contains(#[trigger] list@[n]) ==> left@.contains(list@[n]),
        decreases list@.len() - i,
    {
        let id: u64 = list[i];
        let ghost before = left@;
        proof {
            assert(list@.contains(id));
        }
        if !holds(set, id) {
            left.push(id);
            proof {
                assert(left@[before.len() as int] == id);
            }
        }
        proof {
            assert forall|n: int|
                0 <= n < i + 1 && wanted.contains(#[trigger] list@[n]) implies left@.contains(
                list@[n],
            ) by {
                if n < i {
                    let k = before.index_of(list@[n]);
                    assert(left@[k] == list@[n]);
                }
            }
        }
        i += 1;
    }
    proof {
        assert forall|id: u64| #[trigger] left@.contains(id) <==> wanted.contains(id) by {
            if wanted.contains(id) {
                assert(list@.contains(id));
                let n = list@.index_of(id);
                assert(wanted.contains(list@[n]));
            }
            if left@.contains(id) {
                let k = left@.index_of(id);
                assert(wanted.contains(left@[k]));
            }
        }
        lemma_ascending_is(left@, wanted);
    }
    left
}

} // verus!
