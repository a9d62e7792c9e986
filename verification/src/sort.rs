//! Stable sorting by a numeric rank.

use vstd::prelude::*;

verus! {

/// A value that is ordered by a number.
pub trait Ranked {
    /// The number by which the value is ordered.
    spec fn spec_rank(&self) -> nat;

    /// The number by which the value is ordered.
    fn rank(&self) -> (rank: u128)
        ensures
            rank == self.spec_rank(),
    ;
}

/// The rank of a value, as a function.
pub open spec fn rank_of<T: Ranked>() -> spec_fn(T) -> nat {
    |value: T| value.spec_rank()
}

/// Whether the ranks in `items` do not decrease.
pub open spec fn is_sorted<A>(items: Seq<A>, rank: spec_fn(A) -> nat) -> bool {
    forall|i: int, j: int|
        #![trigger items[i], items[j]]
        0 <= i <= j < items.len() ==> rank(items[i]) <= rank(items[j])
}

/// `items` with `item` put behind the last one that it does not precede.
pub open spec fn insert_stable<A>(items: Seq<A>, item: A, rank: spec_fn(A) -> nat) -> Seq<A>
    decreases items.len(),
{
    if items.len() == 0 || rank(items.last()) <= rank(item) {
        items.push(item)
    } else {
        insert_stable(items.drop_last(), item, rank).push(items.last())
    }
}

/// `items` sorted by rank, where items of one rank keep their order.
pub open spec fn stable_sort<A>(items: Seq<A>, rank: spec_fn(A) -> nat) -> Seq<A>
    decreases items.len(),
{
    if items.len() == 0 {
        items
    } else {
        insert_stable(stable_sort(items.drop_last(), rank), items.last(), rank)
    }
}

/// In sorted items, the place of a new item is behind every item of its rank
/// or a lower one, and before every item of a higher one.
proof fn lemma_insert_stable<A>(items: Seq<A>, item: A, rank: spec_fn(A) -> nat, at: int)
    requires
        is_sorted(items, rank),
        0 <= at <= items.len(),
        forall|i: int| 0 <= i < at ==> rank(#[trigger] items[i]) <= rank(item),
        forall|i: int| at <= i < items.len() ==> rank(#[trigger] items[i]) > rank(item),
    ensures
        insert_stable(items, item, rank) == items.insert(at, item),
        is_sorted(items.insert(at, item), rank),
    decreases items.len(),
{
    if items.len() == 0 || rank(items.last()) <= rank(item) {
        assert(at == items.len()) by {
            if at < items.len() {
                assert(rank(items[items.len() - 1]) > rank(item));
            }
        }
        assert(items.insert(at, item) =~= items.push(item));
    } else {
        assert(at < items.len()) by {
            if at == items.len() {
                assert(rank(items[items.len() - 1]) <= rank(item));
            }
        }
        let shorter = items.drop_last();
        lemma_insert_stable(shorter, item, rank, at);
        assert(shorter.insert(at, item).push(items.last()) =~= items.insert(at, item));
    }
}

/// Sorting gives as many items as it got, sorted by rank.
pub proof fn law_stable_sort_sorts<A>(items: Seq<A>, rank: spec_fn(A) -> nat)
    ensures
        stable_sort(items, rank).len() == items.len(),
        is_sorted(stable_sort(items, rank), rank),
    decreases items.len(),
{
    if items.len() > 0 {
        let shorter = stable_sort(items.drop_last(), rank);
        law_stable_sort_sorts(items.drop_last(), rank);
        let at = place(shorter, items.last(), rank);
        lemma_place(shorter, items.last(), rank);
        lemma_insert_stable(shorter, items.last(), rank, at);
    }
}

/// How many leading items do not follow `item`.
spec fn place<A>(items: Seq<A>, item: A, rank: spec_fn(A) -> nat) -> int
    decreases items.len(),
{
    if items.len() == 0 || rank(items.last()) <= rank(item) {
        items.len() as int
    } else {
        place(items.drop_last(), item, rank)
    }
}

proof fn lemma_place<A>(items: Seq<A>, item: A, rank: spec_fn(A) -> nat)
    requires
        is_sorted(items, rank),
    ensures
        0 <= place(items, item, rank) <= items.len(),
        forall|i: int|
            0 <= i < place(items, item, rank) ==> rank(#[trigger] items[i]) <= rank(item),
        forall|i: int|
            place(items, item, rank) <= i < items.len() ==> rank(#[trigger] items[i]) > rank(item),
    decreases items.len(),
{
    if items.len() == 0 {
    } else if rank(items.last()) <= rank(item) {
        assert forall|i: int| 0 <= i < items.len() implies rank(#[trigger] items[i]) <= rank(
            item,
        ) by {
            assert(rank(items[i]) <= rank(items[items.len() - 1]));
        }
    } else {
        let shorter = items.drop_last();
        assert(is_sorted(shorter, rank));
        lemma_place(shorter, item, rank);
        assert forall|i: int| 0 <= i < place(shorter, item, rank) implies rank(
            #[trigger] items[i],
        ) <= rank(item) by {
            assert(items[i] == shorter[i]);
        }
        assert forall|i: int| place(shorter, item, rank) <= i < items.len() implies rank(
            #[trigger] items[i],
        ) > rank(item) by {
            if i < shorter.len() {
                assert(items[i] == shorter[i]);
            }
        }
    }
}

/// Sorting keeps the items, each as often as it occurs.
pub proof fn law_stable_sort_permutes<A>(items: Seq<A>, rank: spec_fn(A) -> nat)
    ensures
        stable_sort(items, rank).to_multiset() == items.to_multiset(),
    decreases items.len(),
{
    broadcast use vstd::seq_lib::group_to_multiset_ensures;

    if items.len() > 0 {
        law_stable_sort_permutes(items.drop_last(), rank);
        lemma_insert_permutes(stable_sort(items.drop_last(), rank), items.last(), rank);
        assert(items.drop_last().push(items.last()) =~= items);
    }
}

/// Sequences of the same items contain the same items.
pub proof fn lemma_same_multiset_contains<A>(left: Seq<A>, right: Seq<A>, item: A)
    requires
        left.to_multiset() == right.to_multiset(),
        right.contains(item),
    ensures
        left.contains(item),
{
    broadcast use vstd::seq_lib::group_to_multiset_ensures;

    assert(right.to_multiset().count(item) > 0);
    assert(left.to_multiset().count(item) > 0);
}

proof fn lemma_insert_permutes<A>(items: Seq<A>, item: A, rank: spec_fn(A) -> nat)
    ensures
        insert_stable(items, item, rank).to_multiset() == items.to_multiset().insert(item),
    decreases items.len(),
{
    broadcast use vstd::seq_lib::group_to_multiset_ensures;

    if items.len() == 0 || rank(items.last()) <= rank(item) {
    } else {
        lemma_insert_permutes(items.drop_last(), item, rank);
        assert(items.drop_last().push(items.last()) =~= items);
        assert(items.drop_last().to_multiset().insert(item).insert(items.last())
            =~= items.drop_last().to_multiset().insert(items.last()).insert(item));
    }
}

/// Sorting sorted items changes nothing.
pub proof fn law_stable_sort_of_sorted<A>(items: Seq<A>, rank: spec_fn(A) -> nat)
    requires
        is_sorted(items, rank),
    ensures
        stable_sort(items, rank) == items,
    decreases items.len(),
{
    if items.len() > 0 {
        let shorter = items.drop_last();
        assert(is_sorted(shorter, rank));
        law_stable_sort_of_sorted(shorter, rank);
        assert(shorter.push(items.last()) =~= items);
        if shorter.len() > 0 {
            assert(shorter.last() == items[items.len() - 2]);
            assert(rank(items[items.len() - 2]) <= rank(items[items.len() - 1]));
        }
    }
}

/// Sorting commutes with a mapping that keeps the ranks.
pub proof fn lemma_stable_sort_map<A, B>(
    items: Seq<A>,
    rank: spec_fn(A) -> nat,
    f: spec_fn(A) -> B,
    mapped_rank: spec_fn(B) -> nat,
)
    requires
        forall|a: A| rank(a) == #[trigger] mapped_rank(f(a)),
    ensures
        stable_sort(items, rank).map_values(f) == stable_sort(items.map_values(f), mapped_rank),
    decreases items.len(),
{
    if items.len() > 0 {
        let shorter = items.drop_last();
        lemma_stable_sort_map(shorter, rank, f, mapped_rank);
        assert(items.map_values(f).drop_last() =~= shorter.map_values(f));
        lemma_insert_map(stable_sort(shorter, rank), items.last(), rank, f, mapped_rank);
    } else {
        assert(items.map_values(f) =~= Seq::<B>::empty());
        assert(stable_sort(items, rank).map_values(f) =~= Seq::<B>::empty());
    }
}

proof fn lemma_insert_map<A, B>(
    items: Seq<A>,
    item: A,
    rank: spec_fn(A) -> nat,
    f: spec_fn(A) -> B,
    mapped_rank: spec_fn(B) -> nat,
)
    requires
        forall|a: A| rank(a) == #[trigger] mapped_rank(f(a)),
    ensures
        insert_stable(items, item, rank).map_values(f) == insert_stable(
            items.map_values(f),
            f(item),
            mapped_rank,
        ),
    decreases items.len(),
{
    let mapped = items.map_values(f);
    assert(rank(item) == mapped_rank(f(item)));
    if items.len() == 0 || rank(items.last()) <= rank(item) {
        if items.len() > 0 {
            assert(mapped.last() == f(items.last()));
            assert(rank(items.last()) == mapped_rank(f(items.last())));
        }
        assert(items.push(item).map_values(f) =~= mapped.push(f(item)));
    } else {
        assert(mapped.last() == f(items.last()));
        assert(rank(items.last()) == mapped_rank(f(items.last())));
        assert(mapped.drop_last() =~= items.drop_last().map_values(f));
        lemma_insert_map(items.drop_last(), item, rank, f, mapped_rank);
        assert(insert_stable(items.drop_last(), item, rank).push(items.last()).map_values(f)
            =~= insert_stable(items.drop_last(), item, rank).map_values(f).push(f(items.last())));
    }
}

/// Sorts `items` by rank; items of one rank keep their order.
pub fn sort_by_rank<T: Ranked>(items: &mut Vec<T>)
    ensures
        final(items)@ == stable_sort(old(items)@, rank_of::<T>()),
{
    let ghost start = items@;
    let ghost rank = rank_of::<T>();
    let len: usize = items.len();
    let mut done: usize = 0;
    assert(start.take(0) =~= Seq::<T>::empty());
    assert(stable_sort(start.take(0), rank) + start.skip(0) =~= start);
    while done < len
        invariant
            done <= len,
            len == start.len(),
            rank == rank_of::<T>(),
            items@ == stable_sort(start.take(done as int), rank) + start.skip(done as int),
        decreases len - done,
    {
        let ghost sorted = stable_sort(start.take(done as int), rank);
        let ghost item = start[done as int];
        proof {
            law_stable_sort_sorts(start.take(done as int), rank);
            assert(start.take(done + 1).drop_last() =~= start.take(done as int));
            assert(start.take(done + 1).last() == item);
            assert(items@[done as int] == item);
        }
        let at: usize = insertion_point(items, done);
        proof {
            assert forall|i: int| 0 <= i < at implies rank(#[trigger] sorted[i]) <= rank(item) by {
                assert(sorted[i] == items@[i]);
            }
            assert forall|i: int| at <= i < sorted.len() implies rank(#[trigger] sorted[i]) > rank(
                item,
            ) by {
                assert(sorted[i] == items@[i]);
            }
            lemma_insert_stable(sorted, item, rank, at as int);
        }
        if at < done {
            let moved: T = items.remove(done);
            items.insert(at, moved);
        }
        assert(items@ =~= sorted.insert(at as int, item) + start.skip(done + 1));
        done += 1;
    }
    assert(start.take(len as int) =~= start);
    assert(items@ =~= stable_sort(start, rank));
}

/// Puts `item` into sorted items, behind every item of its rank.
pub fn insert_ranked<T: Ranked>(items: &mut Vec<T>, item: T)
    requires
        is_sorted(old(items)@, rank_of::<T>()),
    ensures
        final(items)@ == insert_stable(old(items)@, item, rank_of::<T>()),
{
    let ghost sorted = items@;
    let ghost rank = rank_of::<T>();
    let len: usize = items.len();
    items.push(item);
    assert(items@.take(len as int) =~= sorted);
    let at: usize = insertion_point(items, len);
    proof {
        assert forall|i: int| 0 <= i < at implies rank(#[trigger] sorted[i]) <= rank(item) by {
            assert(sorted[i] == items@[i]);
        }
        assert forall|i: int| at <= i < sorted.len() implies rank(#[trigger] sorted[i]) > rank(
            item,
        ) by {
            assert(sorted[i] == items@[i]);
        }
        lemma_insert_stable(sorted, item, rank, at as int);
    }
    if at < len {
        let moved: T = items.remove(len);
        items.insert(at, moved);
    }
    assert(items@ =~= sorted.insert(at as int, item));
}

/// Where the item at `done` belongs among the sorted items before it.
fn insertion_point<T: Ranked>(items: &Vec<T>, done: usize) -> (at: usize)
    requires
        done < items@.len(),
        is_sorted(items@.take(done as int), rank_of::<T>()),
    ensures
        at <= done,
        forall|i: int|
            0 <= i < at ==> (#[trigger] items@[i]).spec_rank() <= items@[done as int].spec_rank(),
        forall|i: int|
            at <= i < done ==> (#[trigger] items@[i]).spec_rank() > items@[done as int].spec_rank(),
{
    let ghost sorted = items@.take(done as int);
    let rank: u128 = items[done].rank();
    let mut lo: usize = 0;
    let mut hi: usize = done;
    if done > 0 && items[done - 1].rank() <= rank {
        assert forall|i: int| 0 <= i < done implies (#[trigger] items@[i]).spec_rank() <= rank by {
            assert(sorted[i] == items@[i] && sorted[done - 1] == items@[done - 1]);
        }
        return done;
    }
    while lo < hi
        invariant
            lo <= hi <= done < items@.len(),
            rank == items@[done as int].spec_rank(),
            sorted == items@.take(done as int),
            is_sorted(sorted, rank_of::<T>()),
            forall|i: int| 0 <= i < lo ==> (#[trigger] items@[i]).spec_rank() <= rank,
            forall|i: int| hi <= i < done ==> (#[trigger] items@[i]).spec_rank() > rank,
        decreases hi - lo,
    {
        let mid: usize = lo + (hi - lo) / 2;
        if items[mid].rank() <= rank {
            assert forall|i: int| 0 <= i < mid + 1 implies (#[trigger] items@[i]).spec_rank()
                <= rank by {
                assert(sorted[i] == items@[i] && sorted[mid as int] == items@[mid as int]);
            }
            lo = mid + 1;
        } else {
            assert forall|i: int| mid <= i < done implies (#[trigger] items@[i]).spec_rank()
                > rank by {
                assert(sorted[i] == items@[i] && sorted[mid as int] == items@[mid as int]);
            }
            hi = mid;
        }
    }
    lo
}

impl Ranked for u64 {
    open spec fn spec_rank(&self) -> nat {
        *self as nat
    }

    fn rank(&self) -> (rank: u128) {
        *self as u128
    }
}

proof fn lemma_insert_keeps_order<A>(items: Seq<A>, item: A, rank: spec_fn(A) -> nat, of: nat)
    ensures
        insert_stable(items, item, rank).filter(|other: A| rank(other) == of) == if rank(item)
            == of {
            items.filter(|other: A| rank(other) == of).push(item)
        } else {
            items.filter(|other: A| rank(other) == of)
        },
    decreases items.len(),
{
    reveal(Seq::filter);
    let wanted = |other: A| rank(other) == of;
    if items.len() == 0 || rank(items.last()) <= rank(item) {
        assert(items.push(item).drop_last() =~= items);
    } else {
        let shorter = insert_stable(items.drop_last(), item, rank);
        lemma_insert_keeps_order(items.drop_last(), item, rank, of);
        assert(shorter.push(items.last()).drop_last() =~= shorter);
    }
}

/// Sorting keeps the order of items of one rank.
pub proof fn law_stable_sort_is_stable<A>(items: Seq<A>, rank: spec_fn(A) -> nat, of: nat)
    ensures
        stable_sort(items, rank).filter(|other: A| rank(other) == of) == items.filter(
            |other: A| rank(other) == of,
        ),
    decreases items.len(),
{
    reveal(Seq::filter);
    if items.len() > 0 {
        law_stable_sort_is_stable(items.drop_last(), rank, of);
        lemma_insert_keeps_order(stable_sort(items.drop_last(), rank), items.last(), rank, of);
    }
}

} // verus!
