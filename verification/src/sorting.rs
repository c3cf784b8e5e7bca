//! Sorting that keeps equals in their order.
use vstd::prelude::*;

verus! {

/// What can be sorted: by a number.
pub trait Ranked: Copy {
    /// The number to sort by.
    spec fn key(self) -> int;

    /// Whether this comes no later than `other`.
    fn at_most(&self, other: &Self) -> (r: bool)
        ensures
            r == (self.key() <= other.key()),
    ;
}

/// Whether `items` are in ascending order.
pub open spec fn ascending<T: Ranked>(items: Seq<T>) -> bool {
    forall|i: int, j: int| 0 <= i <= j < items.len() ==> items[i].key() <= items[j].key()
}

/// Those of `items` that have the key `k`, in their order.
pub open spec fn with_key<T: Ranked>(items: Seq<T>, k: int) -> Seq<T> {
    items.filter(|item: T| item.key() == k)
}

/// Whether `sorted` holds the items of `items` in ascending order, equals in their old order.
pub open spec fn sorts<T: Ranked>(items: Seq<T>, sorted: Seq<T>) -> bool {
    &&& ascending(sorted)
    &&& sorted.len() == items.len()
    &&& forall|k: int| #[trigger] with_key(sorted, k) == with_key(items, k)
}

/// Those with a given key, when an item is put in behind all that come no later.
proof fn lemma_with_key_insert<T: Ranked>(items: Seq<T>, at: int, item: T, k: int)
    requires
        0 <= at <= items.len(),
        forall|i: int| at <= i < items.len() ==> (#[trigger] items[i]).key() > item.key(),
    ensures
        with_key(items.insert(at, item), k) == if item.key() == k {
            with_key(items, k).push(item)
        } else {
            with_key(items, k)
        },
{
    let p = |x: T| x.key() == k;
    let before = items.take(at);
    let after = items.skip(at);
    assert(items == before + after);
    assert(items.insert(at, item) == before.push(item) + after);
    Seq::filter_distributes_over_add(before, after, p);
    Seq::filter_distributes_over_add(before.push(item), after, p);
    lemma_with_key_push(before, item, k);
    if item.key() == k {
        assert forall|i: int| 0 <= i < after.len() implies (#[trigger] after[i]).key() != k by {
            assert(after[i] == items[at + i]);
        }
        lemma_no_key(after, k);
        assert(with_key(before, k).push(item) + Seq::<T>::empty() == (with_key(before, k)
            + Seq::<T>::empty()).push(item));
    }
}

/// Those with a given key, when an item is put at the end.
proof fn lemma_with_key_push<T: Ranked>(items: Seq<T>, item: T, k: int)
    ensures
        with_key(items.push(item), k) == if item.key() == k {
            with_key(items, k).push(item)
        } else {
            with_key(items, k)
        },
{
    reveal(Seq::filter);
    assert(items.push(item).drop_last() == items);
}

/// Where no item has the key, there is none with it.
proof fn lemma_no_key<T: Ranked>(items: Seq<T>, k: int)
    requires
        forall|i: int| 0 <= i < items.len() ==> (#[trigger] items[i]).key() != k,
    ensures
        with_key(items, k) == Seq::<T>::empty(),
    decreases items.len(),
{
    reveal(Seq::filter);
    if items.len() > 0 {
        assert forall|i: int| 0 <= i < items.drop_last().len() implies (
        #[trigger] items.drop_last()[i]).key() != k by {
            assert(items.drop_last()[i] == items[i]);
        }
        lemma_no_key(items.drop_last(), k);
    }
}

/// An item occurs as often among those with its key as among all.
proof fn lemma_count_with_key<T: Ranked>(items: Seq<T>, item: T)
    ensures
        with_key(items, item.key()).to_multiset().count(item) == items.to_multiset().count(item),
    decreases items.len(),
{
    broadcast use vstd::seq_lib::group_to_multiset_ensures;

    reveal(Seq::filter);
    if items.len() > 0 {
        lemma_count_with_key(items.drop_last(), item);
        assert(items == items.drop_last().push(items.last()));
        lemma_with_key_push(items.drop_last(), items.last(), item.key());
    }
}

/// Sorting neither loses nor adds anything.
pub proof fn law_sorting_keeps_items<T: Ranked>(items: Seq<T>, sorted: Seq<T>)
    requires
        sorts(items, sorted),
    ensures
        sorted.to_multiset() == items.to_multiset(),
{
    assert forall|item: T| #[trigger]
        sorted.to_multiset().count(item) == items.to_multiset().count(item) by {
        lemma_count_with_key(items, item);
        lemma_count_with_key(sorted, item);
        assert(with_key(sorted, item.key()) == with_key(items, item.key()));
    }
    assert(sorted.to_multiset() =~= items.to_multiset());
}

/// Sorts `items`.
pub fn sort<T: Ranked>(items: &Vec<T>) -> (r: Vec<T>)
    ensures
        sorts(items@, r@),
{
    let mut r: Vec<T> = Vec::new();
    let mut i: usize = 0;
    proof {
        assert(items@.take(0) == Seq::<T>::empty());
    }
    while i < items.len()
        invariant
            i <= items.len(),
            sorts(items@.take(i as int), r@),
        decreases items.len() - i,
    {
        let item: T = items[i];
        let mut at: usize = r.len();
        while at > 0 && !r[at - 1].at_most(&item)
            invariant
                at <= r.len(),
                ascending(r@),
                forall|j: int| at <= j < r.len() ==> (#[trigger] r@[j]).key() > item.key(),
            decreases at,
        {
            at = at - 1;
        }
        let ghost before = r@;
        r.insert(at, item);
        proof {
            let taken = items@.take(i as int);
            assert(items@.take(i + 1) == taken.push(item));
            assert forall|k: int| #[trigger]
                with_key(r@, k) == with_key(items@.take(i + 1), k) by {
                lemma_with_key_insert(before, at as int, item, k);
                lemma_with_key_push(taken, item, k);
                assert(with_key(before, k) == with_key(taken, k));
            }
            assert forall|x: int, y: int| 0 <= x <= y < r@.len() implies r@[x].key()
                <= r@[y].key() by {
                if x < at && at > 0 {
                    assert(before[x].key() <= before[at - 1].key());
                }
            }
        }
        i = i + 1;
    }
    assert(items@.take(i as int) == items@);
    r
}

} // verus!
