//! Sorting that keeps the order of what compares equal.

use vstd::prelude::*;

verus! {

/// An item added to sorted items, behind those that it may stand behind.
pub open spec fn insert_by<A>(items: Seq<A>, item: A, le: spec_fn(A, A) -> bool) -> Seq<A>
    decreases items.len(),
{
    if items.len() == 0 || le(items.last(), item) {
        items.push(item)
    } else {
        insert_by(items.drop_last(), item, le).push(items.last())
    }
}

/// The items in order; items that compare equal keep their order.
pub open spec fn sort_by<A>(items: Seq<A>, le: spec_fn(A, A) -> bool) -> Seq<A>
    decreases items.len(),
{
    if items.len() == 0 {
        Seq::empty()
    } else {
        insert_by(sort_by(items.drop_last(), le), items.last(), le)
    }
}

/// Whether every two items are comparable, and comparing is transitive.
pub open spec fn orders<A>(le: spec_fn(A, A) -> bool) -> bool {
    &&& forall|a: A, b: A| #[trigger] le(a, b) || le(b, a)
    &&& forall|a: A, b: A, c: A| #[trigger] le(a, b) && #[trigger] le(b, c) ==> le(a, c)
}

/// Whether each item may stand before each later one.
pub open spec fn in_order<A>(items: Seq<A>, le: spec_fn(A, A) -> bool) -> bool {
    forall|i: int, j: int| 0 <= i < j < items.len() ==> le(#[trigger] items[i], #[trigger] items[j])
}

proof fn lemma_insert_bound<A>(items: Seq<A>, item: A, bound: A, le: spec_fn(A, A) -> bool)
    requires
        le(item, bound),
        forall|i: int| 0 <= i < items.len() ==> le(#[trigger] items[i], bound),
    ensures
        forall|i: int|
            0 <= i < insert_by(items, item, le).len() ==> le(
                #[trigger] insert_by(items, item, le)[i],
                bound,
            ),
    decreases items.len(),
{
    if items.len() > 0 && !le(items.last(), item) {
        let init = items.drop_last();
        assert forall|i: int| 0 <= i < init.len() implies le(#[trigger] init[i], bound) by {
            assert(init[i] == items[i]);
        }
        lemma_insert_bound(init, item, bound, le);
        assert(le(items[items.len() - 1], bound));
        let head = insert_by(init, item, le);
        let r = insert_by(items, item, le);
        assert(r == head.push(items.last()));
        assert forall|i: int| 0 <= i < r.len() implies le(#[trigger] r[i], bound) by {
            if i < head.len() {
                assert(r[i] == head[i]);
            }
        }
    } else {
        let r = insert_by(items, item, le);
        assert(r == items.push(item));
        assert forall|i: int| 0 <= i < r.len() implies le(#[trigger] r[i], bound) by {
            if i < items.len() {
                assert(r[i] == items[i]);
            }
        }
    }
}

/// Adding an item to items in order keeps them in order.
pub proof fn lemma_insert_in_order<A>(items: Seq<A>, item: A, le: spec_fn(A, A) -> bool)
    requires
        orders(le),
        in_order(items, le),
    ensures
        in_order(insert_by(items, item, le), le),
        insert_by(items, item, le).to_multiset() =~= items.to_multiset().insert(item),
    decreases items.len(),
{
    broadcast use vstd::seq_lib::group_to_multiset_ensures;

    let r = insert_by(items, item, le);
    if items.len() == 0 {
    } else if le(items.last(), item) {
        assert forall|i: int, j: int| 0 <= i < j < r.len() implies le(
            #[trigger] r[i],
            #[trigger] r[j],
        ) by {
            if j == items.len() && i < items.len() - 1 {
                assert(le(items[i], items[items.len() - 1]));
                assert(le(items[items.len() - 1], item));
            }
        }
    } else {
        let init = items.drop_last();
        let last = items.last();
        assert(in_order(init, le));
        lemma_insert_in_order(init, item, le);
        assert(le(item, last));
        assert forall|i: int| 0 <= i < init.len() implies le(#[trigger] init[i], last) by {
            assert(le(items[i], items[items.len() - 1]));
        }
        lemma_insert_bound(init, item, last, le);
        assert(init.push(last) =~= items);
        assert(items.to_multiset() =~= init.to_multiset().insert(last));
        assert(r.to_multiset() =~= insert_by(init, item, le).to_multiset().insert(last));
        assert(init.to_multiset().insert(item).insert(last) =~= init.to_multiset().insert(
            last,
        ).insert(item));
    }
}

/// Sorting puts the items in order and neither loses nor adds any.
pub proof fn lemma_sort_by<A>(items: Seq<A>, le: spec_fn(A, A) -> bool)
    requires
        orders(le),
    ensures
        in_order(sort_by(items, le), le),
        sort_by(items, le).to_multiset() == items.to_multiset(),
        sort_by(items, le).len() == items.len(),
    decreases items.len(),
{
    broadcast use vstd::seq_lib::group_to_multiset_ensures;

    if items.len() > 0 {
        let init = items.drop_last();
        lemma_sort_by(init, le);
        lemma_insert_in_order(sort_by(init, le), items.last(), le);
        assert(init.push(items.last()) =~= items);
        assert(items.to_multiset() =~= init.to_multiset().insert(items.last()));
        assert(sort_by(items, le).to_multiset().len() == sort_by(items, le).len());
        assert(items.to_multiset().len() == items.len());
    } else {
        assert(items =~= Seq::empty());
    }
}

/// Sorting leaves items that are in order as they are.
pub proof fn lemma_sorted_stays<A>(items: Seq<A>, le: spec_fn(A, A) -> bool)
    requires
        in_order(items, le),
    ensures
        sort_by(items, le) == items,
    decreases items.len(),
{
    if items.len() > 0 {
        let init = items.drop_last();
        assert(in_order(init, le)) by {
            assert forall|i: int, j: int| 0 <= i < j < init.len() implies le(
                #[trigger] init[i],
                #[trigger] init[j],
            ) by {
                assert(le(items[i], items[j]));
            }
        }
        lemma_sorted_stays(init, le);
        if init.len() > 0 {
            assert(le(items[items.len() - 2], items[items.len() - 1]));
        }
        assert(init.push(items.last()) =~= items);
    } else {
        assert(items =~= Seq::empty());
    }
}

/// What stands among items after one was added stood there before, or is what was added.
pub proof fn lemma_insert_members<A>(items: Seq<A>, item: A, le: spec_fn(A, A) -> bool)
    ensures
        forall|i: int|
            0 <= i < insert_by(items, item, le).len() ==> (#[trigger] insert_by(items, item, le)[i])
                == item || items.contains(insert_by(items, item, le)[i]),
    decreases items.len(),
{
    let r = insert_by(items, item, le);
    let added = items.len() == 0 || le(items.last(), item);
    let init = items.drop_last();
    if !added {
        lemma_insert_members(init, item, le);
    }
    assert forall|i: int| 0 <= i < r.len() implies (#[trigger] r[i]) == item || items.contains(
        r[i],
    ) by {
        if added {
            if i < items.len() {
                assert(r[i] == items[i]);
            }
        } else {
            let head = insert_by(init, item, le);
            if i < head.len() {
                assert(r[i] == head[i]);
                if head[i] != item {
                    let k = choose|k: int| 0 <= k < init.len() && init[k] == head[i];
                    assert(items[k] == r[i]);
                }
            } else {
                assert(r[i] == items[items.len() - 1]);
            }
        }
    }
}

/// The items from the last to the first.
pub fn reversed<T>(mut list: Vec<T>) -> (r: Vec<T>)
    ensures
        r@ == list@.reverse(),
{
    let ghost all = list@;
    let mut out: Vec<T> = Vec::new();
    assert(all.skip(all.len() as int).reverse() =~= out@);
    while list.len() > 0
        invariant
            list@.len() <= all.len(),
            list@ == all.take(list@.len() as int),
            out@ == all.skip(list@.len() as int).reverse(),
        decreases list@.len(),
    {
        let ghost n = list@.len();
        if let Some(item) = list.pop() {
            out.push(item);
        }
        assert(list@ =~= all.take(n - 1));
        assert(out@ =~= all.skip(n - 1).reverse());
    }
    assert(all.skip(0) =~= all);
    out
}

} // verus!
