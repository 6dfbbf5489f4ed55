//! Lists in an order.

use crate::text::lemma_prefix_step;
use vstd::prelude::*;

verus! {

/// What the items of a list stand for.
pub open spec fn views<T: View>(list: Seq<T>) -> Seq<T::V> {
    list.map_values(|t: T| t@)
}

/// Whether "comes before" is an order: nothing comes before what comes before
/// it, and what is not before one thing that is not before another is not
/// before that other.
pub open spec fn is_order<A>(before: spec_fn(A, A) -> bool) -> bool {
    &&& forall|a: A, b: A| #[trigger] before(a, b) ==> !before(b, a)
    &&& forall|a: A, b: A, c: A|
        !(#[trigger] before(a, b)) && !(#[trigger] before(b, c)) ==> !before(a, c)
}

/// An item put into a list: as far back as its order allows.
pub open spec fn placed<A>(list: Seq<A>, item: A, before: spec_fn(A, A) -> bool) -> Seq<A>
    decreases list.len(),
{
    if list.len() > 0 && before(item, list.last()) {
        placed(list.drop_last(), item, before).push(list.last())
    } else {
        list.push(item)
    }
}

/// A list in order; items of which neither comes before the other keep theirs.
pub open spec fn sorted<A>(list: Seq<A>, before: spec_fn(A, A) -> bool) -> Seq<A>
    decreases list.len(),
{
    if list.len() == 0 {
        Seq::empty()
    } else {
        placed(sorted(list.drop_last(), before), list.last(), before)
    }
}

/// Whether no item of a list comes before one that stands ahead of it.
pub open spec fn in_order<A>(list: Seq<A>, before: spec_fn(A, A) -> bool) -> bool {
    forall|i: int, j: int|
        0 <= i < j < list.len() ==> !before(#[trigger] list[j], #[trigger] list[i])
}

proof fn lemma_placed<A>(list: Seq<A>, item: A, before: spec_fn(A, A) -> bool)
    requires
        is_order(before),
        in_order(list, before),
    ensures
        in_order(placed(list, item, before), before),
        placed(list, item, before).to_multiset() == list.to_multiset().insert(item),
        placed(list, item, before).len() == list.len() + 1,
    decreases list.len(),
{
    broadcast use vstd::seq_lib::group_to_multiset_ensures;

    let after = placed(list, item, before);
    if list.len() > 0 && before(item, list.last()) {
        let front = list.drop_last();
        let last = list.last();
        assert forall|i: int, j: int| 0 <= i < j < front.len() implies !before(
            #[trigger] front[j],
            #[trigger] front[i],
        ) by {
            assert(front[i] == list[i] && front[j] == list[j]);
        }
        lemma_placed(front, item, before);
        let inner = placed(front, item, before);
        assert forall|k: int| 0 <= k < inner.len() implies !before(last, #[trigger] inner[k]) by {
            assert(inner.to_multiset().count(inner[k]) > 0) by {
                assert(inner.contains(inner[k]));
            }
            if inner[k] != item {
                assert(front.to_multiset().count(inner[k]) > 0);
                assert(front.contains(inner[k]));
                let m = choose|m: int| 0 <= m < front.len() && front[m] == inner[k];
                assert(list[m] == inner[k]);
                assert(list[list.len() - 1] == last);
            }
        }
        assert forall|i: int, j: int| 0 <= i < j < after.len() implies !before(
            #[trigger] after[j],
            #[trigger] after[i],
        ) by {
            assert(after[i] == inner[i]);
            if j < inner.len() {
                assert(after[j] == inner[j]);
            } else {
                assert(after[j] == last);
            }
        }
        assert(list =~= front.push(last));
        assert(after.to_multiset() =~= list.to_multiset().insert(item));
    } else {
        assert forall|i: int, j: int| 0 <= i < j < after.len() implies !before(
            #[trigger] after[j],
            #[trigger] after[i],
        ) by {
            if j == list.len() {
                let last = list[list.len() - 1];
                assert(!before(item, last));
                if i < list.len() - 1 {
                    assert(!before(last, list[i]));
                }
            }
        }
    }
}

/// Sorting puts a list in order and neither loses nor adds an item.
pub proof fn lemma_sorted<A>(list: Seq<A>, before: spec_fn(A, A) -> bool)
    requires
        is_order(before),
    ensures
        in_order(sorted(list, before), before),
        sorted(list, before).to_multiset() == list.to_multiset(),
        sorted(list, before).len() == list.len(),
    decreases list.len(),
{
    broadcast use vstd::seq_lib::group_to_multiset_ensures;

    if list.len() > 0 {
        lemma_sorted(list.drop_last(), before);
        lemma_placed(sorted(list.drop_last(), before), list.last(), before);
        assert(list =~= list.drop_last().push(list.last()));
    } else {
        assert(list =~= Seq::empty());
    }
}

/// Puts an item into a list, as far back as its order allows.
pub(crate) fn place<T: View, F: Fn(&T, &T) -> bool>(
    list: &mut Vec<T>,
    item: T,
    before: &F,
    Ghost(order): Ghost<spec_fn(T::V, T::V) -> bool>,
)
    requires
        forall|a: &T, b: &T| #[trigger] call_requires(*before, (a, b)),
        forall|a: &T, b: &T, r: bool| #[trigger]
            call_ensures(*before, (a, b), r) ==> r == order(a@, b@),
    ensures
        views(final(list)@) == placed(views(old(list)@), item@, order),
{
    let ghost all = views(list@);
    let mut at: usize = list.len();
    assert(all.take(at as int) =~= all);
    assert(placed(all, item@, order) =~= placed(all.take(at as int), item@, order) + all.skip(
        at as int,
    ));
    while at > 0
        invariant
            at <= list.len(),
            list@ == old(list)@,
            all == views(list@),
            forall|a: &T, b: &T| #[trigger] call_requires(*before, (a, b)),
            forall|a: &T, b: &T, r: bool| #[trigger]
                call_ensures(*before, (a, b), r) ==> r == order(a@, b@),
            placed(all, item@, order) == placed(all.take(at as int), item@, order) + all.skip(
                at as int,
            ),
        ensures
            at <= list.len(),
            list@ == old(list)@,
            placed(all, item@, order) == all.take(at as int).push(item@) + all.skip(at as int),
        decreases at,
    {
        proof {
            lemma_prefix_step(all, at - 1);
            assert(all[at - 1] == list@[at - 1]@);
        }
        if !before(&item, &list[at - 1]) {
            break;
        }
        proof {
            assert(all.skip(at - 1) =~= seq![all[at - 1]] + all.skip(at as int));
            assert(placed(all.take(at as int), item@, order) + all.skip(at as int) =~= placed(
                all.take(at - 1),
                item@,
                order,
            ) + all.skip(at - 1));
        }
        at -= 1;
    }
    let ghost entry = item@;
    list.insert(at, item);
    assert(views(list@) =~= all.take(at as int).push(entry) + all.skip(at as int));
}

/// Puts a list in order.
pub(crate) fn sort<T: View, F: Fn(&T, &T) -> bool>(
    list: Vec<T>,
    before: F,
    Ghost(order): Ghost<spec_fn(T::V, T::V) -> bool>,
) -> (r: Vec<T>)
    requires
        forall|a: &T, b: &T| #[trigger] call_requires(before, (a, b)),
        forall|a: &T, b: &T, r: bool| #[trigger]
            call_ensures(before, (a, b), r) ==> r == order(a@, b@),
    ensures
        views(r@) == sorted(views(list@), order),
{
    let ghost all = views(list@);
    let mut out: Vec<T> = Vec::new();
    assert(views(out@) =~= sorted(all.take(0), order));
    for item in it: list
        invariant
            all == views(it.seq()),
            forall|a: &T, b: &T| #[trigger] call_requires(before, (a, b)),
            forall|a: &T, b: &T, r: bool| #[trigger]
                call_ensures(before, (a, b), r) ==> r == order(a@, b@),
            views(out@) == sorted(all.take(it.index() as int), order),
    {
        place(&mut out, item, &before, Ghost(order));
        proof {
            lemma_prefix_step(all, it.index() as int);
        }
    }
    assert(all.take(all.len() as int) =~= all);
    out
}

} // verus!
