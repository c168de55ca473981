//! Rewriting the rows of a table, and when two rewrites give the same rows.

use vstd::prelude::*;
use vstd::seq_lib::{lemma_multiset_commutative, to_multiset_build, to_multiset_contains, to_multiset_remove};

verus! {

/// The items for which `change` gives a new item, in order, each replaced by
/// it.
pub open spec fn rewritten<A, B>(items: Seq<A>, change: spec_fn(A) -> Option<B>) -> Seq<B>
    decreases items.len(),
{
    if items.len() == 0 {
        Seq::empty()
    } else {
        match change(items.last()) {
            None => rewritten(items.drop_last(), change),
            Some(item) => rewritten(items.drop_last(), change).push(item),
        }
    }
}

/// Whether two sequences hold the same items, in any order.
pub open spec fn same_items<A>(left: Seq<A>, right: Seq<A>) -> bool {
    left.to_multiset() == right.to_multiset()
}

pub proof fn lemma_rewritten_push<A, B>(items: Seq<A>, item: A, change: spec_fn(A) -> Option<B>)
    ensures
        rewritten(items.push(item), change) == (match change(item) {
            None => rewritten(items, change),
            Some(new) => rewritten(items, change).push(new),
        }),
{
    assert(items.push(item).drop_last() =~= items);
}

pub proof fn lemma_rewritten_concat<A, B>(
    left: Seq<A>,
    right: Seq<A>,
    change: spec_fn(A) -> Option<B>,
)
    ensures
        rewritten(left + right, change) == rewritten(left, change) + rewritten(right, change),
    decreases right.len(),
{
    if right.len() == 0 {
        assert(left + right =~= left);
        assert(rewritten(left, change) + rewritten(right, change) =~= rewritten(left, change));
    } else {
        let whole = left + right;
        assert(whole.drop_last() =~= left + right.drop_last());
        lemma_rewritten_concat(left, right.drop_last(), change);
        assert(rewritten(whole, change) =~= rewritten(left, change) + rewritten(right, change));
    }
}

/// Each result of a rewrite comes from some item.
pub proof fn lemma_rewritten_source<A, B>(items: Seq<A>, change: spec_fn(A) -> Option<B>, k: int) -> (i: int)
    requires
        0 <= k < rewritten(items, change).len(),
    ensures
        0 <= i < items.len(),
        change(items[i]) == Some(rewritten(items, change)[k]),
    decreases items.len(),
{
    let shorter = rewritten(items.drop_last(), change);
    if k < shorter.len() {
        let i = lemma_rewritten_source(items.drop_last(), change, k);
        assert(items.drop_last()[i] == items[i]);
        i
    } else {
        items.len() - 1
    }
}

/// Each item that is not dropped has a result.
pub proof fn lemma_rewritten_target<A, B>(items: Seq<A>, change: spec_fn(A) -> Option<B>, i: int)
    requires
        0 <= i < items.len(),
        change(items[i]) is Some,
    ensures
        rewritten(items, change).contains(change(items[i])->0),
    decreases items.len(),
{
    let all = rewritten(items, change);
    let value = change(items[i])->0;
    if i == items.len() - 1 {
        assert(all.last() == value);
        assert(all[all.len() - 1] == value);
    } else {
        lemma_rewritten_target(items.drop_last(), change, i);
        let shorter = rewritten(items.drop_last(), change);
        let k = choose|k: int| 0 <= k < shorter.len() && shorter[k] == value;
        assert(all[k] == value);
    }
}

/// Two rewrites in a row are one.
pub proof fn lemma_rewritten_compose<A, B, C>(
    items: Seq<A>,
    first: spec_fn(A) -> Option<B>,
    second: spec_fn(B) -> Option<C>,
    both: spec_fn(A) -> Option<C>,
)
    requires
        forall|i: int|
            0 <= i < items.len() ==> both(#[trigger] items[i]) == (match first(items[i]) {
                None => None,
                Some(middle) => second(middle),
            }),
    ensures
        rewritten(rewritten(items, first), second) == rewritten(items, both),
    decreases items.len(),
{
    if items.len() > 0 {
        let shorter = items.drop_last();
        assert forall|i: int| 0 <= i < shorter.len() implies both(#[trigger] shorter[i]) == (
        match first(shorter[i]) {
            None => None,
            Some(middle) => second(middle),
        }) by {
            assert(shorter[i] == items[i]);
        }
        lemma_rewritten_compose(shorter, first, second, both);
        let last = items[items.len() - 1];
        assert(both(last) == (match first(last) {
            None => None,
            Some(middle) => second(middle),
        }));
        match first(last) {
            None => {},
            Some(middle) => {
                lemma_rewritten_push(rewritten(shorter, first), middle, second);
            },
        }
    }
}

/// A rewrite that keeps every item changes nothing.
pub proof fn lemma_rewritten_identity<A>(items: Seq<A>, change: spec_fn(A) -> Option<A>)
    requires
        forall|i: int| 0 <= i < items.len() ==> change(#[trigger] items[i]) == Some(items[i]),
    ensures
        rewritten(items, change) == items,
    decreases items.len(),
{
    if items.len() > 0 {
        let shorter = items.drop_last();
        assert forall|i: int| 0 <= i < shorter.len() implies change(#[trigger] shorter[i]) == Some(
            shorter[i],
        ) by {
            assert(shorter[i] == items[i]);
        }
        lemma_rewritten_identity(shorter, change);
        assert(change(items[items.len() - 1]) == Some(items[items.len() - 1]));
        assert(rewritten(items, change) =~= items);
    } else {
        assert(rewritten(items, change) =~= items);
    }
}

/// A rewrite that drops no item maps each of them.
pub proof fn lemma_rewritten_map<A, B>(items: Seq<A>, change: spec_fn(A) -> Option<B>)
    requires
        forall|i: int| 0 <= i < items.len() ==> change(#[trigger] items[i]) is Some,
    ensures
        rewritten(items, change).len() == items.len(),
        forall|i: int|
            0 <= i < items.len() ==> change(items[i]) == Some(#[trigger] rewritten(items, change)[i]),
    decreases items.len(),
{
    if items.len() > 0 {
        let shorter = items.drop_last();
        assert forall|i: int| 0 <= i < shorter.len() implies change(#[trigger] shorter[i]) is Some by {
            assert(shorter[i] == items[i]);
        }
        lemma_rewritten_map(shorter, change);
        assert(change(items[items.len() - 1]) is Some);
        assert forall|i: int| 0 <= i < items.len() implies change(items[i]) == Some(
            #[trigger] rewritten(items, change)[i],
        ) by {
            if i < shorter.len() {
                assert(shorter[i] == items[i]);
                assert(change(shorter[i]) == Some(rewritten(shorter, change)[i]));
            }
        }
    }
}

/// Same items, same results of a rewrite.
pub proof fn lemma_rewritten_same<A, B>(
    left: Seq<A>,
    right: Seq<A>,
    change: spec_fn(A) -> Option<B>,
)
    requires
        same_items(left, right),
    ensures
        same_items(rewritten(left, change), rewritten(right, change)),
    decreases left.len(),
{
    broadcast use vstd::multiset::group_multiset_axioms;
    vstd::seq_lib::to_multiset_len(left);
    vstd::seq_lib::to_multiset_len(right);
    if left.len() == 0 {
        assert(left =~= right);
    } else {
        let item = left.last();
        let shorter = left.drop_last();
        to_multiset_contains(left, item);
        to_multiset_contains(right, item);
        assert(left.contains(item)) by {
            assert(left[left.len() - 1] == item);
        }
        let j = choose|j: int| 0 <= j < right.len() && right[j] == item;
        let rest = right.remove(j);
        to_multiset_build(shorter, item);
        assert(shorter.push(item) =~= left);
        to_multiset_remove(right, j);
        assert(shorter.to_multiset() =~= rest.to_multiset());
        lemma_rewritten_same(shorter, rest, change);
        let before = right.take(j);
        let after = right.skip(j + 1);
        assert(right =~= (before + seq![item]) + after);
        assert(rest =~= before + after);
        lemma_rewritten_concat(before + seq![item], after, change);
        lemma_rewritten_concat(before, seq![item], change);
        lemma_rewritten_concat(before, after, change);
        lemma_rewritten_concat(shorter, seq![item], change);
        assert(left =~= shorter + seq![item]);
        let b = rewritten(before, change);
        let m = rewritten(seq![item], change);
        let a = rewritten(after, change);
        lemma_multiset_commutative(b + m, a);
        lemma_multiset_commutative(b, m);
        lemma_multiset_commutative(b, a);
        lemma_multiset_commutative(rewritten(shorter, change), m);
        assert(rewritten(left, change).to_multiset() =~= rewritten(right, change).to_multiset());
    }
}

/// A rewrite gives the items it gives for one part of the items, and those it
/// gives for the other.
pub proof fn lemma_rewritten_split<A, B>(
    items: Seq<A>,
    whole: spec_fn(A) -> Option<B>,
    left: spec_fn(A) -> Option<B>,
    right: spec_fn(A) -> Option<B>,
)
    requires
        forall|i: int|
            0 <= i < items.len() ==> {
                ||| right(#[trigger] items[i]) is None && left(items[i]) == whole(items[i])
                ||| left(items[i]) is None && right(items[i]) == whole(items[i])
            },
    ensures
        same_items(rewritten(items, whole), rewritten(items, left) + rewritten(items, right)),
    decreases items.len(),
{
    broadcast use vstd::multiset::group_multiset_axioms;
    if items.len() == 0 {
        assert(rewritten(items, whole) =~= rewritten(items, left) + rewritten(items, right));
    } else {
        let shorter = items.drop_last();
        assert forall|i: int| 0 <= i < shorter.len() implies {
            ||| right(#[trigger] shorter[i]) is None && left(shorter[i]) == whole(shorter[i])
            ||| left(shorter[i]) is None && right(shorter[i]) == whole(shorter[i])
        } by {
            assert(shorter[i] == items[i]);
        }
        lemma_rewritten_split(shorter, whole, left, right);
        let last = items[items.len() - 1];
        assert((right(last) is None && left(last) == whole(last)) || (left(last) is None && right(last)
            == whole(last)));
        let w = rewritten(shorter, whole);
        let l = rewritten(shorter, left);
        let r = rewritten(shorter, right);
        lemma_multiset_commutative(l, r);
        lemma_multiset_commutative(rewritten(items, left), rewritten(items, right));
        if whole(last) is Some {
            let item = whole(last)->0;
            to_multiset_build(w, item);
            to_multiset_build(l, item);
            to_multiset_build(r, item);
        }
        assert(rewritten(items, whole).to_multiset() =~= (rewritten(items, left) + rewritten(
            items,
            right,
        )).to_multiset());
    }
}

} // verus!
