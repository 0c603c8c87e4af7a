//! Keeping some of the items of a list.

use vstd::prelude::*;

verus! {

/// The items whose flag is set, in the order in which they are listed.
pub open spec fn selected<T>(items: Seq<T>, flags: Seq<bool>) -> Seq<T>
    recommends
        items.len() == flags.len(),
    decreases items.len(),
{
    if items.len() == 0 {
        Seq::empty()
    } else if flags.last() {
        selected(items.drop_last(), flags.drop_last()).push(items.last())
    } else {
        selected(items.drop_last(), flags.drop_last())
    }
}

/// What is selected is among the items.
pub proof fn lemma_selected_contained<T>(items: Seq<T>, flags: Seq<bool>, i: int)
    requires
        items.len() == flags.len(),
        0 <= i < selected(items, flags).len(),
    ensures
        items.contains(selected(items, flags)[i]),
    decreases items.len(),
{
    if items.len() > 0 {
        let front = items.drop_last();
        let selected_before = selected(front, flags.drop_last());
        if i < selected_before.len() {
            lemma_selected_contained(front, flags.drop_last(), i);
            let j = front.index_of(selected_before[i]);
            assert(items[j] == selected_before[i]);
        } else {
            assert(items[items.len() - 1] == items.last());
        }
    }
}

/// Whether `flags` holds an answer of the predicate for each of the items.
pub open spec fn are_answers<T, F: Fn(&T) -> bool>(
    pred: F,
    items: Seq<T>,
    flags: Seq<bool>,
) -> bool {
    &&& flags.len() == items.len()
    &&& forall|i: int|
        0 <= i < items.len() ==> call_ensures(pred, (&items[i],), #[trigger] flags[i])
}

/// The items in the opposite order.
pub fn reversed<T>(items: Vec<T>) -> (result: Vec<T>)
    ensures
        result@ == items@.reverse(),
{
    let mut items = items;
    let ghost all = items@;
    let mut result: Vec<T> = Vec::new();
    while items.len() > 0
        invariant
            items@.len() + result@.len() == all.len(),
            items@ =~= all.take(items@.len() as int),
            forall|i: int|
                0 <= i < result@.len() ==> #[trigger] result@[i] == all[all.len() - 1 - i],
        decreases items@.len(),
    {
        if let Some(item) = items.pop() {
            result.push(item);
        }
    }
    assert(result@ =~= all.reverse());
    result
}

/// Removes the items for which a predicate is false.
pub fn retain<T, F: Fn(&T) -> bool>(items: Vec<T>, pred: F) -> (kept: Vec<T>)
    requires
        forall|item: &T| items@.contains(*item) ==> #[trigger] call_requires(pred, (item,)),
    ensures
        exists|flags: Seq<bool>| #[trigger]
            are_answers(pred, items@, flags) && kept@ == selected(items@, flags),
{
    let ghost all = items@;
    let mut left = reversed(items);
    let mut kept: Vec<T> = Vec::new();
    let ghost mut flags: Seq<bool> = Seq::empty();
    while left.len() > 0
        invariant
            flags.len() + left@.len() == all.len(),
            forall|i: int|
                0 <= i < left@.len() ==> #[trigger] left@[i] == all[all.len() - 1 - i],
            are_answers(pred, all.take(flags.len() as int), flags),
            kept@ == selected(all.take(flags.len() as int), flags),
            forall|item: &T| all.contains(*item) ==> #[trigger] call_requires(pred, (item,)),
        decreases left@.len(),
    {
        let ghost n = flags.len() as int;
        if let Some(item) = left.pop() {
            proof {
                assert(item == all[n]);
                assert(all.contains(item));
            }
            let keep = pred(&item);
            proof {
                let taken = all.take(n + 1);
                assert(taken.drop_last() =~= all.take(n));
                assert(flags.push(keep).drop_last() =~= flags);
                assert(call_ensures(pred, (&item,), keep));
                assert forall|i: int| 0 <= i < taken.len() implies call_ensures(
                    pred,
                    (&taken[i],),
                    #[trigger] flags.push(keep)[i],
                ) by {
                    if i < n {
                        assert(call_ensures(pred, (&all.take(n)[i],), flags[i]));
                        assert(taken[i] == all.take(n)[i]);
                    }
                }
                flags = flags.push(keep);
            }
            if keep {
                kept.push(item);
            }
        }
    }
    assert(all.take(flags.len() as int) =~= all);
    kept
}

/// Filtering keeps distinct items distinct.
pub proof fn lemma_filter_keeps_distinct<A>(items: Seq<A>, pred: spec_fn(A) -> bool)
    requires
        items.no_duplicates(),
    ensures
        items.filter(pred).no_duplicates(),
    decreases items.len(),
{
    reveal(Seq::filter);
    if items.len() > 0 {
        let front = items.drop_last();
        lemma_filter_keeps_distinct(front, pred);
        if front.filter(pred).contains(items.last()) {
            front.lemma_filter_contains_rev(pred, items.last());
            let i = front.index_of(items.last());
            assert(items[i] == items[items.len() - 1]);
        }
    }
}

/// Filtering leaves ascending numbers in ascending order.
pub proof fn lemma_filter_ascends(items: Seq<usize>, pred: spec_fn(usize) -> bool)
    requires
        forall|i: int, j: int|
            0 <= i < j < items.len() ==> #[trigger] items[i] < #[trigger] items[j],
    ensures
        forall|i: int, j: int|
            0 <= i < j < items.filter(pred).len() ==> #[trigger] items.filter(pred)[i]
                < #[trigger] items.filter(pred)[j],
    decreases items.len(),
{
    reveal(Seq::filter);
    if items.len() > 0 {
        let front = items.drop_last();
        let kept = front.filter(pred);
        lemma_filter_ascends(front, pred);
        assert forall|i: int| 0 <= i < kept.len() implies #[trigger] kept[i] < items.last() by {
            front.lemma_filter_pred(pred, i);
            front.lemma_filter_contains_rev(pred, kept[i]);
            let j = front.index_of(kept[i]);
            assert(items[j] < items[items.len() - 1]);
        }
    }
}

/// A concatenation holds what either part holds.
pub proof fn lemma_contains_concat<A>(a: Seq<A>, b: Seq<A>, x: A)
    ensures
        (a + b).contains(x) <==> a.contains(x) || b.contains(x),
{
    if a.contains(x) {
        assert((a + b)[a.index_of(x)] == x);
    }
    if b.contains(x) {
        assert((a + b)[a.len() + b.index_of(x)] == x);
    }
    if (a + b).contains(x) {
        let i = (a + b).index_of(x);
        if i < a.len() {
            assert(a[i] == x);
        } else {
            assert(b[i - a.len()] == x);
        }
    }
}

/// What is kept of some items are those for which the predicate is true, in the order in which they are
/// listed.  These are their positions, and every item at another position is one for which the predicate
/// is false.
pub proof fn law_retained_are_those_accepted<T, F: Fn(&T) -> bool>(
    pred: F,
    items: Seq<T>,
    flags: Seq<bool>,
) -> (positions: Seq<int>)
    requires
        are_answers(pred, items, flags),
    ensures
        ({
            let kept = selected(items, flags);
            &&& positions.len() == kept.len()
            &&& forall|i: int|
                0 <= i < kept.len() ==> {
                    &&& 0 <= #[trigger] positions[i] < items.len()
                    &&& kept[i] == items[positions[i]]
                    &&& call_ensures(pred, (&items[positions[i]],), true)
                }
            &&& forall|i: int, j: int|
                0 <= i < j < kept.len() ==> #[trigger] positions[i] < #[trigger] positions[j]
            &&& forall|k: int|
                #![trigger items[k]]
                0 <= k < items.len() && !positions.contains(k) ==> call_ensures(
                    pred,
                    (&items[k],),
                    false,
                )
        }),
{
    let positions = lemma_selected_positions(items, flags);
    assert forall|k: int|
        #![trigger items[k]]
        0 <= k < items.len() && !positions.contains(k) implies call_ensures(
        pred,
        (&items[k],),
        false,
    ) by {
        assert(!flags[k]);
    }
    assert forall|i: int| 0 <= i < positions.len() implies call_ensures(
        pred,
        (&items[#[trigger] positions[i]],),
        true,
    ) by {
        assert(flags[positions[i]]);
    }
    positions
}

/// The positions of the items whose flag is set.
proof fn lemma_selected_positions<T>(items: Seq<T>, flags: Seq<bool>) -> (positions: Seq<int>)
    requires
        items.len() == flags.len(),
    ensures
        positions.len() == selected(items, flags).len(),
        forall|i: int|
            0 <= i < positions.len() ==> 0 <= #[trigger] positions[i] < items.len()
                && flags[positions[i]] && selected(items, flags)[i] == items[positions[i]],
        forall|i: int, j: int|
            0 <= i < j < positions.len() ==> #[trigger] positions[i] < #[trigger] positions[j],
        forall|k: int| 0 <= k < items.len() && #[trigger] flags[k] ==> positions.contains(k),
    decreases items.len(),
{
    if items.len() == 0 {
        Seq::empty()
    } else {
        let n = items.len() - 1;
        let before = lemma_selected_positions(items.drop_last(), flags.drop_last());
        let positions = if flags.last() {
            before.push(n)
        } else {
            before
        };
        assert forall|k: int| 0 <= k < items.len() && #[trigger] flags[k] implies positions.contains(
            k,
        ) by {
            if k < n {
                assert(flags.drop_last()[k]);
                let i = before.index_of(k);
                assert(positions[i] == k);
            } else {
                assert(positions[before.len() as int] == k);
            }
        }
        assert forall|i: int| 0 <= i < before.len() implies 0 <= #[trigger] positions[i] < n
            && positions[i] == before[i] by {}
        assert forall|i: int| 0 <= i < positions.len() implies 0 <= #[trigger] positions[i]
            < items.len() && flags[positions[i]] && selected(items, flags)[i]
            == items[positions[i]] by {
            if i < before.len() {
                assert(positions[i] == before[i]);
                assert(flags.drop_last()[before[i]]);
            }
        }
        positions
    }
}

} // verus!
