//! A queue of items to be expanded, nearest first.

use vstd::multiset::Multiset;
use vstd::prelude::*;

verus! {

/// `<[T]>::swap` exchanges two elements of a slice, and panics if an index is out of bounds.
pub assume_specification<Elem>[ <[Elem]>::swap ](slice: &mut [Elem], a: usize, b: usize)
    requires
        a < old(slice)@.len(),
        b < old(slice)@.len(),
    ensures
        final(slice)@ == old(slice)@.update(a as int, old(slice)@[b as int]).update(
            b as int,
            old(slice)@[a as int],
        ),
;

/// An item, and its distance from where the search started.
pub struct FrontierItem<T> {
    pub item: T,
    pub distance: usize,
}

impl<T> FrontierItem<T> {
    /// An item where the search starts.
    pub fn new(item: T) -> (new: Self)
        ensures
            new.item == item,
            new.distance == 0,
    {
        FrontierItem { item, distance: 0 }
    }
}

impl<T: View> View for FrontierItem<T> {
    type V = (T::V, usize);

    open spec fn view(&self) -> (T::V, usize) {
        (self.item@, self.distance)
    }
}

/// A priority queue, which hands out its items in ascending order of their distances.
pub struct Frontier<T: View> {
    /// A binary heap: the children of the item at `i` are those at `2 * i + 1` and `2 * i + 2`,
    /// and no item is nearer than its parent.
    heap: Vec<FrontierItem<T>>,
}

/// The items in the queue, each with its distance.
impl<T: View> View for Frontier<T> {
    type V = Multiset<(T::V, usize)>;

    closed spec fn view(&self) -> Multiset<(T::V, usize)> {
        contents(self.heap@)
    }
}

spec fn contents<T: View>(heap: Seq<FrontierItem<T>>) -> Multiset<(T::V, usize)> {
    heap.map_values(|item: FrontierItem<T>| item@).to_multiset()
}

spec fn parent(i: int) -> int {
    (i - 1) / 2
}

/// Whether the item at `i` is not nearer than its parent.
spec fn below_parent<T>(heap: Seq<FrontierItem<T>>, i: int) -> bool {
    heap[parent(i)].distance <= heap[i].distance
}

spec fn is_heap<T>(heap: Seq<FrontierItem<T>>) -> bool {
    forall|i: int| 0 < i < heap.len() ==> #[trigger] below_parent(heap, i)
}

/// No item of a heap is nearer than its first item.
proof fn lemma_first_is_nearest<T>(heap: Seq<FrontierItem<T>>, i: int)
    requires
        is_heap(heap),
        0 <= i < heap.len(),
    ensures
        heap[0].distance <= heap[i].distance,
    decreases i,
{
    if i > 0 {
        assert(below_parent(heap, i));
        lemma_first_is_nearest(heap, parent(i));
    }
}

/// A heap without items has no contents.
proof fn lemma_no_contents<T: View>(heap: Seq<FrontierItem<T>>)
    requires
        heap.len() == 0,
    ensures
        contents(heap) == Multiset::<(T::V, usize)>::empty(),
{
    broadcast use vstd::multiset::group_multiset_axioms;

    let items = heap.map_values(|item: FrontierItem<T>| item@);
    assert forall|v: (T::V, usize)| contents(heap).count(v) == 0 by {
        vstd::seq_lib::to_multiset_contains(items, v);
    }
    assert(contents(heap) =~= Multiset::<(T::V, usize)>::empty());
}

/// Exchanging two items leaves the contents as they are.
proof fn lemma_swap_contents<T: View>(heap: Seq<FrontierItem<T>>, a: int, b: int)
    requires
        0 <= a < heap.len(),
        0 <= b < heap.len(),
    ensures
        contents(heap.update(a, heap[b]).update(b, heap[a])) == contents(heap),
{
    broadcast use vstd::multiset::group_multiset_axioms;

    let view = |item: FrontierItem<T>| item@;
    let before = heap.map_values(view);
    let middle = before.update(a, before[b]);
    let after = middle.update(b, before[a]);
    assert(heap.update(a, heap[b]).update(b, heap[a]).map_values(view) =~= after);
    vstd::seq_lib::to_multiset_update(before, a, before[b]);
    vstd::seq_lib::to_multiset_update(middle, b, before[a]);
    vstd::seq_lib::to_multiset_contains(before, before[a]);
    vstd::seq_lib::to_multiset_contains(before, before[b]);
    assert(after.to_multiset() =~= before.to_multiset());
}

impl<T: View> Frontier<T> {
    #[verifier::type_invariant]
    spec fn nearest_first(self) -> bool {
        is_heap(self.heap@)
    }

    /// A queue without items.
    pub fn new() -> (frontier: Self)
        ensures
            frontier@ == Multiset::<(T::V, usize)>::empty(),
    {
        let frontier = Frontier { heap: Vec::new() };
        proof {
            lemma_no_contents(frontier.heap@);
        }
        frontier
    }

    /// Adds an item.
    pub fn push(&mut self, item: FrontierItem<T>)
        ensures
            final(self)@ == old(self)@.insert(item@),
    {
        proof {
            use_type_invariant(&*self);
        }
        let mut taken = Frontier::new();
        std::mem::swap(self, &mut taken);
        let Frontier { mut heap } = taken;
        let ghost before = heap@;
        heap.push(item);
        let mut i: usize = heap.len() - 1;
        proof {
            let view = |item: FrontierItem<T>| item@;
            assert(heap@.map_values(view) =~= before.map_values(view).push(item@));
            vstd::seq_lib::to_multiset_build(before.map_values(view), item@);
            assert forall|j: int| 0 < j < heap@.len() && j != i implies #[trigger] below_parent(
                heap@,
                j,
            ) by {
                assert(below_parent(before, j));
            }
        }
        while i > 0
            invariant
                i < heap@.len(),
                contents(heap@) == contents(before).insert(item@),
                forall|j: int|
                    0 < j < heap@.len() && j != i ==> #[trigger] below_parent(heap@, j),
                forall|j: int|
                    0 < i && 0 < j < heap@.len() && #[trigger] parent(j) == i ==> heap@[parent(
                        i as int,
                    )].distance <= heap@[j].distance,
            ensures
                is_heap(heap@),
                contents(heap@) == contents(before).insert(item@),
            decreases i,
        {
            let up: usize = (i - 1) / 2;
            assert(up == parent(i as int));
            if heap[up].distance <= heap[i].distance {
                assert(below_parent(heap@, i as int));
                break;
            }
            let ghost heap_before = heap@;
            heap.swap(i, up);
            proof {
                lemma_swap_contents(heap_before, i as int, up as int);
                assert forall|j: int|
                    0 < j < heap@.len() && j != up implies #[trigger] below_parent(heap@, j) by {
                    if j != i {
                        assert(below_parent(heap_before, j));
                        if parent(j) == i {
                        } else if parent(j) == up {
                        }
                    }
                }
                assert forall|j: int|
                    0 < up && 0 < j < heap@.len() && #[trigger] parent(j) == up implies heap@[parent(
                    up as int,
                )].distance <= heap@[j].distance by {
                    assert(below_parent(heap_before, up as int));
                    if j != i {
                        assert(below_parent(heap_before, j));
                    }
                }
            }
            i = up;
        }
        *self = Frontier { heap };
    }

    /// Takes out an item, and none of those left is nearer.
    pub fn pop(&mut self) -> (item: Option<FrontierItem<T>>)
        ensures
            match item {
                Some(item) => {
                    &&& old(self)@ == final(self)@.insert(item@)
                    &&& final(self)@.len() + 1 == old(self)@.len()
                    &&& forall|other: (T::V, usize)|
                        final(self)@.count(other) > 0 ==> item.distance <= (#[trigger] other.1)
                },
                None => {
                    &&& old(self)@ == Multiset::<(T::V, usize)>::empty()
                    &&& final(self)@ == Multiset::<(T::V, usize)>::empty()
                },
            },
    {
        proof {
            use_type_invariant(&*self);
        }
        let mut taken = Frontier::new();
        std::mem::swap(self, &mut taken);
        let Frontier { mut heap } = taken;
        let ghost before = heap@;
        let len: usize = heap.len();
        if len == 0 {
            proof {
                lemma_no_contents(before);
            }
            return None;
        }
        heap.swap(0, len - 1);
        let ghost swapped = heap@;
        let popped = heap.pop();
        let item = match popped {
            Some(item) => item,
            None => {
                return None;
            },
        };
        let ghost left = heap@;
        proof {
            lemma_swap_contents(before, 0, len - 1);
            let view = |item: FrontierItem<T>| item@;
            assert(swapped =~= left.push(item));
            assert(swapped.map_values(view) =~= left.map_values(view).push(item@));
            vstd::seq_lib::to_multiset_build(left.map_values(view), item@);
            assert(contents(before) == contents(left).insert(item@));
            assert(item == before[0]);
            assert forall|other: (T::V, usize)| contents(left).count(other) > 0 implies item.distance
                <= (#[trigger] other.1) by {
                vstd::seq_lib::to_multiset_contains(left.map_values(view), other);
                let k = choose|k: int|
                    0 <= k < left.map_values(view).len() && left.map_values(view)[k] == other;
                assert(left[k]@ == other);
                if k == 0 {
                    lemma_first_is_nearest(before, len - 1);
                } else {
                    lemma_first_is_nearest(before, k);
                }
            }
            assert(contents(before).len() == contents(left).len() + 1) by {
                broadcast use vstd::multiset::group_multiset_axioms;

            }
            assert forall|j: int|
                0 < j < left.len() && parent(j) != 0 implies #[trigger] below_parent(left, j) by {
                assert(below_parent(before, j));
            }
        }
        let mut i: usize = 0;
        while i < heap.len() / 2
            invariant
                contents(heap@) == contents(left),
                heap@.len() == left.len(),
                forall|j: int|
                    0 < j < heap@.len() && parent(j) != i ==> #[trigger] below_parent(heap@, j),
                forall|j: int|
                    0 < i && 0 < j < heap@.len() && #[trigger] parent(j) == i ==> heap@[parent(
                        i as int,
                    )].distance <= heap@[j].distance,
            ensures
                is_heap(heap@),
                contents(heap@) == contents(left),
            decreases heap@.len() - i,
        {
            let first: usize = 2 * i + 1;
            let second: usize = first + 1;
            let down: usize = if second < heap.len() && heap[second].distance
                < heap[first].distance {
                second
            } else {
                first
            };
            assert(parent(down as int) == i);
            if heap[i].distance <= heap[down].distance {
                proof {
                    assert forall|j: int| 0 < j < heap@.len() implies #[trigger] below_parent(
                        heap@,
                        j,
                    ) by {
                        if parent(j) == i {
                            assert(j == first || j == second);
                        }
                    }
                }
                break;
            }
            let ghost heap_before = heap@;
            heap.swap(i, down);
            proof {
                lemma_swap_contents(heap_before, i as int, down as int);
                assert forall|j: int|
                    0 < j < heap@.len() && parent(j) != down implies #[trigger] below_parent(
                    heap@,
                    j,
                ) by {
                    if parent(j) == i {
                        assert(j == first || j == second);
                    } else {
                        assert(below_parent(heap_before, j));
                        if j == i {
                            assert(parent(down as int) == i);
                        }
                    }
                }
                assert forall|j: int|
                    0 < down && 0 < j < heap@.len() && #[trigger] parent(j) == down implies heap@[parent(
                    down as int,
                )].distance <= heap@[j].distance by {
                    assert(below_parent(heap_before, j));
                }
            }
            i = down;
        }
        *self = Frontier { heap };
        Some(item)
    }
}

} // verus!
