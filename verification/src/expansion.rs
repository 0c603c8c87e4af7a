//! Finding the nodes of a graph, nearest first.

use vstd::multiset::Multiset;
use vstd::prelude::*;

use crate::frontier::{Frontier, FrontierItem};
use crate::keyed::KeyedMap;
use crate::node_range::{Distance, End, NodeId, NodeRange, Rotation, StartIdx};
#[allow(unused_imports)]
use crate::layout::LinkIdx;
#[allow(unused_imports)]
use crate::node_range::{IdView, NodeRangeView, RangeEndView};

verus! {

/// Whether one of the links after a range leads to a given node.
pub open spec fn leads_to(range: NodeRangeView, id: IdView) -> bool {
    exists|k: int| 0 <= k < range.links().len() && (#[trigger] range.links()[k]).1 == id
}

/// Whether `walk` is a path over links, from one of the starts on.
pub open spec fn is_walk(
    ranges: spec_fn(IdView) -> NodeRangeView,
    starts: Seq<IdView>,
    walk: Seq<IdView>,
) -> bool {
    &&& walk.len() > 0
    &&& starts.contains(walk[0])
    &&& forall|i: int|
        0 <= i < walk.len() - 1 ==> leads_to(ranges(#[trigger] walk[i]), walk[i + 1])
}

/// The number of rows on a path before its last node.
pub open spec fn walk_length(ranges: spec_fn(IdView) -> NodeRangeView, walk: Seq<IdView>) -> nat
    decreases walk.len(),
{
    if walk.len() <= 1 {
        0
    } else {
        walk_length(ranges, walk.drop_last()) + ranges(walk[walk.len() - 2]).total_length
    }
}

/// Whether there is a path from a start to a node with a given number of rows before the node.
pub open spec fn reachable_at(
    ranges: spec_fn(IdView) -> NodeRangeView,
    starts: Seq<IdView>,
    id: IdView,
    distance: nat,
) -> bool {
    exists|walk: Seq<IdView>| #[trigger]
        is_walk(ranges, starts, walk) && walk.last() == id && walk_length(ranges, walk) == distance
}

/// Whether a distance is the least number of rows on any path from a start to a node.
pub open spec fn is_shortest(
    ranges: spec_fn(IdView) -> NodeRangeView,
    starts: Seq<IdView>,
    id: IdView,
    distance: nat,
) -> bool {
    &&& reachable_at(ranges, starts, id, distance)
    &&& forall|other: nat| #[trigger]
        reachable_at(ranges, starts, id, other) ==> distance <= other
}

/// Whether a composition of at most `max_length` rows can get to the end of a node.
pub open spec fn within_length(
    ranges: spec_fn(IdView) -> NodeRangeView,
    starts: Seq<IdView>,
    max_length: nat,
    id: IdView,
) -> bool {
    exists|distance: nat| #[trigger]
        reachable_at(ranges, starts, id, distance) && distance + ranges(id).total_length
            <= max_length
}

/// The ids of the start nodes.
pub open spec fn start_ids(start_nodes: Seq<(NodeId, StartIdx, Rotation)>) -> Seq<IdView> {
    start_nodes.map_values(|start: (NodeId, StartIdx, Rotation)| start.0@)
}

/// The ids of the end nodes, each with the way in which the composition ends there.
pub open spec fn end_views(end_nodes: Seq<(NodeId, End)>) -> Seq<(IdView, End)> {
    end_nodes.map_values(|end: (NodeId, End)| (end.0@, end.1))
}

/// Whether `gen_range` yields the range that `ranges` gives for every node of a finite universe
/// that contains the starts, and that no link leads out of after at most `max_length` rows.
pub open spec fn generates<G: Fn(&NodeId) -> Option<NodeRange>>(
    gen_range: G,
    starts: Seq<IdView>,
    max_length: nat,
    universe: Set<IdView>,
    ranges: spec_fn(IdView) -> NodeRangeView,
) -> bool {
    &&& universe.finite()
    &&& forall|i: int| 0 <= i < starts.len() ==> universe.contains(#[trigger] starts[i])
    &&& forall|id: IdView, k: int|
        within_length(ranges, starts, max_length, id) && 0 <= k < ranges(id).links().len()
            ==> universe.contains((#[trigger] ranges(id).links()[k]).1)
    &&& forall|id: IdView| universe.contains(id) ==> (#[trigger] ranges(id)).node_id == id
    &&& forall|id: &NodeId| #[trigger] universe.contains(id@) ==> call_requires(gen_range, (id,))
    &&& forall|id: &NodeId, range: Option<NodeRange>|
        universe.contains(id@) && #[trigger] call_ensures(gen_range, (id,), range) ==> (
        range matches Some(range) && range@ == ranges(id@))
}

/// The nodes of a graph before anything but their ranges and distances is known.
pub struct Expansion {
    /// The range of each node, and the least number of rows before it.
    pub expanded: KeyedMap<NodeId, (NodeRange, Distance)>,
    /// The nodes at which a composition can end, nearest first.
    pub end_nodes: Vec<(NodeId, End)>,
}

/// Whether `expanded` holds exactly the nodes that a composition of at most `max_length` rows can
/// get to the end of, each with its range and its least distance, and `end_nodes` holds exactly
/// those of them at which a composition can end, nearest first.
pub open spec fn is_expansion(
    expanded: Map<IdView, (NodeRange, Distance)>,
    end_nodes: Seq<(IdView, End)>,
    ranges: spec_fn(IdView) -> NodeRangeView,
    starts: Seq<IdView>,
    max_length: nat,
) -> bool {
    &&& forall|id: IdView| #[trigger]
        expanded.dom().contains(id) <==> within_length(ranges, starts, max_length, id)
    &&& forall|id: IdView| #[trigger]
        expanded.dom().contains(id) ==> {
            &&& expanded[id].0@ == ranges(id)
            &&& expanded[id].0@.node_id == id
            &&& is_shortest(ranges, starts, id, expanded[id].1 as nat)
        }
    &&& ends_listed(expanded, end_nodes)
}

/// Whether `gen_range` yields a range for every node that is going to be expanded.
pub open spec fn can_expand<G: Fn(&NodeId) -> Option<NodeRange>>(
    gen_range: G,
    starts: Seq<IdView>,
    max_length: nat,
) -> bool {
    exists|universe: Set<IdView>, ranges: spec_fn(IdView) -> NodeRangeView| #[trigger]
        generates(gen_range, starts, max_length, universe, ranges)
}

/// Whether an expansion holds exactly the nodes that a composition of at most `max_length` rows can
/// get to the end of, where the ranges of the nodes are those that `gen_range` yields.
pub open spec fn is_expansion_by<G: Fn(&NodeId) -> Option<NodeRange>>(
    gen_range: G,
    starts: Seq<IdView>,
    max_length: nat,
    expansion: Expansion,
) -> bool {
    &&& expansion.expanded.keys().no_duplicates()
    &&& expansion.expanded.values().len() == expansion.expanded.keys().len()
    &&& forall|universe: Set<IdView>, ranges: spec_fn(IdView) -> NodeRangeView| #[trigger]
        generates(gen_range, starts, max_length, universe, ranges) ==> is_expansion(
            expansion.expanded@,
            end_views(expansion.end_nodes@),
            ranges,
            starts,
            max_length,
        )
}

/// Whether `end_nodes` holds each of the expanded nodes at which a composition can end once, and
/// no other, nearest first.
pub open spec fn ends_listed(
    expanded: Map<IdView, (NodeRange, Distance)>,
    end_nodes: Seq<(IdView, End)>,
) -> bool {
    &&& forall|id: IdView, end: End| #[trigger]
        end_nodes.contains((id, end)) <==> expanded.dom().contains(id) && expanded[id].0@.end()
            == Some(end)
    &&& end_nodes.no_duplicates()
    &&& forall|i: int, j: int|
        0 <= i < j < end_nodes.len() ==> expanded[(#[trigger] end_nodes[i]).0].1
            <= expanded[(#[trigger] end_nodes[j]).0].1
}

/// Whether a node that a path gets to at a given distance has been or is going to be considered at
/// no greater distance, or is too far away.
spec fn is_covered(
    expanded: Map<IdView, (NodeRange, Distance)>,
    frontier: Multiset<(IdView, Distance)>,
    ranges: spec_fn(IdView) -> NodeRangeView,
    max_length: nat,
    id: IdView,
    distance: int,
) -> bool {
    ||| expanded.dom().contains(id) && expanded[id].1 <= distance
    ||| frontier.count((id, distance as usize)) > 0
    ||| distance + ranges(id).total_length > max_length
}

/// What holds while nodes are being expanded.
spec fn is_progress(
    expanded: Map<IdView, (NodeRange, Distance)>,
    end_nodes: Seq<(IdView, End)>,
    frontier: Multiset<(IdView, Distance)>,
    universe: Set<IdView>,
    ranges: spec_fn(IdView) -> NodeRangeView,
    starts: Seq<IdView>,
    max_length: nat,
) -> bool {
    &&& forall|item: (IdView, Distance)| #[trigger]
        frontier.count(item) > 0 ==> universe.contains(item.0) && reachable_at(
            ranges,
            starts,
            item.0,
            item.1 as nat,
        )
    &&& forall|id: IdView| #[trigger]
        expanded.dom().contains(id) ==> {
            &&& universe.contains(id)
            &&& expanded[id].0@ == ranges(id)
            &&& reachable_at(ranges, starts, id, expanded[id].1 as nat)
            &&& expanded[id].1 + ranges(id).total_length <= max_length
        }
    &&& forall|id: IdView, item: (IdView, Distance)|
        #![trigger expanded.dom().contains(id), frontier.count(item)]
        expanded.dom().contains(id) && frontier.count(item) > 0 ==> expanded[id].1 <= item.1
    &&& forall|i: int|
        0 <= i < starts.len() ==> is_covered(
            expanded,
            frontier,
            ranges,
            max_length,
            #[trigger] starts[i],
            0,
        )
    &&& forall|id: IdView, k: int|
        expanded.dom().contains(id) && 0 <= k < ranges(id).links().len() ==> is_covered(
            expanded,
            frontier,
            ranges,
            max_length,
            (#[trigger] ranges(id).links()[k]).1,
            expanded[id].1 + ranges(id).total_length,
        )
    &&& ends_listed(expanded, end_nodes)
}

/// Appending a node that a path leads to gives a path to that node.
proof fn lemma_extend_walk(
    ranges: spec_fn(IdView) -> NodeRangeView,
    starts: Seq<IdView>,
    id: IdView,
    distance: nat,
    next: IdView,
)
    requires
        reachable_at(ranges, starts, id, distance),
        leads_to(ranges(id), next),
    ensures
        reachable_at(ranges, starts, next, distance + ranges(id).total_length),
{
    let walk = choose|walk: Seq<IdView>| #[trigger]
        is_walk(ranges, starts, walk) && walk.last() == id && walk_length(ranges, walk) == distance;
    let longer = walk.push(next);
    assert(longer.drop_last() =~= walk);
    assert forall|i: int| 0 <= i < longer.len() - 1 implies leads_to(
        ranges(#[trigger] longer[i]),
        longer[i + 1],
    ) by {
        if i < walk.len() - 1 {
            assert(longer[i] == walk[i]);
        }
    }
    assert(is_walk(ranges, starts, longer));
}

/// A start is reachable without any rows before it.
proof fn lemma_start_reachable(
    ranges: spec_fn(IdView) -> NodeRangeView,
    starts: Seq<IdView>,
    id: IdView,
)
    requires
        starts.contains(id),
    ensures
        reachable_at(ranges, starts, id, 0),
{
    assert(is_walk(ranges, starts, seq![id]));
}

/// When nothing is left to be considered, every path that is not too long leads to an expanded
/// node, and is not shorter than that node's distance.
proof fn lemma_walk_expanded(
    expanded: Map<IdView, (NodeRange, Distance)>,
    end_nodes: Seq<(IdView, End)>,
    frontier: Multiset<(IdView, Distance)>,
    universe: Set<IdView>,
    ranges: spec_fn(IdView) -> NodeRangeView,
    starts: Seq<IdView>,
    max_length: nat,
    walk: Seq<IdView>,
)
    requires
        is_progress(expanded, end_nodes, frontier, universe, ranges, starts, max_length),
        frontier == Multiset::<(IdView, Distance)>::empty(),
        is_walk(ranges, starts, walk),
        walk_length(ranges, walk) + ranges(walk.last()).total_length <= max_length,
    ensures
        expanded.dom().contains(walk.last()),
        expanded[walk.last()].1 <= walk_length(ranges, walk),
    decreases walk.len(),
{
    broadcast use vstd::multiset::group_multiset_axioms;

    if walk.len() == 1 {
        let i = starts.index_of(walk[0]);
        assert(is_covered(expanded, frontier, ranges, max_length, starts[i], 0));
    } else {
        let prefix = walk.drop_last();
        assert forall|i: int| 0 <= i < prefix.len() - 1 implies leads_to(
            ranges(#[trigger] prefix[i]),
            prefix[i + 1],
        ) by {
            assert(leads_to(ranges(walk[i]), walk[i + 1]));
        }
        let id = walk[walk.len() - 2];
        assert(prefix.last() == id);
        lemma_walk_expanded(
            expanded,
            end_nodes,
            frontier,
            universe,
            ranges,
            starts,
            max_length,
            prefix,
        );
        assert(leads_to(ranges(walk[walk.len() - 2]), walk[walk.len() - 2 + 1]));
        let k = choose|k: int|
            0 <= k < ranges(id).links().len() && (#[trigger] ranges(id).links()[k]).1
                == walk.last();
        assert(is_covered(
            expanded,
            frontier,
            ranges,
            max_length,
            ranges(id).links()[k].1,
            expanded[id].1 + ranges(id).total_length,
        ));
    }
}

/// When nothing is left to be considered, the expansion is complete.
proof fn lemma_expansion_complete(
    expanded: Map<IdView, (NodeRange, Distance)>,
    end_nodes: Seq<(IdView, End)>,
    frontier: Multiset<(IdView, Distance)>,
    universe: Set<IdView>,
    ranges: spec_fn(IdView) -> NodeRangeView,
    starts: Seq<IdView>,
    max_length: nat,
)
    requires
        is_progress(expanded, end_nodes, frontier, universe, ranges, starts, max_length),
        frontier == Multiset::<(IdView, Distance)>::empty(),
        forall|id: IdView| universe.contains(id) ==> (#[trigger] ranges(id)).node_id == id,
    ensures
        is_expansion(expanded, end_nodes, ranges, starts, max_length),
{
    assert forall|id: IdView| #[trigger] expanded.dom().contains(id) <==> within_length(
        ranges,
        starts,
        max_length,
        id,
    ) by {
        if within_length(ranges, starts, max_length, id) {
            let distance = choose|distance: nat| #[trigger]
                reachable_at(ranges, starts, id, distance) && distance + ranges(id).total_length
                    <= max_length;
            let walk = choose|walk: Seq<IdView>| #[trigger]
                is_walk(ranges, starts, walk) && walk.last() == id && walk_length(ranges, walk)
                    == distance;
            lemma_walk_expanded(
                expanded,
                end_nodes,
                frontier,
                universe,
                ranges,
                starts,
                max_length,
                walk,
            );
        }
        if expanded.dom().contains(id) {
            assert(reachable_at(ranges, starts, id, expanded[id].1 as nat));
        }
    }
    assert forall|id: IdView| #[trigger] expanded.dom().contains(id) implies is_shortest(
        ranges,
        starts,
        id,
        expanded[id].1 as nat,
    ) by {
        assert forall|other: nat| #[trigger]
            reachable_at(ranges, starts, id, other) implies expanded[id].1 <= other by {
            if other + ranges(id).total_length <= max_length {
                let walk = choose|walk: Seq<IdView>| #[trigger]
                    is_walk(ranges, starts, walk) && walk.last() == id && walk_length(ranges, walk)
                        == other;
                lemma_walk_expanded(
                    expanded,
                    end_nodes,
                    frontier,
                    universe,
                    ranges,
                    starts,
                    max_length,
                    walk,
                );
            }
        }
    }
}

/// The nodes of an expansion, and how far they are away, follow from the starts and the links: a start
/// without too many rows is expanded, with nothing before it; a node that a link of an expanded node
/// leads to is expanded too if its last row is not too far away, and is no further away than along that
/// link; and an expanded node that is not such a start is just as far away as along one of these links.
/// Every expanded node has its own range, and its last row is not too far away.
pub proof fn law_expansion_follows_links(
    expanded: Map<IdView, (NodeRange, Distance)>,
    end_nodes: Seq<(IdView, End)>,
    ranges: spec_fn(IdView) -> NodeRangeView,
    starts: Seq<IdView>,
    max_length: nat,
)
    requires
        is_expansion(expanded, end_nodes, ranges, starts, max_length),
    ensures
        forall|i: int|
            0 <= i < starts.len() && ranges(#[trigger] starts[i]).total_length <= max_length
                ==> expanded.dom().contains(starts[i]) && expanded[starts[i]].1 == 0,
        forall|from: IdView, links: Seq<(LinkIdx, IdView, Rotation)>, k: int|
            #![trigger expanded.dom().contains(from), links[k]]
            expanded.dom().contains(from) && ranges(from).range_end == RangeEndView::NotEnd(links)
                && 0 <= k < links.len() && expanded[from].1 + ranges(from).total_length + ranges(
                links[k].1,
            ).total_length <= max_length ==> expanded.dom().contains(links[k].1)
                && expanded[links[k].1].1 <= expanded[from].1 + ranges(from).total_length,
        forall|id: IdView| #[trigger]
            expanded.dom().contains(id) ==> {
                &&& expanded[id].0@ == ranges(id)
                &&& expanded[id].0@.node_id == id
                &&& expanded[id].1 + ranges(id).total_length <= max_length
                &&& {
                    ||| starts.contains(id) && expanded[id].1 == 0
                    ||| exists|from: IdView, links: Seq<(LinkIdx, IdView, Rotation)>, k: int|
                        {
                            &&& #[trigger] expanded.dom().contains(from)
                            &&& ranges(from).range_end == RangeEndView::NotEnd(links)
                            &&& 0 <= k < links.len()
                            &&& (#[trigger] links[k]).1 == id
                            &&& expanded[id].1 == expanded[from].1 + ranges(from).total_length
                        }
                }
            },
{
    assert forall|i: int|
        0 <= i < starts.len() && ranges(
            #[trigger] starts[i],
        ).total_length <= max_length implies expanded.dom().contains(starts[i])
        && expanded[starts[i]].1 == 0 by {
        let id = starts[i];
        lemma_start_reachable(ranges, starts, id);
        assert(within_length(ranges, starts, max_length, id));
        assert(expanded.dom().contains(id));
        assert(is_shortest(ranges, starts, id, expanded[id].1 as nat));
    }
    assert forall|from: IdView, links: Seq<(LinkIdx, IdView, Rotation)>, k: int|
        #![trigger expanded.dom().contains(from), links[k]]
        expanded.dom().contains(from) && ranges(from).range_end == RangeEndView::NotEnd(links) && 0
            <= k < links.len() && expanded[from].1 + ranges(from).total_length + ranges(
            links[k].1,
        ).total_length <= max_length implies expanded.dom().contains(links[k].1)
        && expanded[links[k].1].1 <= expanded[from].1 + ranges(from).total_length by {
        let next = links[k].1;
        assert(ranges(from).links()[k].1 == next);
        assert(is_shortest(ranges, starts, from, expanded[from].1 as nat));
        lemma_extend_walk(ranges, starts, from, expanded[from].1 as nat, next);
        assert(within_length(ranges, starts, max_length, next));
        assert(is_shortest(ranges, starts, next, expanded[next].1 as nat));
    }
    assert forall|id: IdView| #[trigger] expanded.dom().contains(id) implies expanded[id].1
        + ranges(id).total_length <= max_length && {
        ||| starts.contains(id) && expanded[id].1 == 0
        ||| exists|from: IdView, links: Seq<(LinkIdx, IdView, Rotation)>, k: int|
            {
                &&& #[trigger] expanded.dom().contains(from)
                &&& ranges(from).range_end == RangeEndView::NotEnd(links)
                &&& 0 <= k < links.len()
                &&& (#[trigger] links[k]).1 == id
                &&& expanded[id].1 == expanded[from].1 + ranges(from).total_length
            }
    } by {
        let distance = expanded[id].1 as nat;
        assert(is_shortest(ranges, starts, id, distance));
        let some = choose|some: nat| #[trigger]
            reachable_at(ranges, starts, id, some) && some + ranges(id).total_length <= max_length;
        let walk = choose|walk: Seq<IdView>| #[trigger]
            is_walk(ranges, starts, walk) && walk.last() == id && walk_length(ranges, walk)
                == distance;
        if walk.len() > 1 {
            let prefix = walk.drop_last();
            let from = walk[walk.len() - 2];
            let before = walk_length(ranges, prefix);
            assert forall|i: int| 0 <= i < prefix.len() - 1 implies leads_to(
                ranges(#[trigger] prefix[i]),
                prefix[i + 1],
            ) by {
                assert(leads_to(ranges(walk[i]), walk[i + 1]));
            }
            assert(is_walk(ranges, starts, prefix) && prefix.last() == from);
            assert(reachable_at(ranges, starts, from, before));
            assert(within_length(ranges, starts, max_length, from));
            assert(expanded.dom().contains(from));
            assert(is_shortest(ranges, starts, from, expanded[from].1 as nat));
            assert(leads_to(ranges(walk[walk.len() - 2]), walk[walk.len() - 2 + 1]));
            lemma_extend_walk(ranges, starts, from, expanded[from].1 as nat, id);
            let links = ranges(from).links();
            let k = choose|k: int| 0 <= k < links.len() && (#[trigger] links[k]).1 == id;
            assert(ranges(from).range_end == RangeEndView::NotEnd(links));
            assert(links[k].1 == id);
        }
    }
}

/// The ends of an expansion are the expanded nodes whose ranges end the composition.  Each is listed
/// once, in the way in which its range ends, and none is listed before one that is nearer.
pub proof fn law_expansion_lists_ends(
    expanded: Map<IdView, (NodeRange, Distance)>,
    end_nodes: Seq<(IdView, End)>,
    ranges: spec_fn(IdView) -> NodeRangeView,
    starts: Seq<IdView>,
    max_length: nat,
)
    requires
        is_expansion(expanded, end_nodes, ranges, starts, max_length),
    ensures
        forall|id: IdView, end: End| #[trigger]
            end_nodes.contains((id, end)) <==> expanded.dom().contains(id) && ranges(id).range_end
                == RangeEndView::End(end),
        forall|i: int, j: int|
            0 <= i < j < end_nodes.len() ==> (#[trigger] end_nodes[i]).0 != (
            #[trigger] end_nodes[j]).0 && expanded[end_nodes[i].0].1 <= expanded[end_nodes[j].0].1,
{
    assert forall|i: int, j: int| 0 <= i < j < end_nodes.len() implies (#[trigger] end_nodes[i]).0
        != (#[trigger] end_nodes[j]).0 by {
        assert(end_nodes.contains((end_nodes[i].0, end_nodes[i].1)));
        assert(end_nodes.contains((end_nodes[j].0, end_nodes[j].1)));
    }
}

/// The nodes are expanded from all the starts, and their ranges are those that `gen_range` yields.
pub proof fn law_expansion_uses_generated_ranges<G: Fn(&NodeId) -> Option<NodeRange>>(
    gen_range: G,
    start_nodes: Seq<(NodeId, StartIdx, Rotation)>,
    max_length: nat,
    expansion: Expansion,
    universe: Set<IdView>,
    ranges: spec_fn(IdView) -> NodeRangeView,
)
    requires
        is_expansion_by(gen_range, start_ids(start_nodes), max_length, expansion),
        generates(gen_range, start_ids(start_nodes), max_length, universe, ranges),
    ensures
        is_expansion(
            expansion.expanded@,
            expansion.end_nodes@.map_values(|end: (NodeId, End)| (end.0@, end.1)),
            ranges,
            start_nodes.map_values(|start: (NodeId, StartIdx, Rotation)| start.0@),
            max_length,
        ),
        expansion.expanded.keys().no_duplicates(),
        expansion.expanded.values().len() == expansion.expanded.keys().len(),
{
    assert(end_views(expansion.end_nodes@) =~= expansion.end_nodes@.map_values(
        |end: (NodeId, End)| (end.0@, end.1),
    ));
    assert(start_ids(start_nodes) =~= start_nodes.map_values(
        |start: (NodeId, StartIdx, Rotation)| start.0@,
    ));
}

/// Dropping an item of a node that has been expanded, or that is too far away, keeps what holds.
proof fn lemma_drop_item(
    expanded: Map<IdView, (NodeRange, Distance)>,
    end_nodes: Seq<(IdView, End)>,
    frontier: Multiset<(IdView, Distance)>,
    left: Multiset<(IdView, Distance)>,
    universe: Set<IdView>,
    ranges: spec_fn(IdView) -> NodeRangeView,
    starts: Seq<IdView>,
    max_length: nat,
    item: (IdView, Distance),
)
    requires
        is_progress(expanded, end_nodes, frontier, universe, ranges, starts, max_length),
        frontier == left.insert(item),
        expanded.dom().contains(item.0) || item.1 + ranges(item.0).total_length > max_length,
    ensures
        is_progress(expanded, end_nodes, left, universe, ranges, starts, max_length),
{
    broadcast use vstd::multiset::group_multiset_axioms;

    assert(frontier.count(item) > 0);
    assert forall|other: (IdView, Distance)| #[trigger]
        left.count(other) > 0 implies frontier.count(other) > 0 by {}
    assert forall|id: IdView, distance: int|
        0 <= distance <= usize::MAX && #[trigger] is_covered(
            expanded,
            frontier,
            ranges,
            max_length,
            id,
            distance,
        ) implies is_covered(expanded, left, ranges, max_length, id, distance) by {
        let other = (id, distance as usize);
        if other != item {
            assert(left.count(other) == frontier.count(other));
        }
    }
}

/// Expanding a node keeps what holds, when the nodes that it leads to are added to the frontier.
proof fn lemma_expand_node(
    expanded: Map<IdView, (NodeRange, Distance)>,
    end_nodes: Seq<(IdView, End)>,
    frontier: Multiset<(IdView, Distance)>,
    left: Multiset<(IdView, Distance)>,
    grown: Multiset<(IdView, Distance)>,
    universe: Set<IdView>,
    ranges: spec_fn(IdView) -> NodeRangeView,
    starts: Seq<IdView>,
    max_length: nat,
    item: (IdView, Distance),
    range: NodeRange,
    new_distance: usize,
    new_end_nodes: Seq<(IdView, End)>,
)
    requires
        is_progress(expanded, end_nodes, frontier, universe, ranges, starts, max_length),
        max_length <= usize::MAX,
        frontier == left.insert(item),
        forall|other: (IdView, Distance)| left.count(other) > 0 ==> item.1 <= #[trigger] other.1,
        !expanded.dom().contains(item.0),
        range@ == ranges(item.0),
        new_distance == item.1 + range@.total_length,
        new_distance <= max_length,
        forall|other: (IdView, Distance)| #[trigger]
            grown.count(other) > 0 <==> (left.count(other) > 0 || (other.1 == new_distance
                && leads_to(range@, other.0))),
        forall|id: IdView, k: int|
            within_length(ranges, starts, max_length, id) && 0 <= k < ranges(id).links().len()
                ==> universe.contains((#[trigger] ranges(id).links()[k]).1),
        new_end_nodes == match range@.end() {
            Some(end) => end_nodes.push((item.0, end)),
            None => end_nodes,
        },
    ensures
        is_progress(
            expanded.insert(item.0, (range, item.1)),
            new_end_nodes,
            grown,
            universe,
            ranges,
            starts,
            max_length,
        ),
{
    broadcast use vstd::multiset::group_multiset_axioms;

    let after = expanded.insert(item.0, (range, item.1));
    assert(frontier.count(item) > 0);
    assert forall|other: (IdView, Distance)| #[trigger]
        left.count(other) > 0 implies frontier.count(other) > 0 by {}
    assert forall|other: (IdView, Distance)| #[trigger]
        grown.count(other) > 0 implies universe.contains(other.0) && reachable_at(
        ranges,
        starts,
        other.0,
        other.1 as nat,
    ) by {
        if left.count(other) > 0 {
            assert(frontier.count(other) > 0);
        } else {
            lemma_extend_walk(ranges, starts, item.0, item.1 as nat, other.0);
            let k = choose|k: int|
                0 <= k < range@.links().len() && (#[trigger] range@.links()[k]).1 == other.0;
            assert(within_length(ranges, starts, max_length, item.0));
            assert(universe.contains(ranges(item.0).links()[k].1));
        }
    }
    assert forall|id: IdView, other: (IdView, Distance)|
        #![trigger after.dom().contains(id), grown.count(other)]
        after.dom().contains(id) && grown.count(other) > 0 implies after[id].1 <= other.1 by {
        if left.count(other) > 0 {
            assert(frontier.count(other) > 0);
        }
        if id != item.0 {
            assert(expanded.dom().contains(id));
            assert(expanded[id].1 <= item.1);
        }
    }
    assert forall|id: IdView, distance: int|
        0 <= distance <= usize::MAX && #[trigger] is_covered(
            expanded,
            frontier,
            ranges,
            max_length,
            id,
            distance,
        ) implies is_covered(after, grown, ranges, max_length, id, distance) by {
        let other = (id, distance as usize);
        if frontier.count(other) > 0 && other != item {
            assert(left.count(other) == frontier.count(other));
            assert(grown.count(other) > 0);
        }
    }
    assert forall|id: IdView, k: int|
        after.dom().contains(id) && 0 <= k < ranges(id).links().len() implies is_covered(
        after,
        grown,
        ranges,
        max_length,
        (#[trigger] ranges(id).links()[k]).1,
        after[id].1 + ranges(id).total_length,
    ) by {
        let next = ranges(id).links()[k].1;
        if id == item.0 {
            assert(leads_to(range@, next));
            assert(grown.count((next, new_distance)) > 0);
        } else {
            assert(is_covered(
                expanded,
                frontier,
                ranges,
                max_length,
                next,
                expanded[id].1 + ranges(id).total_length,
            ));
        }
    }
    lemma_list_end(expanded, end_nodes, item.0, range, item.1, frontier);
    assert(ends_listed(after, new_end_nodes));
}

/// Listing the end of a node that is expanded behind the others keeps the list of ends.
proof fn lemma_list_end(
    expanded: Map<IdView, (NodeRange, Distance)>,
    end_nodes: Seq<(IdView, End)>,
    id: IdView,
    range: NodeRange,
    distance: usize,
    frontier: Multiset<(IdView, Distance)>,
)
    requires
        ends_listed(expanded, end_nodes),
        !expanded.dom().contains(id),
        frontier.count((id, distance)) > 0,
        forall|other: IdView, item: (IdView, Distance)|
            #![trigger expanded.dom().contains(other), frontier.count(item)]
            expanded.dom().contains(other) && frontier.count(item) > 0 ==> expanded[other].1
                <= item.1,
    ensures
        ends_listed(
            expanded.insert(id, (range, distance)),
            match range@.end() {
                Some(end) => end_nodes.push((id, end)),
                None => end_nodes,
            },
        ),
{
    let after = expanded.insert(id, (range, distance));
    let new_end_nodes = match range@.end() {
        Some(end) => end_nodes.push((id, end)),
        None => end_nodes,
    };
    assert forall|i: int| 0 <= i < end_nodes.len() implies expanded.dom().contains(
        (#[trigger] end_nodes[i]).0,
    ) by {
        assert(end_nodes.contains((end_nodes[i].0, end_nodes[i].1)));
    }
    assert forall|other: IdView, end: End| #[trigger]
        new_end_nodes.contains((other, end)) <==> after.dom().contains(other)
            && after[other].0@.end() == Some(end) by {
        if end_nodes.contains((other, end)) {
            let i = end_nodes.index_of((other, end));
            assert(new_end_nodes[i] == (other, end));
        }
        if new_end_nodes.contains((other, end)) {
            let i = new_end_nodes.index_of((other, end));
            if i < end_nodes.len() {
                assert(end_nodes[i] == (other, end));
                assert(end_nodes.contains((other, end)));
            }
        }
        if other == id && range@.end() == Some(end) {
            assert(new_end_nodes[end_nodes.len() as int] == (other, end));
        }
    }
    assert forall|i: int, j: int|
        0 <= i < j < new_end_nodes.len() implies after[(#[trigger] new_end_nodes[i]).0].1 <= after[(
    #[trigger] new_end_nodes[j]).0].1 by {
        assert(new_end_nodes[i] == end_nodes[i]);
        assert(expanded.dom().contains(end_nodes[i].0));
        if j < end_nodes.len() {
            assert(expanded.dom().contains(end_nodes[j].0));
        }
    }
}

/// Determines the nodes of a graph with Dijkstra's algorithm: starting from the start nodes, the
/// nearest node is expanded by generating its range, and the nodes that its links lead to are
/// considered next.  Nodes that no composition of at most `max_length` rows can get to the end of
/// are left out.
pub fn build_graph<G: Fn(&NodeId) -> Option<NodeRange>>(
    gen_range: G,
    start_nodes: &Vec<(NodeId, StartIdx, Rotation)>,
    max_length: usize,
) -> (expansion: Expansion)
    requires
        can_expand(gen_range, start_ids(start_nodes@), max_length as nat),
    ensures
        is_expansion_by(gen_range, start_ids(start_nodes@), max_length as nat, expansion),
{
    let ghost starts = start_ids(start_nodes@);
    let ghost (universe, ranges) = choose|
        universe: Set<IdView>,
        ranges: spec_fn(IdView) -> NodeRangeView,
    | #[trigger] generates(gen_range, starts, max_length as nat, universe, ranges);
    let mut expanded: KeyedMap<NodeId, (NodeRange, Distance)> = KeyedMap::new();
    let mut end_nodes: Vec<(NodeId, End)> = Vec::new();
    let mut frontier: Frontier<NodeId> = Frontier::new();
    let mut i: usize = 0;
    while i < start_nodes.len()
        invariant
            i <= start_nodes@.len(),
            starts == start_ids(start_nodes@),
            forall|item: (IdView, Distance)| #[trigger]
                frontier@.count(item) > 0 <==> item.1 == 0 && exists|j: int|
                    0 <= j < i && #[trigger] starts[j] == item.0,
        decreases start_nodes@.len() - i,
    {
        broadcast use vstd::multiset::group_multiset_axioms;

        let ghost before = frontier@;
        frontier.push(FrontierItem::new(start_nodes[i].0.clone()));
        proof {
            let new = (starts[i as int], 0usize);
            assert(frontier@ == before.insert(new));
            assert forall|item: (IdView, Distance)| #[trigger]
                frontier@.count(item) > 0 <==> item.1 == 0 && exists|j: int|
                    0 <= j < i + 1 && #[trigger] starts[j] == item.0 by {
                if item != new {
                    assert(frontier@.count(item) == before.count(item));
                }
            }
        }
        i = i + 1;
    }
    proof {
        assert(end_views(end_nodes@) =~= Seq::empty());
        assert forall|u: Set<IdView>, rs: spec_fn(IdView) -> NodeRangeView| #[trigger]
            generates(gen_range, starts, max_length as nat, u, rs) implies is_progress(
            expanded@,
            end_views(end_nodes@),
            frontier@,
            u,
            rs,
            starts,
            max_length as nat,
        ) by {
            assert forall|item: (IdView, Distance)| #[trigger]
                frontier@.count(item) > 0 implies u.contains(item.0) && reachable_at(
                rs,
                starts,
                item.0,
                item.1 as nat,
            ) by {
                lemma_start_reachable(rs, starts, item.0);
            }
            assert forall|i: int| 0 <= i < starts.len() implies is_covered(
                expanded@,
                frontier@,
                rs,
                max_length as nat,
                #[trigger] starts[i],
                0,
            ) by {
                assert(frontier@.count((starts[i], 0usize)) > 0);
            }
        }
    }
    loop
        invariant
            starts == start_ids(start_nodes@),
            expanded.keys().no_duplicates(),
            expanded.values().len() == expanded.keys().len(),
            generates(gen_range, starts, max_length as nat, universe, ranges),
            forall|u: Set<IdView>, rs: spec_fn(IdView) -> NodeRangeView| #[trigger]
                generates(gen_range, starts, max_length as nat, u, rs) ==> is_progress(
                    expanded@,
                    end_views(end_nodes@),
                    frontier@,
                    u,
                    rs,
                    starts,
                    max_length as nat,
                ),
        ensures
            frontier@ == Multiset::<(IdView, Distance)>::empty(),
        decreases universe.difference(expanded@.dom()).len(), frontier@.len(),
    {
        let ghost frontier_before = frontier@;
        let ghost end_views_before = end_views(end_nodes@);
        let ghost expanded_before = expanded@;
        let FrontierItem { item: node_id, distance } = match frontier.pop() {
            Some(item) => item,
            None => {
                break;
            },
        };
        let ghost item = (node_id@, distance);
        let ghost left = frontier@;
        proof {
            broadcast use vstd::multiset::group_multiset_axioms;

            assert(frontier_before.count(item) > 0);
            assert(is_progress(
                expanded@,
                end_views(end_nodes@),
                frontier_before,
                universe,
                ranges,
                starts,
                max_length as nat,
            ));
            assert(universe.contains(node_id@));
        }
        if expanded.get(&node_id).is_some() {
            proof {
                assert forall|u: Set<IdView>, rs: spec_fn(IdView) -> NodeRangeView| #[trigger]
                    generates(gen_range, starts, max_length as nat, u, rs) implies is_progress(
                    expanded@,
                    end_views(end_nodes@),
                    frontier@,
                    u,
                    rs,
                    starts,
                    max_length as nat,
                ) by {
                    lemma_drop_item(
                        expanded@,
                        end_views(end_nodes@),
                        frontier_before,
                        left,
                        u,
                        rs,
                        starts,
                        max_length as nat,
                        item,
                    );
                }
            }
            continue;
        }
        let generated = gen_range(&node_id);
        assert(generated is Some);
        proof {
            assert forall|u: Set<IdView>, rs: spec_fn(IdView) -> NodeRangeView| #[trigger]
                generates(gen_range, starts, max_length as nat, u, rs) implies generated->Some_0@
                == rs(node_id@) by {
                assert(is_progress(
                    expanded@,
                    end_views(end_nodes@),
                    frontier_before,
                    u,
                    rs,
                    starts,
                    max_length as nat,
                ));
                assert(frontier_before.count(item) > 0);
                assert(u.contains(node_id@));
                assert(call_ensures(gen_range, (&node_id,), generated));
            }
        }
        let node_range = match generated {
            Some(node_range) => node_range,
            None => {
                break;
            },
        };
        let total_length: usize = node_range.total_length.0;
        if total_length > max_length || distance > max_length - total_length {
            proof {
                assert forall|u: Set<IdView>, rs: spec_fn(IdView) -> NodeRangeView| #[trigger]
                    generates(gen_range, starts, max_length as nat, u, rs) implies is_progress(
                    expanded@,
                    end_views(end_nodes@),
                    frontier@,
                    u,
                    rs,
                    starts,
                    max_length as nat,
                ) by {
                    lemma_drop_item(
                        expanded@,
                        end_views(end_nodes@),
                        frontier_before,
                        left,
                        u,
                        rs,
                        starts,
                        max_length as nat,
                        item,
                    );
                }
            }
            continue;
        }
        let new_distance: usize = distance + total_length;
        if let Some(end) = node_range.end() {
            end_nodes.push((node_id.clone(), end));
            assert(end_views(end_nodes@) =~= end_views_before.push((node_id@, end)));
        }
        let num_links: usize = node_range.num_links();
        let mut k: usize = 0;
        while k < num_links
            invariant
                k <= num_links,
                num_links == node_range@.links().len(),
                forall|other: (IdView, Distance)| #[trigger]
                    frontier@.count(other) > 0 <==> left.count(other) > 0 || (other.1
                        == new_distance && exists|j: int|
                        0 <= j < k && (#[trigger] node_range@.links()[j]).1 == other.0),
            decreases num_links - k,
        {
            broadcast use vstd::multiset::group_multiset_axioms;

            let ghost before = frontier@;
            let (_, id_after_link, _) = node_range.link(k);
            let ghost new = (id_after_link@, new_distance);
            frontier.push(FrontierItem { item: id_after_link, distance: new_distance });
            proof {
                assert(node_range@.links()[k as int].1 == new.0);
                assert forall|other: (IdView, Distance)| #[trigger]
                    frontier@.count(other) > 0 <==> left.count(other) > 0 || (other.1
                        == new_distance && exists|j: int|
                        0 <= j < k + 1 && (#[trigger] node_range@.links()[j]).1 == other.0) by {
                    if other != new {
                        assert(frontier@.count(other) == before.count(other));
                    }
                }
            }
            k = k + 1;
        }
        let ghost range = node_range;
        expanded.add(node_id, (node_range, distance));
        proof {
            assert forall|u: Set<IdView>, rs: spec_fn(IdView) -> NodeRangeView| #[trigger]
                generates(gen_range, starts, max_length as nat, u, rs) implies is_progress(
                expanded@,
                end_views(end_nodes@),
                frontier@,
                u,
                rs,
                starts,
                max_length as nat,
            ) by {
                lemma_expand_node(
                    expanded_before,
                    end_views_before,
                    frontier_before,
                    left,
                    frontier@,
                    u,
                    rs,
                    starts,
                    max_length as nat,
                    item,
                    range,
                    new_distance,
                    end_views(end_nodes@),
                );
            }
            let todo = universe.difference(expanded_before.dom());
            assert(universe.difference(expanded@.dom()) =~= todo.remove(item.0));
            assert(todo.contains(item.0));
        }
    }
    proof {
        assert forall|u: Set<IdView>, rs: spec_fn(IdView) -> NodeRangeView| #[trigger]
            generates(gen_range, starts, max_length as nat, u, rs) implies is_expansion(
            expanded@,
            end_views(end_nodes@),
            rs,
            starts,
            max_length as nat,
        ) by {
            lemma_expansion_complete(
                expanded@,
                end_views(end_nodes@),
                frontier@,
                u,
                rs,
                starts,
                max_length as nat,
            );
        }
    }
    Expansion { expanded, end_nodes }
}

} // verus!
