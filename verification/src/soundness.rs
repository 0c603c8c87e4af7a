//! What holds of every graph that is built from ranges.

use vstd::prelude::*;

#[allow(unused_imports)]
use crate::assemble::{
    adds_course, adds_up, is_graph_of, part_course_heads, row_views, successors_after,
};
#[allow(unused_imports)]
use crate::expansion::{
    end_views, ends_listed, is_expansion, is_shortest, is_walk, leads_to, reachable_at,
    walk_length, Expansion,
};
#[allow(unused_imports)]
use crate::falseness::{
    law_false_nodes_in_order, law_nodes_get_all_false_nodes, lengths_of, FalsenessTable,
};
#[allow(unused_imports)]
use crate::graph::{Graph, GraphView, LinkView};
#[allow(unused_imports)]
use crate::keyed::lemma_index_of;
#[allow(unused_imports)]
use crate::layout::{Layout, NodeIdView, RowRange};
#[allow(unused_imports)]
use crate::music::{Breakdown, Scoring};
#[allow(unused_imports)]
use crate::node_range::{
    law_range_covers_rows_of_its_block, IdView, NodeId, NodeRangeView, RangeEnd, Rotation, StartIdx,
};
#[allow(unused_imports)]
use crate::predecessors::{
    backwards, law_links_back_come_one_for_one, law_links_back_mirror_links,
    law_links_back_oppose_links, links_back, links_back_to,
};
#[allow(unused_imports)]
use crate::primitives::Row;

verus! {

/// The nodes of a graph that is built from an expansion are found by their ids.
proof fn lemma_node_at<
    S,
    C: Fn(&Vec<&Row>, &Row) -> Breakdown<S>,
    A: Fn(Breakdown<S>, Breakdown<S>) -> Breakdown<S>,
>(
    graph: Graph<S>,
    layout: Layout,
    expansion: Expansion,
    start_nodes: Seq<(IdView, StartIdx, Rotation)>,
    part_heads: Seq<Seq<usize>>,
    equivalences: Map<Seq<usize>, (Row, Rotation)>,
    table: FalsenessTable,
    scoring: Scoring<S, C, A>,
    id: IdView,
) -> (i: int)
    requires
        is_graph_of(
            graph,
            layout,
            expansion,
            start_nodes,
            part_heads,
            equivalences,
            table,
            scoring,
        ),
        graph@.nodes.dom().contains(id),
    ensures
        0 <= i < expansion.ids().len(),
        expansion.ids()[i] == id,
        graph@.nodes[id] == graph.nodes.values()[i]@,
        expansion.expanded@.dom().contains(id),
        expansion.expanded@[id] == expansion.expanded.values()[i],
{
    let i = expansion.ids().index_of(id);
    lemma_index_of(expansion.ids());
    i
}

/// The starts of a graph that is built from ranges can start a composition and have nothing before
/// them, and its ends end a composition and have nothing after them, provided that the starts are
/// start nodes and that no link leads to a start node.
pub proof fn law_built_graph_is_valid<
    S,
    C: Fn(&Vec<&Row>, &Row) -> Breakdown<S>,
    A: Fn(Breakdown<S>, Breakdown<S>) -> Breakdown<S>,
>(
    graph: Graph<S>,
    layout: Layout,
    expansion: Expansion,
    start_nodes: Seq<(IdView, StartIdx, Rotation)>,
    part_heads: Seq<Seq<usize>>,
    equivalences: Map<Seq<usize>, (Row, Rotation)>,
    table: FalsenessTable,
    scoring: Scoring<S, C, A>,
)
    requires
        is_graph_of(
            graph,
            layout,
            expansion,
            start_nodes,
            part_heads,
            equivalences,
            table,
            scoring,
        ),
        expansion.has_own_ids(),
        ends_listed(expansion.expanded@, end_views(expansion.end_nodes@)),
        forall|i: int| 0 <= i < start_nodes.len() ==> (#[trigger] start_nodes[i]).0.is_start(),
        forall|i: int, k: int|
            0 <= i < expansion.ids().len() && 0 <= k < expansion.links()[i].len() ==> !(
            #[trigger] expansion.links()[i][k]).id.is_start(),
    ensures
        graph@.is_valid(),
{
    let ids = expansion.ids();
    let links = expansion.links();
    let ends = end_views(expansion.end_nodes@);
    let num_parts = part_heads.len() as usize;
    assert forall|i: int|
        0 <= i < graph@.start_nodes.len() && graph@.nodes.dom().contains(
            (#[trigger] graph@.start_nodes[i]).0,
        ) implies graph@.nodes[graph@.start_nodes[i].0].is_start
        && graph@.nodes[graph@.start_nodes[i].0].predecessors.len() == 0 by {
        let id = start_nodes[i].0;
        let j = lemma_node_at(
            graph,
            layout,
            expansion,
            start_nodes,
            part_heads,
            equivalences,
            table,
            scoring,
            id,
        );
        let back = links_back(ids, links, id, num_parts);
        assert(expansion.range(j)@.node_id == id);
        if back.len() > 0 {
            law_links_back_mirror_links(ids, links, id, num_parts, back[0]);
            assert(back.contains(back[0]));
            let (m, k) = choose|m: int, k: int|
                0 <= m < ids.len() && 0 <= k < links[m].len() && (#[trigger] links[m][k]).id == id
                    && back[0] == backwards(ids[m], links[m][k], num_parts);
            assert(!links[m][k].id.is_start());
        }
    }
    assert forall|i: int|
        0 <= i < graph@.end_nodes.len() && graph@.nodes.dom().contains(
            (#[trigger] graph@.end_nodes[i]).0,
        ) implies graph@.nodes[graph@.end_nodes[i].0].end == Some(graph@.end_nodes[i].1)
        && graph@.nodes[graph@.end_nodes[i].0].successors.len() == 0 by {
        let (id, end) = ends[i];
        let j = lemma_node_at(
            graph,
            layout,
            expansion,
            start_nodes,
            part_heads,
            equivalences,
            table,
            scoring,
            id,
        );
        assert(ends.contains((id, end)));
    }
}

/// The length of a path is that of its nodes before the last, and of the last.
proof fn lemma_path_is_walk<
    S,
    C: Fn(&Vec<&Row>, &Row) -> Breakdown<S>,
    A: Fn(Breakdown<S>, Breakdown<S>) -> Breakdown<S>,
>(
    graph: Graph<S>,
    layout: Layout,
    expansion: Expansion,
    start_nodes: Seq<(IdView, StartIdx, Rotation)>,
    part_heads: Seq<Seq<usize>>,
    equivalences: Map<Seq<usize>, (Row, Rotation)>,
    table: FalsenessTable,
    scoring: Scoring<S, C, A>,
    ranges: spec_fn(IdView) -> NodeRangeView,
    starts: Seq<IdView>,
    max_length: nat,
    path: Seq<IdView>,
)
    requires
        is_graph_of(
            graph,
            layout,
            expansion,
            start_nodes,
            part_heads,
            equivalences,
            table,
            scoring,
        ),
        is_expansion(
            expansion.expanded@,
            end_views(expansion.end_nodes@),
            ranges,
            starts,
            max_length,
        ),
        path.len() > 0,
        starts.contains(path[0]),
        forall|i: int| 0 <= i < path.len() ==> graph@.nodes.dom().contains(#[trigger] path[i]),
        forall|i: int|
            0 <= i < path.len() - 1 ==> graph@.links_to(#[trigger] path[i], path[i + 1]),
    ensures
        is_walk(ranges, starts, path),
        graph@.path_length(path) == walk_length(ranges, path)
            + graph@.nodes[path.last()].total_length,
    decreases path.len(),
{
    assert forall|i: int| 0 <= i < path.len() implies successors_after(ranges(#[trigger] path[i]))
        == graph@.nodes[path[i]].successors && ranges(path[i]).total_length
        == graph@.nodes[path[i]].total_length by {
        let j = lemma_node_at(
            graph,
            layout,
            expansion,
            start_nodes,
            part_heads,
            equivalences,
            table,
            scoring,
            path[i],
        );
    }
    assert forall|i: int| 0 <= i < path.len() - 1 implies leads_to(
        ranges(#[trigger] path[i]),
        path[i + 1],
    ) by {
        assert(graph@.links_to(path[i], path[i + 1]));
        let k = choose|k: int|
            0 <= k < graph@.nodes[path[i]].successors.len() && (
            #[trigger] graph@.nodes[path[i]].successors[k]).id == path[i + 1];
        assert(ranges(path[i]).links()[k].1 == path[i + 1]);
    }
    let prefix = path.drop_last();
    if path.len() == 1 {
        assert(graph@.path_length(prefix) == 0);
    } else {
        assert forall|i: int| 0 <= i < prefix.len() implies graph@.nodes.dom().contains(
            #[trigger] prefix[i],
        ) by {
            assert(prefix[i] == path[i]);
        }
        assert forall|i: int| 0 <= i < prefix.len() - 1 implies graph@.links_to(
            #[trigger] prefix[i],
            prefix[i + 1],
        ) by {
            assert(graph@.links_to(path[i], path[i + 1]));
        }
        lemma_path_is_walk(
            graph,
            layout,
            expansion,
            start_nodes,
            part_heads,
            equivalences,
            table,
            scoring,
            ranges,
            starts,
            max_length,
            prefix,
        );
        assert(prefix.last() == path[path.len() - 2]);
        assert(ranges(path[path.len() - 2]).total_length
            == graph@.nodes[path[path.len() - 2]].total_length);
    }
}

/// Going on along a path does not make it shorter.
proof fn lemma_path_length_grows<S>(graph: GraphView<S>, path: Seq<IdView>, i: int)
    requires
        0 <= i <= path.len(),
    ensures
        graph.path_length(path.take(i)) <= graph.path_length(path),
    decreases path.len(),
{
    if i == path.len() {
        assert(path.take(i) =~= path);
    } else {
        lemma_path_length_grows(graph, path.drop_last(), i);
        assert(path.drop_last().take(i) =~= path.take(i));
    }
}

/// In a graph that is built from ranges, no composition that passes through a node is shorter than
/// that node's lower bound on the length of such compositions.
pub proof fn law_min_comp_length_is_lower_bound<
    S,
    C: Fn(&Vec<&Row>, &Row) -> Breakdown<S>,
    A: Fn(Breakdown<S>, Breakdown<S>) -> Breakdown<S>,
>(
    graph: Graph<S>,
    layout: Layout,
    expansion: Expansion,
    start_nodes: Seq<(IdView, StartIdx, Rotation)>,
    part_heads: Seq<Seq<usize>>,
    equivalences: Map<Seq<usize>, (Row, Rotation)>,
    table: FalsenessTable,
    scoring: Scoring<S, C, A>,
    ranges: spec_fn(IdView) -> NodeRangeView,
    max_length: nat,
    start: (IdView, StartIdx, Rotation),
    path: Seq<IdView>,
    i: int,
)
    requires
        is_graph_of(
            graph,
            layout,
            expansion,
            start_nodes,
            part_heads,
            equivalences,
            table,
            scoring,
        ),
        is_expansion(
            expansion.expanded@,
            end_views(expansion.end_nodes@),
            ranges,
            start_nodes.map_values(|start: (IdView, StartIdx, Rotation)| start.0),
            max_length,
        ),
        graph@.is_composition(start, path),
        0 <= i < path.len(),
    ensures
        graph@.nodes[path[i]].lb_distance_from_rounds + graph@.nodes[path[i]].total_length
            + graph@.nodes[path[i]].lb_distance_to_rounds <= graph@.path_length(path),
{
    let starts = start_nodes.map_values(|start: (IdView, StartIdx, Rotation)| start.0);
    let id = path[i];
    let prefix = path.take(i + 1);
    let j = lemma_node_at(
        graph,
        layout,
        expansion,
        start_nodes,
        part_heads,
        equivalences,
        table,
        scoring,
        id,
    );
    assert(starts.contains(path[0])) by {
        let s = start_nodes.index_of(start);
        assert(starts[s] == path[0]);
    }
    assert forall|k: int| 0 <= k < prefix.len() - 1 implies graph@.links_to(
        #[trigger] prefix[k],
        prefix[k + 1],
    ) by {
        assert(graph@.links_to(path[k], path[k + 1]));
    }
    assert forall|k: int| 0 <= k < prefix.len() implies graph@.nodes.dom().contains(
        #[trigger] prefix[k],
    ) by {
        assert(prefix[k] == path[k]);
    }
    lemma_path_is_walk(
        graph,
        layout,
        expansion,
        start_nodes,
        part_heads,
        equivalences,
        table,
        scoring,
        ranges,
        starts,
        max_length,
        prefix,
    );
    assert(prefix.last() == id);
    assert(reachable_at(ranges, starts, id, walk_length(ranges, prefix)));
    assert(is_shortest(ranges, starts, id, expansion.expanded@[id].1 as nat));
    lemma_path_length_grows(graph@, path, i + 1);
}

/// In a graph that is built from ranges, every link between two nodes has its own predecessor: of the
/// predecessors of a node, those that lead back to another node are the links of that node that lead
/// here, one for each and in the same order, with the opposite rotations.  None leads back to a node
/// that is not in the graph.
pub proof fn law_predecessors_mirror_successors<
    S,
    C: Fn(&Vec<&Row>, &Row) -> Breakdown<S>,
    A: Fn(Breakdown<S>, Breakdown<S>) -> Breakdown<S>,
>(
    graph: Graph<S>,
    layout: Layout,
    expansion: Expansion,
    start_nodes: Seq<(IdView, StartIdx, Rotation)>,
    part_heads: Seq<Seq<usize>>,
    equivalences: Map<Seq<usize>, (Row, Rotation)>,
    table: FalsenessTable,
    scoring: Scoring<S, C, A>,
    from: IdView,
    to: IdView,
)
    requires
        is_graph_of(
            graph,
            layout,
            expansion,
            start_nodes,
            part_heads,
            equivalences,
            table,
            scoring,
        ),
        graph@.nodes.dom().contains(to),
    ensures
        graph@.nodes[to].predecessors.filter(|back: LinkView| back.id == from)
            == if graph@.nodes.dom().contains(from) {
            links_back_to(from, graph@.nodes[from].successors, to, graph@.num_parts)
        } else {
            Seq::empty()
        },
{
    let j = lemma_node_at(
        graph,
        layout,
        expansion,
        start_nodes,
        part_heads,
        equivalences,
        table,
        scoring,
        to,
    );
    law_links_back_come_one_for_one(
        expansion.ids(),
        expansion.links(),
        to,
        part_heads.len() as usize,
        from,
    );
    if graph@.nodes.dom().contains(from) {
        let i = lemma_node_at(
            graph,
            layout,
            expansion,
            start_nodes,
            part_heads,
            equivalences,
            table,
            scoring,
            from,
        );
        lemma_index_of(expansion.ids());
        assert(graph@.nodes[from].successors == expansion.links()[i]);
    }
}

/// A graph that is built from an expansion has the nodes of the expansion and no others, the given
/// starts, the ends of the expansion, and as many parts as there are part heads.  Every node is what its
/// range says: it can start a composition if its id is that of a start, it ends one if its range does,
/// it has the range's label, lengths and method counts, and a successor for each of the range's links.
/// It is as far from the starts as the expansion found, and nothing is known yet of what comes after it.
pub proof fn law_built_nodes_cover_ranges<
    S,
    C: Fn(&Vec<&Row>, &Row) -> Breakdown<S>,
    A: Fn(Breakdown<S>, Breakdown<S>) -> Breakdown<S>,
>(
    graph: Graph<S>,
    layout: Layout,
    expansion: Expansion,
    start_nodes: Seq<(IdView, StartIdx, Rotation)>,
    part_heads: Seq<Seq<usize>>,
    equivalences: Map<Seq<usize>, (Row, Rotation)>,
    table: FalsenessTable,
    scoring: Scoring<S, C, A>,
    id: IdView,
)
    requires
        is_graph_of(
            graph,
            layout,
            expansion,
            start_nodes,
            part_heads,
            equivalences,
            table,
            scoring,
        ),
    ensures
        graph@.nodes.dom().contains(id) <==> expansion.expanded@.dom().contains(id),
        graph@.nodes.dom().contains(id) ==> {
            let node = graph@.nodes[id];
            let range = expansion.expanded@[id].0;
            &&& node.is_start == (range.node_id matches NodeId::Standard(std_id)
                && std_id.is_start)
            &&& node.end == match range.range_end {
                RangeEnd::End(end) => Some(end),
                RangeEnd::NotEnd(_) => None,
            }
            &&& node.label == range.label@
            &&& match range.range_end {
                RangeEnd::End(_) => node.successors.len() == 0,
                RangeEnd::NotEnd(links) => {
                    &&& node.successors.len() == links@.len()
                    &&& forall|k: int|
                        0 <= k < links@.len() ==> {
                            &&& (#[trigger] node.successors[k]).source_idx == links@[k].0
                            &&& node.successors[k].id == links@[k].1@
                            &&& node.successors[k].rotation == links@[k].2
                        }
                },
            }
            &&& node.per_part_length == range.per_part_length.0
            &&& node.total_length == range.total_length.0
            &&& node.method_counts == range.method_counts.counts@
            &&& !node.required
            &&& node.lb_distance_from_rounds == expansion.expanded@[id].1
            &&& node.lb_distance_to_rounds == 0
        },
        graph@.start_nodes == start_nodes,
        graph@.end_nodes.len() == expansion.end_nodes@.len(),
        forall|i: int|
            0 <= i < expansion.end_nodes@.len() ==> (#[trigger] graph@.end_nodes[i]).0
                == expansion.end_nodes@[i].0@ && graph@.end_nodes[i].1
                == expansion.end_nodes@[i].1,
        graph@.num_parts == part_heads.len(),
{
    if graph@.nodes.dom().contains(id) {
        let i = lemma_node_at(
            graph,
            layout,
            expansion,
            start_nodes,
            part_heads,
            equivalences,
            table,
            scoring,
            id,
        );
    }
    lemma_index_of(expansion.ids());
}

/// In a graph that is built from ranges, a node is false against another if and only if the table lists,
/// for the rows of that other node, a range which begins at the node's first row, is as long as the node,
/// and is in a course that the node's course stands for.  Only nodes of the graph are listed as false,
/// and the end without rows is false against nothing.
pub proof fn law_built_falseness<
    S,
    C: Fn(&Vec<&Row>, &Row) -> Breakdown<S>,
    A: Fn(Breakdown<S>, Breakdown<S>) -> Breakdown<S>,
>(
    graph: Graph<S>,
    layout: Layout,
    expansion: Expansion,
    start_nodes: Seq<(IdView, StartIdx, Rotation)>,
    part_heads: Seq<Seq<usize>>,
    equivalences: Map<Seq<usize>, (Row, Rotation)>,
    table: FalsenessTable,
    scoring: Scoring<S, C, A>,
    id: NodeIdView,
    other: NodeIdView,
)
    requires
        is_graph_of(
            graph,
            layout,
            expansion,
            start_nodes,
            part_heads,
            equivalences,
            table,
            scoring,
        ),
    ensures
        graph@.nodes.dom().contains(IdView::Standard(id)) ==> ({
            let rows = RowRange {
                start: id.row_idx,
                length: graph@.nodes[IdView::Standard(id)].per_part_length as usize,
            };
            graph@.nodes[IdView::Standard(id)].false_nodes.contains(other) <==> {
                &&& graph@.nodes.dom().contains(IdView::Standard(other))
                &&& table.falseness@.dom().contains(rows)
                &&& exists|k: int|
                    0 <= k < table.falseness@[rows]@.len() && {
                        let (range, transposition) = #[trigger] table.falseness@[rows]@[k];
                        let false_head = Seq::new(
                            transposition@.len(),
                            |place: int| id.course_head[transposition@[place] as int],
                        );
                        &&& range.start == other.row_idx
                        &&& range.length == graph@.nodes[IdView::Standard(other)].per_part_length
                        &&& equivalences.dom().contains(false_head)
                        &&& equivalences[false_head].0@ == other.course_head
                    }
            }
        }),
        graph@.nodes.dom().contains(IdView::ZeroLengthEnd) ==> graph@.nodes[
            IdView::ZeroLengthEnd].false_nodes.len() == 0,
{
    lemma_index_of(expansion.ids());
    if graph@.nodes.dom().contains(IdView::ZeroLengthEnd) {
        let i = lemma_node_at(
            graph,
            layout,
            expansion,
            start_nodes,
            part_heads,
            equivalences,
            table,
            scoring,
            IdView::ZeroLengthEnd,
        );
    }
    if graph@.nodes.dom().contains(IdView::Standard(id)) {
        let i = lemma_node_at(
            graph,
            layout,
            expansion,
            start_nodes,
            part_heads,
            equivalences,
            table,
            scoring,
            IdView::Standard(id),
        );
        let node = graph@.nodes[IdView::Standard(id)];
        assert forall|id: IdView| #[trigger] graph@.nodes.dom().contains(id) implies
            graph@.nodes[id].per_part_length == expansion.lengths()[id] by {
            let j = lemma_node_at(
                graph,
                layout,
                expansion,
                start_nodes,
                part_heads,
                equivalences,
                table,
                scoring,
                id,
            );
        }
        assert(lengths_of(graph@.nodes) =~= expansion.lengths());
        law_nodes_get_all_false_nodes(id, node, graph@.nodes, table, equivalences, other);
    }
}

/// In a graph that is built from ranges, the nodes that are false against a node come from the ranges
/// that the table lists for its rows, in the order of that list, and of one range a start comes before
/// another node.  No range yields the same node twice.  These are the positions in the list that the
/// false nodes come from, and whether they are starts.
pub proof fn law_built_falseness_in_order<
    S,
    C: Fn(&Vec<&Row>, &Row) -> Breakdown<S>,
    A: Fn(Breakdown<S>, Breakdown<S>) -> Breakdown<S>,
>(
    graph: Graph<S>,
    layout: Layout,
    expansion: Expansion,
    start_nodes: Seq<(IdView, StartIdx, Rotation)>,
    part_heads: Seq<Seq<usize>>,
    equivalences: Map<Seq<usize>, (Row, Rotation)>,
    table: FalsenessTable,
    scoring: Scoring<S, C, A>,
    id: NodeIdView,
) -> (places: Seq<(int, bool)>)
    requires
        is_graph_of(
            graph,
            layout,
            expansion,
            start_nodes,
            part_heads,
            equivalences,
            table,
            scoring,
        ),
        graph@.nodes.dom().contains(IdView::Standard(id)),
        table.falseness@.dom().contains(
            RowRange {
                start: id.row_idx,
                length: graph@.nodes[IdView::Standard(id)].per_part_length as usize,
            },
        ),
    ensures
        ({
            let node = graph@.nodes[IdView::Standard(id)];
            let listed = table.falseness@[RowRange {
                start: id.row_idx,
                length: node.per_part_length as usize,
            }]@;
            &&& places.len() == node.false_nodes.len()
            &&& forall|j: int|
                0 <= j < places.len() ==> {
                    let (range, transposition) = listed[(#[trigger] places[j]).0];
                    let false_head = Seq::new(
                        transposition@.len(),
                        |place: int| id.course_head[transposition@[place] as int],
                    );
                    &&& 0 <= places[j].0 < listed.len()
                    &&& node.false_nodes[j].course_head == equivalences[false_head].0@
                    &&& node.false_nodes[j].row_idx == range.start
                    &&& node.false_nodes[j].is_start == places[j].1
                }
            &&& forall|i: int, j: int|
                0 <= i < j < places.len() ==> {
                    ||| (#[trigger] places[i]).0 < (#[trigger] places[j]).0
                    ||| places[i].0 == places[j].0 && places[i].1 && !places[j].1
                }
        }),
{
    let i = lemma_node_at(
        graph,
        layout,
        expansion,
        start_nodes,
        part_heads,
        equivalences,
        table,
        scoring,
        IdView::Standard(id),
    );
    lemma_index_of(expansion.ids());
    assert forall|id: IdView| #[trigger] graph@.nodes.dom().contains(id) implies
        graph@.nodes[id].per_part_length == expansion.lengths()[id] by {
        let j = lemma_node_at(
            graph,
            layout,
            expansion,
            start_nodes,
            part_heads,
            equivalences,
            table,
            scoring,
            id,
        );
    }
    assert(lengths_of(graph@.nodes) =~= expansion.lengths());
    law_false_nodes_in_order(
        id,
        graph@.nodes[IdView::Standard(id)],
        graph@.nodes,
        table,
        equivalences,
    )
}

/// In a graph that is built from ranges, the predecessors of a node that lead back to another node stand
/// one for one, and in the same order, for the successors of that node that lead here.  Each is the same
/// link of the layout, and its rotation and that of the successor add up to the number of parts.  None
/// leads back to a node that is not in the graph.
pub proof fn law_built_predecessors_oppose_successors<
    S,
    C: Fn(&Vec<&Row>, &Row) -> Breakdown<S>,
    A: Fn(Breakdown<S>, Breakdown<S>) -> Breakdown<S>,
>(
    graph: Graph<S>,
    layout: Layout,
    expansion: Expansion,
    start_nodes: Seq<(IdView, StartIdx, Rotation)>,
    part_heads: Seq<Seq<usize>>,
    equivalences: Map<Seq<usize>, (Row, Rotation)>,
    table: FalsenessTable,
    scoring: Scoring<S, C, A>,
    from: IdView,
    to: IdView,
)
    requires
        is_graph_of(
            graph,
            layout,
            expansion,
            start_nodes,
            part_heads,
            equivalences,
            table,
            scoring,
        ),
        graph@.nodes.dom().contains(to),
        graph@.nodes.dom().contains(from) ==> forall|k: int|
            0 <= k < graph@.nodes[from].successors.len() && (
            #[trigger] graph@.nodes[from].successors[k]).id == to
                ==> graph@.nodes[from].successors[k].rotation < graph@.num_parts,
    ensures
        ({
            let back = graph@.nodes[to].predecessors.filter(|link: LinkView| link.id == from);
            let forth = graph@.nodes[from].successors.filter(|link: LinkView| link.id == to);
            if graph@.nodes.dom().contains(from) {
                &&& back.len() == forth.len()
                &&& forall|i: int|
                    0 <= i < back.len() ==> {
                        &&& (#[trigger] back[i]).source_idx == forth[i].source_idx
                        &&& back[i].rotation + forth[i].rotation == graph@.num_parts
                    }
            } else {
                back.len() == 0
            }
        }),
{
    law_predecessors_mirror_successors(
        graph,
        layout,
        expansion,
        start_nodes,
        part_heads,
        equivalences,
        table,
        scoring,
        from,
        to,
    );
    if graph@.nodes.dom().contains(from) {
        law_links_back_oppose_links(from, graph@.nodes[from].successors, to, graph@.num_parts);
    }
}

/// In a graph that is built from ranges, every predecessor of a node has a successor that is the same
/// link of the layout between the same two nodes, and every successor that leads to the node has such a
/// predecessor.  The rotations of the two add up to the number of parts.
pub proof fn law_built_links_lead_both_ways<
    S,
    C: Fn(&Vec<&Row>, &Row) -> Breakdown<S>,
    A: Fn(Breakdown<S>, Breakdown<S>) -> Breakdown<S>,
>(
    graph: Graph<S>,
    layout: Layout,
    expansion: Expansion,
    start_nodes: Seq<(IdView, StartIdx, Rotation)>,
    part_heads: Seq<Seq<usize>>,
    equivalences: Map<Seq<usize>, (Row, Rotation)>,
    table: FalsenessTable,
    scoring: Scoring<S, C, A>,
    from: IdView,
    to: IdView,
)
    requires
        is_graph_of(
            graph,
            layout,
            expansion,
            start_nodes,
            part_heads,
            equivalences,
            table,
            scoring,
        ),
        graph@.nodes.dom().contains(to),
        graph@.nodes.dom().contains(from) ==> forall|k: int|
            0 <= k < graph@.nodes[from].successors.len() && (
            #[trigger] graph@.nodes[from].successors[k]).id == to
                ==> graph@.nodes[from].successors[k].rotation < graph@.num_parts,
    ensures
        forall|p: int|
            0 <= p < graph@.nodes[to].predecessors.len() && (
            #[trigger] graph@.nodes[to].predecessors[p]).id == from ==> {
                &&& graph@.nodes.dom().contains(from)
                &&& exists|k: int|
                    {
                        &&& 0 <= k < graph@.nodes[from].successors.len()
                        &&& (#[trigger] graph@.nodes[from].successors[k]).id == to
                        &&& graph@.nodes[from].successors[k].source_idx
                            == graph@.nodes[to].predecessors[p].source_idx
                        &&& graph@.nodes[from].successors[k].rotation
                            + graph@.nodes[to].predecessors[p].rotation == graph@.num_parts
                    }
            },
        graph@.nodes.dom().contains(from) ==> forall|k: int|
            0 <= k < graph@.nodes[from].successors.len() && (
            #[trigger] graph@.nodes[from].successors[k]).id == to ==> exists|p: int|
                {
                    &&& 0 <= p < graph@.nodes[to].predecessors.len()
                    &&& (#[trigger] graph@.nodes[to].predecessors[p]).id == from
                    &&& graph@.nodes[from].successors[k].source_idx
                        == graph@.nodes[to].predecessors[p].source_idx
                    &&& graph@.nodes[from].successors[k].rotation
                        + graph@.nodes[to].predecessors[p].rotation == graph@.num_parts
                },
{
    let preds = graph@.nodes[to].predecessors;
    let succs = graph@.nodes[from].successors;
    let comes_from = |link: LinkView| link.id == from;
    let leads_to = |link: LinkView| link.id == to;
    let back = preds.filter(comes_from);
    let forth = succs.filter(leads_to);
    law_built_predecessors_oppose_successors(
        graph,
        layout,
        expansion,
        start_nodes,
        part_heads,
        equivalences,
        table,
        scoring,
        from,
        to,
    );
    assert forall|p: int| 0 <= p < preds.len() && (#[trigger] preds[p]).id == from implies
        graph@.nodes.dom().contains(from) && exists|k: int|
        {
            &&& 0 <= k < succs.len()
            &&& (#[trigger] succs[k]).id == to
            &&& succs[k].source_idx == preds[p].source_idx
            &&& succs[k].rotation + preds[p].rotation == graph@.num_parts
        } by {
        preds.lemma_filter_contains(comes_from, p);
        let i = back.index_of(preds[p]);
        assert(back[i] == preds[p]);
        succs.lemma_filter_pred(leads_to, i);
        succs.lemma_filter_contains_rev(leads_to, forth[i]);
        let k = succs.index_of(forth[i]);
        assert(succs[k] == forth[i]);
    }
    if graph@.nodes.dom().contains(from) {
        assert forall|k: int| 0 <= k < succs.len() && (#[trigger] succs[k]).id == to implies
            exists|p: int|
            {
                &&& 0 <= p < preds.len()
                &&& (#[trigger] preds[p]).id == from
                &&& succs[k].source_idx == preds[p].source_idx
                &&& succs[k].rotation + preds[p].rotation == graph@.num_parts
            } by {
            succs.lemma_filter_contains(leads_to, k);
            let i = forth.index_of(succs[k]);
            assert(forth[i] == succs[k]);
            preds.lemma_filter_pred(comes_from, i);
            preds.lemma_filter_contains_rev(comes_from, back[i]);
            let p = preds.index_of(back[i]);
            assert(preds[p] == back[i]);
        }
    }
}

/// In a graph that is built from ranges, the music of a node is added up part by part.  To the music of
/// no rows is added, for each part, what `scoring` finds in the rows of the node's block, from the node's
/// first row on and as many as the node is long in one part, in the course whose head is the part head
/// permuted by the node's course head.  A block without rows has no music.  These are the rows and the
/// course head that are handed to `scoring` for each part, and the sum before the first and after each
/// part.
pub proof fn law_built_music<
    S,
    C: Fn(&Vec<&Row>, &Row) -> Breakdown<S>,
    A: Fn(Breakdown<S>, Breakdown<S>) -> Breakdown<S>,
>(
    graph: Graph<S>,
    layout: Layout,
    expansion: Expansion,
    start_nodes: Seq<(IdView, StartIdx, Rotation)>,
    part_heads: Seq<Seq<usize>>,
    equivalences: Map<Seq<usize>, (Row, Rotation)>,
    table: FalsenessTable,
    scoring: Scoring<S, C, A>,
    id: NodeIdView,
) -> (parts: (Seq<Vec<&'static Row>>, Seq<Row>, Seq<Breakdown<S>>))
    requires
        is_graph_of(
            graph,
            layout,
            expansion,
            start_nodes,
            part_heads,
            equivalences,
            table,
            scoring,
        ),
        graph@.nodes.dom().contains(IdView::Standard(id)),
        expansion.has_own_ids(),
    ensures
        ({
            let (handed, course_heads, sums) = parts;
            let node = graph@.nodes[IdView::Standard(id)];
            let block = layout.blocks@[id.row_idx.block as int].rows@;
            &&& handed.len() == part_heads.len()
            &&& course_heads.len() == part_heads.len()
            &&& sums.len() == part_heads.len() + 1
            &&& sums[0]@ == scoring.zero@
            &&& sums[part_heads.len() as int]@ == node.music
            &&& forall|i: int|
                0 <= i < part_heads.len() ==> {
                    &&& (#[trigger] course_heads[i])@.len() == id.course_head.len()
                    &&& forall|place: int|
                        0 <= place < id.course_head.len() ==> #[trigger] course_heads[i]@[place]
                            == part_heads[i][id.course_head[place] as int]
                    &&& block.len() == 0 ==> handed[i]@.len() == 0
                    &&& block.len() > 0 ==> {
                        &&& handed[i]@.len() == node.per_part_length
                        &&& forall|k: int|
                            0 <= k < handed[i]@.len() ==> (#[trigger] handed[i]@[k])@ == block[(
                            id.row_idx.row + k) % (block.len() as int)]@
                    }
                    &&& exists|music: Breakdown<S>|
                        {
                            &&& #[trigger] call_ensures(
                                scoring.in_course,
                                (&handed[i], &course_heads[i]),
                                music,
                            )
                            &&& call_ensures(scoring.sum, (sums[i], music), sums[i + 1])
                        }
                }
        }),
{
    let j = lemma_node_at(
        graph,
        layout,
        expansion,
        start_nodes,
        part_heads,
        equivalences,
        table,
        scoring,
        IdView::Standard(id),
    );
    let range = expansion.range(j)@;
    let node = graph@.nodes[IdView::Standard(id)];
    let block = layout.blocks@[id.row_idx.block as int].rows@;
    let plain_rows = range.plain_rows(layout);
    assert(range.node_id == IdView::Standard(id));
    let (course_heads, sums) = choose|course_heads: Seq<Row>, sums: Seq<Breakdown<S>>| #[trigger]
        adds_up(scoring, plain_rows, course_heads, sums) && sums.last()@ == node.music && row_views(
            course_heads,
        ) == part_course_heads(range.node_id, part_heads);
    assert(row_views(course_heads).len() == course_heads.len());
    let handed = Seq::new(
        part_heads.len(),
        |i: int|
            (choose|rows: Vec<&Row>, music: Breakdown<S>|
                #![trigger call_ensures(scoring.in_course, (&rows, &course_heads[i]), music)]
                {
                    &&& rows@.map_values(|row: &Row| row@) == plain_rows
                    &&& call_ensures(scoring.in_course, (&rows, &course_heads[i]), music)
                    &&& call_ensures(scoring.sum, (sums[i], music), sums[i + 1])
                }).0,
    );
    assert forall|i: int| 0 <= i < part_heads.len() implies {
        &&& (#[trigger] course_heads[i])@.len() == id.course_head.len()
        &&& forall|place: int|
            0 <= place < id.course_head.len() ==> #[trigger] course_heads[i]@[place]
                == part_heads[i][id.course_head[place] as int]
        &&& block.len() == 0 ==> handed[i]@.len() == 0
        &&& block.len() > 0 ==> {
            &&& handed[i]@.len() == node.per_part_length
            &&& forall|k: int|
                0 <= k < handed[i]@.len() ==> (#[trigger] handed[i]@[k])@ == block[(id.row_idx.row
                    + k) % (block.len() as int)]@
        }
        &&& exists|music: Breakdown<S>|
            {
                &&& #[trigger] call_ensures(
                    scoring.in_course,
                    (&handed[i], &course_heads[i]),
                    music,
                )
                &&& call_ensures(scoring.sum, (sums[i], music), sums[i + 1])
            }
    } by {
        assert(adds_course(scoring, plain_rows, course_heads[i], sums[i], sums[i + 1]));
        assert(row_views(course_heads)[i] == course_heads[i]@);
        let rows = handed[i];
        assert(rows@.map_values(|row: &Row| row@) == plain_rows);
        law_range_covers_rows_of_its_block(range, layout, rows@);
    }
    (handed, course_heads, sums)
}

} // verus!
