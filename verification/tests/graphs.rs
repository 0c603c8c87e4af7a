use std::cell::Cell;
use std::cmp::Ordering;

use monument::graph::{Graph, Link, Node};
use monument::keyed::KeyedMap;
use monument::layout::RowIdx;
use monument::music::Breakdown;
use monument::node_range::{
    End, NodeId, PerPartLength, RowCounts, StandardNodeId, TotalLength,
};
use monument::primitives::Row;
use monument::size::Size;

fn id(row_idx: usize) -> NodeId {
    NodeId::Standard(StandardNodeId::new(Row::rounds(4), RowIdx::new(0, row_idx), false))
}

fn row_idx(id: &NodeId) -> usize {
    match id {
        NodeId::Standard(id) => id.row_idx.row,
        NodeId::ZeroLengthEnd => usize::MAX,
    }
}

fn node(length: usize, successors: &[usize]) -> Node<i32> {
    Node {
        is_start: true,
        end: None,
        label: "label".to_owned(),
        successors: successors.iter().map(|i| Link::new(id(*i), *i, 0)).collect(),
        predecessors: Vec::new(),
        false_nodes: Vec::new(),
        per_part_length: PerPartLength(length),
        total_length: TotalLength(length),
        method_counts: RowCounts { counts: vec![length] },
        music: Breakdown { total: -3, counts: vec![1, 2] },
        required: false,
        lb_distance_from_rounds: 10,
        lb_distance_to_rounds: 200,
    }
}

fn sample() -> Graph<i32> {
    let mut nodes = KeyedMap::new();
    nodes.add(id(0), node(1, &[1, 2]));
    nodes.add(id(1), node(2, &[2]));
    nodes.add(id(2), node(3, &[]));
    Graph {
        nodes,
        start_nodes: vec![(id(0), 5, 0), (id(1), 6, 1), (id(9), 7, 0)],
        end_nodes: vec![(id(2), End::Segment(4)), (NodeId::ZeroLengthEnd, End::ZeroLength)],
        num_parts: 3,
    }
}

fn rows_of(graph: &Graph<i32>) -> Vec<usize> {
    let mut rows: Vec<usize> = graph.ids().into_iter().map(row_idx).collect();
    rows.sort();
    rows
}

#[test]
fn links_hold_what_they_are_made_of() {
    let link = Link::new(id(3), 4, 5);
    assert_eq!(row_idx(&link.id), 3);
    assert_eq!((link.source_idx, link.rotation), (4, 5));
}

#[test]
fn nodes_can_be_read() {
    let node = node(30, &[1]);
    assert_eq!(node.min_comp_length(), 240);
    assert_eq!(node.length(), 30);
    assert_eq!(node.method_counts().counts, vec![30]);
    assert_eq!(node.score(), -3);
    assert_eq!(node.label(), "label");
    assert!(node.is_start());
    assert!(!node.is_end());
}

#[test]
fn references_of_nodes_can_be_changed() {
    let mut graph = sample();
    let node = graph.get_node_mut(&id(1)).unwrap();
    node.successors_mut().push(Link::new(id(0), 8, 0));
    node.predecessors_mut().push(Link::new(id(0), 1, 2));
    node.false_nodes_mut().push(StandardNodeId::new(Row::rounds(4), RowIdx::new(0, 2), false));
    node.required = true;
    let node = graph.get_node(&id(1)).unwrap();
    assert_eq!(node.successors().len(), 2);
    assert_eq!(node.successors()[1].source_idx, 8);
    assert_eq!(node.predecessors()[0].rotation, 2);
    assert_eq!(node.false_nodes()[0].row_idx.row, 2);
    assert!(node.required);
    assert_eq!(graph.get_node(&id(0)).unwrap().successors().len(), 2);
    assert!(graph.get_node_mut(&id(7)).is_none());
}

#[test]
fn all_nodes_can_be_visited() {
    let mut graph = sample();
    assert_eq!(rows_of(&graph), vec![0, 1, 2]);
    for (id, node) in graph.nodes() {
        assert_eq!(node.length(), row_idx(id) + 1);
    }
    let lengths: usize = graph.just_nodes().iter().map(|node| node.length()).sum();
    assert_eq!(lengths, 6);
    let mut i = 0;
    while let Some(node) = graph.nodes_mut(i) {
        node.lb_distance_to_rounds = 1;
        i += 1;
    }
    assert_eq!(i, 3);
    assert!(graph.just_nodes().iter().all(|node| node.lb_distance_to_rounds == 1));
    assert_eq!(graph.node_map().len(), 3);
    assert_eq!(graph.num_parts(), 3);
}

#[test]
fn starts_outside_the_graph_are_ignored() {
    let graph = sample();
    let (node, start_idx, rotation) = graph.get_start(1).unwrap();
    assert_eq!(node.length(), 2);
    assert_eq!((start_idx, rotation), (6, 1));
    assert!(graph.get_start(2).is_none());
    assert!(graph.get_start(3).is_none());
}

#[test]
fn graphs_are_split_by_their_starts() {
    let graph = sample();
    let parts = graph.split_by_start_node();
    assert_eq!(parts.len(), 3);
    for (i, part) in parts.iter().enumerate() {
        assert_eq!(part.start_nodes().len(), 1);
        assert_eq!(part.start_nodes()[0].1, 5 + i);
        assert_eq!(row_idx(&part.start_nodes()[0].0), row_idx(&graph.start_nodes()[i].0));
        assert_eq!(rows_of(part), vec![0, 1, 2]);
        assert_eq!(part.end_nodes().len(), 2);
        assert_eq!(part.num_parts(), 3);
        assert_eq!(part.get_node(&id(0)).unwrap().successors().len(), 2);
    }
}

#[test]
fn nodes_are_retained() {
    let mut graph = sample();
    graph.retain_nodes(|id, mut node| {
        node.required = true;
        if row_idx(id) == 1 {
            None
        } else {
            Some(node)
        }
    });
    assert_eq!(rows_of(&graph), vec![0, 2]);
    assert!(graph.just_nodes().iter().all(|node| node.required));
    assert!(graph.get_node(&id(1)).is_none());
    assert_eq!(graph.get_node(&id(2)).unwrap().length(), 3);
    assert_eq!(graph.start_nodes().len(), 3);
}

#[test]
fn starts_and_ends_are_retained() {
    let mut graph = sample();
    graph.retain_start_nodes(|start| start.1 != 6);
    let left: Vec<usize> = graph.start_nodes().iter().map(|start| start.1).collect();
    assert_eq!(left, vec![5, 7]);
    assert_eq!(graph.end_nodes().len(), 2);
    graph.retain_end_nodes(|end| end.1 == End::ZeroLength);
    assert_eq!(graph.end_nodes().len(), 1);
    assert_eq!(graph.end_nodes()[0].1, End::ZeroLength);
    assert_eq!(rows_of(&graph), vec![0, 1, 2]);
}

#[test]
fn graphs_have_a_size() {
    let size = Size::from(&sample());
    assert_eq!(size, Size { num_nodes: 3, num_links: 3, num_starts: 3, num_ends: 2 });
}

#[test]
fn sizes_are_partially_ordered() {
    let size = Size { num_nodes: 3, num_links: 3, num_starts: 3, num_ends: 3 };
    let fewer_nodes = Size { num_nodes: 2, ..size };
    let fewer_still = Size { num_ends: 1, ..fewer_nodes };
    let more_links = Size { num_links: 4, ..fewer_nodes };
    assert_eq!(size.partial_cmp(&size), Some(Ordering::Equal));
    assert_eq!(fewer_nodes.partial_cmp(&size), Some(Ordering::Less));
    assert_eq!(fewer_still.partial_cmp(&fewer_nodes), Some(Ordering::Less));
    assert_eq!(fewer_still.partial_cmp(&size), Some(Ordering::Less));
    assert_eq!(size.partial_cmp(&fewer_still), Some(Ordering::Greater));
    assert_eq!(more_links.partial_cmp(&size), None);
    assert_eq!(size.partial_cmp(&more_links), None);
}

type BoxedPass = Box<dyn Fn(Graph<i32>, &usize) -> Graph<i32>>;

fn many_starts(num_starts: usize) -> Graph<i32> {
    let mut graph = Graph::empty();
    graph.start_nodes = (0..num_starts).map(|i| (id(0), i, 0)).collect();
    graph
}

#[test]
fn passes_are_applied_in_order() {
    let passes: Vec<BoxedPass> = vec![
        Box::new(|mut graph, data| {
            graph.num_parts = *data;
            graph
        }),
        Box::new(|mut graph, data| {
            graph.num_parts = 10 * graph.num_parts + *data + 1;
            graph
        }),
    ];
    let mut graph = many_starts(0);
    graph.run_passes(&passes, &2);
    assert_eq!(graph.num_parts(), 23);
}

#[test]
fn optimising_stops_when_the_graph_is_static() {
    let rounds = Cell::new(0);
    let passes = vec![|graph: Graph<i32>, _: &()| {
        rounds.set(rounds.get() + 1);
        graph
    }];
    let mut graph = many_starts(4);
    graph.optimise(&passes, &());
    assert_eq!(rounds.get(), 1);
    assert_eq!(graph.start_nodes().len(), 4);
}

#[test]
fn optimising_goes_on_while_the_graph_gets_smaller() {
    let passes = vec![|mut graph: Graph<i32>, _: &()| {
        if graph.start_nodes.len() > 3 {
            graph.start_nodes.pop();
        }
        graph
    }];
    let mut graph = many_starts(8);
    graph.optimise(&passes, &());
    assert_eq!(graph.start_nodes().len(), 3);
    let mut graph = many_starts(40);
    graph.optimise(&passes, &());
    assert_eq!(graph.start_nodes().len(), 20);
    graph.optimise_with_iter_limit(&passes, &(), 5);
    assert_eq!(graph.start_nodes().len(), 15);
    graph.optimise_with_iter_limit(&passes, &(), 0);
    assert_eq!(graph.start_nodes().len(), 15);
}

#[test]
fn optimising_stops_when_the_graph_gets_larger() {
    let passes = vec![|mut graph: Graph<i32>, _: &()| {
        graph.end_nodes.push((id(0), End::ZeroLength));
        graph
    }];
    let mut graph = many_starts(3);
    graph.optimise(&passes, &());
    assert_eq!(graph.end_nodes().len(), 1);
}

#[test]
fn optimising_goes_on_if_sizes_cannot_be_compared() {
    let passes = vec![|mut graph: Graph<i32>, _: &()| {
        graph.start_nodes.pop();
        graph.end_nodes.push((id(0), End::ZeroLength));
        graph
    }];
    let mut graph = many_starts(30);
    graph.optimise(&passes, &());
    assert_eq!(graph.end_nodes().len(), 20);
    assert_eq!(graph.start_nodes().len(), 10);
}

#[test]
fn what_every_pass_keeps_is_kept() {
    let passes: Vec<BoxedPass> = vec![
        Box::new(|mut graph, _| {
            graph.start_nodes.pop();
            graph
        }),
        Box::new(|mut graph, least| {
            graph.retain_nodes(|id, node| if row_idx(id) < *least { Some(node) } else { None });
            graph
        }),
    ];
    let mut graph = sample();
    let before = Size::from(&graph);
    graph.optimise(&passes, &2);
    // No pass touches the ends, and none makes the graph larger
    assert_eq!(graph.end_nodes().len(), 2);
    assert_eq!(graph.num_parts(), 3);
    let after = Size::from(&graph);
    assert_eq!(after, Size { num_nodes: 2, num_links: 3, num_starts: 0, num_ends: 2 });
    assert_eq!(after.partial_cmp(&before), Some(Ordering::Less));
}
