use monument::expansion::build_graph;
use monument::falseness::FalsenessTable;
use monument::graph::{Graph, Node};
use monument::keyed::KeyedMap;
use monument::layout::{Layout, Link, RowIdx, RowRange, StartOrEnd};
use monument::music::{Breakdown, Scoring};
use monument::node_range::{
    End, NodeId, NodeRange, PerPartLength, RangeEnd, RowCounts, StandardNodeId, TotalLength,
};
use monument::primitives::{Block, Mask, Row};

fn row(bells: &[usize]) -> Row {
    Row::new(bells.to_vec()).unwrap()
}

fn link(from: usize, mask: Vec<Option<usize>>, transposition: &[usize]) -> Link {
    Link {
        from: RowIdx::new(0, from),
        to: RowIdx::new(0, 0),
        course_head_mask: Mask::new(mask),
        course_head_transposition: row(transposition),
        debug_name: String::new(),
        display_name: String::new(),
    }
}

fn point(label: &str) -> StartOrEnd {
    StartOrEnd { course_head: Row::rounds(3), row_idx: RowIdx::new(0, 0), label: label.to_owned() }
}

fn hunt() -> Layout {
    Layout {
        blocks: vec![Block {
            rows: vec![
                row(&[0, 1, 2]),
                row(&[1, 0, 2]),
                row(&[1, 2, 0]),
                row(&[2, 1, 0]),
                row(&[2, 0, 1]),
                row(&[0, 2, 1]),
            ],
        }],
        links: vec![
            link(0, vec![None, None, None], &[0, 1, 2]),
            link(0, vec![None, None, None], &[0, 2, 1]),
            link(3, vec![Some(0), Some(2), Some(1)], &[0, 2, 1]),
        ],
        starts: vec![point("<")],
        ends: vec![point(">")],
    }
}

fn id(course_head: &[usize], is_start: bool) -> NodeId {
    NodeId::Standard(StandardNodeId::new(row(course_head), RowIdx::new(0, 0), is_start))
}

fn name(id: &NodeId) -> String {
    match id {
        NodeId::Standard(id) => id.to_text(),
        NodeId::ZeroLengthEnd => "end".to_owned(),
    }
}

/// Every course scores as much as its second bell.  The courses and their rows are counted, and so are
/// the rows in which the first bell of the course leads.
fn in_course(rows: &Vec<&Row>, course_head: &Row) -> Breakdown<u32> {
    let total = course_head.bells()[1] as u32 + 1;
    let leading = rows.iter().filter(|row| row.bells()[0] == 0).count();
    Breakdown { total, counts: vec![1, rows.len(), leading] }
}

fn sum(a: Breakdown<u32>, b: Breakdown<u32>) -> Breakdown<u32> {
    let counts = a.counts.iter().zip(&b.counts).map(|(x, y)| x + y).collect();
    Breakdown { total: a.total + b.total, counts }
}

type InCourse = fn(&Vec<&Row>, &Row) -> Breakdown<u32>;
type Sum = fn(Breakdown<u32>, Breakdown<u32>) -> Breakdown<u32>;

fn scoring() -> Scoring<u32, InCourse, Sum> {
    Scoring { zero: Breakdown { total: 0, counts: vec![0, 0, 0] }, in_course, sum }
}

/// The first course is false against the first three rows of the second.
fn table(_: &Vec<(NodeId, PerPartLength)>) -> FalsenessTable {
    let mut falseness = KeyedMap::new();
    let first_half = RowRange::new(RowIdx::new(0, 0), 3);
    let whole = RowRange::new(RowIdx::new(0, 0), 6);
    falseness.add(whole, vec![(first_half, row(&[0, 2, 1])), (first_half, row(&[1, 0, 2]))]);
    FalsenessTable { falseness }
}

fn graph(max_length: usize) -> Graph<u32> {
    hunt().to_graph(&scoring(), max_length, table)
}

fn links_of(links: &[monument::graph::Link]) -> Vec<(String, usize, usize)> {
    links.iter().map(|link| (name(&link.id), link.source_idx, link.rotation)).collect()
}

#[test]
fn layouts_become_graphs() {
    let graph = graph(9);
    let mut names: Vec<String> = graph.ids().into_iter().map(name).collect();
    names.sort();
    assert_eq!(names, vec!["123,0:0", "123,0:0,is_start", "132,0:0"]);
    assert_eq!(graph.num_parts(), 1);
    assert_eq!(graph.start_nodes().len(), 1);
    assert_eq!(name(&graph.start_nodes()[0].0), "123,0:0,is_start");
    assert_eq!((graph.start_nodes()[0].1, graph.start_nodes()[0].2), (0, 0));
    assert_eq!(graph.end_nodes().len(), 1);
    assert_eq!(name(&graph.end_nodes()[0].0), "123,0:0");
    assert_eq!(graph.end_nodes()[0].1, End::Segment(0));

    let start: &Node<u32> = graph.get_node(&id(&[0, 1, 2], true)).unwrap();
    assert!(start.is_start());
    assert!(!start.is_end());
    assert_eq!(start.end(), None);
    assert_eq!(start.label(), "<");
    assert_eq!(start.length(), 6);
    assert_eq!(start.method_counts().counts, vec![6]);
    assert_eq!(start.score(), 2);
    assert_eq!(start.music.counts, vec![1, 6, 2]);
    assert_eq!(start.lb_distance_from_rounds, 0);
    assert_eq!(start.min_comp_length(), 6);
    assert!(!start.required);
    assert_eq!(
        links_of(start.successors()),
        vec![("123,0:0".to_owned(), 0, 0), ("132,0:0".to_owned(), 1, 0)]
    );
    assert!(start.predecessors().is_empty());

    let second = graph.get_node(&id(&[0, 2, 1], false)).unwrap();
    assert!(!second.is_start());
    assert_eq!(second.label(), "");
    assert_eq!(second.length(), 3);
    assert_eq!(second.score(), 3);
    assert_eq!(second.music.counts, vec![1, 3, 1]);
    assert_eq!(second.min_comp_length(), 9);
    assert_eq!(links_of(second.successors()), vec![("123,0:0".to_owned(), 2, 0)]);
    // Passing backwards over a link gives the opposite rotation
    assert_eq!(
        links_of(second.predecessors()),
        vec![("123,0:0,is_start".to_owned(), 1, 1)]
    );

    let end = graph.get_node(&id(&[0, 1, 2], false)).unwrap();
    assert_eq!(end.end(), Some(End::Segment(0)));
    assert!(end.is_end());
    assert_eq!(end.label(), ">");
    assert_eq!(end.length(), 0);
    assert_eq!(end.lb_distance_from_rounds, 6);
    assert!(end.successors().is_empty());
    assert_eq!(
        links_of(end.predecessors()),
        vec![("123,0:0,is_start".to_owned(), 0, 1), ("132,0:0".to_owned(), 2, 1)]
    );
}

#[test]
fn nodes_that_are_too_far_away_are_left_out() {
    let shorter = graph(8);
    assert!(shorter.get_node(&id(&[0, 2, 1], false)).is_none());
    assert_eq!(shorter.node_map().len(), 2);
    // The link to it stays, but there is no predecessor for it
    let start = shorter.get_node(&id(&[0, 1, 2], true)).unwrap();
    assert_eq!(start.successors().len(), 2);
    let nothing = graph(5);
    assert_eq!(nothing.node_map().len(), 0);
    assert!(nothing.end_nodes().is_empty());
    assert_eq!(nothing.start_nodes().len(), 1);
    assert!(nothing.get_start(0).is_none());
}

#[test]
fn false_nodes_are_found_in_the_graph() {
    let graph = graph(9);
    let start = graph.get_node(&id(&[0, 1, 2], true)).unwrap();
    let names: Vec<String> = start.false_nodes().iter().map(|id| id.to_text()).collect();
    assert_eq!(names, vec!["132,0:0"]);
    assert!(graph.get_node(&id(&[0, 2, 1], false)).unwrap().false_nodes().is_empty());
    assert!(graph.get_node(&id(&[0, 1, 2], false)).unwrap().false_nodes().is_empty());
}

#[test]
fn the_start_of_a_graph_is_found() {
    let graph = graph(9);
    let (node, start_idx, rotation) = graph.get_start(0).unwrap();
    assert!(node.is_start());
    assert_eq!((start_idx, rotation), (0, 0));
    assert!(graph.get_start(1).is_none());
}

/// A range of `length` rows before links to other nodes, over which the parts are rotated by one.
fn range(id: &NodeId, length: usize, next: Vec<NodeId>) -> NodeRange {
    let range_end = if next.is_empty() {
        RangeEnd::End(End::ZeroLength)
    } else {
        RangeEnd::NotEnd(next.into_iter().enumerate().map(|(i, id)| (i, id, 1)).collect())
    };
    NodeRange {
        node_id: id.clone(),
        range_end,
        per_part_length: PerPartLength(length),
        total_length: TotalLength(2 * length),
        method_counts: RowCounts { counts: vec![2 * length] },
        label: name(id),
    }
}

/// From the start, one node can be reached directly, or on a shorter way over another.
fn two_ways(node: &NodeId) -> Option<NodeRange> {
    let start = id(&[0, 1, 2], true);
    let near = id(&[1, 0, 2], false);
    let far = id(&[0, 2, 1], false);
    match name(node).as_str() {
        "123,0:0,is_start" => Some(range(&start, 0, vec![far, near])),
        "213,0:0" => Some(range(&near, 1, vec![far])),
        "132,0:0" => Some(range(&far, 4, vec![near, NodeId::ZeroLengthEnd])),
        "end" => Some(range(&NodeId::ZeroLengthEnd, 0, vec![])),
        _ => None,
    }
}

/// One node can be reached directly from a long start, or over a detour from a short one.
fn detour(node: &NodeId) -> Option<NodeRange> {
    let long = id(&[0, 1, 2], true);
    let short = id(&[0, 2, 1], true);
    let between = id(&[1, 0, 2], false);
    let goal = id(&[1, 2, 0], false);
    match name(node).as_str() {
        "123,0:0,is_start" => Some(range(&long, 5, vec![goal])),
        "132,0:0,is_start" => Some(range(&short, 1, vec![between])),
        "213,0:0" => Some(range(&between, 2, vec![goal])),
        "231,0:0" => Some(range(&goal, 1, vec![between, NodeId::ZeroLengthEnd])),
        "end" => Some(range(&NodeId::ZeroLengthEnd, 0, vec![])),
        _ => None,
    }
}

#[test]
fn distances_are_the_shortest() {
    let starts = vec![(id(&[0, 1, 2], true), 0, 0), (id(&[0, 2, 1], true), 1, 0)];
    let expansion = build_graph(detour, &starts, 20);
    let mut found: Vec<(String, usize)> = Vec::new();
    for i in 0..expansion.expanded.len() {
        let (range, distance) = expansion.expanded.value_at(i);
        assert_eq!(name(expansion.expanded.key_at(i)), name(&range.node_id));
        found.push((name(&range.node_id), *distance));
    }
    found.sort();
    assert_eq!(
        found,
        vec![
            ("123,0:0,is_start".to_owned(), 0),
            ("132,0:0,is_start".to_owned(), 0),
            ("213,0:0".to_owned(), 2),
            ("231,0:0".to_owned(), 6),
            ("end".to_owned(), 8),
        ]
    );
    assert_eq!(expansion.end_nodes.len(), 1);
    assert_eq!(expansion.end_nodes[0].1, End::ZeroLength);
    // With less rows, not even the goal is left
    let expansion = build_graph(detour, &starts, 7);
    assert_eq!(expansion.expanded.len(), 2);
    assert!(expansion.end_nodes.is_empty());
}

#[test]
fn all_parts_contribute_to_a_node() {
    let starts = vec![(id(&[0, 1, 2], true), 3, 1)];
    let graph: Graph<u32> = Graph::from_layout(
        &hunt(),
        two_ways,
        starts,
        10,
        |expansion| {
            assert_eq!(expansion.expanded.len(), 4);
            let mut equivalences = KeyedMap::new();
            equivalences.add(row(&[0, 2, 1]), (row(&[1, 0, 2]), 1));
            (equivalences, vec![row(&[0, 1, 2]), row(&[0, 2, 1])])
        },
        |list| {
            assert_eq!(list.len(), 4);
            let mut falseness = KeyedMap::new();
            falseness.add(
                RowRange::new(RowIdx::new(0, 0), 4),
                vec![(RowRange::new(RowIdx::new(0, 0), 1), Row::rounds(3))],
            );
            FalsenessTable { falseness }
        },
        &scoring(),
    );
    assert_eq!(graph.num_parts(), 2);
    assert_eq!((graph.start_nodes()[0].1, graph.start_nodes()[0].2), (3, 1));
    // The course heads are 213 and 132 * 213 = 312
    let near = graph.get_node(&id(&[1, 0, 2], false)).unwrap();
    assert_eq!(near.score(), 1 + 1);
    assert_eq!(near.music.counts, vec![2, 2, 2]);
    assert_eq!(
        links_of(near.predecessors()),
        vec![("123,0:0,is_start".to_owned(), 1, 1), ("132,0:0".to_owned(), 0, 1)]
    );
    // 132 stands for 213, which has the length of the false range
    let far = graph.get_node(&id(&[0, 2, 1], false)).unwrap();
    let names: Vec<String> = far.false_nodes().iter().map(|id| id.to_text()).collect();
    assert_eq!(names, vec!["213,0:0"]);
    // A node without a course head has no music
    let end = graph.get_node(&NodeId::ZeroLengthEnd).unwrap();
    assert_eq!(end.score(), 0);
    assert_eq!(end.music.counts, vec![0, 0, 0]);
    assert_eq!(end.end(), Some(End::ZeroLength));
}

#[test]
fn nodes_are_false_against_themselves() {
    let whole = RowRange::new(RowIdx::new(0, 0), 6);
    let graph: Graph<u32> = hunt().to_graph(&scoring(), 9, |_: &Vec<(NodeId, PerPartLength)>| {
        let mut falseness = KeyedMap::new();
        falseness.add(whole, vec![(whole, Row::rounds(3))]);
        FalsenessTable { falseness }
    });
    let start = graph.get_node(&id(&[0, 1, 2], true)).unwrap();
    let names: Vec<String> = start.false_nodes().iter().map(|id| id.to_text()).collect();
    assert_eq!(names, vec!["123,0:0,is_start"]);
}

/// Every path through a graph from a start to an end.
fn compositions(graph: &Graph<u32>) -> Vec<Vec<NodeId>> {
    let mut paths: Vec<Vec<NodeId>> =
        graph.start_nodes().iter().map(|start| vec![start.0.clone()]).collect();
    let mut found = Vec::new();
    while let Some(path) = paths.pop() {
        let node = match graph.get_node(path.last().unwrap()) {
            Some(node) => node,
            None => continue,
        };
        if node.is_end() {
            found.push(path.clone());
        }
        for link in node.successors() {
            let mut longer = path.clone();
            longer.push(link.id.clone());
            paths.push(longer);
        }
    }
    found
}

#[test]
fn no_composition_is_shorter_than_the_bound_of_its_nodes() {
    let graph = graph(9);
    let found = compositions(&graph);
    assert_eq!(found.len(), 2);
    let mut lengths = Vec::new();
    for path in found {
        let length: usize = path.iter().map(|id| graph.get_node(id).unwrap().length()).sum();
        for id in &path {
            assert!(graph.get_node(id).unwrap().min_comp_length() <= length);
        }
        lengths.push(length);
    }
    lengths.sort();
    assert_eq!(lengths, vec![6, 9]);
}

#[test]
fn splitting_a_graph_partitions_its_compositions() {
    let mut layout = hunt();
    layout.starts.push(StartOrEnd {
        course_head: row(&[0, 2, 1]),
        row_idx: RowIdx::new(0, 0),
        label: "second".to_owned(),
    });
    let graph: Graph<u32> = layout.to_graph(&scoring(), 9, table);
    let parts = graph.split_by_start_node();
    assert_eq!(parts.len(), 2);
    let counts: Vec<usize> = parts.iter().map(|part| compositions(part).len()).collect();
    assert_eq!(counts, vec![2, 1]);
    assert_eq!(compositions(&graph).len(), 3);
    for part in &parts {
        for path in compositions(part) {
            assert!(compositions(&graph).contains(&path));
            assert!(path[0] == part.start_nodes()[0].0);
        }
    }
}

#[test]
fn ranges_know_their_rows() {
    let layout = hunt();
    let node = id(&[0, 2, 1], false);
    let range = layout.node_range(&node).unwrap();
    let rows: Vec<String> =
        range.untransposed_rows(&layout).iter().map(|row| row.to_text()).collect();
    assert_eq!(rows, vec!["123", "213", "231"]);
    assert_eq!(node.course_head().map(|head| head.to_text()), Some("132".to_owned()));
    let end = layout.node_range(&NodeId::ZeroLengthEnd).unwrap();
    assert!(end.untransposed_rows(&layout).is_empty());
    assert!(NodeId::ZeroLengthEnd.course_head().is_none());
    assert_eq!(end.end(), Some(End::ZeroLength));
}

#[test]
fn nodes_end_where_the_composition_can_be_finished() {
    let mut layout = hunt();
    layout.ends.push(StartOrEnd {
        course_head: Row::rounds(3),
        row_idx: RowIdx::new(0, 4),
        label: "!".to_owned(),
    });
    let graph: Graph<u32> = layout.to_graph(&scoring(), 9, |_: &Vec<(NodeId, PerPartLength)>| {
        FalsenessTable { falseness: KeyedMap::new() }
    });
    // The composition comes round before any link can be taken
    assert_eq!(graph.node_map().len(), 1);
    let (start, _, _) = graph.get_start(0).unwrap();
    assert_eq!(start.length(), 4);
    assert_eq!(start.end(), Some(End::Segment(1)));
    assert_eq!(start.label(), "<!");
    assert!(start.successors().is_empty());
    assert_eq!(graph.end_nodes().len(), 1);
    assert_eq!(graph.end_nodes()[0].1, End::Segment(1));
}

#[test]
fn every_link_has_its_own_predecessor() {
    let mut layout = hunt();
    // More links lead to the middle of the block
    layout.links.push(Link { to: RowIdx::new(0, 3), ..link(0, vec![None; 3], &[0, 2, 1]) });
    layout.links.push(Link { to: RowIdx::new(0, 3), ..link(0, vec![None; 3], &[0, 1, 2]) });
    let graph: Graph<u32> = layout.to_graph(&scoring(), 12, |_: &Vec<(NodeId, PerPartLength)>| {
        FalsenessTable { falseness: KeyedMap::new() }
    });
    let mut num_links = 0;
    let mut num_predecessors = 0;
    for (to, node) in graph.nodes() {
        num_predecessors += node.predecessors().len();
        for (from, other) in graph.nodes() {
            let forwards: Vec<usize> = other
                .successors()
                .iter()
                .filter(|link| link.id == *to)
                .map(|link| link.source_idx)
                .collect();
            let back: Vec<usize> = node
                .predecessors()
                .iter()
                .filter(|link| link.id == *from)
                .map(|link| link.source_idx)
                .collect();
            assert_eq!(forwards, back);
            num_links += forwards.len();
        }
    }
    assert_eq!(num_links, num_predecessors);
    assert!(num_links > 4);
}
