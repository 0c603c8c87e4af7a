use std::cell::Cell;
use std::collections::BTreeSet;

use monument::falseness::FalsenessTable;
use monument::frontier::{Frontier, FrontierItem};
use monument::graph::Graph;
use monument::keyed::KeyedMap;
use monument::layout::{Layout, RowIdx, RowRange};
use monument::music::{Breakdown, Scoring};
use monument::node_range::{
    End, NodeId, NodeRange, PerPartLength, RangeEnd, RowCounts, StandardNodeId, TotalLength,
};
use monument::primitives::{Block, Row};
use monument::query::{
    divide_queue_limit, in_ascending_order, prepare_search, Config, DebugOutput, Query,
};

fn graph() -> Graph<u32> {
    let mut graph = Graph::empty();
    graph.end_nodes = vec![(NodeId::ZeroLengthEnd, End::ZeroLength); 3];
    graph
}

fn drop_end(mut graph: Graph<u32>, least: &usize) -> Graph<u32> {
    if graph.end_nodes.len() > *least {
        graph.end_nodes.pop();
    }
    graph
}

#[test]
fn lengths_are_inclusive() {
    let query: Query<()> = Query {
        layout: Layout { blocks: vec![], links: vec![], starts: vec![], ends: vec![] },
        music_types: vec![],
        part_head: Row::rounds(8),
        len_range: 5000..5601,
        method_count_range: 0..100,
        num_comps: 30,
    };
    assert_eq!(query.max_length(), 5600);
}

#[test]
fn the_default_configuration_has_a_queue_limit() {
    let config = Config::with_passes(vec![drop_end]);
    assert_eq!(config.num_threads, None);
    assert_eq!(config.queue_limit, 10_000_000);
    assert_eq!(config.optimisation_passes.len(), 1);
    assert_eq!(config.threads_to_use(), num_cpus::get_physical());
}

#[test]
fn the_unoptimised_graph_can_be_asked_for() {
    let config = Config::with_passes(vec![drop_end]);
    let no_report = |_: &Graph<u32>| panic!("optimised");
    match prepare_search(graph(), &config, &1, Some(DebugOutput::Graph), no_report) {
        Err(Some(graph)) => assert_eq!(graph.end_nodes().len(), 3),
        _ => panic!("no graph"),
    }
}

#[test]
fn the_search_can_be_stopped_before_it_starts() {
    let config = Config::with_passes(vec![drop_end]);
    let num_ends = Cell::new(0);
    let report = |graph: &Graph<u32>| num_ends.set(graph.end_nodes().len());
    let stop = Some(DebugOutput::StopBeforeSearch);
    assert!(matches!(prepare_search(graph(), &config, &1, stop, report), Err(None)));
    // The graph has been optimised all the same
    assert_eq!(num_ends.get(), 1);
}

#[test]
fn the_graph_is_optimised_and_the_queue_is_divided() {
    let mut config = Config::with_passes(vec![drop_end]);
    config.num_threads = Some(3);
    config.queue_limit = 100;
    let report = |graph: &Graph<u32>| assert_eq!(graph.end_nodes().len(), 1);
    let plan = prepare_search(graph(), &config, &1, None, report).ok().unwrap();
    assert_eq!(plan.graph.end_nodes().len(), 1);
    assert_eq!(plan.queue_limits, vec![33, 33, 33]);
    config.num_threads = None;
    let plan = prepare_search(graph(), &config, &1, None, report).ok().unwrap();
    assert_eq!(plan.queue_limits.len(), num_cpus::get_physical());
}

#[test]
fn the_queue_limit_is_kept() {
    assert!(divide_queue_limit(100, 0).is_empty());
    for num_threads in 1..20 {
        let limits = divide_queue_limit(100, num_threads);
        assert_eq!(limits.len(), num_threads);
        assert!(limits.iter().sum::<usize>() <= 100);
    }
}

#[test]
fn compositions_are_sorted_by_score() {
    let comps = vec![(3, 'a'), (-1, 'b'), (3, 'c'), (0, 'd'), (-1, 'e')];
    let sorted = in_ascending_order(comps);
    assert_eq!(sorted, vec![(-1, 'b'), (-1, 'e'), (0, 'd'), (3, 'a'), (3, 'c')]);
    assert!(in_ascending_order(Vec::<(i64, char)>::new()).is_empty());
}

#[test]
fn the_nearest_item_leaves_the_frontier_first() {
    let mut frontier: Frontier<NodeId> = Frontier::new();
    for distance in [7, 3, 9, 3, 0, 5] {
        frontier.push(FrontierItem { item: NodeId::ZeroLengthEnd, distance });
    }
    frontier.push(FrontierItem::new(NodeId::ZeroLengthEnd));
    let mut distances = Vec::new();
    while let Some(item) = frontier.pop() {
        distances.push(item.distance);
    }
    assert_eq!(distances, vec![0, 0, 3, 3, 5, 7, 9]);
    assert!(frontier.pop().is_none());
}

#[test]
fn maps_find_values_by_key() {
    let mut map: KeyedMap<RowRange, usize> = KeyedMap::new();
    for i in 0..100 {
        map.add(RowRange::new(RowIdx::new(i % 3, i), 2 * i), i);
    }
    assert_eq!(map.len(), 100);
    for i in 0..100 {
        let key = RowRange::new(RowIdx::new(i % 3, i), 2 * i);
        assert_eq!(map.get(&key), Some(&i));
        assert_eq!(map.position(&key), Some(i));
        assert_eq!(*map.key_at(i), key);
        assert_eq!(*map.value_at(i), i);
    }
    let absent = RowRange::new(RowIdx::new(0, 1), 2);
    assert_eq!(map.get(&absent), None);
    assert!(map.get_mut(&absent).is_none());
    *map.value_at_mut(5) = 50;
    *map.get_mut(&RowRange::new(RowIdx::new(0, 6), 12)).unwrap() = 60;
    map.retain(|key, value| if key.start.row < 10 { Some(value + 1) } else { None });
    let values: Vec<usize> = (0..map.len()).map(|i| *map.value_at(i)).collect();
    assert_eq!(values, vec![1, 2, 3, 4, 5, 51, 61, 8, 9, 10]);
}

/// A node of six rows, which ends the composition.
fn only_node(id: &NodeId) -> Option<NodeRange> {
    Some(NodeRange {
        node_id: id.clone(),
        range_end: RangeEnd::End(End::Segment(2)),
        per_part_length: PerPartLength(6),
        total_length: TotalLength(6),
        method_counts: RowCounts { counts: vec![6] },
        label: String::new(),
    })
}

fn num_nodes(len_range: std::ops::Range<usize>) -> usize {
    let query: Query<()> = Query {
        layout: Layout {
            blocks: vec![Block { rows: vec![Row::rounds(3)] }],
            links: vec![],
            starts: vec![],
            ends: vec![],
        },
        music_types: vec![],
        part_head: Row::rounds(3),
        len_range,
        method_count_range: 0..100,
        num_comps: 1,
    };
    let start = StandardNodeId::new(Row::rounds(3), RowIdx::new(0, 0), true);
    let graph: Graph<usize> = query.unoptimised_graph(
        only_node,
        vec![(NodeId::Standard(start), 0, 0)],
        |_| (KeyedMap::new(), vec![Row::rounds(3), Row::rounds(3)]),
        |_| FalsenessTable { falseness: KeyedMap::new() },
        &Scoring {
            zero: Breakdown { total: 1, counts: vec![] },
            in_course: |rows: &Vec<&Row>, _: &Row| Breakdown { total: rows.len(), counts: vec![] },
            sum: |a: Breakdown<usize>, b: Breakdown<usize>| Breakdown {
                total: a.total + b.total,
                counts: vec![],
            },
        },
    );
    for node in graph.just_nodes() {
        assert_eq!(node.score(), 13);
        assert_eq!(node.end(), Some(End::Segment(2)));
    }
    graph.node_map().len()
}

#[test]
fn the_graph_of_a_query_is_limited_by_its_length() {
    assert_eq!(num_nodes(0..7), 1);
    assert_eq!(num_nodes(0..6), 0);
}

/// What a search finds: one composition for each of the ends.
fn found(num_threads: usize) -> BTreeSet<usize> {
    let mut config = Config::with_passes(vec![drop_end]);
    config.num_threads = Some(num_threads);
    let plan = prepare_search(graph(), &config, &2, None, |_: &Graph<u32>| ()).ok().unwrap();
    assert_eq!(plan.queue_limits.len(), num_threads);
    let mut comps = Vec::new();
    for _ in &plan.queue_limits {
        for i in 0..plan.graph.end_nodes().len() {
            comps.push((-(i as i64), i));
        }
    }
    in_ascending_order(comps).into_iter().map(|(_, comp)| comp).collect()
}

#[test]
fn the_number_of_threads_does_not_change_the_compositions() {
    assert_eq!(found(1).len(), 2);
    for num_threads in 2..6 {
        assert_eq!(found(num_threads), found(1));
    }
    // Without threads, nothing is searched
    assert!(found(0).is_empty());
}

#[test]
fn sorting_keeps_all_compositions() {
    let comps = vec![(5, 'x'), (1, 'y'), (5, 'x'), (-9, 'z')];
    let sorted = in_ascending_order(comps.clone());
    assert_eq!(sorted.len(), comps.len());
    assert!(comps.iter().all(|comp| sorted.contains(comp)));
    assert!(sorted.iter().all(|comp| comps.contains(comp)));
}
