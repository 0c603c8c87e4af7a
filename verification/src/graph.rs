//! A mutable graph of nodes.  Compositions are represented as paths through this graph.

use vstd::prelude::*;

#[allow(unused_imports)]
use crate::expansion::end_views;
use crate::keyed::KeyedMap;
#[allow(unused_imports)]
use crate::keyed::{changes_to, map_of};
use crate::layout::LinkIdx;
#[allow(unused_imports)]
use crate::layout::NodeIdView;
use crate::music::Breakdown;
use crate::node_range::{
    Distance, End, NodeId, PerPartLength, Rotation, RowCounts, StandardNodeId, StartIdx, TotalLength,
};
#[allow(unused_imports)]
use crate::node_range::IdView;
use crate::select::retain;
#[allow(unused_imports)]
use crate::select::{are_answers, lemma_selected_contained, selected};

verus! {

/// What a [`Link`] stands for.
#[verifier::ext_equal]
pub struct LinkView {
    pub id: IdView,
    pub source_idx: LinkIdx,
    pub rotation: Rotation,
}

/// A link from one node of a graph to another.
#[derive(PartialEq, Eq, Hash)]
pub struct Link {
    pub id: NodeId,
    /// Indexes into the links of the layout.
    pub source_idx: LinkIdx,
    pub rotation: Rotation,
}

impl View for Link {
    type V = LinkView;

    open spec fn view(&self) -> LinkView {
        LinkView { id: self.id@, source_idx: self.source_idx, rotation: self.rotation }
    }
}

impl Clone for Link {
    fn clone(&self) -> (link: Self)
        ensures
            link@ == self@,
    {
        Link { id: self.id.clone(), source_idx: self.source_idx, rotation: self.rotation }
    }
}

impl Link {
    pub fn new(id: NodeId, source_idx: LinkIdx, rotation: Rotation) -> (link: Self)
        ensures
            link.id == id,
            link.source_idx == source_idx,
            link.rotation == rotation,
    {
        Link { id, source_idx, rotation }
    }
}

/// What each of some links stands for.
pub open spec fn link_views(links: Seq<Link>) -> Seq<LinkView> {
    links.map_values(|link: Link| link@)
}

/// What a [`Node`] stands for.
#[verifier::ext_equal]
pub struct NodeView<S> {
    pub is_start: bool,
    pub end: Option<End>,
    pub label: Seq<char>,
    pub successors: Seq<LinkView>,
    pub predecessors: Seq<LinkView>,
    pub false_nodes: Seq<NodeIdView>,
    pub per_part_length: nat,
    pub total_length: nat,
    pub method_counts: Seq<usize>,
    pub music: (S, Seq<usize>),
    pub required: bool,
    pub lb_distance_from_rounds: nat,
    pub lb_distance_to_rounds: nat,
}

/// A node in a [`Graph`].  This is an indivisible chunk of ringing which cannot be split up by
/// calls or splices.
pub struct Node<S> {
    /// Whether this can be the first node in a composition.
    pub is_start: bool,
    /// How adding this node completes a composition, if it does.
    pub end: Option<End>,
    /// The text that should be added when this node is generated.
    pub label: String,
    pub successors: Vec<Link>,
    pub predecessors: Vec<Link>,
    /// The nodes which share rows with this one.
    pub false_nodes: Vec<StandardNodeId>,
    /// The number of rows in the range covered by this node.
    pub per_part_length: PerPartLength,
    /// The number of rows that this node adds to the composition.
    pub total_length: TotalLength,
    /// The number of rows of each method generated by this node.
    pub method_counts: RowCounts,
    /// The music generated by this node in the composition.
    pub music: Breakdown<S>,
    /// Whether this node needs to be included in every composition in this search.
    pub required: bool,
    /// A lower bound on the number of rows required to go from any rounds to the first row of this
    /// node.
    pub lb_distance_from_rounds: Distance,
    /// A lower bound on the number of rows required to go from the first row **after** this node to
    /// rounds.
    pub lb_distance_to_rounds: Distance,
}

impl<S> View for Node<S> {
    type V = NodeView<S>;

    open spec fn view(&self) -> NodeView<S> {
        NodeView {
            is_start: self.is_start,
            end: self.end,
            label: self.label@,
            successors: link_views(self.successors@),
            predecessors: link_views(self.predecessors@),
            false_nodes: self.false_nodes@.map_values(|id: StandardNodeId| id@),
            per_part_length: self.per_part_length.0 as nat,
            total_length: self.total_length.0 as nat,
            method_counts: self.method_counts@,
            music: self.music@,
            required: self.required,
            lb_distance_from_rounds: self.lb_distance_from_rounds as nat,
            lb_distance_to_rounds: self.lb_distance_to_rounds as nat,
        }
    }
}

fn clone_links(links: &Vec<Link>) -> (copy: Vec<Link>)
    ensures
        link_views(copy@) == link_views(links@),
{
    let mut copy: Vec<Link> = Vec::new();
    let mut i: usize = 0;
    while i < links.len()
        invariant
            i <= links@.len(),
            copy@.len() == i,
            forall|j: int| 0 <= j < i ==> (#[trigger] copy@[j])@ == links@[j]@,
        decreases links@.len() - i,
    {
        copy.push(links[i].clone());
        i = i + 1;
    }
    assert(link_views(copy@) =~= link_views(links@));
    copy
}

impl<S: Copy> Clone for Node<S> {
    fn clone(&self) -> (node: Self)
        ensures
            node@ == self@,
    {
        let mut false_nodes: Vec<StandardNodeId> = Vec::new();
        let mut i: usize = 0;
        while i < self.false_nodes.len()
            invariant
                i <= self.false_nodes@.len(),
                false_nodes@.len() == i,
                forall|j: int|
                    0 <= j < i ==> (#[trigger] false_nodes@[j])@ == self.false_nodes@[j]@,
            decreases self.false_nodes@.len() - i,
        {
            false_nodes.push(self.false_nodes[i].clone());
            i = i + 1;
        }
        let node = Node {
            is_start: self.is_start,
            end: self.end,
            label: self.label.clone(),
            successors: clone_links(&self.successors),
            predecessors: clone_links(&self.predecessors),
            false_nodes,
            per_part_length: self.per_part_length,
            total_length: self.total_length,
            method_counts: self.method_counts.clone(),
            music: self.music.clone(),
            required: self.required,
            lb_distance_from_rounds: self.lb_distance_from_rounds,
            lb_distance_to_rounds: self.lb_distance_to_rounds,
        };
        assert(node@.false_nodes =~= self@.false_nodes);
        node
    }
}

impl<S> Node<S> {
    /// A lower bound on the length of a composition which passes through this node.
    pub fn min_comp_length(&self) -> (length: usize)
        requires
            self@.lb_distance_from_rounds + self@.total_length + self@.lb_distance_to_rounds
                <= usize::MAX,
        ensures
            length == self@.lb_distance_from_rounds + self@.total_length
                + self@.lb_distance_to_rounds,
    {
        self.lb_distance_from_rounds + self.total_length.0 + self.lb_distance_to_rounds
    }

    pub fn length(&self) -> (length: usize)
        ensures
            length == self@.total_length,
    {
        self.total_length.0
    }

    pub fn method_counts(&self) -> (counts: &RowCounts)
        ensures
            counts@ == self@.method_counts,
    {
        &self.method_counts
    }

    pub fn label(&self) -> (label: &str)
        ensures
            label@ == self@.label,
    {
        self.label.as_str()
    }

    pub fn is_start(&self) -> (start: bool)
        ensures
            start == self@.is_start,
    {
        self.is_start
    }

    pub fn end(&self) -> (end: Option<End>)
        ensures
            end == self@.end,
    {
        self.end
    }

    pub fn is_end(&self) -> (end: bool)
        ensures
            end == (self@.end is Some),
    {
        self.end.is_some()
    }

    pub fn successors(&self) -> (links: &[Link])
        ensures
            link_views(links@) == self@.successors,
            links@ == self.successors@,
    {
        self.successors.as_slice()
    }

    pub fn successors_mut(&mut self) -> (links: &mut Vec<Link>)
        ensures
            *links == old(self).successors,
            *final(self) == (Node { successors: *final(links), ..*old(self) }),
    {
        &mut self.successors
    }

    pub fn predecessors(&self) -> (links: &[Link])
        ensures
            link_views(links@) == self@.predecessors,
            links@ == self.predecessors@,
    {
        self.predecessors.as_slice()
    }

    pub fn predecessors_mut(&mut self) -> (links: &mut Vec<Link>)
        ensures
            *links == old(self).predecessors,
            *final(self) == (Node { predecessors: *final(links), ..*old(self) }),
    {
        &mut self.predecessors
    }

    pub fn false_nodes(&self) -> (ids: &[StandardNodeId])
        ensures
            ids@.map_values(|id: StandardNodeId| id@) == self@.false_nodes,
            ids@ == self.false_nodes@,
    {
        self.false_nodes.as_slice()
    }

    pub fn false_nodes_mut(&mut self) -> (ids: &mut Vec<StandardNodeId>)
        ensures
            *ids == old(self).false_nodes,
            *final(self) == (Node { false_nodes: *final(ids), ..*old(self) }),
    {
        &mut self.false_nodes
    }
}

impl<S: Copy> Node<S> {
    pub fn score(&self) -> (score: S)
        ensures
            score == self@.music.0,
    {
        self.music.total
    }
}

/// What a [`Graph`] stands for.
#[verifier::ext_equal]
pub struct GraphView<S> {
    pub nodes: Map<IdView, NodeView<S>>,
    pub start_nodes: Seq<(IdView, StartIdx, Rotation)>,
    pub end_nodes: Seq<(IdView, End)>,
    pub num_parts: Rotation,
}

/// A prototype of a node graph that is easy to modify.  It is used to build and optimise the graph
/// before it is converted into an efficient representation for use in tree search.
///
/// References between nodes don't have to be valid: a link, start or end that refers to a node
/// which isn't in the graph is ignored.
pub struct Graph<S> {
    pub nodes: KeyedMap<NodeId, Node<S>>,
    pub start_nodes: Vec<(NodeId, StartIdx, Rotation)>,
    pub end_nodes: Vec<(NodeId, End)>,
    /// The number of different parts.
    pub num_parts: Rotation,
}

/// The starts of a graph, with the ids for what they stand for.
pub open spec fn start_views(starts: Seq<(NodeId, StartIdx, Rotation)>) -> Seq<
    (IdView, StartIdx, Rotation),
> {
    starts.map_values(|start: (NodeId, StartIdx, Rotation)| (start.0@, start.1, start.2))
}

/// What the nodes of a graph stand for.
pub open spec fn node_views<S>(nodes: Map<IdView, Node<S>>) -> Map<IdView, NodeView<S>> {
    nodes.map_values(|node: Node<S>| node@)
}

impl<S> View for Graph<S> {
    type V = GraphView<S>;

    open spec fn view(&self) -> GraphView<S> {
        GraphView {
            nodes: node_views(self.nodes@),
            start_nodes: start_views(self.start_nodes@),
            end_nodes: end_views(self.end_nodes@),
            num_parts: self.num_parts,
        }
    }
}

impl<S> GraphView<S> {
    /// Whether every start that is in this graph can start a composition and has nothing before it,
    /// and every end that is in this graph ends a composition in the way that is given with it and
    /// has nothing after it.
    pub open spec fn is_valid(self) -> bool {
        &&& forall|i: int|
            0 <= i < self.start_nodes.len() && self.nodes.dom().contains(
                (#[trigger] self.start_nodes[i]).0,
            ) ==> {
                &&& self.nodes[self.start_nodes[i].0].is_start
                &&& self.nodes[self.start_nodes[i].0].predecessors.len() == 0
            }
        &&& forall|i: int|
            0 <= i < self.end_nodes.len() && self.nodes.dom().contains(
                (#[trigger] self.end_nodes[i]).0,
            ) ==> {
                &&& self.nodes[self.end_nodes[i].0].end == Some(self.end_nodes[i].1)
                &&& self.nodes[self.end_nodes[i].0].successors.len() == 0
            }
    }

    /// The number of rows on a path through this graph.
    pub open spec fn path_length(self, path: Seq<IdView>) -> nat
        decreases path.len(),
    {
        if path.len() == 0 {
            0
        } else {
            self.path_length(path.drop_last()) + self.nodes[path.last()].total_length
        }
    }
}

/// If two lists of values agree in what they stand for, then so do the maps of the same keys to
/// them.
proof fn lemma_same_node_views<S>(keys: Seq<IdView>, a: Seq<Node<S>>, b: Seq<Node<S>>)
    requires
        keys.no_duplicates(),
        keys.len() == a.len(),
        keys.len() == b.len(),
        forall|i: int| 0 <= i < keys.len() ==> (#[trigger] a[i])@ == b[i]@,
    ensures
        node_views(map_of(keys, a)) == node_views(map_of(keys, b)),
{
    assert forall|id: IdView| keys.contains(id) implies a[keys.index_of(id)]@ == b[keys.index_of(
        id,
    )]@ by {
        let i = keys.index_of(id);
        assert(keys[i] == id);
    }
    assert(node_views(map_of(keys, a)) =~= node_views(map_of(keys, b)));
}

fn clone_starts(starts: &Vec<(NodeId, StartIdx, Rotation)>) -> (copy: Vec<
    (NodeId, StartIdx, Rotation),
>)
    ensures
        start_views(copy@) == start_views(starts@),
{
    let mut copy: Vec<(NodeId, StartIdx, Rotation)> = Vec::new();
    let mut i: usize = 0;
    while i < starts.len()
        invariant
            i <= starts@.len(),
            copy@.len() == i,
            forall|j: int|
                0 <= j < i ==> start_views(copy@)[j] == #[trigger] start_views(starts@)[j],
        decreases starts@.len() - i,
    {
        copy.push((starts[i].0.clone(), starts[i].1, starts[i].2));
        i = i + 1;
    }
    assert(start_views(copy@) =~= start_views(starts@));
    copy
}

fn clone_ends(ends: &Vec<(NodeId, End)>) -> (copy: Vec<(NodeId, End)>)
    ensures
        end_views(copy@) == end_views(ends@),
{
    let mut copy: Vec<(NodeId, End)> = Vec::new();
    let mut i: usize = 0;
    while i < ends.len()
        invariant
            i <= ends@.len(),
            copy@.len() == i,
            forall|j: int| 0 <= j < i ==> end_views(copy@)[j] == #[trigger] end_views(ends@)[j],
        decreases ends@.len() - i,
    {
        copy.push((ends[i].0.clone(), ends[i].1));
        i = i + 1;
    }
    assert(end_views(copy@) =~= end_views(ends@));
    copy
}

impl<S: Copy> Clone for Graph<S> {
    fn clone(&self) -> (graph: Self)
        ensures
            graph@ == self@,
            graph.nodes.keys() == self.nodes.keys(),
    {
        let mut nodes: KeyedMap<NodeId, Node<S>> = KeyedMap::new();
        let len: usize = self.nodes.len();
        let mut i: usize = 0;
        while i < len
            invariant
                i <= len,
                len == self.nodes.keys().len(),
                self.nodes.keys().no_duplicates(),
                self.nodes.values().len() == len,
                nodes.keys() =~= self.nodes.keys().take(i as int),
                nodes.values().len() == i,
                forall|j: int|
                    0 <= j < i ==> (#[trigger] nodes.values()[j])@ == self.nodes.values()[j]@,
            decreases len - i,
        {
            let key = self.nodes.key_at(i).clone();
            assert(!nodes.keys().contains(key@));
            nodes.add(key, self.nodes.value_at(i).clone());
            i = i + 1;
        }
        assert(nodes.keys() =~= self.nodes.keys());
        proof {
            lemma_same_node_views(self.nodes.keys(), nodes.values(), self.nodes.values());
        }
        Graph {
            nodes,
            start_nodes: clone_starts(&self.start_nodes),
            end_nodes: clone_ends(&self.end_nodes),
            num_parts: self.num_parts,
        }
    }
}

impl<S: Copy> Graph<S> {
    /// For each start node, creates a copy of this graph with _only_ that start node.  This
    /// partitions the set of generated compositions across these graphs.
    pub fn split_by_start_node(&self) -> (graphs: Vec<Graph<S>>)
        ensures
            graphs@.len() == self@.start_nodes.len(),
            forall|i: int|
                0 <= i < graphs@.len() ==> (#[trigger] graphs@[i])@ == self@.from_start(i),
            forall|i: int|
                0 <= i < graphs@.len() ==> {
                    &&& (#[trigger] graphs@[i])@.start_nodes == seq![self@.start_nodes[i]]
                    &&& graphs@[i]@.nodes == self@.nodes
                    &&& graphs@[i]@.end_nodes == self@.end_nodes
                    &&& graphs@[i]@.num_parts == self@.num_parts
                },
            self@.is_valid() ==> forall|i: int|
                0 <= i < graphs@.len() ==> (#[trigger] graphs@[i])@.is_valid(),
    {
        let mut graphs: Vec<Graph<S>> = Vec::new();
        let mut i: usize = 0;
        while i < self.start_nodes.len()
            invariant
                i <= self.start_nodes@.len(),
                graphs@.len() == i,
                forall|j: int| 0 <= j < i ==> (#[trigger] graphs@[j])@ == self@.from_start(j),
            decreases self.start_nodes@.len() - i,
        {
            let start = &self.start_nodes[i];
            let mut graph = self.clone();
            graph.start_nodes = vec![(start.0.clone(), start.1, start.2)];
            assert(graph@.start_nodes =~= seq![self@.start_nodes[i as int]]);
            graphs.push(graph);
            i = i + 1;
        }
        proof {
            if self@.is_valid() {
                assert forall|i: int| 0 <= i < graphs@.len() implies (
                #[trigger] graphs@[i])@.is_valid() by {
                    let start = self@.start_nodes[i];
                    assert(self@.start_nodes.contains(start));
                    law_smaller_graphs_stay_valid(self@, self@.from_start(i));
                }
            }
        }
        graphs
    }
}

impl<S> Graph<S> {
    /// A graph without nodes.
    pub fn empty() -> (graph: Self)
        ensures
            graph@ == (GraphView {
                nodes: Map::<IdView, NodeView<S>>::empty(),
                start_nodes: Seq::empty(),
                end_nodes: Seq::empty(),
                num_parts: 0,
            }),
    {
        let graph = Graph {
            nodes: KeyedMap::new(),
            start_nodes: Vec::new(),
            end_nodes: Vec::new(),
            num_parts: 0,
        };
        assert(graph@.nodes =~= Map::<IdView, NodeView<S>>::empty());
        assert(graph@.start_nodes =~= Seq::empty());
        assert(graph@.end_nodes =~= Seq::empty());
        graph
    }

    pub fn num_parts(&self) -> (num_parts: Rotation)
        ensures
            num_parts == self@.num_parts,
    {
        self.num_parts
    }

    pub fn get_node(&self, id: &NodeId) -> (node: Option<&Node<S>>)
        ensures
            match node {
                Some(node) => {
                    &&& self.nodes@.dom().contains(id@)
                    &&& *node == self.nodes@[id@]
                    &&& node@ == self@.nodes[id@]
                },
                None => !self@.nodes.dom().contains(id@),
            },
    {
        self.nodes.get(id)
    }

    pub fn get_node_mut(&mut self, id: &NodeId) -> (node: Option<&mut Node<S>>)
        ensures
            final(self).nodes.keys() == old(self).nodes.keys(),
            final(self).start_nodes == old(self).start_nodes,
            final(self).end_nodes == old(self).end_nodes,
            final(self).num_parts == old(self).num_parts,
            match node {
                Some(node) => {
                    &&& old(self).nodes@.dom().contains(id@)
                    &&& *node == old(self).nodes@[id@]
                    &&& final(self).nodes@ == old(self).nodes@.insert(id@, *final(node))
                },
                None => {
                    &&& !old(self).nodes@.dom().contains(id@)
                    &&& final(self)@ == old(self)@
                },
            },
    {
        self.nodes.get_mut(id)
    }

    pub fn start_nodes(&self) -> (starts: &[(NodeId, StartIdx, Rotation)])
        ensures
            starts@ == self.start_nodes@,
            start_views(starts@) == self@.start_nodes,
    {
        self.start_nodes.as_slice()
    }

    pub fn end_nodes(&self) -> (ends: &[(NodeId, End)])
        ensures
            ends@ == self.end_nodes@,
            end_views(ends@) == self@.end_nodes,
    {
        self.end_nodes.as_slice()
    }

    pub fn node_map(&self) -> (nodes: &KeyedMap<NodeId, Node<S>>)
        ensures
            *nodes == self.nodes,
            node_views(nodes@) == self@.nodes,
    {
        &self.nodes
    }

    /// The start with a given index, provided that its node is in this graph.
    pub fn get_start(&self, idx: usize) -> (start: Option<(&Node<S>, StartIdx, Rotation)>)
        requires
            idx < self@.start_nodes.len() && self@.nodes.dom().contains(
                self@.start_nodes[idx as int].0,
            ) ==> self@.nodes[self@.start_nodes[idx as int].0].is_start,
        ensures
            start is Some <==> idx < self@.start_nodes.len() && self@.nodes.dom().contains(
                self@.start_nodes[idx as int].0,
            ),
            start matches Some((node, start_idx, rotation)) ==> {
                &&& node@ == self@.nodes[self@.start_nodes[idx as int].0]
                &&& node@.is_start
                &&& start_idx == self@.start_nodes[idx as int].1
                &&& rotation == self@.start_nodes[idx as int].2
            },
    {
        if idx < self.start_nodes.len() {
            let (start_node_id, start_idx, rotation) = &self.start_nodes[idx];
            match self.nodes.get(start_node_id) {
                Some(start_node) => Some((start_node, *start_idx, *rotation)),
                None => None,
            }
        } else {
            None
        }
    }

    /// The id of every node in this graph.
    pub fn ids(&self) -> (ids: Vec<&NodeId>)
        ensures
            ids@.map_values(|id: &NodeId| id@) == self.nodes.keys(),
            self.nodes.keys().no_duplicates(),
            forall|id: IdView| #[trigger]
                self.nodes.keys().contains(id) <==> self@.nodes.dom().contains(id),
    {
        let len: usize = self.nodes.len();
        let mut ids: Vec<&NodeId> = Vec::new();
        while ids.len() < len
            invariant
                ids@.len() <= len,
                len == self.nodes.keys().len(),
                forall|j: int| 0 <= j < ids@.len() ==> (#[trigger] ids@[j])@ == self.nodes.keys()[j],
            decreases len - ids@.len(),
        {
            ids.push(self.nodes.key_at(ids.len()));
        }
        assert(ids@.map_values(|id: &NodeId| id@) =~= self.nodes.keys());
        ids
    }

    /// Every node in this graph, with its id.
    pub fn nodes(&self) -> (nodes: Vec<(&NodeId, &Node<S>)>)
        ensures
            nodes@.map_values(|entry: (&NodeId, &Node<S>)| entry.0@) == self.nodes.keys(),
            nodes@.map_values(|entry: (&NodeId, &Node<S>)| *entry.1) == self.nodes.values(),
            self.nodes.keys().no_duplicates(),
            forall|id: IdView| #[trigger]
                self.nodes.keys().contains(id) <==> self@.nodes.dom().contains(id),
            forall|i: int|
                0 <= i < nodes@.len() ==> self@.nodes[(#[trigger] nodes@[i]).0@] == nodes@[i].1@,
    {
        let len: usize = self.nodes.len();
        let mut nodes: Vec<(&NodeId, &Node<S>)> = Vec::new();
        while nodes.len() < len
            invariant
                nodes@.len() <= len,
                len == self.nodes.keys().len(),
                forall|j: int|
                    0 <= j < nodes@.len() ==> (#[trigger] nodes@[j]).0@ == self.nodes.keys()[j]
                        && *nodes@[j].1 == self.nodes.values()[j],
            decreases len - nodes@.len(),
        {
            let i: usize = nodes.len();
            nodes.push((self.nodes.key_at(i), self.nodes.value_at(i)));
        }
        proof {
            assert(nodes@.map_values(|entry: (&NodeId, &Node<S>)| entry.0@)
                =~= self.nodes.keys());
            assert(nodes@.map_values(|entry: (&NodeId, &Node<S>)| *entry.1)
                =~= self.nodes.values());
            crate::keyed::lemma_index_of(self.nodes.keys());
        }
        nodes
    }

    /// Every node in this graph, without its id.
    pub fn just_nodes(&self) -> (nodes: Vec<&Node<S>>)
        ensures
            nodes@.map_values(|node: &Node<S>| *node) == self.nodes.values(),
            self.nodes.keys().len() == nodes@.len(),
            forall|i: int|
                0 <= i < nodes@.len() ==> self@.nodes[#[trigger] self.nodes.keys()[i]]
                    == nodes@[i]@,
    {
        let len: usize = self.nodes.len();
        let mut nodes: Vec<&Node<S>> = Vec::new();
        while nodes.len() < len
            invariant
                nodes@.len() <= len,
                len == self.nodes.keys().len(),
                forall|j: int|
                    0 <= j < nodes@.len() ==> *(#[trigger] nodes@[j]) == self.nodes.values()[j],
            decreases len - nodes@.len(),
        {
            nodes.push(self.nodes.value_at(nodes.len()));
        }
        proof {
            assert(nodes@.map_values(|node: &Node<S>| *node) =~= self.nodes.values());
            crate::keyed::lemma_index_of(self.nodes.keys());
        }
        nodes
    }

    /// The node at a given position among the nodes of this graph, to be changed in place.
    pub fn nodes_mut(&mut self, i: usize) -> (node: Option<&mut Node<S>>)
        ensures
            final(self).nodes.keys() == old(self).nodes.keys(),
            final(self).start_nodes == old(self).start_nodes,
            final(self).end_nodes == old(self).end_nodes,
            final(self).num_parts == old(self).num_parts,
            match node {
                Some(node) => {
                    &&& i < old(self).nodes.keys().len()
                    &&& *node == old(self).nodes.values()[i as int]
                    &&& final(self).nodes.values() == old(self).nodes.values().update(
                        i as int,
                        *final(node),
                    )
                },
                None => {
                    &&& i >= old(self).nodes.keys().len()
                    &&& final(self).nodes.values() == old(self).nodes.values()
                },
            },
    {
        if i < self.nodes.len() {
            Some(self.nodes.value_at_mut(i))
        } else {
            None
        }
    }
}

impl<S> Graph<S> {
    /// Hands every node to `pred`, which yields the node as it is to be kept, or nothing if it is
    /// to be removed.
    pub fn retain_nodes<F: Fn(&NodeId, Node<S>) -> Option<Node<S>>>(&mut self, pred: F)
        requires
            forall|id: &NodeId|
                old(self).nodes@.dom().contains(id@) ==> #[trigger] call_requires(
                    pred,
                    (id, old(self).nodes@[id@]),
                ),
        ensures
            final(self).start_nodes == old(self).start_nodes,
            final(self).end_nodes == old(self).end_nodes,
            final(self).num_parts == old(self).num_parts,
            forall|id: IdView| #[trigger]
                final(self).nodes@.dom().contains(id) ==> old(self).nodes@.dom().contains(id)
                    && changes_to(pred, id, old(self).nodes@[id], Some(final(self).nodes@[id])),
            forall|id: IdView| #[trigger]
                old(self).nodes@.dom().contains(id) && !final(self).nodes@.dom().contains(id)
                    ==> changes_to(pred, id, old(self).nodes@[id], None),
    {
        self.nodes.retain(pred);
    }

    /// Removes the starts for which a predicate is false.
    pub fn retain_start_nodes<F: Fn(&(NodeId, StartIdx, Rotation)) -> bool>(&mut self, pred: F)
        requires
            forall|start: &(NodeId, StartIdx, Rotation)|
                old(self).start_nodes@.contains(*start) ==> #[trigger] call_requires(
                    pred,
                    (start,),
                ),
        ensures
            final(self).nodes == old(self).nodes,
            final(self).end_nodes == old(self).end_nodes,
            final(self).num_parts == old(self).num_parts,
            exists|flags: Seq<bool>| #[trigger]
                are_answers(pred, old(self).start_nodes@, flags) && final(self).start_nodes@
                    == selected(old(self).start_nodes@, flags),
            old(self)@.is_valid() ==> final(self)@.is_valid(),
    {
        let ghost before = *self;
        let mut taken: Vec<(NodeId, StartIdx, Rotation)> = Vec::new();
        std::mem::swap(&mut self.start_nodes, &mut taken);
        self.start_nodes = retain(taken, pred);
        proof {
            let flags = choose|flags: Seq<bool>| #[trigger]
                are_answers(pred, before.start_nodes@, flags) && self.start_nodes@ == selected(
                    before.start_nodes@,
                    flags,
                );
            assert forall|i: int| 0 <= i < self@.start_nodes.len() implies before@.start_nodes.contains(
                #[trigger] self@.start_nodes[i],
            ) by {
                lemma_selected_contained(before.start_nodes@, flags, i);
                let j = before.start_nodes@.index_of(self.start_nodes@[i]);
                assert(before@.start_nodes[j] == self@.start_nodes[i]);
            }
            if before@.is_valid() {
                law_smaller_graphs_stay_valid(before@, self@);
            }
        }
    }

    /// Removes the ends for which a predicate is false.
    pub fn retain_end_nodes<F: Fn(&(NodeId, End)) -> bool>(&mut self, pred: F)
        requires
            forall|end: &(NodeId, End)|
                old(self).end_nodes@.contains(*end) ==> #[trigger] call_requires(pred, (end,)),
        ensures
            final(self).nodes == old(self).nodes,
            final(self).start_nodes == old(self).start_nodes,
            final(self).num_parts == old(self).num_parts,
            exists|flags: Seq<bool>| #[trigger]
                are_answers(pred, old(self).end_nodes@, flags) && final(self).end_nodes@
                    == selected(old(self).end_nodes@, flags),
            old(self)@.is_valid() ==> final(self)@.is_valid(),
    {
        let ghost before = *self;
        let mut taken: Vec<(NodeId, End)> = Vec::new();
        std::mem::swap(&mut self.end_nodes, &mut taken);
        self.end_nodes = retain(taken, pred);
        proof {
            let flags = choose|flags: Seq<bool>| #[trigger]
                are_answers(pred, before.end_nodes@, flags) && self.end_nodes@ == selected(
                    before.end_nodes@,
                    flags,
                );
            assert forall|i: int| 0 <= i < self@.end_nodes.len() implies before@.end_nodes.contains(
                #[trigger] self@.end_nodes[i],
            ) by {
                lemma_selected_contained(before.end_nodes@, flags, i);
                let j = before.end_nodes@.index_of(self.end_nodes@[i]);
                assert(before@.end_nodes[j] == self@.end_nodes[i]);
            }
            if before@.is_valid() {
                law_smaller_graphs_stay_valid(before@, self@);
            }
        }
    }
}

impl<S> GraphView<S> {
    /// Whether one of the links out of a node leads to another.
    pub open spec fn links_to(self, id: IdView, next: IdView) -> bool {
        exists|k: int|
            0 <= k < self.nodes[id].successors.len() && (
            #[trigger] self.nodes[id].successors[k]).id == next
    }

    /// Whether a path through this graph is a composition: it begins at the given start, goes from
    /// each of its nodes over a link to the next, and leaves the graph at an end.
    pub open spec fn is_composition(
        self,
        start: (IdView, StartIdx, Rotation),
        path: Seq<IdView>,
    ) -> bool {
        &&& self.start_nodes.contains(start)
        &&& path.len() > 0
        &&& path[0] == start.0
        &&& forall|i: int| 0 <= i < path.len() ==> self.nodes.dom().contains(#[trigger] path[i])
        &&& forall|i: int|
            0 <= i < path.len() - 1 ==> self.links_to(#[trigger] path[i], path[i + 1])
        &&& self.nodes[path.last()].end is Some
    }

    /// This graph with only one of its starts.
    pub open spec fn from_start(self, i: int) -> GraphView<S> {
        GraphView { start_nodes: seq![self.start_nodes[i]], ..self }
    }
}

/// Splitting a graph by its starts partitions its compositions: the graph that is left with one of
/// the starts has exactly the compositions of the whole graph that begin at that start.
pub proof fn law_split_partitions_compositions<S>(
    graph: GraphView<S>,
    i: int,
    start: (IdView, StartIdx, Rotation),
    path: Seq<IdView>,
)
    requires
        0 <= i < graph.start_nodes.len(),
    ensures
        graph.from_start(i).is_composition(start, path) <==> graph.is_composition(start, path)
            && start == graph.start_nodes[i],
{
    let part = graph.from_start(i);
    assert(part.start_nodes.contains(start) <==> start == graph.start_nodes[i]) by {
        assert(part.start_nodes[0] == graph.start_nodes[i]);
    }
    assert forall|id: IdView, next: IdView|
        #![trigger part.links_to(id, next)]
        #![trigger graph.links_to(id, next)]
        part.links_to(id, next) == graph.links_to(id, next) by {
        assert(part.nodes[id] == graph.nodes[id]);
    }
}

/// A graph stays valid when some of its nodes, starts and ends are removed.
pub proof fn law_smaller_graphs_stay_valid<S>(graph: GraphView<S>, smaller: GraphView<S>)
    requires
        graph.is_valid(),
        smaller.nodes.submap_of(graph.nodes),
        forall|i: int|
            0 <= i < smaller.start_nodes.len() ==> graph.start_nodes.contains(
                #[trigger] smaller.start_nodes[i],
            ),
        forall|i: int|
            0 <= i < smaller.end_nodes.len() ==> graph.end_nodes.contains(
                #[trigger] smaller.end_nodes[i],
            ),
    ensures
        smaller.is_valid(),
{
    assert forall|i: int|
        0 <= i < smaller.start_nodes.len() && smaller.nodes.dom().contains(
            (#[trigger] smaller.start_nodes[i]).0,
        ) implies smaller.nodes[smaller.start_nodes[i].0].is_start
        && smaller.nodes[smaller.start_nodes[i].0].predecessors.len() == 0 by {
        let j = graph.start_nodes.index_of(smaller.start_nodes[i]);
        assert(graph.start_nodes[j] == smaller.start_nodes[i]);
    }
    assert forall|i: int|
        0 <= i < smaller.end_nodes.len() && smaller.nodes.dom().contains(
            (#[trigger] smaller.end_nodes[i]).0,
        ) implies smaller.nodes[smaller.end_nodes[i].0].end == Some(smaller.end_nodes[i].1)
        && smaller.nodes[smaller.end_nodes[i].0].successors.len() == 0 by {
        let j = graph.end_nodes.index_of(smaller.end_nodes[i]);
        assert(graph.end_nodes[j] == smaller.end_nodes[i]);
    }
}

/// What a node stands for has the node's own fields.
pub proof fn law_node_stands_for_its_fields<S>(node: Node<S>)
    ensures
        node@.is_start == node.is_start,
        node@.end == node.end,
        node@.label == node.label@,
        node@.successors.len() == node.successors@.len(),
        forall|k: int|
            0 <= k < node.successors@.len() ==> {
                &&& (#[trigger] node@.successors[k]).id == node.successors@[k].id@
                &&& node@.successors[k].source_idx == node.successors@[k].source_idx
                &&& node@.successors[k].rotation == node.successors@[k].rotation
            },
        node@.predecessors.len() == node.predecessors@.len(),
        forall|k: int|
            0 <= k < node.predecessors@.len() ==> {
                &&& (#[trigger] node@.predecessors[k]).id == node.predecessors@[k].id@
                &&& node@.predecessors[k].source_idx == node.predecessors@[k].source_idx
                &&& node@.predecessors[k].rotation == node.predecessors@[k].rotation
            },
        node@.false_nodes.len() == node.false_nodes@.len(),
        forall|k: int|
            0 <= k < node.false_nodes@.len() ==> {
                &&& (#[trigger] node@.false_nodes[k]).course_head
                    == node.false_nodes@[k].course_head@
                &&& node@.false_nodes[k].row_idx == node.false_nodes@[k].row_idx
                &&& node@.false_nodes[k].is_start == node.false_nodes@[k].is_start
            },
        node@.per_part_length == node.per_part_length.0,
        node@.total_length == node.total_length.0,
        node@.method_counts == node.method_counts.counts@,
        node@.music.0 == node.music.total,
        node@.music.1 == node.music.counts@,
        node@.required == node.required,
        node@.lb_distance_from_rounds == node.lb_distance_from_rounds,
        node@.lb_distance_to_rounds == node.lb_distance_to_rounds,
{
}

/// What a graph stands for has the graph's own nodes, starts, ends and parts.
pub proof fn law_graph_stands_for_its_fields<S>(graph: Graph<S>)
    ensures
        graph@.nodes.dom() == graph.nodes@.dom(),
        forall|id: IdView| #[trigger]
            graph@.nodes.dom().contains(id) ==> graph@.nodes[id] == graph.nodes@[id]@,
        graph@.start_nodes.len() == graph.start_nodes@.len(),
        forall|i: int|
            0 <= i < graph.start_nodes@.len() ==> {
                &&& (#[trigger] graph@.start_nodes[i]).0 == graph.start_nodes@[i].0@
                &&& graph@.start_nodes[i].1 == graph.start_nodes@[i].1
                &&& graph@.start_nodes[i].2 == graph.start_nodes@[i].2
            },
        graph@.end_nodes.len() == graph.end_nodes@.len(),
        forall|i: int|
            0 <= i < graph.end_nodes@.len() ==> {
                &&& (#[trigger] graph@.end_nodes[i]).0 == graph.end_nodes@[i].0@
                &&& graph@.end_nodes[i].1 == graph.end_nodes@[i].1
            },
        graph@.num_parts == graph.num_parts,
{
    assert(graph@.nodes.dom() =~= graph.nodes@.dom());
}

/// A composition is a path from its start over successors to a node that ends one.
pub proof fn law_compositions_follow_successors<S>(
    graph: GraphView<S>,
    start: (IdView, StartIdx, Rotation),
    path: Seq<IdView>,
)
    ensures
        graph.is_composition(start, path) <==> {
            &&& path.len() > 0
            &&& exists|i: int| 0 <= i < graph.start_nodes.len() && #[trigger] graph.start_nodes[i]
                == start
            &&& path[0] == start.0
            &&& forall|i: int| 0 <= i < path.len() ==> graph.nodes.dom().contains(#[trigger] path[i])
            &&& forall|i: int|
                0 <= i < path.len() - 1 ==> exists|k: int|
                    0 <= k < graph.nodes[#[trigger] path[i]].successors.len() && (
                    #[trigger] graph.nodes[path[i]].successors[k]).id == path[i + 1]
            &&& graph.nodes[path[path.len() - 1]].end is Some
        },
{
    let steps = forall|i: int|
        0 <= i < path.len() - 1 ==> exists|k: int|
            0 <= k < graph.nodes[#[trigger] path[i]].successors.len() && (
            #[trigger] graph.nodes[path[i]].successors[k]).id == path[i + 1];
    let linked = forall|i: int|
        0 <= i < path.len() - 1 ==> graph.links_to(#[trigger] path[i], path[i + 1]);
    assert(steps == linked);
}

/// A graph is valid if and only if each of its starts that is one of its nodes can start a composition
/// and has no predecessors, and each of its ends that is one of its nodes ends a composition in the way
/// that is given and has no successors.
pub proof fn law_valid_starts_and_ends<S>(graph: GraphView<S>)
    ensures
        graph.is_valid() <==> {
            &&& forall|i: int|
                0 <= i < graph.start_nodes.len() && graph.nodes.dom().contains(
                    (#[trigger] graph.start_nodes[i]).0,
                ) ==> graph.nodes[graph.start_nodes[i].0].is_start
                    && graph.nodes[graph.start_nodes[i].0].predecessors.len() == 0
            &&& forall|i: int|
                0 <= i < graph.end_nodes.len() && graph.nodes.dom().contains(
                    (#[trigger] graph.end_nodes[i]).0,
                ) ==> graph.nodes[graph.end_nodes[i].0].end == Some(graph.end_nodes[i].1)
                    && graph.nodes[graph.end_nodes[i].0].successors.len() == 0
        },
{
}

} // verus!
