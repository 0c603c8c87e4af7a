//! Building a graph out of ranges of rows.

use vstd::prelude::*;

use crate::expansion::{build_graph, Expansion};
#[allow(unused_imports)]
use crate::expansion::{
    can_expand, end_views, generates, is_expansion, is_expansion_by, start_ids,
};
use crate::falseness::{compute_falseness, CourseHeadEquivalences, FalsenessTable};
#[allow(unused_imports)]
use crate::falseness::{false_nodes_of, lengths_of, rows_of, with_false_nodes};
use crate::graph::{Graph, Link, Node};
#[allow(unused_imports)]
use crate::graph::{node_views, start_views, LinkView, NodeView};
use crate::keyed::KeyedMap;
#[allow(unused_imports)]
use crate::keyed::lemma_index_of;
use crate::layout::Layout;
#[allow(unused_imports)]
use crate::layout::{LinkIdx, NodeIdView};
use crate::music::{Breakdown, Scoring};
#[allow(unused_imports)]
use crate::music::can_score;
use crate::node_range::{Distance, NodeId, NodeRange, PerPartLength, Rotation, StartIdx};
#[allow(unused_imports)]
use crate::node_range::{IdView, NodeRangeView};
use crate::predecessors::set_predecessors;
#[allow(unused_imports)]
use crate::predecessors::{links_back, rotations_fit, successors_of};
use crate::primitives::Row;
#[allow(unused_imports)]
use crate::primitives::product;

verus! {

/// What each of some rows stands for.
pub open spec fn row_views(rows: Seq<Row>) -> Seq<Seq<usize>> {
    rows.map_values(|row: Row| row@)
}

/// The course heads of a node in each of the parts.
pub open spec fn part_course_heads(id: IdView, part_heads: Seq<Seq<usize>>) -> Seq<Seq<usize>> {
    match id {
        IdView::Standard(id) => part_heads.map_values(
            |part_head: Seq<usize>| product(part_head, id.course_head),
        ),
        IdView::ZeroLengthEnd => Seq::empty(),
    }
}

/// Whether a node has music in all parts that can be found: if it has a course head, then that has as
/// many bells as the part heads, and the layout has the node's rows.
pub open spec fn part_heads_fit(
    id: IdView,
    layout: Layout,
    part_heads: Seq<Seq<usize>>,
) -> bool {
    id matches IdView::Standard(id) ==> forall|i: int|
        0 <= i < part_heads.len() ==> (#[trigger] part_heads[i]).len() == id.course_head.len()
            && id.row_idx.block < layout.blocks@.len()
}

/// Finds the course heads of a node in each of the parts.
pub fn find_part_course_heads(id: &NodeId, part_heads: &Vec<Row>) -> (heads: Vec<Row>)
    requires
        id@ matches IdView::Standard(id) ==> forall|i: int|
            0 <= i < part_heads@.len() ==> (#[trigger] part_heads@[i])@.len()
                == id.course_head.len(),
    ensures
        row_views(heads@) == part_course_heads(id@, row_views(part_heads@)),
        match id {
            NodeId::Standard(id) => {
                &&& heads@.len() == part_heads@.len()
                &&& forall|i: int|
                    0 <= i < heads@.len() ==> {
                        &&& (#[trigger] heads@[i])@.len() == id.course_head@.len()
                        &&& forall|place: int|
                            0 <= place < id.course_head@.len() ==> #[trigger] heads@[i]@[place]
                                == part_heads@[i]@[id.course_head@[place] as int]
                    }
            },
            NodeId::ZeroLengthEnd => heads@.len() == 0,
        },
{
    let mut heads: Vec<Row> = Vec::new();
    if let Some(source_head) = id.course_head() {
        while heads.len() < part_heads.len()
            invariant
                id@ matches IdView::Standard(id) && source_head@ == id.course_head,
                forall|i: int|
                    0 <= i < part_heads@.len() ==> (#[trigger] part_heads@[i])@.len()
                        == source_head@.len(),
                heads@.len() <= part_heads@.len(),
                forall|i: int|
                    0 <= i < heads@.len() ==> (#[trigger] heads@[i])@ == product(
                        part_heads@[i]@,
                        source_head@,
                    ),
            decreases part_heads@.len() - heads@.len(),
        {
            let part_head = &part_heads[heads.len()];
            heads.push(part_head.times(source_head));
        }
    }
    assert(row_views(heads@) =~= part_course_heads(id@, row_views(part_heads@)));
    heads
}

/// The links that can be taken after a range, as links of a graph.
pub open spec fn successors_after(range: NodeRangeView) -> Seq<LinkView> {
    range.links().map_values(
        |link: (LinkIdx, IdView, Rotation)|
            LinkView { id: link.1, source_idx: link.0, rotation: link.2 },
    )
}

/// The node that covers a range, before it is known which other nodes lead to it or share rows
/// with it.
pub open spec fn node_of<S>(
    range: NodeRangeView,
    distance: nat,
    music: (S, Seq<usize>),
) -> NodeView<S> {
    NodeView {
        is_start: range.node_id.is_start(),
        end: range.end(),
        label: range.label,
        successors: successors_after(range),
        predecessors: Seq::empty(),
        false_nodes: Seq::empty(),
        per_part_length: range.per_part_length,
        total_length: range.total_length,
        method_counts: range.method_counts,
        music,
        required: false,
        lb_distance_from_rounds: distance,
        // This is only a lower bound, so nothing is lost by not knowing it yet
        lb_distance_to_rounds: 0,
    }
}

/// Whether adding the music of some rows of the plain course, in the course with a given head, to a
/// sum can yield another sum.
pub open spec fn adds_course<
    S,
    C: Fn(&Vec<&Row>, &Row) -> Breakdown<S>,
    A: Fn(Breakdown<S>, Breakdown<S>) -> Breakdown<S>,
>(
    scoring: Scoring<S, C, A>,
    plain_rows: Seq<Seq<usize>>,
    course_head: Row,
    before: Breakdown<S>,
    after: Breakdown<S>,
) -> bool {
    exists|rows: Vec<&Row>, music: Breakdown<S>|
        #![trigger call_ensures(scoring.in_course, (&rows, &course_head), music)]
        {
            &&& rows@.map_values(|row: &Row| row@) == plain_rows
            &&& call_ensures(scoring.in_course, (&rows, &course_head), music)
            &&& call_ensures(scoring.sum, (before, music), after)
        }
}

/// Whether `sums` can be what the music of some rows of the plain course adds up to, course by
/// course.
pub open spec fn adds_up<
    S,
    C: Fn(&Vec<&Row>, &Row) -> Breakdown<S>,
    A: Fn(Breakdown<S>, Breakdown<S>) -> Breakdown<S>,
>(
    scoring: Scoring<S, C, A>,
    plain_rows: Seq<Seq<usize>>,
    course_heads: Seq<Row>,
    sums: Seq<Breakdown<S>>,
) -> bool {
    &&& sums.len() == course_heads.len() + 1
    &&& sums[0]@ == scoring.zero@
    &&& forall|i: int|
        0 <= i < course_heads.len() ==> adds_course(
            scoring,
            plain_rows,
            #[trigger] course_heads[i],
            sums[i],
            sums[i + 1],
        )
}

/// Whether the rows of a range can have this music in all parts together.
pub open spec fn is_music_of<
    S,
    C: Fn(&Vec<&Row>, &Row) -> Breakdown<S>,
    A: Fn(Breakdown<S>, Breakdown<S>) -> Breakdown<S>,
>(
    scoring: Scoring<S, C, A>,
    layout: Layout,
    range: NodeRangeView,
    part_heads: Seq<Seq<usize>>,
    music: (S, Seq<usize>),
) -> bool {
    exists|course_heads: Seq<Row>, sums: Seq<Breakdown<S>>| #[trigger]
        adds_up(scoring, range.plain_rows(layout), course_heads, sums) && sums.last()@ == music
            && row_views(course_heads) == part_course_heads(range.node_id, part_heads)
}

/// Adds up the music of a range in all parts.
pub fn add_up_music<
    S: Copy,
    C: Fn(&Vec<&Row>, &Row) -> Breakdown<S>,
    A: Fn(Breakdown<S>, Breakdown<S>) -> Breakdown<S>,
>(
    node_range: &NodeRange,
    layout: &Layout,
    scoring: &Scoring<S, C, A>,
    part_heads: &Vec<Row>,
) -> (music: Breakdown<S>)
    requires
        part_heads_fit(node_range@.node_id, *layout, row_views(part_heads@)),
        can_score(*scoring),
    ensures
        is_music_of(*scoring, *layout, node_range@, row_views(part_heads@), music@),
{
    proof {
        if let IdView::Standard(id) = node_range@.node_id {
            assert forall|i: int| 0 <= i < part_heads@.len() implies (
            #[trigger] part_heads@[i])@.len() == id.course_head.len() by {
                assert(row_views(part_heads@)[i].len() == id.course_head.len());
            }
        }
    }
    let course_heads = find_part_course_heads(&node_range.node_id, part_heads);
    let ghost plain_rows = node_range@.plain_rows(*layout);
    let mut music = scoring.zero.clone();
    let ghost mut sums: Seq<Breakdown<S>> = seq![music];
    let mut i: usize = 0;
    while i < course_heads.len()
        invariant
            i <= course_heads@.len(),
            part_heads_fit(node_range@.node_id, *layout, row_views(part_heads@)),
            row_views(course_heads@) == part_course_heads(
                node_range@.node_id,
                row_views(part_heads@),
            ),
            can_score(*scoring),
            plain_rows == node_range@.plain_rows(*layout),
            sums.len() == i + 1,
            sums[0]@ == scoring.zero@,
            sums.last() == music,
            forall|j: int|
                0 <= j < i ==> adds_course(
                    *scoring,
                    plain_rows,
                    #[trigger] course_heads@[j],
                    sums[j],
                    sums[j + 1],
                ),
        decreases course_heads@.len() - i,
    {
        let ghost before = music;
        assert(row_views(course_heads@).len() == course_heads@.len());
        assert(node_range@.node_id matches IdView::Standard(id) ==> row_views(
            part_heads@,
        )[i as int].len() == id.course_head.len());
        let rows = node_range.untransposed_rows(layout);
        let in_course = &scoring.in_course;
        let added = in_course(&rows, &course_heads[i]);
        assert(call_ensures(scoring.in_course, (&rows, &course_heads@[i as int]), added));
        let sum = &scoring.sum;
        music = sum(music, added);
        proof {
            assert(adds_course(*scoring, plain_rows, course_heads@[i as int], before, music));
            sums = sums.push(music);
        }
        i = i + 1;
    }
    assert(adds_up(*scoring, plain_rows, course_heads@, sums));
    music
}

/// Builds the node that covers a range.
pub fn build_node<
    S: Copy,
    C: Fn(&Vec<&Row>, &Row) -> Breakdown<S>,
    A: Fn(Breakdown<S>, Breakdown<S>) -> Breakdown<S>,
>(
    node_range: &NodeRange,
    distance: Distance,
    layout: &Layout,
    scoring: &Scoring<S, C, A>,
    part_heads: &Vec<Row>,
) -> (node: Node<S>)
    requires
        part_heads_fit(node_range@.node_id, *layout, row_views(part_heads@)),
        can_score(*scoring),
    ensures
        is_music_of(*scoring, *layout, node_range@, row_views(part_heads@), node@.music),
        node@ == node_of(node_range@, distance as nat, node@.music),
{
    let music = add_up_music(node_range, layout, scoring, part_heads);
    let num_links: usize = node_range.num_links();
    let mut successors: Vec<Link> = Vec::new();
    while successors.len() < num_links
        invariant
            successors@.len() <= num_links,
            num_links == node_range@.links().len(),
            forall|i: int|
                0 <= i < successors@.len() ==> (#[trigger] successors@[i])@ == successors_after(
                    node_range@,
                )[i],
        decreases num_links - successors@.len(),
    {
        let (idx, id, rotation) = node_range.link(successors.len());
        successors.push(Link::new(id, idx, rotation));
    }
    let node = Node {
        is_start: node_range.node_id.is_start(),
        end: node_range.end(),
        label: node_range.label.clone(),
        successors,
        predecessors: Vec::new(),
        false_nodes: Vec::new(),
        per_part_length: node_range.per_part_length,
        total_length: node_range.total_length,
        method_counts: node_range.method_counts.clone(),
        music,
        required: false,
        lb_distance_from_rounds: distance,
        lb_distance_to_rounds: 0,
    };
    proof {
        assert(node@.successors =~= successors_after(node_range@));
        assert(node@.predecessors =~= Seq::empty());
        assert(node@.false_nodes =~= Seq::empty());
    }
    node
}

impl Expansion {
    /// The ids of the expanded nodes, in the order in which they were expanded.
    pub open spec fn ids(&self) -> Seq<IdView> {
        self.expanded.keys()
    }

    /// The range of each of the expanded nodes.
    pub open spec fn range(&self, i: int) -> NodeRange {
        self.expanded.values()[i].0
    }

    /// The links out of each of the expanded nodes.
    pub open spec fn links(&self) -> Seq<Seq<LinkView>> {
        self.expanded.values().map_values(
            |value: (NodeRange, Distance)| successors_after(value.0@),
        )
    }

    /// The length of each of the expanded nodes in one part.
    pub open spec fn lengths(&self) -> Map<IdView, nat> {
        self.expanded@.map_values(|value: (NodeRange, Distance)| value.0@.per_part_length)
    }

    /// Whether every expanded node has the id by which it is found.
    pub open spec fn has_own_ids(&self) -> bool {
        forall|i: int|
            0 <= i < self.ids().len() ==> (#[trigger] self.range(i))@.node_id == self.ids()[i]
    }

    /// Whether these part heads belong to the expanded nodes: the music of every node can be found in
    /// all parts, and no link between two nodes rotates the parts further than there are parts.
    pub open spec fn fits_part_heads(&self, layout: Layout, part_heads: Seq<Seq<usize>>) -> bool {
        &&& part_heads.len() <= usize::MAX
        &&& rotations_fit(self.ids(), self.links(), part_heads.len() as usize)
        &&& forall|i: int|
            0 <= i < self.ids().len() ==> part_heads_fit(
                #[trigger] self.ids()[i],
                layout,
                part_heads,
            )
    }

    /// Whether the course heads that a table lists for the rows of the expanded nodes have as many
    /// bells as the nodes' own course heads.
    pub open spec fn fits_table(&self, table: FalsenessTable) -> bool {
        forall|id: NodeIdView| #[trigger]
            self.expanded@.dom().contains(IdView::Standard(id)) ==> table.has_stage(
                rows_of(id, self.lengths()[IdView::Standard(id)]),
                id.course_head.len(),
            )
    }

    /// Whether a list holds the id and the length of each of the expanded nodes.
    pub open spec fn lists_lengths(&self, list: Seq<(NodeId, PerPartLength)>) -> bool {
        &&& list.len() == self.ids().len()
        &&& forall|i: int|
            0 <= i < list.len() ==> (#[trigger] list[i]).0@ == self.ids()[i] && list[i].1
                == self.range(i).per_part_length
    }

    /// The id and the length in one part of each of the expanded nodes.
    pub fn node_ids_and_lengths(&self) -> (list: Vec<(NodeId, PerPartLength)>)
        ensures
            self.lists_lengths(list@),
            list@.len() == self.expanded.keys().len(),
            forall|i: int|
                0 <= i < list@.len() ==> (#[trigger] list@[i]).0@ == self.expanded.keys()[i]
                    && list@[i].1 == self.expanded.values()[i].0.per_part_length,
    {
        let len: usize = self.expanded.len();
        let mut list: Vec<(NodeId, PerPartLength)> = Vec::new();
        while list.len() < len
            invariant
                list@.len() <= len,
                len == self.ids().len(),
                len == self.expanded.values().len(),
                forall|i: int|
                    0 <= i < list@.len() ==> (#[trigger] list@[i]).0@ == self.ids()[i] && list@[i].1
                        == self.range(i).per_part_length,
            decreases len - list@.len(),
        {
            let i: usize = list.len();
            list.push(
                (self.expanded.key_at(i).clone(), self.expanded.value_at(i).0.per_part_length),
            );
        }
        list
    }
}

/// A node of a graph that is built from an expansion, given its music.
pub open spec fn complete_node<S>(
    expansion: Expansion,
    i: int,
    table: FalsenessTable,
    equivalences: Map<Seq<usize>, (Row, Rotation)>,
    num_parts: Rotation,
    music: (S, Seq<usize>),
) -> NodeView<S> {
    let range = expansion.range(i)@;
    NodeView {
        false_nodes: false_nodes_of(
            expansion.ids()[i],
            range.per_part_length,
            table,
            equivalences,
            expansion.lengths(),
        ),
        predecessors: links_back(
            expansion.ids(),
            expansion.links(),
            expansion.ids()[i],
            num_parts,
        ),
        ..node_of(range, expansion.expanded.values()[i].1 as nat, music)
    }
}

/// Whether a graph has exactly the nodes of an expansion, each with its music, with the nodes that
/// are false against it, and with a predecessor for every link that leads to it.
pub open spec fn is_graph_of<
    S,
    C: Fn(&Vec<&Row>, &Row) -> Breakdown<S>,
    A: Fn(Breakdown<S>, Breakdown<S>) -> Breakdown<S>,
>(
    graph: Graph<S>,
    layout: Layout,
    expansion: Expansion,
    start_nodes: Seq<(IdView, StartIdx, Rotation)>,
    part_heads: Seq<Seq<usize>>,
    equivalences: Map<Seq<usize>, (Row, Rotation)>,
    table: FalsenessTable,
    scoring: Scoring<S, C, A>,
) -> bool {
    &&& graph@.start_nodes == start_nodes
    &&& graph@.end_nodes == end_views(expansion.end_nodes@)
    &&& graph@.num_parts == part_heads.len()
    &&& graph.nodes.keys() == expansion.ids()
    &&& expansion.ids().no_duplicates()
    &&& graph.nodes.values().len() == expansion.ids().len()
    &&& expansion.expanded.values().len() == expansion.ids().len()
    &&& forall|i: int|
        0 <= i < expansion.ids().len() ==> {
            let node = (#[trigger] graph.nodes.values()[i])@;
            &&& is_music_of(scoring, layout, expansion.range(i)@, part_heads, node.music)
            &&& node == complete_node(
                expansion,
                i,
                table,
                equivalences,
                part_heads.len() as usize,
                node.music,
            )
        }
}

/// Builds the nodes that cover the ranges of an expansion.
fn build_nodes<
    S: Copy,
    C: Fn(&Vec<&Row>, &Row) -> Breakdown<S>,
    A: Fn(Breakdown<S>, Breakdown<S>) -> Breakdown<S>,
>(
    expansion: &Expansion,
    layout: &Layout,
    scoring: &Scoring<S, C, A>,
    part_heads: &Vec<Row>,
) -> (nodes: KeyedMap<NodeId, Node<S>>)
    requires
        expansion.has_own_ids(),
        expansion.fits_part_heads(*layout, row_views(part_heads@)),
        can_score(*scoring),
    ensures
        nodes.keys() == expansion.ids(),
        nodes.keys().no_duplicates(),
        expansion.expanded.values().len() == expansion.ids().len(),
        nodes.values().len() == expansion.ids().len(),
        forall|i: int|
            0 <= i < expansion.ids().len() ==> {
                let node = (#[trigger] nodes.values()[i])@;
                &&& is_music_of(
                    *scoring,
                    *layout,
                    expansion.range(i)@,
                    row_views(part_heads@),
                    node.music,
                )
                &&& node == node_of(
                    expansion.range(i)@,
                    expansion.expanded.values()[i].1 as nat,
                    node.music,
                )
            },
{
    let mut nodes: KeyedMap<NodeId, Node<S>> = KeyedMap::new();
    let len: usize = expansion.expanded.len();
    let mut i: usize = 0;
    while i < len
        invariant
            i <= len,
            len == expansion.ids().len(),
            len == expansion.expanded.values().len(),
            expansion.ids().no_duplicates(),
            expansion.has_own_ids(),
            expansion.fits_part_heads(*layout, row_views(part_heads@)),
            can_score(*scoring),
            nodes.keys() =~= expansion.ids().take(i as int),
            nodes.values().len() == i,
            forall|j: int|
                0 <= j < i ==> {
                    let node = (#[trigger] nodes.values()[j])@;
                    &&& is_music_of(
                        *scoring,
                        *layout,
                        expansion.range(j)@,
                        row_views(part_heads@),
                        node.music,
                    )
                    &&& node == node_of(
                        expansion.range(j)@,
                        expansion.expanded.values()[j].1 as nat,
                        node.music,
                    )
                },
        decreases len - i,
    {
        let id = expansion.expanded.key_at(i).clone();
        let (node_range, distance) = expansion.expanded.value_at(i);
        proof {
            assert(*node_range == expansion.range(i as int));
            assert(part_heads_fit(expansion.ids()[i as int], *layout, row_views(part_heads@)));
        }
        let node = build_node(node_range, *distance, layout, scoring, part_heads);
        assert(!nodes.keys().contains(id@));
        nodes.add(id, node);
        i = i + 1;
    }
    assert(expansion.ids().take(i as int) =~= expansion.ids());
    nodes
}

impl<S: Copy> Graph<S> {
    /// Builds the graph whose nodes cover the ranges of an expansion.
    pub fn from_expansion<
        C: Fn(&Vec<&Row>, &Row) -> Breakdown<S>,
        A: Fn(Breakdown<S>, Breakdown<S>) -> Breakdown<S>,
    >(
        expansion: Expansion,
        layout: &Layout,
        start_nodes: Vec<(NodeId, StartIdx, Rotation)>,
        part_heads: &Vec<Row>,
        equivalences: &CourseHeadEquivalences,
        table: &FalsenessTable,
        scoring: &Scoring<S, C, A>,
    ) -> (graph: Self)
        requires
            expansion.has_own_ids(),
            expansion.fits_part_heads(*layout, row_views(part_heads@)),
            expansion.fits_table(*table),
            can_score(*scoring),
        ensures
            is_graph_of(
                graph,
                *layout,
                expansion,
                start_views(start_nodes@),
                row_views(part_heads@),
                equivalences@,
                *table,
                *scoring,
            ),
    {
        let num_parts: Rotation = part_heads.len();
        let mut nodes = build_nodes(&expansion, layout, scoring, part_heads);
        let ghost built = nodes;
        let ghost ids = expansion.ids();
        let ghost len = ids.len();
        proof {
            lemma_index_of(ids);
            assert(lengths_of(node_views(built@)) =~= expansion.lengths());
            assert forall|id: NodeIdView| #[trigger]
                built@.dom().contains(IdView::Standard(id)) implies table.has_stage(
                rows_of(id, built@[IdView::Standard(id)]@.per_part_length),
                id.course_head.len(),
            ) by {
                assert(expansion.expanded@.dom().contains(IdView::Standard(id)));
            }
        }
        compute_falseness(&mut nodes, table, equivalences);
        let ghost with_falseness = nodes;
        proof {
            assert forall|i: int| 0 <= i < len implies successors_of(
                with_falseness.values(),
            )[i] == #[trigger] expansion.links()[i] by {
                assert(with_falseness.values()[i]@.successors == built.values()[i]@.successors);
            }
            assert(successors_of(with_falseness.values()) =~= expansion.links());
        }
        set_predecessors(&mut nodes, num_parts);
        let Expansion { end_nodes, .. } = expansion;
        proof {
            assert forall|i: int| 0 <= i < len implies {
                let node = (#[trigger] nodes.values()[i])@;
                &&& is_music_of(
                    *scoring,
                    *layout,
                    expansion.range(i)@,
                    row_views(part_heads@),
                    node.music,
                )
                &&& node == complete_node(
                    expansion,
                    i,
                    *table,
                    equivalences@,
                    part_heads@.len() as usize,
                    node.music,
                )
            } by {
                let node = nodes.values()[i]@;
                assert(with_falseness.values()[i]@ == with_false_nodes(
                    ids[i],
                    built.values()[i]@,
                    *table,
                    equivalences@,
                    expansion.lengths(),
                ));
                assert(node.music == built.values()[i]@.music);
                assert(node =~= complete_node(
                    expansion,
                    i,
                    *table,
                    equivalences@,
                    part_heads@.len() as usize,
                    node.music,
                ));
            }
        }
        Graph { nodes, start_nodes, end_nodes, num_parts }
    }
}

/// Whether `finish` and `falseness` can be called once nodes have been expanded, and what they yield
/// belongs to those nodes.
pub open spec fn can_finish<G, B, F>(
    layout: Layout,
    gen_range: G,
    starts: Seq<IdView>,
    max_length: nat,
    finish: B,
    falseness: F,
) -> bool where
    G: Fn(&NodeId) -> Option<NodeRange>,
    B: FnOnce(&Expansion) -> (CourseHeadEquivalences, Vec<Row>),
    F: FnOnce(&Vec<(NodeId, PerPartLength)>) -> FalsenessTable,
 {
    &&& forall|expansion: &Expansion|
        is_expansion_by(gen_range, starts, max_length, *expansion) ==> #[trigger] call_requires(
            finish,
            (expansion,),
        )
    &&& forall|expansion: &Expansion, found: (CourseHeadEquivalences, Vec<Row>)|
        is_expansion_by(gen_range, starts, max_length, *expansion) && #[trigger] call_ensures(
            finish,
            (expansion,),
            found,
        ) ==> expansion.fits_part_heads(layout, row_views(found.1@))
    &&& forall|expansion: &Expansion, list: &Vec<(NodeId, PerPartLength)>|
        is_expansion_by(gen_range, starts, max_length, *expansion)
            && #[trigger] expansion.lists_lengths(list@) ==> call_requires(falseness, (list,))
    &&& forall|
        expansion: &Expansion,
        list: &Vec<(NodeId, PerPartLength)>,
        table: FalsenessTable,
    |
        #![trigger expansion.lists_lengths(list@), call_ensures(falseness, (list,), table)]
        is_expansion_by(gen_range, starts, max_length, *expansion) && expansion.lists_lengths(list@)
            && call_ensures(falseness, (list,), table) ==> expansion.fits_table(table)
}

/// Whether a graph can have been built from an expansion with what `finish` and `falseness` yield
/// for it.
pub open spec fn is_finished_graph<S, B, F, C, A>(
    graph: Graph<S>,
    layout: Layout,
    expansion: Expansion,
    start_nodes: Seq<(IdView, StartIdx, Rotation)>,
    finish: B,
    falseness: F,
    scoring: Scoring<S, C, A>,
) -> bool where
    B: FnOnce(&Expansion) -> (CourseHeadEquivalences, Vec<Row>),
    F: FnOnce(&Vec<(NodeId, PerPartLength)>) -> FalsenessTable,
    C: Fn(&Vec<&Row>, &Row) -> Breakdown<S>,
    A: Fn(Breakdown<S>, Breakdown<S>) -> Breakdown<S>,
 {
    exists|
        found: (CourseHeadEquivalences, Vec<Row>),
        list: Vec<(NodeId, PerPartLength)>,
        table: FalsenessTable,
    |
        #![trigger
            call_ensures(finish, (&expansion,), found),
            call_ensures(falseness, (&list,), table)
        ]
        {
            &&& call_ensures(finish, (&expansion,), found)
            &&& expansion.lists_lengths(list@)
            &&& call_ensures(falseness, (&list,), table)
            &&& is_graph_of(
                graph,
                layout,
                expansion,
                start_nodes,
                row_views(found.1@),
                found.0@,
                table,
                scoring,
            )
        }
}

impl<S: Copy> Graph<S> {
    /// Builds the graph of all nodes that a composition of at most `max_length` rows can get to the
    /// end of.
    ///
    /// The range of a node of the layout is generated by `gen_range`.  Once all nodes have been expanded,
    /// `finish` yields the course heads that stand for those which differ from them by a part
    /// head, and the part heads; `falseness` yields a table of the ranges which share rows; and
    /// `scoring` says how the music of rows in a course is found and added up.
    pub fn from_layout<G, B, F, C, A>(
        layout: &Layout,
        gen_range: G,
        start_nodes: Vec<(NodeId, StartIdx, Rotation)>,
        max_length: usize,
        finish: B,
        falseness: F,
        scoring: &Scoring<S, C, A>,
    ) -> (graph: Self) where
        G: Fn(&NodeId) -> Option<NodeRange>,
        B: FnOnce(&Expansion) -> (CourseHeadEquivalences, Vec<Row>),
        F: FnOnce(&Vec<(NodeId, PerPartLength)>) -> FalsenessTable,
        C: Fn(&Vec<&Row>, &Row) -> Breakdown<S>,
        A: Fn(Breakdown<S>, Breakdown<S>) -> Breakdown<S>,

        requires
            can_expand(gen_range, start_ids(start_nodes@), max_length as nat),
            can_finish(
                *layout,
                gen_range,
                start_ids(start_nodes@),
                max_length as nat,
                finish,
                falseness,
            ),
            can_score(*scoring),
        ensures
            exists|expansion: Expansion| #[trigger]
                is_expansion_by(gen_range, start_ids(start_nodes@), max_length as nat, expansion)
                    && is_finished_graph(
                    graph,
                    *layout,
                    expansion,
                    start_views(start_nodes@),
                    finish,
                    falseness,
                    *scoring,
                ),
    {
        let ghost starts = start_ids(start_nodes@);
        let expansion = build_graph(gen_range, &start_nodes, max_length);
        let (equivalences, part_heads) = finish(&expansion);
        let list = expansion.node_ids_and_lengths();
        let table = falseness(&list);
        proof {
            let (universe, ranges) = choose|
                universe: Set<IdView>,
                ranges: spec_fn(IdView) -> NodeRangeView,
            | #[trigger] generates(gen_range, starts, max_length as nat, universe, ranges);
            assert(is_expansion(
                expansion.expanded@,
                end_views(expansion.end_nodes@),
                ranges,
                starts,
                max_length as nat,
            ));
            lemma_index_of(expansion.ids());
            assert forall|i: int| 0 <= i < expansion.ids().len() implies (
            #[trigger] expansion.range(i))@.node_id == expansion.ids()[i] by {
                assert(expansion.expanded@.dom().contains(expansion.ids()[i]));
            }
            assert(call_ensures(finish, (&expansion,), (equivalences, part_heads)));
            assert(call_ensures(falseness, (&list,), table));
        }
        let ghost expanded = expansion;
        let graph = Graph::from_expansion(
            expansion,
            layout,
            start_nodes,
            &part_heads,
            &equivalences,
            &table,
            scoring,
        );
        assert(is_finished_graph(
            graph,
            *layout,
            expanded,
            start_views(start_nodes@),
            finish,
            falseness,
            *scoring,
        ));
        graph
    }
}

/// A graph that is finished is built from the expansion with all the part heads and the course heads that
/// `finish` yields for it, and with the table that `falseness` yields for a list of the ids and the
/// lengths of all nodes.
pub proof fn law_finished_graph_uses_what_is_found<S, B, F, C, A>(
    graph: Graph<S>,
    layout: Layout,
    expansion: Expansion,
    start_nodes: Seq<(IdView, StartIdx, Rotation)>,
    finish: B,
    falseness: F,
    scoring: Scoring<S, C, A>,
) -> (found: (
    CourseHeadEquivalences,
    Vec<Row>,
    Vec<(NodeId, PerPartLength)>,
    FalsenessTable,
)) where
    B: FnOnce(&Expansion) -> (CourseHeadEquivalences, Vec<Row>),
    F: FnOnce(&Vec<(NodeId, PerPartLength)>) -> FalsenessTable,
    C: Fn(&Vec<&Row>, &Row) -> Breakdown<S>,
    A: Fn(Breakdown<S>, Breakdown<S>) -> Breakdown<S>,

    requires
        is_finished_graph(graph, layout, expansion, start_nodes, finish, falseness, scoring),
    ensures
        ({
            let (equivalences, part_heads, list, table) = found;
            &&& call_ensures(finish, (&expansion,), (equivalences, part_heads))
            &&& call_ensures(falseness, (&list,), table)
            &&& list@.len() == expansion.expanded.keys().len()
            &&& forall|i: int|
                0 <= i < list@.len() ==> (#[trigger] list@[i]).0@ == expansion.expanded.keys()[i]
                    && list@[i].1 == expansion.expanded.values()[i].0.per_part_length
            &&& is_graph_of(
                graph,
                layout,
                expansion,
                start_nodes,
                part_heads@.map_values(|row: Row| row@),
                equivalences@,
                table,
                scoring,
            )
        }),
{
    let (found, list, table) = choose|
        found: (CourseHeadEquivalences, Vec<Row>),
        list: Vec<(NodeId, PerPartLength)>,
        table: FalsenessTable,
    |
        #![trigger
            call_ensures(finish, (&expansion,), found),
            call_ensures(falseness, (&list,), table)
        ]
        {
            &&& call_ensures(finish, (&expansion,), found)
            &&& expansion.lists_lengths(list@)
            &&& call_ensures(falseness, (&list,), table)
            &&& is_graph_of(
                graph,
                layout,
                expansion,
                start_nodes,
                row_views(found.1@),
                found.0@,
                table,
                scoring,
            )
        };
    assert(row_views(found.1@) =~= found.1@.map_values(|row: Row| row@));
    (found.0, found.1, list, table)
}

} // verus!
