//! The graph of a layout whose compositions have a single part.

use vstd::prelude::*;

#[allow(unused_imports)]
use crate::assemble::{
    can_finish, is_finished_graph, is_graph_of, part_course_heads, part_heads_fit, row_views,
    successors_after,
};
use crate::expansion::Expansion;
#[allow(unused_imports)]
use crate::expansion::{
    end_views, generates, is_expansion, is_expansion_by, is_walk, law_expansion_follows_links,
    leads_to, reachable_at, start_ids, walk_length, within_length,
};
#[allow(unused_imports)]
use crate::falseness::rows_of;
use crate::falseness::{CourseHeadEquivalences, FalsenessTable};
#[allow(unused_imports)]
use crate::finite::{has_stage, lemma_ids_finite};
use crate::graph::Graph;
#[allow(unused_imports)]
use crate::graph::start_views;
use crate::keyed::KeyedMap;
#[allow(unused_imports)]
use crate::keyed::lemma_index_of;
use crate::layout::{Layout, LinkIdx};
#[allow(unused_imports)]
use crate::layout::laws::{law_other_segments_go_on, law_segment_finishes_at_end};
#[allow(unused_imports)]
use crate::layout::{lemma_filtered_prefix, NodeIdView, RowRange, SegmentView};
use crate::music::{Breakdown, Scoring};
#[allow(unused_imports)]
use crate::music::can_score;
use crate::node_range::{
    End, NodeId, NodeRange, PerPartLength, RangeEnd, Rotation, RowCounts, StandardNodeId, StartIdx,
    TotalLength,
};
#[allow(unused_imports)]
use crate::node_range::{IdView, NodeRangeView, RangeEndView};
use crate::primitives::Row;
#[allow(unused_imports)]
use crate::primitives::{is_row, law_rounds_is_identity, rounds};
#[allow(unused_imports)]
use crate::soundness::{
    law_built_falseness, law_built_graph_is_valid, law_built_music, law_built_nodes_cover_ranges,
};

verus! {

/// The text of a label, which is empty if there is none.
pub open spec fn label_or_empty(label: Option<Seq<char>>) -> Seq<char> {
    match label {
        Some(label) => label,
        None => Seq::empty(),
    }
}

impl Layout {
    /// The range of rows that a segment covers.
    pub open spec fn range_of_segment(&self, segment: SegmentView) -> NodeRangeView {
        let id = segment.node_id;
        NodeRangeView {
            node_id: IdView::Standard(id),
            range_end: if segment.end_label is Some {
                RangeEndView::End(End::Segment(self.finishing_end(id) as usize))
            } else {
                RangeEndView::NotEnd(
                    segment.links.map_values(
                        |link: (LinkIdx, NodeIdView)| (link.0, IdView::Standard(link.1), 0usize),
                    ),
                )
            },
            per_part_length: segment.length,
            total_length: segment.length,
            method_counts: Seq::new(
                self.blocks@.len(),
                |block: int|
                    if block == id.row_idx.block {
                        segment.length as usize
                    } else {
                        0
                    },
            ),
            label: label_or_empty(segment.start_label) + label_or_empty(segment.end_label),
        }
    }

    /// The range of rows that a node covers.
    pub open spec fn range_of(&self, id: IdView) -> NodeRangeView {
        match id {
            IdView::Standard(id) => self.range_of_segment(self.segment(id)->Some_0),
            IdView::ZeroLengthEnd => NodeRangeView {
                node_id: IdView::ZeroLengthEnd,
                range_end: RangeEndView::End(End::ZeroLength),
                per_part_length: 0,
                total_length: 0,
                method_counts: Seq::new(self.blocks@.len(), |block: int| 0usize),
                label: Seq::empty(),
            },
        }
    }

    /// The ranges of rows that the nodes cover.
    pub open spec fn ranges(&self) -> spec_fn(IdView) -> NodeRangeView {
        |id: IdView| self.range_of(id)
    }

    /// Whether a node has rows that can be looked up and that come to an end.
    pub open spec fn has_range(&self, id: IdView) -> bool {
        id matches IdView::Standard(id) ==> self.can_look_up(id) && self.segment(id) is Some
    }

    /// The nodes at which a composition can start, with the index of each start.
    pub open spec fn start_views(&self) -> Seq<(IdView, StartIdx, Rotation)> {
        Seq::new(
            self.starts@.len(),
            |i: int|
                (
                    IdView::Standard(
                        NodeIdView {
                            course_head: self.starts@[i].course_head@,
                            row_idx: self.starts@[i].row_idx,
                            is_start: true,
                        },
                    ),
                    i as usize,
                    0usize,
                ),
        )
    }

    /// The ids of the nodes at which a composition can start.
    pub open spec fn start_ids(&self) -> Seq<IdView> {
        self.start_views().map_values(|start: (IdView, StartIdx, Rotation)| start.0)
    }

    /// Whether a node has to be considered when a graph is built: it is a start, or a node that a
    /// composition of at most `max_length` rows can get to the end of leads to it.
    pub open spec fn is_considered(&self, max_length: nat, id: IdView) -> bool {
        ||| self.start_ids().contains(id)
        ||| exists|from: IdView| #[trigger]
            within_length(self.ranges(), self.start_ids(), max_length, from) && leads_to(
                self.range_of(from),
                id,
            )
    }

    /// The number of bells in the course head of the first start.
    pub open spec fn num_bells(&self) -> nat {
        if self.starts@.len() == 0 {
            1
        } else {
            self.starts@[0].course_head@.len()
        }
    }

    /// Whether a graph can be built: the starts have one stage, and no node that has to be
    /// considered goes on for ever.
    pub open spec fn can_build(&self, max_length: nat) -> bool {
        &&& forall|i: int|
            0 <= i < self.starts@.len() ==> (#[trigger] self.starts@[i]).course_head@.len()
                == self.num_bells()
        &&& forall|id: IdView| #[trigger]
            self.is_considered(max_length, id) ==> self.has_range(id)
    }

    /// The range of rows that a node covers, if it comes to an end.
    pub fn node_range(&self, id: &NodeId) -> (range: Option<NodeRange>)
        requires
            id@ matches IdView::Standard(id) ==> self.can_look_up(id),
        ensures
            match range {
                Some(range) => self.has_range(id@) && range@ == self.range_of(id@),
                None => !self.has_range(id@),
            },
            range is Some <==> (id@ matches IdView::Standard(id) ==> self.segment(id) is Some),
    {
        match id {
            NodeId::Standard(std_id) => {
                let segment = match self.get_segment(std_id) {
                    Some(segment) => segment,
                    None => {
                        return None;
                    },
                };
                let mut label = String::new();
                if let Some(start_label) = &segment.start_label {
                    label.append(start_label.as_str());
                }
                if let Some(end_label) = &segment.end_label {
                    label.append(end_label.as_str());
                }
                let range_end = match self.find_finishing_end(std_id) {
                    Some((end, _)) => RangeEnd::End(End::Segment(end)),
                    None => {
                        let mut links: Vec<(LinkIdx, NodeId, Rotation)> = Vec::new();
                        while links.len() < segment.links.len()
                            invariant
                                links@.len() <= segment.links@.len(),
                                forall|i: int|
                                    0 <= i < links@.len() ==> (#[trigger] links@[i]).0
                                        == segment@.links[i].0 && links@[i].1@ == IdView::Standard(
                                        segment@.links[i].1,
                                    ) && links@[i].2 == 0,
                            decreases segment.links@.len() - links@.len(),
                        {
                            let (link_idx, id_after) = &segment.links[links.len()];
                            links.push((*link_idx, NodeId::Standard(id_after.clone()), 0));
                        }
                        RangeEnd::NotEnd(links)
                    },
                };
                let mut counts: Vec<usize> = Vec::new();
                while counts.len() < self.blocks.len()
                    invariant
                        counts@.len() <= self.blocks@.len(),
                        forall|block: int|
                            0 <= block < counts@.len() ==> #[trigger] counts@[block] == if block
                                == std_id@.row_idx.block {
                                segment.length
                            } else {
                                0
                            },
                    decreases self.blocks@.len() - counts@.len(),
                {
                    let count: usize = if counts.len() == std_id.row_idx.block {
                        segment.length
                    } else {
                        0
                    };
                    counts.push(count);
                }
                let range = NodeRange {
                    node_id: id.clone(),
                    range_end,
                    per_part_length: PerPartLength(segment.length),
                    total_length: TotalLength(segment.length),
                    method_counts: RowCounts { counts },
                    label,
                };
                proof {
                    let expected = self.range_of_segment(segment@);
                    assert(range@.label =~= expected.label);
                    assert(range@.method_counts =~= expected.method_counts);
                    assert(range@.range_end =~= expected.range_end);
                }
                Some(range)
            },
            NodeId::ZeroLengthEnd => {
                let mut counts: Vec<usize> = Vec::new();
                while counts.len() < self.blocks.len()
                    invariant
                        counts@.len() <= self.blocks@.len(),
                        forall|block: int|
                            0 <= block < counts@.len() ==> #[trigger] counts@[block] == 0,
                    decreases self.blocks@.len() - counts@.len(),
                {
                    counts.push(0);
                }
                let range = NodeRange {
                    node_id: NodeId::ZeroLengthEnd,
                    range_end: RangeEnd::End(End::ZeroLength),
                    per_part_length: PerPartLength(0),
                    total_length: TotalLength(0),
                    method_counts: RowCounts { counts },
                    label: String::new(),
                };
                proof {
                    assert(range@.label =~= Seq::empty());
                    assert(range@.method_counts =~= self.range_of(id@).method_counts);
                }
                Some(range)
            },
        }
    }

    /// The nodes at which a composition can start, with the index of each start.
    pub fn start_nodes(&self) -> (start_nodes: Vec<(NodeId, StartIdx, Rotation)>)
        ensures
            start_views(start_nodes@) == self.start_views(),
            start_ids(start_nodes@) == self.start_ids(),
    {
        let mut start_nodes: Vec<(NodeId, StartIdx, Rotation)> = Vec::new();
        while start_nodes.len() < self.starts.len()
            invariant
                start_nodes@.len() <= self.starts@.len(),
                forall|i: int|
                    0 <= i < start_nodes@.len() ==> #[trigger] start_views(start_nodes@)[i]
                        == self.start_views()[i],
            decreases self.starts@.len() - start_nodes@.len(),
        {
            let i: usize = start_nodes.len();
            let ghost before = start_views(start_nodes@);
            let start = &self.starts[i];
            let id = StandardNodeId::new(start.course_head.clone(), start.row_idx, true);
            start_nodes.push((NodeId::Standard(id), i, 0));
            proof {
                assert forall|j: int| 0 <= j < start_nodes@.len() implies #[trigger] start_views(
                    start_nodes@,
                )[j] == self.start_views()[j] by {
                    if j < i {
                        assert(start_views(start_nodes@)[j] == before[j]);
                    }
                }
            }
        }
        assert(start_views(start_nodes@) =~= self.start_views());
        assert forall|i: int| 0 <= i < start_nodes@.len() implies #[trigger] start_ids(
            start_nodes@,
        )[i] == self.start_ids()[i] by {
            assert(start_views(start_nodes@)[i] == self.start_views()[i]);
        }
        assert(start_ids(start_nodes@) =~= self.start_ids());
        start_nodes
    }
}

/// The links after a segment lead to nodes of the same stage that are no starts, and leave the parts
/// as they are.
proof fn lemma_links_keep_stage(layout: &Layout, id: NodeIdView, k: int)
    requires
        layout.has_range(IdView::Standard(id)),
        0 <= k < layout.range_of(IdView::Standard(id)).links().len(),
    ensures
        layout.range_of(IdView::Standard(id)).links()[k].2 == 0,
        match layout.range_of(IdView::Standard(id)).links()[k].1 {
            IdView::Standard(next) => next.course_head.len() == id.course_head.len()
                && !next.is_start,
            IdView::ZeroLengthEnd => false,
        },
{
    let segment = layout.segment(id)->Some_0;
    assert(segment.end_label is None);
    assert(!layout.comes_round(id));
    let num_links = layout.links@.len();
    assert(num_links == layout.links.len());
    let offered = layout.offered_links(id);
    let link = segment.links[k];
    assert(link == (offered[k], layout.links@[offered[k] as int].after(id.course_head)));
    lemma_filtered_prefix(
        num_links,
        num_links as int,
        |link: usize| layout.is_offered(link as int, id),
    );
    let all = Seq::new(num_links, |i: int| i as usize);
    assert(all.take(num_links as int) =~= all);
    assert(layout.is_offered(offered[k] as int, id));
}

/// A path of at most `max_length` rows leads to a node that has to be considered, and that has the
/// stage of the starts.
proof fn lemma_walk_considered(layout: &Layout, max_length: nat, walk: Seq<IdView>)
    requires
        layout.can_build(max_length),
        is_walk(layout.ranges(), layout.start_ids(), walk),
        walk_length(layout.ranges(), walk) <= max_length,
    ensures
        layout.is_considered(max_length, walk.last()),
        walk.last() is Standard,
        has_stage(walk.last(), layout.num_bells()),
    decreases walk.len(),
{
    let ranges = layout.ranges();
    let starts = layout.start_ids();
    if walk.len() == 1 {
        let i = starts.index_of(walk[0]);
        assert(starts[i] == walk[0]);
        assert(layout.starts@[i].course_head@.len() == layout.num_bells());
    } else {
        let prefix = walk.drop_last();
        let from = prefix.last();
        assert forall|i: int| 0 <= i < prefix.len() - 1 implies leads_to(
            ranges(#[trigger] prefix[i]),
            prefix[i + 1],
        ) by {
            assert(leads_to(ranges(walk[i]), walk[i + 1]));
        }
        assert(is_walk(ranges, starts, prefix));
        lemma_walk_considered(layout, max_length, prefix);
        assert(reachable_at(ranges, starts, from, walk_length(ranges, prefix)));
        assert(within_length(ranges, starts, max_length, from));
        let i = walk.len() - 2;
        assert(leads_to(ranges(walk[i]), walk[i + 1]));
        assert(leads_to(layout.range_of(from), walk.last()));
        let k = choose|k: int|
            0 <= k < layout.range_of(from).links().len() && (
            #[trigger] layout.range_of(from).links()[k]).1 == walk.last();
        lemma_links_keep_stage(layout, from->Standard_0, k);
    }
}

/// A node that has to be considered has the stage of the starts.
proof fn lemma_considered_stage(layout: &Layout, max_length: nat, id: IdView)
    requires
        layout.can_build(max_length),
        layout.is_considered(max_length, id),
    ensures
        id is Standard,
        has_stage(id, layout.num_bells()),
{
    let ranges = layout.ranges();
    let starts = layout.start_ids();
    if starts.contains(id) {
        assert(is_walk(ranges, starts, seq![id]));
        lemma_walk_considered(layout, max_length, seq![id]);
    } else {
        let from = choose|from: IdView| #[trigger]
            within_length(ranges, starts, max_length, from) && leads_to(layout.range_of(from), id);
        lemma_within_length_considered(layout, max_length, from);
        let k = choose|k: int|
            0 <= k < layout.range_of(from).links().len() && (
            #[trigger] layout.range_of(from).links()[k]).1 == id;
        lemma_links_keep_stage(layout, from->Standard_0, k);
    }
}

/// A node that a composition of at most `max_length` rows can get to the end of has to be
/// considered.
proof fn lemma_within_length_considered(layout: &Layout, max_length: nat, id: IdView)
    requires
        layout.can_build(max_length),
        within_length(layout.ranges(), layout.start_ids(), max_length, id),
    ensures
        layout.is_considered(max_length, id),
        id is Standard,
        has_stage(id, layout.num_bells()),
{
    let ranges = layout.ranges();
    let starts = layout.start_ids();
    let distance = choose|distance: nat| #[trigger]
        reachable_at(ranges, starts, id, distance) && distance + ranges(id).total_length
            <= max_length;
    let walk = choose|walk: Seq<IdView>| #[trigger]
        is_walk(ranges, starts, walk) && walk.last() == id && walk_length(ranges, walk) == distance;
    lemma_walk_considered(layout, max_length, walk);
}

/// There are only finitely many nodes that have to be considered.
proof fn lemma_considered_finite(layout: &Layout, max_length: nat)
    requires
        layout.can_build(max_length),
    ensures
        Set::new(|id: IdView| layout.is_considered(max_length, id)).finite(),
{
    let considered = Set::new(|id: IdView| layout.is_considered(max_length, id));
    let of_stage = Set::new(|id: IdView| has_stage(id, layout.num_bells()));
    lemma_ids_finite(layout.num_bells());
    assert forall|id: IdView| considered.contains(id) implies of_stage.contains(id) by {
        lemma_considered_stage(layout, max_length, id);
    }
    vstd::set_lib::lemma_set_subset_finite(of_stage, considered);
}

/// Whether exactly the course heads of the given nodes stand for a course head, each for itself.
pub open spec fn stand_for_themselves(
    equivalences: Map<Seq<usize>, (Row, Rotation)>,
    ids: Seq<IdView>,
) -> bool {
    &&& forall|head: Seq<usize>| #[trigger]
        equivalences.dom().contains(head) <==> exists|i: int|
            0 <= i < ids.len() && has_course_head(#[trigger] ids[i], head)
    &&& forall|head: Seq<usize>| #[trigger]
        equivalences.dom().contains(head) ==> equivalences[head].0@ == head
            && equivalences[head].1 == 0
}

/// Whether a node has a given course head.
pub open spec fn has_course_head(id: IdView, head: Seq<usize>) -> bool {
    id matches IdView::Standard(id) && id.course_head == head
}

/// The course heads of the expanded nodes, each of which stands for itself.
fn own_course_heads(expansion: &Expansion) -> (equivalences: CourseHeadEquivalences)
    ensures
        stand_for_themselves(equivalences@, expansion.ids()),
{
    let mut equivalences: CourseHeadEquivalences = KeyedMap::new();
    let ghost ids = expansion.ids();
    let len: usize = expansion.expanded.len();
    let mut i: usize = 0;
    while i < len
        invariant
            i <= len,
            len == ids.len(),
            ids == expansion.ids(),
            stand_for_themselves(equivalences@, ids.take(i as int)),
        decreases len - i,
    {
        let ghost before = equivalences@;
        let ghost seen = ids.take(i as int);
        let ghost next = ids.take(i + 1);
        if let NodeId::Standard(id) = expansion.expanded.key_at(i) {
            if equivalences.get(&id.course_head).is_none() {
                equivalences.add(id.course_head.clone(), (id.course_head.clone(), 0));
            }
        }
        proof {
            assert forall|head: Seq<usize>| #[trigger]
                equivalences@.dom().contains(head) <==> exists|j: int|
                    0 <= j < next.len() && has_course_head(#[trigger] next[j], head) by {
                if before.dom().contains(head) {
                    let j = choose|j: int|
                        0 <= j < seen.len() && has_course_head(#[trigger] seen[j], head);
                    assert(has_course_head(next[j], head));
                } else if equivalences@.dom().contains(head) {
                    assert(has_course_head(next[i as int], head));
                }
                if exists|j: int| 0 <= j < next.len() && has_course_head(#[trigger] next[j], head) {
                    let j = choose|j: int|
                        0 <= j < next.len() && has_course_head(#[trigger] next[j], head);
                    if j < i {
                        assert(has_course_head(seen[j], head));
                    }
                }
            }
        }
        i = i + 1;
    }
    assert(ids.take(i as int) =~= ids);
    equivalences
}

/// Whether a graph is the one of a layout: it has exactly the nodes that a composition of at most
/// `max_length` rows can get to the end of, and a single part, so that every course stands for
/// itself.
pub open spec fn is_graph_of_layout<S, F, C, A>(
    graph: Graph<S>,
    layout: &Layout,
    max_length: nat,
    falseness: F,
    scoring: Scoring<S, C, A>,
) -> bool where
    F: FnOnce(&Vec<(NodeId, PerPartLength)>) -> FalsenessTable,
    C: Fn(&Vec<&Row>, &Row) -> Breakdown<S>,
    A: Fn(Breakdown<S>, Breakdown<S>) -> Breakdown<S>,
 {
    exists|
        expansion: Expansion,
        equivalences: CourseHeadEquivalences,
        list: Vec<(NodeId, PerPartLength)>,
        table: FalsenessTable,
    |
        #![trigger is_graph_of(
            graph,
            *layout,
            expansion,
            layout.start_views(),
            seq![rounds(layout.num_bells())],
            equivalences@,
            table,
            scoring,
        ), expansion.lists_lengths(list@)]
        {
            &&& is_expansion(
                expansion.expanded@,
                end_views(expansion.end_nodes@),
                layout.ranges(),
                layout.start_ids(),
                max_length,
            )
            &&& stand_for_themselves(equivalences@, expansion.ids())
            &&& expansion.lists_lengths(list@)
            &&& call_ensures(falseness, (&list,), table)
            &&& is_graph_of(
                graph,
                *layout,
                expansion,
                layout.start_views(),
                seq![rounds(layout.num_bells())],
                equivalences@,
                table,
                scoring,
            )
        }
}

impl Layout {
    /// Builds the graph of this layout, of all nodes that a composition of at most `max_length` rows
    /// can get to the end of.
    pub fn to_graph<S: Copy, F, C, A>(
        &self,
        scoring: &Scoring<S, C, A>,
        max_length: usize,
        falseness: F,
    ) -> (graph: Graph<S>) where
        F: FnOnce(&Vec<(NodeId, PerPartLength)>) -> FalsenessTable,
        C: Fn(&Vec<&Row>, &Row) -> Breakdown<S>,
        A: Fn(Breakdown<S>, Breakdown<S>) -> Breakdown<S>,

        requires
            self.can_build(max_length as nat),
            can_score(*scoring),
            forall|list: &Vec<(NodeId, PerPartLength)>| #[trigger]
                call_requires(falseness, (list,)),
            forall|list: &Vec<(NodeId, PerPartLength)>, table: FalsenessTable| #[trigger]
                call_ensures(falseness, (list,), table) ==> table.is_of_stage(self.num_bells()),
        ensures
            is_graph_of_layout(graph, self, max_length as nat, falseness, *scoring),
            graph@.is_valid(),
    {
        let start_nodes = self.start_nodes();
        let num_bells: usize = if self.starts.len() == 0 {
            1
        } else {
            self.starts[0].course_head.bells().len()
        };
        let gen_range = |id: &NodeId| -> (range: Option<NodeRange>)
            requires
                self.has_range(id@),
            ensures
                range matches Some(range) && range@ == self.range_of(id@),
            { self.node_range(id) };
        let finish = |expansion: &Expansion| -> (found: (CourseHeadEquivalences, Vec<Row>))
            ensures
                stand_for_themselves(found.0@, expansion.ids()),
                row_views(found.1@) == seq![rounds(num_bells as nat)],
            {
                let part_heads = vec![Row::rounds(num_bells)];
                assert(row_views(part_heads@) =~= seq![rounds(num_bells as nat)]);
                (own_course_heads(expansion), part_heads)
            };
        let ghost universe = Set::new(|id: IdView| self.is_considered(max_length as nat, id));
        let ghost starts = self.start_ids();
        proof {
            lemma_considered_finite(self, max_length as nat);
            assert forall|i: int| 0 <= i < starts.len() implies universe.contains(
                #[trigger] starts[i],
            ) by {
                assert(starts.contains(starts[i]));
            }
            assert forall|id: IdView, k: int|
                within_length(self.ranges(), starts, max_length as nat, id) && 0 <= k
                    < self.ranges()(id).links().len() implies universe.contains(
                (#[trigger] self.ranges()(id).links()[k]).1,
            ) by {
                assert(leads_to(self.range_of(id), self.ranges()(id).links()[k].1));
            }
            assert(generates(gen_range, starts, max_length as nat, universe, self.ranges()));
            assert forall|expansion: &Expansion, found: (CourseHeadEquivalences, Vec<Row>)|
                is_expansion_by(gen_range, starts, max_length as nat, *expansion)
                    && #[trigger] call_ensures(
                    finish,
                    (expansion,),
                    found,
                ) implies expansion.fits_part_heads(*self, row_views(found.1@)) by {
                lemma_fits_part_heads(self, max_length as nat, *expansion);
            }
            assert forall|
                expansion: &Expansion,
                list: &Vec<(NodeId, PerPartLength)>,
                table: FalsenessTable,
            |
                #![trigger expansion.lists_lengths(list@), call_ensures(falseness, (list,), table)]
                is_expansion_by(gen_range, starts, max_length as nat, *expansion)
                    && expansion.lists_lengths(list@) && call_ensures(
                    falseness,
                    (list,),
                    table,
                ) implies expansion.fits_table(table) by {
                assert forall|id: NodeIdView| #[trigger]
                    expansion.expanded@.dom().contains(IdView::Standard(id)) implies table.has_stage(
                    rows_of(id, expansion.lengths()[IdView::Standard(id)]),
                    id.course_head.len(),
                ) by {
                    lemma_within_length_considered(
                        self,
                        max_length as nat,
                        IdView::Standard(id),
                    );
                }
            }
            assert(can_finish(*self, gen_range, starts, max_length as nat, finish, falseness));
        }
        let graph = Graph::from_layout(
            self,
            gen_range,
            start_nodes,
            max_length,
            finish,
            falseness,
            scoring,
        );
        proof {
            let expansion = choose|expansion: Expansion| #[trigger]
                is_expansion_by(gen_range, starts, max_length as nat, expansion)
                    && is_finished_graph(
                    graph,
                    *self,
                    expansion,
                    start_views(start_nodes@),
                    finish,
                    falseness,
                    *scoring,
                );
            let (found, list, table) = choose|
                found: (CourseHeadEquivalences, Vec<Row>),
                list: Vec<(NodeId, PerPartLength)>,
                table: FalsenessTable,
            |
                #![trigger
                    call_ensures(finish, (&expansion,), found),
                    call_ensures(falseness, (&list,), table)
                ]
                {
                    &&& call_ensures(finish, (&expansion,), found)
                    &&& expansion.lists_lengths(list@)
                    &&& call_ensures(falseness, (&list,), table)
                    &&& is_graph_of(
                        graph,
                        *self,
                        expansion,
                        start_views(start_nodes@),
                        row_views(found.1@),
                        found.0@,
                        table,
                        *scoring,
                    )
                };
            assert(is_graph_of(
                graph,
                *self,
                expansion,
                self.start_views(),
                seq![rounds(self.num_bells())],
                found.0@,
                table,
                *scoring,
            ));
            law_graph_of_layout(graph, self, max_length as nat, falseness, *scoring);
        }
        graph
    }
}

/// With a single part, rounds is the part head of all nodes.
proof fn lemma_fits_part_heads(layout: &Layout, max_length: nat, expansion: Expansion)
    requires
        layout.can_build(max_length),
        expansion.ids().no_duplicates(),
        expansion.expanded.values().len() == expansion.ids().len(),
        is_expansion(
            expansion.expanded@,
            end_views(expansion.end_nodes@),
            layout.ranges(),
            layout.start_ids(),
            max_length,
        ),
    ensures
        expansion.fits_part_heads(*layout, seq![rounds(layout.num_bells())]),
{
    let part_heads = seq![rounds(layout.num_bells())];
    let ids = expansion.ids();
    let links = expansion.links();
    lemma_index_of(ids);
    assert forall|i: int| 0 <= i < ids.len() implies ids[i] is Standard && has_stage(
        #[trigger] ids[i],
        layout.num_bells(),
    ) && layout.has_range(ids[i]) && expansion.range(i)@ == layout.range_of(ids[i]) by {
        assert(expansion.expanded@.dom().contains(ids[i]));
        lemma_within_length_considered(layout, max_length, ids[i]);
    }
    assert forall|i: int| 0 <= i < ids.len() implies part_heads_fit(
        #[trigger] ids[i],
        *layout,
        part_heads,
    ) by {}
    assert forall|i: int, k: int|
        0 <= i < ids.len() && 0 <= k < links[i].len() && ids.contains(
            (#[trigger] links[i][k]).id,
        ) implies links[i][k].rotation < 1 by {
        assert(links[i] == successors_after(expansion.range(i)@));
        lemma_links_keep_stage(layout, ids[i]->Standard_0, k);
    }
}

/// The graph of a layout has exactly the nodes that a composition of at most `max_length` rows can
/// get to the end of.  Its starts can start a composition and have nothing before them, and its ends
/// end a composition and have nothing after them.
pub proof fn law_graph_of_layout<S, F, C, A>(
    graph: Graph<S>,
    layout: &Layout,
    max_length: nat,
    falseness: F,
    scoring: Scoring<S, C, A>,
) where
    F: FnOnce(&Vec<(NodeId, PerPartLength)>) -> FalsenessTable,
    C: Fn(&Vec<&Row>, &Row) -> Breakdown<S>,
    A: Fn(Breakdown<S>, Breakdown<S>) -> Breakdown<S>,

    requires
        layout.can_build(max_length),
        is_graph_of_layout(graph, layout, max_length, falseness, scoring),
    ensures
        forall|id: IdView| #[trigger]
            graph@.nodes.dom().contains(id) <==> within_length(
                layout.ranges(),
                layout.start_ids(),
                max_length,
                id,
            ),
        graph@.start_nodes == layout.start_views(),
        graph@.num_parts == 1,
        graph@.is_valid(),
{
    let part_heads = seq![rounds(layout.num_bells())];
    let (expansion, equivalences, list, table) = choose|
        expansion: Expansion,
        equivalences: CourseHeadEquivalences,
        list: Vec<(NodeId, PerPartLength)>,
        table: FalsenessTable,
    |
        #![trigger is_graph_of(
            graph,
            *layout,
            expansion,
            layout.start_views(),
            part_heads,
            equivalences@,
            table,
            scoring,
        ), expansion.lists_lengths(list@)]
        {
            &&& is_expansion(
                expansion.expanded@,
                end_views(expansion.end_nodes@),
                layout.ranges(),
                layout.start_ids(),
                max_length,
            )
            &&& stand_for_themselves(equivalences@, expansion.ids())
            &&& expansion.lists_lengths(list@)
            &&& call_ensures(falseness, (&list,), table)
            &&& is_graph_of(
                graph,
                *layout,
                expansion,
                layout.start_views(),
                part_heads,
                equivalences@,
                table,
                scoring,
            )
        };
    let ids = expansion.ids();
    let links = expansion.links();
    lemma_index_of(ids);
    assert forall|id: IdView| #[trigger]
        graph@.nodes.dom().contains(id) <==> expansion.expanded@.dom().contains(id) by {}
    assert forall|i: int| 0 <= i < ids.len() implies (#[trigger] expansion.range(i))@.node_id
        == ids[i] by {
        assert(expansion.expanded@.dom().contains(ids[i]));
    }
    assert forall|i: int, k: int|
        0 <= i < ids.len() && 0 <= k < links[i].len() implies !(
    #[trigger] links[i][k]).id.is_start() by {
        assert(expansion.expanded@.dom().contains(ids[i]));
        lemma_within_length_considered(layout, max_length, ids[i]);
        assert(links[i] == successors_after(expansion.range(i)@));
        lemma_links_keep_stage(layout, ids[i]->Standard_0, k);
    }
    law_built_graph_is_valid(
        graph,
        *layout,
        expansion,
        layout.start_views(),
        part_heads,
        equivalences@,
        table,
        scoring,
    );
}

/// If there is a single part, then the course of a node is the only one that its music comes from.
pub proof fn law_single_part_has_own_course(id: NodeIdView)
    requires
        is_row(id.course_head),
        id.course_head.len() <= usize::MAX,
    ensures
        part_course_heads(IdView::Standard(id), seq![rounds(id.course_head.len())])
            == seq![id.course_head],
{
    law_rounds_is_identity(id.course_head);
    assert(part_course_heads(IdView::Standard(id), seq![rounds(id.course_head.len())])
        =~= seq![id.course_head]);
}

/// The range of a node has the segment's rows, all of them in the segment's block, and its label is that
/// of the start followed by that of the end.  If the composition ends with the segment, then the range
/// ends with the first listed of the ends in the segment's course and block that are at the row after it,
/// and this is that end.  Otherwise the range goes on over the segment's links, which leave the parts as
/// they are.
pub proof fn law_range_covers_segment(layout: &Layout, id: NodeIdView) -> (end: int)
    requires
        layout.can_look_up(id),
        layout.segment(id) is Some,
    ensures
        ({
            let range = layout.range_of(IdView::Standard(id));
            let segment = layout.segment(id)->Some_0;
            let len = layout.blocks@[id.row_idx.block as int].rows@.len() as int;
            &&& range.node_id == IdView::Standard(id)
            &&& range.per_part_length == segment.length
            &&& range.total_length == segment.length
            &&& range.method_counts.len() == layout.blocks@.len()
            &&& range.method_counts[id.row_idx.block as int] == segment.length
            &&& forall|block: int|
                0 <= block < layout.blocks@.len() && block != id.row_idx.block
                    ==> #[trigger] range.method_counts[block] == 0
            &&& range.label == match (segment.start_label, segment.end_label) {
                (Some(front), Some(back)) => front + back,
                (Some(front), None) => front,
                (None, Some(back)) => back,
                (None, None) => Seq::empty(),
            }
            &&& match segment.end_label {
                Some(label) => {
                    &&& range.range_end == RangeEndView::End(End::Segment(end as usize))
                    &&& 0 <= end < layout.ends@.len()
                    &&& layout.ends@[end].label@ == label
                    &&& layout.ends@[end].course_head@ == id.course_head
                    &&& layout.ends@[end].row_idx.block == id.row_idx.block
                    &&& layout.ends@[end].row_idx.row as int % len == (id.row_idx.row
                        + segment.length) % len
                    &&& forall|other: int|
                        0 <= other < end && (#[trigger] layout.ends@[other]).course_head@
                            == id.course_head && layout.ends@[other].row_idx.block
                            == id.row_idx.block ==> layout.ends@[other].row_idx.row as int % len
                            != (id.row_idx.row + segment.length) % len
                },
                None => range.range_end matches RangeEndView::NotEnd(links) && {
                    &&& links.len() == segment.links.len()
                    &&& forall|k: int|
                        0 <= k < links.len() ==> #[trigger] links[k] == (
                            segment.links[k].0,
                            IdView::Standard(segment.links[k].1),
                            0usize,
                        )
                },
            }
        }),
{
    let segment = layout.segment(id)->Some_0;
    let range = layout.range_of(IdView::Standard(id));
    let len = layout.blocks@[id.row_idx.block as int].rows@.len();
    assert(layout.blocks@[id.row_idx.block as int].rows.len() == len);
    if let (Some(front), None) = (segment.start_label, segment.end_label) {
        assert(range.label =~= front);
    }
    if let (None, Some(back)) = (segment.start_label, segment.end_label) {
        assert(range.label =~= back);
    }
    assert(segment.start_label is None && segment.end_label is None ==> range.label
        =~= Seq::empty());
    if segment.end_label is Some {
        law_segment_finishes_at_end(layout, id)
    } else {
        law_other_segments_go_on(layout, id);
        0
    }
}

/// The end without rows has no rows of any method and no label, and it ends the composition.
pub proof fn law_zero_length_end_has_no_rows(layout: &Layout)
    ensures
        ({
            let range = layout.range_of(IdView::ZeroLengthEnd);
            &&& range.node_id == IdView::ZeroLengthEnd
            &&& range.range_end == RangeEndView::End(End::ZeroLength)
            &&& range.per_part_length == 0
            &&& range.total_length == 0
            &&& range.method_counts.len() == layout.blocks@.len()
            &&& forall|block: int|
                0 <= block < layout.blocks@.len() ==> #[trigger] range.method_counts[block] == 0
            &&& range.label.len() == 0
        }),
{
}

/// A composition can start at each of the layout's starts, in their order and with unrotated parts.
pub proof fn law_starts_are_those_of_layout(layout: &Layout)
    ensures
        layout.start_views().len() == layout.starts@.len(),
        forall|i: int|
            0 <= i < layout.starts@.len() ==> {
                let (id, idx, rotation) = #[trigger] layout.start_views()[i];
                &&& id == IdView::Standard(
                    NodeIdView {
                        course_head: layout.starts@[i].course_head@,
                        row_idx: layout.starts@[i].row_idx,
                        is_start: true,
                    },
                )
                &&& idx == i
                &&& rotation == 0
            },
        layout.start_ids().len() == layout.starts@.len(),
        forall|i: int|
            0 <= i < layout.starts@.len() ==> #[trigger] layout.start_ids()[i]
                == layout.start_views()[i].0,
{
    assert(layout.starts@.len() == layout.starts.len());
}

/// In the graph of a layout, every node covers its segment: it has the segment's rows in the only part,
/// it ends a composition exactly if the segment does, and it has a successor for each of the segment's
/// links, over the same link, to the same node and without a rotation.
pub proof fn law_layout_nodes_cover_segments<S, F, C, A>(
    graph: Graph<S>,
    layout: &Layout,
    max_length: nat,
    falseness: F,
    scoring: Scoring<S, C, A>,
    id: NodeIdView,
) where
    F: FnOnce(&Vec<(NodeId, PerPartLength)>) -> FalsenessTable,
    C: Fn(&Vec<&Row>, &Row) -> Breakdown<S>,
    A: Fn(Breakdown<S>, Breakdown<S>) -> Breakdown<S>,

    requires
        layout.can_build(max_length),
        is_graph_of_layout(graph, layout, max_length, falseness, scoring),
        graph@.nodes.dom().contains(IdView::Standard(id)),
    ensures
        layout.segment(id) is Some,
        ({
            let node = graph@.nodes[IdView::Standard(id)];
            let segment = layout.segment(id)->Some_0;
            &&& node.is_start == id.is_start
            &&& node.per_part_length == segment.length
            &&& node.total_length == segment.length
            &&& node.end is Some <==> segment.end_label is Some
            &&& node.successors.len() == segment.links.len()
            &&& forall|k: int|
                0 <= k < node.successors.len() ==> {
                    &&& (#[trigger] node.successors[k]).source_idx == segment.links[k].0
                    &&& node.successors[k].id == IdView::Standard(segment.links[k].1)
                    &&& node.successors[k].rotation == 0
                }
            &&& node.label == layout.range_of(IdView::Standard(id)).label
            &&& node.method_counts == layout.range_of(IdView::Standard(id)).method_counts
            &&& node.end == layout.range_of(IdView::Standard(id)).end()
        }),
{
    let part_heads = seq![rounds(layout.num_bells())];
    let (expansion, equivalences, list, table) = choose|
        expansion: Expansion,
        equivalences: CourseHeadEquivalences,
        list: Vec<(NodeId, PerPartLength)>,
        table: FalsenessTable,
    |
        #![trigger is_graph_of(
            graph,
            *layout,
            expansion,
            layout.start_views(),
            part_heads,
            equivalences@,
            table,
            scoring,
        ), expansion.lists_lengths(list@)]
        {
            &&& is_expansion(
                expansion.expanded@,
                end_views(expansion.end_nodes@),
                layout.ranges(),
                layout.start_ids(),
                max_length,
            )
            &&& stand_for_themselves(equivalences@, expansion.ids())
            &&& expansion.lists_lengths(list@)
            &&& call_ensures(falseness, (&list,), table)
            &&& is_graph_of(
                graph,
                *layout,
                expansion,
                layout.start_views(),
                part_heads,
                equivalences@,
                table,
                scoring,
            )
        };
    law_built_nodes_cover_ranges(
        graph,
        *layout,
        expansion,
        layout.start_views(),
        part_heads,
        equivalences@,
        table,
        scoring,
        IdView::Standard(id),
    );
    lemma_within_length_considered(layout, max_length, IdView::Standard(id));
    let end = law_range_covers_segment(layout, id);
    let range = expansion.expanded@[IdView::Standard(id)].0;
    assert(range@ == layout.range_of(IdView::Standard(id)));
    let segment = layout.segment(id)->Some_0;
    if segment.end_label is Some {
        let at_end = law_segment_finishes_at_end(layout, id);
    } else {
        assert(range.range_end is NotEnd);
        let links = range.range_end->NotEnd_0@;
        assert forall|k: int| 0 <= k < links.len() implies (#[trigger] links[k]).0
            == segment.links[k].0 && links[k].1@ == IdView::Standard(segment.links[k].1)
            && links[k].2 == 0 by {
            assert(range@.range_end->NotEnd_0[k] == (links[k].0, links[k].1@, links[k].2));
        }
    }
}

/// In the graph of a layout, which nodes there are and how far they are away follows from the layout's
/// starts and the links: a start that is not too long is a node, with nothing before it; the node that a
/// successor leads to is in the graph if its last row is not too far away, and is no further away than
/// along that link; and every node that is not such a start is just as far away as along one of these
/// links.  No node's last row is too far away.
#[verifier::rlimit(40)]
pub proof fn law_layout_graph_follows_links<S, F, C, A>(
    graph: Graph<S>,
    layout: &Layout,
    max_length: nat,
    falseness: F,
    scoring: Scoring<S, C, A>,
) where
    F: FnOnce(&Vec<(NodeId, PerPartLength)>) -> FalsenessTable,
    C: Fn(&Vec<&Row>, &Row) -> Breakdown<S>,
    A: Fn(Breakdown<S>, Breakdown<S>) -> Breakdown<S>,

    requires
        layout.can_build(max_length),
        is_graph_of_layout(graph, layout, max_length, falseness, scoring),
    ensures
        forall|i: int|
            #![trigger layout.starts@[i]]
            0 <= i < layout.starts@.len() ==> {
                let id = NodeIdView {
                    course_head: layout.starts@[i].course_head@,
                    row_idx: layout.starts@[i].row_idx,
                    is_start: true,
                };
                &&& layout.segment(id) is Some
                &&& layout.segment(id)->Some_0.length <= max_length
                    ==> graph@.nodes.dom().contains(IdView::Standard(id))
                    && graph@.nodes[IdView::Standard(id)].lb_distance_from_rounds == 0
            },
        forall|from: IdView, k: int|
            #![trigger graph@.nodes[from].successors[k]]
            graph@.nodes.dom().contains(from) && 0 <= k < graph@.nodes[from].successors.len() ==> {
                let node = graph@.nodes[from];
                let next = node.successors[k].id;
                let distance = node.lb_distance_from_rounds + node.total_length;
                &&& next matches IdView::Standard(next) && layout.segment(next) is Some && (distance
                    + layout.segment(next)->Some_0.length <= max_length
                    ==> graph@.nodes.dom().contains(IdView::Standard(next))
                    && graph@.nodes[IdView::Standard(next)].lb_distance_from_rounds <= distance)
            },
        forall|id: IdView| #[trigger]
            graph@.nodes.dom().contains(id) ==> {
                let node = graph@.nodes[id];
                &&& node.lb_distance_from_rounds + node.total_length <= max_length
                &&& {
                    ||| node.lb_distance_from_rounds == 0 && exists|i: int|
                        0 <= i < layout.starts@.len() && id == IdView::Standard(
                            NodeIdView {
                                course_head: (#[trigger] layout.starts@[i]).course_head@,
                                row_idx: layout.starts@[i].row_idx,
                                is_start: true,
                            },
                        )
                    ||| exists|from: IdView, k: int|
                        {
                            &&& graph@.nodes.dom().contains(from)
                            &&& 0 <= k < graph@.nodes[from].successors.len()
                            &&& (#[trigger] graph@.nodes[from].successors[k]).id == id
                            &&& node.lb_distance_from_rounds
                                == graph@.nodes[from].lb_distance_from_rounds
                                + graph@.nodes[from].total_length
                        }
                }
            },
{
    let part_heads = seq![rounds(layout.num_bells())];
    let (expansion, equivalences, list, table) = choose|
        expansion: Expansion,
        equivalences: CourseHeadEquivalences,
        list: Vec<(NodeId, PerPartLength)>,
        table: FalsenessTable,
    |
        #![trigger is_graph_of(
            graph,
            *layout,
            expansion,
            layout.start_views(),
            part_heads,
            equivalences@,
            table,
            scoring,
        ), expansion.lists_lengths(list@)]
        {
            &&& is_expansion(
                expansion.expanded@,
                end_views(expansion.end_nodes@),
                layout.ranges(),
                layout.start_ids(),
                max_length,
            )
            &&& stand_for_themselves(equivalences@, expansion.ids())
            &&& expansion.lists_lengths(list@)
            &&& call_ensures(falseness, (&list,), table)
            &&& is_graph_of(
                graph,
                *layout,
                expansion,
                layout.start_views(),
                part_heads,
                equivalences@,
                table,
                scoring,
            )
        };
    let expanded = expansion.expanded@;
    let ranges = layout.ranges();
    let starts = layout.start_ids();
    law_starts_are_those_of_layout(layout);
    law_expansion_follows_links(
        expanded,
        end_views(expansion.end_nodes@),
        ranges,
        starts,
        max_length,
    );
    assert forall|id: IdView|
        #![trigger graph@.nodes.dom().contains(id)]
        #![trigger expanded.dom().contains(id)]
        {
            &&& graph@.nodes.dom().contains(id) <==> expanded.dom().contains(id)
            &&& expanded.dom().contains(id) ==> {
                let node = graph@.nodes[id];
                &&& id is Standard
                &&& layout.has_range(id)
                &&& node.lb_distance_from_rounds == expanded[id].1
                &&& node.total_length == ranges(id).total_length
                &&& node.successors == successors_after(ranges(id))
            }
        } by {
        law_built_nodes_cover_ranges(
            graph,
            *layout,
            expansion,
            layout.start_views(),
            part_heads,
            equivalences@,
            table,
            scoring,
            id,
        );
        if expanded.dom().contains(id) {
            lemma_within_length_considered(layout, max_length, id);
            lemma_index_of(expansion.ids());
            let i = expansion.ids().index_of(id);
            assert(graph.nodes.values()[i]@ == graph@.nodes[id]);
        }
    }
    assert forall|i: int|
        #![trigger layout.starts@[i]]
        0 <= i < layout.starts@.len() implies {
        let id = NodeIdView {
            course_head: layout.starts@[i].course_head@,
            row_idx: layout.starts@[i].row_idx,
            is_start: true,
        };
        &&& layout.segment(id) is Some
        &&& layout.segment(id)->Some_0.length <= max_length ==> graph@.nodes.dom().contains(
            IdView::Standard(id),
        ) && graph@.nodes[IdView::Standard(id)].lb_distance_from_rounds == 0
    } by {
        let id = starts[i];
        assert(id == layout.start_views()[i].0);
        assert(starts.contains(id));
        assert(layout.is_considered(max_length, id));
        assert(layout.has_range(id));
        assert(expanded.dom().contains(id) <==> graph@.nodes.dom().contains(id));
    }
    assert forall|from: IdView, k: int|
        #![trigger graph@.nodes[from].successors[k]]
        graph@.nodes.dom().contains(from) && 0 <= k < graph@.nodes[from].successors.len() implies {
        let node = graph@.nodes[from];
        let next = node.successors[k].id;
        let distance = node.lb_distance_from_rounds + node.total_length;
        &&& next matches IdView::Standard(next) && layout.segment(next) is Some && (distance
            + layout.segment(next)->Some_0.length <= max_length ==> graph@.nodes.dom().contains(
            IdView::Standard(next),
        ) && graph@.nodes[IdView::Standard(next)].lb_distance_from_rounds <= distance)
    } by {
        assert(expanded.dom().contains(from));
        let links = ranges(from).links();
        let next = links[k].1;
        assert(ranges(from).range_end == RangeEndView::NotEnd(links));
        lemma_links_keep_stage(layout, from->Standard_0, k);
        assert(leads_to(layout.range_of(from), next));
        assert(within_length(ranges, starts, max_length, from));
        assert(layout.is_considered(max_length, next));
        assert(layout.has_range(next));
        assert(expanded.dom().contains(next) <==> graph@.nodes.dom().contains(next));
    }
    assert forall|id: IdView| #[trigger] graph@.nodes.dom().contains(id) implies {
        let node = graph@.nodes[id];
        &&& node.lb_distance_from_rounds + node.total_length <= max_length
        &&& {
            ||| node.lb_distance_from_rounds == 0 && exists|i: int|
                0 <= i < layout.starts@.len() && id == IdView::Standard(
                    NodeIdView {
                        course_head: (#[trigger] layout.starts@[i]).course_head@,
                        row_idx: layout.starts@[i].row_idx,
                        is_start: true,
                    },
                )
            ||| exists|from: IdView, k: int|
                {
                    &&& graph@.nodes.dom().contains(from)
                    &&& 0 <= k < graph@.nodes[from].successors.len()
                    &&& (#[trigger] graph@.nodes[from].successors[k]).id == id
                    &&& node.lb_distance_from_rounds
                        == graph@.nodes[from].lb_distance_from_rounds
                        + graph@.nodes[from].total_length
                }
        }
    } by {
        assert(expanded.dom().contains(id));
        if starts.contains(id) && expanded[id].1 == 0 {
            let i = starts.index_of(id);
            let start = layout.starts@[i];
            assert(starts[i] == layout.start_views()[i].0);
        } else {
            let (from, links, k) = choose|
                from: IdView,
                links: Seq<(LinkIdx, IdView, Rotation)>,
                k: int,
            |
                {
                    &&& #[trigger] expanded.dom().contains(from)
                    &&& ranges(from).range_end == RangeEndView::NotEnd(links)
                    &&& 0 <= k < links.len()
                    &&& (#[trigger] links[k]).1 == id
                    &&& expanded[id].1 == expanded[from].1 + ranges(from).total_length
                };
            assert(graph@.nodes[from].successors[k].id == id);
        }
    }
}

/// In the graph of a layout, where there is a single part, one node is false against another if and only
/// if the table lists, for the rows of the other, a range which begins at the first row of the one, is as
/// long as it and whose course head permutes the course head of the other to that of the one.  The table
/// is the one that `falseness` yields for a list of all nodes and their lengths.
#[verifier::rlimit(40)]
pub proof fn law_layout_falseness<S, F, C, A>(
    graph: Graph<S>,
    layout: &Layout,
    max_length: nat,
    falseness: F,
    scoring: Scoring<S, C, A>,
) -> (found: (Vec<(NodeId, PerPartLength)>, FalsenessTable)) where
    F: FnOnce(&Vec<(NodeId, PerPartLength)>) -> FalsenessTable,
    C: Fn(&Vec<&Row>, &Row) -> Breakdown<S>,
    A: Fn(Breakdown<S>, Breakdown<S>) -> Breakdown<S>,

    requires
        layout.can_build(max_length),
        is_graph_of_layout(graph, layout, max_length, falseness, scoring),
    ensures
        call_ensures(falseness, (&found.0,), found.1),
        forall|i: int|
            0 <= i < found.0@.len() ==> graph@.nodes.dom().contains((#[trigger] found.0@[i]).0@)
                && graph@.nodes[found.0@[i].0@].per_part_length == found.0@[i].1.0,
        forall|id: IdView| #[trigger]
            graph@.nodes.dom().contains(id) ==> exists|i: int|
                0 <= i < found.0@.len() && (#[trigger] found.0@[i]).0@ == id,
        forall|id: NodeIdView, other: NodeIdView|
            #![trigger graph@.nodes[IdView::Standard(id)].false_nodes.contains(other)]
            graph@.nodes.dom().contains(IdView::Standard(id)) ==> {
                let listed = found.1.falseness@;
                let rows = RowRange {
                    start: id.row_idx,
                    length: graph@.nodes[IdView::Standard(id)].per_part_length as usize,
                };
                graph@.nodes[IdView::Standard(id)].false_nodes.contains(other) <==> {
                    &&& graph@.nodes.dom().contains(IdView::Standard(other))
                    &&& listed.dom().contains(rows)
                    &&& exists|k: int|
                        0 <= k < listed[rows]@.len() && {
                            let (range, transposition) = #[trigger] listed[rows]@[k];
                            &&& range.start == other.row_idx
                            &&& range.length
                                == graph@.nodes[IdView::Standard(other)].per_part_length
                            &&& other.course_head == Seq::new(
                                transposition@.len(),
                                |place: int| id.course_head[transposition@[place] as int],
                            )
                        }
                }
            },
{
    let part_heads = seq![rounds(layout.num_bells())];
    let (expansion, equivalences, list, table) = choose|
        expansion: Expansion,
        equivalences: CourseHeadEquivalences,
        list: Vec<(NodeId, PerPartLength)>,
        table: FalsenessTable,
    |
        #![trigger is_graph_of(
            graph,
            *layout,
            expansion,
            layout.start_views(),
            part_heads,
            equivalences@,
            table,
            scoring,
        ), expansion.lists_lengths(list@)]
        {
            &&& is_expansion(
                expansion.expanded@,
                end_views(expansion.end_nodes@),
                layout.ranges(),
                layout.start_ids(),
                max_length,
            )
            &&& stand_for_themselves(equivalences@, expansion.ids())
            &&& expansion.lists_lengths(list@)
            &&& call_ensures(falseness, (&list,), table)
            &&& is_graph_of(
                graph,
                *layout,
                expansion,
                layout.start_views(),
                part_heads,
                equivalences@,
                table,
                scoring,
            )
        };
    let ids = expansion.ids();
    lemma_index_of(ids);
    assert forall|id: IdView|
        #![trigger graph@.nodes.dom().contains(id)]
        {
            &&& graph@.nodes.dom().contains(id) <==> expansion.expanded@.dom().contains(id)
            &&& graph@.nodes.dom().contains(id) ==> graph@.nodes[id].per_part_length
                == expansion.expanded@[id].0.per_part_length.0
        } by {
        law_built_nodes_cover_ranges(
            graph,
            *layout,
            expansion,
            layout.start_views(),
            part_heads,
            equivalences@,
            table,
            scoring,
            id,
        );
    }
    assert forall|id: IdView| #[trigger] graph@.nodes.dom().contains(id) implies exists|i: int|
        0 <= i < list@.len() && (#[trigger] list@[i]).0@ == id by {
        let i = ids.index_of(id);
        assert(list@[i].0@ == ids[i]);
    }
    assert forall|i: int| 0 <= i < list@.len() implies graph@.nodes.dom().contains(
        (#[trigger] list@[i]).0@,
    ) && graph@.nodes[list@[i].0@].per_part_length == list@[i].1.0 by {
        assert(ids.contains(ids[i]));
        assert(expansion.expanded@[ids[i]].0 == expansion.range(i));
    }
    assert forall|id: NodeIdView, other: NodeIdView|
        #![trigger graph@.nodes[IdView::Standard(id)].false_nodes.contains(other)]
        graph@.nodes.dom().contains(IdView::Standard(id)) implies {
        let listed = table.falseness@;
        let rows = RowRange {
            start: id.row_idx,
            length: graph@.nodes[IdView::Standard(id)].per_part_length as usize,
        };
        graph@.nodes[IdView::Standard(id)].false_nodes.contains(other) <==> {
            &&& graph@.nodes.dom().contains(IdView::Standard(other))
            &&& listed.dom().contains(rows)
            &&& exists|k: int|
                0 <= k < listed[rows]@.len() && {
                    let (range, transposition) = #[trigger] listed[rows]@[k];
                    &&& range.start == other.row_idx
                    &&& range.length == graph@.nodes[IdView::Standard(other)].per_part_length
                    &&& other.course_head == Seq::new(
                        transposition@.len(),
                        |place: int| id.course_head[transposition@[place] as int],
                    )
                }
        }
    } by {
        law_built_falseness(
            graph,
            *layout,
            expansion,
            layout.start_views(),
            part_heads,
            equivalences@,
            table,
            scoring,
            id,
            other,
        );
        if graph@.nodes.dom().contains(IdView::Standard(other)) {
            let j = ids.index_of(IdView::Standard(other));
            assert(has_course_head(ids[j], other.course_head));
            assert(equivalences@.dom().contains(other.course_head));
        }
    }
    (list, table)
}

/// In the graph of a layout, where there is a single part, the music of a node is that of no rows with
/// what `scoring` finds in the rows of the node's segment, in the node's own course, added to it.  These
/// are the rows and the course head that are handed to `scoring`, and what it finds.
pub proof fn law_layout_music<S, F, C, A>(
    graph: Graph<S>,
    layout: &Layout,
    max_length: nat,
    falseness: F,
    scoring: Scoring<S, C, A>,
    id: NodeIdView,
) -> (found: (Vec<&'static Row>, Row, Breakdown<S>, Breakdown<S>, Breakdown<S>)) where
    F: FnOnce(&Vec<(NodeId, PerPartLength)>) -> FalsenessTable,
    C: Fn(&Vec<&Row>, &Row) -> Breakdown<S>,
    A: Fn(Breakdown<S>, Breakdown<S>) -> Breakdown<S>,

    requires
        layout.can_build(max_length),
        is_graph_of_layout(graph, layout, max_length, falseness, scoring),
        graph@.nodes.dom().contains(IdView::Standard(id)),
        is_row(id.course_head),
        id.course_head.len() <= usize::MAX,
    ensures
        ({
            let (rows, course_head, zero, music, sum) = found;
            let block = layout.blocks@[id.row_idx.block as int].rows@;
            &&& call_ensures(scoring.in_course, (&rows, &course_head), music)
            &&& call_ensures(scoring.sum, (zero, music), sum)
            &&& zero@ == scoring.zero@
            &&& sum@ == graph@.nodes[IdView::Standard(id)].music
            &&& course_head@ == id.course_head
            &&& block.len() > 0 ==> {
                &&& rows@.len() == layout.segment(id)->Some_0.length
                &&& forall|k: int|
                    0 <= k < rows@.len() ==> (#[trigger] rows@[k])@ == block[(id.row_idx.row + k) % (
                    block.len() as int)]@
            }
        }),
{
    let part_heads = seq![rounds(layout.num_bells())];
    let (expansion, equivalences, list, table) = choose|
        expansion: Expansion,
        equivalences: CourseHeadEquivalences,
        list: Vec<(NodeId, PerPartLength)>,
        table: FalsenessTable,
    |
        #![trigger is_graph_of(
            graph,
            *layout,
            expansion,
            layout.start_views(),
            part_heads,
            equivalences@,
            table,
            scoring,
        ), expansion.lists_lengths(list@)]
        {
            &&& is_expansion(
                expansion.expanded@,
                end_views(expansion.end_nodes@),
                layout.ranges(),
                layout.start_ids(),
                max_length,
            )
            &&& stand_for_themselves(equivalences@, expansion.ids())
            &&& expansion.lists_lengths(list@)
            &&& call_ensures(falseness, (&list,), table)
            &&& is_graph_of(
                graph,
                *layout,
                expansion,
                layout.start_views(),
                part_heads,
                equivalences@,
                table,
                scoring,
            )
        };
    lemma_index_of(expansion.ids());
    assert forall|i: int| 0 <= i < expansion.ids().len() implies (
    #[trigger] expansion.range(i))@.node_id == expansion.ids()[i] by {
        assert(expansion.expanded@.dom().contains(expansion.ids()[i]));
    }
    law_layout_nodes_cover_segments(graph, layout, max_length, falseness, scoring, id);
    law_built_nodes_cover_ranges(
        graph,
        *layout,
        expansion,
        layout.start_views(),
        part_heads,
        equivalences@,
        table,
        scoring,
        IdView::Standard(id),
    );
    lemma_within_length_considered(layout, max_length, IdView::Standard(id));
    let (handed, course_heads, sums) = law_built_music(
        graph,
        *layout,
        expansion,
        layout.start_views(),
        part_heads,
        equivalences@,
        table,
        scoring,
        id,
    );
    let course_head = course_heads[0];
    assert(course_head@ =~= id.course_head) by {
        assert forall|place: int| 0 <= place < id.course_head.len() implies course_head@[place]
            == #[trigger] id.course_head[place] by {
            assert(course_heads[0]@[place] == part_heads[0][id.course_head[place] as int]);
        }
    }
    let music = choose|music: Breakdown<S>|
        {
            &&& #[trigger] call_ensures(scoring.in_course, (&handed[0], &course_heads[0]), music)
            &&& call_ensures(scoring.sum, (sums[0], music), sums[0int + 1])
        };
    (handed[0], course_head, sums[0], music, sums[1])
}

} // verus!
