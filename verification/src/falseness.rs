//! Which nodes of a graph share rows.

use vstd::prelude::*;

use crate::graph::Node;
#[allow(unused_imports)]
use crate::graph::{node_views, NodeView};
use crate::hashing::{hash_seq, mix};
#[allow(unused_imports)]
use crate::hashing::{hash_of_seq, mixed};
use crate::keyed::{Key, KeyedMap};
#[allow(unused_imports)]
use crate::keyed::{lemma_index_of, map_of};
use crate::layout::RowRange;
#[allow(unused_imports)]
use crate::layout::NodeIdView;
use crate::node_range::{NodeId, Rotation, StandardNodeId};
#[allow(unused_imports)]
use crate::node_range::IdView;
use crate::primitives::Row;
#[allow(unused_imports)]
use crate::select::lemma_contains_concat;
#[allow(unused_imports)]
use crate::primitives::{is_row, law_rounds_is_identity, product, rounds};

verus! {

impl View for RowRange {
    type V = RowRange;

    open spec fn view(&self) -> RowRange {
        *self
    }
}

impl Key for RowRange {
    fn same_key(&self, other: &Self) -> (same: bool) {
        *self == *other
    }

    open spec fn hash_of(range: RowRange) -> u64 {
        mixed(mixed(mixed(0, range.start.block), range.start.row), range.length)
    }

    fn hash_code(&self) -> (hash: u64) {
        mix(mix(mix(0, self.start.block), self.start.row), self.length)
    }
}

impl Key for Row {
    fn same_key(&self, other: &Self) -> (same: bool) {
        self.same_as(other)
    }

    open spec fn hash_of(bells: Seq<usize>) -> u64 {
        hash_of_seq(bells)
    }

    fn hash_code(&self) -> (hash: u64) {
        hash_seq(self.bells())
    }
}

/// For each range of the plain course, the ranges of other courses that share rows with it, each
/// with the head of its course.
pub struct FalsenessTable {
    pub falseness: KeyedMap<RowRange, Vec<(RowRange, Row)>>,
}

impl FalsenessTable {
    /// The ranges that are false against a range of the plain course, each with the head of its
    /// course.  There are none if the table does not list the range.
    pub open spec fn false_ranges(&self, range: RowRange) -> Seq<(RowRange, Seq<usize>)> {
        if self.falseness@.dom().contains(range) {
            self.falseness@[range]@.map_values(|entry: (RowRange, Row)| (entry.0, entry.1@))
        } else {
            Seq::empty()
        }
    }

    /// Whether the heads of all courses listed for a range have the given number of bells.
    pub open spec fn has_stage(&self, range: RowRange, num_bells: nat) -> bool {
        forall|i: int|
            0 <= i < self.false_ranges(range).len() ==> (
            #[trigger] self.false_ranges(range)[i]).1.len() == num_bells
    }

    /// Whether the heads of all courses in this table have the given number of bells.
    pub open spec fn is_of_stage(&self, num_bells: nat) -> bool {
        forall|range: RowRange| #[trigger] self.has_stage(range, num_bells)
    }

    /// The ranges that are false against a range of the plain course, each with the head of its
    /// course.
    pub fn false_course_heads(&self, range: RowRange) -> (entries: Vec<&(RowRange, Row)>)
        ensures
            entries@.map_values(|entry: &(RowRange, Row)| (entry.0, entry.1@))
                == self.false_ranges(range),
            self.falseness@.dom().contains(range) ==> entries@.len()
                == self.falseness@[range]@.len() && forall|i: int|
                0 <= i < entries@.len() ==> *(#[trigger] entries@[i])
                    == self.falseness@[range]@[i],
            !self.falseness@.dom().contains(range) ==> entries@.len() == 0,
    {
        let mut entries: Vec<&(RowRange, Row)> = Vec::new();
        if let Some(listed) = self.falseness.get(&range) {
            while entries.len() < listed.len()
                invariant
                    entries@.len() <= listed@.len(),
                    forall|i: int|
                        0 <= i < entries@.len() ==> *(#[trigger] entries@[i]) == listed@[i],
                decreases listed@.len() - entries@.len(),
            {
                entries.push(&listed[entries.len()]);
            }
        }
        assert(entries@.map_values(|entry: &(RowRange, Row)| (entry.0, entry.1@))
            =~= self.false_ranges(range));
        entries
    }
}

/// The head of the course that stands for each course which differs from it by a part head.
pub type CourseHeadEquivalences = KeyedMap<Row, (Row, Rotation)>;

/// Whether a graph with nodes of the given lengths has a node with this id and this length.
pub open spec fn has_node(lengths: Map<IdView, nat>, id: NodeIdView, length: nat) -> bool {
    &&& lengths.dom().contains(IdView::Standard(id))
    &&& lengths[IdView::Standard(id)] == length
}

/// The node of a graph that covers a false range, with or without being a start, if there is one.
pub open spec fn false_node(
    course_head: Seq<usize>,
    range: RowRange,
    is_start: bool,
    lengths: Map<IdView, nat>,
) -> Seq<NodeIdView> {
    let id = NodeIdView { course_head, row_idx: range.start, is_start };
    if has_node(lengths, id, range.length as nat) {
        seq![id]
    } else {
        Seq::empty()
    }
}

/// The nodes of a graph that cover one of the ranges which are false against a course: first the
/// start, then the other node.
pub open spec fn false_nodes_of_range(
    entry: (RowRange, Seq<usize>),
    course_head: Seq<usize>,
    equivalences: Map<Seq<usize>, (Row, Rotation)>,
    lengths: Map<IdView, nat>,
) -> Seq<NodeIdView> {
    let false_head = product(course_head, entry.1);
    if equivalences.dom().contains(false_head) {
        let head = equivalences[false_head].0@;
        false_node(head, entry.0, true, lengths) + false_node(head, entry.0, false, lengths)
    } else {
        Seq::empty()
    }
}

/// The nodes of a graph that cover the ranges which are false against a course.
pub open spec fn false_nodes_of_ranges(
    entries: Seq<(RowRange, Seq<usize>)>,
    course_head: Seq<usize>,
    equivalences: Map<Seq<usize>, (Row, Rotation)>,
    lengths: Map<IdView, nat>,
) -> Seq<NodeIdView>
    decreases entries.len(),
{
    if entries.len() == 0 {
        Seq::empty()
    } else {
        false_nodes_of_ranges(entries.drop_last(), course_head, equivalences, lengths)
            + false_nodes_of_range(entries.last(), course_head, equivalences, lengths)
    }
}

/// The rows of the plain course that a node of a given length covers in its own course.
pub open spec fn rows_of(id: NodeIdView, length: nat) -> RowRange {
    RowRange { start: id.row_idx, length: length as usize }
}

/// The nodes that are false against a node of a graph.
pub open spec fn false_nodes_of(
    id: IdView,
    length: nat,
    table: FalsenessTable,
    equivalences: Map<Seq<usize>, (Row, Rotation)>,
    lengths: Map<IdView, nat>,
) -> Seq<NodeIdView> {
    match id {
        IdView::Standard(id) => false_nodes_of_ranges(
            table.false_ranges(rows_of(id, length)),
            id.course_head,
            equivalences,
            lengths,
        ),
        IdView::ZeroLengthEnd => Seq::empty(),
    }
}

/// The length of each node of a graph.
pub open spec fn lengths_of<S>(nodes: Map<IdView, NodeView<S>>) -> Map<IdView, nat> {
    nodes.map_values(|node: NodeView<S>| node.per_part_length)
}

/// A node with the nodes that are false against it.
pub open spec fn with_false_nodes<S>(
    id: IdView,
    node: NodeView<S>,
    table: FalsenessTable,
    equivalences: Map<Seq<usize>, (Row, Rotation)>,
    lengths: Map<IdView, nat>,
) -> NodeView<S> {
    if id is Standard {
        NodeView {
            false_nodes: false_nodes_of(id, node.per_part_length, table, equivalences, lengths),
            ..node
        }
    } else {
        node
    }
}

/// Adds the node of a graph that covers a false range, if there is one.
fn add_false_node<S>(
    false_nodes: &mut Vec<StandardNodeId>,
    nodes: &KeyedMap<NodeId, Node<S>>,
    course_head: &Row,
    range: &RowRange,
    is_start: bool,
)
    ensures
        final(false_nodes)@.map_values(|id: StandardNodeId| id@) == old(false_nodes)@.map_values(
            |id: StandardNodeId| id@,
        ) + false_node(course_head@, *range, is_start, lengths_of(node_views(nodes@))),
{
    let ghost before = false_nodes@.map_values(|id: StandardNodeId| id@);
    let false_id = StandardNodeId::new(course_head.clone(), range.start, is_start);
    let id = NodeId::Standard(false_id.clone());
    if let Some(node) = nodes.get(&id) {
        if node.per_part_length.0 == range.length {
            false_nodes.push(false_id);
            assert(false_nodes@.map_values(|id: StandardNodeId| id@) =~= before.push(false_id@));
            assert(before.push(false_id@) =~= before + seq![false_id@]);
            return ;
        }
    }
    assert(before =~= before + Seq::empty());
}

/// Finds the nodes that are false against a node of a graph.
pub fn find_false_nodes<S>(
    id: &StandardNodeId,
    length: usize,
    nodes: &KeyedMap<NodeId, Node<S>>,
    table: &FalsenessTable,
    equivalences: &CourseHeadEquivalences,
) -> (false_nodes: Vec<StandardNodeId>)
    requires
        table.has_stage(rows_of(id@, length as nat), id@.course_head.len()),
    ensures
        false_nodes@.map_values(|id: StandardNodeId| id@) == false_nodes_of(
            IdView::Standard(id@),
            length as nat,
            *table,
            equivalences@,
            lengths_of(node_views(nodes@)),
        ),
{
    let range = RowRange::new(id.row_idx, length);
    let ghost lengths = lengths_of(node_views(nodes@));
    let entries = table.false_course_heads(range);
    let ghost entry_views = table.false_ranges(range);
    let mut false_nodes: Vec<StandardNodeId> = Vec::new();
    let mut i: usize = 0;
    assert(false_nodes@.map_values(|id: StandardNodeId| id@) =~= Seq::empty());
    while i < entries.len()
        invariant
            i <= entries@.len(),
            range == (RowRange { start: id@.row_idx, length }),
            lengths == lengths_of(node_views(nodes@)),
            entry_views == table.false_ranges(range),
            entry_views == entries@.map_values(|entry: &(RowRange, Row)| (entry.0, entry.1@)),
            table.has_stage(range, id@.course_head.len()),
            false_nodes@.map_values(|id: StandardNodeId| id@) == false_nodes_of_ranges(
                entry_views.take(i as int),
                id@.course_head,
                equivalences@,
                lengths,
            ),
        decreases entries@.len() - i,
    {
        let ghost before = false_nodes@.map_values(|id: StandardNodeId| id@);
        let (false_range, false_head_transposition) = entries[i];
        proof {
            let next = entry_views.take(i + 1);
            assert(next.drop_last() =~= entry_views.take(i as int));
            assert(next.last() == table.false_ranges(range)[i as int]);
            assert(next.last() == (*false_range, false_head_transposition@));
        }
        let false_head = id.course_head.times(false_head_transposition);
        if let Some((false_equiv_head, _)) = equivalences.get(&false_head) {
            add_false_node(&mut false_nodes, nodes, false_equiv_head, false_range, true);
            add_false_node(&mut false_nodes, nodes, false_equiv_head, false_range, false);
            assert(false_nodes@.map_values(|id: StandardNodeId| id@) =~= before
                + false_nodes_of_range(
                entry_views[i as int],
                id@.course_head,
                equivalences@,
                lengths,
            ));
        } else {
            assert(before =~= before + Seq::empty());
        }
        i = i + 1;
    }
    assert(entry_views.take(i as int) =~= entry_views);
    false_nodes
}

/// Changing nodes without changing their lengths does not change the lengths.
proof fn lemma_same_lengths<S>(keys: Seq<IdView>, a: Seq<Node<S>>, b: Seq<Node<S>>)
    requires
        keys.no_duplicates(),
        keys.len() == a.len(),
        keys.len() == b.len(),
        forall|i: int|
            0 <= i < keys.len() ==> (#[trigger] a[i])@.per_part_length == b[i]@.per_part_length,
    ensures
        lengths_of(node_views(map_of(keys, a))) == lengths_of(node_views(map_of(keys, b))),
{
    assert forall|id: IdView| keys.contains(id) implies a[keys.index_of(id)]@.per_part_length
        == b[keys.index_of(id)]@.per_part_length by {
        assert(keys[keys.index_of(id)] == id);
    }
    assert(lengths_of(node_views(map_of(keys, a))) =~= lengths_of(node_views(map_of(keys, b))));
}

/// Sets the nodes that are false against each node of a graph.
pub fn compute_falseness<S>(
    nodes: &mut KeyedMap<NodeId, Node<S>>,
    table: &FalsenessTable,
    equivalences: &CourseHeadEquivalences,
)
    requires
        forall|id: NodeIdView| #[trigger]
            old(nodes)@.dom().contains(IdView::Standard(id)) ==> table.has_stage(
                rows_of(id, old(nodes)@[IdView::Standard(id)]@.per_part_length),
                id.course_head.len(),
            ),
    ensures
        final(nodes).keys() == old(nodes).keys(),
        final(nodes).values().len() == old(nodes).values().len(),
        forall|i: int|
            0 <= i < old(nodes).keys().len() ==> (#[trigger] final(nodes).values()[i])@
                == with_false_nodes(
                old(nodes).keys()[i],
                old(nodes).values()[i]@,
                *table,
                equivalences@,
                lengths_of(node_views(old(nodes)@)),
            ),
{
    let ghost before = *nodes;
    let ghost lengths = lengths_of(node_views(before@));
    let len: usize = nodes.len();
    let mut i: usize = 0;
    while i < len
        invariant
            i <= len,
            len == before.keys().len(),
            before.values().len() == len,
            nodes.values().len() == len,
            before.keys().no_duplicates(),
            nodes.keys() == before.keys(),
            lengths == lengths_of(node_views(before@)),
            forall|id: NodeIdView| #[trigger]
                before@.dom().contains(IdView::Standard(id)) ==> table.has_stage(
                    rows_of(id, before@[IdView::Standard(id)]@.per_part_length),
                    id.course_head.len(),
                ),
            forall|j: int|
                0 <= j < len ==> (#[trigger] nodes.values()[j])@ == if j < i {
                    with_false_nodes(
                        before.keys()[j],
                        before.values()[j]@,
                        *table,
                        equivalences@,
                        lengths,
                    )
                } else {
                    before.values()[j]@
                },
        decreases len - i,
    {
        proof {
            lemma_index_of(before.keys());
            assert(before.keys().contains(before.keys()[i as int]));
            lemma_same_lengths(before.keys(), nodes.values(), before.values());
        }
        let ghost now = nodes.values();
        assert(now[i as int]@ == before.values()[i as int]@);
        if let NodeId::Standard(std_id) = nodes.key_at(i) {
            assert(before@.dom().contains(IdView::Standard(std_id@)));
            let length: usize = nodes.value_at(i).per_part_length.0;
            let false_nodes = find_false_nodes(std_id, length, nodes, table, equivalences);
            nodes.value_at_mut(i).false_nodes = false_nodes;
            assert(nodes.values()[i as int]@ == with_false_nodes(
                before.keys()[i as int],
                before.values()[i as int]@,
                *table,
                equivalences@,
                lengths,
            ));
        }
        i = i + 1;
    }
}

/// The nodes that cover the false ranges, each with the position of its range and whether it is a start.
spec fn places_of_false_nodes(
    entries: Seq<(RowRange, Seq<usize>)>,
    course_head: Seq<usize>,
    equivalences: Map<Seq<usize>, (Row, Rotation)>,
    lengths: Map<IdView, nat>,
) -> Seq<(int, bool)>
    decreases entries.len(),
{
    if entries.len() == 0 {
        Seq::empty()
    } else {
        let before = places_of_false_nodes(
            entries.drop_last(),
            course_head,
            equivalences,
            lengths,
        );
        let k = entries.len() - 1;
        let with_start = if is_hit(entries, course_head, equivalences, lengths, k, true) {
            before.push((k, true))
        } else {
            before
        };
        if is_hit(entries, course_head, equivalences, lengths, k, false) {
            with_start.push((k, false))
        } else {
            with_start
        }
    }
}

/// Whether a node of the graph covers one of the false ranges, with or without being a start.
spec fn is_hit(
    entries: Seq<(RowRange, Seq<usize>)>,
    course_head: Seq<usize>,
    equivalences: Map<Seq<usize>, (Row, Rotation)>,
    lengths: Map<IdView, nat>,
    k: int,
    is_start: bool,
) -> bool {
    let false_head = product(course_head, entries[k].1);
    &&& equivalences.dom().contains(false_head)
    &&& has_node(
        lengths,
        NodeIdView {
            course_head: equivalences[false_head].0@,
            row_idx: entries[k].0.start,
            is_start,
        },
        entries[k].0.length as nat,
    )
}

proof fn lemma_places_of_false_nodes(
    entries: Seq<(RowRange, Seq<usize>)>,
    course_head: Seq<usize>,
    equivalences: Map<Seq<usize>, (Row, Rotation)>,
    lengths: Map<IdView, nat>,
)
    ensures
        ({
            let places = places_of_false_nodes(entries, course_head, equivalences, lengths);
            let found = false_nodes_of_ranges(entries, course_head, equivalences, lengths);
            &&& places.len() == found.len()
            &&& forall|j: int|
                0 <= j < places.len() ==> {
                    let (k, is_start) = #[trigger] places[j];
                    &&& 0 <= k < entries.len()
                    &&& is_hit(entries, course_head, equivalences, lengths, k, is_start)
                    &&& found[j] == (NodeIdView {
                        course_head: equivalences[product(course_head, entries[k].1)].0@,
                        row_idx: entries[k].0.start,
                        is_start,
                    })
                }
            &&& forall|i: int, j: int|
                0 <= i < j < places.len() ==> {
                    ||| (#[trigger] places[i]).0 < (#[trigger] places[j]).0
                    ||| places[i].0 == places[j].0 && places[i].1 && !places[j].1
                }
            &&& forall|k: int, is_start: bool|
                0 <= k < entries.len() && #[trigger] is_hit(
                    entries,
                    course_head,
                    equivalences,
                    lengths,
                    k,
                    is_start,
                ) ==> places.contains((k, is_start))
        }),
    decreases entries.len(),
{
    let places = places_of_false_nodes(entries, course_head, equivalences, lengths);
    let found = false_nodes_of_ranges(entries, course_head, equivalences, lengths);
    if entries.len() > 0 {
        let front = entries.drop_last();
        lemma_places_of_false_nodes(front, course_head, equivalences, lengths);
        let before = places_of_false_nodes(front, course_head, equivalences, lengths);
        let found_before = false_nodes_of_ranges(front, course_head, equivalences, lengths);
        let n = entries.len() - 1;
        let start_hit = is_hit(entries, course_head, equivalences, lengths, n, true);
        let other_hit = is_hit(entries, course_head, equivalences, lengths, n, false);
        assert forall|k: int, is_start: bool| 0 <= k < n implies is_hit(
            front,
            course_head,
            equivalences,
            lengths,
            k,
            is_start,
        ) == #[trigger] is_hit(entries, course_head, equivalences, lengths, k, is_start) by {
            assert(front[k] == entries[k]);
        }
        assert forall|j: int| 0 <= j < before.len() implies places[j] == #[trigger] before[j] by {}
        assert forall|j: int| 0 <= j < found_before.len() implies found[j]
            == #[trigger] found_before[j] by {}
        assert forall|k: int, is_start: bool|
            0 <= k < entries.len() && #[trigger] is_hit(
                entries,
                course_head,
                equivalences,
                lengths,
                k,
                is_start,
            ) implies places.contains((k, is_start)) by {
            if k < n {
                assert(is_hit(front, course_head, equivalences, lengths, k, is_start));
                let j = before.index_of((k, is_start));
                assert(places[j] == (k, is_start));
            } else if is_start {
                assert(places[before.len() as int] == (k, is_start));
            } else {
                assert(places[places.len() - 1] == (k, is_start));
            }
        }
        assert forall|j: int| 0 <= j < places.len() implies {
            let (k, is_start) = #[trigger] places[j];
            &&& 0 <= k < entries.len()
            &&& is_hit(entries, course_head, equivalences, lengths, k, is_start)
            &&& found[j] == (NodeIdView {
                course_head: equivalences[product(course_head, entries[k].1)].0@,
                row_idx: entries[k].0.start,
                is_start,
            })
        } by {
            if j < before.len() {
                let (k, is_start) = before[j];
                assert(front[k] == entries[k]);
                assert(found[j] == found_before[j]);
            }
        }
    }
}

/// The nodes that are false against a node come from the ranges that the table lists for the node's
/// rows, in the order of that list, and of one range a start comes before another node.  Every such
/// range yields each node of the graph that begins at the range's first row, has the range's length and
/// is in the course that stands for the product of the node's course head and the range's.  These are
/// the positions in the list that the false nodes come from, and whether they are starts.
pub proof fn law_false_nodes_in_order<S>(
    id: NodeIdView,
    node: NodeView<S>,
    nodes: Map<IdView, NodeView<S>>,
    table: FalsenessTable,
    equivalences: Map<Seq<usize>, (Row, Rotation)>,
) -> (places: Seq<(int, bool)>)
    requires
        table.falseness@.dom().contains(
            RowRange { start: id.row_idx, length: node.per_part_length as usize },
        ),
    ensures
        ({
            let found = with_false_nodes(
                IdView::Standard(id),
                node,
                table,
                equivalences,
                lengths_of(nodes),
            ).false_nodes;
            let listed = table.falseness@[RowRange {
                start: id.row_idx,
                length: node.per_part_length as usize,
            }]@;
            let head = |k: int|
                Seq::new(
                    listed[k].1@.len(),
                    |place: int| id.course_head[listed[k].1@[place] as int],
                );
            &&& places.len() == found.len()
            &&& forall|j: int|
                0 <= j < found.len() ==> {
                    let k = (#[trigger] places[j]).0;
                    &&& 0 <= k < listed.len()
                    &&& equivalences.dom().contains(head(k))
                    &&& found[j].course_head == equivalences[head(k)].0@
                    &&& found[j].row_idx == listed[k].0.start
                    &&& found[j].is_start == places[j].1
                    &&& nodes.dom().contains(IdView::Standard(found[j]))
                    &&& nodes[IdView::Standard(found[j])].per_part_length == listed[k].0.length
                }
            &&& forall|i: int, j: int|
                0 <= i < j < places.len() ==> {
                    ||| (#[trigger] places[i]).0 < (#[trigger] places[j]).0
                    ||| places[i].0 == places[j].0 && places[i].1 && !places[j].1
                }
            &&& forall|k: int, other: NodeIdView|
                0 <= k < listed.len() && equivalences.dom().contains(head(k))
                    && other.course_head == equivalences[head(k)].0@ && other.row_idx == (
                #[trigger] listed[k]).0.start && #[trigger] nodes.dom().contains(
                    IdView::Standard(other),
                ) && nodes[IdView::Standard(other)].per_part_length == listed[k].0.length
                    ==> places.contains((k, other.is_start)) && found.contains(other)
        }),
{
    let lengths = lengths_of(nodes);
    let range = RowRange { start: id.row_idx, length: node.per_part_length as usize };
    let listed = table.falseness@[range]@;
    let entries = table.false_ranges(range);
    let places = places_of_false_nodes(entries, id.course_head, equivalences, lengths);
    let found = false_nodes_of_ranges(entries, id.course_head, equivalences, lengths);
    let head = |k: int|
        Seq::new(listed[k].1@.len(), |place: int| id.course_head[listed[k].1@[place] as int]);
    lemma_places_of_false_nodes(entries, id.course_head, equivalences, lengths);
    assert forall|k: int| 0 <= k < listed.len() implies (#[trigger] entries[k]) == (
        listed[k].0,
        listed[k].1@,
    ) && head(k) == product(id.course_head, entries[k].1) by {
        assert(head(k) =~= product(id.course_head, entries[k].1));
    }
    assert forall|k: int, other: NodeIdView|
        0 <= k < listed.len() && equivalences.dom().contains(head(k)) && other.course_head
            == equivalences[head(k)].0@ && other.row_idx == (#[trigger] listed[k]).0.start
            && #[trigger] nodes.dom().contains(IdView::Standard(other)) && nodes[IdView::Standard(
            other,
        )].per_part_length == listed[k].0.length implies places.contains((k, other.is_start))
        && found.contains(other) by {
        assert(entries[k].0 == listed[k].0);
        assert(is_hit(entries, id.course_head, equivalences, lengths, k, other.is_start));
        let j = places.index_of((k, other.is_start));
        assert(places[j] == (k, other.is_start));
        assert(found[j] == other);
    }
    assert forall|j: int| 0 <= j < found.len() implies {
        let k = (#[trigger] places[j]).0;
        &&& 0 <= k < listed.len()
        &&& equivalences.dom().contains(head(k))
        &&& found[j].course_head == equivalences[head(k)].0@
        &&& found[j].row_idx == listed[k].0.start
        &&& found[j].is_start == places[j].1
        &&& nodes.dom().contains(IdView::Standard(found[j]))
        &&& nodes[IdView::Standard(found[j])].per_part_length == listed[k].0.length
    } by {
        let k = places[j].0;
        assert(entries[k].0 == listed[k].0);
    }
    places
}

/// A node is given the nodes that are false against it, and nothing else of it changes: a node of the
/// graph is false against it if and only if the table lists, for the rows of the node, a range that
/// begins at the first row of the other node, is as long as that node, and is in a course which the
/// other node's course stands for.  The end without rows keeps what it has.
pub proof fn law_nodes_get_all_false_nodes<S>(
    id: NodeIdView,
    node: NodeView<S>,
    nodes: Map<IdView, NodeView<S>>,
    table: FalsenessTable,
    equivalences: Map<Seq<usize>, (Row, Rotation)>,
    other: NodeIdView,
)
    ensures
        ({
            let after = with_false_nodes(
                IdView::Standard(id),
                node,
                table,
                equivalences,
                lengths_of(nodes),
            );
            let rows = RowRange { start: id.row_idx, length: node.per_part_length as usize };
            &&& after.false_nodes.contains(other) <==> {
                &&& nodes.dom().contains(IdView::Standard(other))
                &&& table.falseness@.dom().contains(rows)
                &&& exists|k: int|
                    0 <= k < table.falseness@[rows]@.len() && {
                        let (range, transposition) = #[trigger] table.falseness@[rows]@[k];
                        let false_head = Seq::new(
                            transposition@.len(),
                            |place: int| id.course_head[transposition@[place] as int],
                        );
                        &&& range.start == other.row_idx
                        &&& range.length == nodes[IdView::Standard(other)].per_part_length
                        &&& equivalences.dom().contains(false_head)
                        &&& equivalences[false_head].0@ == other.course_head
                    }
            }
            &&& after == NodeView { false_nodes: after.false_nodes, ..node }
        }),
        with_false_nodes(IdView::ZeroLengthEnd, node, table, equivalences, lengths_of(nodes))
            == node,
{
    let lengths = lengths_of(nodes);
    let rows = RowRange { start: id.row_idx, length: node.per_part_length as usize };
    let entries = table.false_ranges(rows);
    law_false_nodes(id, node.per_part_length, table, equivalences, lengths, other);
    if table.falseness@.dom().contains(rows) {
        let listed = table.falseness@[rows]@;
        assert forall|k: int| 0 <= k < listed.len() implies {
            let (range, transposition) = #[trigger] listed[k];
            let false_head = Seq::new(
                transposition@.len(),
                |place: int| id.course_head[transposition@[place] as int],
            );
            &&& entries[k] == (range, transposition@)
            &&& false_head == product(id.course_head, transposition@)
        } by {
            let (range, transposition) = listed[k];
            assert(Seq::new(
                transposition@.len(),
                |place: int| id.course_head[transposition@[place] as int],
            ) =~= product(id.course_head, transposition@));
        }
        if exists|k: int|
            0 <= k < entries.len() && is_false_against(
                id.course_head,
                #[trigger] entries[k],
                equivalences,
                lengths,
                other,
            ) {
            let k = choose|k: int|
                0 <= k < entries.len() && is_false_against(
                    id.course_head,
                    #[trigger] entries[k],
                    equivalences,
                    lengths,
                    other,
                );
            let entry = listed[k];
            assert(entries[k] == (entry.0, entry.1@));
        }
        if exists|k: int|
            0 <= k < listed.len() && nodes.dom().contains(IdView::Standard(other)) && {
                let (range, transposition) = #[trigger] listed[k];
                let false_head = Seq::new(
                    transposition@.len(),
                    |place: int| id.course_head[transposition@[place] as int],
                );
                &&& range.start == other.row_idx
                &&& range.length == nodes[IdView::Standard(other)].per_part_length
                &&& equivalences.dom().contains(false_head)
                &&& equivalences[false_head].0@ == other.course_head
            } {
            let k = choose|k: int|
                0 <= k < listed.len() && nodes.dom().contains(IdView::Standard(other)) && {
                    let (range, transposition) = #[trigger] listed[k];
                    let false_head = Seq::new(
                        transposition@.len(),
                        |place: int| id.course_head[transposition@[place] as int],
                    );
                    &&& range.start == other.row_idx
                    &&& range.length == nodes[IdView::Standard(other)].per_part_length
                    &&& equivalences.dom().contains(false_head)
                    &&& equivalences[false_head].0@ == other.course_head
                };
            assert(is_false_against(id.course_head, entries[k], equivalences, lengths, other));
        }
    }
}

/// The nodes that are false against a node are nodes of the graph, and a node of the graph is among
/// them exactly if the table lists a range that is as long as the node and starts at the same row,
/// in a course which the node's course stands for.
pub proof fn law_false_nodes(
    id: NodeIdView,
    length: nat,
    table: FalsenessTable,
    equivalences: Map<Seq<usize>, (Row, Rotation)>,
    lengths: Map<IdView, nat>,
    other: NodeIdView,
)
    ensures
        false_nodes_of(IdView::Standard(id), length, table, equivalences, lengths).contains(other)
            <==> exists|k: int|
            0 <= k < table.false_ranges(rows_of(id, length)).len() && is_false_against(
                id.course_head,
                #[trigger] table.false_ranges(rows_of(id, length))[k],
                equivalences,
                lengths,
                other,
            ),
{
    let entries = table.false_ranges(rows_of(id, length));
    lemma_false_nodes_of_ranges(entries, id.course_head, equivalences, lengths, other);
}

/// A node is false against itself, provided that its rows are listed as false against themselves
/// and that its course stands for itself.
pub proof fn law_nodes_are_false_against_themselves(
    id: NodeIdView,
    length: nat,
    table: FalsenessTable,
    equivalences: Map<Seq<usize>, (Row, Rotation)>,
    lengths: Map<IdView, nat>,
)
    requires
        is_row(id.course_head),
        id.course_head.len() <= usize::MAX,
        length <= usize::MAX,
        has_node(lengths, id, length),
        table.false_ranges(rows_of(id, length)).contains(
            (rows_of(id, length), rounds(id.course_head.len())),
        ),
        equivalences.dom().contains(id.course_head),
        equivalences[id.course_head].0@ == id.course_head,
    ensures
        false_nodes_of(IdView::Standard(id), length, table, equivalences, lengths).contains(id),
{
    let entries = table.false_ranges(rows_of(id, length));
    let entry = (rows_of(id, length), rounds(id.course_head.len()));
    let k = entries.index_of(entry);
    law_rounds_is_identity(id.course_head);
    assert(is_false_against(id.course_head, entries[k], equivalences, lengths, id));
    law_false_nodes(id, length, table, equivalences, lengths, id);
}

/// Whether a node of the graph covers a range that is false against a course.
pub open spec fn is_false_against(
    course_head: Seq<usize>,
    entry: (RowRange, Seq<usize>),
    equivalences: Map<Seq<usize>, (Row, Rotation)>,
    lengths: Map<IdView, nat>,
    other: NodeIdView,
) -> bool {
    let false_head = product(course_head, entry.1);
    &&& equivalences.dom().contains(false_head)
    &&& other.course_head == equivalences[false_head].0@
    &&& other.row_idx == entry.0.start
    &&& has_node(lengths, other, entry.0.length as nat)
}

proof fn lemma_false_nodes_of_ranges(
    entries: Seq<(RowRange, Seq<usize>)>,
    course_head: Seq<usize>,
    equivalences: Map<Seq<usize>, (Row, Rotation)>,
    lengths: Map<IdView, nat>,
    other: NodeIdView,
)
    ensures
        false_nodes_of_ranges(entries, course_head, equivalences, lengths).contains(other)
            <==> exists|k: int|
            0 <= k < entries.len() && is_false_against(
                course_head,
                #[trigger] entries[k],
                equivalences,
                lengths,
                other,
            ),
    decreases entries.len(),
{
    let found = false_nodes_of_ranges(entries, course_head, equivalences, lengths);
    if entries.len() > 0 {
        let before = entries.drop_last();
        let last = entries.last();
        lemma_false_nodes_of_ranges(before, course_head, equivalences, lengths, other);
        let found_before = false_nodes_of_ranges(before, course_head, equivalences, lengths);
        let found_last = false_nodes_of_range(last, course_head, equivalences, lengths);
        lemma_contains_concat(found_before, found_last, other);
        assert(found_last.contains(other) <==> is_false_against(
            course_head,
            last,
            equivalences,
            lengths,
            other,
        )) by {
            let false_head = product(course_head, last.1);
            if equivalences.dom().contains(false_head) {
                let head = equivalences[false_head].0@;
                let starts = false_node(head, last.0, true, lengths);
                let others = false_node(head, last.0, false, lengths);
                lemma_contains_concat(starts, others, other);
                let start = NodeIdView { course_head: head, row_idx: last.0.start, is_start: true };
                let not_start = NodeIdView {
                    course_head: head,
                    row_idx: last.0.start,
                    is_start: false,
                };
                if has_node(lengths, start, last.0.length as nat) {
                    assert(starts[0] == start);
                }
                if has_node(lengths, not_start, last.0.length as nat) {
                    assert(others[0] == not_start);
                }
                if is_false_against(course_head, last, equivalences, lengths, other) {
                    assert(other == start || other == not_start);
                }
            }
        }
        assert forall|k: int| 0 <= k < before.len() implies before[k] == #[trigger] entries[k] by {}
        if exists|k: int|
            0 <= k < before.len() && is_false_against(
                course_head,
                #[trigger] before[k],
                equivalences,
                lengths,
                other,
            ) {
            let k = choose|k: int|
                0 <= k < before.len() && is_false_against(
                    course_head,
                    #[trigger] before[k],
                    equivalences,
                    lengths,
                    other,
                );
            assert(is_false_against(course_head, entries[k], equivalences, lengths, other));
        }
        if is_false_against(course_head, last, equivalences, lengths, other) {
            assert(entries[entries.len() - 1] == last);
        }
    }
}

} // verus!
