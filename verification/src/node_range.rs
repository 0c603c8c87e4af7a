//! Ranges of rows that become the nodes of a graph.

use vstd::prelude::*;

use crate::keyed::Key;
#[allow(unused_imports)]
use crate::layout::NodeIdView;
use crate::layout::{Layout, LinkIdx};
use crate::primitives::Row;

verus! {

/// The id of a node that covers some rows.
pub type StandardNodeId = crate::layout::NodeId;

/// The index of a start within a layout.
pub type StartIdx = usize;

/// The index of an end within a layout.
pub type EndIdx = usize;

/// How far the parts of a composition are rotated against each other.
pub type Rotation = usize;

/// The number of rows from one point of a graph to another.
pub type Distance = usize;

/// What a [`NodeId`] stands for.
#[verifier::ext_equal]
pub enum IdView {
    Standard(NodeIdView),
    ZeroLengthEnd,
}

/// The unique identifier of a node in a graph.
#[derive(PartialEq, Eq, Hash)]
pub enum NodeId {
    Standard(StandardNodeId),
    /// The composition has come round at the end of the node before.
    ZeroLengthEnd,
}

impl View for NodeId {
    type V = IdView;

    open spec fn view(&self) -> IdView {
        match *self {
            NodeId::Standard(id) => IdView::Standard(id@),
            NodeId::ZeroLengthEnd => IdView::ZeroLengthEnd,
        }
    }
}

impl Clone for NodeId {
    fn clone(&self) -> (id: Self)
        ensures
            id@ == self@,
    {
        match self {
            NodeId::Standard(id) => NodeId::Standard(id.clone()),
            NodeId::ZeroLengthEnd => NodeId::ZeroLengthEnd,
        }
    }
}

impl Key for NodeId {
    fn same_key(&self, other: &Self) -> (same: bool) {
        match (self, other) {
            (NodeId::Standard(id), NodeId::Standard(other)) => id.same_key(other),
            (NodeId::ZeroLengthEnd, NodeId::ZeroLengthEnd) => true,
            _ => false,
        }
    }

    open spec fn hash_of(id: IdView) -> u64 {
        match id {
            IdView::Standard(id) => <StandardNodeId as Key>::hash_of(id),
            IdView::ZeroLengthEnd => 0,
        }
    }

    fn hash_code(&self) -> (hash: u64) {
        match self {
            NodeId::Standard(id) => id.hash_code(),
            NodeId::ZeroLengthEnd => 0,
        }
    }
}

impl IdView {
    /// Whether a composition can start at this node.
    pub open spec fn is_start(self) -> bool {
        match self {
            IdView::Standard(id) => id.is_start,
            IdView::ZeroLengthEnd => false,
        }
    }
}

impl NodeId {
    /// The head of the course that this node is in, if it has rows.
    pub fn course_head(&self) -> (course_head: Option<&Row>)
        ensures
            match course_head {
                Some(course_head) => self@ matches IdView::Standard(id) && course_head@
                    == id.course_head,
                None => self@ is ZeroLengthEnd,
            },
    {
        match self {
            NodeId::Standard(id) => Some(&id.course_head),
            NodeId::ZeroLengthEnd => None,
        }
    }

    /// Whether a composition can start at this node.
    pub fn is_start(&self) -> (start: bool)
        ensures
            start == self@.is_start(),
    {
        match self {
            NodeId::Standard(id) => id.is_start,
            NodeId::ZeroLengthEnd => false,
        }
    }
}

/// A way in which a composition ends.
#[derive(Debug, Clone, Copy, PartialEq, Eq, Hash, Structural)]
pub enum End {
    /// At the end of the node before.
    ZeroLength,
    /// At the end of a segment.
    Segment(EndIdx),
}

/// A length in one part of the composition.
#[derive(Debug, Clone, Copy, PartialEq, Eq, Hash, Structural)]
pub struct PerPartLength(pub usize);

/// A length across all parts of the composition.
#[derive(Debug, Clone, Copy, PartialEq, Eq, Hash, Structural)]
pub struct TotalLength(pub usize);

/// The number of rows of each method.
#[derive(Debug)]
pub struct RowCounts {
    pub counts: Vec<usize>,
}

impl View for RowCounts {
    type V = Seq<usize>;

    open spec fn view(&self) -> Seq<usize> {
        self.counts@
    }
}

impl Clone for RowCounts {
    fn clone(&self) -> (counts: Self)
        ensures
            counts@ == self@,
    {
        let counts = self.counts.clone();
        assert(counts@ =~= self.counts@);
        RowCounts { counts }
    }
}

/// What a [`RangeEnd`] stands for.
#[verifier::ext_equal]
pub enum RangeEndView {
    End(End),
    NotEnd(Seq<(LinkIdx, IdView, Rotation)>),
}

/// What comes after the rows of a range.
pub enum RangeEnd {
    /// The composition ends.
    End(End),
    /// The composition goes on over one of these links, each given with the node that follows and
    /// the rotation of the parts.
    NotEnd(Vec<(LinkIdx, NodeId, Rotation)>),
}

impl View for RangeEnd {
    type V = RangeEndView;

    open spec fn view(&self) -> RangeEndView {
        match *self {
            RangeEnd::End(end) => RangeEndView::End(end),
            RangeEnd::NotEnd(links) => RangeEndView::NotEnd(
                links@.map_values(|link: (LinkIdx, NodeId, Rotation)| (link.0, link.1@, link.2)),
            ),
        }
    }
}

/// What a [`NodeRange`] stands for.
#[verifier::ext_equal]
pub struct NodeRangeView {
    pub node_id: IdView,
    pub range_end: RangeEndView,
    pub per_part_length: nat,
    pub total_length: nat,
    pub method_counts: Seq<usize>,
    pub label: Seq<char>,
}

/// A range of rows without links inside it.
pub struct NodeRange {
    pub node_id: NodeId,
    pub range_end: RangeEnd,
    /// The number of rows in one part.
    pub per_part_length: PerPartLength,
    /// The number of rows in all parts together.
    pub total_length: TotalLength,
    /// The number of rows of each method.
    pub method_counts: RowCounts,
    /// The text that a composition gains from these rows.
    pub label: String,
}

impl View for NodeRange {
    type V = NodeRangeView;

    open spec fn view(&self) -> NodeRangeView {
        NodeRangeView {
            node_id: self.node_id@,
            range_end: self.range_end@,
            per_part_length: self.per_part_length.0 as nat,
            total_length: self.total_length.0 as nat,
            method_counts: self.method_counts@,
            label: self.label@,
        }
    }
}

impl NodeRangeView {
    /// The links that can be taken after these rows, none if the composition ends.
    pub open spec fn links(self) -> Seq<(LinkIdx, IdView, Rotation)> {
        match self.range_end {
            RangeEndView::End(_) => Seq::empty(),
            RangeEndView::NotEnd(links) => links,
        }
    }

    /// How the composition ends after these rows, if it does.
    pub open spec fn end(self) -> Option<End> {
        match self.range_end {
            RangeEndView::End(end) => Some(end),
            RangeEndView::NotEnd(_) => None,
        }
    }
}

impl NodeRangeView {
    /// The rows of these blocks that this range covers in the plain course.
    pub open spec fn plain_rows(self, layout: Layout) -> Seq<Seq<usize>> {
        match self.node_id {
            IdView::Standard(id) => layout.rows_in(id.row_idx, self.per_part_length),
            IdView::ZeroLengthEnd => Seq::empty(),
        }
    }
}

/// The rows that a range covers are those of its block, from the first row of the range on and as many
/// as the range is long in one part.  After the last row of the block comes its first row.  A range has
/// no rows if its block has none, or if it is the end without rows.
pub proof fn law_range_covers_rows_of_its_block(
    range: NodeRangeView,
    layout: Layout,
    rows: Seq<&Row>,
)
    requires
        rows.map_values(|row: &Row| row@) == range.plain_rows(layout),
    ensures
        range.node_id matches IdView::Standard(id) ==> {
            let block = layout.blocks@[id.row_idx.block as int].rows@;
            &&& block.len() == 0 ==> rows.len() == 0
            &&& block.len() > 0 ==> {
                &&& rows.len() == range.per_part_length
                &&& forall|i: int|
                    0 <= i < rows.len() ==> (#[trigger] rows[i])@ == block[(id.row_idx.row + i) % (
                    block.len() as int)]@
            }
        },
        range.node_id is ZeroLengthEnd ==> rows.len() == 0,
{
    let views = rows.map_values(|row: &Row| row@);
    assert(views.len() == rows.len());
    if let IdView::Standard(id) = range.node_id {
        let block = layout.blocks@[id.row_idx.block as int].rows@;
        if block.len() > 0 {
            assert forall|i: int| 0 <= i < rows.len() implies (#[trigger] rows[i])@ == block[(
            id.row_idx.row + i) % (block.len() as int)]@ by {
                assert(views[i] == rows[i]@);
                vstd::arithmetic::div_mod::lemma_mod_bound(
                    id.row_idx.row + i,
                    block.len() as int,
                );
            }
        }
    }
}

impl NodeRange {
    /// The rows that this range covers in the plain course.
    pub fn untransposed_rows<'l>(&self, layout: &'l Layout) -> (rows: Vec<&'l Row>)
        requires
            self@.node_id matches IdView::Standard(id) ==> id.row_idx.block < layout.blocks@.len(),
        ensures
            rows@.map_values(|row: &Row| row@) == self@.plain_rows(*layout),
            self.node_id matches NodeId::Standard(id) ==> {
                let block = layout.blocks@[id.row_idx.block as int].rows@;
                &&& block.len() == 0 ==> rows@.len() == 0
                &&& block.len() > 0 ==> {
                    &&& rows@.len() == self.per_part_length.0
                    &&& forall|i: int|
                        0 <= i < rows@.len() ==> (#[trigger] rows@[i])@ == block[(id.row_idx.row
                            + i) % (block.len() as int)]@
                }
            },
            self.node_id is ZeroLengthEnd ==> rows@.len() == 0,
    {
        let rows: Vec<&Row> = match &self.node_id {
            NodeId::Standard(id) => layout.untransposed_rows(id.row_idx, self.per_part_length.0),
            NodeId::ZeroLengthEnd => {
                let rows: Vec<&Row> = Vec::new();
                assert(rows@.map_values(|row: &Row| row@) =~= Seq::empty());
                rows
            },
        };
        proof {
            law_range_covers_rows_of_its_block(self@, *layout, rows@);
        }
        rows
    }

    /// How the composition ends after these rows, if it does.
    pub fn end(&self) -> (end: Option<End>)
        ensures
            end == self@.end(),
    {
        match &self.range_end {
            RangeEnd::End(end) => Some(*end),
            RangeEnd::NotEnd(_) => None,
        }
    }

    /// The number of links that can be taken after these rows.
    pub fn num_links(&self) -> (num_links: usize)
        ensures
            num_links == self@.links().len(),
    {
        match &self.range_end {
            RangeEnd::End(_) => 0,
            RangeEnd::NotEnd(links) => links.len(),
        }
    }

    /// One of the links that can be taken after these rows.
    pub fn link(&self, i: usize) -> (link: (LinkIdx, NodeId, Rotation))
        requires
            i < self@.links().len(),
        ensures
            (link.0, link.1@, link.2) == self@.links()[i as int],
    {
        match &self.range_end {
            RangeEnd::End(_) => (0, NodeId::ZeroLengthEnd, 0),
            RangeEnd::NotEnd(links) => (links[i].0, links[i].1.clone(), links[i].2),
        }
    }
}

} // verus!
