//! The course layout of a composition: segments of blocks of rows, and the links by which they can
//! be joined.

use vstd::prelude::*;

use crate::hashing::{hash_seq, mix};
#[allow(unused_imports)]
use crate::hashing::{hash_of_seq, mixed};
use crate::keyed::Key;
use crate::primitives::{Block, Mask, Row};
#[allow(unused_imports)]
use crate::primitives::{mask_matches, product, row_text};
#[allow(unused_imports)]
use crate::text::{decimal, to_decimal};

pub mod calls;
pub mod course_heads;
pub mod laws;
pub mod to_graph;

verus! {

/// The index of a [`Link`] within [`Layout::links`].
pub type LinkIdx = usize;

/// The unique index of a row within a [`Layout`].
#[derive(Debug, Clone, Copy, PartialEq, Eq, Hash, Structural)]
pub struct RowIdx {
    pub block: usize,
    pub row: usize,
}

impl RowIdx {
    pub fn new(block_idx: usize, row_idx: usize) -> (idx: Self)
        ensures
            idx.block == block_idx,
            idx.row == row_idx,
    {
        RowIdx { block: block_idx, row: row_idx }
    }
}

/// A range of rows covered by a [`Segment`].
#[derive(Debug, Clone, Copy, PartialEq, Eq, Hash, Structural)]
pub struct RowRange {
    pub start: RowIdx,
    pub length: usize,
}

impl RowRange {
    pub fn new(start: RowIdx, length: usize) -> (range: Self)
        ensures
            range.start == start,
            range.length == length,
    {
        RowRange { start, length }
    }
}

/// What a [`NodeId`] stands for.
#[verifier::ext_equal]
pub struct NodeIdView {
    pub course_head: Seq<usize>,
    pub row_idx: RowIdx,
    pub is_start: bool,
}

/// The unique identifier of an instantiated course segment in a composition.  The segment ends at
/// the closest [`Link`] that can be applied to its course head.
#[derive(PartialEq, Eq, Hash)]
pub struct NodeId {
    pub course_head: Row,
    pub row_idx: RowIdx,
    /// Start segments are kept apart from the others, because rounds can be the first row of a
    /// segment: a start segment then has its full length, whereas any other segment comes round at
    /// once.
    pub is_start: bool,
}

impl View for NodeId {
    type V = NodeIdView;

    open spec fn view(&self) -> NodeIdView {
        NodeIdView {
            course_head: self.course_head@,
            row_idx: self.row_idx,
            is_start: self.is_start,
        }
    }
}

impl Clone for NodeId {
    fn clone(&self) -> (id: Self)
        ensures
            id@ == self@,
    {
        NodeId {
            course_head: self.course_head.clone(),
            row_idx: self.row_idx,
            is_start: self.is_start,
        }
    }
}

impl Key for NodeId {
    fn same_key(&self, other: &Self) -> (same: bool) {
        self.row_idx == other.row_idx && self.is_start == other.is_start
            && self.course_head.same_as(&other.course_head)
    }

    open spec fn hash_of(id: NodeIdView) -> u64 {
        mixed(mixed(hash_of_seq(id.course_head), id.row_idx.block), id.row_idx.row)
    }

    fn hash_code(&self) -> (hash: u64) {
        mix(mix(hash_seq(self.course_head.bells()), self.row_idx.block), self.row_idx.row)
    }
}

/// The text by which a [`NodeId`] is displayed.
pub open spec fn node_id_text(id: NodeIdView) -> Seq<char> {
    row_text(id.course_head) + ","@ + decimal(id.row_idx.block as nat) + ":"@ + decimal(
        id.row_idx.row as nat,
    ) + (if id.is_start {
        ",is_start"@
    } else {
        ""@
    })
}

impl NodeId {
    pub fn new(course_head: Row, row_idx: RowIdx, is_start: bool) -> (id: Self)
        ensures
            id@ == (NodeIdView { course_head: course_head@, row_idx, is_start }),
    {
        NodeId { course_head, row_idx, is_start }
    }

    pub fn ch_and_row_idx(&self) -> (result: (&Row, RowIdx))
        ensures
            result.0@ == self@.course_head,
            result.1 == self@.row_idx,
    {
        (&self.course_head, self.row_idx)
    }

    /// This id as it is displayed.
    pub fn to_text(&self) -> (text: String)
        ensures
            text@ == node_id_text(self@),
            text@ == row_text(self.course_head@) + ","@ + decimal(self.row_idx.block as nat) + ":"@
                + decimal(self.row_idx.row as nat) + (if self.is_start {
                ",is_start"@
            } else {
                ""@
            }),
    {
        let mut text = self.course_head.to_text();
        text.append(",");
        text.append(to_decimal(self.row_idx.block).as_str());
        text.append(":");
        text.append(to_decimal(self.row_idx.row).as_str());
        if self.is_start {
            text.append(",is_start");
        } else {
            text.append("");
        }
        text
    }

    /// This id as it is shown to a developer.
    pub fn to_debug_text(&self) -> (text: String)
        ensures
            text@ == "NodeId("@ + node_id_text(self@) + ")"@,
    {
        let mut text = String::new();
        text.append("NodeId(");
        text.append(self.to_text().as_str());
        text.append(")");
        assert(text@ =~= "NodeId("@ + node_id_text(self@) + ")"@);
        text
    }
}

/// A point where the composition can start or stop.  This is usually where rounds is.
pub struct StartOrEnd {
    pub course_head: Row,
    pub row_idx: RowIdx,
    pub label: String,
}

impl StartOrEnd {
    /// Whether this point is in the course and the block of the segment with a given id.
    pub open spec fn is_in_course_of(&self, id: NodeIdView) -> bool {
        &&& self.course_head@ == id.course_head
        &&& self.row_idx.block == id.row_idx.block
    }

    /// Whether this point is the first row of the segment with a given id.
    pub open spec fn is_at(&self, id: NodeIdView) -> bool {
        &&& self.course_head@ == id.course_head
        &&& self.row_idx == id.row_idx
    }

    pub fn ch_and_row_idx(&self) -> (result: (&Row, RowIdx))
        ensures
            result.0@ == self.course_head@,
            result.1 == self.row_idx,
    {
        (&self.course_head, self.row_idx)
    }
}

/// A link between two segments of a course.
pub struct Link {
    /// The row that this link starts from.  This is a half-open bound, the first row after the
    /// segment before this link: for a call over the lead end, this is the lead head and not the
    /// lead end.
    pub from: RowIdx,
    /// The row that the composition is at after this link.
    pub to: RowIdx,
    /// The course heads that this link can be applied to.
    pub course_head_mask: Mask,
    /// The transposition of the course head when this link is applied.
    pub course_head_transposition: Row,
    /// The name of this link used in debugging.
    pub debug_name: String,
    /// The name of this link in human-friendly call strings.
    pub display_name: String,
}

impl Link {
    /// Whether this link can finish the segment with a given id.
    pub open spec fn applies_to(&self, id: NodeIdView) -> bool {
        &&& self.from.block == id.row_idx.block
        &&& mask_matches(self.course_head_mask@, id.course_head)
    }

    /// The segment that follows this link in a given course.
    pub open spec fn after(&self, course_head: Seq<usize>) -> NodeIdView {
        NodeIdView {
            course_head: product(course_head, self.course_head_transposition@),
            row_idx: self.to,
            is_start: false,
        }
    }

    /// Whether two links differ at most in their names and masks.
    pub open spec fn same_effect(&self, other: &Link) -> bool {
        &&& self.from == other.from
        &&& self.to == other.to
        &&& self.course_head_transposition@ == other.course_head_transposition@
    }

    /// The id of the segment that follows this link in a given course.
    pub fn id_after(&self, course_head: &Row) -> (id: NodeId)
        requires
            mask_matches(self.course_head_mask@, course_head@),
            self.course_head_transposition@.len() == course_head@.len(),
        ensures
            id@ == self.after(course_head@),
            id.row_idx == self.to,
            !id.is_start,
            id.course_head@.len() == course_head@.len(),
            forall|place: int|
                0 <= place < course_head@.len() ==> #[trigger] id.course_head@[place]
                    == course_head@[self.course_head_transposition@[place] as int],
    {
        NodeId::new(course_head.times(&self.course_head_transposition), self.to, false)
    }

    /// Whether both links are equal, ignoring their names and course head masks.
    pub fn eq_without_name_or_ch_mask(&self, other: &Self) -> (same: bool)
        ensures
            same == self.same_effect(other),
            same <==> self.from == other.from && self.to == other.to
                && self.course_head_transposition@ == other.course_head_transposition@,
    {
        self.from == other.from && self.to == other.to && self.course_head_transposition.same_as(
            &other.course_head_transposition,
        )
    }
}

/// What a [`Segment`] stands for.
#[verifier::ext_equal]
pub struct SegmentView {
    pub node_id: NodeIdView,
    pub length: nat,
    pub links: Seq<(LinkIdx, NodeIdView)>,
    pub start_label: Option<Seq<char>>,
    pub end_label: Option<Seq<char>>,
}

/// A section of a composition without links inside it, determined by the id of its first row.
pub struct Segment {
    pub node_id: NodeId,
    pub length: usize,
    /// The links that can be taken at the end of this segment, and the segments that they lead to.
    pub links: Vec<(LinkIdx, NodeId)>,
    /// The text at the front of a composition that starts here, if one can.
    pub start_label: Option<String>,
    /// The text at the back of a composition that ends here, if one can.
    pub end_label: Option<String>,
}

/// The text of a label, if there is one.
pub open spec fn label_view(label: Option<String>) -> Option<Seq<char>> {
    match label {
        Some(label) => Some(label@),
        None => None,
    }
}

impl View for Segment {
    type V = SegmentView;

    open spec fn view(&self) -> SegmentView {
        SegmentView {
            node_id: self.node_id@,
            length: self.length as nat,
            links: self.links@.map_values(|link: (LinkIdx, NodeId)| (link.0, link.1@)),
            start_label: label_view(self.start_label),
            end_label: label_view(self.end_label),
        }
    }
}

impl Segment {
    /// Whether a composition can end with this segment.
    pub fn is_end(&self) -> (end: bool)
        ensures
            end == (self@.end_label is Some),
    {
        self.end_label.is_some()
    }

    /// The rows that this segment covers in the plain course.
    pub fn untransposed_rows<'l>(&self, layout: &'l Layout) -> (rows: Vec<&'l Row>)
        requires
            self.node_id.row_idx.block < layout.blocks@.len(),
        ensures
            rows@.map_values(|row: &Row| row@) == layout.rows_in(
                self.node_id.row_idx,
                self.length as nat,
            ),
            ({
                let block = layout.blocks@[self.node_id.row_idx.block as int].rows@;
                &&& block.len() == 0 ==> rows@.len() == 0
                &&& block.len() > 0 ==> {
                    &&& rows@.len() == self.length
                    &&& forall|i: int|
                        0 <= i < rows@.len() ==> (#[trigger] rows@[i])@ == block[(
                        self.node_id.row_idx.row + i) % (block.len() as int)]@
                }
            }),
    {
        layout.untransposed_rows(self.node_id.row_idx, self.length)
    }
}

/// How many rows there are from one row of a repeating block of `len` rows to the next occurrence
/// of another.
pub open spec fn rows_between(from: int, to: int, len: int) -> int {
    (to + len - from) % len
}

/// The course layout of a composition: a set of segments, which are sequences of rows with links
/// to the segments that can come after them.
pub struct Layout {
    /// The blocks of rows that the segments are taken from.
    pub blocks: Vec<Block>,
    /// The links by which segments can be joined.  A segment extends until the first link whose
    /// mask matches its course head.
    pub links: Vec<Link>,
    /// Where the composition can be started.
    pub starts: Vec<StartOrEnd>,
    /// Where the composition can be finished.  These are often the same as the starts, unless for
    /// example snap finishes are allowed but snap starts are not.
    pub ends: Vec<StartOrEnd>,
}

impl Layout {
    /// Whether a link can finish the segment with a given id.
    pub open spec fn applies(&self, link: int, id: NodeIdView) -> bool {
        0 <= link < self.links@.len() && self.links@[link].applies_to(id)
    }

    /// The length of a segment that is finished by a given link.  A link that starts from the first
    /// row of the segment is taken once the whole block has been rung.
    pub open spec fn link_length(&self, link: int, id: NodeIdView) -> int {
        let block_len = self.blocks@[id.row_idx.block as int]@.len() as int;
        let rows = rows_between(
            id.row_idx.row as int,
            self.links@[link].from.row as int,
            block_len,
        );
        if rows == 0 {
            block_len
        } else {
            rows
        }
    }

    /// Whether a link is among the first that can finish a segment.
    pub open spec fn is_first(&self, link: int, id: NodeIdView) -> bool {
        &&& self.applies(link, id)
        &&& forall|other: int| #[trigger]
            self.applies(other, id) ==> self.link_length(link, id) <= self.link_length(other, id)
    }

    /// Whether a link is offered at the end of a segment: it is among the first that can finish
    /// it, and none of those listed before it has the same effect.
    pub open spec fn is_offered(&self, link: int, id: NodeIdView) -> bool {
        &&& self.is_first(link, id)
        &&& forall|other: int|
            0 <= other < link && #[trigger] self.is_first(other, id)
                ==> !self.links@[other].same_effect(&self.links@[link])
    }

    /// The links offered at the end of a segment, in the order in which they are listed.
    pub open spec fn offered_links(&self, id: NodeIdView) -> Seq<LinkIdx> {
        Seq::new(self.links@.len(), |i: int| i as usize).filter(
            |link: usize| self.is_offered(link as int, id),
        )
    }

    /// The length of a segment that is finished by a given end.
    pub open spec fn end_length(&self, end: int, id: NodeIdView) -> int {
        rows_between(
            id.row_idx.row as int,
            self.ends@[end].row_idx.row as int,
            self.blocks@[id.row_idx.block as int]@.len() as int,
        )
    }

    /// Whether an end can finish the segment with a given id.  A composition does not end where it
    /// starts, because it would then have no rows.
    pub open spec fn can_end(&self, end: int, id: NodeIdView) -> bool {
        &&& 0 <= end < self.ends@.len()
        &&& self.ends@[end].is_in_course_of(id)
        &&& id.is_start ==> self.end_length(end, id) > 0
    }

    /// Whether an end is the nearest that can finish a segment, and the first of these that is
    /// listed.
    pub open spec fn is_nearest_end(&self, end: int, id: NodeIdView) -> bool {
        &&& self.can_end(end, id)
        &&& forall|other: int| #[trigger]
            self.can_end(other, id) ==> {
                ||| self.end_length(end, id) < self.end_length(other, id)
                ||| self.end_length(end, id) == self.end_length(other, id) && end <= other
            }
    }

    /// Whether an end finishes a segment: it is the nearest, and it comes before any link can be
    /// taken.
    pub open spec fn is_finished_by(&self, end: int, id: NodeIdView) -> bool {
        &&& self.is_nearest_end(end, id)
        &&& forall|link: int| #[trigger]
            self.applies(link, id) ==> self.end_length(end, id) < self.link_length(link, id)
    }

    /// Whether the composition comes round within a segment, before any link can be taken.
    pub open spec fn comes_round(&self, id: NodeIdView) -> bool {
        exists|end: int| #[trigger] self.is_finished_by(end, id)
    }

    /// The end that finishes a segment within which the composition comes round.
    pub open spec fn finishing_end(&self, id: NodeIdView) -> int {
        choose|end: int| #[trigger] self.is_finished_by(end, id)
    }

    /// The segment with a given id, if it terminates.
    pub open spec fn segment(&self, id: NodeIdView) -> Option<SegmentView> {
        let start_label = if id.is_start {
            Some(self.starts@[first_at(self.starts@, id)].label@)
        } else {
            None
        };
        if self.comes_round(id) {
            Some(
                SegmentView {
                    node_id: id,
                    length: self.end_length(self.finishing_end(id), id) as nat,
                    links: Seq::empty(),
                    start_label,
                    end_label: Some(self.ends@[self.finishing_end(id)].label@),
                },
            )
        } else if exists|link: int| #[trigger] self.applies(link, id) {
            let first = choose|link: int| #[trigger] self.is_first(link, id);
            Some(
                SegmentView {
                    node_id: id,
                    length: self.link_length(first, id) as nat,
                    links: self.offered_links(id).map_values(
                        |link: usize| (link, self.links@[link as int].after(id.course_head)),
                    ),
                    start_label,
                    end_label: None,
                },
            )
        } else {
            None
        }
    }

    /// Whether the segment with a given id can be looked up: its block exists, the distances to
    /// the links that apply to it and to the ends in its course can be measured, the links that are
    /// offered transpose course heads of its stage, and if it is a start then it is one of this
    /// layout.
    pub open spec fn can_look_up(&self, id: NodeIdView) -> bool {
        &&& id.row_idx.block < self.blocks@.len()
        &&& forall|link: int| #[trigger]
            self.applies(link, id) ==> {
                let block_len = self.blocks@[id.row_idx.block as int]@.len();
                &&& block_len > 0
                &&& id.row_idx.row <= self.links@[link].from.row + block_len <= usize::MAX
            }
        &&& forall|end: int|
            0 <= end < self.ends@.len() && (#[trigger] self.ends@[end]).is_in_course_of(id) ==> {
                let block_len = self.blocks@[id.row_idx.block as int]@.len();
                &&& block_len > 0
                &&& id.row_idx.row <= self.ends@[end].row_idx.row + block_len <= usize::MAX
            }
        &&& forall|link: int| #[trigger]
            self.is_offered(link, id) && !self.comes_round(id)
                ==> self.links@[link].course_head_transposition@.len() == id.course_head.len()
        &&& id.is_start ==> exists|start: int|
            0 <= start < self.starts@.len() && #[trigger] self.starts@[start].is_at(id)
    }

    /// The last row of a range that is not empty.
    pub open spec fn last_row(&self, row_range: RowRange) -> RowIdx {
        RowIdx {
            block: row_range.start.block,
            row: ((row_range.start.row + row_range.length - 1) % (
            self.blocks@[row_range.start.block as int]@.len() as int)) as usize,
        }
    }

    /// The bells of `length` rows of a block, from a given row on.  After its last row the block
    /// goes on with its first row.
    pub open spec fn rows_in(&self, start: RowIdx, length: nat) -> Seq<Seq<usize>> {
        let rows = self.blocks@[start.block as int]@;
        if rows.len() == 0 {
            Seq::empty()
        } else {
            Seq::new(length, |i: int| rows[(start.row + i) % (rows.len() as int)])
        }
    }
}

/// The first of the given points that is the first row of a segment.
pub open spec fn first_at(points: Seq<StartOrEnd>, id: NodeIdView) -> int {
    choose|i: int|
        0 <= i < points.len() && #[trigger] points[i].is_at(id) && forall|j: int|
            0 <= j < i ==> !#[trigger] points[j].is_at(id)
}

/// Looks for the first of the given points that is the first row of a segment.
fn find_at(points: &Vec<StartOrEnd>, id: &NodeId) -> (result: Option<usize>)
    ensures
        match result {
            Some(i) => {
                &&& i < points@.len()
                &&& points@[i as int].is_at(id@)
                &&& i == first_at(points@, id@)
            },
            None => forall|i: int| 0 <= i < points@.len() ==> !#[trigger] points@[i].is_at(id@),
        },
{
    let (course_head, row_idx) = id.ch_and_row_idx();
    let mut i: usize = 0;
    while i < points.len()
        invariant
            i <= points@.len(),
            course_head@ == id@.course_head,
            row_idx == id@.row_idx,
            forall|j: int| 0 <= j < i ==> !#[trigger] points@[j].is_at(id@),
        decreases points@.len() - i,
    {
        let (other_course_head, other_row_idx) = points[i].ch_and_row_idx();
        if other_row_idx == row_idx && other_course_head.same_as(course_head) {
            assert(points@[i as int].is_at(id@));
            return Some(i);
        }
        i = i + 1;
    }
    None
}

/// Counts the rows from one row of a repeating block to the next occurrence of another.
fn count_rows_between(from: usize, to: usize, len: usize) -> (rows: usize)
    requires
        len > 0,
        from <= to + len <= usize::MAX,
    ensures
        rows == rows_between(from as int, to as int, len as int),
        rows < len,
{
    (to + len - from) % len
}

/// Among the first links that can finish a segment, any link has the same effect as one that is
/// offered and that is not listed after it.
pub(crate) proof fn lemma_offered_instead(
    layout: &Layout,
    link: int,
    id: NodeIdView,
) -> (offered: int)
    requires
        layout.is_first(link, id),
    ensures
        0 <= offered <= link,
        layout.is_offered(offered, id),
        layout.links@[offered].same_effect(&layout.links@[link]),
    decreases link,
{
    if layout.is_offered(link, id) {
        link
    } else {
        let other = choose|other: int|
            0 <= other < link && #[trigger] layout.is_first(other, id)
                && layout.links@[other].same_effect(&layout.links@[link]);
        lemma_offered_instead(layout, other, id)
    }
}

/// At most one end finishes a segment.
pub(crate) proof fn lemma_finishing_end(layout: &Layout, end: int, id: NodeIdView)
    requires
        layout.is_finished_by(end, id),
    ensures
        layout.comes_round(id),
        layout.finishing_end(id) == end,
{
    let other = layout.finishing_end(id);
    assert(layout.is_finished_by(other, id));
    assert(layout.can_end(end, id) && layout.can_end(other, id));
}

impl Layout {
    /// The length of the shortest segment that a link can finish.
    fn shortest_length(&self, id: &NodeId) -> (shortest: Option<usize>)
        requires
            self.can_look_up(id@),
        ensures
            match shortest {
                Some(shortest) => {
                    &&& exists|link: int| #[trigger]
                        self.is_first(link, id@) && self.link_length(link, id@) == shortest
                    &&& forall|link: int| #[trigger]
                        self.applies(link, id@) ==> shortest <= self.link_length(link, id@)
                },
                None => forall|link: int| !#[trigger] self.applies(link, id@),
            },
    {
        let block_len: usize = self.blocks[id.row_idx.block].len();
        let mut shortest: Option<usize> = None;
        let ghost mut best: int = 0;
        let mut i: usize = 0;
        while i < self.links.len()
            invariant
                i <= self.links@.len(),
                self.can_look_up(id@),
                block_len == self.blocks@[id@.row_idx.block as int]@.len(),
                match shortest {
                    Some(shortest) => {
                        &&& 0 <= best < i
                        &&& self.applies(best, id@)
                        &&& self.link_length(best, id@) == shortest
                        &&& forall|link: int|
                            link < i && #[trigger] self.applies(link, id@) ==> shortest
                                <= self.link_length(link, id@)
                    },
                    None => forall|link: int| link < i ==> !#[trigger] self.applies(link, id@),
                },
            decreases self.links@.len() - i,
        {
            let link = &self.links[i];
            if link.from.block == id.row_idx.block && link.course_head_mask.matches(
                &id.course_head,
            ) {
                assert(self.applies(i as int, id@));
                let rows: usize = count_rows_between(id.row_idx.row, link.from.row, block_len);
                let length: usize = if rows == 0 {
                    block_len
                } else {
                    rows
                };
                assert(length == self.link_length(i as int, id@));
                let improves: bool = match shortest {
                    Some(shortest) => length < shortest,
                    None => true,
                };
                if improves {
                    shortest = Some(length);
                    proof {
                        best = i as int;
                    }
                }
            } else {
                assert(!self.applies(i as int, id@));
            }
            i = i + 1;
        }
        proof {
            if shortest is Some {
                assert(self.is_first(best, id@));
            }
        }
        shortest
    }

    /// The links that are offered at the end of a segment.
    fn find_offered_links(&self, id: &NodeId, shortest: usize) -> (offered: Vec<LinkIdx>)
        requires
            self.can_look_up(id@),
            exists|link: int| #[trigger]
                self.is_first(link, id@) && self.link_length(link, id@) == shortest,
        ensures
            offered@ == self.offered_links(id@),
    {
        let block_len: usize = self.blocks[id.row_idx.block].len();
        let ghost all = Seq::new(self.links@.len(), |i: int| i as usize);
        let ghost pred = |link: usize| self.is_offered(link as int, id@);
        let mut offered: Vec<LinkIdx> = Vec::new();
        let mut i: usize = 0;
        proof {
            assert(all.take(0).filter(pred) =~= Seq::<usize>::empty()) by {
                reveal(Seq::filter);
            }
        }
        while i < self.links.len()
            invariant
                i <= self.links@.len(),
                self.can_look_up(id@),
                block_len == self.blocks@[id@.row_idx.block as int]@.len(),
                exists|link: int| #[trigger]
                    self.is_first(link, id@) && self.link_length(link, id@) == shortest,
                all == Seq::new(self.links@.len(), |i: int| i as usize),
                pred == (|link: usize| self.is_offered(link as int, id@)),
                offered@ == all.take(i as int).filter(pred),
            decreases self.links@.len() - i,
        {
            proof {
                assert(all.take(i + 1) =~= all.take(i as int).push(i));
                all.take(i as int).lemma_filter_push(i, pred);
                lemma_filtered_prefix(self.links@.len(), i as int, pred);
                assert forall|j: int|
                    0 <= j < i && #[trigger] self.is_offered(j, id@) implies offered@.contains(
                    j as usize,
                ) by {
                    assert(pred(j as usize));
                }
            }
            let link = &self.links[i];
            let mut keep: bool = false;
            if link.from.block == id.row_idx.block && link.course_head_mask.matches(
                &id.course_head,
            ) {
                assert(self.applies(i as int, id@));
                let rows: usize = count_rows_between(id.row_idx.row, link.from.row, block_len);
                let length: usize = if rows == 0 {
                    block_len
                } else {
                    rows
                };
                assert(length == self.link_length(i as int, id@));
                keep = length == shortest;
                assert(keep <==> self.is_first(i as int, id@));
            } else {
                assert(!self.applies(i as int, id@));
            }
            if keep {
                let mut k: usize = 0;
                while k < offered.len()
                    invariant
                        k <= offered@.len(),
                        i < self.links@.len(),
                        link == &self.links@[i as int],
                        self.is_first(i as int, id@),
                        forall|j: int|
                            0 <= j < offered@.len() ==> #[trigger] offered@[j] < i
                                && self.is_offered(offered@[j] as int, id@),
                        forall|j: int|
                            0 <= j < i && #[trigger] self.is_offered(j, id@) ==> offered@.contains(
                                j as usize,
                            ),
                        keep ==> forall|j: int|
                            0 <= j < k ==> !self.links@[#[trigger] offered@[j] as int].same_effect(
                                &self.links@[i as int],
                            ),
                        !keep ==> !self.is_offered(i as int, id@),
                    decreases offered@.len() - k,
                {
                    if self.links[offered[k]].eq_without_name_or_ch_mask(link) {
                        assert(self.is_first(offered@[k as int] as int, id@));
                        keep = false;
                    }
                    k = k + 1;
                }
                proof {
                    if keep && !self.is_offered(i as int, id@) {
                        let other = choose|other: int|
                            0 <= other < i && #[trigger] self.is_first(other, id@)
                                && self.links@[other].same_effect(&self.links@[i as int]);
                        let instead = lemma_offered_instead(self, other, id@);
                        let j = offered@.index_of(instead as usize);
                        assert(self.links@[offered@[j] as int].same_effect(
                            &self.links@[i as int],
                        ));
                    }
                }
            }
            if keep {
                offered.push(i);
            }
            i = i + 1;
        }
        assert(all.take(i as int) =~= all);
        offered
    }

    /// The nearest end that can finish a segment.
    fn nearest_end(&self, id: &NodeId) -> (nearest: Option<(usize, usize)>)
        requires
            self.can_look_up(id@),
        ensures
            match nearest {
                Some((end, length)) => {
                    &&& self.is_nearest_end(end as int, id@)
                    &&& length == self.end_length(end as int, id@)
                },
                None => forall|end: int| !#[trigger] self.can_end(end, id@),
            },
    {
        let block_len: usize = self.blocks[id.row_idx.block].len();
        let mut nearest: Option<(usize, usize)> = None;
        let mut i: usize = 0;
        while i < self.ends.len()
            invariant
                i <= self.ends@.len(),
                self.can_look_up(id@),
                block_len == self.blocks@[id@.row_idx.block as int]@.len(),
                match nearest {
                    Some((end, length)) => {
                        &&& end < i
                        &&& self.can_end(end as int, id@)
                        &&& length == self.end_length(end as int, id@)
                        &&& forall|other: int|
                            other < i && #[trigger] self.can_end(other, id@) ==> {
                                ||| length < self.end_length(other, id@)
                                ||| length == self.end_length(other, id@) && end <= other
                            }
                    },
                    None => forall|end: int| end < i ==> !#[trigger] self.can_end(end, id@),
                },
            decreases self.ends@.len() - i,
        {
            let end = &self.ends[i];
            let (course_head, row_idx) = end.ch_and_row_idx();
            if row_idx.block == id.row_idx.block && course_head.same_as(&id.course_head) {
                assert(self.ends@[i as int].is_in_course_of(id@));
                let length: usize = count_rows_between(id.row_idx.row, row_idx.row, block_len);
                assert(length == self.end_length(i as int, id@));
                // A segment which both starts and ends a composition has to have rows
                let is_allowed: bool = length > 0 || !id.is_start;
                assert(is_allowed == self.can_end(i as int, id@));
                let improves: bool = match nearest {
                    Some((_, shortest)) => length < shortest,
                    None => true,
                };
                if is_allowed && improves {
                    nearest = Some((i, length));
                }
            } else {
                assert(!self.can_end(i as int, id@));
            }
            i = i + 1;
        }
        nearest
    }

    /// The end that finishes a segment, if the composition comes round within it.
    pub(crate) fn find_finishing_end(&self, id: &NodeId) -> (found: Option<(usize, usize)>)
        requires
            self.can_look_up(id@),
        ensures
            match found {
                Some((end, length)) => {
                    &&& self.comes_round(id@)
                    &&& self.is_finished_by(end as int, id@)
                    &&& end == self.finishing_end(id@)
                    &&& length == self.end_length(end as int, id@)
                },
                None => !self.comes_round(id@),
            },
    {
        let (end, length) = match self.nearest_end(id) {
            Some(nearest) => nearest,
            None => {
                return None;
            },
        };
        let comes_first: bool = match self.shortest_length(id) {
            // If the composition could come round where a link can be taken, then the link is taken
            Some(shortest) => length < shortest,
            None => true,
        };
        proof {
            if comes_first {
                assert(self.is_finished_by(end as int, id@));
                lemma_finishing_end(self, end as int, id@);
            } else if self.comes_round(id@) {
                let other = self.finishing_end(id@);
                assert(self.is_finished_by(other, id@));
                assert(self.can_end(end as int, id@) && self.can_end(other, id@));
                let link = choose|link: int| #[trigger] self.is_first(link, id@);
                assert(self.applies(link, id@));
            }
        }
        if comes_first {
            Some((end, length))
        } else {
            None
        }
    }

    /// The segment that starts at a given id.  If it would never terminate, because no link can be
    /// applied to it and no end can finish it, then `None` is returned.
    pub fn get_segment(&self, id: &NodeId) -> (segment: Option<Segment>)
        requires
            self.can_look_up(id@),
        ensures
            match segment {
                Some(segment) => self.segment(id@) == Some(segment@),
                None => self.segment(id@) is None,
            },
    {
        let start_label: Option<String> = if id.is_start {
            match find_at(&self.starts, id) {
                Some(start) => Some(self.starts[start].label.clone()),
                None => None,
            }
        } else {
            None
        };
        if let Some((end, length)) = self.find_finishing_end(id) {
            let segment = Segment {
                node_id: id.clone(),
                length,
                links: Vec::new(),
                start_label,
                end_label: Some(self.ends[end].label.clone()),
            };
            assert(segment@.links =~= Seq::empty());
            return Some(segment);
        }
        match self.shortest_length(id) {
            None => None,
            Some(length) => {
                let offered = self.find_offered_links(id, length);
                let mut links: Vec<(LinkIdx, NodeId)> = Vec::new();
                let num_links: usize = self.links.len();
                let mut i: usize = 0;
                while i < offered.len()
                    invariant
                        i <= offered@.len(),
                        offered@ == self.offered_links(id@),
                        num_links == self.links@.len(),
                        self.can_look_up(id@),
                        !self.comes_round(id@),
                        links@.len() == i,
                        forall|j: int|
                            0 <= j < i ==> (#[trigger] links@[j]).0 == offered@[j] && links@[j].1@
                                == self.links@[offered@[j] as int].after(id@.course_head),
                    decreases offered@.len() - i,
                {
                    proof {
                        lemma_filtered_prefix(
                            self.links@.len(),
                            self.links@.len() as int,
                            |link: usize| self.is_offered(link as int, id@),
                        );
                        let all = Seq::new(self.links@.len(), |i: int| i as usize);
                        assert(all.take(self.links@.len() as int) =~= all);
                        assert(self.is_offered(offered@[i as int] as int, id@));
                    }
                    let link: LinkIdx = offered[i];
                    links.push((link, self.links[link].id_after(&id.course_head)));
                    i = i + 1;
                }
                let segment = Segment {
                    node_id: id.clone(),
                    length,
                    links,
                    start_label,
                    end_label: None,
                };
                proof {
                    let first = choose|link: int| #[trigger] self.is_first(link, id@);
                    assert(self.applies(first, id@));
                    assert(self.link_length(first, id@) == length);
                    assert(segment@.links =~= self.offered_links(id@).map_values(
                        |link: usize| (link, self.links@[link as int].after(id@.course_head)),
                    ));
                }
                Some(segment)
            },
        }
    }

    /// The index of the last row within a range, or `None` if the range is empty.
    pub fn last_row_idx(&self, row_range: RowRange) -> (idx: Option<RowIdx>)
        requires
            row_range.length > 0 ==> {
                &&& row_range.start.block < self.blocks@.len()
                &&& self.blocks@[row_range.start.block as int]@.len() > 0
                &&& row_range.start.row + row_range.length <= usize::MAX
            },
        ensures
            idx == if row_range.length > 0 {
                Some(self.last_row(row_range))
            } else {
                None
            },
            row_range.length == 0 ==> idx is None,
            row_range.length > 0 ==> (idx matches Some(idx) && idx.block == row_range.start.block
                && idx.row == (row_range.start.row + row_range.length - 1) % (
            self.blocks@[row_range.start.block as int].rows@.len() as int)),
    {
        if row_range.length > 0 {
            let block_len: usize = self.blocks[row_range.start.block].len();
            Some(
                RowIdx::new(
                    row_range.start.block,
                    (row_range.start.row + row_range.length - 1) % block_len,
                ),
            )
        } else {
            None
        }
    }

    /// The rows covered by a given range.
    pub fn untransposed_rows(&self, row_idx: RowIdx, length: usize) -> (rows: Vec<&Row>)
        requires
            row_idx.block < self.blocks@.len(),
        ensures
            rows@.map_values(|row: &Row| row@) == self.rows_in(row_idx, length as nat),            ({
                let block = self.blocks@[row_idx.block as int].rows@;
                &&& block.len() == 0 ==> rows@.len() == 0
                &&& block.len() > 0 ==> {
                    &&& rows@.len() == length
                    &&& forall|i: int|
                        0 <= i < rows@.len() ==> (#[trigger] rows@[i])@ == block[(row_idx.row + i) % (
                        block.len() as int)]@
                }
            }),
    {
        let block = &self.blocks[row_idx.block];
        let block_len: usize = block.len();
        let mut rows: Vec<&Row> = Vec::new();
        if block_len == 0 {
            assert(rows@.map_values(|row: &Row| row@) =~= Seq::empty());
            return rows;
        }
        let mut position: usize = row_idx.row % block_len;
        let ghost all = block@;
        while rows.len() < length
            invariant
                block_len > 0,
                block_len == all.len(),
                all == block@,
                rows@.len() <= length,
                position == (row_idx.row + rows@.len()) % (block_len as int),
                forall|i: int|
                    0 <= i < rows@.len() ==> (#[trigger] rows@[i])@ == all[(row_idx.row + i) % (
                    block_len as int)],
            decreases length - rows@.len(),
        {
            rows.push(&block.rows[position]);
            proof {
                lemma_next_mod(row_idx.row + rows@.len() - 1, block_len as int);
            }
            position = if position + 1 == block_len {
                0
            } else {
                position + 1
            };
        }
        assert(rows@.map_values(|row: &Row| row@) =~= self.rows_in(row_idx, length as nat));
        proof {
            let listed = block.rows@;
            assert forall|i: int| 0 <= i < rows@.len() implies (#[trigger] rows@[i])@ == listed[(
            row_idx.row + i) % (listed.len() as int)]@ by {
                vstd::arithmetic::div_mod::lemma_mod_bound(row_idx.row + i, block_len as int);
            }
        }
        rows
    }
}

/// Counting on by one in a cycle.
proof fn lemma_next_mod(a: int, n: int)
    requires
        0 <= a,
        0 < n,
    ensures
        (a + 1) % n == if a % n + 1 == n {
            0
        } else {
            a % n + 1
        },
{
    vstd::arithmetic::div_mod::lemma_fundamental_div_mod(a, n);
    vstd::arithmetic::div_mod::lemma_mod_bound(a, n);
    let q = a / n;
    if a % n + 1 == n {
        assert(a + 1 == (q + 1) * n + 0) by (nonlinear_arith)
            requires
                a == n * q + a % n,
                a % n + 1 == n,
        ;
        vstd::arithmetic::div_mod::lemma_fundamental_div_mod_converse(a + 1, n, q + 1, 0);
    } else {
        assert(a + 1 == q * n + (a % n + 1)) by (nonlinear_arith)
            requires
                a == n * q + a % n,
        ;
        vstd::arithmetic::div_mod::lemma_fundamental_div_mod_converse(a + 1, n, q, a % n + 1);
    }
}

/// Filtering the numbers below `n` keeps, of those below `upto`, exactly the ones that satisfy the
/// predicate.
pub(crate) proof fn lemma_filtered_prefix(n: nat, upto: int, pred: spec_fn(usize) -> bool)
    requires
        0 <= upto <= n <= usize::MAX,
    ensures
        ({
            let kept = Seq::new(n, |i: int| i as usize).take(upto).filter(pred);
            &&& forall|j: int|
                0 <= j < kept.len() ==> #[trigger] kept[j] < upto && pred(kept[j])
            &&& forall|j: int| 0 <= j < upto && #[trigger] pred(j as usize) ==> kept.contains(
                j as usize,
            )
        }),
{
    let all = Seq::new(n, |i: int| i as usize).take(upto);
    let kept = all.filter(pred);
    assert forall|j: int| 0 <= j < kept.len() implies #[trigger] kept[j] < upto && pred(
        kept[j],
    ) by {
        all.lemma_filter_pred(pred, j);
        all.lemma_filter_contains_rev(pred, kept[j]);
    }
    assert forall|j: int| 0 <= j < upto && #[trigger] pred(j as usize) implies kept.contains(
        j as usize,
    ) by {
        assert(all[j] == j as usize);
        all.lemma_filter_contains(pred, j);
    }
}

/// An id is displayed as its course head, its block and its row, and whether it is a start.
pub proof fn law_node_id_text_shows_all(id: NodeIdView)
    ensures
        node_id_text(id) == row_text(id.course_head) + ","@ + decimal(id.row_idx.block as nat) + ":"@
            + decimal(id.row_idx.row as nat) + (if id.is_start {
            ",is_start"@
        } else {
            ""@
        }),
{
}

/// What a segment stands for has the segment's own fields.
pub proof fn law_segment_stands_for_its_fields(segment: Segment)
    ensures
        segment@.node_id.course_head == segment.node_id.course_head@,
        segment@.node_id.row_idx == segment.node_id.row_idx,
        segment@.node_id.is_start == segment.node_id.is_start,
        segment@.length == segment.length,
        segment@.links.len() == segment.links@.len(),
        forall|i: int|
            0 <= i < segment.links@.len() ==> {
                &&& (#[trigger] segment@.links[i]).0 == segment.links@[i].0
                &&& segment@.links[i].1.course_head == segment.links@[i].1.course_head@
                &&& segment@.links[i].1.row_idx == segment.links@[i].1.row_idx
                &&& segment@.links[i].1.is_start == segment.links@[i].1.is_start
            },
        segment@.start_label is Some <==> segment.start_label is Some,
        segment.start_label matches Some(label) ==> segment@.start_label == Some(label@),
        segment@.end_label is Some <==> segment.end_label is Some,
        segment.end_label matches Some(label) ==> segment@.end_label == Some(label@),
{
}

} // verus!
