//! What holds of the segments of every layout.

#[allow(unused_imports)]
use vstd::arithmetic::div_mod::lemma_add_mod_noop;
use vstd::prelude::*;

#[allow(unused_imports)]
use crate::layout::{
    first_at, lemma_filtered_prefix, lemma_finishing_end, lemma_offered_instead, rows_between,
    Layout, Link, NodeIdView, RowRange, StartOrEnd,
};
#[allow(unused_imports)]
use crate::select::{lemma_filter_ascends, lemma_filter_keeps_distinct};

verus! {

/// A segment goes on for ever exactly if no link can be applied to it and no end can finish it.
pub proof fn law_segment_terminates(layout: &Layout, id: NodeIdView)
    requires
        layout.can_look_up(id),
    ensures
        layout.segment(id) is None <==> (forall|end: int| !#[trigger] layout.can_end(end, id))
            && (forall|link: int| !#[trigger] layout.applies(link, id)),
{
    if exists|end: int| #[trigger] layout.can_end(end, id) {
        let end = choose|end: int| #[trigger] layout.can_end(end, id);
        lemma_end_length(layout, end, id);
        let nearest = lemma_some_nearest_end(
            layout,
            id,
            end,
            layout.end_length(end, id) as nat,
            end as nat,
        );
        if forall|link: int| !#[trigger] layout.applies(link, id) {
            assert(layout.is_finished_by(nearest, id));
        }
    }
    if layout.comes_round(id) {
        assert(layout.is_finished_by(layout.finishing_end(id), id));
        assert(layout.can_end(layout.finishing_end(id), id));
    }
}

/// A segment starts a composition exactly if its id says so.  It does not end one at its first row
/// then: a composition without any rows is not allowed.
pub proof fn law_start_segments(layout: &Layout, id: NodeIdView)
    requires
        layout.can_look_up(id),
        layout.segment(id) is Some,
    ensures
        layout.segment(id)->Some_0.node_id == id,
        layout.segment(id)->Some_0.start_label is Some <==> id.is_start,
        id.is_start ==> layout.segment(id)->Some_0.length > 0,
{
    if layout.comes_round(id) {
        assert(layout.is_finished_by(layout.finishing_end(id), id));
        assert(layout.can_end(layout.finishing_end(id), id));
    } else {
        law_other_segments_go_on(layout, id);
    }
}

/// No link leads to a segment that starts a composition.
pub proof fn law_links_lead_to_no_start(layout: &Layout, id: NodeIdView, i: int)
    requires
        layout.segment(id) is Some,
        0 <= i < layout.segment(id)->Some_0.links.len(),
    ensures
        !layout.segment(id)->Some_0.links[i].1.is_start,
{
}

/// A segment ends the composition exactly if an end finishes it.  It then has no links, and it is
/// shorter than if any link finished it.
pub proof fn law_end_segments(layout: &Layout, id: NodeIdView)
    requires
        layout.can_look_up(id),
        layout.segment(id) is Some,
    ensures
        layout.segment(id)->Some_0.end_label is Some <==> layout.comes_round(id),
        layout.comes_round(id) ==> layout.segment(id)->Some_0.links.len() == 0,
        forall|link: int| #[trigger]
            layout.applies(link, id) && layout.comes_round(id) ==> layout.segment(
                id,
            )->Some_0.length < layout.link_length(link, id),
{
    if layout.comes_round(id) {
        let end = layout.finishing_end(id);
        assert(layout.is_finished_by(end, id));
        lemma_end_length(layout, end, id);
    }
}

/// Where the composition can be finished before any link can be taken, it is: the nearest end, or
/// the first listed of the nearest ones, finishes the segment at its own row and under its own
/// label.
pub proof fn law_nearest_end_finishes(layout: &Layout, end: int, id: NodeIdView)
    requires
        layout.can_look_up(id),
        layout.can_end(end, id),
        forall|other: int| #[trigger]
            layout.can_end(other, id) ==> {
                ||| layout.end_length(end, id) < layout.end_length(other, id)
                ||| layout.end_length(end, id) == layout.end_length(other, id) && end <= other
            },
        forall|link: int| #[trigger]
            layout.applies(link, id) ==> layout.end_length(end, id) < layout.link_length(link, id),
    ensures
        layout.segment(id) is Some,
        layout.segment(id)->Some_0.length == layout.end_length(end, id),
        layout.segment(id)->Some_0.end_label == Some(layout.ends@[end].label@),
        layout.segment(id)->Some_0.links.len() == 0,
{
    assert(layout.is_finished_by(end, id));
    lemma_finishing_end(layout, end, id);
    lemma_end_length(layout, end, id);
}

/// A segment with an end at its first row comes round at once, unless it is a start.
pub proof fn law_comes_round_at_once(layout: &Layout, end: int, id: NodeIdView)
    requires
        layout.can_look_up(id),
        !id.is_start,
        0 <= end < layout.ends@.len(),
        layout.ends@[end].is_at(id),
    ensures
        layout.segment(id) is Some,
        layout.segment(id)->Some_0.length == 0,
        layout.segment(id)->Some_0.end_label is Some,
        layout.segment(id)->Some_0.links.len() == 0,
{
    assert(layout.can_end(end, id));
    lemma_end_length(layout, end, id);
    let len = layout.blocks@[id.row_idx.block as int]@.len() as int;
    assert(len % len == 0) by (nonlinear_arith)
        requires
            len > 0,
    ;
    assert(layout.end_length(end, id) == 0);
    let nearest = lemma_some_nearest_end(layout, id, end, 0, end as nat);
    lemma_end_length(layout, nearest, id);
    assert forall|link: int| #[trigger] layout.applies(link, id) implies layout.end_length(
        nearest,
        id,
    ) < layout.link_length(link, id) by {
        lemma_link_length(layout, link, id);
    }
    law_nearest_end_finishes(layout, nearest, id);
}

/// Where a link can be taken before or when the composition could be finished, the link is taken.
pub proof fn law_links_take_precedence(layout: &Layout, link: int, id: NodeIdView)
    requires
        layout.applies(link, id),
        forall|end: int| #[trigger]
            layout.can_end(end, id) ==> layout.link_length(link, id) <= layout.end_length(end, id),
    ensures
        layout.segment(id) is Some,
        layout.segment(id)->Some_0.end_label is None,
{
    if layout.comes_round(id) {
        let end = layout.finishing_end(id);
        assert(layout.is_finished_by(end, id));
        assert(layout.can_end(end, id));
    }
}

/// An end finishes a segment before the whole block has been rung.
proof fn lemma_end_length(layout: &Layout, end: int, id: NodeIdView)
    requires
        layout.can_look_up(id),
        layout.can_end(end, id),
    ensures
        layout.blocks@[id.row_idx.block as int]@.len() > 0,
        0 <= layout.end_length(end, id) < layout.blocks@[id.row_idx.block as int]@.len(),
{
    assert(layout.ends@[end].is_in_course_of(id));
    let len = layout.blocks@[id.row_idx.block as int]@.len() as int;
    let x = layout.ends@[end].row_idx.row + len - id.row_idx.row;
    assert(0 <= x % len < len) by (nonlinear_arith)
        requires
            len > 0,
    ;
}

/// Some end is the nearest that can finish a segment, if any can.
proof fn lemma_some_nearest_end(
    layout: &Layout,
    id: NodeIdView,
    end: int,
    length: nat,
    position: nat,
) -> (nearest: int)
    requires
        layout.can_look_up(id),
        layout.can_end(end, id),
        layout.end_length(end, id) == length,
        end == position,
    ensures
        layout.is_nearest_end(nearest, id),
    decreases length, position,
{
    if layout.is_nearest_end(end, id) {
        end
    } else {
        let other = choose|other: int| #[trigger]
            layout.can_end(other, id) && !{
                ||| layout.end_length(end, id) < layout.end_length(other, id)
                ||| layout.end_length(end, id) == layout.end_length(other, id) && end <= other
            };
        lemma_end_length(layout, other, id);
        lemma_some_nearest_end(
            layout,
            id,
            other,
            layout.end_length(other, id) as nat,
            other as nat,
        )
    }
}

/// Some link is the first that can finish a segment, if any can.
proof fn lemma_some_first_link(layout: &Layout, id: NodeIdView, bound: nat) -> (first: int)
    requires
        layout.can_look_up(id),
        exists|link: int| #[trigger]
            layout.applies(link, id) && layout.link_length(link, id) <= bound,
    ensures
        layout.is_first(first, id),
    decreases bound,
{
    let link = choose|link: int| #[trigger]
        layout.applies(link, id) && layout.link_length(link, id) <= bound;
    if layout.is_first(link, id) {
        link
    } else {
        let other = choose|other: int| #[trigger]
            layout.applies(other, id) && layout.link_length(link, id) > layout.link_length(
                other,
                id,
            );
        lemma_link_length(layout, other, id);
        lemma_some_first_link(layout, id, layout.link_length(other, id) as nat)
    }
}

/// A link finishes a segment after at least one row, and at most once through its block.
proof fn lemma_link_length(layout: &Layout, link: int, id: NodeIdView)
    requires
        layout.can_look_up(id),
        layout.applies(link, id),
    ensures
        1 <= layout.link_length(link, id) <= layout.blocks@[id.row_idx.block as int]@.len(),
{
    let len = layout.blocks@[id.row_idx.block as int]@.len() as int;
    let x = layout.links@[link].from.row + len - id.row_idx.row;
    assert(0 <= x % len < len) by (nonlinear_arith)
        requires
            len > 0,
    ;
}

/// The links that are offered after a segment are those of `Layout::is_offered`.
proof fn lemma_offered(layout: &Layout, id: NodeIdView)
    ensures
        forall|i: int|
            0 <= i < layout.offered_links(id).len() ==> layout.is_offered(
                #[trigger] layout.offered_links(id)[i] as int,
                id,
            ),
        forall|link: int| #[trigger]
            layout.is_offered(link, id) ==> layout.offered_links(id).contains(link as usize),
{
    let num_links = layout.links@.len();
    assert(num_links == layout.links.len());
    let pred = |link: usize| layout.is_offered(link as int, id);
    lemma_filtered_prefix(num_links, num_links as int, pred);
    let all = Seq::new(num_links, |i: int| i as usize);
    assert(all.take(num_links as int) =~= all);
    assert forall|link: int| #[trigger]
        layout.is_offered(link, id) implies layout.offered_links(id).contains(link as usize) by {
        assert(pred(link as usize));
    }
}

/// A segment that does not end the composition has at least one row and at least one link, and is no
/// longer than its block.
pub proof fn law_other_segments_go_on(layout: &Layout, id: NodeIdView)
    requires
        layout.can_look_up(id),
        layout.segment(id) is Some,
        layout.segment(id)->Some_0.end_label is None,
    ensures
        1 <= layout.segment(id)->Some_0.length
            <= layout.blocks@[id.row_idx.block as int]@.len(),
        layout.segment(id)->Some_0.links.len() > 0,
{
    let link = choose|link: int| #[trigger] layout.applies(link, id);
    lemma_link_length(layout, link, id);
    let some_first = lemma_some_first_link(layout, id, layout.link_length(link, id) as nat);
    let first = choose|link: int| #[trigger] layout.is_first(link, id);
    lemma_link_length(layout, first, id);
    let offered = lemma_offered_instead(layout, first, id);
    lemma_offered(layout, id);
    assert(layout.offered_links(id).contains(offered as usize));
}

/// No two of the links that a segment offers have the same effect, and every link that is among the
/// first to finish the segment has the same effect as one that is offered.
pub proof fn law_offered_links_are_representatives(layout: &Layout, id: NodeIdView)
    requires
        layout.segment(id) is Some,
        layout.segment(id)->Some_0.end_label is None,
    ensures
        forall|i: int, j: int|
            0 <= i < j < layout.segment(id)->Some_0.links.len() ==> !layout.links@[(
            #[trigger] layout.segment(id)->Some_0.links[i]).0 as int].same_effect(
                &layout.links@[(#[trigger] layout.segment(id)->Some_0.links[j]).0 as int],
            ),
        forall|link: int| #[trigger]
            layout.is_first(link, id) ==> exists|i: int|
                0 <= i < layout.segment(id)->Some_0.links.len() && layout.links@[(
                #[trigger] layout.segment(id)->Some_0.links[i]).0 as int].same_effect(
                    &layout.links@[link],
                ),
{
    let links = layout.segment(id)->Some_0.links;
    let offered = layout.offered_links(id);
    lemma_offered(layout, id);
    lemma_offered_distinct(layout, id);
    assert forall|i: int| 0 <= i < links.len() implies (#[trigger] links[i]).0 == offered[i] by {}
    assert forall|i: int, j: int| 0 <= i < j < links.len() implies !layout.links@[(
    #[trigger] links[i]).0 as int].same_effect(
        &layout.links@[(#[trigger] links[j]).0 as int],
    ) by {
        let a = offered[i] as int;
        let b = offered[j] as int;
        assert(layout.is_offered(a, id) && layout.is_offered(b, id));
        assert(a != b);
        assert(layout.is_first(a, id) && layout.is_first(b, id));
        if a < b {
            assert(!layout.links@[a].same_effect(&layout.links@[b]));
        } else {
            assert(!layout.links@[b].same_effect(&layout.links@[a]));
        }
    }
    assert forall|link: int| #[trigger] layout.is_first(link, id) implies exists|i: int|
        0 <= i < links.len() && layout.links@[(#[trigger] links[i]).0 as int].same_effect(
            &layout.links@[link],
        ) by {
        let instead = lemma_offered_instead(layout, link, id);
        assert(layout.links@.len() == layout.links.len());
        assert(offered.contains(instead as usize));
        let i = offered.index_of(instead as usize);
        assert(links[i].0 == instead);
    }
}

/// No link is offered twice.
proof fn lemma_offered_distinct(layout: &Layout, id: NodeIdView)
    ensures
        layout.offered_links(id).no_duplicates(),
{
    let num_links = layout.links@.len();
    assert(num_links == layout.links.len());
    let all = Seq::new(num_links, |i: int| i as usize);
    lemma_filter_keeps_distinct(all, |link: usize| layout.is_offered(link as int, id));
}

/// The links of a segment start from the first row after it.
pub proof fn law_links_start_after_segment(layout: &Layout, id: NodeIdView, i: int)
    requires
        layout.can_look_up(id),
        layout.segment(id) is Some,
        layout.segment(id)->Some_0.end_label is None,
        0 <= i < layout.segment(id)->Some_0.links.len(),
        layout.links@[layout.segment(id)->Some_0.links[i].0 as int].from.row
            < layout.blocks@[id.row_idx.block as int]@.len(),
    ensures
        layout.links@[layout.segment(id)->Some_0.links[i].0 as int].from.block
            == id.row_idx.block,
        layout.links@[layout.segment(id)->Some_0.links[i].0 as int].from.row == (id.row_idx.row
            + layout.segment(id)->Some_0.length) % (
        layout.blocks@[id.row_idx.block as int]@.len() as int),
{
    let offered = layout.offered_links(id);
    let link = offered[i] as int;
    lemma_offered(layout, id);
    assert(layout.is_offered(link, id));
    assert(layout.segment(id)->Some_0.links[i].0 == link);
    let first = choose|link: int| #[trigger] layout.is_first(link, id);
    assert(layout.is_first(link, id));
    assert(layout.applies(first, id) && layout.applies(link, id));
    assert(layout.link_length(first, id) == layout.link_length(link, id));
    lemma_link_length(layout, link, id);
    let len = layout.blocks@[id.row_idx.block as int]@.len() as int;
    assert(len == layout.blocks@[id.row_idx.block as int].rows.len());
    let row = id.row_idx.row as int;
    let from = layout.links@[link].from.row as int;
    assert((row + rows_between(row, from, len)) % len == from) by {
        let x = from + len - row;
        lemma_add_mod_noop(row, x, len);
        lemma_add_mod_noop(row, x % len, len);
        vstd::arithmetic::div_mod::lemma_mod_twice(x, len);
        vstd::arithmetic::div_mod::lemma_mod_add_multiples_vanish(from, len);
        vstd::arithmetic::div_mod::lemma_small_mod(from as nat, len as nat);
        assert(row + x == len + from);
    }
    vstd::arithmetic::div_mod::lemma_mod_add_multiples_vanish(row, len);
}

/// The last row of a range of rows that is not empty is the one at `Layout::last_row`.
pub proof fn law_last_row_is_last(layout: &Layout, row_range: RowRange)
    requires
        row_range.length > 0,
        row_range.start.block < layout.blocks@.len(),
        layout.blocks@[row_range.start.block as int]@.len() > 0,
    ensures
        layout.rows_in(row_range.start, row_range.length as nat).last()
            == layout.blocks@[row_range.start.block as int]@[layout.last_row(
            row_range,
        ).row as int],
{
    let rows = layout.blocks@[row_range.start.block as int]@;
    assert(rows.len() == layout.blocks@[row_range.start.block as int].rows.len());
    let x = row_range.start.row + row_range.length - 1;
    assert(0 <= x % (rows.len() as int) < rows.len()) by (nonlinear_arith)
        requires
            rows.len() > 0,
    ;
}

/// Counting on from one row of a repeating block gets to another row after as many rows as there are
/// between them, and not before.
proof fn lemma_rows_between(from: int, to: int, len: int)
    requires
        len > 0,
    ensures
        0 <= rows_between(from, to, len) < len,
        (from + rows_between(from, to, len)) % len == to % len,
        forall|k: int|
            0 <= k < len && #[trigger] ((from + k) % len) == to % len ==> k == rows_between(
                from,
                to,
                len,
            ),
{
    let x = to + len - from;
    let rows = x % len;
    assert(0 <= rows < len) by (nonlinear_arith)
        requires
            len > 0,
            rows == x % len,
    ;
    lemma_add_mod_noop(from, x, len);
    lemma_add_mod_noop(from, rows, len);
    vstd::arithmetic::div_mod::lemma_mod_twice(x, len);
    vstd::arithmetic::div_mod::lemma_mod_add_multiples_vanish(to, len);
    assert(from + x == len + to);
    assert forall|k: int| 0 <= k < len && #[trigger] ((from + k) % len) == to % len implies k
        == rows by {
        vstd::arithmetic::div_mod::lemma_mod_equivalence(from + k, from + rows, len);
        vstd::arithmetic::div_mod::lemma_mod_equivalence(from + rows, from + k, len);
        if k >= rows {
            vstd::arithmetic::div_mod::lemma_small_mod((k - rows) as nat, len as nat);
        } else {
            vstd::arithmetic::div_mod::lemma_small_mod((rows - k) as nat, len as nat);
        }
    }
}

/// A link that applies finishes a segment where counting on from its first row first gets to the row
/// that the link starts from.
proof fn lemma_link_starts_after(layout: &Layout, link: int, id: NodeIdView)
    requires
        layout.can_look_up(id),
        layout.applies(link, id),
    ensures
        ({
            let len = layout.blocks@[id.row_idx.block as int].rows@.len() as int;
            let from = layout.links@[link].from.row as int;
            &&& len > 0
            &&& 1 <= layout.link_length(link, id) <= len
            &&& (id.row_idx.row + layout.link_length(link, id)) % len == from % len
            &&& forall|k: int|
                1 <= k <= len && #[trigger] ((id.row_idx.row + k) % len) == from % len ==> k
                    == layout.link_length(link, id)
        }),
{
    let len = layout.blocks@[id.row_idx.block as int].rows@.len() as int;
    let row = id.row_idx.row as int;
    let from = layout.links@[link].from.row as int;
    assert(layout.blocks@[id.row_idx.block as int]@.len() == len);
    lemma_rows_between(row, from, len);
    vstd::arithmetic::div_mod::lemma_mod_add_multiples_vanish(row, len);
    assert(len + row == row + len);
    assert forall|k: int| 1 <= k <= len && #[trigger] ((row + k) % len) == from % len implies k
        == layout.link_length(link, id) by {
        if k == len {
            assert((row + 0) % len == from % len);
        }
    }
}

/// An end in the course of a segment is as far along as counting on from its first row takes to get to
/// the row of the end.
proof fn lemma_end_is_after(layout: &Layout, end: int, id: NodeIdView)
    requires
        layout.can_look_up(id),
        0 <= end < layout.ends@.len(),
        layout.ends@[end].is_in_course_of(id),
    ensures
        ({
            let len = layout.blocks@[id.row_idx.block as int].rows@.len() as int;
            let to = layout.ends@[end].row_idx.row as int;
            &&& len > 0
            &&& 0 <= layout.end_length(end, id) < len
            &&& (id.row_idx.row + layout.end_length(end, id)) % len == to % len
            &&& forall|k: int|
                0 <= k < len && #[trigger] ((id.row_idx.row + k) % len) == to % len ==> k
                    == layout.end_length(end, id)
        }),
{
    let len = layout.blocks@[id.row_idx.block as int].rows@.len() as int;
    assert(layout.blocks@[id.row_idx.block as int]@.len() == len);
    lemma_rows_between(id.row_idx.row as int, layout.ends@[end].row_idx.row as int, len);
}

/// How a segment ends: with the first of the links, or with the nearest end.
proof fn lemma_segment_ends(layout: &Layout, id: NodeIdView) -> (by: int)
    requires
        layout.can_look_up(id),
        layout.segment(id) is Some,
    ensures
        layout.segment(id)->Some_0.end_label is Some ==> {
            &&& layout.is_finished_by(by, id)
            &&& layout.segment(id)->Some_0.length == layout.end_length(by, id)
            &&& layout.segment(id)->Some_0.end_label == Some(layout.ends@[by].label@)
            &&& layout.segment(id)->Some_0.links.len() == 0
        },
        layout.segment(id)->Some_0.end_label is None ==> {
            &&& !layout.comes_round(id)
            &&& layout.is_first(by, id)
            &&& layout.segment(id)->Some_0.length == layout.link_length(by, id)
        },
{
    if layout.comes_round(id) {
        let end = layout.finishing_end(id);
        assert(layout.is_finished_by(end, id));
        lemma_end_length(layout, end, id);
        end
    } else {
        let link = choose|link: int| #[trigger] layout.applies(link, id);
        lemma_link_length(layout, link, id);
        let some_first = lemma_some_first_link(layout, id, layout.link_length(link, id) as nat);
        let first = choose|link: int| #[trigger] layout.is_first(link, id);
        lemma_link_length(layout, first, id);
        first
    }
}

/// A link leads from a course to the row that the link names, in the course whose head is the course head
/// permuted by the link's transposition.  It leads to no start.
pub proof fn law_link_leads_to_its_row(link: Link, course_head: Seq<usize>)
    ensures
        link.after(course_head).row_idx.block == link.to.block,
        link.after(course_head).row_idx.row == link.to.row,
        !link.after(course_head).is_start,
        link.after(course_head).course_head.len() == link.course_head_transposition@.len(),
        forall|place: int|
            0 <= place < link.course_head_transposition@.len()
                ==> #[trigger] link.after(course_head).course_head[place]
                == course_head[link.course_head_transposition@[place] as int],
{
}

/// Every link of a segment is one of the layout's, starts from the segment's block and can be applied to
/// its course head.  The row that it starts from is the first row after the segment.  It leads to the row
/// that it names, in the course whose head is the segment's course head permuted by its transposition,
/// and to no start.
pub proof fn law_segment_links_follow_layout(layout: &Layout, id: NodeIdView, i: int)
    requires
        layout.can_look_up(id),
        layout.segment(id) is Some,
        0 <= i < layout.segment(id)->Some_0.links.len(),
    ensures
        ({
            let segment = layout.segment(id)->Some_0;
            let len = layout.blocks@[id.row_idx.block as int].rows@.len() as int;
            let (idx, next) = segment.links[i];
            let link = layout.links@[idx as int];
            &&& idx < layout.links@.len()
            &&& link.from.block == id.row_idx.block
            &&& link.course_head_mask.bells@.len() == id.course_head.len()
            &&& forall|place: int|
                0 <= place < id.course_head.len() && (
                #[trigger] link.course_head_mask.bells@[place]) is Some
                    ==> link.course_head_mask.bells@[place] == Some(id.course_head[place])
            &&& 1 <= segment.length <= len
            &&& (id.row_idx.row + segment.length) % len == link.from.row as int % len
            &&& next.row_idx.block == link.to.block
            &&& next.row_idx.row == link.to.row
            &&& !next.is_start
            &&& next.course_head.len() == id.course_head.len()
            &&& forall|place: int|
                0 <= place < id.course_head.len() ==> #[trigger] next.course_head[place]
                    == id.course_head[link.course_head_transposition@[place] as int]
        }),
{
    let segment = layout.segment(id)->Some_0;
    let first = lemma_segment_ends(layout, id);
    let offered = layout.offered_links(id);
    let link = offered[i] as int;
    lemma_offered(layout, id);
    assert(layout.is_offered(link, id));
    assert(segment.links[i] == (offered[i], layout.links@[link].after(id.course_head)));
    assert(layout.applies(first, id) && layout.applies(link, id));
    lemma_link_starts_after(layout, link, id);
    law_link_leads_to_its_row(layout.links@[link], id.course_head);
}

/// The links of a segment are in the order of the layout, and no two of them agree in the rows that they
/// start from and lead to and in their transposition.
pub proof fn law_segment_links_differ(layout: &Layout, id: NodeIdView, i: int, j: int)
    requires
        layout.segment(id) is Some,
        0 <= i < j < layout.segment(id)->Some_0.links.len(),
    ensures
        ({
            let a = layout.segment(id)->Some_0.links[i].0;
            let b = layout.segment(id)->Some_0.links[j].0;
            &&& a < b
            &&& {
                ||| layout.links@[a as int].from != layout.links@[b as int].from
                ||| layout.links@[a as int].to != layout.links@[b as int].to
                ||| layout.links@[a as int].course_head_transposition@
                    != layout.links@[b as int].course_head_transposition@
            }
        }),
{
    let offered = layout.offered_links(id);
    lemma_offered(layout, id);
    lemma_offered_ascends(layout, id);
    assert(layout.is_offered(offered[i] as int, id) && layout.is_offered(offered[j] as int, id));
    assert(layout.is_first(offered[i] as int, id));
}

/// The links that are offered are in the order of the layout.
proof fn lemma_offered_ascends(layout: &Layout, id: NodeIdView)
    ensures
        forall|i: int, j: int|
            0 <= i < j < layout.offered_links(id).len() ==> #[trigger] layout.offered_links(id)[i]
                < #[trigger] layout.offered_links(id)[j],
{
    let num_links = layout.links@.len();
    assert(num_links == layout.links.len());
    let all = Seq::new(num_links, |i: int| i as usize);
    lemma_filter_ascends(all, |link: usize| layout.is_offered(link as int, id));
}

/// Of the links that can be applied to a segment and that start from the first row after it, each agrees
/// with one that is offered and that the layout does not list later, in the rows that it starts from and
/// leads to and in its transposition.  This is the position of that link among those of the segment.
pub proof fn law_segment_offers_links(layout: &Layout, id: NodeIdView, link: int) -> (i: int)
    requires
        layout.can_look_up(id),
        layout.segment(id) is Some,
        layout.segment(id)->Some_0.end_label is None,
        0 <= link < layout.links@.len(),
        layout.links@[link].from.block == id.row_idx.block,
        layout.links@[link].course_head_mask.bells@.len() == id.course_head.len(),
        forall|place: int|
            0 <= place < id.course_head.len() && (
            #[trigger] layout.links@[link].course_head_mask.bells@[place]) is Some
                ==> layout.links@[link].course_head_mask.bells@[place] == Some(
                id.course_head[place],
            ),
        (id.row_idx.row + layout.segment(id)->Some_0.length) % (
        layout.blocks@[id.row_idx.block as int].rows@.len() as int)
            == layout.links@[link].from.row as int % (
        layout.blocks@[id.row_idx.block as int].rows@.len() as int),
    ensures
        ({
            let segment = layout.segment(id)->Some_0;
            &&& 0 <= i < segment.links.len()
            &&& segment.links[i].0 <= link
            &&& layout.links@[segment.links[i].0 as int].from == layout.links@[link].from
            &&& layout.links@[segment.links[i].0 as int].to == layout.links@[link].to
            &&& layout.links@[segment.links[i].0 as int].course_head_transposition@
                == layout.links@[link].course_head_transposition@
        }),
{
    let segment = layout.segment(id)->Some_0;
    let first = lemma_segment_ends(layout, id);
    assert(layout.applies(link, id));
    assert(layout.applies(first, id));
    lemma_link_starts_after(layout, link, id);
    lemma_link_starts_after(layout, first, id);
    assert(layout.link_length(link, id) == layout.link_length(first, id));
    assert(layout.is_first(link, id));
    let instead = lemma_offered_instead(layout, link, id);
    let offered = layout.offered_links(id);
    lemma_offered(layout, id);
    assert(layout.links@.len() == layout.links.len());
    let i = offered.index_of(instead as usize);
    assert(segment.links[i].0 == offered[i]);
    i
}

/// A segment passes over no link: none that can be applied to it starts from a row after its first and
/// before its end.  If the composition ends there, then none starts from the first row after it either.
pub proof fn law_segment_passes_no_link(layout: &Layout, id: NodeIdView, link: int, k: int)
    requires
        layout.can_look_up(id),
        layout.segment(id) is Some,
        0 <= link < layout.links@.len(),
        layout.links@[link].from.block == id.row_idx.block,
        layout.links@[link].course_head_mask.bells@.len() == id.course_head.len(),
        forall|place: int|
            0 <= place < id.course_head.len() && (
            #[trigger] layout.links@[link].course_head_mask.bells@[place]) is Some
                ==> layout.links@[link].course_head_mask.bells@[place] == Some(
                id.course_head[place],
            ),
        1 <= k,
        k < layout.segment(id)->Some_0.length || (k == layout.segment(id)->Some_0.length
            && layout.segment(id)->Some_0.end_label is Some),
    ensures
        (id.row_idx.row + k) % (layout.blocks@[id.row_idx.block as int].rows@.len() as int)
            != layout.links@[link].from.row as int % (
        layout.blocks@[id.row_idx.block as int].rows@.len() as int),
{
    let by = lemma_segment_ends(layout, id);
    let len = layout.blocks@[id.row_idx.block as int].rows@.len() as int;
    assert(layout.applies(link, id));
    lemma_link_starts_after(layout, link, id);
    if layout.segment(id)->Some_0.end_label is None {
        assert(layout.applies(by, id));
        lemma_link_starts_after(layout, by, id);
    }
    if (id.row_idx.row + k) % len == layout.links@[link].from.row as int % len {
        assert(k <= len);
        assert(k == layout.link_length(link, id));
    }
}

/// Where a segment ends the composition, it has no links, and the row after it is that of an end in its
/// course and its block, whose label it has.  This is that end: of those at that row, the first that is
/// listed.  The segment is shorter than its block, and it has rows if it is a start.
pub proof fn law_segment_finishes_at_end(layout: &Layout, id: NodeIdView) -> (end: int)
    requires
        layout.can_look_up(id),
        layout.segment(id) is Some,
        layout.segment(id)->Some_0.end_label is Some,
    ensures
        ({
            let segment = layout.segment(id)->Some_0;
            let len = layout.blocks@[id.row_idx.block as int].rows@.len() as int;
            &&& 0 <= end < layout.ends@.len()
            &&& layout.ends@[end].course_head@ == id.course_head
            &&& layout.ends@[end].row_idx.block == id.row_idx.block
            &&& 0 <= segment.length < len
            &&& id.is_start ==> segment.length > 0
            &&& (id.row_idx.row + segment.length) % len == layout.ends@[end].row_idx.row as int
                % len
            &&& segment.end_label == Some(layout.ends@[end].label@)
            &&& segment.links.len() == 0
            &&& forall|other: int|
                0 <= other < end && (#[trigger] layout.ends@[other]).course_head@ == id.course_head
                    && layout.ends@[other].row_idx.block == id.row_idx.block ==> (id.row_idx.row
                    + segment.length) % len != layout.ends@[other].row_idx.row as int % len
            &&& layout.finishing_end(id) == end
        }),
{
    let segment = layout.segment(id)->Some_0;
    let end = lemma_segment_ends(layout, id);
    let len = layout.blocks@[id.row_idx.block as int].rows@.len() as int;
    lemma_end_is_after(layout, end, id);
    lemma_finishing_end(layout, end, id);
    assert forall|other: int|
        0 <= other < end && (#[trigger] layout.ends@[other]).course_head@ == id.course_head
            && layout.ends@[other].row_idx.block == id.row_idx.block implies (id.row_idx.row
        + segment.length) % len != layout.ends@[other].row_idx.row as int % len by {
        lemma_end_is_after(layout, other, id);
        if (id.row_idx.row + segment.length) % len == layout.ends@[other].row_idx.row as int % len {
            assert(segment.length == layout.end_length(other, id));
            assert(layout.can_end(other, id));
        }
    }
    end
}

/// A segment passes over no end: none in its course and its block is at one of the segment's rows, but
/// for the first row of a start.
pub proof fn law_segment_passes_no_end(layout: &Layout, id: NodeIdView, end: int, k: int)
    requires
        layout.can_look_up(id),
        layout.segment(id) is Some,
        0 <= end < layout.ends@.len(),
        layout.ends@[end].course_head@ == id.course_head,
        layout.ends@[end].row_idx.block == id.row_idx.block,
        0 <= k < layout.segment(id)->Some_0.length,
        id.is_start ==> k > 0,
    ensures
        (id.row_idx.row + k) % (layout.blocks@[id.row_idx.block as int].rows@.len() as int)
            != layout.ends@[end].row_idx.row as int % (
        layout.blocks@[id.row_idx.block as int].rows@.len() as int),
{
    let by = lemma_segment_ends(layout, id);
    let len = layout.blocks@[id.row_idx.block as int].rows@.len() as int;
    lemma_end_is_after(layout, end, id);
    if (id.row_idx.row + k) % len == layout.ends@[end].row_idx.row as int % len {
        if layout.segment(id)->Some_0.end_label is Some {
            lemma_end_is_after(layout, by, id);
            assert(k == layout.end_length(end, id));
            assert(layout.can_end(end, id));
        } else {
            assert(layout.applies(by, id));
            lemma_link_starts_after(layout, by, id);
            assert(k == layout.end_length(end, id));
            assert(layout.can_end(end, id));
            let nearest = lemma_some_nearest_end(layout, id, end, k as nat, end as nat);
            assert(layout.can_end(nearest, id));
            assert forall|link: int| #[trigger] layout.applies(link, id) implies layout.end_length(
                nearest,
                id,
            ) < layout.link_length(link, id) by {}
            assert(layout.is_finished_by(nearest, id));
        }
    }
}

/// A segment to which a link can be applied comes to an end.
pub proof fn law_segment_with_link_ends(layout: &Layout, id: NodeIdView, link: int)
    requires
        layout.can_look_up(id),
        0 <= link < layout.links@.len(),
        layout.links@[link].from.block == id.row_idx.block,
        layout.links@[link].course_head_mask.bells@.len() == id.course_head.len(),
        forall|place: int|
            0 <= place < id.course_head.len() && (
            #[trigger] layout.links@[link].course_head_mask.bells@[place]) is Some
                ==> layout.links@[link].course_head_mask.bells@[place] == Some(
                id.course_head[place],
            ),
    ensures
        layout.segment(id) is Some,
{
    assert(layout.applies(link, id));
}

/// A segment with an end in its course and its block comes to an end, unless the end is where the
/// composition starts.
pub proof fn law_segment_with_end_ends(layout: &Layout, id: NodeIdView, end: int)
    requires
        layout.can_look_up(id),
        0 <= end < layout.ends@.len(),
        layout.ends@[end].course_head@ == id.course_head,
        layout.ends@[end].row_idx.block == id.row_idx.block,
        id.is_start ==> id.row_idx.row as int % (
        layout.blocks@[id.row_idx.block as int].rows@.len() as int)
            != layout.ends@[end].row_idx.row as int % (
        layout.blocks@[id.row_idx.block as int].rows@.len() as int),
    ensures
        layout.segment(id) is Some,
{
    lemma_end_is_after(layout, end, id);
    if layout.end_length(end, id) == 0 {
        assert((id.row_idx.row + 0) == id.row_idx.row);
    }
    assert(layout.can_end(end, id));
    law_segment_terminates(layout, id);
}

/// A segment that goes on for ever has no link that can be applied to it, and no end in its course and
/// its block but one where the composition starts.
pub proof fn law_endless_segment(layout: &Layout, id: NodeIdView)
    requires
        layout.can_look_up(id),
        layout.segment(id) is None,
    ensures
        forall|link: int|
            0 <= link < layout.links@.len() && (#[trigger] layout.links@[link]).from.block
                == id.row_idx.block && layout.links@[link].course_head_mask.bells@.len()
                == id.course_head.len() ==> exists|place: int|
                {
                    &&& 0 <= place < id.course_head.len()
                    &&& (#[trigger] layout.links@[link].course_head_mask.bells@[place]) is Some
                    &&& layout.links@[link].course_head_mask.bells@[place] != Some(
                        id.course_head[place],
                    )
                },
        forall|end: int|
            0 <= end < layout.ends@.len() && (#[trigger] layout.ends@[end]).course_head@
                == id.course_head && layout.ends@[end].row_idx.block == id.row_idx.block
                ==> id.is_start && id.row_idx.row as int % (
            layout.blocks@[id.row_idx.block as int].rows@.len() as int)
                == layout.ends@[end].row_idx.row as int % (
            layout.blocks@[id.row_idx.block as int].rows@.len() as int),
{
    law_segment_terminates(layout, id);
    assert forall|link: int|
        0 <= link < layout.links@.len() && (#[trigger] layout.links@[link]).from.block
            == id.row_idx.block && layout.links@[link].course_head_mask.bells@.len()
            == id.course_head.len() implies exists|place: int|
        {
            &&& 0 <= place < id.course_head.len()
            &&& (#[trigger] layout.links@[link].course_head_mask.bells@[place]) is Some
            &&& layout.links@[link].course_head_mask.bells@[place] != Some(id.course_head[place])
        } by {
        assert(!layout.applies(link, id));
    }
    assert forall|end: int|
        0 <= end < layout.ends@.len() && (#[trigger] layout.ends@[end]).course_head@
            == id.course_head && layout.ends@[end].row_idx.block == id.row_idx.block implies
        id.is_start && id.row_idx.row as int % (
    layout.blocks@[id.row_idx.block as int].rows@.len() as int)
        == layout.ends@[end].row_idx.row as int % (
    layout.blocks@[id.row_idx.block as int].rows@.len() as int) by {
        assert(!layout.can_end(end, id));
        lemma_end_is_after(layout, end, id);
    }
}

/// A segment has the id that it is looked up by.  If it is a start, then its label is that of the first
/// start of the layout at its course head and its row, and otherwise it has none.
pub proof fn law_segment_has_label_of_start(layout: &Layout, id: NodeIdView) -> (start: int)
    requires
        layout.can_look_up(id),
        layout.segment(id) is Some,
    ensures
        layout.segment(id)->Some_0.node_id == id,
        !id.is_start ==> layout.segment(id)->Some_0.start_label is None,
        id.is_start ==> {
            &&& 0 <= start < layout.starts@.len()
            &&& layout.starts@[start].course_head@ == id.course_head
            &&& layout.starts@[start].row_idx == id.row_idx
            &&& layout.segment(id)->Some_0.start_label == Some(layout.starts@[start].label@)
            &&& forall|other: int|
                0 <= other < start ==> (#[trigger] layout.starts@[other]).course_head@
                    != id.course_head || layout.starts@[other].row_idx != id.row_idx
        },
{
    let start = first_at(layout.starts@, id);
    if id.is_start {
        let some = choose|start: int|
            0 <= start < layout.starts@.len() && #[trigger] layout.starts@[start].is_at(id);
        let first = lemma_some_first_at(layout.starts@, id, some);
        assert(layout.starts@[start].is_at(id));
        assert forall|other: int| 0 <= other < start implies (
        #[trigger] layout.starts@[other]).course_head@ != id.course_head
            || layout.starts@[other].row_idx != id.row_idx by {
            assert(!layout.starts@[other].is_at(id));
        }
    }
    start
}

/// Some point is the first that is the first row of a segment, if any is.
proof fn lemma_some_first_at(points: Seq<StartOrEnd>, id: NodeIdView, i: int) -> (first: int)
    requires
        0 <= i < points.len(),
        points[i].is_at(id),
    ensures
        0 <= first < points.len(),
        points[first].is_at(id),
        forall|j: int| 0 <= j < first ==> !#[trigger] points[j].is_at(id),
    decreases i,
{
    if forall|j: int| 0 <= j < i ==> !#[trigger] points[j].is_at(id) {
        i
    } else {
        let j = choose|j: int| 0 <= j < i && #[trigger] points[j].is_at(id);
        lemma_some_first_at(points, id, j)
    }
}

/// The last row of a range of rows is in the range's block, one row less far from the range's first row
/// than the range is long, counting on from the first row of the block after its last.
pub proof fn law_last_row_is_counted_from_start(layout: &Layout, row_range: RowRange)
    requires
        row_range.length > 0,
        layout.blocks@[row_range.start.block as int].rows@.len() > 0,
    ensures
        layout.last_row(row_range).block == row_range.start.block,
        layout.last_row(row_range).row == (row_range.start.row + row_range.length - 1) % (
        layout.blocks@[row_range.start.block as int].rows@.len() as int),
{
    let len = layout.blocks@[row_range.start.block as int].rows@.len();
    assert(len == layout.blocks@[row_range.start.block as int].rows.len());
    vstd::arithmetic::div_mod::lemma_mod_bound(
        row_range.start.row + row_range.length - 1,
        len as int,
    );
}

} // verus!
