use monument::layout::{Layout, Link, NodeId, RowIdx, RowRange, StartOrEnd};
use monument::primitives::{Block, Mask, Row};

fn row(bells: &[usize]) -> Row {
    Row::new(bells.to_vec()).unwrap()
}

fn any() -> Mask {
    Mask::new(vec![None, None, None])
}

fn link(from: usize, to: usize, mask: Mask, transposition: &[usize], name: &str) -> Link {
    Link {
        from: RowIdx::new(0, from),
        to: RowIdx::new(0, to),
        course_head_mask: mask,
        course_head_transposition: row(transposition),
        debug_name: name.to_owned(),
        display_name: name.to_owned(),
    }
}

fn point(label: &str) -> StartOrEnd {
    StartOrEnd { course_head: Row::rounds(3), row_idx: RowIdx::new(0, 0), label: label.to_owned() }
}

/// Plain hunting on three bells, with a plain lead, a call, and a link that is only possible in the
/// second course.
fn hunt() -> Layout {
    Layout {
        blocks: vec![Block {
            rows: vec![
                row(&[0, 1, 2]),
                row(&[1, 0, 2]),
                row(&[1, 2, 0]),
                row(&[2, 1, 0]),
                row(&[2, 0, 1]),
                row(&[0, 2, 1]),
            ],
        }],
        links: vec![
            link(0, 0, any(), &[0, 1, 2], "p"),
            link(0, 0, any(), &[0, 2, 1], "-"),
            link(3, 0, Mask::new(vec![Some(0), Some(2), Some(1)]), &[0, 2, 1], "s"),
            // Has the same effect as the first link
            link(0, 0, Mask::new(vec![Some(0), None, None]), &[0, 1, 2], "p again"),
        ],
        starts: vec![point("<")],
        ends: vec![point(">"), point("later")],
    }
}

fn id(course_head: &[usize], row_idx: usize, is_start: bool) -> NodeId {
    NodeId::new(row(course_head), RowIdx::new(0, row_idx), is_start)
}

fn links(layout: &Layout, id: &NodeId) -> Vec<(usize, String)> {
    let segment = layout.get_segment(id).unwrap();
    segment.links.iter().map(|(idx, id)| (*idx, id.to_text())).collect()
}

#[test]
fn ids_are_displayed() {
    assert_eq!(id(&[0, 2, 1], 12, false).to_text(), "132,0:12");
    assert_eq!(id(&[0, 1, 2], 0, true).to_text(), "123,0:0,is_start");
    assert_eq!(id(&[0, 1, 2], 0, true).to_debug_text(), "NodeId(123,0:0,is_start)");
    let start = id(&[0, 1, 2], 4, true);
    let (course_head, row_idx) = start.ch_and_row_idx();
    assert_eq!(course_head.bells(), &vec![0, 1, 2]);
    assert_eq!(row_idx, RowIdx { block: 0, row: 4 });
}

#[test]
fn start_segments_have_their_full_length() {
    let layout = hunt();
    let start = id(&[0, 1, 2], 0, true);
    let segment = layout.get_segment(&start).unwrap();
    assert_eq!(segment.length, 6);
    assert_eq!(segment.start_label, Some("<".to_owned()));
    assert_eq!(segment.end_label, None);
    assert!(!segment.is_end());
    assert_eq!(segment.node_id.to_text(), start.to_text());
    assert_eq!(
        links(&layout, &start),
        vec![(0, "123,0:0".to_owned()), (1, "132,0:0".to_owned())]
    );
}

#[test]
fn other_segments_come_round_at_once() {
    let layout = hunt();
    let segment = layout.get_segment(&id(&[0, 1, 2], 0, false)).unwrap();
    assert_eq!(segment.length, 0);
    assert_eq!(segment.start_label, None);
    // The first of the ends counts
    assert_eq!(segment.end_label, Some(">".to_owned()));
    assert!(segment.is_end());
    assert!(segment.links.is_empty());
    assert!(segment.untransposed_rows(&layout).is_empty());
}

#[test]
fn segments_extend_to_the_first_link() {
    let layout = hunt();
    let segment = layout.get_segment(&id(&[0, 2, 1], 0, false)).unwrap();
    assert_eq!(segment.length, 3);
    assert_eq!(links(&layout, &id(&[0, 2, 1], 0, false)), vec![(2, "123,0:0".to_owned())]);
    // From the row that this link starts from, the others come first
    let segment = layout.get_segment(&id(&[0, 2, 1], 3, false)).unwrap();
    assert_eq!(segment.length, 3);
    assert_eq!(
        links(&layout, &id(&[0, 2, 1], 3, false)),
        vec![(0, "132,0:0".to_owned()), (1, "123,0:0".to_owned())]
    );
    // Before that row, it is still to be taken
    assert_eq!(layout.get_segment(&id(&[0, 2, 1], 2, false)).unwrap().length, 1);
}

#[test]
fn links_start_from_the_first_row_after_a_segment() {
    let layout = hunt();
    for row_idx in 0..6 {
        for course_head in [[0, 2, 1], [1, 0, 2], [2, 1, 0]] {
            let segment = layout.get_segment(&id(&course_head, row_idx, false)).unwrap();
            assert!(!segment.links.is_empty());
            for (idx, _) in &segment.links {
                assert_eq!(layout.links[*idx].from.row, (row_idx + segment.length) % 6);
            }
        }
    }
}

#[test]
fn segments_without_links_go_on_for_ever() {
    let mut layout = hunt();
    layout.links.truncate(0);
    assert!(layout.get_segment(&id(&[0, 1, 2], 0, true)).is_none());
    assert!(layout.get_segment(&id(&[0, 2, 1], 0, false)).is_none());
    // An end is an end without links
    assert!(layout.get_segment(&id(&[0, 1, 2], 0, false)).is_some());
    assert_eq!(layout.get_segment(&id(&[0, 1, 2], 2, false)).unwrap().length, 4);
    // A link of another stage does not apply
    layout.links.push(Link {
        from: RowIdx::new(0, 0),
        to: RowIdx::new(0, 0),
        course_head_mask: Mask::new(vec![None, None]),
        course_head_transposition: row(&[0, 1]),
        debug_name: String::new(),
        display_name: String::new(),
    });
    assert!(layout.get_segment(&id(&[0, 2, 1], 0, false)).is_none());
    // Nor does a link of another block
    layout.links.push(Link {
        from: RowIdx::new(1, 0),
        to: RowIdx::new(0, 0),
        course_head_mask: any(),
        course_head_transposition: row(&[0, 1, 2]),
        debug_name: String::new(),
        display_name: String::new(),
    });
    assert!(layout.get_segment(&id(&[0, 2, 1], 0, false)).is_none());
}

#[test]
fn links_are_applied_to_course_heads() {
    let layout = hunt();
    let after = layout.links[1].id_after(&row(&[1, 0, 2]));
    assert_eq!(after.to_text(), "231,0:0");
    assert!(layout.links[0].eq_without_name_or_ch_mask(&layout.links[3]));
    assert!(!layout.links[0].eq_without_name_or_ch_mask(&layout.links[1]));
    assert!(!layout.links[1].eq_without_name_or_ch_mask(&layout.links[2]));
}

#[test]
fn rows_go_round_and_round() {
    let layout = hunt();
    let rows = layout.untransposed_rows(RowIdx::new(0, 4), 5);
    let texts: Vec<String> = rows.iter().map(|row| row.to_text()).collect();
    assert_eq!(texts, vec!["312", "132", "123", "213", "231"]);
    let range = RowRange::new(RowIdx::new(0, 4), 5);
    assert_eq!(layout.last_row_idx(range), Some(RowIdx::new(0, 2)));
    assert_eq!(layout.last_row_idx(RowRange::new(RowIdx::new(0, 4), 0)), None);
    assert_eq!(
        layout.last_row_idx(RowRange::new(RowIdx::new(0, 4), 1)),
        Some(RowIdx::new(0, 4))
    );
}

#[test]
fn starts_do_not_come_round() {
    let layout = hunt();
    for (start, end) in [(true, false), (false, true)] {
        let segment = layout.get_segment(&id(&[0, 1, 2], 0, start)).unwrap();
        assert_eq!(segment.start_label.is_some(), start);
        assert_eq!(segment.end_label.is_some(), end);
        assert_eq!(segment.length == 0, end);
        assert!(segment.links.iter().all(|(_, id)| !id.is_start));
    }
}

fn end(course_head: &[usize], row_idx: RowIdx, label: &str) -> StartOrEnd {
    StartOrEnd { course_head: row(course_head), row_idx, label: label.to_owned() }
}

#[test]
fn compositions_can_finish_within_a_segment() {
    let mut layout = hunt();
    layout.ends.push(end(&[0, 1, 2], RowIdx::new(0, 4), "snap"));
    layout.ends.push(end(&[0, 1, 2], RowIdx::new(0, 4), "later snap"));
    layout.ends.push(end(&[0, 2, 1], RowIdx::new(0, 1), "other course"));
    layout.ends.push(end(&[0, 1, 2], RowIdx::new(1, 3), "other block"));
    for (row_idx, is_start, length) in [(0, true, 4), (1, false, 3), (3, false, 1), (4, false, 0)] {
        let segment = layout.get_segment(&id(&[0, 1, 2], row_idx, is_start)).unwrap();
        assert_eq!(segment.length, length);
        assert_eq!(segment.end_label, Some("snap".to_owned()));
        assert_eq!(segment.start_label.is_some(), is_start);
        assert!(segment.links.is_empty());
        assert_eq!(segment.untransposed_rows(&layout).len(), length);
    }
    // The nearest end counts
    let segment = layout.get_segment(&id(&[0, 1, 2], 0, false)).unwrap();
    assert_eq!((segment.length, segment.end_label), (0, Some(">".to_owned())));
    // In another course, there is another end
    let segment = layout.get_segment(&id(&[0, 2, 1], 0, false)).unwrap();
    assert_eq!((segment.length, segment.end_label), (1, Some("other course".to_owned())));
    let segment = layout.get_segment(&id(&[0, 2, 1], 2, false)).unwrap();
    assert_eq!((segment.length, segment.end_label), (1, None));
}

#[test]
fn links_take_precedence_over_ends() {
    let layout = hunt();
    // Both the end and the links are reached after two rows
    let segment = layout.get_segment(&id(&[0, 1, 2], 4, false)).unwrap();
    assert_eq!(segment.length, 2);
    assert_eq!(segment.end_label, None);
    assert_eq!(segment.links.len(), 2);
}
