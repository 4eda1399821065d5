use amata::path::{BezierSegment, PathData, PathElement};

fn mid(a: (i32, i32), b: (i32, i32)) -> (i32, i32) {
    ((a.0 + b.0) / 2, (a.1 + b.1) / 2)
}

fn shift(h: (i32, i32), prev: (i32, i32), gone: (i32, i32)) -> (i32, i32) {
    (h.0 + prev.0 - gone.0, h.1 + prev.1 - gone.1)
}

fn triangle() -> PathData<(i32, i32)> {
    let mut p = PathData::new();
    p.push_move_to((0, 0));
    p.push_line_to((10, 0));
    p.push_line_to((10, 10));
    p.close();
    p
}

#[test]
fn new_path_is_empty_and_open() {
    let p: PathData<(i32, i32)> = PathData::new();
    assert!(p.is_empty());
    assert!(!p.closed);
    assert_eq!(p.last_point(), None);
    assert_eq!(p.anchor_count(), 0);
}

#[test]
fn last_point_skips_close_and_counts_anchors() {
    let p = triangle();
    assert!(p.closed);
    assert_eq!(p.last_point(), Some((10, 10)));
    assert_eq!(p.anchor_count(), 3);
    assert_eq!(p.element_anchor(1), Some((10, 0)));
    assert_eq!(p.element_anchor(3), None);
    assert_eq!(p.element_anchor(9), None);
}

#[test]
fn curve_starts_at_pen_or_origin() {
    let mut p: PathData<(i32, i32)> = PathData::new();
    p.push_curve_to((1, 1), (2, 2), (3, 3), (0, 0));
    assert_eq!(p.elements[0], PathElement::CurveTo(BezierSegment::cubic((0, 0), (1, 1), (2, 2), (3, 3))));
    p.push_curve_to((4, 4), (5, 5), (6, 6), (0, 0));
    assert_eq!(p.elements[1], PathElement::CurveTo(BezierSegment::cubic((3, 3), (4, 4), (5, 5), (6, 6))));
    assert_eq!(BezierSegment::line((0, 0), (4, 4)), BezierSegment::cubic((0, 0), (0, 0), (4, 4), (4, 4)));
}

#[test]
fn split_line_inserts_the_point_between() {
    let mut p = triangle();
    assert!(p.split_segment(1, mid));
    assert_eq!(p.anchor_count(), 4);
    assert_eq!(
        p.elements,
        vec![
            PathElement::MoveTo((0, 0)),
            PathElement::LineTo((5, 0)),
            PathElement::LineTo((10, 0)),
            PathElement::LineTo((10, 10)),
            PathElement::ClosePath,
        ]
    );
}

#[test]
fn split_curve_by_de_casteljau() {
    let mut p: PathData<(i32, i32)> = PathData::new();
    p.push_move_to((0, 0));
    p.push_curve_to((0, 8), (8, 8), (8, 0), (0, 0));
    assert!(p.split_segment(1, mid));
    assert_eq!(p.elements.len(), 3);
    assert_eq!(p.elements[1], PathElement::CurveTo(BezierSegment::cubic((0, 0), (0, 4), (2, 6), (4, 6))));
    assert_eq!(p.elements[2], PathElement::CurveTo(BezierSegment::cubic((4, 6), (6, 6), (8, 4), (8, 0))));
}

#[test]
fn split_refuses_first_move_and_close() {
    let mut p = triangle();
    let before = p.elements.clone();
    assert!(!p.split_segment(0, mid));
    assert!(!p.split_segment(3, mid));
    assert!(!p.split_segment(7, mid));
    assert_eq!(p.elements, before);
}

fn square() -> PathData<(i32, i32)> {
    let mut p = PathData::new();
    p.push_move_to((0, 0));
    p.push_line_to((10, 0));
    p.push_line_to((10, 10));
    p.push_line_to((0, 10));
    p.close();
    p
}

#[test]
fn remove_first_anchor_promotes_the_next() {
    let mut p = square();
    assert!(p.remove_anchor(0, shift));
    assert_eq!(
        p.elements,
        vec![PathElement::MoveTo((10, 0)), PathElement::LineTo((10, 10)), PathElement::LineTo((0, 10)), PathElement::ClosePath]
    );
}

#[test]
fn remove_middle_anchor_moves_following_curve_start() {
    let mut p: PathData<(i32, i32)> = PathData::new();
    p.push_move_to((0, 0));
    p.push_line_to((10, 0));
    p.push_curve_to((12, 2), (14, 4), (20, 0), (0, 0));
    p.push_line_to((20, 10));
    assert!(p.remove_anchor(1, shift));
    assert_eq!(p.elements.len(), 3);
    assert_eq!(p.elements[1], PathElement::CurveTo(BezierSegment::cubic((0, 0), (2, 2), (14, 4), (20, 0))));
}

#[test]
fn remove_refuses_close_and_short_paths() {
    let mut p = square();
    assert!(!p.remove_anchor(4, shift));
    assert!(p.remove_anchor(2, shift));
    assert_eq!(p.anchor_count(), 3);
    let before = p.elements.clone();
    assert!(!p.remove_anchor(1, shift));
    assert_eq!(p.elements, before);
    assert_eq!(p.elements, vec![PathElement::MoveTo((0, 0)), PathElement::LineTo((10, 0)), PathElement::LineTo((0, 10)), PathElement::ClosePath]);
}

#[test]
fn closed_triangle_keeps_its_three_anchors() {
    let mut p = triangle();
    let before = p.elements.clone();
    assert!(!p.remove_anchor(1, shift));
    assert!(!p.remove_anchor(0, shift));
    assert_eq!(p.elements, before);
}

fn ends_only(s: BezierSegment<(i32, i32)>) -> Vec<(i32, i32)> {
    vec![mid(s.start, s.end), s.end]
}

fn same(a: (i32, i32), b: (i32, i32)) -> bool {
    a == b
}

#[test]
fn subpaths_split_at_moves_and_drop_closing_copies() {
    let mut p: PathData<(i32, i32)> = PathData::new();
    p.push_move_to((0, 0));
    p.push_line_to((10, 0));
    p.push_line_to((10, 10));
    p.push_line_to((0, 0));
    p.close();
    p.push_move_to((20, 20));
    p.push_line_to((30, 20));
    p.push_curve_to((30, 30), (30, 30), (20, 40), (0, 0));
    let subs = p.to_subpaths(ends_only, same);
    assert_eq!(
        subs,
        vec![
            vec![(0, 0), (10, 0), (10, 10)],
            vec![(20, 20), (30, 20), (25, 30), (20, 40)],
        ]
    );
}

#[test]
fn subpaths_keep_open_pairs_but_drop_short_closed_runs() {
    let mut p: PathData<(i32, i32)> = PathData::new();
    p.push_move_to((0, 0));
    p.push_line_to((5, 5));
    p.push_move_to((1, 1));
    p.push_line_to((2, 2));
    p.close();
    p.push_line_to((3, 3));
    let subs = p.to_subpaths(ends_only, same);
    assert_eq!(subs, vec![vec![(0, 0), (5, 5)], vec![(1, 1), (2, 2), (3, 3)]]);
}

#[test]
fn polygon_returns_to_the_first_point_on_close() {
    let mut p = triangle();
    assert_eq!(p.to_polygon(ends_only, same), vec![(0, 0), (10, 0), (10, 10), (0, 0)]);
    p.elements.insert(3, PathElement::LineTo((0, 0)));
    assert_eq!(p.to_polygon(ends_only, same), vec![(0, 0), (10, 0), (10, 10), (0, 0)]);
    let mut q: PathData<(i32, i32)> = PathData::new();
    q.push_move_to((0, 0));
    q.push_curve_to((0, 4), (4, 4), (4, 0), (0, 0));
    assert_eq!(q.to_polygon(ends_only, same), vec![(0, 0), (2, 0), (4, 0)]);
}
