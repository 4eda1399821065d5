use amata::envelope::subdivide_path;
use amata::path::{BezierSegment, PathElement};

fn mid(a: (i64, i64), b: (i64, i64)) -> (i64, i64) {
    ((a.0 + b.0) / 2, (a.1 + b.1) / 2)
}

#[test]
fn lines_gain_midpoints() {
    let path = vec![PathElement::MoveTo((0, 0)), PathElement::LineTo((4, 0)), PathElement::ClosePath];
    assert_eq!(
        subdivide_path(&path, 1, mid),
        vec![
            PathElement::MoveTo((0, 0)),
            PathElement::LineTo((2, 0)),
            PathElement::LineTo((4, 0)),
            PathElement::LineTo((2, 0)),
            PathElement::ClosePath,
        ]
    );
    assert_eq!(
        subdivide_path(&path, 2, mid),
        vec![
            PathElement::MoveTo((0, 0)),
            PathElement::LineTo((1, 0)),
            PathElement::LineTo((2, 0)),
            PathElement::LineTo((3, 0)),
            PathElement::LineTo((4, 0)),
            PathElement::LineTo((3, 0)),
            PathElement::LineTo((2, 0)),
            PathElement::LineTo((1, 0)),
            PathElement::ClosePath,
        ]
    );
    assert_eq!(subdivide_path(&path, 0, mid), path);
}

#[test]
fn closed_rectangle_gains_all_four_edge_midpoints() {
    let path = vec![
        PathElement::MoveTo((0, 0)),
        PathElement::LineTo((10, 0)),
        PathElement::LineTo((10, 10)),
        PathElement::LineTo((0, 10)),
        PathElement::ClosePath,
    ];
    assert_eq!(
        subdivide_path(&path, 1, mid),
        vec![
            PathElement::MoveTo((0, 0)),
            PathElement::LineTo((5, 0)),
            PathElement::LineTo((10, 0)),
            PathElement::LineTo((10, 5)),
            PathElement::LineTo((10, 10)),
            PathElement::LineTo((5, 10)),
            PathElement::LineTo((0, 10)),
            PathElement::LineTo((0, 5)),
            PathElement::ClosePath,
        ]
    );
}

#[test]
fn close_without_a_start_stays_single() {
    let path = vec![PathElement::LineTo((2, 2)), PathElement::ClosePath];
    assert_eq!(subdivide_path(&path, 1, mid), path);
}

#[test]
fn at_most_four_rounds() {
    let path = vec![PathElement::MoveTo((0, 0)), PathElement::LineTo((64, 0))];
    let r = subdivide_path(&path, 10, mid);
    // 1 move + 2^4 line segments.
    assert_eq!(r.len(), 17);
    assert_eq!(r[1], PathElement::LineTo((4, 0)));
}

#[test]
fn curves_split_at_their_middle() {
    let seg = BezierSegment { start: (0, 0), control1: (0, 8), control2: (8, 8), end: (8, 0) };
    let path = vec![PathElement::MoveTo((0, 0)), PathElement::CurveTo(seg)];
    assert_eq!(
        subdivide_path(&path, 1, mid),
        vec![
            PathElement::MoveTo((0, 0)),
            PathElement::CurveTo(BezierSegment { start: (0, 0), control1: (0, 4), control2: (2, 6), end: (4, 6) }),
            PathElement::CurveTo(BezierSegment { start: (4, 6), control1: (6, 6), control2: (8, 4), end: (8, 0) }),
        ]
    );
}

#[test]
fn a_line_without_a_pen_stays_single() {
    let path = vec![PathElement::LineTo((2, 2))];
    assert_eq!(subdivide_path(&path, 1, mid), path);
}
