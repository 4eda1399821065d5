use amata::trace::{link_contours, marching_segments};

#[test]
fn uniform_cells_give_no_segments() {
    assert!(marching_segments(2, 2, &[255, 255, 255, 255], 128).is_empty());
    assert!(marching_segments(2, 2, &[0, 0, 0, 0], 128).is_empty());
}

#[test]
fn degenerate_bitmaps_give_nothing() {
    assert!(marching_segments(1, 5, &[255; 5], 1).is_empty());
    assert!(marching_segments(3, 3, &[255; 8], 1).is_empty());
    assert!(marching_segments(usize::MAX, 2, &[255; 4], 1).is_empty());
}

#[test]
fn one_corner_cuts_its_corner() {
    // Only the top-left pixel is inked: from the left edge midpoint to the
    // top edge midpoint, in doubled coordinates.
    assert_eq!(marching_segments(2, 2, &[200, 0, 0, 0], 100), vec![((0, 1), (1, 0))]);
}

#[test]
fn single_dot_traces_a_diamond() {
    let px = [0, 0, 0, 0, 255, 0, 0, 0, 0];
    let segs = marching_segments(3, 3, &px, 128);
    assert_eq!(
        segs,
        vec![((2, 1), (1, 2)), ((3, 2), (2, 1)), ((1, 2), (2, 3)), ((2, 3), (3, 2))]
    );
    let contours = link_contours(&segs, &vec![(2, 1), (1, 2), (3, 2), (2, 3)]);
    assert_eq!(contours, vec![vec![(2, 1), (1, 2), (2, 3), (3, 2)]]);
    // Starting elsewhere gives the same loop rotated.
    let contours = link_contours(&segs, &vec![(3, 2)]);
    assert_eq!(contours, vec![vec![(3, 2), (2, 1), (1, 2), (2, 3)]]);
}

#[test]
fn short_walks_are_dropped() {
    let segs = vec![((0, 0), (1, 0)), ((1, 0), (2, 0))];
    assert!(link_contours(&segs, &vec![(0, 0), (1, 0)]).is_empty());
}
