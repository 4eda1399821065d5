use amata::boolean::{containment_result, gh_keep, gh_walk, pathfinder_outlines, BooleanOp, ContainOutcome, GhOp, RingNode};
use amata::envelope::EnvelopeKind;
use amata::print::{PreflightIssue, PreflightLevel};
use amata::tool::Tool;

#[test]
fn boolean_op_labels() {
    assert_eq!(BooleanOp::Union.name(), "Unite");
    assert_eq!(BooleanOp::Subtract.name(), "Minus Front");
    assert_eq!(BooleanOp::Intersect.icon(), "⨅");
    assert_eq!(BooleanOp::Exclude.icon(), "⨁");
}

#[test]
fn edge_keeping_rule() {
    for on_subject in [true, false] {
        assert!(gh_keep(GhOp::Intersect, on_subject, true));
        assert!(!gh_keep(GhOp::Intersect, on_subject, false));
        assert!(gh_keep(GhOp::Union, on_subject, false));
        assert!(!gh_keep(GhOp::Union, on_subject, true));
    }
    assert!(gh_keep(GhOp::Subtract, true, false));
    assert!(!gh_keep(GhOp::Subtract, true, true));
    assert!(gh_keep(GhOp::Subtract, false, true));
    assert!(!gh_keep(GhOp::Subtract, false, false));
}

#[test]
fn tool_labels() {
    assert_eq!(Tool::Select.name(), "Selection");
    assert_eq!(Tool::Pencil.name(), "Pencil (Smooth)");
    assert_eq!(Tool::PixelBucket.icon(), "🪣");
    assert_eq!(Tool::ShapeBuilder.icon(), Tool::Zoom.icon());
    assert_eq!(Tool::Rectangle.shortcut(), "U");
    assert_eq!(Tool::PixelEraser.shortcut(), "C");
}

#[test]
fn envelope_names() {
    assert_eq!(EnvelopeKind::Bulge.name(), "Bulge");
    assert_eq!(EnvelopeKind::Wave.name(), "Wave");
}

#[test]
fn preflight_constructors() {
    let p = PreflightIssue::pass("Fonts", "all embedded");
    assert_eq!(p.level, PreflightLevel::Pass);
    assert_eq!(p.check, "Fonts");
    assert_eq!(p.detail, "all embedded");
    assert_eq!(PreflightIssue::warn("Ink", "320%").level, PreflightLevel::Warn);
    let f = PreflightIssue::fail("Color", "RGB objects");
    assert_eq!(f.level, PreflightLevel::Fail);
    assert_eq!(f.detail, "RGB objects");
}

#[test]
fn containment_decides_when_boundaries_do_not_cross() {
    assert_eq!(containment_result(GhOp::Intersect, true, false), ContainOutcome::SubjectOnly);
    assert_eq!(containment_result(GhOp::Intersect, false, true), ContainOutcome::ClipOnly);
    assert_eq!(containment_result(GhOp::Intersect, false, false), ContainOutcome::Nothing);
    assert_eq!(containment_result(GhOp::Union, true, false), ContainOutcome::ClipOnly);
    assert_eq!(containment_result(GhOp::Union, false, true), ContainOutcome::SubjectOnly);
    assert_eq!(containment_result(GhOp::Union, false, false), ContainOutcome::Both);
    assert_eq!(containment_result(GhOp::Subtract, true, false), ContainOutcome::Nothing);
    assert_eq!(containment_result(GhOp::Subtract, false, true), ContainOutcome::SubjectOnly);
    assert_eq!(containment_result(GhOp::Subtract, false, false), ContainOutcome::SubjectOnly);
}

fn x(partner: usize) -> RingNode {
    RingNode { crossing: true, partner: Some(partner) }
}

fn v() -> RingNode {
    RingNode { crossing: false, partner: None }
}

#[test]
fn walk_traces_the_overlap_of_two_squares() {
    // Subject: a, X0, b, X1 ; clip: c, X1', d, X0' (crossings linked).
    let subject = vec![v(), x(3), v(), x(1)];
    let clip = vec![v(), x(3), v(), x(1)];
    // X0 (subject 1) enters the clip; X1 (subject 3) leaves it.
    let entry = vec![false, true, false, false];
    // On arriving at a crossing, the direction along the other ring that
    // runs inside (intersection keeps inside edges).
    let probe_s = vec![(false, false), (false, true), (false, false), (true, false)];
    let probe_c = vec![(false, false), (true, false), (false, false), (false, true)];
    let rings = gh_walk(&subject, &clip, &entry, &probe_s, &probe_c, GhOp::Intersect);
    assert_eq!(rings, vec![vec![(true, 1), (true, 2), (true, 3), (false, 2), (false, 3)]]);
}

#[test]
fn walk_with_no_crossings_finds_nothing() {
    let subject = vec![v(), v(), v()];
    let clip = vec![v(), v(), v()];
    let rings = gh_walk(&subject, &clip, &vec![false; 3], &vec![(false, false); 3], &vec![(false, false); 3], GhOp::Union);
    assert!(rings.is_empty());
}

fn joined(a: &Vec<u8>, b: &Vec<u8>) -> Vec<Vec<u8>> {
    let mut v = a.clone();
    v.extend_from_slice(b);
    vec![v]
}

fn split_both(a: &Vec<u8>, b: &Vec<u8>) -> Vec<Vec<u8>> {
    vec![a.clone(), b.clone()]
}

fn nothing(_a: &Vec<u8>, _b: &Vec<u8>) -> Vec<Vec<u8>> {
    Vec::new()
}

#[test]
fn pathfinder_folds_shapes_in_order() {
    assert_eq!(pathfinder_outlines(vec![vec![1u8]], joined), None);
    assert_eq!(pathfinder_outlines(vec![vec![1u8], vec![2], vec![3]], joined), Some(vec![vec![1, 2, 3]]));
    assert_eq!(
        pathfinder_outlines(vec![vec![1u8], vec![2], vec![3]], split_both),
        Some(vec![vec![1], vec![3], vec![2], vec![3]])
    );
    assert_eq!(pathfinder_outlines(vec![vec![1u8], vec![2]], nothing), None);
}
