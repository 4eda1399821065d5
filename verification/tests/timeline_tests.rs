use amata::timeline::{AnimProperty, EaseType, Sample, Timeline, Track};

#[test]
fn keyframes_stay_sorted_and_update_in_place() {
    let mut t: Track<f64> = Track::new("obj", AnimProperty::PositionX);
    t.add_keyframe(30, 3.0, EaseType::Linear);
    t.add_keyframe(10, 1.0, EaseType::EaseIn);
    t.add_keyframe(20, 2.0, EaseType::Linear);
    let frames: Vec<usize> = t.keyframes.iter().map(|k| k.frame).collect();
    assert_eq!(frames, vec![10, 20, 30]);
    t.add_keyframe(20, 5.0, EaseType::EaseOut);
    assert_eq!(t.keyframes.len(), 3);
    assert_eq!(t.keyframes[1].value, 5.0);
    assert_eq!(t.keyframes[1].ease, EaseType::EaseOut);
}

#[test]
fn sampling_positions() {
    let mut t: Track<f64> = Track::new("obj", AnimProperty::Opacity);
    assert!(matches!(t.sample_at(5), Sample::Missing));
    t.add_keyframe(10, 0.0, EaseType::Linear);
    assert!(matches!(t.sample_at(50), Sample::At(0)));
    t.add_keyframe(30, 1.0, EaseType::Linear);
    assert!(matches!(t.sample_at(0), Sample::At(0)));
    assert!(matches!(t.sample_at(10), Sample::At(0)));
    assert!(matches!(t.sample_at(40), Sample::At(1)));
    match t.sample_at(15) {
        Sample::Between { from, elapsed, span } => assert_eq!((from, elapsed, span), (0, 5, 20)),
        _ => panic!("expected a segment"),
    }
}

#[test]
fn playback_wraps_or_stops() {
    let mut tl: Timeline<f64, f64> = Timeline { fps: 60.0, total_frames: 3, current_frame: 0, is_playing: true, loop_playback: true, tracks: vec![] };
    tl.advance_frame();
    tl.advance_frame();
    assert_eq!(tl.current_frame, 2);
    tl.advance_frame();
    assert_eq!(tl.current_frame, 0);
    assert!(tl.is_playing);
    tl.loop_playback = false;
    tl.current_frame = 2;
    tl.advance_frame();
    assert_eq!(tl.current_frame, 2);
    assert!(!tl.is_playing);
}

#[test]
fn tracks_are_found_or_added() {
    let mut tl: Timeline<f64, f64> = Timeline { fps: 30.0, total_frames: 90, current_frame: 0, is_playing: false, loop_playback: true, tracks: vec![] };
    tl.add_or_get_track_mut("a", AnimProperty::Rotation).add_keyframe(0, 0.0, EaseType::Linear);
    tl.add_or_get_track_mut("a", AnimProperty::Rotation).add_keyframe(10, 90.0, EaseType::Linear);
    tl.add_or_get_track_mut("a", AnimProperty::ScaleX);
    assert_eq!(tl.tracks.len(), 2);
    assert_eq!(tl.tracks[0].keyframes.len(), 2);
    assert_eq!(tl.tracks[1].property, AnimProperty::ScaleX);
}
