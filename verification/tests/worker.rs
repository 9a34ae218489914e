use std::collections::VecDeque;
use clippy_lib::replay::buffer::VideoPacket;
use clippy_lib::replay::worker::{buffered_secs, encode_dimensions, frame_duration_pts, next_frame_pts, trim_buffer, Pacer};
use clippy_lib::replay::ResolutionMode;

fn vp(pts: i64, is_keyframe: bool) -> VideoPacket {
    VideoPacket { data: Vec::new(), pts, is_keyframe }
}

fn buf<I: IntoIterator<Item = (i64, bool)>>(it: I) -> VecDeque<VideoPacket> {
    it.into_iter().map(|(p, k)| vp(p, k)).collect()
}

#[test]
fn trim_buffer_noop_on_empty() {
    let mut b = VecDeque::<VideoPacket>::new();
    trim_buffer(&mut b, 30);
    assert!(b.is_empty());
}

#[test]
fn trim_buffer_drops_to_first_keyframe_inside_window() {
    let mut b = buf([
        (10, true),
        (20, false),
        (30, false),
        (40, true),
        (50, false),
        (60, false),
        (70, true),
        (80, false),
        (90, true),
        (100, false),
    ]);
    trim_buffer(&mut b, 30);
    let kept: Vec<(i64, bool)> = b.iter().map(|p| (p.pts, p.is_keyframe)).collect();
    assert_eq!(kept, vec![(70, true), (80, false), (90, true), (100, false)]);
    assert!(kept[0].1);
}

#[test]
fn trim_buffer_keeps_decodable_invariant_after_trim() {
    let mut b = buf([(10, true), (40, true), (70, true), (90, true), (100, false)]);
    trim_buffer(&mut b, 15);
    assert!(b.front().unwrap().is_keyframe);
    assert!(b.front().unwrap().pts >= 85);
}

#[test]
fn trim_buffer_does_not_drop_when_no_keyframe_in_window() {
    let mut b = buf([(10, true), (20, false), (30, false), (100, false)]);
    let before: Vec<i64> = b.iter().map(|p| p.pts).collect();
    trim_buffer(&mut b, 30);
    let after: Vec<i64> = b.iter().map(|p| p.pts).collect();
    assert_eq!(before, after);
}

#[test]
fn trim_buffer_noop_when_first_packet_already_satisfies() {
    let mut b = buf([(70, true), (80, false), (90, true), (100, false)]);
    let before: Vec<i64> = b.iter().map(|p| p.pts).collect();
    trim_buffer(&mut b, 30);
    let after: Vec<i64> = b.iter().map(|p| p.pts).collect();
    assert_eq!(before, after);
}

// ---- encode geometry and timing ----

#[test]
fn encode_size_rounds_to_macroblocks() {
    assert_eq!(encode_dimensions(1920, 1080, ResolutionMode::Source), (1920, 1088));
    assert_eq!(encode_dimensions(2560, 1440, ResolutionMode::Half), (1280, 720));
    assert_eq!(encode_dimensions(20, 10, ResolutionMode::Half), (16, 16));
    assert_eq!(encode_dimensions(1920, 1080, ResolutionMode::Custom { width: 1000, height: 8 }), (1008, 16));
}

#[test]
fn frame_length_uses_clamped_rate() {
    assert_eq!(frame_duration_pts(60), 166_666);
    assert_eq!(frame_duration_pts(1), 10_000_000 / 15);
    assert_eq!(frame_duration_pts(1000), 10_000_000 / 240);
}

#[test]
fn frame_stamps_quantize_and_stay_increasing() {
    assert_eq!(next_frame_pts(1_000_123, 100_000, 0), 1_000_000);
    assert_eq!(next_frame_pts(1_000_123, 100_000, 1_000_000), 1_100_000);
    assert_eq!(next_frame_pts(2_050_000, 100_000, 1_100_000), 2_000_000);
}

#[test]
fn buffered_seconds_are_whole_and_never_negative() {
    assert_eq!(buffered_secs(&buf([(0, true), (25_000_000, false)])), 2);
    assert_eq!(buffered_secs(&buf([(50, true), (10, false)])), 0);
    assert_eq!(buffered_secs(&VecDeque::new()), 0);
}

#[test]
fn pacer_feeds_one_frame_per_interval() {
    let mut p = Pacer::new(60, 0);
    assert_eq!((p.interval_us, p.frame_pts), (16_666, 166_666));
    assert!(!p.due(100_000));
    p.need_input();
    assert!(!p.due(16_665));
    assert!(p.due(16_666));
    assert_eq!(p.stamp(170_000), None);
    p.captured_frame(true, true);
    let pts = p.stamp(170_000).unwrap();
    assert_eq!(pts, 166_666);
    p.submitted(pts, true, 16_666);
    assert!(!p.due(40_000));
    p.need_input();
    assert!(p.due(40_000));
    p.captured_frame(false, false);
    let pts2 = p.stamp(200_000).unwrap();
    assert_eq!(pts2, 333_332);
    p.submitted(pts2, false, 40_000);
    p.packet_out(1500);
    p.packet_out(500);
    assert_eq!(p.take_counters(), (1, 2, 1, 2, 2000));
    assert_eq!(p.take_counters(), (0, 0, 0, 0, 0));
    assert_eq!(p.last_pts, 333_332);
}

#[test]
fn trim_buffer_keeps_a_keyframe_front_when_nothing_is_dropped() {
    let mut b = buf([(0, true), (10, false), (20, false), (30, false)]);
    trim_buffer(&mut b, 5);
    assert_eq!(b.len(), 4);
    assert!(b.front().unwrap().is_keyframe);
    assert_eq!(b.back().unwrap().pts, 30);
}
