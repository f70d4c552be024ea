use exey_engine::draw::animation::{strip_index, tick_animations, ShownFrame};
use exey_engine::draw::{AnimationState, FrameStrip, LoopMode};

fn strip(count: u32, fps: f32, mode: LoopMode) -> FrameStrip {
    FrameStrip::from_grid_row(count, 1, 0, 0, count, fps.to_bits(), mode)
}

fn raw(s: &FrameStrip, time: f32) -> u32 {
    (time.max(0.0) * f32::from_bits(s.fps)) as u32
}

fn frame_index_at(s: &FrameStrip, time: f32) -> u32 {
    s.frame_index_at(raw(s, time))
}

#[test]
fn loop_wraps() {
    let s = strip(4, 1.0, LoopMode::Loop);
    assert_eq!(frame_index_at(&s, 0.0), 0);
    assert_eq!(frame_index_at(&s, 0.99), 0);
    assert_eq!(frame_index_at(&s, 1.0), 1);
    assert_eq!(frame_index_at(&s, 3.5), 3);
    assert_eq!(frame_index_at(&s, 4.0), 0);
    assert_eq!(frame_index_at(&s, 9.5), 1);
}

#[test]
fn once_clamps() {
    let s = strip(3, 2.0, LoopMode::Once);
    assert_eq!(frame_index_at(&s, 0.0), 0);
    assert_eq!(frame_index_at(&s, 0.4), 0);
    assert_eq!(frame_index_at(&s, 0.6), 1);
    assert_eq!(frame_index_at(&s, 1.0), 2);
    assert_eq!(frame_index_at(&s, 100.0), 2);
}

#[test]
fn pingpong_bounces() {
    let s = strip(4, 1.0, LoopMode::PingPong);
    assert_eq!(frame_index_at(&s, 0.0), 0);
    assert_eq!(frame_index_at(&s, 1.0), 1);
    assert_eq!(frame_index_at(&s, 2.0), 2);
    assert_eq!(frame_index_at(&s, 3.0), 3);
    assert_eq!(frame_index_at(&s, 4.0), 2);
    assert_eq!(frame_index_at(&s, 5.0), 1);
    assert_eq!(frame_index_at(&s, 6.0), 0);
    assert_eq!(frame_index_at(&s, 7.0), 1);
}

#[test]
fn single_frame_is_stable() {
    let s = strip(1, 10.0, LoopMode::Loop);
    assert_eq!(frame_index_at(&s, 0.0), 0);
    assert_eq!(frame_index_at(&s, 99.0), 0);
}

#[test]
fn zero_fps_holds_frame_zero() {
    let s = strip(4, 0.0, LoopMode::Loop);
    assert_eq!(frame_index_at(&s, 0.0), 0);
    assert_eq!(frame_index_at(&s, 100.0), 0);
}

#[test]
fn grid_row_builds_correct_uv() {
    let s = FrameStrip::from_grid_row(15, 16, 9, 0, 2, 4.0f32.to_bits(), LoopMode::Loop);
    let cw = 1.0 / 15.0;
    let ch = 1.0 / 16.0;
    let scale = [1.0 / s.atlas_cells_x as f32, 1.0 / s.atlas_cells_y as f32];
    let offset = |frame: u32| {
        let (col, row) = s.uv_offset_for(frame);
        [col as f32 * scale[0], row as f32 * scale[1]]
    };
    let f0 = offset(0);
    assert!((f0[0] - 0.0).abs() < 1e-6);
    assert!((f0[1] - 9.0 * ch).abs() < 1e-6);
    assert!((scale[0] - cw).abs() < 1e-6);
    assert!((scale[1] - ch).abs() < 1e-6);
    let f1 = offset(1);
    assert!((f1[0] - cw).abs() < 1e-6);
    assert!((f1[1] - 9.0 * ch).abs() < 1e-6);
}

#[test]
fn cycle_seconds() {
    let seconds = |s: &FrameStrip| -> f32 {
        let fps = f32::from_bits(s.fps);
        match s.cycle_frames() {
            Some(frames) if fps > 0.0 => frames as f32 / fps,
            _ => f32::INFINITY,
        }
    };
    let loop4 = strip(4, 2.0, LoopMode::Loop);
    assert!((seconds(&loop4) - 2.0).abs() < 1e-6);
    let pp4 = strip(4, 2.0, LoopMode::PingPong);
    assert!((seconds(&pp4) - 3.0).abs() < 1e-6);
    let zero = strip(4, 0.0, LoopMode::Loop);
    assert!(seconds(&zero).is_infinite());
}

#[test]
fn cycles_in_frames() {
    assert_eq!(strip(5, 1.0, LoopMode::Loop).cycle_frames(), Some(5));
    assert_eq!(strip(5, 1.0, LoopMode::Once).cycle_frames(), Some(5));
    assert_eq!(strip(5, 1.0, LoopMode::PingPong).cycle_frames(), Some(8));
    assert_eq!(strip(1, 1.0, LoopMode::PingPong).cycle_frames(), None);
    assert_eq!(LoopMode::default(), LoopMode::Loop);
}

#[test]
fn pingpong_of_two_alternates() {
    let s = strip(2, 1.0, LoopMode::PingPong);
    let shown: Vec<u32> = (0..6).map(|r| s.frame_index_at(r)).collect();
    assert_eq!(shown, vec![0, 1, 0, 1, 0, 1]);
}

#[test]
fn large_frame_numbers_are_fine() {
    assert_eq!(strip(4, 1.0, LoopMode::Loop).frame_index_at(u32::MAX), u32::MAX % 4);
    assert_eq!(strip(4, 1.0, LoopMode::Once).frame_index_at(u32::MAX), 3);
    assert_eq!(strip(4, 1.0, LoopMode::PingPong).frame_index_at(u32::MAX), u32::MAX % 6);
}

#[test]
fn unknown_strips_fall_back_to_the_first() {
    assert_eq!(strip_index(2, 4), 2);
    assert_eq!(strip_index(4, 4), 0);
    assert_eq!(strip_index(u16::MAX, 1), 0);
}

#[test]
fn ticking_resolves_animated_sprites_only() {
    let strips = vec![
        FrameStrip::from_grid_row(15, 16, 9, 3, 2, 0, LoopMode::Loop),
        FrameStrip::from_grid_row(15, 16, 10, 0, 4, 0, LoopMode::Once),
    ];
    let anims = vec![
        None,
        Some(AnimationState::new(0)),
        Some(AnimationState::with_offset(1, 7)),
        Some(AnimationState::new(9)),
    ];
    let (frames, animated) = tick_animations(&anims, &[5, 5, 9, 2], &strips);
    assert_eq!(animated, 3);
    assert_eq!(
        frames,
        vec![
            None,
            Some(ShownFrame { strip: 0, frame: 1, cell: (4, 9) }),
            Some(ShownFrame { strip: 1, frame: 3, cell: (3, 10) }),
            Some(ShownFrame { strip: 0, frame: 0, cell: (3, 9) }),
        ]
    );
}

#[test]
fn without_strips_nothing_is_shown() {
    let anims = vec![Some(AnimationState::new(0)), None, Some(AnimationState::new(7))];
    assert_eq!(tick_animations(&anims, &[1, 2, 3], &[]), (vec![None, None, None], 0));
    assert_eq!(tick_animations(&[], &[], &[]), (vec![], 0));
}

#[test]
fn any_strip_can_be_ticked() {
    // More frames than two to the power of 31, and a strip that runs off its atlas.
    let long = |mode| FrameStrip {
        atlas_cells_x: 1,
        atlas_cells_y: 1,
        row: 9,
        col0: u32::MAX,
        frame_count: u32::MAX,
        fps: 0,
        loop_mode: mode,
    };
    let strips = vec![long(LoopMode::Loop), long(LoopMode::Once), long(LoopMode::PingPong)];
    let anims: Vec<_> = (0..3).map(|i| Some(AnimationState::new(i))).collect();
    let (frames, animated) = tick_animations(&anims, &[u32::MAX, u32::MAX, u32::MAX], &strips);
    assert_eq!(animated, 3);
    let last = u32::MAX - 1;
    let cell = |frame: u32| (u32::MAX as u64 + frame as u64, 9);
    assert_eq!(frames[0], Some(ShownFrame { strip: 0, frame: 0, cell: cell(0) }));
    assert_eq!(frames[1], Some(ShownFrame { strip: 1, frame: last, cell: cell(last) }));
    assert_eq!(frames[2], Some(ShownFrame { strip: 2, frame: last - 1, cell: cell(last - 1) }));
    assert_eq!(strips[2].cycle_frames(), Some(2 * last as u64));
    let empty = FrameStrip { frame_count: 0, ..long(LoopMode::Loop) };
    assert_eq!(empty.frame_index_at(5), 0);
}

#[test]
fn playback_begins_unpaused() {
    assert_eq!(AnimationState::new(3), AnimationState { strip_id: 3, time: 0, paused: false });
    assert_eq!(
        AnimationState::with_offset(3, 0.5f32.to_bits()),
        AnimationState { strip_id: 3, time: 0.5f32.to_bits(), paused: false }
    );
}

#[test]
fn time_goes_on_unless_paused() {
    let later = 1.5f32.to_bits();
    let mut playing = AnimationState::new(2);
    playing.advance_to(later);
    assert_eq!(playing, AnimationState { strip_id: 2, time: later, paused: false });
    let mut paused = AnimationState { strip_id: 2, time: 7, paused: true };
    paused.advance_to(later);
    assert_eq!(paused, AnimationState { strip_id: 2, time: 7, paused: true });
}
