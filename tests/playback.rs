use linebound::geometry::{Vector2i, SCALE};
use linebound::level::{Color, Level};
use linebound::lines::Lines;
use linebound::playback::{MouseAction, MousePlayback, MouseState};

fn entry(x: i32, y: i32, frame: u32, kind: MouseAction) -> MouseState {
    MouseState { position: Vector2i::new(x, y), frame, kind }
}

fn white() -> Color {
    Color::new(255, 255, 255, 255)
}

fn fresh() -> (MousePlayback, Lines, Level) {
    let mut p = MousePlayback::new();
    p.clear();
    p.playing = true;
    (p, Lines::new(), Level::new(Vector2i::new(0, 0), white(), white()))
}

#[test]
fn one_step_replays_short_log() {
    let (mut p, mut lines, mut level) = fresh();
    p.state = vec![
        entry(0, 0, 0, MouseAction::PenMove),
        entry(SCALE, 0, 5, MouseAction::PenMove),
        entry(0, 0, 6, MouseAction::PenUp),
    ];
    p.playback(10, &mut lines, &mut level);
    assert_eq!(lines.line_points, vec![Vector2i::new(0, 0), Vector2i::new(SCALE, 0)]);
    assert_eq!(p.current_state, 3);
    assert!(p.complete);
    assert!(!p.playing);
    assert!(lines.last_position.is_none());
}

#[test]
fn first_step_skips_initial_delay() {
    let (mut p, mut lines, mut level) = fresh();
    p.state = vec![
        entry(0, 0, 1000, MouseAction::PenMove),
        entry(SCALE, 0, 1004, MouseAction::PenMove),
        entry(2 * SCALE, 0, 1020, MouseAction::PenMove),
    ];
    p.playback(8, &mut lines, &mut level);
    assert_eq!(p.current_frame, 1008);
    assert_eq!(p.current_state, 2);
    assert!(!p.complete);
    assert!(p.playing);
    assert_eq!(lines.line_points.len(), 2);
    p.playback(8, &mut lines, &mut level);
    assert_eq!(p.current_frame, 1016);
    assert_eq!(p.current_state, 2);
    p.playback(8, &mut lines, &mut level);
    assert_eq!(p.current_state, 3);
    assert!(p.complete);
    assert_eq!(lines.line_points.len(), 4);
}

#[test]
fn long_pause_is_skipped() {
    let (mut p, mut lines, mut level) = fresh();
    p.state = vec![
        entry(0, 0, 0, MouseAction::PenMove),
        entry(SCALE, 0, 500, MouseAction::PenMove),
    ];
    p.playback(8, &mut lines, &mut level);
    assert_eq!(p.current_state, 1);
    assert_eq!(p.current_frame, 8);
    p.playback(8, &mut lines, &mut level);
    assert_eq!(p.current_frame, 508);
    assert_eq!(p.current_state, 2);
}

#[test]
fn pause_within_gap_is_waited_out() {
    let (mut p, mut lines, mut level) = fresh();
    p.state = vec![
        entry(0, 0, 0, MouseAction::PenMove),
        entry(SCALE, 0, 240, MouseAction::PenMove),
    ];
    p.playback(8, &mut lines, &mut level);
    p.playback(8, &mut lines, &mut level);
    assert_eq!(p.current_frame, 16);
    assert_eq!(p.current_state, 1);
}

#[test]
fn placement_creates_collectible() {
    let (mut p, mut lines, mut level) = fresh();
    p.state = vec![entry(SCALE / 2, SCALE / 4, 3, MouseAction::PlaceCollectible)];
    p.playback(8, &mut lines, &mut level);
    assert_eq!(level.collectibles.len(), 1);
    assert_eq!(level.collectibles[0].position, Vector2i::new(SCALE / 2, SCALE / 4));
    assert!(!level.collectibles[0].collected);
    assert_eq!(level.collectibles[0].alpha, 0);
    assert!(lines.line_points.is_empty());
}

#[test]
fn empty_log_completes_at_once() {
    let (mut p, mut lines, mut level) = fresh();
    p.playback(8, &mut lines, &mut level);
    assert!(p.complete);
    assert!(!p.playing);
}

#[test]
fn cursor_never_moves_back() {
    let (mut p, mut lines, mut level) = fresh();
    p.state = (0..20u32).map(|i| entry(i as i32 * SCALE / 10, 0, i * 7, MouseAction::PenMove)).collect();
    let mut last = 0;
    for _ in 0..30 {
        p.playback(6, &mut lines, &mut level);
        assert!(p.current_state >= last);
        assert!(p.current_state <= p.state.len());
        last = p.current_state;
    }
    assert!(p.complete);
}

#[test]
fn completion_after_budget_passes_last_frame() {
    let (mut p, mut lines, mut level) = fresh();
    p.state = vec![
        entry(0, 0, 10, MouseAction::PenMove),
        entry(SCALE, 0, 100, MouseAction::PenMove),
        entry(0, 0, 130, MouseAction::PenUp),
    ];
    let mut total = 0u32;
    while total <= 130 {
        p.playback(8, &mut lines, &mut level);
        total += 8;
    }
    assert!(p.complete);
    assert!(!p.playing);
    p.playback(8, &mut lines, &mut level);
    assert!(p.complete);
    assert!(!p.playing);
    assert_eq!(p.current_state, 3);
}

#[test]
fn play_until_end_replays_everything() {
    let (mut p, mut lines, mut level) = fresh();
    p.state = vec![
        entry(0, 0, 0, MouseAction::PenMove),
        entry(SCALE, 0, 900, MouseAction::PenMove),
        entry(0, 0, 901, MouseAction::PenUp),
        entry(0, SCALE, 5000, MouseAction::PlaceCollectible),
    ];
    p.play_until_end(&mut lines, &mut level);
    assert_eq!(p.current_state, 4);
    assert!(p.complete);
    assert!(!p.playing);
    assert_eq!(lines.line_points.len(), 2);
    assert_eq!(level.collectibles.len(), 1);
}

#[test]
fn recording_stamps_frames() {
    let mut p = MousePlayback::new();
    p.record_mouse(Vector2i::new(1, 1));
    assert!(p.state.is_empty());
    p.recording = true;
    p.increment_frame();
    p.increment_frame();
    p.record_mouse(Vector2i::new(1, 2));
    p.increment_frame();
    p.record_mouse_up();
    p.record_collectible(Vector2i::new(5, 6));
    assert_eq!(p.state.len(), 3);
    assert_eq!(p.state[0], entry(1, 2, 2, MouseAction::PenMove));
    assert_eq!(p.state[1], entry(0, 0, 3, MouseAction::PenUp));
    assert_eq!(p.state[2], entry(5, 6, 3, MouseAction::PlaceCollectible));
    assert_eq!(p.current_state, 3);
    assert_eq!(p.current_frame, 3);
}

#[test]
fn erase_rewind_pops_and_rewinds() {
    let mut p = MousePlayback::new();
    p.erase_rewind();
    assert!(p.state.is_empty());
    p.state = vec![entry(0, 0, 4, MouseAction::PenMove), entry(0, 0, 9, MouseAction::PenUp)];
    p.current_state = 2;
    p.current_frame = 50;
    p.erase_rewind();
    assert_eq!(p.state.len(), 1);
    assert_eq!(p.current_state, 1);
    assert_eq!(p.current_frame, 9);
    p.reset_playback();
    assert_eq!(p.current_state, 0);
    assert_eq!(p.current_frame, 0);
    assert_eq!(p.state.len(), 1);
}
