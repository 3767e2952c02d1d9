use linebound::geometry::{Vector2i, SCALE};
use linebound::level::{Color, Level};
use linebound::level_file::{load, save, LoadError};
use linebound::playback::{MouseAction, MousePlayback, MouseState};

fn entry(x: i32, y: i32, frame: u32, kind: MouseAction) -> MouseState {
    MouseState { position: Vector2i::new(x, y), frame, kind }
}

fn blank_level() -> Level {
    let c = Color::new(1, 2, 3, 255);
    Level::new(Vector2i::new(0, 0), c, c)
}

fn sample_log() -> Vec<MouseState> {
    vec![
        entry(3 * SCALE / 2, -SCALE / 4, 3, MouseAction::PenMove),
        entry(0, 0, 4, MouseAction::PenUp),
        entry(1, 2 * SCALE, 10, MouseAction::PlaceCollectible),
    ]
}

#[test]
fn save_writes_exact_text() {
    let mut p = MousePlayback::new();
    p.state = sample_log();
    let level = blank_level();
    let text = save(&p, &level);
    assert_eq!(text, "0 0 1.5 -0.25 3 a 4 b 0.000001 2 10 ");
}

#[test]
fn save_writes_shortest_decimals() {
    let mut p = MousePlayback::new();
    p.state = vec![
        entry(SCALE, 2 * SCALE, 3, MouseAction::PenMove),
        entry(0, 0, 4, MouseAction::PenUp),
        entry(SCALE / 2, SCALE / 4, 5, MouseAction::PlaceCollectible),
    ];
    let level = blank_level();
    assert_eq!(save(&p, &level), "0 0 1 2 3 a 4 b 0.5 0.25 5 ");
}

#[test]
fn save_then_load_round_trips() {
    let mut p = MousePlayback::new();
    p.state = sample_log();
    p.state.push(entry(i32::MIN, i32::MAX, u32::MAX, MouseAction::PenMove));
    let mut level = blank_level();
    level.start_position = Vector2i::new(-1_250_000, 7);
    let text = save(&p, &level);
    let mut q = MousePlayback::new();
    let mut level2 = blank_level();
    assert_eq!(load(&mut q, &mut level2, &text), Ok(()));
    assert_eq!(q.state, p.state);
    assert_eq!(level2.start_position, Vector2i::new(-1_250_000, 7));
}

#[test]
fn load_reads_shortest_decimals() {
    let mut p = MousePlayback::new();
    let mut level = blank_level();
    let r = load(&mut p, &mut level, "0.5 0.25 0.1234567 1 0 a 7 b -0.02 3 9 ");
    assert_eq!(r, Ok(()));
    assert_eq!(level.start_position, Vector2i::new(500_000, 250_000));
    assert_eq!(
        p.state,
        vec![
            entry(123_456, SCALE, 0, MouseAction::PenMove),
            entry(0, 0, 7, MouseAction::PenUp),
            entry(-20_000, 3 * SCALE, 9, MouseAction::PlaceCollectible),
        ]
    );
}

#[test]
fn load_tolerates_empty_tokens() {
    let mut p = MousePlayback::new();
    let mut level = blank_level();
    assert_eq!(load(&mut p, &mut level, "0 0"), Ok(()));
    assert!(p.state.is_empty());
    assert_eq!(load(&mut p, &mut level, "1 2  3 4 5  "), Ok(()));
    assert_eq!(level.start_position, Vector2i::new(SCALE, 2 * SCALE));
    assert_eq!(p.state, vec![entry(3 * SCALE, 4 * SCALE, 5, MouseAction::PenMove)]);
}

#[test]
fn load_rejects_malformed_text() {
    let bad = [
        "",
        "0",
        "0 ",
        "0 0 a",
        "0 0 a x",
        "0 0 1 2",
        "0 0 b 1 2",
        "0 0 1.2.3 1 1",
        "0 0 1. 1 1",
        "0 0 .5 1 1",
        "0 0 1 1 4294967296",
        "0 0 1 1 -1",
        "2147.483648 0",
        "0 0 1e3 1 1",
        "x 0",
    ];
    for text in bad.iter() {
        let mut p = MousePlayback::new();
        p.state = sample_log();
        let mut level = blank_level();
        level.start_position = Vector2i::new(9, 9);
        assert_eq!(load(&mut p, &mut level, text), Err(LoadError::Malformed), "{}", text);
        assert_eq!(p.state, sample_log());
        assert_eq!(level.start_position, Vector2i::new(9, 9));
    }
}

#[test]
fn load_accepts_extreme_values() {
    let mut p = MousePlayback::new();
    let mut level = blank_level();
    assert_eq!(load(&mut p, &mut level, "-2147.483648 2147.483647 0 0 4294967295 "), Ok(()));
    assert_eq!(level.start_position, Vector2i::new(i32::MIN, i32::MAX));
    assert_eq!(p.state, vec![entry(0, 0, u32::MAX, MouseAction::PenMove)]);
}

#[test]
fn load_rewinds_the_cursor() {
    let mut p = MousePlayback::new();
    p.current_state = 0;
    p.current_frame = 77;
    let mut level = blank_level();
    assert_eq!(load(&mut p, &mut level, "0 0 1 1 5 "), Ok(()));
    assert_eq!(p.current_frame, 0);
    assert_eq!(p.current_state, 0);
}
