use linebound::editor::EditorEvent;
use linebound::game::{Game, GameEvent, LEVEL_ALPHA_FULL};
use linebound::geometry::{Vector2i, SCALE};
use linebound::level::Color;

fn game(levels: usize) -> Game {
    let c = Color::new(138, 132, 170, 255);
    Game::new(levels, c, Color::new(88, 65, 226, 255))
}

#[test]
fn level_replays_then_ball_spawns() {
    let mut g = game(2);
    assert_eq!(g.load_level("0.5 0.5 0 0.4 0 1 0.4 30 a 31 b 0.5 0.3 40 "), Ok(()));
    assert_eq!(g.ball.position, Vector2i::new(SCALE / 2, SCALE / 2));
    let mut frames = 0;
    while !g.level.setup {
        g.frame();
        frames += 1;
        assert!(frames < 100);
    }
    assert!(g.mouse_playback.complete);
    assert_eq!(g.lines.line_points, vec![Vector2i::new(0, 400_000), Vector2i::new(SCALE, 400_000)]);
    assert_eq!(g.level.collectibles.len(), 1);
    g.handle_event(GameEvent::Release);
    assert!(g.ball.moving);
    for _ in 0..200 {
        g.frame();
    }
    assert!(g.ball.position.y > 300_000);
}

#[test]
fn malformed_level_is_reported() {
    let mut g = game(1);
    assert!(g.load_level("0.5 nope").is_err());
    assert!(g.mouse_playback.state.is_empty());
}

#[test]
fn player_draws_and_erases() {
    let mut g = game(1);
    g.handle_event(GameEvent::LeftDown);
    g.handle_event(GameEvent::PointerMoved(Vector2i::new(0, 0)));
    g.handle_event(GameEvent::PointerMoved(Vector2i::new(SCALE, 0)));
    g.handle_event(GameEvent::LeftUp);
    assert_eq!(g.user_lines.line_points.len(), 2);
    g.handle_event(GameEvent::PointerMoved(Vector2i::new(SCALE / 2, 0)));
    g.handle_event(GameEvent::RightDown);
    g.frame();
    assert!(g.user_lines.line_points.is_empty());
}

#[test]
fn falling_ball_is_reset() {
    let mut g = game(1);
    g.load_level("0.5 0.5 ").unwrap();
    g.frame();
    g.handle_event(GameEvent::Release);
    g.ball.position = Vector2i::new(SCALE / 2, -1);
    g.frame();
    assert!(!g.ball.moving);
    assert_eq!(g.ball.position, Vector2i::new(SCALE / 2, SCALE / 2));
}

#[test]
fn completed_level_fades_to_the_next() {
    let mut g = game(3);
    g.load_level("0 0 ").unwrap();
    g.level.complete = true;
    let mut requested = None;
    for _ in 0..100 {
        let out = g.frame();
        if out.load_level.is_some() {
            requested = out.load_level;
            break;
        }
    }
    assert_eq!(requested, Some(1));
    assert_eq!(g.current_level, 1);
    assert!(g.fade_in);
    for _ in 0..60 {
        g.frame();
    }
    assert_eq!(g.level_alpha, LEVEL_ALPHA_FULL);
    assert!(!g.fade_in);
}

#[test]
fn loading_resets_strokes_and_clock() {
    let mut g = game(1);
    g.handle_event(GameEvent::LeftDown);
    g.handle_event(GameEvent::PointerMoved(Vector2i::new(0, 0)));
    g.mouse_playback.current_frame = 55;
    g.load_level("0 0 0 0 1 ").unwrap();
    assert!(g.user_lines.last_position.is_none());
    assert!(g.lines.last_position.is_none());
    assert_eq!(g.mouse_playback.current_frame, 0);
    assert_eq!(g.mouse_playback.current_state, 0);
}

#[test]
fn click_at_start_releases_and_moves_in_same_frame() {
    let mut g = game(1);
    g.load_level("0.5 0.5 ").unwrap();
    g.frame();
    assert!(g.mouse_playback.complete);
    assert!(!g.level.setup);
    g.frame();
    assert!(g.level.setup);
    assert!(!g.ball.moving);
    g.handle_event(GameEvent::PointerMoved(Vector2i::new(SCALE / 2, SCALE / 2)));
    g.handle_event(GameEvent::LeftDown);
    g.frame();
    assert!(g.ball.moving);
    assert_eq!(g.ball.velocity, Vector2i::new(0, -100));
    assert_eq!(g.ball.position, Vector2i::new(SCALE / 2, SCALE / 2 - 100));
}

#[test]
fn ball_at_rest_stays_put() {
    let mut g = game(1);
    g.load_level("0.5 0.5 ").unwrap();
    g.frame();
    g.frame();
    let before = g.ball.position;
    for _ in 0..5 {
        g.frame();
    }
    assert_eq!(g.ball.position, before);
    assert_eq!(g.ball.velocity, Vector2i::new(0, 0));
}

#[test]
fn editor_events_go_through_the_session() {
    let mut g = game(1);
    g.editor.active = true;
    g.editor_event(EditorEvent::LeftDown);
    g.editor_event(EditorEvent::PointerMoved(Vector2i::new(0, 0)));
    g.editor_event(EditorEvent::PointerMoved(Vector2i::new(SCALE, 0)));
    g.editor_event(EditorEvent::LeftUp);
    assert_eq!(g.lines.line_points.len(), 2);
    assert_eq!(g.editor_event(EditorEvent::Save), Some("0 0 0 0 0 1 0 0 a 0 ".to_string()));
    g.editor_event(EditorEvent::Rewind);
    assert_eq!(g.mouse_playback.state.len(), 2);
}
