use linebound::editor::{Editor, EditorEvent};
use linebound::geometry::{Vector2i, SCALE};
use linebound::level::{Color, Level};
use linebound::lines::Lines;
use linebound::mesh::Mesh;
use linebound::playback::{MouseAction, MousePlayback};

struct Session {
    editor: Editor,
    playback: MousePlayback,
    level: Level,
    lines: Lines,
}

fn session() -> Session {
    let c = Color::new(10, 20, 30, 255);
    Session {
        editor: Editor::new(),
        playback: MousePlayback::new(),
        level: Level::new(Vector2i::new(0, 0), c, c),
        lines: Lines::new(),
    }
}

impl Session {
    fn send(&mut self, e: EditorEvent) -> Option<String> {
        self.editor.update(e, &mut self.playback, &mut self.level, &mut self.lines)
    }
}

#[test]
fn drawing_records_and_draws() {
    let mut s = session();
    s.send(EditorEvent::PointerMoved(Vector2i::new(SCALE, SCALE)));
    assert!(s.playback.state.is_empty());
    s.send(EditorEvent::LeftDown);
    s.playback.increment_frame();
    s.send(EditorEvent::PointerMoved(Vector2i::new(SCALE, SCALE)));
    s.playback.increment_frame();
    s.send(EditorEvent::PointerMoved(Vector2i::new(2 * SCALE, SCALE)));
    s.send(EditorEvent::LeftUp);
    assert!(s.playback.recording);
    assert_eq!(s.playback.state.len(), 3);
    assert_eq!(s.playback.state[0].frame, 1);
    assert_eq!(s.playback.state[1].frame, 2);
    assert_eq!(s.playback.state[2].kind, MouseAction::PenUp);
    assert_eq!(s.lines.line_points, vec![Vector2i::new(SCALE, SCALE), Vector2i::new(2 * SCALE, SCALE)]);
    assert!(s.lines.last_position.is_none());
    let text = s.send(EditorEvent::Save).unwrap();
    assert_eq!(text, "0 0 1 1 1 2 1 2 a 2 ");
}

#[test]
fn rewind_undoes_and_replays() {
    let mut s = session();
    s.send(EditorEvent::LeftDown);
    s.send(EditorEvent::PointerMoved(Vector2i::new(0, 0)));
    s.send(EditorEvent::PointerMoved(Vector2i::new(SCALE, 0)));
    s.send(EditorEvent::PointerMoved(Vector2i::new(SCALE, SCALE)));
    s.send(EditorEvent::LeftUp);
    assert_eq!(s.lines.line_points.len(), 4);
    s.send(EditorEvent::Rewind);
    assert_eq!(s.playback.state.len(), 3);
    assert_eq!(s.lines.line_points.len(), 4);
    assert!(s.playback.complete);
    s.send(EditorEvent::Rewind);
    assert_eq!(s.playback.state.len(), 2);
    assert_eq!(s.lines.line_points, vec![Vector2i::new(0, 0), Vector2i::new(SCALE, 0)]);
    s.send(EditorEvent::RewindRepeat);
    assert!(s.playback.state.is_empty());
    assert!(s.lines.line_points.is_empty());
}

#[test]
fn collectible_key_places_and_records() {
    let mut s = session();
    s.send(EditorEvent::PointerMoved(Vector2i::new(3, 4)));
    s.send(EditorEvent::PlaceCollectible);
    assert_eq!(s.level.collectibles.len(), 1);
    assert_eq!(s.level.collectibles[0].position, Vector2i::new(3, 4));
    assert_eq!(s.playback.state.len(), 1);
    assert_eq!(s.playback.state[0].kind, MouseAction::PlaceCollectible);
    s.send(EditorEvent::ClearAll);
    assert!(s.level.collectibles.is_empty());
    assert!(s.playback.state.is_empty());
}

#[test]
fn start_position_drags_with_pointer() {
    let mut s = session();
    s.send(EditorEvent::PointerMoved(Vector2i::new(10_000, 0)));
    s.send(EditorEvent::LeftDown);
    s.send(EditorEvent::Draw);
    assert!(s.editor.dragging_start);
    s.send(EditorEvent::PointerMoved(Vector2i::new(SCALE, SCALE)));
    assert!(s.playback.state.is_empty());
    s.send(EditorEvent::Draw);
    assert_eq!(s.level.start_position, Vector2i::new(SCALE, SCALE));
    s.send(EditorEvent::LeftUp);
    s.send(EditorEvent::Draw);
    assert!(!s.editor.dragging_start);
}

#[test]
fn pointer_far_from_start_does_not_drag() {
    let mut s = session();
    s.send(EditorEvent::PointerMoved(Vector2i::new(50_000, 0)));
    s.send(EditorEvent::LeftDown);
    s.send(EditorEvent::Draw);
    assert!(!s.editor.dragging_start);
    assert_eq!(s.level.start_position, Vector2i::new(0, 0));
}

#[test]
fn mesh_counts_indices() {
    let mut m = Mesh::new(3, 4, 5);
    assert_eq!((m.vertex_buffer(), m.index_buffer(), m.count()), (3, 4, 15));
    m.set_triangles(2);
    assert_eq!(m.count(), 6);
}

#[test]
fn undo_leaves_cursor_at_end() {
    let mut s = session();
    s.send(EditorEvent::LeftDown);
    s.send(EditorEvent::PointerMoved(Vector2i::new(0, 0)));
    s.send(EditorEvent::PointerMoved(Vector2i::new(SCALE, 0)));
    s.send(EditorEvent::LeftUp);
    s.playback.playing = true;
    s.send(EditorEvent::Rewind);
    assert_eq!(s.playback.current_state, s.playback.state.len());
    assert!(s.playback.complete);
    assert!(!s.playback.playing);
    s.send(EditorEvent::ClearAll);
    assert_eq!(s.playback.current_state, 0);
    assert_eq!(s.playback.current_frame, 0);
}
