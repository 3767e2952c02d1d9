use linebound::geometry::{Vector2i, SCALE};
use linebound::lines::{Lines, MIN_STROKE_STEP};

#[test]
fn erase_removes_segment_through_origin() {
    let mut lines = Lines::new();
    lines.add_segment(Vector2i::new(-SCALE, 0));
    lines.add_segment(Vector2i::new(SCALE, 0));
    assert_eq!(lines.line_points.len(), 2);
    lines.needs_update = false;
    lines.erase(Vector2i::new(0, 0), SCALE / 10);
    assert!(lines.line_points.is_empty());
    assert!(lines.needs_update);
}

#[test]
fn erase_keeps_far_segments_in_order() {
    let mut lines = Lines::new();
    lines.line_points = vec![
        Vector2i::new(0, SCALE),
        Vector2i::new(SCALE, SCALE),
        Vector2i::new(0, 0),
        Vector2i::new(SCALE, 0),
        Vector2i::new(0, 2 * SCALE),
        Vector2i::new(SCALE, 2 * SCALE),
    ];
    lines.needs_update = false;
    lines.erase(Vector2i::new(SCALE / 2, 0), 60_000);
    assert_eq!(
        lines.line_points,
        vec![
            Vector2i::new(0, SCALE),
            Vector2i::new(SCALE, SCALE),
            Vector2i::new(0, 2 * SCALE),
            Vector2i::new(SCALE, 2 * SCALE),
        ]
    );
    assert!(lines.needs_update);
}

#[test]
fn erase_missing_everything_changes_nothing() {
    let mut lines = Lines::new();
    lines.line_points = vec![Vector2i::new(0, SCALE), Vector2i::new(SCALE, SCALE)];
    lines.erase(Vector2i::new(0, 0), 60_000);
    assert_eq!(lines.line_points.len(), 2);
    assert!(!lines.needs_update);
}

#[test]
fn erase_reach_includes_line_radius() {
    let mut lines = Lines::new();
    lines.line_points = vec![Vector2i::new(0, 69_999), Vector2i::new(SCALE, 69_999)];
    lines.erase(Vector2i::new(0, 0), 60_000);
    assert!(lines.line_points.is_empty());
    lines.line_points = vec![Vector2i::new(0, 70_000), Vector2i::new(SCALE, 70_000)];
    lines.erase(Vector2i::new(0, 0), 60_000);
    assert_eq!(lines.line_points.len(), 2);
}

#[test]
fn close_samples_are_dropped() {
    let mut lines = Lines::new();
    lines.add_segment(Vector2i::new(0, 0));
    assert!(lines.line_points.is_empty());
    lines.add_segment(Vector2i::new(MIN_STROKE_STEP, 0));
    assert!(lines.line_points.is_empty());
    lines.add_segment(Vector2i::new(MIN_STROKE_STEP + 1, 0));
    assert_eq!(lines.line_points, vec![Vector2i::new(0, 0), Vector2i::new(MIN_STROKE_STEP + 1, 0)]);
    assert_eq!(lines.last_position, Some(Vector2i::new(MIN_STROKE_STEP + 1, 0)));
}

#[test]
fn stored_segments_are_long_enough() {
    let mut lines = Lines::new();
    let mut x: i32 = 0;
    for i in 0..200 {
        x += (i % 7) * 3_000;
        lines.add_segment(Vector2i::new(x, (i % 5) * 2_000));
        if i % 50 == 49 {
            lines.end_segment();
        }
    }
    assert!(!lines.line_points.is_empty());
    for pair in lines.line_points.chunks(2) {
        let dx = (pair[0].x - pair[1].x) as i64;
        let dy = (pair[0].y - pair[1].y) as i64;
        let step = MIN_STROKE_STEP as i64;
        assert!(dx * dx + dy * dy > step * step);
    }
}

#[test]
fn end_segment_starts_a_new_stroke() {
    let mut lines = Lines::new();
    lines.add_segment(Vector2i::new(0, 0));
    lines.add_segment(Vector2i::new(SCALE, 0));
    lines.end_segment();
    lines.add_segment(Vector2i::new(0, SCALE));
    assert_eq!(lines.line_points.len(), 2);
    lines.add_segment(Vector2i::new(SCALE, SCALE));
    assert_eq!(lines.line_points.len(), 4);
    assert_eq!(lines.line_points[2], Vector2i::new(0, SCALE));
    lines.clear();
    assert!(lines.line_points.is_empty());
    assert!(lines.last_position.is_none());
    assert!(lines.needs_update);
}
