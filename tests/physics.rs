use linebound::ball::{reset, reset_ball, Ball, BALL_RADIUS, FADED_ALPHA, GROUNDED_FRAMES};
use linebound::geometry::{div_floor, isqrt, point_with_line_segment, Vector2i, SCALE};
use linebound::level::{Collectible, Color, Level, ALPHA_FULL};

fn ball_at(x: i32, y: i32, vx: i32, vy: i32) -> Ball {
    Ball {
        position: Vector2i::new(x, y),
        velocity: Vector2i::new(vx, vy),
        radius: BALL_RADIUS,
        color: Color::new(255, 255, 255, 255),
        alpha: ALPHA_FULL,
        moving: true,
        grounded: 0,
    }
}

fn floor_segment() -> Vec<Vector2i> {
    vec![Vector2i::new(0, 0), Vector2i::new(SCALE, 0)]
}

#[test]
fn falling_ball_bounces_off_floor() {
    let mut b = ball_at(SCALE / 2, 60_000, 0, -1_000);
    b.ball_physics(&floor_segment(), &[]);
    assert_eq!(b.velocity, Vector2i::new(0, 440));
    assert_eq!(b.position, Vector2i::new(SCALE / 2, 60_000 + 100 + 440));
    assert_eq!(b.grounded, GROUNDED_FRAMES);
}

#[test]
fn bounce_from_rest_on_floor() {
    let mut b = ball_at(SCALE / 4, 50_000, 0, 0);
    b.ball_physics(&[], &floor_segment());
    assert!(b.velocity.y > 0);
    assert_eq!(b.velocity.x, 0);
    assert_eq!(b.position.y, 50_000 + 100 + b.velocity.y);
}

#[test]
fn free_ball_falls() {
    let mut b = ball_at(SCALE / 2, SCALE, 7, 0);
    b.ball_physics(&floor_segment(), &floor_segment());
    assert_eq!(b.velocity, Vector2i::new(7, -100));
    assert_eq!(b.position, Vector2i::new(SCALE / 2 + 7, SCALE - 100));
    assert_eq!(b.grounded, -1);
}

#[test]
fn rising_ball_is_only_nudged() {
    let mut b = ball_at(SCALE / 2, 60_000, 0, 5_000);
    b.check_lines(&floor_segment());
    assert_eq!(b.velocity, Vector2i::new(0, 5_000));
    assert_eq!(b.position, Vector2i::new(SCALE / 2, 60_100));
}

#[test]
fn sink_tolerance_applies() {
    let mut b = ball_at(SCALE / 2, 69_000, 0, -1_000);
    b.check_lines(&floor_segment());
    assert_eq!(b.velocity, Vector2i::new(0, -1_000));
    let mut c = ball_at(SCALE / 2, 68_999, 0, -1_000);
    c.check_lines(&floor_segment());
    assert_eq!(c.velocity, Vector2i::new(0, 400));
}

#[test]
fn zero_length_segment_never_collides() {
    let mut b = ball_at(0, 0, 0, -1_000);
    b.check_lines(&[Vector2i::new(0, 0), Vector2i::new(0, 0)]);
    assert_eq!(b, ball_at(0, 0, 0, -1_000));
}

#[test]
fn diagonal_contact_pushes_along_normal() {
    let mut b = ball_at(30_000, 30_000, 0, 0);
    b.check_lines(&[Vector2i::new(-SCALE, SCALE), Vector2i::new(SCALE, -SCALE)]);
    assert_eq!(b.position, Vector2i::new(30_070, 30_070));
    assert_eq!(b.velocity, Vector2i::new(0, 0));
}

#[test]
fn closest_point_queries() {
    let (d2, c) = point_with_line_segment(Vector2i::new(5, 5), Vector2i::new(0, 0), Vector2i::new(10, 0));
    assert_eq!((d2, c), (25, Vector2i::new(5, 0)));
    let (d2, c) = point_with_line_segment(Vector2i::new(-3, 4), Vector2i::new(0, 0), Vector2i::new(10, 0));
    assert_eq!((d2, c), (25, Vector2i::new(0, 0)));
    let (d2, c) = point_with_line_segment(Vector2i::new(13, 4), Vector2i::new(0, 0), Vector2i::new(10, 0));
    assert_eq!((d2, c), (25, Vector2i::new(10, 0)));
    let (d2, c) = point_with_line_segment(Vector2i::new(1, 1), Vector2i::new(2, 2), Vector2i::new(2, 2));
    assert_eq!((d2, c), (2, Vector2i::new(2, 2)));
}

#[test]
fn integer_helpers() {
    assert_eq!(isqrt(0), 0);
    assert_eq!(isqrt(15), 3);
    assert_eq!(isqrt(16), 4);
    assert_eq!(isqrt(u128::MAX), u64::MAX as u128);
    assert_eq!(div_floor(-7, 2), -4);
    assert_eq!(div_floor(7, 2), 3);
    assert_eq!(div_floor(-8, 2), -4);
}

fn level_with(points: &[(i32, i32)]) -> Level {
    let c = Color::new(0, 0, 0, 255);
    let mut level = Level::new(Vector2i::new(0, 0), c, c);
    for p in points {
        level.collectibles.push(Collectible::new(Vector2i::new(p.0, p.1), ALPHA_FULL));
    }
    level
}

#[test]
fn pickup_happens_once() {
    let mut level = level_with(&[(0, 70_000), (0, 80_000), (SCALE, 0)]);
    let b = ball_at(0, 0, 0, 0);
    assert_eq!(b.check_for_collectibles(&mut level), (true, 70_000));
    assert_eq!(level.collected, 1);
    assert!(level.collectibles[0].collected);
    assert_eq!(level.collectibles[0].alpha, FADED_ALPHA);
    assert!(!level.collectibles[1].collected);
    assert!(!level.complete);
    assert_eq!(b.check_for_collectibles(&mut level), (false, 0));
    assert_eq!(level.collected, 1);
    let b2 = ball_at(0, 10_000, 0, 0);
    assert_eq!(b2.check_for_collectibles(&mut level), (true, 80_000));
    assert_eq!(level.collected, 2);
    assert_eq!(b2.check_for_collectibles(&mut level), (false, 0));
    assert_eq!(level.collected, 2);
}

#[test]
fn collecting_everything_completes_level() {
    let mut level = level_with(&[(0, 10_000), (10_000, 0)]);
    let b = ball_at(0, 0, 0, 0);
    assert_eq!(b.check_for_collectibles(&mut level), (true, 10_000));
    assert_eq!(level.collected, 2);
    assert!(level.complete);
}

#[test]
fn reset_restores_collectibles() {
    let mut level = level_with(&[(0, 10_000)]);
    level.start_position = Vector2i::new(5, 6);
    let mut b = ball_at(0, 0, 3, 3);
    b.check_for_collectibles(&mut level);
    assert!(level.complete);
    reset(&mut b, &mut level);
    assert_eq!(b.position, Vector2i::new(5, 6));
    assert_eq!(b.velocity, Vector2i::new(0, 0));
    assert!(!b.moving);
    assert_eq!(b.alpha, FADED_ALPHA);
    assert_eq!(level.collected, 0);
    assert!(!level.complete);
    assert!(!level.collectibles[0].collected);
    let mut still = ball_at(1, 1, 0, 0);
    still.moving = false;
    reset_ball(&mut still, &level);
    assert_eq!(still.alpha, ALPHA_FULL);
}

#[test]
fn level_collect_and_clear() {
    let mut level = level_with(&[(0, 0), (1, 1)]);
    level.collect(1);
    assert!(!level.complete);
    level.collect(1);
    assert!(level.complete);
    level.clear();
    assert!(level.collectibles.is_empty());
    assert_eq!(level.collected, 0);
    assert!(!level.complete);
}

#[test]
fn pickup_reports_highest_item() {
    let mut level = level_with(&[(0, 20_000), (0, 5_000), (0, -30_000)]);
    let b = ball_at(0, 0, 0, 0);
    assert_eq!(b.check_for_collectibles(&mut level), (true, 20_000));
    assert_eq!(level.collected, 3);
    let mut low = level_with(&[(0, -30_000), (0, -10_000)]);
    assert_eq!(b.check_for_collectibles(&mut low), (true, -10_000));
}
