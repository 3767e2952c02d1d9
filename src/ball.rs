//! Point-mass ball physics with penalty collision against line segments, and
//! collectible pickup.
use crate::geometry::{
    clamp_i32, closer_than, closest_x, closest_y, div_floor, floor_sqrt, is_floor_sqrt, isqrt,
    lemma_mul_bound, point_with_line_segment, saturate_i32, seg_len_sq, seg_param, Vector2i,
    LINE_RADIUS,
};
use crate::level::{count_collected, lemma_count_le_len, Collectible, Color, Level};
use vstd::prelude::*;

verus! {

/// Radius of the ball (0.06 world units).
pub const BALL_RADIUS: i32 = 60_000;

/// How far the ball may sink into a line before it collides (0.001 units).
pub const SINK_TOLERANCE: i32 = 1_000;

/// Downward acceleration per frame (0.0001 units per frame squared).
pub const GRAVITY: i32 = 100;

/// Distance a contact pushes the ball out along the collision normal.
pub const CONTACT_NUDGE: i32 = 100;

/// Fraction of the normal velocity removed on contact: 7/5, i.e. 1.4.
pub const BOUNCE_NUM: i32 = 7;

pub const BOUNCE_DEN: i32 = 5;

/// Value the contact counter is set to on every contact.
pub const GROUNDED_FRAMES: i32 = 10;

/// Opacity, in thousandths, of a collectible once picked up and of a ball
/// just put back at the start.
pub const FADED_ALPHA: u32 = 100;

/// The ball the player releases down the lines.
#[derive(Clone, Copy, Debug, PartialEq, Eq, Structural)]
pub struct Ball {
    pub position: Vector2i,
    /// Displacement per frame.
    pub velocity: Vector2i,
    pub radius: i32,
    pub color: Color,
    /// Visual opacity, in thousandths.
    pub alpha: u32,
    pub moving: bool,
    /// Frames since the last contact, counted down from `GROUNDED_FRAMES`.
    pub grounded: i32,
}

/// Distance below which the ball's centre collides with a line's centre.
pub open spec fn contact_reach(b: Ball) -> int {
    b.radius + LINE_RADIUS - SINK_TOLERANCE
}

/// The ball after resolving a contact with segment `ac`, if there is one.
/// A zero-length segment never collides. The collision normal is the direction
/// from the closest point of the segment to the ball; velocity moving into the
/// surface loses 1.4 times its normal component, and the ball is pushed out by
/// `CONTACT_NUDGE` along the normal. A ball whose centre lies on the segment
/// has no normal: only the contact counter is set.
pub open spec fn collide_one(b: Ball, a: Vector2i, c: Vector2i) -> Ball {
    let dx = b.position.x - closest_x(b.position, a, c);
    let dy = b.position.y - closest_y(b.position, a, c);
    let dd = dx * dx + dy * dy;
    let reach = contact_reach(b);
    if seg_len_sq(a, c) == 0 || !(reach > 0 && dd < reach * reach) {
        b
    } else if dd == 0 {
        Ball { grounded: GROUNDED_FRAMES, ..b }
    } else {
        let vn = dx * b.velocity.x + dy * b.velocity.y;
        let vx = if vn < 0 {
            clamp_i32(b.velocity.x - dx * vn * BOUNCE_NUM / (dd * BOUNCE_DEN))
        } else {
            b.velocity.x as int
        };
        let vy = if vn < 0 {
            clamp_i32(b.velocity.y - dy * vn * BOUNCE_NUM / (dd * BOUNCE_DEN))
        } else {
            b.velocity.y as int
        };
        let len = floor_sqrt(dd);
        let px = clamp_i32(b.position.x + dx * CONTACT_NUDGE / len);
        let py = clamp_i32(b.position.y + dy * CONTACT_NUDGE / len);
        Ball {
            position: Vector2i { x: px as i32, y: py as i32 },
            velocity: Vector2i { x: vx as i32, y: vy as i32 },
            grounded: GROUNDED_FRAMES,
            ..b
        }
    }
}

/// The ball after resolving contacts with the first `k` segments of `pts`,
/// in order.
pub open spec fn collide_all(b: Ball, pts: Seq<Vector2i>, k: int) -> Ball
    decreases k,
{
    if k <= 0 {
        b
    } else {
        collide_one(collide_all(b, pts, k - 1), pts[2 * k - 2], pts[2 * k - 1])
    }
}

/// One physics frame: the contact counter counts down, gravity acts, contacts
/// with the level's segments and then the player's are resolved, and the ball
/// moves by its velocity. Coordinates saturate at the range of `i32`.
pub open spec fn ball_step(b: Ball, pts: Seq<Vector2i>, user: Seq<Vector2i>) -> Ball {
    let b1 = Ball {
        grounded: clamp_i32(b.grounded - 1) as i32,
        velocity: Vector2i { x: b.velocity.x, y: clamp_i32(b.velocity.y - GRAVITY) as i32 },
        ..b
    };
    let b2 = collide_all(b1, pts, pts.len() as int / 2);
    let b3 = collide_all(b2, user, user.len() as int / 2);
    Ball {
        position: Vector2i {
            x: clamp_i32(b3.position.x + b3.velocity.x) as i32,
            y: clamp_i32(b3.position.y + b3.velocity.y) as i32,
        },
        ..b3
    }
}

/// The ball touches collectible `c`, which is still available.
pub open spec fn touches(b: Ball, c: Collectible) -> bool {
    !c.collected && closer_than(b.position.x as int, b.position.y as int, c.position, b.radius + c.radius)
}

/// `c` after the ball's pickup check.
pub open spec fn picked(b: Ball, c: Collectible) -> Collectible {
    if touches(b, c) {
        Collectible { collected: true, alpha: FADED_ALPHA, ..c }
    } else {
        c
    }
}

/// Every collectible after the ball's pickup check.
pub open spec fn pick_all(b: Ball, cs: Seq<Collectible>) -> Seq<Collectible> {
    Seq::new(cs.len(), |i: int| picked(b, cs[i]))
}

/// Height of the highest collectible the ball picks up from `cs`, if it picks
/// up any.
pub open spec fn highest_pick(b: Ball, cs: Seq<Collectible>) -> Option<int>
    decreases cs.len(),
{
    if cs.len() == 0 {
        None
    } else {
        let rest = highest_pick(b, cs.drop_last());
        let y = cs.last().position.y as int;
        if touches(b, cs.last()) {
            match rest {
                Some(h) => Some(if h >= y { h } else { y }),
                None => Some(y),
            }
        } else {
            rest
        }
    }
}

/// The highest pickup height, or 0 when nothing is picked up.
pub open spec fn pick_height(b: Ball, cs: Seq<Collectible>) -> int {
    match highest_pick(b, cs) {
        Some(h) => h,
        None => 0,
    }
}

impl Ball {
    fn collide_with(&mut self, a: Vector2i, c: Vector2i)
        ensures
            *final(self) == collide_one(*old(self), a, c),
    {
        let (d2, closest) = point_with_line_segment(self.position, a, c);
        let lx = c.x as i128 - a.x as i128;
        let ly = c.y as i128 - a.y as i128;
        proof {
            lemma_mul_bound(lx as int, lx as int, 0x1_0000_0000, 0x1_0000_0000);
            lemma_mul_bound(ly as int, ly as int, 0x1_0000_0000, 0x1_0000_0000);
        }
        let den = lx * lx + ly * ly;
        let reach = self.radius as i128 + LINE_RADIUS as i128 - SINK_TOLERANCE as i128;
        proof {
            lemma_mul_bound(reach as int, reach as int, 0x1_0000_0000, 0x1_0000_0000);
        }
        if den == 0 || !(reach > 0 && d2 < reach * reach) {
            return;
        }
        let dx = self.position.x as i128 - closest.x as i128;
        let dy = self.position.y as i128 - closest.y as i128;
        assert(d2 == dx * dx + dy * dy);
        assert(0 <= dx * dx) by (nonlinear_arith);
        assert(0 <= dy * dy) by (nonlinear_arith);
        if d2 == 0 {
            self.grounded = GROUNDED_FRAMES;
            return;
        }
        let vx = self.velocity.x as i128;
        let vy = self.velocity.y as i128;
        proof {
            lemma_mul_bound(dx as int, vx as int, 0x1_0000_0000, 0x1_0000_0000);
            lemma_mul_bound(dy as int, vy as int, 0x1_0000_0000, 0x1_0000_0000);
            lemma_mul_bound(dx as int, dx as int, 0x1_0000_0000, 0x1_0000_0000);
            lemma_mul_bound(dy as int, dy as int, 0x1_0000_0000, 0x1_0000_0000);
        }
        let vn = dx * vx + dy * vy;
        if vn < 0 {
            proof {
                lemma_mul_bound(dx as int, vn as int, 0x1_0000_0000, 0x2_0000_0000_0000_0000);
                lemma_mul_bound(dy as int, vn as int, 0x1_0000_0000, 0x2_0000_0000_0000_0000);
                assert(0 < d2 * 5 <= 0x2_0000_0000_0000_0000 * 5) by (nonlinear_arith)
                    requires
                        0 < d2 <= 0x2_0000_0000_0000_0000,
                ;
            }
            let qx = div_floor(dx * vn * BOUNCE_NUM as i128, d2 * BOUNCE_DEN as i128);
            let qy = div_floor(dy * vn * BOUNCE_NUM as i128, d2 * BOUNCE_DEN as i128);
            self.velocity = Vector2i { x: saturate_i32(vx - qx), y: saturate_i32(vy - qy) };
        }
        assert(1 <= d2 < 0x1_0000_0000_0000_0000_0000);
        let len = isqrt(d2 as u128);
        assert(len >= 1) by (nonlinear_arith)
            requires
                is_floor_sqrt(d2 as int, len as int),
                d2 >= 1,
        ;
        assert(len <= 0x1_0000_0000_0000) by (nonlinear_arith)
            requires
                is_floor_sqrt(d2 as int, len as int),
                d2 < 0x1_0000_0000_0000_0000_0000,
        ;
        let len = len as i128;
        let nx = div_floor(dx * CONTACT_NUDGE as i128, len);
        let ny = div_floor(dy * CONTACT_NUDGE as i128, len);
        self.position = Vector2i {
            x: saturate_i32(self.position.x as i128 + nx),
            y: saturate_i32(self.position.y as i128 + ny),
        };
        self.grounded = GROUNDED_FRAMES;
    }

    /// Resolves contacts with every segment of `points` (pairs of points), in
    /// order.
    pub fn check_lines(&mut self, points: &[Vector2i])
        ensures
            *final(self) == collide_all(*old(self), points@, points@.len() as int / 2),
    {
        let n = points.len();
        let mut i: usize = 1;
        while i < n
            invariant
                n == points@.len(),
                i % 2 == 1,
                1 <= i <= n + 1,
                *self == collide_all(*old(self), points@, (i - 1) / 2),
            decreases n + 1 - i,
        {
            self.collide_with(points[i - 1], points[i]);
            i = i + 2;
        }
    }

    /// Advances the ball by one frame against the level's segments and the
    /// player's.
    pub fn ball_physics(&mut self, points: &[Vector2i], user_lines: &[Vector2i])
        ensures
            *final(self) == ball_step(*old(self), points@, user_lines@),
    {
        if self.grounded > i32::MIN {
            self.grounded = self.grounded - 1;
        }
        self.velocity.y = saturate_i32(self.velocity.y as i128 - GRAVITY as i128);
        self.check_lines(points);
        self.check_lines(user_lines);
        self.position = Vector2i {
            x: saturate_i32(self.position.x as i128 + self.velocity.x as i128),
            y: saturate_i32(self.position.y as i128 + self.velocity.y as i128),
        };
    }

    /// Picks up every available collectible the ball touches and adds them to
    /// the level's count. Returns whether any was picked up, and the height of
    /// the highest one picked up (0 if none).
    pub fn check_for_collectibles(&self, level: &mut Level) -> (r: (bool, i32))
        requires
            old(level).wf(),
        ensures
            final(level).collectibles@ == pick_all(*self, old(level).collectibles@),
            r.0 == (count_collected(final(level).collectibles@) > old(level).collected),
            r.1 == pick_height(*self, old(level).collectibles@),
            final(level).collected == count_collected(final(level).collectibles@),
            r.0 ==> final(level).complete == (old(level).complete || final(level).collected
                >= old(level).collectibles@.len()),
            !r.0 ==> final(level).complete == old(level).complete,
            final(level).start_position == old(level).start_position,
            final(level).line_color == old(level).line_color,
            final(level).user_line_color == old(level).user_line_color,
            final(level).setup == old(level).setup,
            final(level).wf(),
    {
        let ghost cs0 = level.collectibles@;
        let n = level.collectibles.len();
        let mut count: usize = 0;
        let mut height: Option<i32> = None;
        let mut i: usize = 0;
        while i < n
            invariant
                n == cs0.len(),
                level.collectibles@.len() == n,
                i <= n,
                forall|j: int| 0 <= j < i ==> #[trigger] level.collectibles@[j] == picked(*self, cs0[j]),
                forall|j: int| i <= j < n ==> #[trigger] level.collectibles@[j] == cs0[j],
                count + count_collected(cs0.take(i as int)) == count_collected(
                    level.collectibles@.take(i as int),
                ),
                count <= i,
                match height {
                    Some(h) => highest_pick(*self, cs0.take(i as int)) == Some(h as int),
                    None => highest_pick(*self, cs0.take(i as int)) is None,
                },
                level.collected == old(level).collected,
                level.complete == old(level).complete,
                level.start_position == old(level).start_position,
                level.line_color == old(level).line_color,
                level.user_line_color == old(level).user_line_color,
                level.setup == old(level).setup,
            decreases n - i,
        {
            let c = level.collectibles[i];
            let ghost before = level.collectibles@;
            let dx = self.position.x as i128 - c.position.x as i128;
            let dy = self.position.y as i128 - c.position.y as i128;
            let reach = self.radius as i128 + c.radius as i128;
            proof {
                lemma_mul_bound(dx as int, dx as int, 0x1_0000_0000, 0x1_0000_0000);
                lemma_mul_bound(dy as int, dy as int, 0x1_0000_0000, 0x1_0000_0000);
                lemma_mul_bound(reach as int, reach as int, 0x1_0000_0000, 0x1_0000_0000);
            }
            if !c.collected && reach > 0 && dx * dx + dy * dy < reach * reach {
                let mut p = c;
                p.alpha = FADED_ALPHA;
                p.collected = true;
                level.collectibles.set(i, p);
                count = count + 1;
                height = match height {
                    Some(h) => if h >= c.position.y {
                        Some(h)
                    } else {
                        Some(c.position.y)
                    },
                    None => Some(c.position.y),
                };
            }
            proof {
                let after = level.collectibles@;
                assert(after.take(i + 1).drop_last() == before.take(i as int));
                assert(cs0.take(i + 1).drop_last() == cs0.take(i as int));
                assert(before.take(i as int) == after.take(i as int));
            }
            i = i + 1;
        }
        proof {
            assert(level.collectibles@ == pick_all(*self, cs0));
            assert(cs0.take(n as int) == cs0);
            assert(level.collectibles@.take(n as int) == level.collectibles@);
            lemma_count_le_len(level.collectibles@);
        }
        let h = match height {
            Some(h) => h,
            None => 0,
        };
        if count > 0 {
            level.collect(count);
            (true, h)
        } else {
            (false, h)
        }
    }
}

/// Puts the ball back at the level's start, at rest; a ball that was moving
/// fades back in.
pub fn reset_ball(ball: &mut Ball, level: &Level)
    ensures
        *final(ball) == (Ball {
            alpha: if old(ball).moving {
                FADED_ALPHA
            } else {
                old(ball).alpha
            },
            moving: false,
            position: level.start_position,
            velocity: Vector2i { x: 0, y: 0 },
            ..*old(ball)
        }),
{
    if ball.moving {
        ball.alpha = FADED_ALPHA;
    }
    ball.moving = false;
    ball.position = level.start_position;
    ball.velocity = Vector2i::new(0, 0);
}

/// Restarts the attempt: the ball goes back to the start and every collectible
/// is available again.
pub fn reset(ball: &mut Ball, level: &mut Level)
    ensures
        *final(ball) == (Ball {
            alpha: if old(ball).moving {
                FADED_ALPHA
            } else {
                old(ball).alpha
            },
            moving: false,
            position: old(level).start_position,
            velocity: Vector2i { x: 0, y: 0 },
            ..*old(ball)
        }),
        final(level).collectibles@.len() == old(level).collectibles@.len(),
        forall|i: int|
            0 <= i < old(level).collectibles@.len() ==> #[trigger] final(level).collectibles@[i]
                == (Collectible { collected: false, ..old(level).collectibles@[i] }),
        final(level).collected == 0,
        !final(level).complete,
        final(level).start_position == old(level).start_position,
        final(level).setup == old(level).setup,
        final(level).wf(),
{
    reset_ball(ball, level);
    level.reset();
}

/// A collectible, once picked up, is never picked up again: whatever the ball
/// does next, the pickup check leaves it as it is; and checking again with the
/// ball where it was picks up nothing at all.
pub proof fn lemma_pickup_never_repeats(b1: Ball, b2: Ball, cs: Seq<Collectible>)
    ensures
        forall|i: int|
            0 <= i < cs.len() && (#[trigger] pick_all(b1, cs)[i]).collected ==> pick_all(
                b2,
                pick_all(b1, cs),
            )[i] == pick_all(b1, cs)[i],
        pick_all(b1, pick_all(b1, cs)) == pick_all(b1, cs),
        count_collected(pick_all(b1, pick_all(b1, cs))) == count_collected(pick_all(b1, cs)),
{
    assert(pick_all(b1, pick_all(b1, cs)) =~= pick_all(b1, cs));
}

/// `(m * (m * k)) / (m * m * 5) == k / 5` for positive `m`, also for negative `k`.
proof fn lemma_cancel_square(m: int, k: int)
    requires
        m > 0,
    ensures
        m * (m * k) * BOUNCE_NUM / (m * m * BOUNCE_DEN) == (k * BOUNCE_NUM) / (BOUNCE_DEN as int),
{
    let x = k * 7;
    let q = x / 5;
    let r = x % 5;
    vstd::arithmetic::div_mod::lemma_fundamental_div_mod(x, 5);
    let mm = m * m;
    assert(mm > 0) by (nonlinear_arith)
        requires
            m > 0,
            mm == m * m,
    ;
    assert(m * (m * k) * 7 == (mm * 5) * q + mm * r) by (nonlinear_arith)
        requires
            x == 5 * q + r,
            x == k * 7,
            mm == m * m,
    ;
    assert(0 <= mm * r < mm * 5) by (nonlinear_arith)
        requires
            0 <= r < 5,
            mm > 0,
    ;
    vstd::arithmetic::div_mod::lemma_fundamental_div_mod_converse_div(
        m * (m * k) * 7,
        mm * 5,
        q,
        mm * r,
    );
}

/// A ball falling straight down onto a horizontal segment right below it,
/// within contact distance, bounces: after one frame its vertical velocity
/// points up, it has not moved sideways, and besides moving by its new
/// velocity it was pushed up by exactly `CONTACT_NUDGE`. The new vertical
/// velocity is the one after gravity less 1.4 times it, rounded down: exactly
/// 0.4 times it, reversed, when the speed is a multiple of 5 units. (The bounds
/// keep every coordinate clear of saturation.)
pub proof fn lemma_bounce_off_horizontal(b: Ball, a: Vector2i, c: Vector2i)
    requires
        a.y == c.y,
        a.x < c.x,
        a.x <= b.position.x <= c.x,
        0 < b.position.y - a.y < contact_reach(b),
        b.velocity.x == 0,
        -1_000_000_000 <= b.velocity.y <= 0,
        b.position.y <= 1_000_000_000,
        b.grounded > i32::MIN,
    ensures
        ({
            let r = ball_step(b, seq![a, c], Seq::empty());
            &&& r.velocity.y > 0
            &&& r.velocity.y == (b.velocity.y - GRAVITY) - (b.velocity.y - GRAVITY) * BOUNCE_NUM
                / (BOUNCE_DEN as int)
            &&& r.velocity.x == 0
            &&& r.position.x == b.position.x
            &&& r.position.y == b.position.y + CONTACT_NUDGE + r.velocity.y
            &&& r.grounded == GROUNDED_FRAMES
        }),
{
    let pts = seq![a, c];
    let vy1 = b.velocity.y - GRAVITY;
    let b1 = Ball {
        grounded: clamp_i32(b.grounded - 1) as i32,
        velocity: Vector2i { x: b.velocity.x, y: clamp_i32(b.velocity.y - GRAVITY) as i32 },
        ..b
    };
    assert(b1.velocity.y == vy1);
    assert(collide_all(b1, pts, 0) == b1);
    assert(pts.len() as int / 2 == 1);
    let l = c.x - a.x;
    let u = b.position.x - a.x;
    let d = b.position.y - a.y;
    let den = seg_len_sq(a, c);
    assert(den == l * l);
    assert(l * l > 0) by (nonlinear_arith)
        requires
            l > 0,
    ;
    assert(0 <= l * u <= l * l) by (nonlinear_arith)
        requires
            l > 0,
            0 <= u <= l,
    ;
    assert((c.y - a.y) * (b1.position.y - a.y) == 0) by (nonlinear_arith)
        requires
            c.y == a.y,
    ;
    assert((c.x - a.x) * (b1.position.x - a.x) == l * u);
    assert(seg_param(b1.position, a, c) == l * u);
    assert((c.y - a.y) * seg_param(b1.position, a, c) == 0) by (nonlinear_arith)
        requires
            c.y == a.y,
    ;
    assert(l * (l * u) == (l * l) * u) by (nonlinear_arith);
    vstd::arithmetic::div_mod::lemma_div_multiples_vanish(u, l * l);
    assert(closest_x(b1.position, a, c) == b.position.x);
    assert(closest_y(b1.position, a, c) == a.y);
    let reach = contact_reach(b1);
    assert(d * d < reach * reach) by (nonlinear_arith)
        requires
            0 < d < reach,
    ;
    assert(d * d > 0) by (nonlinear_arith)
        requires
            d > 0,
    ;
    let dd = 0 * 0 + d * d;
    let vn = 0 * b1.velocity.x + d * vy1;
    assert(vn < 0) by (nonlinear_arith)
        requires
            d > 0,
            vy1 < 0,
            vn == 0 * b1.velocity.x + d * vy1,
    ;
    lemma_cancel_square(d, vy1);
    assert(dd * BOUNCE_DEN == d * d * BOUNCE_DEN);
    assert(d * vn == d * (d * vy1));
    let q = vy1 * 7 / 5;
    assert(5 * q <= vy1 * 7 && vy1 * 7 < 5 * q + 5) by {
        vstd::arithmetic::div_mod::lemma_fundamental_div_mod(vy1 * 7, 5);
    }
    let vy2 = vy1 - q;
    assert(0 < vy2 <= 1_000_000_000);
    assert(0 * vn * BOUNCE_NUM / (dd * BOUNCE_DEN) == 0);
    lemma_floor_sqrt_of_square(d);
    vstd::arithmetic::div_mod::lemma_div_multiples_vanish(CONTACT_NUDGE as int, d);
    assert(0 * CONTACT_NUDGE / d == 0);
    let b2 = collide_one(b1, a, c);
    assert(b2.velocity.y == vy2);
    assert(b2.position.y == b.position.y + CONTACT_NUDGE);
    assert(b2.position.x == b.position.x);
    assert(collide_all(b1, pts, 1) == b2);
}

/// The floor square root of a perfect square is its root.
proof fn lemma_floor_sqrt_of_square(d: int)
    requires
        d > 0,
    ensures
        floor_sqrt(d * d) == d,
{
    assert(d * d < (d + 1) * (d + 1)) by (nonlinear_arith)
        requires
            d > 0,
    ;
    crate::geometry::lemma_floor_sqrt_unique(d * d, d);
}

/// Contacts change only where the ball is, how it moves and its contact
/// counter.
pub proof fn lemma_collide_all_keeps_looks(b: Ball, pts: Seq<Vector2i>, k: int)
    ensures
        collide_all(b, pts, k).alpha == b.alpha,
        collide_all(b, pts, k).radius == b.radius,
        collide_all(b, pts, k).color == b.color,
        collide_all(b, pts, k).moving == b.moving,
    decreases k,
{
    if k > 0 {
        lemma_collide_all_keeps_looks(b, pts, k - 1);
    }
}

/// A physics frame changes only where the ball is, how it moves and its
/// contact counter.
pub proof fn lemma_step_keeps_looks(b: Ball, pts: Seq<Vector2i>, user: Seq<Vector2i>)
    ensures
        ball_step(b, pts, user).alpha == b.alpha,
        ball_step(b, pts, user).radius == b.radius,
        ball_step(b, pts, user).color == b.color,
        ball_step(b, pts, user).moving == b.moving,
{
    let b1 = Ball {
        grounded: clamp_i32(b.grounded - 1) as i32,
        velocity: Vector2i { x: b.velocity.x, y: clamp_i32(b.velocity.y - GRAVITY) as i32 },
        ..b
    };
    lemma_collide_all_keeps_looks(b1, pts, pts.len() as int / 2);
    lemma_collide_all_keeps_looks(
        collide_all(b1, pts, pts.len() as int / 2),
        user,
        user.len() as int / 2,
    );
}

} // verus!
