//! Fixed-point 2D points and the segment queries used by erasing and physics.
use vstd::arithmetic::div_mod::{
    lemma_div_is_ordered, lemma_div_is_ordered_by_denominator, lemma_div_multiples_vanish,
    lemma_div_multiples_vanish_fancy, lemma_div_pos_is_pos, lemma_fundamental_div_mod,
    lemma_fundamental_div_mod_converse_div,
};
use vstd::prelude::*;

verus! {

/// Fixed-point units per world unit: a coordinate of `SCALE` is one world unit.
pub const SCALE: i32 = 1_000_000;

/// Half-width of every drawn stroke (0.01 world units).
pub const LINE_RADIUS: i32 = 10_000;

/// A 2D point or displacement in fixed-point units.
#[derive(Clone, Copy, Debug, PartialEq, Eq, Structural)]
pub struct Vector2i {
    pub x: i32,
    pub y: i32,
}

impl Vector2i {
    pub fn new(x: i32, y: i32) -> (r: Vector2i)
        ensures
            r.x == x,
            r.y == y,
    {
        Vector2i { x, y }
    }
}

/// Squared euclidean distance between two points.
pub open spec fn dist_sq(p: Vector2i, q: Vector2i) -> int {
    (p.x - q.x) * (p.x - q.x) + (p.y - q.y) * (p.y - q.y)
}

/// The distance from `(x, y)` to `p` is strictly below `r`.
pub open spec fn closer_than(x: int, y: int, p: Vector2i, r: int) -> bool {
    r > 0 && (x - p.x) * (x - p.x) + (y - p.y) * (y - p.y) < r * r
}

/// Clamps a mathematical integer into the range of `i32`.
pub open spec fn clamp_i32(v: int) -> int {
    if v < i32::MIN {
        i32::MIN as int
    } else if v > i32::MAX {
        i32::MAX as int
    } else {
        v
    }
}

/// `r` is the floor of the square root of `n`.
pub open spec fn is_floor_sqrt(n: int, r: int) -> bool {
    0 <= r && r * r <= n < (r + 1) * (r + 1)
}

/// The floor of the square root of a non-negative `n`.
pub open spec fn floor_sqrt(n: int) -> int
    recommends
        n >= 0,
{
    choose|r: int| is_floor_sqrt(n, r)
}

/// Squared length of segment `ab`.
pub open spec fn seg_len_sq(a: Vector2i, b: Vector2i) -> int {
    dist_sq(b, a)
}

/// Projection parameter of `p` onto segment `ab`, scaled by `seg_len_sq(a, b)`
/// and clamped to `[0, seg_len_sq(a, b)]`.
pub open spec fn seg_param(p: Vector2i, a: Vector2i, b: Vector2i) -> int {
    let num = (b.x - a.x) * (p.x - a.x) + (b.y - a.y) * (p.y - a.y);
    let den = seg_len_sq(a, b);
    if num < 0 {
        0
    } else if num > den {
        den
    } else {
        num
    }
}

/// X coordinate of the point of segment `ab` closest to `p` (rounded toward
/// negative infinity); a zero-length segment is the point `a`.
pub open spec fn closest_x(p: Vector2i, a: Vector2i, b: Vector2i) -> int {
    let den = seg_len_sq(a, b);
    if den == 0 {
        a.x as int
    } else {
        a.x + (b.x - a.x) * seg_param(p, a, b) / den
    }
}

/// Y coordinate of the point of segment `ab` closest to `p`.
pub open spec fn closest_y(p: Vector2i, a: Vector2i, b: Vector2i) -> int {
    let den = seg_len_sq(a, b);
    if den == 0 {
        a.y as int
    } else {
        a.y + (b.y - a.y) * seg_param(p, a, b) / den
    }
}

/// Squared distance from `p` to the closest point of segment `ab`.
pub open spec fn seg_dist_sq(p: Vector2i, a: Vector2i, b: Vector2i) -> int {
    let dx = p.x - closest_x(p, a, b);
    let dy = p.y - closest_y(p, a, b);
    dx * dx + dy * dy
}

/// `p` lies closer than `r` to segment `ab`.
pub open spec fn near_segment(p: Vector2i, a: Vector2i, b: Vector2i, r: int) -> bool {
    r > 0 && seg_dist_sq(p, a, b) < r * r
}

/// Scaling `d` by a fraction `t / den` in `[0, 1]` stays between `0` and `d`.
proof fn lemma_fraction_bounds(d: int, t: int, den: int)
    requires
        0 <= t <= den,
        den > 0,
    ensures
        d >= 0 ==> 0 <= d * t / den <= d,
        d < 0 ==> d <= d * t / den <= 0,
{
    if d >= 0 {
        assert(0 <= d * t <= d * den) by (nonlinear_arith)
            requires
                d >= 0,
                0 <= t <= den,
        ;
        lemma_div_is_ordered(0, d * t, den);
        lemma_div_is_ordered(d * t, d * den, den);
        lemma_div_multiples_vanish(d, den);
        assert(d * den == den * d) by (nonlinear_arith);
    } else {
        assert(d * den <= d * t <= 0) by (nonlinear_arith)
            requires
                d < 0,
                0 <= t <= den,
        ;
        lemma_div_is_ordered(d * t, 0, den);
        lemma_div_is_ordered(d * den, d * t, den);
        lemma_div_multiples_vanish(d, den);
        assert(d * den == den * d) by (nonlinear_arith);
    }
}

/// The closest point of a segment lies within the segment's bounding box.
pub proof fn lemma_closest_in_box(p: Vector2i, a: Vector2i, b: Vector2i)
    ensures
        (a.x <= b.x ==> a.x <= closest_x(p, a, b) <= b.x),
        (b.x < a.x ==> b.x <= closest_x(p, a, b) <= a.x),
        (a.y <= b.y ==> a.y <= closest_y(p, a, b) <= b.y),
        (b.y < a.y ==> b.y <= closest_y(p, a, b) <= a.y),
{
    let den = seg_len_sq(a, b);
    assert(den >= 0) by (nonlinear_arith)
        requires
            den == (b.x - a.x) * (b.x - a.x) + (b.y - a.y) * (b.y - a.y),
    ;
    if den > 0 {
        lemma_fraction_bounds(b.x - a.x, seg_param(p, a, b), den);
        lemma_fraction_bounds(b.y - a.y, seg_param(p, a, b), den);
    }
}

/// Clamps a wide integer into `i32`.
pub fn saturate_i32(v: i128) -> (r: i32)
    ensures
        r == clamp_i32(v as int),
{
    if v < i32::MIN as i128 {
        i32::MIN
    } else if v > i32::MAX as i128 {
        i32::MAX
    } else {
        v as i32
    }
}

/// Integer square root, rounded down.
pub fn isqrt(n: u128) -> (r: u128)
    ensures
        is_floor_sqrt(n as int, r as int),
        r == floor_sqrt(n as int),
{
    let mut lo: u128 = 0;
    let mut hi: u128 = 0x1_0000_0000_0000_0000;
    assert(n < hi * hi) by (nonlinear_arith)
        requires
            hi == 0x1_0000_0000_0000_0000u128,
            n <= u128::MAX,
    ;
    while hi - lo > 1
        invariant
            lo < hi <= 0x1_0000_0000_0000_0000u128,
            lo * lo <= n,
            n < hi * hi,
        decreases hi - lo,
    {
        let mid = lo + (hi - lo) / 2;
        assert(mid * mid <= 0xFFFF_FFFF_FFFF_FFFE_0000_0000_0000_0001u128) by (nonlinear_arith)
            requires
                mid < 0x1_0000_0000_0000_0000u128,
        ;
        if mid * mid <= n {
            lo = mid;
        } else {
            hi = mid;
        }
    }
    assert(hi == lo + 1);
    proof {
        lemma_floor_sqrt_unique(n as int, lo as int);
    }
    lo
}

/// The floor square root is unique, so `floor_sqrt` names it.
pub proof fn lemma_floor_sqrt_unique(n: int, r: int)
    requires
        is_floor_sqrt(n, r),
    ensures
        floor_sqrt(n) == r,
{
    assert(is_floor_sqrt(n, r));
    let s = floor_sqrt(n);
    assert(is_floor_sqrt(n, s));
    if s < r {
        assert((s + 1) * (s + 1) <= r * r) by (nonlinear_arith)
            requires
                0 <= s < r,
        ;
    } else if r < s {
        assert((r + 1) * (r + 1) <= s * s) by (nonlinear_arith)
            requires
                0 <= r < s,
        ;
    }
}

/// Bounds a product by the bounds of its factors.
pub proof fn lemma_mul_bound(x: int, y: int, bx: int, by: int)
    requires
        -bx <= x <= bx,
        -by <= y <= by,
    ensures
        -(bx * by) <= x * y <= bx * by,
{
    assert(-(bx * by) <= x * y <= bx * by) by (nonlinear_arith)
        requires
            -bx <= x <= bx,
            -by <= y <= by,
    ;
}

/// Division rounded toward negative infinity, as `/` reads in contracts.
pub fn div_floor(n: i128, d: i128) -> (q: i128)
    requires
        d > 0,
        -0x1000_0000_0000_0000_0000_0000_0000_0000 < n < 0x1000_0000_0000_0000_0000_0000_0000_0000,
        d < 0x1000_0000_0000_0000_0000_0000_0000_0000,
    ensures
        q == n as int / d as int,
        n >= 0 ==> 0 <= q <= n,
        n < 0 ==> n <= q <= 0,
{
    if n >= 0 {
        proof {
            lemma_div_pos_is_pos(n as int, d as int);
            lemma_div_is_ordered_by_denominator(n as int, 1, d as int);
        }
        n / d
    } else {
        let m = -n;
        let q = (m + d - 1) / d;
        proof {
            let x = (m + d - 1) as int;
            lemma_fundamental_div_mod(x, d as int);
            let r = x % (d as int);
            assert(0 <= r < d);
            assert(n == (-q) * d + (d - 1 - r)) by (nonlinear_arith)
                requires
                    x == d * q + r,
                    x == m + d - 1,
                    n == -m,
            ;
            lemma_fundamental_div_mod_converse_div(n as int, d as int, -q, d - 1 - r);
            lemma_div_pos_is_pos(x, d as int);
            assert(x <= d * m + (d - 1)) by (nonlinear_arith)
                requires
                    x == m + d - 1,
                    m >= 1,
                    d >= 1,
            ;
            lemma_div_is_ordered(x, d * m + (d - 1), d as int);
            lemma_div_multiples_vanish_fancy(m as int, d - 1, d as int);
        }
        -q
    }
}

/// The point of segment `ab` closest to `p`, with its squared distance to `p`.
/// A zero-length segment is treated as the point `a`.
pub fn point_with_line_segment(p: Vector2i, a: Vector2i, b: Vector2i) -> (r: (i128, Vector2i))
    ensures
        r.0 == seg_dist_sq(p, a, b),
        r.1.x == closest_x(p, a, b),
        r.1.y == closest_y(p, a, b),
{
    let bax = b.x as i128 - a.x as i128;
    let bay = b.y as i128 - a.y as i128;
    let pax = p.x as i128 - a.x as i128;
    let pay = p.y as i128 - a.y as i128;
    proof {
        lemma_mul_bound(bax as int, bax as int, 0x1_0000_0000, 0x1_0000_0000);
        lemma_mul_bound(bay as int, bay as int, 0x1_0000_0000, 0x1_0000_0000);
        lemma_mul_bound(bax as int, pax as int, 0x1_0000_0000, 0x1_0000_0000);
        lemma_mul_bound(bay as int, pay as int, 0x1_0000_0000, 0x1_0000_0000);
        lemma_closest_in_box(p, a, b);
        assert(0 <= bax * bax) by (nonlinear_arith);
        assert(0 <= bay * bay) by (nonlinear_arith);
    }
    let den = bax * bax + bay * bay;
    let num = bax * pax + bay * pay;
    let (cx, cy) = if den == 0 {
        (a.x, a.y)
    } else {
        let t = if num < 0 {
            0
        } else if num > den {
            den
        } else {
            num
        };
        assert(t == seg_param(p, a, b));
        proof {
            lemma_mul_bound(bax as int, t as int, 0x1_0000_0000, 0x4_0000_0000_0000_0000);
            lemma_mul_bound(bay as int, t as int, 0x1_0000_0000, 0x4_0000_0000_0000_0000);
        }
        let qx = div_floor(bax * t, den);
        let qy = div_floor(bay * t, den);
        ((a.x as i128 + qx) as i32, (a.y as i128 + qy) as i32)
    };
    let dx = p.x as i128 - cx as i128;
    let dy = p.y as i128 - cy as i128;
    proof {
        lemma_mul_bound(dx as int, dx as int, 0x1_0000_0000, 0x1_0000_0000);
        lemma_mul_bound(dy as int, dy as int, 0x1_0000_0000, 0x1_0000_0000);
    }
    (dx * dx + dy * dy, Vector2i { x: cx, y: cy })
}

} // verus!
