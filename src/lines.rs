//! The stroke buffer: pen events become independent line segments, stored as
//! consecutive point pairs.
use crate::geometry::{
    dist_sq, lemma_mul_bound, near_segment, point_with_line_segment, Vector2i, LINE_RADIUS,
};
use vstd::prelude::*;

verus! {

/// Minimum distance (0.01 world units) a new pen sample must be from the last
/// recorded one before it extends the stroke.
pub const MIN_STROKE_STEP: i32 = 10_000;

/// What a stroke buffer holds: the segment endpoints, two per segment, and the
/// last point of the active stroke, if any.
pub ghost struct LinesView {
    pub points: Seq<Vector2i>,
    pub last: Option<Vector2i>,
}

/// A sample far enough from `last` to extend a stroke.
pub open spec fn far_enough(last: Vector2i, p: Vector2i) -> bool {
    dist_sq(last, p) > MIN_STROKE_STEP as int * MIN_STROKE_STEP as int
}

/// Every stored segment is longer than `MIN_STROKE_STEP`.
pub open spec fn segments_long(points: Seq<Vector2i>) -> bool {
    forall|k: int|
        0 <= k < points.len() / 2 ==> #[trigger] far_enough(points[2 * k], points[2 * k + 1])
}

impl LinesView {
    /// The buffer after the pen reaches `p`.
    pub open spec fn stroke_to(self, p: Vector2i) -> LinesView {
        match self.last {
            None => LinesView { points: self.points, last: Some(p) },
            Some(l) => if far_enough(l, p) {
                LinesView { points: self.points.push(l).push(p), last: Some(p) }
            } else {
                self
            },
        }
    }

    /// The buffer after the pen visits every point of `ps` in order.
    pub open spec fn stroke_all(self, ps: Seq<Vector2i>) -> LinesView
        decreases ps.len(),
    {
        if ps.len() == 0 {
            self
        } else {
            self.stroke_all(ps.drop_last()).stroke_to(ps.last())
        }
    }

    /// The buffer after the pen is lifted.
    pub open spec fn lifted(self) -> LinesView {
        LinesView { points: self.points, last: None }
    }
}

/// The segments of `points` (taken pairwise from the start) that do not come
/// closer than `reach` to `center`, in the order they had.
pub open spec fn kept_points(points: Seq<Vector2i>, center: Vector2i, reach: int) -> Seq<Vector2i>
    decreases points.len(),
{
    if points.len() < 2 {
        Seq::empty()
    } else {
        let n = points.len();
        let rest = kept_points(points.subrange(0, n - 2), center, reach);
        if near_segment(center, points[n - 2], points[n - 1], reach) {
            rest
        } else {
            rest.push(points[n - 2]).push(points[n - 1])
        }
    }
}

/// A growable set of line segments built from pen strokes.
pub struct Lines {
    /// Last point of the active stroke; `None` between strokes.
    pub last_position: Option<Vector2i>,
    /// Segment endpoints: points `2k` and `2k + 1` form segment `k`.
    pub line_points: Vec<Vector2i>,
    /// Set whenever the segments change, so a renderer knows to rebuild.
    pub needs_update: bool,
}

impl View for Lines {
    type V = LinesView;

    open spec fn view(&self) -> LinesView {
        LinesView { points: self.line_points@, last: self.last_position }
    }
}

impl Lines {
    /// The points pair up into segments.
    pub open spec fn wf(&self) -> bool {
        self.line_points@.len() % 2 == 0
    }

    pub fn new() -> (r: Lines)
        ensures
            r@.points == Seq::<Vector2i>::empty(),
            r@.last is None,
            !r.needs_update,
            r.wf(),
    {
        Lines { last_position: None, line_points: Vec::new(), needs_update: false }
    }

    /// Ends the active stroke; the next point starts a new one.
    pub fn end_segment(&mut self)
        ensures
            final(self)@ == old(self)@.lifted(),
            final(self).needs_update == old(self).needs_update,
    {
        self.last_position = None;
    }

    /// Moves the pen to `position`: starts a stroke, or appends the segment from
    /// the stroke's last point when `position` is more than `MIN_STROKE_STEP`
    /// away from it. Closer samples are dropped.
    pub fn add_segment(&mut self, position: Vector2i)
        requires
            old(self).wf(),
        ensures
            final(self)@ == old(self)@.stroke_to(position),
            final(self).needs_update,
            final(self).wf(),
    {
        self.needs_update = true;
        match self.last_position {
            Some(last) => {
                let dx = last.x as i128 - position.x as i128;
                let dy = last.y as i128 - position.y as i128;
                let step = MIN_STROKE_STEP as i128;
                proof {
                    lemma_mul_bound(dx as int, dx as int, 0x1_0000_0000, 0x1_0000_0000);
                    lemma_mul_bound(dy as int, dy as int, 0x1_0000_0000, 0x1_0000_0000);
                }
                if dx * dx + dy * dy > step * step {
                    self.line_points.push(last);
                    self.line_points.push(position);
                    self.last_position = Some(position);
                }
            },
            None => {
                self.last_position = Some(position);
            },
        }
    }

    /// Removes every segment that comes closer than `radius + LINE_RADIUS` to
    /// `center`; the remaining segments keep their order.
    pub fn erase(&mut self, center: Vector2i, radius: i32)
        requires
            old(self).wf(),
        ensures
            final(self)@.points == kept_points(
                old(self)@.points,
                center,
                radius + LINE_RADIUS,
            ),
            final(self)@.last == old(self)@.last,
            final(self).needs_update == (old(self).needs_update || final(self)@.points.len()
                < old(self)@.points.len()),
            final(self).wf(),
    {
        let reach = radius as i128 + LINE_RADIUS as i128;
        let n = self.line_points.len();
        let mut kept: Vec<Vector2i> = Vec::new();
        let mut i: usize = 0;
        while i + 1 < n
            invariant
                n == self.line_points@.len(),
                n % 2 == 0,
                i % 2 == 0,
                i <= n,
                kept@ == kept_points(self.line_points@.subrange(0, i as int), center, reach as int),
                kept@.len() % 2 == 0,
                kept@.len() <= i,
                reach == radius + LINE_RADIUS,
            decreases n - i,
        {
            let a = self.line_points[i];
            let b = self.line_points[i + 1];
            let (d2, _closest) = point_with_line_segment(center, a, b);
            let ghost pts = self.line_points@;
            proof {
                lemma_mul_bound(reach as int, reach as int, 0x1_0000_0000, 0x1_0000_0000);
            }
            assert(pts.subrange(0, i + 2).subrange(0, i as int) == pts.subrange(0, i as int));
            assert(pts.subrange(0, i + 2)[i as int] == a);
            assert(pts.subrange(0, i + 2)[i + 1] == b);
            if !(reach > 0 && d2 < reach * reach) {
                kept.push(a);
                kept.push(b);
            }
            i = i + 2;
        }
        assert(self.line_points@.subrange(0, n as int) == self.line_points@);
        if kept.len() < n {
            self.needs_update = true;
        }
        self.line_points = kept;
    }

    /// Removes all segments and ends the active stroke.
    pub fn clear(&mut self)
        ensures
            final(self)@.points == Seq::<Vector2i>::empty(),
            final(self)@.last is None,
            final(self).needs_update,
            final(self).wf(),
    {
        self.needs_update = true;
        self.last_position = None;
        self.line_points.clear();
    }
}

/// Pen strokes only ever store segments longer than `MIN_STROKE_STEP`: starting
/// from a buffer where that holds, it still holds after any sequence of pen
/// moves.
pub proof fn lemma_strokes_keep_min_step(v: LinesView, ps: Seq<Vector2i>)
    requires
        segments_long(v.points),
        v.points.len() % 2 == 0,
    ensures
        segments_long(v.stroke_all(ps).points),
        v.stroke_all(ps).points.len() % 2 == 0,
    decreases ps.len(),
{
    if ps.len() > 0 {
        lemma_strokes_keep_min_step(v, ps.drop_last());
        let w = v.stroke_all(ps.drop_last());
        let p = ps.last();
        if let Some(l) = w.last {
            if far_enough(l, p) {
                let q = w.points.push(l).push(p);
                let m = w.points.len();
                assert forall|k: int| 0 <= k < q.len() / 2 implies #[trigger] far_enough(
                    q[2 * k],
                    q[2 * k + 1],
                ) by {
                    if k < m / 2 {
                        assert(far_enough(w.points[2 * k], w.points[2 * k + 1]));
                    } else {
                        assert(k == m / 2);
                    }
                }
            }
        }
    }
}

} // verus!
