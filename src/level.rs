//! Per-level data: start position, colours, and the collectibles with the
//! running count of those picked up.
use crate::geometry::Vector2i;
use vstd::prelude::*;

verus! {

/// Opacity scale for visual alpha values: `ALPHA_FULL` is fully opaque.
pub const ALPHA_FULL: u32 = 1000;

/// Radius of every collectible (0.015 world units).
pub const COLLECTIBLE_RADIUS: i32 = 15_000;

/// An 8-bit-per-channel RGBA colour.
#[derive(Clone, Copy, Debug, PartialEq, Eq, Structural)]
pub struct Color {
    pub r: u8,
    pub g: u8,
    pub b: u8,
    pub a: u8,
}

impl Color {
    pub fn new(r: u8, g: u8, b: u8, a: u8) -> (c: Color)
        ensures
            c == (Color { r, g, b, a }),
    {
        Color { r, g, b, a }
    }
}

/// An item the ball picks up by touching it.
#[derive(Clone, Copy, Debug, PartialEq, Eq, Structural)]
pub struct Collectible {
    pub position: Vector2i,
    pub radius: i32,
    pub color: Color,
    /// Visual opacity, in thousandths.
    pub alpha: u32,
    pub collected: bool,
}

impl Collectible {
    /// A white, not yet collected item of the standard radius at `position`.
    pub fn new(position: Vector2i, alpha: u32) -> (c: Collectible)
        ensures
            c == (Collectible {
                position,
                radius: COLLECTIBLE_RADIUS,
                color: Color { r: 255, g: 255, b: 255, a: 255 },
                alpha,
                collected: false,
            }),
    {
        Collectible {
            position,
            radius: COLLECTIBLE_RADIUS,
            color: Color::new(255, 255, 255, 255),
            alpha,
            collected: false,
        }
    }
}

/// Number of collected items in `cs`.
pub open spec fn count_collected(cs: Seq<Collectible>) -> nat
    decreases cs.len(),
{
    if cs.len() == 0 {
        0
    } else {
        count_collected(cs.drop_last()) + if cs.last().collected {
            1nat
        } else {
            0nat
        }
    }
}

/// Counting distributes over concatenation.
pub proof fn lemma_count_concat(a: Seq<Collectible>, b: Seq<Collectible>)
    ensures
        count_collected(a + b) == count_collected(a) + count_collected(b),
    decreases b.len(),
{
    if b.len() > 0 {
        lemma_count_concat(a, b.drop_last());
        assert((a + b).drop_last() == a + b.drop_last());
    } else {
        assert(a + b == a);
    }
}

/// At most every item is collected.
pub proof fn lemma_count_le_len(cs: Seq<Collectible>)
    ensures
        count_collected(cs) <= cs.len(),
    decreases cs.len(),
{
    if cs.len() > 0 {
        lemma_count_le_len(cs.drop_last());
    }
}

/// Items none of which is collected count zero.
pub proof fn lemma_count_none_collected(cs: Seq<Collectible>)
    requires
        forall|i: int| 0 <= i < cs.len() ==> !(#[trigger] cs[i]).collected,
    ensures
        count_collected(cs) == 0,
    decreases cs.len(),
{
    if cs.len() > 0 {
        lemma_count_none_collected(cs.drop_last());
    }
}

/// The state of the level being played.
pub struct Level {
    pub start_position: Vector2i,
    pub line_color: Color,
    pub user_line_color: Color,
    /// How many collectibles have been picked up.
    pub collected: usize,
    pub collectibles: Vec<Collectible>,
    /// Set once every collectible has been picked up.
    pub complete: bool,
    /// Set once the ball has been placed at the start after the level's replay.
    pub setup: bool,
}

impl Level {
    /// The pickup count matches the collected flags.
    pub open spec fn wf(&self) -> bool {
        self.collected == count_collected(self.collectibles@)
    }

    pub fn new(start_position: Vector2i, line_color: Color, user_line_color: Color) -> (l: Level)
        ensures
            l.start_position == start_position,
            l.line_color == line_color,
            l.user_line_color == user_line_color,
            l.collected == 0,
            l.collectibles@ == Seq::<Collectible>::empty(),
            !l.complete,
            !l.setup,
            l.wf(),
    {
        Level {
            start_position,
            line_color,
            user_line_color,
            collected: 0,
            collectibles: Vec::new(),
            complete: false,
            setup: false,
        }
    }

    /// Restarts the level: every collectible is available again.
    pub fn reset(&mut self)
        ensures
            final(self).collectibles@.len() == old(self).collectibles@.len(),
            forall|i: int|
                0 <= i < old(self).collectibles@.len() ==> #[trigger] final(self).collectibles@[i]
                    == (Collectible { collected: false, ..old(self).collectibles@[i] }),
            final(self).collected == 0,
            !final(self).complete,
            final(self).start_position == old(self).start_position,
            final(self).line_color == old(self).line_color,
            final(self).user_line_color == old(self).user_line_color,
            final(self).setup == old(self).setup,
            final(self).wf(),
    {
        self.collected = 0;
        let n = self.collectibles.len();
        let mut i: usize = 0;
        while i < n
            invariant
                n == old(self).collectibles@.len(),
                self.collectibles@.len() == n,
                i <= n,
                forall|j: int|
                    0 <= j < i ==> #[trigger] self.collectibles@[j] == (Collectible {
                        collected: false,
                        ..old(self).collectibles@[j]
                    }),
                forall|j: int| i <= j < n ==> #[trigger] self.collectibles@[j] == old(
                    self,
                ).collectibles@[j],
                self.collected == 0,
                self.start_position == old(self).start_position,
                self.line_color == old(self).line_color,
                self.user_line_color == old(self).user_line_color,
                self.setup == old(self).setup,
            decreases n - i,
        {
            let mut c = self.collectibles[i];
            c.collected = false;
            self.collectibles.set(i, c);
            i = i + 1;
        }
        self.complete = false;
        proof {
            lemma_count_none_collected(self.collectibles@);
        }
    }

    /// Adds `amount` pickups; the level is complete once every collectible is
    /// picked up.
    pub fn collect(&mut self, amount: usize)
        requires
            old(self).collected + amount <= usize::MAX,
        ensures
            final(self).collected == old(self).collected + amount,
            final(self).complete == (old(self).complete || final(self).collected
                >= old(self).collectibles@.len()),
            final(self).collectibles == old(self).collectibles,
            final(self).start_position == old(self).start_position,
            final(self).line_color == old(self).line_color,
            final(self).user_line_color == old(self).user_line_color,
            final(self).setup == old(self).setup,
    {
        self.collected = self.collected + amount;
        if self.collected >= self.collectibles.len() {
            self.complete = true;
        }
    }

    /// Removes every collectible and the completion state.
    pub fn clear(&mut self)
        ensures
            final(self).collectibles@ == Seq::<Collectible>::empty(),
            final(self).collected == 0,
            !final(self).complete,
            final(self).start_position == old(self).start_position,
            final(self).line_color == old(self).line_color,
            final(self).user_line_color == old(self).user_line_color,
            final(self).setup == old(self).setup,
            final(self).wf(),
    {
        self.complete = false;
        self.collectibles.clear();
        self.reset();
    }
}

} // verus!
