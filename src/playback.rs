//! Recording of pen actions with frame stamps, and their frame-budgeted replay
//! into a stroke buffer and a level.
use crate::geometry::Vector2i;
use crate::level::{count_collected, Collectible, Level};
use crate::lines::{Lines, LinesView};
use vstd::prelude::*;

verus! {

/// A pause longer than this many frames before the next action is skipped
/// during replay.
pub const IDLE_GAP: u32 = 240;

/// Budget of each replay step when fast-forwarding a whole log.
pub const PLAY_TO_END_BUDGET: u32 = 100;

/// What a recorded action does.
#[derive(Clone, Copy, Debug, PartialEq, Eq, Structural)]
pub enum MouseAction {
    /// The pen passes through the position.
    PenMove,
    /// The pen is lifted, ending the stroke.
    PenUp,
    /// A collectible appears at the position.
    PlaceCollectible,
}

/// One recorded action, stamped with the frame it happened on.
#[derive(Clone, Copy, Debug, PartialEq, Eq, Structural)]
pub struct MouseState {
    pub position: Vector2i,
    pub frame: u32,
    pub kind: MouseAction,
}

/// Frames never decrease along the log.
pub open spec fn frames_sorted(log: Seq<MouseState>) -> bool {
    forall|i: int, j: int| 0 <= i <= j < log.len() ==> log[i].frame <= log[j].frame
}

/// The replay clock at the start of a step from entry `idx`: a step from the
/// first entry starts at that entry's frame, and a gap longer than
/// `IDLE_GAP` before the next entry is skipped.
pub open spec fn start_frame(log: Seq<MouseState>, cf: int, idx: int) -> int {
    let base = if idx == 0 {
        log[0].frame as int
    } else {
        cf
    };
    if log[idx].frame > base + IDLE_GAP {
        log[idx].frame as int
    } else {
        base
    }
}

/// The first index from `idx` on whose entry is not before clock `cf`
/// (or the log's length).
pub open spec fn consume_end(log: Seq<MouseState>, idx: int, cf: int) -> int
    decreases log.len() - idx,
{
    if idx < 0 || idx >= log.len() || log[idx].frame >= cf {
        idx
    } else {
        consume_end(log, idx + 1, cf)
    }
}

/// Clock and index after one replay step with `budget` frames.
pub open spec fn cursor_step(log: Seq<MouseState>, cf: int, idx: int, budget: int) -> (int, int) {
    if 0 <= idx < log.len() {
        let c = start_frame(log, cf, idx) + budget;
        (c, consume_end(log, idx, c))
    } else {
        (cf, idx)
    }
}

/// Clock and index after one replay step per budget of `bs`, in order.
pub open spec fn cursor_run(log: Seq<MouseState>, cf: int, idx: int, bs: Seq<u32>) -> (int, int)
    decreases bs.len(),
{
    if bs.len() == 0 {
        (cf, idx)
    } else {
        let (c, i) = cursor_run(log, cf, idx, bs.drop_last());
        cursor_step(log, c, i, bs.last() as int)
    }
}

/// Sum of the budgets.
pub open spec fn total_budget(bs: Seq<u32>) -> int
    decreases bs.len(),
{
    if bs.len() == 0 {
        0
    } else {
        total_budget(bs.drop_last()) + bs.last()
    }
}

/// The collectible that replaying a placement creates.
pub open spec fn placed_collectible(p: Vector2i) -> Collectible {
    Collectible {
        position: p,
        radius: crate::level::COLLECTIBLE_RADIUS,
        color: crate::level::Color { r: 255, g: 255, b: 255, a: 255 },
        alpha: 0,
        collected: false,
    }
}

/// Stroke buffer and collectibles after replaying one entry.
pub open spec fn apply_entry(lv: LinesView, cs: Seq<Collectible>, e: MouseState) -> (
    LinesView,
    Seq<Collectible>,
) {
    match e.kind {
        MouseAction::PlaceCollectible => (lv, cs.push(placed_collectible(e.position))),
        MouseAction::PenUp => (lv.lifted(), cs),
        MouseAction::PenMove => (lv.stroke_to(e.position), cs),
    }
}

/// Stroke buffer and collectibles after replaying entries `from..to` in order.
pub open spec fn apply_range(
    lv: LinesView,
    cs: Seq<Collectible>,
    log: Seq<MouseState>,
    from: int,
    to: int,
) -> (LinesView, Seq<Collectible>)
    decreases to - from,
{
    if to <= from {
        (lv, cs)
    } else {
        let (l, c) = apply_range(lv, cs, log, from, to - 1);
        apply_entry(l, c, log[to - 1])
    }
}

/// Some entry in `from..to` moves the pen.
pub open spec fn moves_pen(log: Seq<MouseState>, from: int, to: int) -> bool {
    exists|k: int| from <= k < to && (#[trigger] log[k]).kind == MouseAction::PenMove
}

/// Replaying `a..b` and then `b..c` is replaying `a..c`.
pub proof fn lemma_apply_range_split(
    lv: LinesView,
    cs: Seq<Collectible>,
    log: Seq<MouseState>,
    a: int,
    b: int,
    c: int,
)
    requires
        a <= b <= c,
    ensures
        ({
            let (l, k) = apply_range(lv, cs, log, a, b);
            apply_range(l, k, log, b, c)
        }) == apply_range(lv, cs, log, a, c),
    decreases c - b,
{
    if c > b {
        lemma_apply_range_split(lv, cs, log, a, b, c - 1);
    }
}

/// Replaying never collects anything: the pickup count is unchanged.
pub proof fn lemma_apply_range_count(
    lv: LinesView,
    cs: Seq<Collectible>,
    log: Seq<MouseState>,
    from: int,
    to: int,
)
    ensures
        count_collected(apply_range(lv, cs, log, from, to).1) == count_collected(cs),
    decreases to - from,
{
    if to > from {
        lemma_apply_range_count(lv, cs, log, from, to - 1);
        let c = apply_range(lv, cs, log, from, to - 1).1;
        assert(c.push(placed_collectible(log[to - 1].position)).drop_last() == c);
    }
}

/// Replaying only appends fresh collectibles: invisible and not collected.
pub proof fn lemma_apply_range_appends(
    lv: LinesView,
    cs: Seq<Collectible>,
    log: Seq<MouseState>,
    from: int,
    to: int,
)
    ensures
        ({
            let r = apply_range(lv, cs, log, from, to).1;
            &&& r.len() >= cs.len()
            &&& forall|i: int| 0 <= i < cs.len() ==> #[trigger] r[i] == cs[i]
            &&& forall|i: int|
                cs.len() <= i < r.len() ==> (#[trigger] r[i]).alpha == 0 && !r[i].collected
        }),
    decreases to - from,
{
    if to > from {
        lemma_apply_range_appends(lv, cs, log, from, to - 1);
    }
}

/// Where one replay step stops consuming entries.
pub proof fn lemma_consume_end(log: Seq<MouseState>, idx: int, cf: int)
    requires
        0 <= idx <= log.len(),
    ensures
        idx <= consume_end(log, idx, cf) <= log.len(),
        consume_end(log, idx, cf) < log.len() ==> log[consume_end(log, idx, cf)].frame >= cf,
        forall|k: int| idx <= k < consume_end(log, idx, cf) ==> log[k].frame < cf,
    decreases log.len() - idx,
{
    if idx < log.len() && log[idx].frame < cf {
        lemma_consume_end(log, idx + 1, cf);
    }
}

/// Records pen actions while authoring and replays them frame by frame.
pub struct MousePlayback {
    /// The recorded actions, in order.
    pub state: Vec<MouseState>,
    /// The replay clock.
    pub current_frame: u64,
    /// Index of the next entry to replay.
    pub current_state: usize,
    /// Frame counter stamped on recorded actions; ticks every frame.
    pub current_frame_recording: u32,
    pub playing: bool,
    pub recording: bool,
    /// Set once the replay has consumed the whole log.
    pub complete: bool,
}

impl MousePlayback {
    /// The cursor stays within the log, and the clock stays within frame range
    /// while entries remain.
    pub open spec fn wf(&self) -> bool {
        &&& self.current_state <= self.state@.len()
        &&& self.current_state < self.state@.len() ==> self.current_frame <= u32::MAX
    }

    pub fn new() -> (r: MousePlayback)
        ensures
            r.state@ == Seq::<MouseState>::empty(),
            r.current_frame == 0,
            r.current_state == 0,
            r.current_frame_recording == 0,
            !r.playing,
            !r.recording,
            r.complete,
            r.wf(),
    {
        MousePlayback {
            state: Vec::new(),
            current_state: 0,
            current_frame_recording: 0,
            playing: false,
            current_frame: 0,
            recording: false,
            complete: true,
        }
    }

    /// Advances the recording frame counter by one (it stops at `u32::MAX`).
    pub fn increment_frame(&mut self)
        ensures
            final(self).current_frame_recording == if old(self).current_frame_recording
                < u32::MAX {
                old(self).current_frame_recording + 1
            } else {
                old(self).current_frame_recording as int
            },
            final(self).state@ == old(self).state@,
            final(self).current_frame == old(self).current_frame,
            final(self).current_state == old(self).current_state,
            final(self).playing == old(self).playing,
            final(self).recording == old(self).recording,
            final(self).complete == old(self).complete,
    {
        if self.current_frame_recording < u32::MAX {
            self.current_frame_recording = self.current_frame_recording + 1;
        }
    }

    /// The log after recording `kind` at `position`, if recording.
    pub open spec fn recorded(&self, position: Vector2i, kind: MouseAction) -> Seq<MouseState> {
        if self.recording {
            self.state@.push(
                MouseState { position, frame: self.current_frame_recording, kind },
            )
        } else {
            self.state@
        }
    }

    /// The cursor follows a recorded action; nothing changes when not recording.
    pub open spec fn record_post(&self, post: &MousePlayback) -> bool {
        &&& post.current_frame_recording == self.current_frame_recording
        &&& post.recording == self.recording
        &&& post.playing == self.playing
        &&& post.complete == self.complete
        &&& if self.recording {
            &&& post.current_state == self.current_state + 1
            &&& post.current_frame == self.current_frame_recording
        } else {
            &&& post.current_state == self.current_state
            &&& post.current_frame == self.current_frame
        }
        &&& post.wf()
    }

    fn record(&mut self, position: Vector2i, kind: MouseAction)
        requires
            old(self).wf(),
        ensures
            final(self).state@ == old(self).recorded(position, kind),
            old(self).record_post(&*final(self)),
    {
        if self.recording {
            self.state.push(MouseState { position, frame: self.current_frame_recording, kind });
            let n = self.state.len();
            assert(self.current_state < n);
            self.current_state = self.current_state + 1;
            self.current_frame = self.current_frame_recording as u64;
        }
    }

    /// Records a collectible placed at `position`.
    pub fn record_collectible(&mut self, position: Vector2i)
        requires
            old(self).wf(),
        ensures
            final(self).state@ == old(self).recorded(position, MouseAction::PlaceCollectible),
            old(self).record_post(&*final(self)),
    {
        self.record(position, MouseAction::PlaceCollectible);
    }

    /// Records the pen passing through `position`.
    pub fn record_mouse(&mut self, position: Vector2i)
        requires
            old(self).wf(),
        ensures
            final(self).state@ == old(self).recorded(position, MouseAction::PenMove),
            old(self).record_post(&*final(self)),
    {
        self.record(position, MouseAction::PenMove);
    }

    /// Records the pen being lifted.
    pub fn record_mouse_up(&mut self)
        requires
            old(self).wf(),
        ensures
            final(self).state@ == old(self).recorded(Vector2i { x: 0, y: 0 }, MouseAction::PenUp),
            old(self).record_post(&*final(self)),
    {
        self.record(Vector2i::new(0, 0), MouseAction::PenUp);
    }

    /// Empties the log and rewinds the cursor.
    pub fn clear(&mut self)
        ensures
            final(self).state@ == Seq::<MouseState>::empty(),
            final(self).current_frame == 0,
            final(self).current_state == 0,
            !final(self).complete,
            final(self).current_frame_recording == old(self).current_frame_recording,
            final(self).playing == old(self).playing,
            final(self).recording == old(self).recording,
            final(self).wf(),
    {
        self.reset_playback();
        self.state.clear();
        self.complete = false;
    }

    /// Rewinds the cursor to the start of the log, which is kept.
    pub fn reset_playback(&mut self)
        ensures
            final(self).state@ == old(self).state@,
            final(self).current_frame == 0,
            final(self).current_state == 0,
            final(self).current_frame_recording == old(self).current_frame_recording,
            final(self).playing == old(self).playing,
            final(self).recording == old(self).recording,
            final(self).complete == old(self).complete,
            final(self).wf(),
    {
        self.current_frame = 0;
        self.current_state = 0;
    }

    /// Undoes the last recorded action: pops it and rewinds the clock to its
    /// frame. Nothing happens on an empty log.
    pub fn erase_rewind(&mut self)
        requires
            old(self).wf(),
        ensures
            old(self).state@.len() == 0 ==> {
                &&& final(self).state@ == old(self).state@
                &&& final(self).current_frame == old(self).current_frame
                &&& final(self).current_state == old(self).current_state
            },
            old(self).state@.len() > 0 ==> {
                &&& final(self).state@ == old(self).state@.drop_last()
                &&& final(self).current_frame == old(self).state@.last().frame
                &&& final(self).current_state == if old(self).current_state > 0 {
                    old(self).current_state - 1
                } else {
                    0
                }
            },
            final(self).current_frame_recording == old(self).current_frame_recording,
            final(self).playing == old(self).playing,
            final(self).recording == old(self).recording,
            final(self).complete == old(self).complete,
            final(self).wf(),
    {
        let popped = self.state.pop();
        if let Some(s) = popped {
            if self.current_state > 0 {
                self.current_state = self.current_state - 1;
            }
            self.current_frame = s.frame as u64;
        }
    }

    /// One replay step with a budget of `frames`: starting from the first
    /// entry ends any open stroke and jumps the clock to that entry's frame; a
    /// pause longer than `IDLE_GAP` before the next entry is skipped; the clock
    /// advances by `frames`, and every entry before the clock is replayed into
    /// `lines` and `level`, in order. Reaching the end of the log marks the
    /// replay complete and stops it.
    pub fn playback(&mut self, frames: u32, lines: &mut Lines, level: &mut Level)
        requires
            old(self).wf(),
            old(lines).wf(),
        ensures
            final(self).wf(),
            final(lines).wf(),
            final(self).state@ == old(self).state@,
            final(self).current_frame_recording == old(self).current_frame_recording,
            final(self).recording == old(self).recording,
            (final(self).current_frame as int, final(self).current_state as int) == cursor_step(
                old(self).state@,
                old(self).current_frame as int,
                old(self).current_state as int,
                frames as int,
            ),
            old(self).current_state <= final(self).current_state <= old(self).state@.len(),
            old(self).current_state < old(self).state@.len() ==> {
                let start = if old(self).current_state == 0 {
                    old(lines)@.lifted()
                } else {
                    old(lines)@
                };
                &&& (final(lines)@, final(level).collectibles@) == apply_range(
                    start,
                    old(level).collectibles@,
                    old(self).state@,
                    old(self).current_state as int,
                    final(self).current_state as int,
                )
                &&& final(lines).needs_update == (old(lines).needs_update || moves_pen(
                    old(self).state@,
                    old(self).current_state as int,
                    final(self).current_state as int,
                ))
            },
            old(self).current_state >= old(self).state@.len() ==> {
                &&& final(lines)@ == old(lines)@
                &&& final(lines).needs_update == old(lines).needs_update
                &&& final(level).collectibles@ == old(level).collectibles@
            },
            final(self).current_state == old(self).state@.len() ==> final(self).complete
                && !final(self).playing,
            final(self).current_state < old(self).state@.len() ==> final(self).complete
                == old(self).complete && final(self).playing == old(self).playing,
            frames > 0 && old(self).current_state == 0 < old(self).state@.len() ==> final(self).current_state
                >= 1,
            frames > 0 && old(self).current_state < old(self).state@.len() ==> (
            final(self).current_state > old(self).current_state || final(self).current_frame
                > old(self).current_frame),
            final(level).start_position == old(level).start_position,
            final(level).line_color == old(level).line_color,
            final(level).user_line_color == old(level).user_line_color,
            final(level).collected == old(level).collected,
            final(level).complete == old(level).complete,
            final(level).setup == old(level).setup,
            old(level).wf() ==> final(level).wf(),
    {
        let n = self.state.len();
        let ghost log = self.state@;
        let ghost i0 = self.current_state as int;
        let ghost start = if i0 == 0 {
            lines@.lifted()
        } else {
            lines@
        };
        let ghost cs0 = level.collectibles@;
        let ghost dirty0 = lines.needs_update;
        if self.current_state < n {
            if self.current_state == 0 {
                lines.end_segment();
                self.current_frame = self.state[0].frame as u64;
            }
            let next = self.state[self.current_state].frame as u64;
            if next > self.current_frame + IDLE_GAP as u64 {
                self.current_frame = next;
            }
            self.current_frame = self.current_frame + frames as u64;
            let ghost c = self.current_frame as int;
            assert(c == start_frame(log, self.current_frame - frames, i0) + frames);
            proof {
                lemma_consume_end(log, i0, c);
                if i0 == 0 && frames > 0 {
                    assert(log[0].frame < c);
                    assert(consume_end(log, 0, c) == consume_end(log, 1, c));
                    lemma_consume_end(log, 1, c);
                }
                lemma_apply_range_count(start, cs0, log, i0, i0);
            }
            while self.current_state < n && (self.state[self.current_state].frame as u64)
                < self.current_frame
                invariant
                    self.state@ == log,
                    n == log.len(),
                    i0 <= self.current_state <= n,
                    self.current_frame == c,
                    consume_end(log, self.current_state as int, c) == consume_end(log, i0, c),
                    (lines@, level.collectibles@) == apply_range(
                        start,
                        cs0,
                        log,
                        i0,
                        self.current_state as int,
                    ),
                    lines.wf(),
                    lines.needs_update == (dirty0 || moves_pen(
                        log,
                        i0,
                        self.current_state as int,
                    )),
                    self.current_frame_recording == old(self).current_frame_recording,
                    self.recording == old(self).recording,
                    self.playing == old(self).playing,
                    self.complete == old(self).complete,
                    level.start_position == old(level).start_position,
                    level.line_color == old(level).line_color,
                    level.user_line_color == old(level).user_line_color,
                    level.collected == old(level).collected,
                    level.complete == old(level).complete,
                    level.setup == old(level).setup,
                decreases n - self.current_state,
            {
                let e = self.state[self.current_state];
                let ghost k = self.current_state as int;
                match e.kind {
                    MouseAction::PlaceCollectible => {
                        level.collectibles.push(Collectible::new(e.position, 0));
                    },
                    MouseAction::PenUp => {
                        lines.end_segment();
                    },
                    MouseAction::PenMove => {
                        lines.add_segment(e.position);
                    },
                }
                self.current_state = self.current_state + 1;
                assert(lines.needs_update == (dirty0 || moves_pen(
                    log,
                    i0,
                    self.current_state as int,
                ))) by {
                    if e.kind == MouseAction::PenMove {
                        assert(log[k].kind == MouseAction::PenMove);
                    } else if moves_pen(log, i0, self.current_state as int) {
                        let w = choose|w: int|
                            i0 <= w < k + 1 && (#[trigger] log[w]).kind == MouseAction::PenMove;
                        assert(w != k);
                    }
                }
            }
            proof {
                lemma_apply_range_count(start, cs0, log, i0, self.current_state as int);
            }
        }
        if self.current_state == n {
            self.complete = true;
            self.playing = false;
        }
    }

    /// Replays the whole log from the start without animating it.
    pub fn play_until_end(&mut self, lines: &mut Lines, level: &mut Level)
        requires
            old(self).wf(),
            old(lines).wf(),
        ensures
            final(self).wf(),
            final(lines).wf(),
            final(self).state@ == old(self).state@,
            final(self).current_state == old(self).state@.len(),
            final(self).complete,
            !final(self).playing,
            final(self).current_frame_recording == old(self).current_frame_recording,
            final(self).recording == old(self).recording,
            (final(lines)@, final(level).collectibles@) == apply_range(
                if old(self).state@.len() > 0 {
                    old(lines)@.lifted()
                } else {
                    old(lines)@
                },
                old(level).collectibles@,
                old(self).state@,
                0,
                old(self).state@.len() as int,
            ),
            final(level).start_position == old(level).start_position,
            final(level).line_color == old(level).line_color,
            final(level).user_line_color == old(level).user_line_color,
            final(level).collected == old(level).collected,
            final(level).complete == old(level).complete,
            final(level).setup == old(level).setup,
            old(level).wf() ==> final(level).wf(),
    {
        let ghost log = self.state@;
        let ghost start = if log.len() > 0 {
            lines@.lifted()
        } else {
            lines@
        };
        let ghost cs0 = level.collectibles@;
        self.current_state = 0;
        self.current_frame = 0;
        self.playback(PLAY_TO_END_BUDGET, lines, level);
        while self.current_state < self.state.len()
            invariant
                self.wf(),
                lines.wf(),
                self.state@ == log,
                log.len() > 0 ==> 1 <= self.current_state,
                (lines@, level.collectibles@) == apply_range(
                    start,
                    cs0,
                    log,
                    0,
                    self.current_state as int,
                ),
                self.current_frame_recording == old(self).current_frame_recording,
                self.recording == old(self).recording,
                self.current_state == log.len() ==> self.complete && !self.playing,
                level.start_position == old(level).start_position,
                level.line_color == old(level).line_color,
                level.user_line_color == old(level).user_line_color,
                level.collected == old(level).collected,
                level.complete == old(level).complete,
                level.setup == old(level).setup,
                old(level).wf() ==> level.wf(),
            decreases log.len() - self.current_state, u32::MAX + 1 - self.current_frame,
        {
            let ghost mid = self.current_state as int;
            self.playback(PLAY_TO_END_BUDGET, lines, level);
            proof {
                lemma_apply_range_split(start, cs0, log, 0, mid, self.current_state as int);
            }
        }
    }
}

/// One replay step keeps the cursor within the log and never moves it back.
pub proof fn lemma_step_bounds(log: Seq<MouseState>, cf: int, idx: int, budget: int)
    requires
        0 <= idx <= log.len(),
    ensures
        idx <= cursor_step(log, cf, idx, budget).1 <= log.len(),
{
    if idx < log.len() {
        lemma_consume_end(log, idx, start_frame(log, cf, idx) + budget);
    }
}

/// Replay steps never move the cursor back, and it never passes the end of the
/// log: after any prefix of the steps the index is at most where it is after
/// all of them.
pub proof fn lemma_cursor_monotonic(log: Seq<MouseState>, cf: int, idx: int, bs: Seq<u32>, k: int)
    requires
        0 <= idx <= log.len(),
        0 <= k <= bs.len(),
    ensures
        idx <= cursor_run(log, cf, idx, bs.take(k)).1,
        cursor_run(log, cf, idx, bs.take(k)).1 <= cursor_run(log, cf, idx, bs).1,
        cursor_run(log, cf, idx, bs).1 <= log.len(),
    decreases bs.len(),
{
    if bs.len() == 0 {
        assert(bs.take(k) == bs);
    } else {
        let (c, i) = cursor_run(log, cf, idx, bs.drop_last());
        if k == bs.len() {
            assert(bs.take(k) == bs);
            lemma_cursor_monotonic(log, cf, idx, bs.drop_last(), 0);
            lemma_step_bounds(log, c, i, bs.last() as int);
        } else {
            lemma_cursor_monotonic(log, cf, idx, bs.drop_last(), k);
            assert(bs.drop_last().take(k) == bs.take(k));
            lemma_step_bounds(log, c, i, bs.last() as int);
        }
    }
}

/// After at least one step with positive budgets, the clock has advanced by
/// at least the total budget and stands before the next unplayed entry.
proof fn lemma_run_progress(log: Seq<MouseState>, cf: int, idx: int, bs: Seq<u32>)
    requires
        0 <= idx <= log.len(),
        cf >= 0,
        forall|i: int| 0 <= i < bs.len() ==> bs[i] > 0,
    ensures
        ({
            let (c, j) = cursor_run(log, cf, idx, bs);
            &&& j <= log.len()
            &&& bs.len() >= 1 && j < log.len() ==> {
                &&& c >= total_budget(bs)
                &&& j >= 1
                &&& log[j].frame >= c
            }
        }),
    decreases bs.len(),
{
    if bs.len() > 0 {
        let front = bs.drop_last();
        lemma_run_progress(log, cf, idx, front);
        lemma_cursor_monotonic(log, cf, idx, front, 0);
        let (c0, j0) = cursor_run(log, cf, idx, front);
        let b = bs.last() as int;
        assert(b > 0) by {
            assert(bs[bs.len() - 1] > 0);
        }
        if j0 < log.len() {
            let c = start_frame(log, c0, j0) + b;
            lemma_consume_end(log, j0, c);
            if front.len() == 0 {
                assert(c0 == cf && j0 == idx);
                assert(total_budget(bs) == b) by {
                    assert(total_budget(front) == 0);
                }
                if j0 == 0 {
                    assert(log[0].frame < c);
                    assert(consume_end(log, 0, c) == consume_end(log, 1, c));
                    lemma_consume_end(log, 1, c);
                }
            }
        }
    }
}

/// Once the total replay budget passes the frame of the last entry of a log
/// with non-decreasing frames, the whole log has been replayed; further steps
/// leave the cursor at the end (the step that reaches the end marks the replay
/// complete and stops it).
pub proof fn lemma_playback_completes(log: Seq<MouseState>, cf: int, idx: int, bs: Seq<u32>)
    requires
        frames_sorted(log),
        0 <= idx <= log.len(),
        cf >= 0,
        forall|i: int| 0 <= i < bs.len() ==> bs[i] > 0,
        log.len() == 0 || total_budget(bs) > log.last().frame,
    ensures
        cursor_run(log, cf, idx, bs).1 == log.len(),
        cursor_step(
            log,
            cursor_run(log, cf, idx, bs).0,
            cursor_run(log, cf, idx, bs).1,
            PLAY_TO_END_BUDGET as int,
        ).1 == log.len(),
{
    lemma_run_progress(log, cf, idx, bs);
    lemma_cursor_monotonic(log, cf, idx, bs, 0);
    let (c, j) = cursor_run(log, cf, idx, bs);
    if j < log.len() {
        if bs.len() == 0 {
            assert(total_budget(bs) == 0);
            assert(log.len() > 0);
        } else {
            assert(log[j].frame <= log[log.len() - 1].frame);
        }
    }
}

} // verus!