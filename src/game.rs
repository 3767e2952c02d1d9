//! One game session: the level's lines, the player's lines, the replay, the
//! ball and the transitions between levels, advanced one frame at a time.
//! The host feeds it input events in world coordinates and draws what it holds.
use crate::ball::{
    ball_step, pick_all, pick_height, reset, reset_ball, Ball, BALL_RADIUS, FADED_ALPHA,
};
use crate::editor::{rebuilds, replayed, Editor, EditorEvent};
use crate::geometry::{closer_than, lemma_mul_bound, Vector2i, LINE_RADIUS, SCALE};
use crate::level::{count_collected, Collectible, Color, Level, ALPHA_FULL};
use crate::level_file::{load, parse_level, LoadError};
use crate::lines::{kept_points, Lines, LinesView};
use crate::playback::{apply_range, lemma_apply_range_appends, MousePlayback};
use vstd::prelude::*;
use vstd::string::StringSliceAdditionalSpecFns;

verus! {

/// Replay budget per frame: the authored strokes replay eight times as fast
/// as they were drawn.
pub const PLAYBACK_BUDGET: u32 = 8;

/// Radius of the player's eraser (0.06 world units).
pub const ERASER_RADIUS: i32 = 60_000;

/// Opacity of a fully shown level, in thousandths.
pub const LEVEL_ALPHA_FULL: i32 = 1000;

/// Change of the level's opacity per frame during a transition.
pub const LEVEL_FADE_STEP: i32 = 20;

/// Change of the ball's opacity per frame while it fades in.
pub const BALL_FADE_STEP: u32 = 15;

/// Change of a collectible's opacity per frame while it fades in.
pub const COLLECTIBLE_FADE_STEP: u32 = 40;

/// Input to a session, with pointer positions already in world coordinates.
#[derive(Clone, Copy, Debug, PartialEq, Eq, Structural)]
pub enum GameEvent {
    PointerMoved(Vector2i),
    LeftDown,
    LeftUp,
    RightDown,
    RightUp,
    /// Restart the attempt and release the ball.
    Release,
    Other,
}

/// What the host should do after a frame.
#[derive(Clone, Copy, Debug, PartialEq, Eq, Structural)]
pub struct FrameOutcome {
    /// Height of the last collectible picked up this frame, if any.
    pub picked_height: Option<i32>,
    /// The level to load next, when a transition has faded out.
    pub load_level: Option<usize>,
}

/// The ball has left the playing field: sideways past the band `[-1, 3]` or
/// below the bottom.
pub open spec fn out_of_bounds(p: Vector2i) -> bool {
    p.x < -SCALE || p.x > 3 * SCALE || p.y < 0
}

/// Opacity after one fade-in step toward `ALPHA_FULL`.
pub open spec fn faded_in(alpha: u32, step: u32) -> u32 {
    if alpha < ALPHA_FULL {
        (alpha + step) as u32
    } else {
        ALPHA_FULL
    }
}

/// The ball put back at `start`, at rest; a ball that was moving fades back
/// in.
pub open spec fn restarted(b: Ball, start: Vector2i) -> Ball {
    Ball {
        alpha: if b.moving {
            FADED_ALPHA
        } else {
            b.alpha
        },
        moving: false,
        position: start,
        velocity: Vector2i { x: 0, y: 0 },
        ..b
    }
}

/// Every collectible made available again.
pub open spec fn all_available(cs: Seq<Collectible>) -> Seq<Collectible> {
    Seq::new(cs.len(), |i: int| Collectible { collected: false, ..cs[i] })
}

/// A collectible after one fade-in step: only available ones fade in.
pub open spec fn faded_collectible(c: Collectible) -> Collectible {
    if c.collected {
        c
    } else {
        Collectible { alpha: faded_in(c.alpha, COLLECTIBLE_FADE_STEP), ..c }
    }
}

/// Every collectible after one fade-in step.
pub open spec fn fade_all(cs: Seq<Collectible>) -> Seq<Collectible> {
    Seq::new(cs.len(), |i: int| faded_collectible(cs[i]))
}

/// Level opacity after one transition step, starting from fade flags `fo`,
/// `fi` and opacity `a`: a finished fade-out restarts at 0 and fades in.
pub open spec fn next_alpha(fo: bool, fi: bool, a: int) -> int {
    let switch = fo && a < 0;
    let a0 = if switch {
        0
    } else {
        a
    };
    let a1 = if fo && !switch {
        a0 - LEVEL_FADE_STEP
    } else {
        a0
    };
    let fading_in = fi || switch;
    let a2 = if fading_in {
        a1 + LEVEL_FADE_STEP
    } else {
        a1
    };
    if fading_in && a2 >= LEVEL_ALPHA_FULL {
        LEVEL_ALPHA_FULL as int
    } else {
        a2
    }
}

/// A game session.
pub struct Game {
    /// The level's geometry, built by the replay.
    pub lines: Lines,
    /// The player's strokes.
    pub user_lines: Lines,
    pub level: Level,
    pub mouse_playback: MousePlayback,
    pub ball: Ball,
    pub editor: Editor,
    pub mouse_down: bool,
    pub right_mouse_down: bool,
    /// Pointer position in world coordinates.
    pub mouse_position: Vector2i,
    /// Opacity of the whole level, in thousandths.
    pub level_alpha: i32,
    pub fade_out: bool,
    pub fade_in: bool,
    pub current_level: usize,
    /// Number of levels in the sequence.
    pub level_count: usize,
    /// Stay on the current level when it is complete.
    pub prevent_transition: bool,
}

impl Game {
    /// The two states agree on the lines and on the input state.
    pub open spec fn same_input(&self, other: &Game) -> bool {
        &&& other.lines == self.lines
        &&& other.user_lines == self.user_lines
        &&& other.mouse_position == self.mouse_position
        &&& other.mouse_down == self.mouse_down
        &&& other.right_mouse_down == self.right_mouse_down
        &&& other.editor == self.editor
    }

    /// The pointer, held down outside the editor, is on the ball's placeholder
    /// at the start of a level that is set up.
    pub open spec fn grabs_ball(&self) -> bool {
        self.level.setup && self.mouse_down && !self.editor.active && closer_than(
            self.mouse_position.x as int,
            self.mouse_position.y as int,
            self.level.start_position,
            self.ball.radius as int,
        )
    }

    pub open spec fn wf(&self) -> bool {
        &&& self.lines.wf()
        &&& self.user_lines.wf()
        &&& self.level.wf()
        &&& self.mouse_playback.wf()
        &&& -LEVEL_FADE_STEP <= self.level_alpha <= LEVEL_ALPHA_FULL
        &&& self.ball.alpha <= ALPHA_FULL + BALL_FADE_STEP
        &&& forall|i: int|
            0 <= i < self.level.collectibles@.len() ==> (#[trigger] self.level.collectibles@[
                i
            ]).alpha <= ALPHA_FULL + COLLECTIBLE_FADE_STEP
    }

    /// A session with nothing loaded yet, over a sequence of `level_count`
    /// levels.
    pub fn new(level_count: usize, line_color: Color, user_line_color: Color) -> (g: Game)
        ensures
            g.wf(),
            g.level_count == level_count,
            g.current_level == 0,
            g.level_alpha == LEVEL_ALPHA_FULL,
            g.mouse_playback.playing,
            !g.ball.moving,
            g.ball.radius == BALL_RADIUS,
    {
        let mut mouse_playback = MousePlayback::new();
        mouse_playback.playing = true;
        let level = Level::new(Vector2i::new(0, 0), line_color, user_line_color);
        Game {
            lines: Lines::new(),
            user_lines: Lines::new(),
            ball: Ball {
                position: level.start_position,
                velocity: Vector2i::new(0, 0),
                radius: BALL_RADIUS,
                color: Color::new(255, 255, 255, 255),
                alpha: ALPHA_FULL,
                moving: false,
                grounded: 0,
            },
            level,
            mouse_playback,
            editor: Editor::new(),
            mouse_down: false,
            right_mouse_down: false,
            mouse_position: Vector2i::new(0, 0),
            level_alpha: LEVEL_ALPHA_FULL,
            fade_out: false,
            fade_in: false,
            current_level: 0,
            level_count,
            prevent_transition: false,
        }
    }

    /// Clears everything and loads a level text, which then replays from its
    /// start. A malformed text leaves the level empty and is reported.
    pub fn load_level(&mut self, text: &str) -> (r: Result<(), LoadError>)
        requires
            old(self).wf(),
            text.spec_bytes().len() < usize::MAX,
        ensures
            final(self).wf(),
            r is Ok <==> parse_level(text.spec_bytes()) is Some,
            match parse_level(text.spec_bytes()) {
                Some((p, log)) => {
                    &&& final(self).mouse_playback.state@ == log
                    &&& final(self).level.start_position == p
                    &&& final(self).ball.position == p
                    &&& final(self).mouse_playback.playing
                },
                None => final(self).mouse_playback.state@ == Seq::<
                    crate::playback::MouseState,
                >::empty(),
            },
            final(self).mouse_playback.current_state == 0,
            final(self).mouse_playback.current_frame == 0,
            final(self).lines@.points == Seq::<Vector2i>::empty(),
            final(self).user_lines@.points == Seq::<Vector2i>::empty(),
            final(self).lines@.last is None,
            final(self).user_lines@.last is None,
            final(self).level.collectibles@.len() == 0,
            !final(self).level.complete,
    {
        self.lines.clear();
        self.user_lines.clear();
        self.level.clear();
        self.mouse_playback.clear();
        let r = load(&mut self.mouse_playback, &mut self.level, text);
        if r.is_ok() {
            self.mouse_playback.playing = true;
            self.ball.position = self.level.start_position;
        }
        r
    }

    /// Applies one input event outside the editor.
    pub fn handle_event(&mut self, event: GameEvent)
        requires
            old(self).wf(),
        ensures
            final(self).wf(),
            final(self).lines == old(self).lines,
            final(self).mouse_playback == old(self).mouse_playback,
            !(event is Release) ==> final(self).ball == old(self).ball && final(self).level
                == old(self).level,
            !(event is PointerMoved) && !(event is LeftUp) ==> final(self).user_lines == old(
                self,
            ).user_lines,
            match event {
                GameEvent::PointerMoved(p) => {
                    &&& final(self).mouse_position == p
                    &&& final(self).user_lines@ == if old(self).mouse_down
                        && !old(self).editor.active {
                        old(self).user_lines@.stroke_to(p)
                    } else {
                        old(self).user_lines@
                    }
                },
                GameEvent::LeftDown => final(self).mouse_down,
                GameEvent::LeftUp => {
                    &&& !final(self).mouse_down
                    &&& final(self).user_lines@ == old(self).user_lines@.lifted()
                },
                GameEvent::RightDown => final(self).right_mouse_down,
                GameEvent::RightUp => !final(self).right_mouse_down,
                GameEvent::Release => {
                    &&& final(self).ball == (Ball {
                        moving: true,
                        ..restarted(old(self).ball, old(self).level.start_position)
                    })
                    &&& final(self).level.collectibles@ == all_available(
                        old(self).level.collectibles@,
                    )
                    &&& final(self).level.collected == 0
                    &&& !final(self).level.complete
                    &&& final(self).level.start_position == old(self).level.start_position
                },
                GameEvent::Other => true,
            },
    {
        match event {
            GameEvent::PointerMoved(p) => {
                self.mouse_position = p;
                if self.mouse_down && !self.editor.active {
                    self.user_lines.add_segment(p);
                }
            },
            GameEvent::LeftDown => {
                self.mouse_down = true;
            },
            GameEvent::LeftUp => {
                self.mouse_down = false;
                self.user_lines.end_segment();
            },
            GameEvent::RightDown => {
                self.right_mouse_down = true;
            },
            GameEvent::RightUp => {
                self.right_mouse_down = false;
            },
            GameEvent::Release => {
                self.restart_attempt();
                self.ball.moving = true;
            },
            GameEvent::Other => {},
        }
    }

    /// Passes an event to the level editor, which works on this session's
    /// replay log, level and level lines. Returns the level text when the
    /// event asks to export it.
    pub fn editor_event(&mut self, event: EditorEvent) -> (r: Option<String>)
        requires
            old(self).wf(),
        ensures
            final(self).wf(),
            r is Some <==> event is Save,
            final(self).ball == old(self).ball,
            final(self).user_lines == old(self).user_lines,
            final(self).level_alpha == old(self).level_alpha,
            final(self).fade_out == old(self).fade_out,
            final(self).fade_in == old(self).fade_in,
            final(self).current_level == old(self).current_level,
            final(self).level_count == old(self).level_count,
            final(self).prevent_transition == old(self).prevent_transition,
            final(self).mouse_down == old(self).mouse_down,
            final(self).right_mouse_down == old(self).right_mouse_down,
            final(self).mouse_position == old(self).mouse_position,
            final(self).mouse_playback.recording,
            rebuilds(event) ==> (final(self).lines@, final(self).level.collectibles@) == replayed(
                final(self).mouse_playback.state@,
            ),
            !rebuilds(event) && !(event is PlaceCollectible) ==> final(self).level.collectibles@
                == old(self).level.collectibles@,
    {
        let ghost cs0 = self.level.collectibles@;
        let r = self.editor.update(
            event,
            &mut self.mouse_playback,
            &mut self.level,
            &mut self.lines,
        );
        proof {
            if event is ClearAll {
                assert(self.lines@ == replayed(self.mouse_playback.state@).0);
                assert(self.level.collectibles@ == replayed(self.mouse_playback.state@).1);
            }
            if event is Rewind || event is RewindRepeat {
                lemma_apply_range_appends(
                    LinesView { points: Seq::empty(), last: None },
                    Seq::empty(),
                    self.mouse_playback.state@,
                    0,
                    self.mouse_playback.state@.len() as int,
                );
            }
            if event is PlaceCollectible {
                assert forall|i: int| 0 <= i < self.level.collectibles@.len() implies (
                #[trigger] self.level.collectibles@[i]).alpha <= ALPHA_FULL
                    + COLLECTIBLE_FADE_STEP by {
                    if i < cs0.len() {
                        assert(self.level.collectibles@[i] == cs0[i]);
                    }
                }
            }
        }
        r
    }

    /// Puts the ball back at the start and makes every collectible available.
    fn restart_attempt(&mut self)
        requires
            old(self).wf(),
        ensures
            final(self).wf(),
            final(self).ball == restarted(old(self).ball, old(self).level.start_position),
            final(self).level.collectibles@ == all_available(old(self).level.collectibles@),
            final(self).level.collected == 0,
            !final(self).level.complete,
            final(self).level.setup == old(self).level.setup,
            final(self).level.start_position == old(self).level.start_position,
            final(self).mouse_playback == old(self).mouse_playback,
            final(self).lines == old(self).lines,
            final(self).user_lines == old(self).user_lines,
            final(self).mouse_down == old(self).mouse_down,
            final(self).right_mouse_down == old(self).right_mouse_down,
            final(self).mouse_position == old(self).mouse_position,
            final(self).editor == old(self).editor,
            final(self).level_alpha == old(self).level_alpha,
            final(self).fade_out == old(self).fade_out,
            final(self).fade_in == old(self).fade_in,
            final(self).current_level == old(self).current_level,
            final(self).level_count == old(self).level_count,
            final(self).prevent_transition == old(self).prevent_transition,
    {
        reset(&mut self.ball, &mut self.level);
        assert(self.level.collectibles@ =~= all_available(old(self).level.collectibles@));
    }

    /// The player grabs the ball's placeholder at the start: the attempt
    /// restarts with the ball released.
    pub fn release_on_click(&mut self)
        requires
            old(self).wf(),
        ensures
            final(self).wf(),
            ({
                if old(self).grabs_ball() {
                    &&& final(self).ball == (Ball {
                        moving: true,
                        ..restarted(old(self).ball, old(self).level.start_position)
                    })
                    &&& final(self).level.collectibles@ == all_available(
                        old(self).level.collectibles@,
                    )
                    &&& final(self).level.collected == 0
                    &&& !final(self).level.complete
                    &&& final(self).level.setup == old(self).level.setup
                    &&& final(self).level.start_position == old(self).level.start_position
                } else {
                    &&& final(self).ball == old(self).ball
                    &&& final(self).level == old(self).level
                }
            }),
            final(self).fade_out == old(self).fade_out,
            final(self).fade_in == old(self).fade_in,
            final(self).level_alpha == old(self).level_alpha,
            final(self).current_level == old(self).current_level,
            final(self).level_count == old(self).level_count,
            final(self).prevent_transition == old(self).prevent_transition,
            old(self).same_input(&*final(self)),
            final(self).mouse_playback == old(self).mouse_playback,
    {
        if self.level.setup && self.mouse_down && !self.editor.active {
            let m = self.mouse_position;
            let s = self.level.start_position;
            let dx = m.x as i128 - s.x as i128;
            let dy = m.y as i128 - s.y as i128;
            let r = self.ball.radius as i128;
            proof {
                lemma_mul_bound(dx as int, dx as int, 0x1_0000_0000, 0x1_0000_0000);
                lemma_mul_bound(dy as int, dy as int, 0x1_0000_0000, 0x1_0000_0000);
                lemma_mul_bound(r as int, r as int, 0x1_0000_0000, 0x1_0000_0000);
            }
            if r > 0 && dx * dx + dy * dy < r * r {
                self.restart_attempt();
                self.ball.moving = true;
            }
        }
    }

    /// A ball that left the playing field is put back at the start, and the
    /// attempt restarts.
    pub fn check_bounds(&mut self)
        requires
            old(self).wf(),
        ensures
            final(self).wf(),
            out_of_bounds(old(self).ball.position) ==> {
                &&& final(self).ball == restarted(old(self).ball, old(self).level.start_position)
                &&& final(self).level.collectibles@ == all_available(old(self).level.collectibles@)
                &&& final(self).level.collected == 0
                &&& !final(self).level.complete
                &&& final(self).level.setup == old(self).level.setup
                &&& final(self).level.start_position == old(self).level.start_position
            },
            !out_of_bounds(old(self).ball.position) ==> final(self).ball == old(self).ball
                && final(self).level == old(self).level,
            final(self).fade_out == old(self).fade_out,
            final(self).fade_in == old(self).fade_in,
            final(self).level_alpha == old(self).level_alpha,
            final(self).current_level == old(self).current_level,
            final(self).level_count == old(self).level_count,
            final(self).prevent_transition == old(self).prevent_transition,
            old(self).same_input(&*final(self)),
            final(self).mouse_playback == old(self).mouse_playback,
    {
        let p = self.ball.position;
        if p.x < -SCALE || p.x > 3 * SCALE || p.y < 0 {
            self.restart_attempt();
        }
    }

    /// Once the level's replay is complete, the ball appears at the start.
    pub fn spawn_ball(&mut self)
        requires
            old(self).wf(),
        ensures
            final(self).wf(),
            old(self).mouse_playback.complete && !old(self).level.setup ==> {
                &&& final(self).ball == (Ball {
                    position: old(self).level.start_position,
                    velocity: Vector2i { x: 0, y: 0 },
                    ..old(self).ball
                })
                &&& final(self).level.setup
            },
            final(self).level.start_position == old(self).level.start_position,
            final(self).level.complete == old(self).level.complete,
            !(old(self).mouse_playback.complete && !old(self).level.setup) ==> final(self).ball
                == old(self).ball && final(self).level.setup == old(self).level.setup,
            final(self).level.collected == old(self).level.collected,
            final(self).level.collectibles == old(self).level.collectibles,
            final(self).fade_out == old(self).fade_out,
            final(self).fade_in == old(self).fade_in,
            final(self).level_alpha == old(self).level_alpha,
            final(self).current_level == old(self).current_level,
            final(self).level_count == old(self).level_count,
            final(self).prevent_transition == old(self).prevent_transition,
            old(self).same_input(&*final(self)),
            final(self).mouse_playback == old(self).mouse_playback,
    {
        if self.mouse_playback.complete && !self.level.setup {
            self.ball.position = self.level.start_position;
            self.ball.velocity = Vector2i::new(0, 0);
            self.level.setup = true;
        }
    }

    /// Moves the ball one frame, if it is in play, and picks up what it
    /// touches. Returns the height of the highest collectible picked up.
    pub fn step_ball(&mut self) -> (r: Option<i32>)
        requires
            old(self).wf(),
        ensures
            final(self).wf(),
            old(self).level.setup && old(self).ball.moving ==> {
                let b = ball_step(old(self).ball, old(self).lines@.points, old(self).user_lines@.points);
                &&& final(self).ball == b
                &&& final(self).level.collectibles@ == pick_all(b, old(self).level.collectibles@)
                &&& final(self).level.collected == count_collected(final(self).level.collectibles@)
                &&& r == if count_collected(final(self).level.collectibles@) > old(
                    self,
                ).level.collected {
                    Some(pick_height(b, old(self).level.collectibles@) as i32)
                } else {
                    None::<i32>
                }
            },
            !(old(self).level.setup && old(self).ball.moving) ==> {
                &&& final(self).ball == old(self).ball
                &&& final(self).level.collectibles == old(self).level.collectibles
                &&& final(self).level.complete == old(self).level.complete
                &&& r is None
            },
            final(self).level.start_position == old(self).level.start_position,
            final(self).level.setup == old(self).level.setup,
            final(self).fade_out == old(self).fade_out,
            final(self).fade_in == old(self).fade_in,
            final(self).level_alpha == old(self).level_alpha,
            final(self).current_level == old(self).current_level,
            final(self).level_count == old(self).level_count,
            final(self).prevent_transition == old(self).prevent_transition,
            old(self).same_input(&*final(self)),
            final(self).mouse_playback == old(self).mouse_playback,
    {
        if self.level.setup && self.ball.moving {
            self.ball.ball_physics(self.lines.line_points.as_slice(), self.user_lines.line_points.as_slice());
            let ghost cs = self.level.collectibles@;
            proof {
                crate::ball::lemma_step_keeps_looks(
                    old(self).ball,
                    old(self).lines@.points,
                    old(self).user_lines@.points,
                );
            }
            let (hit, height) = self.ball.check_for_collectibles(&mut self.level);
            proof {
                assert forall|i: int| 0 <= i < self.level.collectibles@.len() implies (
                #[trigger] self.level.collectibles@[i]).alpha <= ALPHA_FULL + COLLECTIBLE_FADE_STEP by {
                    assert(self.level.collectibles@[i] == crate::ball::picked(self.ball, cs[i]));
                }
            }
            if hit {
                Some(height)
            } else {
                None
            }
        } else {
            None
        }
    }

    /// The ball and the available collectibles fade in.
    pub fn fade_in_items(&mut self)
        requires
            old(self).wf(),
        ensures
            final(self).wf(),
            final(self).ball == (Ball {
                alpha: faded_in(old(self).ball.alpha, BALL_FADE_STEP),
                ..old(self).ball
            }),
            final(self).level.collectibles@ == fade_all(old(self).level.collectibles@),
            final(self).level.start_position == old(self).level.start_position,
            final(self).level.setup == old(self).level.setup,
            final(self).level.collected == old(self).level.collected,
            final(self).level.complete == old(self).level.complete,
            final(self).fade_out == old(self).fade_out,
            final(self).fade_in == old(self).fade_in,
            final(self).level_alpha == old(self).level_alpha,
            final(self).current_level == old(self).current_level,
            final(self).level_count == old(self).level_count,
            final(self).prevent_transition == old(self).prevent_transition,
            old(self).same_input(&*final(self)),
            final(self).mouse_playback == old(self).mouse_playback,
    {
        if self.ball.alpha < ALPHA_FULL {
            self.ball.alpha = self.ball.alpha + BALL_FADE_STEP;
        } else {
            self.ball.alpha = ALPHA_FULL;
        }
        let ghost cs = self.level.collectibles@;
        fade_collectibles(&mut self.level.collectibles);
        assert(self.level.collectibles@ =~= fade_all(cs));
        proof {
            assert(count_collected(self.level.collectibles@) == count_collected(cs)) by {
                lemma_count_same_flags(self.level.collectibles@, cs);
            }
        }
    }

    /// Level transitions: a complete level fades out; once faded out, the
    /// next level (or the last one again) is requested and fades in.
    pub fn update_transition(&mut self) -> (r: Option<usize>)
        requires
            old(self).wf(),
        ensures
            final(self).wf(),
            ({
                let switch = old(self).fade_out && old(self).level_alpha < 0;
                let next = if old(self).current_level + 1 < old(self).level_count {
                    old(self).current_level + 1
                } else {
                    old(self).current_level as int
                };
                let kick = old(self).level.complete && !old(self).prevent_transition;
                &&& r == if switch {
                    Some(next as usize)
                } else {
                    None::<usize>
                }
                &&& final(self).current_level == if switch {
                    next
                } else {
                    old(self).current_level as int
                }
                &&& final(self).fade_out == (kick || (old(self).fade_out && !switch))
                &&& final(self).fade_in == (!kick && (switch || old(self).fade_in)
                    && final(self).level_alpha < LEVEL_ALPHA_FULL)
                &&& final(self).level.complete == (old(self).level.complete && !kick)
                &&& final(self).ball == if switch {
                    restarted(old(self).ball, old(self).level.start_position)
                } else {
                    old(self).ball
                }
                &&& final(self).level_alpha == next_alpha(
                    old(self).fade_out,
                    old(self).fade_in,
                    old(self).level_alpha as int,
                )
            }),
            final(self).level.collectibles == old(self).level.collectibles,
            final(self).level.collected == old(self).level.collected,
            final(self).level.start_position == old(self).level.start_position,
            final(self).level.setup == old(self).level.setup,
            final(self).level_count == old(self).level_count,
            final(self).prevent_transition == old(self).prevent_transition,
            old(self).same_input(&*final(self)),
            final(self).mouse_playback == old(self).mouse_playback,
    {
        let mut load: Option<usize> = None;
        if self.fade_out && self.level_alpha < 0 {
            reset_ball(&mut self.ball, &self.level);
            self.fade_in = true;
            self.fade_out = false;
            self.level_alpha = 0;
            if self.level_count > 0 && self.current_level < self.level_count - 1 {
                self.current_level = self.current_level + 1;
            }
            load = Some(self.current_level);
        }
        if self.fade_out {
            self.level_alpha = self.level_alpha - LEVEL_FADE_STEP;
        }
        if self.fade_in {
            self.level_alpha = self.level_alpha + LEVEL_FADE_STEP;
            if self.level_alpha >= LEVEL_ALPHA_FULL {
                self.fade_in = false;
                self.level_alpha = LEVEL_ALPHA_FULL;
            }
        }
        if self.level.complete && !self.prevent_transition {
            self.level.complete = false;
            self.fade_out = true;
            self.fade_in = false;
        }
        load
    }

    /// Advances the session by one frame: releasing the ball on a click at the
    /// start, resetting it when it leaves the field, placing it once the replay
    /// is complete, erasing where the right button is held, ticking the
    /// recording counter, replaying the next part of the level into its lines
    /// and collectibles, moving the ball against the lines just replayed,
    /// fading items in, and managing level transitions.
    pub fn frame(&mut self) -> (r: FrameOutcome)
        requires
            old(self).wf(),
        ensures
            final(self).wf(),
            final(self).mouse_playback.current_frame_recording == if old(
                self,
            ).mouse_playback.current_frame_recording < u32::MAX {
                old(self).mouse_playback.current_frame_recording + 1
            } else {
                old(self).mouse_playback.current_frame_recording as int
            },
            final(self).mouse_playback.state@ == old(self).mouse_playback.state@,
            (final(self).mouse_playback.current_frame as int,
            final(self).mouse_playback.current_state as int) == if old(
                self,
            ).mouse_playback.playing {
                crate::playback::cursor_step(
                    old(self).mouse_playback.state@,
                    old(self).mouse_playback.current_frame as int,
                    old(self).mouse_playback.current_state as int,
                    PLAYBACK_BUDGET as int,
                )
            } else {
                (
                    old(self).mouse_playback.current_frame as int,
                    old(self).mouse_playback.current_state as int,
                )
            },
            final(self).user_lines@.points == if old(self).right_mouse_down {
                kept_points(
                    old(self).user_lines@.points,
                    old(self).mouse_position,
                    ERASER_RADIUS + LINE_RADIUS,
                )
            } else {
                old(self).user_lines@.points
            },
            ({
                let g = old(self);
                let start = g.level.start_position;
                // Release on a click at the start, then reset when out of bounds.
                let grab = g.grabs_ball();
                let b1 = if grab {
                    Ball { moving: true, ..restarted(g.ball, start) }
                } else {
                    g.ball
                };
                let oob = out_of_bounds(b1.position);
                let b2 = if oob {
                    restarted(b1, start)
                } else {
                    b1
                };
                let cs0 = if grab || oob {
                    all_available(g.level.collectibles@)
                } else {
                    g.level.collectibles@
                };
                let collected0 = if grab || oob {
                    0
                } else {
                    g.level.collected as int
                };
                // The ball appears once the replay is complete.
                let spawn = g.mouse_playback.complete && !g.level.setup;
                let b3 = if spawn {
                    Ball { position: start, velocity: Vector2i { x: 0, y: 0 }, ..b2 }
                } else {
                    b2
                };
                let setup = g.level.setup || g.mouse_playback.complete;
                // The replay writes the level's lines and collectibles.
                let log = g.mouse_playback.state@;
                let i0 = g.mouse_playback.current_state as int;
                let i1 = final(self).mouse_playback.current_state as int;
                let replays = g.mouse_playback.playing && i0 < log.len();
                let lines0 = if i0 == 0 {
                    g.lines@.lifted()
                } else {
                    g.lines@
                };
                let replayed = if replays {
                    apply_range(lines0, cs0, log, i0, i1)
                } else {
                    (g.lines@, cs0)
                };
                let cs1 = replayed.1;
                // Physics reads the lines just replayed.
                let phys = setup && b3.moving;
                let b4 = if phys {
                    ball_step(b3, replayed.0.points, final(self).user_lines@.points)
                } else {
                    b3
                };
                let cs2 = if phys {
                    pick_all(b4, cs1)
                } else {
                    cs1
                };
                let b5 = Ball { alpha: faded_in(b4.alpha, BALL_FADE_STEP), ..b4 };
                let switch = g.fade_out && g.level_alpha < 0;
                &&& final(self).lines@ == replayed.0
                &&& final(self).level.setup == setup
                &&& final(self).level.start_position == start
                &&& final(self).level.collectibles@ == fade_all(cs2)
                &&& final(self).ball == if switch {
                    restarted(b5, start)
                } else {
                    b5
                }
                &&& r.picked_height == if phys && count_collected(cs2) > collected0 {
                    Some(pick_height(b4, cs1) as i32)
                } else {
                    None::<i32>
                }
            }),
            ({
                let switch = old(self).fade_out && old(self).level_alpha < 0;
                let next = if old(self).current_level + 1 < old(self).level_count {
                    old(self).current_level + 1
                } else {
                    old(self).current_level as int
                };
                &&& r.load_level == if switch {
                    Some(next as usize)
                } else {
                    None::<usize>
                }
                &&& final(self).current_level == if switch {
                    next
                } else {
                    old(self).current_level as int
                }
            }),
            final(self).level_alpha == next_alpha(
                old(self).fade_out,
                old(self).fade_in,
                old(self).level_alpha as int,
            ),
            old(self).fade_out && old(self).level_alpha >= 0 ==> final(self).fade_out,
            !final(self).prevent_transition ==> !final(self).level.complete,
    {
        let ghost cs_start = self.level.collectibles@;
        self.release_on_click();
        self.check_bounds();
        proof {
            if old(self).grabs_ball() && out_of_bounds(self.ball.position) {
                assert(self.level.collectibles@ =~= all_available(cs_start));
            }
        }
        self.spawn_ball();
        if self.right_mouse_down {
            let m = self.mouse_position;
            self.user_lines.erase(m, ERASER_RADIUS);
        }
        self.mouse_playback.increment_frame();
        if self.mouse_playback.playing {
            let ghost cs = self.level.collectibles@;
            let ghost pb = self.mouse_playback;
            let ghost lv = self.lines@;
            self.mouse_playback.playback(PLAYBACK_BUDGET, &mut self.lines, &mut self.level);
            proof {
                if pb.current_state < pb.state@.len() {
                    let start = if pb.current_state == 0 {
                        lv.lifted()
                    } else {
                        lv
                    };
                    crate::playback::lemma_apply_range_appends(
                        start,
                        cs,
                        pb.state@,
                        pb.current_state as int,
                        self.mouse_playback.current_state as int,
                    );
                }
            }
        }
        let picked_height = self.step_ball();
        self.fade_in_items();
        let load_level = self.update_transition();
        FrameOutcome { picked_height, load_level }
    }
}

/// Every available collectible fades in by one step.
fn fade_collectibles(cs: &mut Vec<crate::level::Collectible>)
    requires
        forall|j: int|
            0 <= j < old(cs)@.len() ==> (#[trigger] old(cs)@[j]).alpha <= ALPHA_FULL
                + COLLECTIBLE_FADE_STEP,
    ensures
        final(cs)@.len() == old(cs)@.len(),
        forall|i: int|
            #![trigger final(cs)@[i]]
            0 <= i < old(cs)@.len() ==> {
                let c = old(cs)@[i];
                final(cs)@[i] == if c.collected {
                    c
                } else {
                    crate::level::Collectible {
                        alpha: faded_in(c.alpha, COLLECTIBLE_FADE_STEP),
                        ..c
                    }
                }
            },
        forall|j: int|
            0 <= j < final(cs)@.len() ==> (#[trigger] final(cs)@[j]).alpha <= ALPHA_FULL
                + COLLECTIBLE_FADE_STEP,
        forall|j: int|
            0 <= j < final(cs)@.len() ==> (#[trigger] final(cs)@[j]).collected == old(cs)@[j].collected,
{
    let n = cs.len();
    let ghost c0 = cs@;
    let mut i: usize = 0;
    while i < n
        invariant
            n == c0.len(),
            cs@.len() == n,
            i <= n,
            forall|j: int|
                #![trigger cs@[j]]
                0 <= j < i ==> cs@[j] == if c0[j].collected {
                    c0[j]
                } else {
                    crate::level::Collectible {
                        alpha: faded_in(c0[j].alpha, COLLECTIBLE_FADE_STEP),
                        ..c0[j]
                    }
                },
            forall|j: int| i <= j < n ==> #[trigger] cs@[j] == c0[j],
            forall|j: int|
                0 <= j < n ==> (#[trigger] cs@[j]).alpha <= ALPHA_FULL + COLLECTIBLE_FADE_STEP,
        decreases n - i,
    {
        let mut c = cs[i];
        if !c.collected {
            if c.alpha < ALPHA_FULL {
                c.alpha = c.alpha + COLLECTIBLE_FADE_STEP;
            } else {
                c.alpha = ALPHA_FULL;
            }
            cs.set(i, c);
        }
        i = i + 1;
    }
}

/// Changing only opacities keeps the pickup count.
proof fn lemma_count_same_flags(a: Seq<crate::level::Collectible>, b: Seq<crate::level::Collectible>)
    requires
        a.len() == b.len(),
        forall|i: int| 0 <= i < a.len() ==> (#[trigger] a[i]).collected == b[i].collected,
    ensures
        count_collected(a) == count_collected(b),
    decreases a.len(),
{
    if a.len() > 0 {
        lemma_count_same_flags(a.drop_last(), b.drop_last());
    }
}

} // verus!