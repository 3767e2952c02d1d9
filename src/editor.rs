//! The level editor: drawing with the left button records the stroke and
//! draws it straight into the level's lines; keys undo, clear, place
//! collectibles and export the level.
use crate::geometry::{closer_than, Vector2i};
use crate::level::{Collectible, Level, ALPHA_FULL, COLLECTIBLE_RADIUS, Color};
use crate::level_file::{ascii_chars, level_text, save};
use crate::lines::{Lines, LinesView};
use crate::playback::{apply_range, MouseAction, MousePlayback, MouseState};
use vstd::prelude::*;

verus! {

/// How close (0.05 world units) the pointer must be to the start position to
/// drag it.
pub const START_GRAB_RADIUS: i32 = 50_000;

/// Input to the editor, with pointer positions already in world coordinates.
#[derive(Clone, Copy, Debug, PartialEq, Eq, Structural)]
pub enum EditorEvent {
    PointerMoved(Vector2i),
    LeftDown,
    LeftUp,
    RightDown,
    RightUp,
    /// Undo the last recorded action.
    Rewind,
    /// Held undo key: undo the last four recorded actions.
    RewindRepeat,
    /// Start the level over from nothing.
    ClearAll,
    /// Place a collectible at the pointer.
    PlaceCollectible,
    /// Export the level text.
    Save,
    /// A frame is drawn.
    Draw,
    /// Anything else.
    Other,
}

/// Editor state between events.
pub struct Editor {
    pub left_mouse_down: bool,
    pub right_mouse_down: bool,
    /// Last pointer position, in world coordinates.
    pub mouse_position: Vector2i,
    /// The start position follows the pointer while the left button is held.
    pub dragging_start: bool,
    pub active: bool,
}

/// The event rebuilds the level from the log: undo, or start over.
pub open spec fn rebuilds(e: EditorEvent) -> bool {
    match e {
        EditorEvent::Rewind | EditorEvent::RewindRepeat | EditorEvent::ClearAll => true,
        _ => false,
    }
}

/// The event may change the level's lines.
pub open spec fn draws(e: EditorEvent) -> bool {
    match e {
        EditorEvent::PointerMoved(_) | EditorEvent::LeftUp => true,
        _ => rebuilds(e),
    }
}

/// What a log replays to from an empty level.
pub open spec fn replayed(log: Seq<MouseState>) -> (LinesView, Seq<Collectible>) {
    apply_range(
        LinesView { points: Seq::empty(), last: None },
        Seq::empty(),
        log,
        0,
        log.len() as int,
    )
}

/// The log after undoing `k` actions.
pub open spec fn undone(log: Seq<MouseState>, k: int) -> Seq<MouseState> {
    if log.len() >= k {
        log.take(log.len() - k)
    } else {
        Seq::empty()
    }
}

impl Editor {
    pub fn new() -> (e: Editor)
        ensures
            !e.left_mouse_down,
            !e.right_mouse_down,
            e.mouse_position == (Vector2i { x: 0, y: 0 }),
            !e.dragging_start,
            !e.active,
    {
        Editor {
            left_mouse_down: false,
            right_mouse_down: false,
            mouse_position: Vector2i::new(0, 0),
            active: false,
            dragging_start: false,
        }
    }

    /// Undoes the last `k` recorded actions and rebuilds the level from what
    /// remains.
    fn rewind(
        &mut self,
        k: u32,
        mouse_playback: &mut MousePlayback,
        level: &mut Level,
        level_lines: &mut Lines,
    )
        requires
            old(mouse_playback).wf(),
        ensures
            final(mouse_playback).wf(),
            final(level_lines).wf(),
            final(level).wf(),
            final(mouse_playback).state@ == undone(old(mouse_playback).state@, k as int),
            (final(level_lines)@, final(level).collectibles@) == replayed(
                final(mouse_playback).state@,
            ),
            final(mouse_playback).complete,
            !final(mouse_playback).playing,
            final(mouse_playback).recording == old(mouse_playback).recording,
            final(mouse_playback).current_frame_recording == old(
                mouse_playback,
            ).current_frame_recording,
            final(level).start_position == old(level).start_position,
            final(level).line_color == old(level).line_color,
            final(level).user_line_color == old(level).user_line_color,
            final(mouse_playback).current_state == final(mouse_playback).state@.len(),
            final(level).collected == 0,
            !final(level).complete,
            final(level).setup == old(level).setup,
            *final(self) == *old(self),
    {
        level_lines.clear();
        level.clear();
        let ghost log = mouse_playback.state@;
        let mut i: u32 = 0;
        while i < k
            invariant
                i <= k,
                mouse_playback.wf(),
                mouse_playback.state@ == undone(log, i as int),
                mouse_playback.recording == old(mouse_playback).recording,
                mouse_playback.current_frame_recording == old(
                    mouse_playback,
                ).current_frame_recording,
            decreases k - i,
        {
            mouse_playback.erase_rewind();
            proof {
                let before = undone(log, i as int);
                if before.len() > 0 {
                    assert(before.drop_last() == undone(log, i + 1));
                } else {
                    assert(undone(log, i + 1) == before);
                }
            }
            i = i + 1;
        }
        proof {
            assert(level_lines@ == level_lines@.lifted());
        }
        mouse_playback.play_until_end(level_lines, level);
        proof {
            crate::playback::lemma_apply_range_count(
                LinesView { points: Seq::empty(), last: None },
                Seq::empty(),
                mouse_playback.state@,
                0,
                mouse_playback.state@.len() as int,
            );
        }
    }

    /// Applies one input event to the level being authored. Returns the level
    /// text when the event asks to export it.
    pub fn update(
        &mut self,
        event: EditorEvent,
        mouse_playback: &mut MousePlayback,
        level: &mut Level,
        level_lines: &mut Lines,
    ) -> (r: Option<String>)
        requires
            old(mouse_playback).wf(),
            old(level_lines).wf(),
            old(level).wf(),
        ensures
            final(mouse_playback).wf(),
            final(level_lines).wf(),
            final(level).wf(),
            final(mouse_playback).recording,
            final(self).active == old(self).active,
            final(level).setup == old(level).setup,
            final(level).line_color == old(level).line_color,
            final(level).user_line_color == old(level).user_line_color,
            !(event is Draw) ==> final(level).start_position == old(level).start_position,
            !rebuilds(event) ==> final(level).complete == old(level).complete
                && final(level).collected == old(level).collected,
            !rebuilds(event) && !(event is PlaceCollectible) ==> final(level).collectibles@
                == old(level).collectibles@,
            !draws(event) ==> final(level_lines)@ == old(level_lines)@
                && final(level_lines).needs_update == old(level_lines).needs_update,
            event is LeftUp ==> final(level_lines).needs_update == old(
                level_lines,
            ).needs_update,
            match event {
                EditorEvent::PointerMoved(p) => {
                    &&& final(self).mouse_position == p
                    &&& final(self).left_mouse_down == old(self).left_mouse_down
                    &&& final(self).dragging_start == old(self).dragging_start
                    &&& final(level).collectibles@ == old(level).collectibles@
                    &&& final(level).start_position == old(level).start_position
                    &&& if old(self).left_mouse_down && !old(self).dragging_start {
                        &&& final(mouse_playback).state@ == old(mouse_playback).state@.push(
                            (MouseState {
                                position: p,
                                frame: old(mouse_playback).current_frame_recording,
                                kind: MouseAction::PenMove,
                            }),
                        )
                        &&& final(level_lines)@ == old(level_lines)@.stroke_to(p)
                        &&& final(level_lines).needs_update
                    } else {
                        &&& final(mouse_playback).state@ == old(mouse_playback).state@
                        &&& final(level_lines)@ == old(level_lines)@
                        &&& final(level_lines).needs_update == old(level_lines).needs_update
                    }
                    &&& r is None
                },
                EditorEvent::LeftDown => {
                    &&& final(self).left_mouse_down
                    &&& final(mouse_playback).state@ == old(mouse_playback).state@
                    &&& final(level_lines)@ == old(level_lines)@
                    &&& r is None
                },
                EditorEvent::LeftUp => {
                    &&& !final(self).left_mouse_down
                    &&& final(mouse_playback).state@ == old(mouse_playback).state@.push(
                        (MouseState {
                            position: Vector2i { x: 0, y: 0 },
                            frame: old(mouse_playback).current_frame_recording,
                            kind: MouseAction::PenUp,
                        }),
                    )
                    &&& final(level_lines)@ == old(level_lines)@.lifted()
                    &&& r is None
                },
                EditorEvent::RightDown => final(self).right_mouse_down && r is None,
                EditorEvent::RightUp => !final(self).right_mouse_down && r is None,
                EditorEvent::Rewind => {
                    &&& final(mouse_playback).state@ == undone(old(mouse_playback).state@, 1)
                    &&& final(mouse_playback).current_state == final(mouse_playback).state@.len()
                    &&& final(mouse_playback).complete
                    &&& !final(mouse_playback).playing
                    &&& (final(level_lines)@, final(level).collectibles@) == replayed(
                        final(mouse_playback).state@,
                    )
                    &&& r is None
                },
                EditorEvent::RewindRepeat => {
                    &&& final(mouse_playback).state@ == undone(old(mouse_playback).state@, 4)
                    &&& final(mouse_playback).current_state == final(mouse_playback).state@.len()
                    &&& final(mouse_playback).complete
                    &&& !final(mouse_playback).playing
                    &&& (final(level_lines)@, final(level).collectibles@) == replayed(
                        final(mouse_playback).state@,
                    )
                    &&& r is None
                },
                EditorEvent::ClearAll => {
                    &&& final(mouse_playback).state@ == Seq::<MouseState>::empty()
                    &&& final(mouse_playback).current_state == 0
                    &&& final(mouse_playback).current_frame == 0
                    &&& final(level_lines)@.points == Seq::<Vector2i>::empty()
                    &&& final(level_lines)@.last is None
                    &&& final(level).collectibles@ == Seq::<Collectible>::empty()
                    &&& r is None
                },
                EditorEvent::PlaceCollectible => {
                    &&& final(mouse_playback).state@ == old(mouse_playback).state@.push(
                        (MouseState {
                            position: old(self).mouse_position,
                            frame: old(mouse_playback).current_frame_recording,
                            kind: MouseAction::PlaceCollectible,
                        }),
                    )
                    &&& final(level).collectibles@ == old(level).collectibles@.push(
                        (Collectible {
                            position: old(self).mouse_position,
                            radius: COLLECTIBLE_RADIUS,
                            color: Color { r: 255, g: 255, b: 255, a: 255 },
                            alpha: ALPHA_FULL,
                            collected: false,
                        }),
                    )
                    &&& r is None
                },
                EditorEvent::Save => {
                    &&& r matches Some(text)
                    &&& r->Some_0@ == ascii_chars(
                        level_text(old(level).start_position, old(mouse_playback).state@),
                    )
                    &&& final(mouse_playback).state@ == old(mouse_playback).state@
                },
                EditorEvent::Draw => {
                    let drag = old(self).dragging_start || (old(self).left_mouse_down
                        && closer_than(
                        old(self).mouse_position.x as int,
                        old(self).mouse_position.y as int,
                        old(level).start_position,
                        START_GRAB_RADIUS as int,
                    ));
                    &&& final(level).start_position == if drag {
                        old(self).mouse_position
                    } else {
                        old(level).start_position
                    }
                    &&& final(self).dragging_start == (drag && old(self).left_mouse_down)
                    &&& final(mouse_playback).state@ == old(mouse_playback).state@
                    &&& r is None
                },
                EditorEvent::Other => {
                    &&& final(mouse_playback).state@ == old(mouse_playback).state@
                    &&& final(level_lines)@ == old(level_lines)@
                    &&& r is None
                },
            },
    {
        mouse_playback.recording = true;
        match event {
            EditorEvent::PointerMoved(p) => {
                if self.left_mouse_down && !self.dragging_start {
                    mouse_playback.record_mouse(p);
                    level_lines.add_segment(p);
                }
                self.mouse_position = p;
                None
            },
            EditorEvent::RightDown => {
                self.right_mouse_down = true;
                None
            },
            EditorEvent::RightUp => {
                self.right_mouse_down = false;
                None
            },
            EditorEvent::LeftDown => {
                self.left_mouse_down = true;
                None
            },
            EditorEvent::LeftUp => {
                self.left_mouse_down = false;
                level_lines.end_segment();
                mouse_playback.record_mouse_up();
                None
            },
            EditorEvent::Rewind => {
                self.rewind(1, mouse_playback, level, level_lines);
                None
            },
            EditorEvent::RewindRepeat => {
                self.rewind(4, mouse_playback, level, level_lines);
                None
            },
            EditorEvent::ClearAll => {
                mouse_playback.clear();
                level.clear();
                level_lines.clear();
                None
            },
            EditorEvent::PlaceCollectible => {
                let pos = self.mouse_position;
                mouse_playback.record_collectible(pos);
                level.collectibles.push(Collectible::new(pos, ALPHA_FULL));
                proof {
                    let cs = level.collectibles@;
                    assert(cs.drop_last() == old(level).collectibles@);
                }
                None
            },
            EditorEvent::Save => Some(save(mouse_playback, level)),
            EditorEvent::Draw => {
                if self.left_mouse_down {
                    let m = self.mouse_position;
                    let s = level.start_position;
                    let dx = m.x as i128 - s.x as i128;
                    let dy = m.y as i128 - s.y as i128;
                    proof {
                        crate::geometry::lemma_mul_bound(
                            dx as int,
                            dx as int,
                            0x1_0000_0000,
                            0x1_0000_0000,
                        );
                        crate::geometry::lemma_mul_bound(
                            dy as int,
                            dy as int,
                            0x1_0000_0000,
                            0x1_0000_0000,
                        );
                    }
                    let grab = START_GRAB_RADIUS as i128;
                    if dx * dx + dy * dy < grab * grab {
                        self.dragging_start = true;
                    }
                }
                if self.dragging_start {
                    level.start_position = self.mouse_position;
                }
                if !self.left_mouse_down {
                    self.dragging_start = false;
                }
                None
            },
            EditorEvent::Other => None,
        }
    }
}

} // verus!