//! Deterministic core of a line-drawing ball game: fixed-point geometry, a
//! stroke buffer, a frame-indexed replay of recorded pen actions, the level
//! text format, ball physics against line segments, the level editor, and a
//! game session that advances all of them one frame at a time.
//!
//! All world coordinates are fixed-point integers (see `geometry::SCALE`), so
//! a level replays bit-for-bit the same on every machine.

pub mod geometry;
pub mod lines;
pub mod level;
pub mod playback;
pub mod ball;
pub mod level_file;
pub mod editor;
pub mod mesh;
pub mod game;
