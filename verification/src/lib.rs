//! A terminal rhythm-game playback engine.
//!
//! A chart is an ordered list of timed targets; during play an external
//! clock advances and the engine judges player input against each target,
//! marks expired targets as missed, and computes what should be drawn at
//! each instant.  All timing and geometry is carried out over integers:
//! difficulty scalars are held in tenths, radii and playfield scale
//! factors in thousandths of a playfield unit.

pub mod beat_map;
pub mod control;
pub mod draw;
pub mod load;
pub mod parse;
