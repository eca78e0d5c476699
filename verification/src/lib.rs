//! Live sound synthesis control: Euclidean rhythm tables, the playback clock
//! and the hand-over of sound functions to the audio renderer.

pub mod lang;
pub mod math;
pub mod sound;
