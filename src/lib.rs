//! Converts a MIDI note performance into a rhythm-game chart: timed note
//! events are paired into chart notes, which are then bucketed into
//! fixed-length sections with a camera-focus flag each.
use vstd::prelude::*;

pub mod util;
pub mod chart;
pub mod convert;
pub mod extract;
pub mod midi;
