//! Chord identification from the dominant peaks of a magnitude spectrum.
//!
//! The library works on integers throughout: magnitudes are fixed-point
//! levels, frequencies are counted in thousandths of a hertz, and pitches
//! are whole semitone steps. Every function is verified against a
//! mathematical model of what it computes.
//!
//! - `recording`: where a recording is looked up and how its samples are
//!   stored.
//! - `peaks`: from the magnitudes of a transform to the strongest peak
//!   frequencies.
//! - `chord`: from candidate frequencies and their intervals to a chord
//!   shape and its text.
//! - `note`: note labels.

pub mod chord;
pub mod note;
pub mod peaks;
pub mod recording;
