//! Chords as ascending sequences of semitone pitches, and the search for the
//! pairing of two chords that moves their voices the least.
//!
//! `pitch` holds the pitch, its class and its spelling; `pitchparser` the
//! grammar of note names. `chord` holds the chord with its inversions and
//! expansions, `seams` and `selections` what an expansion is and which
//! expansions there are, `diff` the movement between two chords, and
//! `pairing` the searches for the closest pairing. `order` and `text` hold
//! what these need of sorted sequences and of numbers as text.

pub mod chord;
pub mod diff;
pub mod order;
pub mod pairing;
pub mod pitch;
pub mod pitchparser;
pub mod seams;
pub mod selections;
pub mod text;
pub mod util;
