//! Bidirectional semantic translation between Standard MIDI File event
//! streams and MTXT, a beat-timed textual representation of musical events.
//!
//! The library works on plain data: a parsed SMF is a list of tracks, each a
//! list of `(delta_ticks, event)` pairs ([`smf`]), and an MTXT file is a list
//! of typed records ([`records`]). Beat positions are exact fixed-point
//! values in nanobeats ([`beat_time`]), and fractional quantities such as
//! velocities and tempos are exact rationals ([`ratio`]), so every
//! translation step is deterministic and verified.
//!
//! The forward translation ([`forward`]) merges tracks, pairs notes, and
//! maps ticks to beats; the reverse translation ([`reverse`]) linearizes
//! microsecond-timed output records to one delta-timed track. Beat
//! expressions, the small arithmetic notation for beat offsets, live in
//! [`beat_expression`]; the shared name tables in [`names`]; string escaping
//! in [`escape`].

use vstd::prelude::*;

pub mod beat_expression;
pub mod beat_fraction;
pub mod beat_time;
pub mod errors;
pub mod escape;
pub mod forward;
pub mod names;
pub mod notes;
pub mod ratio;
pub mod records;
pub mod reverse;
pub mod smf;
pub mod text;

verus! {

/// The number of nanobeats in one beat (one quarter note).
pub const NANOS_PER_BEAT: u64 = 1_000_000_000;

} // verus!
