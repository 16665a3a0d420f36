//! Error kinds reported by the translation core.

use vstd::prelude::*;

verus! {

/// Everything that can go wrong inside the translation core.
///
/// Each variant names one rejected condition; the functions that return a
/// `Result` say in their contracts exactly which inputs produce which
/// variant.
#[derive(Debug, Clone, Copy, PartialEq, Eq, Structural)]
pub enum MtxtError {
    /// A beat expression was empty after trimming.
    EmptyExpression,
    /// A beat expression contained a space.
    SpaceDisallowed,
    /// A `*` stood at the start or end of a beat expression.
    BadMultiplyPosition,
    /// An operand of `*` was not an explicit fraction.
    BadMultiplyOperand,
    /// A beat expression evaluated to a negative result.
    NegativeResult,
    /// A fraction literal was not of the form `N/D` with `D > 0`.
    BadFraction,
    /// A decimal beat literal could not be parsed.
    BadNumber,
    /// A malformed input value: a bad escape in a text-bearing field, or a
    /// beat expression whose items do not alternate value and operator.
    InputParse,
    /// A channel outside `0..=15` reached the SMF emitter.
    ChannelOutOfRange,
    /// A program number outside `0..=127` reached the SMF emitter.
    ProgramOutOfRange,
    /// A MIDI key outside `0..=127`.
    NoteOutOfRange,
    /// A controller name that maps to no MIDI controller.
    UnknownController,
    /// An output record timed earlier than its predecessor.
    NonMonotonicTime,
}

} // verus!
