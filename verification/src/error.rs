//! The ways in which building or using a shaping code can fail.

use vstd::prelude::*;

verus! {

/// Why a trellis or a code could not be built, or a call not be served.
#[derive(Debug, Clone, Copy, PartialEq, Eq, Structural)]
pub enum ShapingError {
    /// The weight list has no symbol of weight 0, or the table asked for is
    /// beyond what the machine's integers can index.
    InvalidConfiguration,
    /// Every weight level of the trellis is already in use.
    TrellisFull,
    /// The weight list and the number of stages do not allow as many
    /// sequences as were asked for.
    TooManySequences,
    /// An index at or beyond the number of sequences of the code, or below 0.
    IndexOutOfRange,
    /// The part of the reverse trellis that was built holds fewer sequences
    /// than the search for a threshold needs.
    SearchExhausted,
    /// A sequence of amplitudes that is none of the code: of another length,
    /// with an amplitude that the code does not have, or of a weight beyond
    /// the threshold.
    InvalidSequence,
}

impl ShapingError {
    /// A sentence that describes the failure.
    pub fn message(&self) -> (text: &'static str)
        ensures
            text@ == match *self {
                ShapingError::InvalidConfiguration => "The smallest weight must be 0 and the trellis must fit the machine"@,
                ShapingError::TrellisFull => "Impossible to add another weight level, trellis to small"@,
                ShapingError::TooManySequences => "`num_sequences` is to large"@,
                ShapingError::IndexOutOfRange => "Index out of range!"@,
                ShapingError::SearchExhausted => "The calculated fraction of the reverse trellis is to small!"@,
                ShapingError::InvalidSequence => "The amplitude sequence is no sequence of the code"@,
            },
    {
        match self {
            ShapingError::InvalidConfiguration => "The smallest weight must be 0 and the trellis must fit the machine",
            ShapingError::TrellisFull => "Impossible to add another weight level, trellis to small",
            ShapingError::TooManySequences => "`num_sequences` is to large",
            ShapingError::IndexOutOfRange => "Index out of range!",
            ShapingError::SearchExhausted => "The calculated fraction of the reverse trellis is to small!",
            ShapingError::InvalidSequence => "The amplitude sequence is no sequence of the code",
        }
    }
}

} // verus!
