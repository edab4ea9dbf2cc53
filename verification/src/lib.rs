//! CTC beam-search decoding.
//!
//! The functions in this crate implement the last step of labelling the
//! output of a recurrent network trained with Connectionist Temporal
//! Classification: turning a time-by-label probability matrix into the most
//! likely collapsed label sequence.
//!
//! Probabilities are carried as fixed-point numbers (see [`prob`]), so that
//! every arithmetic step and every comparison made during a decode is exact
//! and machine-checked.

use vstd::prelude::*;

pub mod duplex;
pub mod prelude;
pub mod prob;
pub mod search;
pub mod tree;
pub mod vec2d;

verus! {


/// A failure reason surfaced by the decoders.
#[derive(Clone, Copy, Debug, PartialEq, Eq, Structural)]
pub enum SearchError {
    /// Every candidate at some timestep fell below the cut threshold.
    RanOutOfBeam,
    /// A value that does not compare (the fixed-point stand-in for NaN)
    /// appeared in a network output.
    IncomparableValues,
    /// The alignment envelope violates its monotonicity or bounds rules.
    InvalidEnvelope,
    /// The alphabet is too short, or its length does not match the inner
    /// axis of a network output.
    InvalidAlphabet,
    /// The beam size is zero.
    InvalidBeamSize,
    /// The beam cut threshold is not strictly below one over the
    /// alphabet length.
    InvalidThreshold,
}

impl SearchError {
    /// A short human-readable description of the failure, fixed per kind.
    pub fn message(&self) -> (r: &'static str)
        ensures
            *self == SearchError::RanOutOfBeam ==> r@ == "ran out of search space (beam_cut_threshold too high)"@,
            *self == SearchError::IncomparableValues ==> r@ == "failed to compare values (NaNs in input?)"@,
            *self == SearchError::InvalidEnvelope ==> r@ == "invalid envelope values"@,
            *self == SearchError::InvalidAlphabet ==> r@ == "alphabet must have at least two symbols and match the network output width"@,
            *self == SearchError::InvalidBeamSize ==> r@ == "beam_size must be at least 1"@,
            *self == SearchError::InvalidThreshold ==> r@ == "beam_cut_threshold must be below 1/len(alphabet)"@,
    {
        match self {
            SearchError::RanOutOfBeam => "ran out of search space (beam_cut_threshold too high)",
            SearchError::IncomparableValues => "failed to compare values (NaNs in input?)",
            SearchError::InvalidEnvelope => "invalid envelope values",
            SearchError::InvalidAlphabet => "alphabet must have at least two symbols and match the network output width",
            SearchError::InvalidBeamSize => "beam_size must be at least 1",
            SearchError::InvalidThreshold => "beam_cut_threshold must be below 1/len(alphabet)",
        }
    }
}

} // verus!
