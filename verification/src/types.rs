//! The values that the search works on and the reasons for which it fails.

use vstd::prelude::*;

verus! {

/// A line's zero-based position together with the integer that the line holds.
pub type Pair = (usize, i32);

/// A candidate: the pair of the outer scan, then the pair of the inner scan.
pub type PairOfPairs = (Pair, Pair);

/// Why a search gave no pair of lines.
#[derive(Clone, Copy, Debug, PartialEq, Eq, Structural)]
pub enum FailureReason {
    /// The required difference is negative.
    InvalidArgument,
    /// The text could not be opened or read.
    SourceUnavailable,
    /// No line of the text holds an integer.
    NoParsableInput,
    /// Some line holds an integer, but no two lines differ by the required amount.
    NoSatisfyingPair,
}

impl FailureReason {
    /// The sentence that reports this failure.
    pub open spec fn message_spec(self) -> Seq<char> {
        match self {
            FailureReason::InvalidArgument => "Passed argument for 'A' is below zero!"@,
            FailureReason::SourceUnavailable => "Couldn't open the file for reading!"@,
            FailureReason::NoParsableInput => "No integer values loaded from file!"@,
            FailureReason::NoSatisfyingPair => "No pair satisfies the equation: J = I + A"@,
        }
    }

    /// The sentence that reports this failure.
    pub fn message(&self) -> (text: &'static str)
        ensures
            text@ == self.message_spec(),
    {
        match self {
            FailureReason::InvalidArgument => "Passed argument for 'A' is below zero!",
            FailureReason::SourceUnavailable => "Couldn't open the file for reading!",
            FailureReason::NoParsableInput => "No integer values loaded from file!",
            FailureReason::NoSatisfyingPair => "No pair satisfies the equation: J = I + A",
        }
    }
}

} // verus!
