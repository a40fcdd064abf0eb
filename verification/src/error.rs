//! Why an instance cannot be encoded.

use vstd::prelude::*;

verus! {

/// The reason for which a constraint of an instance was refused.
#[derive(Clone, Copy, PartialEq, Eq, Structural, Debug)]
pub enum EncodeError {
    /// A constraint names a team or a slot that the league does not have,
    /// or a game of a team against itself.
    UnknownVariable,
    /// A constraint has a form for which there is no encoding.
    Unsupported,
    /// A constraint asks for more terms to hold than it counts.
    MinAboveCount,
    /// No constraint limits the breaks of the whole season.
    NoSeasonBreakLimit,
}

} // verus!
