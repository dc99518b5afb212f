//! The two ways a run can fail: on its inputs as a whole, or on one query.

use vstd::prelude::*;

verus! {

/// A fault in the inputs as a whole. Nothing can be aggregated from such inputs.
#[derive(Clone, Copy, Debug, PartialEq, Eq, Structural)]
pub enum InputError {
    /// The table of target offsets is empty.
    NoTargets,
    /// The first target offset is negative.
    NegativeOffset,
    /// The target offsets are not strictly increasing.
    UnorderedTargets,
    /// The score matrix and the index matrix differ in shape.
    ShapeMismatch,
}

/// A fault that spoils one query and leaves the others untouched.
#[derive(Clone, Copy, Debug, PartialEq, Eq, Structural)]
pub enum QueryError {
    /// The query's rows, as the offsets give them, do not lie inside the matrices.
    RowRange,
    /// A raw index of the query lies below the first target's start.
    NoBucket,
    /// Two hits of one row on one target cannot be ordered: one of the scores is
    /// not a number.
    UnorderedScores,
}

} // verus!
