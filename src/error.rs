//! Errors raised by the looping modifiers.

use vstd::prelude::*;

verus! {

/// What went wrong. Every error ends the operation that raised it.
#[derive(Debug, Clone, Copy, PartialEq, Eq)]
pub enum Error {
    /// A value was needed and the stack was empty.
    StackEmpty,
    /// A function was expected on the stack.
    ExpectedFunction,
    /// The modifier cannot run a function that takes this many arguments.
    BadArity(usize),
    /// The function returns a number of values the modifier cannot take.
    BadOutputs(usize),
    /// A reduction had no rows and no initial value.
    EmptyReduce,
    /// Scanning needs an array of rank at least 1.
    ScanRankZero,
    /// Arrays handed to one call have incompatible shapes.
    ShapeMismatch,
    /// Arrays handed to `rows` have different row counts.
    RowCountMismatch,
    /// Results could not be combined into one array.
    CombineMismatch,
    /// The function signalled `break` where the modifier does not allow it.
    BreakNotAllowed,
    /// A repetition count was not a single integer or infinity.
    BadRepetitions,
    /// A rank list was not a list of integers or infinity.
    BadRankList,
    /// Partition markers or group indices were not a list of integers.
    BadIndices,
    /// Markers or indices do not match the number of rows.
    LengthMismatch,
    /// Grouping produced no groups to reduce.
    EmptyGroups,
    /// An operation was applied to values of a type it does not take.
    TypeMismatch,
    /// An arithmetic result has no value among the numbers: it leaves the
    /// range of `i64`, or a division is by zero or not exact.
    Unrepresentable,
    /// The function has no inverse.
    CannotInvert,
}

} // verus!
