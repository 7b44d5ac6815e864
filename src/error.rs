//! Errors of the engine's stages.

use vstd::prelude::*;

verus! {

/// The ways a stage of the engine fails. Each carries what names the cause.
#[derive(Debug)]
pub enum BenError<L> {
    /// An insert was given no labels.
    MissingLabels,
    /// A group's labels selected no result; holds those labels.
    EmptyGroup(Vec<L>),
    /// A result of the named group lacks a label of the transpose kind.
    MissingTransposeLabel(Vec<L>),
    /// A result holds a number of values other than the one expected.
    WrongRowCount { expected: usize, actual: usize },
    /// Fewer than two data series were given to compare.
    InsufficientSeries,
    /// The transpose label's kind carries no integer payload.
    UnknownLabelKind(L),
    /// The query asks for a stage without the stage it needs.
    InvalidQuery,
}

} // verus!
