use vstd::prelude::*;

verus! {

/// The failure conditions of the pipeline.
///
/// Every failure is fatal to the run that raised it: there is no retry or
/// partial-success path anywhere in the pipeline.
#[derive(Clone, Copy, PartialEq, Eq, Structural, Debug)]
pub enum Error {
    /// The input text was empty (no records at all).
    EmptyInput,
    /// A coordinate record had no comma separator.
    MalformedRecord,
    /// A coordinate substring was not a valid decimal number.
    InvalidNumber,
    /// A scene cannot be derived from zero points (the maximum is undefined).
    EmptyPointSet,
    /// The canvas could not be created (zero-sized dimensions).
    RenderSetupError,
    /// The finished canvas could not be flushed to its output file.
    RenderFinalizeError,
}

} // verus!
