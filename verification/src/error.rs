use vstd::prelude::*;

verus! {

/// Failure taxonomy of the spectrum pipeline.
///
/// Every stage fails fast: the first error aborts the whole construction
/// and no partial spectrum is ever produced.
#[derive(Clone, Copy, Debug, PartialEq, Eq, Structural)]
pub enum Error {
    /// A record line does not hold exactly three numeric fields.
    /// `line` is the index of the offending line, `field` the index of the
    /// first field that is missing, surplus or not numeric.
    MalformedRecord { line: usize, field: usize },
    /// A raw sample carries a zero incident intensity, so the absorption
    /// ratio is undefined.
    DivisionByZero,
    /// A stage that needs at least one sample received none.
    EmptyInput,
    /// A stage that needs at least two samples received exactly one.
    InsufficientData,
    /// The interpolation basis is degenerate: fewer than two samples, or
    /// sample energies that are not strictly increasing.
    InterpolationFailure,
    /// Reserved for curve values on which no total order exists. The
    /// fixed-point representation used here is totally ordered, so the
    /// pipeline itself never produces this value.
    InvalidValue,
    /// A simulation mode name other than the known ones.
    InvalidMode,
}

} // verus!
