use vstd::prelude::*;

verus! {

/// The ways an operation on a DTF file can fail.
#[derive(Clone, Copy, Debug, PartialEq, Eq, Structural)]
pub enum DtfError {
    /// The bytes break the file format.
    CorruptFormat,
    /// The resource is missing or is not a DTF file at all.
    NotFound,
    /// Two files that were to be merged name different symbols.
    SymbolMismatch,
    /// Cleaning a record stream left a defect that cleaning should have removed.
    Unrepairable,
    /// A record was asked of a stream that holds none.
    EmptyInput,
}

} // verus!
