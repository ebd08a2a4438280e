//! The failures that end an ingestion run or a valuation.

use vstd::prelude::*;

verus! {

/// Why an ingestion run stopped. Every failure is fatal to the run; what the
/// run stored before it stays stored.
#[derive(Clone, Copy, Debug, PartialEq, Eq, Structural)]
pub enum IngestError {
    /// The source identifier holds no date.
    DateExtractionFailure,
    /// The tabular structure of the windowed text is malformed, or a record
    /// lacks a configured column.
    RowParseFailure,
    /// A value field, once stripped, is not a decimal number.
    NumericParseFailure,
    /// A read or a write against the store failed.
    StoreFailure,
}

/// Why the latest snapshot could not be valued.
#[derive(Clone, Copy, Debug, PartialEq, Eq, Structural)]
pub enum ValuationError {
    /// No entry is stored at all.
    EmptySnapshot,
    /// The values of the latest snapshot add up to zero, so no share of the
    /// total exists.
    ZeroTotal,
    /// The values of the latest snapshot are too large to be added up.
    Overflow,
}

} // verus!
