//! The error taxonomy of the pipeline.

use vstd::prelude::*;

verus! {

/// Every failure the pipeline can report.
///
/// Per-cell "no qualifying source" outcomes are not errors: they are
/// carried by the selection result itself. `InvalidRecord` names a
/// malformed catalog record; callers filter such records out rather than
/// propagate this variant.
#[derive(Debug)]
pub enum StitchError {
    /// The requested bounding box is empty or outside the world range.
    InvalidBounds,
    /// No cluster node owns the given geocode.
    NodeNotFound(Vec<u8>),
    /// The directory service could not be reached.
    Unreachable,
    /// The catalog service failed while listing records.
    CatalogUnavailable,
    /// A catalog record's file list does not match its platform signature.
    InvalidRecord,
    /// The transfer endpoint reported a failure with the given message.
    RemoteError(Vec<u8>),
    /// A transfer response was malformed or truncated.
    ProtocolViolation,
    /// Nothing was collected, so there is nothing to assemble.
    NoDatasets,
}

impl StitchError {
    /// A short stable name for the variant, for reporting outside the
    /// library.
    pub fn describe(&self) -> (r: &'static str)
        ensures
            r@ == self.describe_spec(),
    {
        match self {
            StitchError::InvalidBounds => "invalid bounds",
            StitchError::NodeNotFound(_) => "node not found",
            StitchError::Unreachable => "directory unreachable",
            StitchError::CatalogUnavailable => "catalog unavailable",
            StitchError::InvalidRecord => "invalid record",
            StitchError::RemoteError(_) => "remote error",
            StitchError::ProtocolViolation => "protocol violation",
            StitchError::NoDatasets => "no datasets",
        }
    }

    /// What `describe` returns for each variant.
    pub open spec fn describe_spec(&self) -> Seq<char> {
        match self {
            StitchError::InvalidBounds => "invalid bounds"@,
            StitchError::NodeNotFound(_) => "node not found"@,
            StitchError::Unreachable => "directory unreachable"@,
            StitchError::CatalogUnavailable => "catalog unavailable"@,
            StitchError::InvalidRecord => "invalid record"@,
            StitchError::RemoteError(_) => "remote error"@,
            StitchError::ProtocolViolation => "protocol violation"@,
            StitchError::NoDatasets => "no datasets"@,
        }
    }
}

} // verus!
