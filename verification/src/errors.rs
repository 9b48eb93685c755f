//! Error taxonomy of the ingestion pipeline.
//!
//! A `ClassificationError` or `ParseError` aborts ingestion of the one
//! file it arose in; sibling files in a batch are unaffected. Absence
//! of an activity keyword is not an error: it classifies the file as
//! `Unknown`, which the caller skips.

use vstd::prelude::*;

verus! {

/// Failure to derive a reference timestamp from a file path.
#[derive(Clone, Copy, Debug, PartialEq, Eq, Structural)]
pub enum ClassificationError {
    /// The path holds no token of the shape `YYYY-MM-DD-HHMMSS`.
    NoToken,
    /// A token was found but does not name a valid calendar date-time.
    InvalidDate,
}

/// Failure to parse a file's XML content into sample records.
#[derive(Clone, Copy, Debug, PartialEq, Eq, Structural)]
pub enum ParseError {
    /// The XML structure itself is malformed.
    MalformedXml,
    /// A field's text does not parse as its expected numeric type.
    BadNumber,
    /// A sample's time text does not parse as a timestamp.
    BadTimestamp,
}

/// Failure of one file's whole ingestion.
#[derive(Clone, Copy, Debug, PartialEq, Eq, Structural)]
pub enum IngestError {
    /// The file path yields no valid reference timestamp.
    Classification(ClassificationError),
    /// The file content does not parse into sample records.
    Parse(ParseError),
}

} // verus!
