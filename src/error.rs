//! The errors a run can end with.

use vstd::prelude::*;

verus! {

/// Why a run, or one unit of its work, failed.
pub enum VisiogenError {
    GffParseError(String),
    GfaParseError(String),
    IndexBuildError(String),
    IndexQueryError(String),
    MissingArgument(String),
    GeneProcessingError(String),
    IoError(String),
    NoUniqueKmers { gene: String, start: u64, end: u64 },
    Other(String),
}

} // verus!
