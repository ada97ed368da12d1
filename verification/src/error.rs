//! Error taxonomy of the sync pipeline, for the conditions the library's own
//! logic can detect.  Transport and decoding failures of the surrounding
//! program are not represented here.

use vstd::prelude::*;

verus! {

/// Why a library operation could not produce a result.
#[derive(Debug)]
pub enum Error {
    /// No complete aligned set of runs exists yet.
    NotFound,
    /// A search response's run list is missing a required roster browser.
    IncompleteResponse,
    /// A commit message did not contain the expected revision reference.
    BadCommitMessage,
    /// A score column named by a report was absent from a row.
    MissingColumn,
    /// A score value was not a decimal number.
    BadScore,
}

impl Error {
    /// A short stable token naming the error, for diagnostics.
    pub fn as_str(&self) -> (r: &'static str)
        ensures
            r@ == match self {
                Error::NotFound => "no complete aligned run set found"@,
                Error::IncompleteResponse => "search response is missing a roster browser"@,
                Error::BadCommitMessage => "commit message has no revision reference"@,
                Error::MissingColumn => "score column not found"@,
                Error::BadScore => "score value is not a decimal number"@,
            },
    {
        match self {
            Error::NotFound => "no complete aligned run set found",
            Error::IncompleteResponse => "search response is missing a roster browser",
            Error::BadCommitMessage => "commit message has no revision reference",
            Error::MissingColumn => "score column not found",
            Error::BadScore => "score value is not a decimal number",
        }
    }
}

} // verus!
