//! User-reportable failures of the engine.

use vstd::prelude::*;
use crate::http::ParseError;
use crate::template::SubstitutionError;

verus! {

/// A failure that can be described to the user in one line.
pub trait Error {
    /// A human-readable description of the failure.
    fn message(&self) -> String;
}

impl Error for SubstitutionError {
    fn message(&self) -> String {
        match self {
            SubstitutionError::MissingValue(name) => String::from_str(
                "Unable to render request from template. Missing value for placeholder ",
            ).concat(name.as_str()),
        }
    }
}

impl Error for ParseError {
    fn message(&self) -> String {
        match self {
            ParseError::MalformedStatusLine => String::from_str(
                "Malformed status line: expected a verb and a url",
            ),
            ParseError::MalformedHeader => String::from_str(
                "Malformed header: expected a name, a colon and a value",
            ),
        }
    }
}

} // verus!
