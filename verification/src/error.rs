use vstd::prelude::*;
use vstd::string::*;

verus! {

/// The failures that the library reports. Each carries a human readable detail.
#[derive(Debug)]
pub enum SnipError {
    /// A document could not be analyzed.
    Analysis(String),
    /// Any other failure: a malformed header or index row, a write that did
    /// not touch exactly one row.
    General(String),
    /// A partial identifier matched more than one item.
    UuidMultipleMatches(String),
    /// A search or a term lookup found nothing.
    SearchNoMatches(String),
    /// The requested item is absent.
    UuidNotFound(String),
}

impl SnipError {
    /// The detail carried by the error, whatever its variant.
    pub open spec fn detail(&self) -> Seq<char> {
        match self {
            SnipError::Analysis(s) => s@,
            SnipError::General(s) => s@,
            SnipError::UuidMultipleMatches(s) => s@,
            SnipError::SearchNoMatches(s) => s@,
            SnipError::UuidNotFound(s) => s@,
        }
    }

    /// The text shown to a user for this error.
    pub open spec fn message_text(&self) -> Seq<char> {
        match self {
            SnipError::Analysis(s) => "Analysis encountered an error: "@ + s@,
            SnipError::General(s) => s@,
            SnipError::UuidMultipleMatches(s) => s@,
            SnipError::SearchNoMatches(s) => s@,
            SnipError::UuidNotFound(s) => "uuid "@ + s@ + " was not found"@,
        }
    }

    /// Renders the error for display.
    pub fn message(&self) -> (out: String)
        ensures
            out@ == self.message_text(),
    {
        match self {
            SnipError::Analysis(s) => "Analysis encountered an error: ".to_owned().concat(
                s.as_str(),
            ),
            SnipError::General(s) => s.clone(),
            SnipError::UuidMultipleMatches(s) => s.clone(),
            SnipError::SearchNoMatches(s) => s.clone(),
            SnipError::UuidNotFound(s) => "uuid ".to_owned().concat(s.as_str()).concat(
                " was not found",
            ),
        }
    }
}

} // verus!
