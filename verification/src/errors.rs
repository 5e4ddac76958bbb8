//! The errors of the SLA service.
use vstd::prelude::*;
use vstd::string::StringExecFns;

verus! {

#[derive(Debug)]
pub enum SlaError {
    DatabaseError(String),
    ValidationError(String),
    NotFound(String),
    InternalError(String),
}

impl SlaError {
    /// The error's text: its kind, then its detail.
    pub open spec fn text(&self) -> Seq<char> {
        match self {
            SlaError::DatabaseError(s) => "Database error: "@ + s@,
            SlaError::ValidationError(s) => "Validation error: "@ + s@,
            SlaError::NotFound(s) => "Not found: "@ + s@,
            SlaError::InternalError(s) => "Internal error: "@ + s@,
        }
    }

    /// Renders the error for people (what `Display` shows).
    pub fn to_string(&self) -> (r: String)
        ensures
            r@ == self.text(),
    {
        let (mut out, detail) = match self {
            SlaError::DatabaseError(s) => (String::from_str("Database error: "), s),
            SlaError::ValidationError(s) => (String::from_str("Validation error: "), s),
            SlaError::NotFound(s) => (String::from_str("Not found: "), s),
            SlaError::InternalError(s) => (String::from_str("Internal error: "), s),
        };
        out.append(detail.as_str());
        out
    }
}

/// A refused HTTP request: its status code and the `error` text of its body.
pub struct ApiError {
    pub status: u16,
    pub message: String,
}

} // verus!
