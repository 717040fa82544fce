//! Core error type.

use vstd::prelude::*;

verus! {

#[verifier::external_type_specification]
#[verifier::external_body]
pub struct ExJsonError(serde_json::Error);

/// Errors produced by the trace model and analysis.
#[derive(Debug)]
pub enum CoreError {
    /// The trace text could not be read or written as JSON.
    Json(serde_json::Error),
    /// The trace breaks a structural rule; the text says which and where.
    Validation(String),
}

/// The text of a JSON error, through `serde_json::Error`'s `Display`. Nothing
/// is stated of it: it is whatever serde_json writes for that error.
#[verifier::external_body]
fn json_error_text(e: &serde_json::Error) -> String {
    e.to_string()
}

impl CoreError {
    /// The error's message: what went wrong, after a prefix that says which
    /// kind of error it is.
    pub fn message(&self) -> (r: String)
        ensures
            self matches CoreError::Validation(msg) ==> r@ == "invalid trace: "@ + msg@,
            self matches CoreError::Json(_) ==> r@.len() >= "trace serialization error: "@.len()
                && r@.take("trace serialization error: "@.len() as int) == "trace serialization error: "@,
    {
        match self {
            CoreError::Json(e) => {
                let mut r = "trace serialization error: ".to_owned();
                r.append(json_error_text(e).as_str());
                r
            },
            CoreError::Validation(msg) => {
                let mut r = "invalid trace: ".to_owned();
                r.append(msg.as_str());
                r
            },
        }
    }
}

} // verus!
