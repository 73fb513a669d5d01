//! Types of `std` and of outside crates that the model carries through
//! without looking inside.
use vstd::prelude::*;

verus! {

/// `std::io::Error`, carried by error values.
#[verifier::external_type_specification]
#[verifier::external_body]
pub struct ExIoError(std::io::Error);

/// `serde_json::Error`, carried by error values.
#[verifier::external_type_specification]
#[verifier::external_body]
pub struct ExJsonError(serde_json::Error);

/// Calls `Display::to_string` on an I/O error. The text comes from the
/// operating system, so nothing is stated of it.
#[verifier::external_body]
pub(crate) fn io_error_text(error: &std::io::Error) -> (r: String) {
    error.to_string()
}

} // verus!
