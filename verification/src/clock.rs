//! The creation timestamp of a command. The current time is inherently
//! outside the model: nothing is promised of the value.
use vstd::prelude::*;

verus! {

/// Relies on `chrono::Utc::now().to_rfc3339()`: the current UTC time
/// rendered as an RFC 3339 timestamp. The value depends on the clock, so no
/// property of it is stated.
#[verifier::external_body]
pub fn now_rfc3339() -> (r: String) {
    chrono::Utc::now().to_rfc3339()
}

} // verus!
