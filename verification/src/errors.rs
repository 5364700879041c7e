//! The error shape surfaced at the manager's boundary.

use vstd::prelude::*;

verus! {

/// A single error shape carrying a human-readable message.
#[derive(Debug)]
pub struct PtyError {
    pub message: String,
}

impl From<String> for PtyError {
    fn from(err: String) -> (r: Self) {
        PtyError { message: err }
    }
}

impl vstd::std_specs::convert::FromSpecImpl<String> for PtyError {
    open spec fn obeys_from_spec() -> bool {
        true
    }

    open spec fn from_spec(err: String) -> Self {
        PtyError { message: err }
    }
}

impl PtyError {
    /// The message text, for callers that need to display the error.
    pub fn message(&self) -> (r: &String)
        ensures
            r@ == self.message@,
    {
        &self.message
    }
}

} // verus!
