//! The error of a model request.

use vstd::prelude::*;
use vstd::string::*;

verus! {

/// Why a model request gave no answer.
#[derive(Debug)]
pub struct LlmError(pub String);

impl LlmError {
    /// The error as it is shown.
    pub fn to_string(&self) -> (r: String)
        ensures
            r@ == "llm: "@ + self.0@,
    {
        let mut r = "llm: ".to_owned();
        r.append(self.0.as_str());
        r
    }
}

} // verus!
