use vstd::prelude::*;

verus! {

/// Why code generation could not start.
#[derive(Debug, PartialEq, Eq, Structural)]
pub enum CodegenError {
    /// The requested backend does not exist.
    InvalidBackend,
}

impl CodegenError {
    /// The error's message.
    pub fn message(&self) -> (r: &'static str)
        ensures
            r@ == "invalid backend selected"@,
    {
        "invalid backend selected"
    }
}

} // verus!
