use vstd::prelude::*;

verus! {

/// The error of this library: a line of the input could not be read.
#[derive(Debug, Clone, Copy, PartialEq, Eq, Structural)]
pub struct FastaError;

impl FastaError {
    /// A human-readable description of the error.
    pub fn message(&self) -> (r: String)
        ensures
            r@ == "Error parsing FASTA records"@,
    {
        "Error parsing FASTA records".to_string()
    }
}

} // verus!
