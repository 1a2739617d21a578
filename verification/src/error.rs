use vstd::prelude::*;

verus! {

/// Everything that can go wrong while building, persisting or querying an index.
#[derive(Debug, Clone, Copy, PartialEq, Eq, Structural)]
pub enum IxxError {
    /// A stored reference points past the entries or past the labels of its entry.
    ReferenceOutOfBounds,
    /// A stored reference points at another reference instead of a literal.
    RecursiveReference,
    /// The byte stream is not the binary form of an index.
    Malformed,
    /// The index holds a count or a string that the binary form cannot carry.
    Unencodable,
    /// A stored literal is not valid UTF-8.
    InvalidUtf8,
}

impl IxxError {
    /// A short description of the error for diagnostics.
    pub fn message(&self) -> (text: &'static str)
        ensures
            text@ == (match *self {
                IxxError::ReferenceOutOfBounds => "referenced out of bounds data"@,
                IxxError::RecursiveReference => "recursive reference"@,
                IxxError::Malformed => "(de)serialization failed"@,
                IxxError::Unencodable => "index does not fit the binary form"@,
                IxxError::InvalidUtf8 => "invalid utf8"@,
            }),
    {
        match self {
            IxxError::ReferenceOutOfBounds => "referenced out of bounds data",
            IxxError::RecursiveReference => "recursive reference",
            IxxError::Malformed => "(de)serialization failed",
            IxxError::Unencodable => "index does not fit the binary form",
            IxxError::InvalidUtf8 => "invalid utf8",
        }
    }
}

} // verus!
