use vstd::prelude::*;

verus! {

/// The error kinds that the library's operations can surface.
///
/// `IoError` marks a file that could not be read or written, `FormatError` a
/// persisted trie that could not be decompressed or decoded, `ValidationError`
/// a detector threshold outside `(0, 1]`, and `NotFoundError` a brute-force
/// search that exhausted its candidate keys without a passing plaintext.
#[derive(Debug, Clone, Copy, PartialEq, Eq, Structural)]
pub enum CipherError {
    IoError,
    FormatError,
    ValidationError,
    NotFoundError,
}

impl CipherError {
    /// A human-readable description of the error kind.
    pub fn message(&self) -> (r: &'static str)
        ensures
            r@.len() > 0,
    {
        proof {
            reveal_strlit("file could not be read or written");
            reveal_strlit("persisted trie data is malformed");
            reveal_strlit("threshold should be greater than 0 and less than or equal to 1");
            reveal_strlit("message could not be decoded");
        }
        match self {
            CipherError::IoError => "file could not be read or written",
            CipherError::FormatError => "persisted trie data is malformed",
            CipherError::ValidationError => "threshold should be greater than 0 and less than or equal to 1",
            CipherError::NotFoundError => "message could not be decoded",
        }
    }
}

} // verus!
