use vstd::prelude::*;

verus! {

/// Why a disk text could not be decoded.
#[derive(Debug, Clone, Copy, PartialEq, Eq, Structural)]
pub enum DiskError {
    /// A cluster row is not a three-character label followed by exactly
    /// sixty-four hex digits.
    MalformedLine,
    /// A record's tag byte names none of the five cluster kinds.
    InvalidClusterType,
}

impl DiskError {
    /// A short human-readable description of the error.
    pub fn message(&self) -> (r: String)
        ensures
            r@ == match self {
                DiskError::MalformedLine => "malformed cluster line"@,
                DiskError::InvalidClusterType => "invalid cluster type"@,
            },
    {
        match self {
            DiskError::MalformedLine => String::from_str("malformed cluster line"),
            DiskError::InvalidClusterType => String::from_str("invalid cluster type"),
        }
    }
}

} // verus!
