//! The error taxonomy of the build pipeline.

use vstd::prelude::*;

verus! {

/// Why a build failed.
#[derive(Clone, Copy, Debug, PartialEq, Eq, Structural)]
pub enum BuildError {
    /// Two inputs produced identical signatures, even after the retry
    /// budget; this almost always means two input keys were equal.
    DuplicateKey,
    /// A chunk's 3-hypergraph kept a non-empty 2-core through every retry.
    Unpeelable,
    /// A requested size exceeds the packed edge-accumulator budget or the
    /// address space.
    Capacity,
    /// A configuration parameter is out of range, such as asking a store
    /// for more chunk bits than it was built to count.
    InvalidConfig,
}

impl BuildError {
    /// A human-readable description of the error.
    pub fn message(&self) -> (r: &'static str)
        ensures
            r@ == match *self {
                BuildError::DuplicateKey => "duplicate keys detected"@,
                BuildError::Unpeelable => "hypergraph not peelable after all retries"@,
                BuildError::Capacity => "requested size exceeds the packing budget"@,
                BuildError::InvalidConfig => "invalid configuration parameter"@,
            },
    {
        let r = match self {
            BuildError::DuplicateKey => "duplicate keys detected",
            BuildError::Unpeelable => "hypergraph not peelable after all retries",
            BuildError::Capacity => "requested size exceeds the packing budget",
            BuildError::InvalidConfig => "invalid configuration parameter",
        };
        proof {
            reveal_strlit("duplicate keys detected");
            reveal_strlit("hypergraph not peelable after all retries");
            reveal_strlit("requested size exceeds the packing budget");
            reveal_strlit("invalid configuration parameter");
        }
        r
    }
}

} // verus!
