use vstd::prelude::*;

verus! {

/// Why an operation of the accumulator or the verifier was refused.
#[derive(Clone, Copy, Debug, PartialEq, Eq, Structural)]
pub enum MerkleError {
    DepthTooLarge,
    UnknownTree,
    TreeFull,
    InvalidEncoding,
    MalformedParameters,
    MalformedProof,
    InvalidPublicInput,
    NullifierAlreadySpent,
}

} // verus!
