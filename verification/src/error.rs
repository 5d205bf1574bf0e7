use vstd::prelude::*;

verus! {

/// Why a record could not be encoded, decoded or hashed.
#[derive(Clone, Copy, Debug, PartialEq, Eq, Structural)]
pub enum Error {
    /// The buffer ends before the structure being decoded does.
    TruncatedInput,
    /// The block envelope is not framed as the format demands: wrong magic
    /// constant, or a length field that does not fit the bytes it covers.
    MalformedEnvelope,
    /// The digest primitive cannot process the input.
    DigestFailure,
}

} // verus!
