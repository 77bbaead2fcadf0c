use vstd::prelude::*;

verus! {

/// Every way in which an operation of the dispersal engine can fail.
#[derive(Debug, Clone, Copy, PartialEq, Eq, Structural)]
pub enum VidError {
    /// The engine's parameters are inconsistent (`reconstruction_size` is zero
    /// or exceeds `num_storage_nodes`).
    ParameterError,
    /// Fewer than `reconstruction_size` shares were supplied for recovery.
    InsufficientShares,
    /// The share sent to storage node `id` failed its opening-proof check.
    ShareVerificationFailed { id: usize },
    /// The erasure decoder rejected a set of shares that all verified.
    DecodeInconsistency,
    /// The payload cannot be mapped to exactly one polynomial's coefficients,
    /// or recovered field elements are not a framed payload.
    EncodingError,
    /// The erasure encoder's shards or the openings do not line up with the
    /// storage nodes (wrong count, wrong index, or an opened value that differs
    /// from the shard's value).
    DispersalInconsistency,
}

} // verus!
