use vstd::prelude::*;

verus! {

/// Errors surfaced by the search core.
#[derive(Debug)]
pub enum LavaError {
    /// Storage transport failure or a read that stayed short.
    Io,
    /// A caller-supplied argument is rejected: empty range, empty query, `k == 0`.
    InvalidInput,
    /// Malformed trailer, a failed zstd or bincode decode, or an on-disk
    /// invariant that does not hold.
    Parse(String),
    /// The files queried together embed different tokenizers.
    Inconsistent,
    /// A task of the runtime failed to join.
    Internal,
}

impl LavaError {
    /// The error every on-disk invariant violation surfaces as.
    pub fn data_corruption() -> (e: LavaError)
        ensures
            e matches LavaError::Parse(m) && m@ == "data corruption"@,
    {
        LavaError::Parse("data corruption".to_owned())
    }
}

} // verus!
