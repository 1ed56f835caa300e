//! The ways opening an index or running a search can fail.
use vstd::prelude::*;

verus! {

#[derive(Debug, Clone, Copy, PartialEq, Eq, Structural)]
pub enum IndexError {
    /// The shard-count artifact is missing or is not a decimal number.
    IndexNotFound,
    /// A shard payload could not be retrieved.
    ShardFetchFailed,
    /// A shard payload does not follow its format.
    ShardDecodeFailed,
    /// The index has no shards.
    EmptyIndex,
}

} // verus!
