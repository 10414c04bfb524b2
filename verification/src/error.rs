use vstd::prelude::*;

verus! {

/// Everything that can go wrong in the store, the sync procedures and the
/// query layer.
///
/// Store faults: `MalformedKey` (an on-disk key is not a validly encoded
/// date), `StoreCorrupt` (the current pointer or a stored record violates
/// the store's invariant), `StoreIO` (the underlying storage engine
/// failed).  Sync faults: `SourceUnavailable` (a remote fetch failed or
/// returned no data when data was required), `SourceRegressed` (the remote
/// latest date is older than the local current date).  The remaining
/// variants reject malformed queries at the read API.
#[derive(Clone, Copy, Debug, PartialEq, Eq, Structural)]
pub enum Error {
    MalformedKey,
    StoreCorrupt,
    StoreIO,
    SourceUnavailable,
    SourceRegressed,
    DateNotFound,
    PastDate,
    InvalidDateRange,
    InvalidDateFormat,
    InvalidBase,
    EmpyDataset,
    InvalidSymbol,
    MissingDateBoundaries,
}

} // verus!
