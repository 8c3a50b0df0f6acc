use vstd::prelude::*;

verus! {

/// Why a request to the generator failed.
#[derive(Debug, Clone, Copy, PartialEq, Eq, Structural)]
pub enum RngError {
    /// The operating system's entropy source could not be read; holds the raw
    /// OS error code where the system reported one.
    SourceUnavailable(Option<i32>),
    /// A range was requested whose lower bound is not below its upper bound.
    InvalidRange,
    /// More bytes were requested in one call than `MAX_REQUEST`.
    RequestTooLarge,
}

} // verus!
