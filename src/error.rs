//! What can go wrong while checking credentials.
use vstd::prelude::*;

verus! {

/// The errors that the library decides on. Transport and storage failures
/// are raised by the caller that does the I/O.
#[derive(Debug, Clone, Copy, PartialEq, Eq, Structural)]
pub enum Error {
    /// A record of the range response has no `:`.
    ResponseMalformed,
    /// The range endpoint answered with a status other than 200 or 429.
    ResponseStatus(u16),
    /// The `retry-after` header of a 429 reply is not a whole number of
    /// seconds.
    RetryAfterMalformed,
    /// A 429 reply came without a `retry-after` header.
    RetryAfterMissing,
}

} // verus!
