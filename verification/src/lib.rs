//! A content-addressable blob store: immutable binary objects keyed by the
//! cryptographic digest of their contents, with resumable partial uploads
//! ("ingest" sessions) and mutable key/value metadata ("labels") per digest.

use vstd::prelude::*;

pub mod common;
pub mod labelstore;
pub mod store;
pub mod strmap;

verus! {

/// Errors returned by the store's operations.
#[derive(Clone, Copy, Debug, PartialEq, Eq, Structural)]
pub enum StoreError {
    /// The digest, ingest reference or field key does not exist.
    NotFound,
    /// An ingest session with incompatible parameters already holds the reference.
    AlreadyExists,
    /// A field selector or argument was malformed.
    InvalidArgument,
    /// A write's offset does not equal the session's current offset.
    OutOfOrder,
    /// The staged bytes hash to a digest other than the expected one.
    DigestMismatch,
    /// The staged byte count differs from the announced total.
    SizeMismatch,
    /// Another caller currently holds the key.
    Locked,
    /// The underlying storage failed.
    IOFailure,
}

} // verus!
