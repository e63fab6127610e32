use vstd::prelude::*;

pub mod buffers;
pub mod codec;
pub mod frames;
pub mod handler;
pub mod interfaces;
pub mod session;
pub mod shared;
pub mod storage;

verus! {

/// The error taxonomy of the store: file-level failures and malformed
/// persisted bytes. Both are always surfaced to the caller, never
/// swallowed.
#[derive(Clone, Copy, PartialEq, Eq, Structural, Debug)]
pub enum RiptideError {
    /// A path could not be opened, read, resized or written.
    IOError,
    /// Persisted bytes are not a valid encoding of a snapshot.
    DecodeError,
}

} // verus!
