//! Error kinds surfaced while decoding frames from the peer.

use vstd::prelude::*;

verus! {

/// A per-frame or per-channel decode failure.
#[derive(Debug, PartialEq, Eq)]
pub enum Error {
    /// A payload that had to be JSON failed to parse or had the wrong shape.
    InvalidJsonBytes,
    /// A payload that had to be text was not valid UTF-8.
    InvalidUtf8Bytes,
    /// The op code is unrecognized, or the payload does not match its contract.
    InvalidIncomingMessage(u8),
    /// The underlying transport read failed.
    StreamError,
}

} // verus!
