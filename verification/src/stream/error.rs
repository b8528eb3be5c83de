//! Errors of the receive side of a stream.
use vstd::prelude::*;

verus! {

/// Why a stream operation did not succeed.
#[derive(Clone, Copy, Debug, PartialEq, Eq, Structural)]
pub enum Error {
    /// There is no more work to do.
    Done,
    /// The peer violated the local flow control limits.
    FlowControl,
    /// The received data exceeds the stream's final size.
    FinalSize,
    /// The specified stream was reset by the peer; the error code sent as part
    /// of the reset is given.
    StreamReset(u64),
}

} // verus!
