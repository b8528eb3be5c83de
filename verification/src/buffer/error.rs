//! Errors of buffers.
use core::convert::Infallible;
use vstd::pervasive::unreached;
use vstd::prelude::*;

verus! {

/// Why a buffer did not take data.
#[derive(Debug)]
pub enum Error<R = Infallible> {
    /// An invalid data range was provided.
    OutOfRange,
    /// The provided final size was invalid for the buffer's state.
    InvalidFin,
    /// The provided reader failed.
    ReaderError(R),
}

/// Why a buffer refused data that its reader had no trouble with.
#[derive(Clone, Copy, Debug)]
pub enum Refusal {
    /// The data lies out of range.
    OutOfRange,
    /// The final size does not fit.
    InvalidFin,
}

impl<R> Error<R> {
    /// Why the buffer refused the data; `None` if it was the reader that
    /// failed.
    pub open spec fn refusal(self) -> Option<Refusal> {
        match self {
            Error::OutOfRange => Some(Refusal::OutOfRange),
            Error::InvalidFin => Some(Refusal::InvalidFin),
            Error::ReaderError(_) => None,
        }
    }

    /// Turns an error that is not the reader's into one for another kind of
    /// reader.
    pub fn mapped<Q>(self) -> (r: Error<Q>)
        requires
            !(self is ReaderError),
        ensures
            r.refusal() == self.refusal(),
    {
        match self {
            Error::OutOfRange => Error::OutOfRange,
            Error::InvalidFin => Error::InvalidFin,
            Error::ReaderError(_) => unreached(),
        }
    }
}

/// A refusal tells what was refused, and nothing else is a refusal.
pub proof fn law_refusal<R>(error: Error<R>)
    ensures
        error.refusal() == Some(Refusal::OutOfRange) <==> error is OutOfRange,
        error.refusal() == Some(Refusal::InvalidFin) <==> error is InvalidFin,
        error.refusal() is None <==> error is ReaderError,
{
}

} // verus!
