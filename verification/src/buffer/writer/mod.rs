//! Where data is written to.
pub mod storage;
pub mod write_once;

pub use storage::Storage;

use crate::buffer::error::Refusal;
use crate::buffer::reader::storage::Buffered;
use crate::buffer::Error;
use crate::buffer::Reader;
use vstd::prelude::*;

verus! {

/// Something that takes the data of a reader.
pub trait Writer: Sized {
    /// What holds of the writer between any two calls.
    spec fn takes(&self) -> bool;

    /// Whether `after` is what becomes of `before` when it took the data that
    /// a reader lost on its way from `source` to `rest`.
    spec fn took(before: Self, after: Self, source: Buffered, rest: Buffered) -> bool;

    /// Whether the writer may refuse the data of a reader for the reason
    /// given, and so become `after`. The reader is then left at `rest`.
    spec fn refused(
        before: Self,
        after: Self,
        source: Buffered,
        rest: Buffered,
        why: Refusal,
    ) -> bool;

    /// Takes the data of a reader.
    fn read_from<R: Reader>(&mut self, reader: &mut R) -> (r: Result<(), Error<R::Error>>)
        requires
            old(self).takes(),
            old(reader).valid(),
        ensures
            final(self).takes(),
            final(reader).valid(),
            r is Ok ==> Self::took(
                *old(self),
                *final(self),
                old(reader).buffered(),
                final(reader).buffered(),
            ),
            r matches Err(e) ==> match e.refusal() {
                Some(why) => Self::refused(
                    *old(self),
                    *final(self),
                    old(reader).buffered(),
                    final(reader).buffered(),
                    why,
                ),
                None => old(reader).buffered().fallible,
            },
    ;
}

} // verus!
