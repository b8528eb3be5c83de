//! Buffers that are read from and written to.
pub mod interposer;

use crate::buffer::error::Refusal;
use crate::buffer::reader::storage::Storage;
use crate::buffer::writer::Writer;
use crate::buffer::Error;
use crate::buffer::Reader;
use crate::varint::VarInt;
use vstd::prelude::*;

verus! {

/// A buffer that is read from and written to, and that can be told that data
/// went past it.
pub trait Skip: Reader + Writer {
    /// Whether `after` is what becomes of `before` when `len` bytes, of a
    /// stream with the given final offset, went past it.
    spec fn skipped(
        before: Self,
        after: Self,
        len: VarInt,
        final_offset: Option<VarInt>,
    ) -> bool;

    /// Whether the buffer may refuse to let `len` bytes, of a stream with the
    /// given final offset, go past it for the reason given, and so become
    /// `after`.
    spec fn skip_refused(
        before: Self,
        after: Self,
        len: VarInt,
        final_offset: Option<VarInt>,
        why: Refusal,
    ) -> bool;

    /// A buffer that can be read from can be written to, and the other way
    /// round.
    proof fn valid_both_ways(&self)
        ensures
            self.takes() <==> self.valid(),
    ;

    /// Moves the current offset past `len` bytes.
    fn skip(&mut self, len: VarInt, final_offset: Option<VarInt>) -> (r: Result<
        (),
        Error<<Self as Storage>::Error>,
    >)
        requires
            old(self).valid(),
        ensures
            final(self).valid(),
            r is Ok ==> Self::skipped(*old(self), *final(self), len, final_offset)
                && final(self).buffered().offset() == old(self).buffered().offset() + len@,
            r matches Err(e) ==> e.refusal() matches Some(why) && Self::skip_refused(
                *old(self),
                *final(self),
                len,
                final_offset,
                why,
            ),
    ;
}

} // verus!
