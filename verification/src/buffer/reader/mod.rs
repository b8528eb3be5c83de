//! Where data is read from.
pub mod complete;
pub mod empty;
pub mod limit;
pub mod storage;

pub use storage::Storage;

use crate::buffer::zero::zero_seq;
use crate::varint::VarInt;
use crate::varint::MAX_VARINT_VALUE;
use vstd::prelude::*;

verus! {

/// Data of a stream that can be read.
pub trait Reader: Storage {
    /// Offsets fit in a [`VarInt`], no data lies behind the end of the stream,
    /// and what is told to be zeroes is.
    proof fn offsets_fit(&self)
        requires
            self.valid(),
        ensures
            0 <= self.buffered().offset(),
            self.buffered().end <= MAX_VARINT_VALUE,
            self.buffered().fin matches Some(size) ==> self.buffered().end <= size
                <= MAX_VARINT_VALUE,
            self.buffered().zeroes ==> self.buffered().data == zero_seq(
                self.buffered().data.len(),
            ),
    ;

    /// Returns the currently read offset for the stream.
    fn current_offset(&self) -> (r: VarInt)
        requires
            self.valid(),
        ensures
            r@ == self.buffered().offset(),
    ;

    /// Returns the final offset for the stream.
    fn final_offset(&self) -> (r: Option<VarInt>)
        requires
            self.valid(),
        ensures
            r is Some <==> self.buffered().fin is Some,
            r matches Some(size) ==> self.buffered().fin == Some(size@),
    ;

    /// Returns true if the reader has the final offset buffered.
    fn has_buffered_fin(&self) -> (r: bool)
        requires
            self.valid(),
        ensures
            r == (self.buffered().fin == Some(self.buffered().end)),
    {
        proof {
            self.offsets_fit();
        }
        match self.final_offset() {
            Some(fin) => {
                let end = self.current_offset().as_u64() + self.buffered_len() as u64;
                fin.as_u64() == end
            },
            None => false,
        }
    }

    /// Returns true if the reader is finished reading all data in the stream.
    fn is_consumed(&self) -> (r: bool)
        requires
            self.valid(),
        ensures
            r == (self.buffered().fin == Some(self.buffered().offset())),
    {
        match self.final_offset() {
            Some(fin) => fin.as_u64() == self.current_offset().as_u64(),
            None => false,
        }
    }

    /// Skips the data until a certain offset. Where the buffered data does not
    /// reach that far, all of it is skipped.
    fn skip_until(&mut self, offset: VarInt) -> (r: Result<(), Self::Error>)
        requires
            old(self).valid(),
        ensures
            final(self).valid(),
            final(self).buffered().fin == old(self).buffered().fin,
            final(self).buffered().zeroes == old(self).buffered().zeroes,
            final(self).buffered().fallible == old(self).buffered().fallible,
            r is Err ==> old(self).buffered().fallible,
            r is Err || offset@ <= old(self).buffered().end ==> old(self).buffered().advanced(
                final(self).buffered(),
            ),
            r is Ok && offset@ <= old(self).buffered().end ==> final(self).buffered().offset() == (
            if offset@ <= old(self).buffered().offset() {
                old(self).buffered().offset()
            } else {
                offset@
            }),
            r is Ok && old(self).buffered().end < offset@ ==> final(self).buffered().data.len()
                == 0 && old(self).buffered().end <= final(self).buffered().end <= offset@,
    {
        let ghost start = self.buffered();
        let target = offset.as_u64();
        proof {
            start.law_take_nothing();
        }
        loop
            invariant
                start == old(self).buffered(),
                self.valid(),
                start.advanced(self.buffered()),
                self.buffered().offset() <= start.offset() || self.buffered().offset() <= offset@,
                target == offset@,
            ensures
                self.valid(),
                start.advanced(self.buffered()),
                self.buffered().offset() <= start.offset() || self.buffered().offset() <= offset@,
                self.buffered().offset() >= offset@ || self.buffered().data.len() == 0,
            decreases self.buffered().data.len(),
        {
            let current = self.current_offset().as_u64();
            if target <= current || self.buffer_is_empty() {
                break;
            }
            let len = target - current;
            let watermark: usize = if len > u32::MAX as u64 {
                u32::MAX as usize
            } else {
                len as usize
            };
            let ghost before = self.buffered();
            match self.read_chunk(watermark) {
                Ok(chunk) => {
                    assert(chunk@.len() > 0);
                },
                Err(e) => {
                    proof {
                        start.law_take_in_steps(before, self.buffered());
                    }
                    return Err(e);
                },
            }
            proof {
                start.law_take_in_steps(before, self.buffered());
            }
        }
        Ok(())
    }

    /// Returns true if the data is all zeroes and is not held in memory.
    fn is_virtually_buffered(&self) -> (r: bool)
        requires
            self.valid(),
        ensures
            r == self.buffered().zeroes,
    ;
}

} // verus!
