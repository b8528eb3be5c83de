//! A reader without data.
use crate::buffer::chunk::Chunk;
use crate::buffer::reader::storage::Buffered;
use crate::buffer::reader::Reader;
use crate::buffer::reader::Storage;
use crate::buffer::writer;
use crate::buffer::zero::zero_seq;
use crate::varint::VarInt;
use core::convert::Infallible;
use vstd::prelude::*;

verus! {

/// Returns an empty buffer for the current offset of an inner reader
#[derive(Debug)]
pub struct Empty<'a, R: Reader>(&'a R);

impl<'a, R: Reader> Empty<'a, R> {
    /// Creates a reader that is where `reader` is and has nothing buffered.
    pub fn new(reader: &'a R) -> (r: Self)
        requires
            reader.valid(),
        ensures
            r.valid(),
            r.buffered() == (Buffered {
                data: Seq::empty(),
                end: reader.buffered().offset(),
                fin: reader.buffered().fin,
                zeroes: reader.buffered().zeroes,
                fallible: false,
            }),
    {
        Self(reader)
    }
}

impl<'a, R: Reader> Storage for Empty<'a, R> {
    type Error = Infallible;

    closed spec fn valid(&self) -> bool {
        self.0.valid()
    }

    closed spec fn buffered(&self) -> Buffered {
        Buffered {
            data: Seq::empty(),
            end: self.0.buffered().offset(),
            fin: self.0.buffered().fin,
            zeroes: self.0.buffered().zeroes,
            fallible: false,
        }
    }

    open spec fn chunk_len(&self, watermark: usize) -> usize {
        0
    }

    fn buffered_len(&self) -> usize {
        0
    }

    fn read_chunk(&mut self, _watermark: usize) -> (r: Result<Chunk<'_>, Infallible>)
        ensures
            r matches Ok(chunk) && chunk@.len() == 0,
            *final(self) == *old(self),
    {
        proof {
            self.buffered().law_take_nothing();
        }
        Ok(Chunk::empty())
    }

    fn track_partial_copy_into<Dest: writer::Storage>(
        &mut self,
        dest: &mut Dest,
        _limit: usize,
    ) -> (r: Result<(usize, Chunk<'_>), Infallible>)
        ensures
            r matches Ok((len, chunk)) && len == 0 && chunk@.len() == 0,
            *final(self) == *old(self),
            *final(dest) == *old(dest),
    {
        proof {
            self.buffered().law_take_nothing();
        }
        Ok((0, Chunk::empty()))
    }

    fn track_copy_into<Dest: writer::Storage>(
        &mut self,
        dest: &mut Dest,
        _limit: usize,
    ) -> (r: Result<usize, Infallible>)
        ensures
            r == Ok::<usize, Infallible>(0),
            *final(self) == *old(self),
            *final(dest) == *old(dest),
    {
        proof {
            self.buffered().law_take_nothing();
        }
        Ok(0)
    }

    fn partial_copy_into<Dest: writer::Storage>(&mut self, dest: &mut Dest) -> (r: Result<
        Chunk<'_>,
        Infallible,
    >)
        ensures
            r matches Ok(chunk) && chunk@.len() == 0,
            *final(self) == *old(self),
            *final(dest) == *old(dest),
    {
        proof {
            self.buffered().law_take_nothing();
        }
        Ok(Chunk::empty())
    }

    fn copy_into<Dest: writer::Storage>(&mut self, dest: &mut Dest) -> (r: Result<(), Infallible>)
        ensures
            r is Ok,
            *final(self) == *old(self),
            *final(dest) == *old(dest),
    {
        proof {
            self.buffered().law_take_nothing();
        }
        Ok(())
    }
}

impl<'a, R: Reader> Reader for Empty<'a, R> {
    proof fn offsets_fit(&self) {
        self.0.offsets_fit();
        assert(Seq::<u8>::empty() =~= zero_seq(0));
    }

    fn current_offset(&self) -> VarInt {
        self.0.current_offset()
    }

    fn final_offset(&self) -> Option<VarInt> {
        self.0.final_offset()
    }

    fn is_virtually_buffered(&self) -> bool {
        self.0.is_virtually_buffered()
    }
}

} // verus!
