//! A reader for a stream that is buffered whole.
use crate::buffer::chunk::Chunk;
use crate::buffer::reader::storage::Buffered;
use crate::buffer::reader::Reader;
use crate::buffer::reader::Storage;
use crate::buffer::writer;
use crate::buffer::Error;
use crate::varint::VarInt;
use crate::varint::MAX_VARINT_VALUE;
use vstd::prelude::*;

verus! {

/// Where a [`Complete`] is in its stream.
#[derive(Debug)]
pub struct Cursor {
    current_offset: VarInt,
    final_offset: VarInt,
}

impl Cursor {
    /// The offset of the next byte.
    pub closed spec fn at(self) -> int {
        self.current_offset@
    }

    /// The final size of the stream.
    pub closed spec fn last(self) -> int {
        self.final_offset@
    }

    /// Moves past `len` bytes.
    fn advance(&mut self, len: usize)
        requires
            old(self).at() + len <= MAX_VARINT_VALUE,
        ensures
            final(self).at() == old(self).at() + len,
            final(self).last() == old(self).last(),
    {
        self.current_offset = self.current_offset.checked_add_usize(len).unwrap();
    }
}

/// Wraps a single [`Storage`] instance as a [`Reader`].
///
/// This can be used for scenarios where the entire stream is buffered and known
/// up-front.
#[derive(Debug)]
pub struct Complete<'a, S> {
    pub storage: &'a mut S,
    pub cursor: Cursor,
}

impl<'a, S> Complete<'a, S> where S: Storage {
    /// The storage that holds the stream.
    pub open spec fn inner(&self) -> S {
        *self.storage
    }

    /// Creates a reader for the stream that `storage` holds.
    pub fn new(storage: &'a mut S) -> (r: Result<Self, Error>)
        requires
            old(storage).valid(),
        ensures
            r is Ok <==> old(storage).buffered().data.len() <= MAX_VARINT_VALUE,
            r matches Err(e) ==> e is OutOfRange && *final(storage) == *old(storage),
            r matches Ok(complete) ==> {
                &&& complete.valid()
                &&& *complete.storage == *old(storage)
                &&& *final(storage) == *final(complete.storage)
                &&& complete.buffered() == (Buffered {
                    data: old(storage).buffered().data,
                    end: old(storage).buffered().data.len() as int,
                    fin: Some(old(storage).buffered().data.len() as int),
                    zeroes: false,
                    fallible: old(storage).buffered().fallible,
                })
            },
    {
        let final_offset = match VarInt::try_from(storage.buffered_len()) {
            Ok(final_offset) => final_offset,
            Err(_) => return Err(Error::OutOfRange),
        };
        Ok(Self { storage, cursor: Cursor { current_offset: VarInt::zero(), final_offset } })
    }
}

impl<'a, S> Storage for Complete<'a, S> where S: Storage {
    type Error = S::Error;

    open spec fn valid(&self) -> bool {
        &&& self.storage.valid()
        &&& 0 <= self.cursor.at()
        &&& self.cursor.at() + self.storage.buffered().data.len() <= self.cursor.last()
            <= MAX_VARINT_VALUE
    }

    open spec fn buffered(&self) -> Buffered {
        Buffered {
            data: self.storage.buffered().data,
            end: self.cursor.at() + self.storage.buffered().data.len(),
            fin: Some(self.cursor.last()),
            zeroes: false,
            fallible: self.storage.buffered().fallible,
        }
    }

    open spec fn chunk_len(&self, watermark: usize) -> usize {
        self.storage.chunk_len(watermark)
    }

    fn buffered_len(&self) -> usize {
        self.storage.buffered_len()
    }

    fn buffer_is_empty(&self) -> bool {
        self.storage.buffer_is_empty()
    }

    fn read_chunk(&mut self, watermark: usize) -> (r: Result<Chunk<'_>, S::Error>)
        ensures
            *final(final(self).storage) == *final(old(self).storage),
            final(self).cursor.last() == old(self).cursor.last(),
            r is Ok ==> old(self).storage.buffered().advanced(final(self).storage.buffered()),
            r is Err ==> final(self).cursor == old(self).cursor,
    {
        let chunk = self.storage.read_chunk(watermark)?;
        self.cursor.advance(chunk.len());
        Ok(chunk)
    }

    fn track_partial_copy_into<Dest: writer::Storage>(
        &mut self,
        dest: &mut Dest,
        limit: usize,
    ) -> (r: Result<(usize, Chunk<'_>), S::Error>)
        ensures
            *final(final(self).storage) == *final(old(self).storage),
            final(self).cursor.last() == old(self).cursor.last(),
            r is Ok ==> old(self).storage.buffered().advanced(final(self).storage.buffered()),
            r is Err ==> final(self).cursor == old(self).cursor,
    {
        let (len, chunk) = self.storage.track_partial_copy_into(dest, limit)?;
        self.cursor.advance(chunk.len());
        self.cursor.advance(len);
        Ok((len, chunk))
    }

    fn track_copy_into<Dest: writer::Storage>(
        &mut self,
        dest: &mut Dest,
        limit: usize,
    ) -> (r: Result<usize, S::Error>)
        ensures
            *final(final(self).storage) == *final(old(self).storage),
            final(self).cursor.last() == old(self).cursor.last(),
            r is Ok ==> old(self).storage.buffered().advanced(final(self).storage.buffered()),
            r is Err ==> final(self).cursor == old(self).cursor,
    {
        let len = self.storage.track_copy_into(dest, limit)?;
        self.cursor.advance(len);
        Ok(len)
    }

    fn partial_copy_into<Dest: writer::Storage>(&mut self, dest: &mut Dest) -> (r: Result<
        Chunk<'_>,
        S::Error,
    >)
        ensures
            *final(final(self).storage) == *final(old(self).storage),
            final(self).cursor.last() == old(self).cursor.last(),
            r is Ok ==> old(self).storage.buffered().advanced(final(self).storage.buffered()),
            r is Err ==> final(self).cursor == old(self).cursor,
    {
        let limit = dest.remaining_capacity();
        let (_, chunk) = self.track_partial_copy_into(dest, limit)?;
        Ok(chunk)
    }

    fn copy_into<Dest: writer::Storage>(&mut self, dest: &mut Dest) -> (r: Result<(), S::Error>)
        ensures
            *final(final(self).storage) == *final(old(self).storage),
            final(self).cursor.last() == old(self).cursor.last(),
            r is Ok ==> old(self).storage.buffered().advanced(final(self).storage.buffered()),
            r is Err ==> final(self).cursor == old(self).cursor,
    {
        let limit = dest.remaining_capacity();
        let _ = self.track_copy_into(dest, limit)?;
        Ok(())
    }
}

impl<'a, S> Reader for Complete<'a, S> where S: Storage {
    proof fn offsets_fit(&self) {
    }

    fn current_offset(&self) -> VarInt {
        self.cursor.current_offset
    }

    fn final_offset(&self) -> Option<VarInt> {
        Some(self.cursor.final_offset)
    }

    fn is_virtually_buffered(&self) -> bool {
        false
    }
}

/// What a storage holds is read as the stream that it is: all of it, in chunks as the
/// storage gives them, from the offset that was read up to on.
pub proof fn law_complete<'a, S: Storage>(complete: Complete<'a, S>, watermark: usize)
    ensures
        complete.buffered().data == complete.inner().buffered().data,
        complete.buffered().offset() == complete.cursor.at(),
        complete.buffered().fin == Some(complete.cursor.last()),
        complete.buffered().fallible == complete.inner().buffered().fallible,
        !complete.buffered().zeroes,
        complete.chunk_len(watermark) == complete.inner().chunk_len(watermark),
{
}

} // verus!
