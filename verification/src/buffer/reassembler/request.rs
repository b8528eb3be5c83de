//! Data to be written into a reassembler.
use crate::buffer::chunk::Chunk;
use crate::buffer::reader::storage::min_len;
use crate::buffer::reader::storage::smaller;
use crate::buffer::reader::storage::Buffered;
use crate::buffer::reader::Reader;
use crate::buffer::reader::Storage;
use crate::buffer::writer;
use crate::buffer::zero::zero_seq;
use crate::buffer::zero::zeroes;
use crate::buffer::zero::ZERO_CHUNK_LEN;
use crate::buffer::Error;
use crate::varint::VarInt;
use crate::varint::MAX_VARINT_VALUE;
use core::convert::Infallible;
use vstd::prelude::*;

verus! {

/// Data with its place in the stream.
#[derive(PartialEq, Eq, Debug)]
pub struct Request<'a> {
    offset: u64,
    data: &'a [u8],
    is_fin: bool,
}

/// Whether data at an offset ends at an offset, too.
pub open spec fn in_range(offset: int, len: int) -> bool {
    offset + len <= MAX_VARINT_VALUE
}

/// What is buffered with `data` at `offset`.
pub open spec fn request(offset: int, data: Seq<u8>, is_fin: bool, zeroes: bool) -> Buffered {
    Buffered {
        data,
        end: offset + data.len(),
        fin: if is_fin {
            Some(offset + data.len())
        } else {
            None
        },
        zeroes,
        fallible: false,
    }
}

impl<'a> Request<'a> {
    /// Creates a request for `data` at `offset`.
    pub fn new(offset: VarInt, data: &'a [u8], is_fin: bool) -> (r: Result<Self, Error>)
        ensures
            r is Ok <==> in_range(offset@, data@.len() as int),
            r matches Ok(req) ==> req.valid() && req.buffered() == request(
                offset@,
                data@,
                is_fin,
                false,
            ),
            r matches Err(e) ==> e is OutOfRange,
    {
        match offset.checked_add_usize(data.len()) {
            Some(_) => Ok(Self { offset: offset.as_u64(), data, is_fin }),
            None => Err(Error::OutOfRange),
        }
    }
}

/// Zeroes with their place in the stream.
#[derive(PartialEq, Eq, Debug)]
pub struct RequestLen {
    offset: u64,
    len: usize,
    is_fin: bool,
}

impl RequestLen {
    /// Creates a request for `len` zeroes at `offset`.
    pub fn new(offset: VarInt, len: usize, is_fin: bool) -> (r: Result<Self, Error>)
        ensures
            r is Ok <==> in_range(offset@, len as int),
            r matches Ok(req) ==> req.valid() && req.buffered() == request(
                offset@,
                zero_seq(len as nat),
                is_fin,
                true,
            ),
            r matches Err(e) ==> e is OutOfRange,
    {
        match offset.checked_add_usize(len) {
            Some(_) => Ok(Self { offset: offset.as_u64(), len, is_fin }),
            None => Err(Error::OutOfRange),
        }
    }

    /// Takes the first `len` zeroes away.
    fn advance(&mut self, len: usize)
        requires
            old(self).valid(),
            len <= old(self).buffered().data.len(),
        ensures
            final(self).valid(),
            old(self).buffered().advanced(final(self).buffered()),
            old(self).buffered().taken(final(self).buffered()) == len,
            old(self).buffered().taken_bytes(final(self).buffered()) == zero_seq(len as nat),
    {
        let ghost before = self.buffered();
        self.offset = self.offset + len as u64;
        self.len = self.len - len;
        proof {
            assert(self.buffered().data =~= before.data.skip(len as int));
            assert(before.data.take(len as int) =~= zero_seq(len as nat));
        }
    }

    /// Writes `len` zeroes.
    fn put_zeroes<Dest: writer::Storage>(dest: &mut Dest, len: usize)
        requires
            old(dest).valid(),
            len <= old(dest).space().room,
        ensures
            final(dest).valid(),
            final(dest).space().written == old(dest).space().written + zero_seq(len as nat),
            final(dest).space().room + len >= old(dest).space().room,
            final(dest).space().remaining == 0 || final(dest).space().remaining + len
                <= old(dest).space().remaining,
    {
        let ghost written = dest.space().written;
        let mut remaining: usize = len;
        assert(dest.space().written =~= written + zero_seq(0));
        while remaining > 0
            invariant
                remaining <= len,
                dest.valid(),
                remaining <= dest.space().room,
                dest.space().room + (len - remaining) >= old(dest).space().room,
                dest.space().written == written + zero_seq((len - remaining) as nat),
                dest.space().remaining == 0 || dest.space().remaining + (len - remaining)
                    <= old(dest).space().remaining,
            decreases remaining,
        {
            let chunk_len: usize = if remaining < ZERO_CHUNK_LEN {
                remaining
            } else {
                ZERO_CHUNK_LEN
            };
            dest.put_slice(zeroes(chunk_len));
            proof {
                let done = (len - remaining) as nat;
                assert(written + zero_seq(done) + zero_seq(chunk_len as nat) =~= written + zero_seq(
                    (done + chunk_len) as nat,
                ));
            }
            remaining = remaining - chunk_len;
        }
    }
}

impl<'a> Reader for Request<'a> {
    proof fn offsets_fit(&self) {
    }

    fn current_offset(&self) -> VarInt {
        VarInt::new_unchecked(self.offset)
    }

    fn final_offset(&self) -> Option<VarInt> {
        if self.is_fin {
            self.current_offset().checked_add_usize(self.data.len())
        } else {
            None
        }
    }

    fn is_virtually_buffered(&self) -> bool {
        false
    }
}

impl Reader for RequestLen {
    proof fn offsets_fit(&self) {
    }

    fn current_offset(&self) -> VarInt {
        VarInt::new_unchecked(self.offset)
    }

    fn final_offset(&self) -> Option<VarInt> {
        if self.is_fin {
            self.current_offset().checked_add_usize(self.len)
        } else {
            None
        }
    }

    fn is_virtually_buffered(&self) -> bool {
        true
    }
}

impl<'a> Storage for Request<'a> {
    type Error = Infallible;

    closed spec fn valid(&self) -> bool {
        in_range(self.offset as int, self.data@.len() as int)
    }

    closed spec fn buffered(&self) -> Buffered {
        request(self.offset as int, self.data@, self.is_fin, false)
    }

    open spec fn chunk_len(&self, watermark: usize) -> usize {
        min_len(self.buffered().data.len(), watermark as nat) as usize
    }

    fn buffered_len(&self) -> usize {
        self.data.len()
    }

    fn read_chunk(&mut self, watermark: usize) -> (r: Result<Chunk<'_>, Infallible>)
        ensures
            r matches Ok(chunk) && chunk@.len() == min_len(
                old(self).buffered().data.len(),
                watermark as nat,
            ),
    {
        let chunk = self.data.read_chunk(watermark)?;
        self.offset = self.offset + chunk.len() as u64;
        Ok(chunk)
    }

    fn track_partial_copy_into<Dest: writer::Storage>(
        &mut self,
        dest: &mut Dest,
        limit: usize,
    ) -> (r: Result<(usize, Chunk<'_>), Infallible>)
        ensures
            r matches Ok((len, chunk)) && len == 0 && chunk@.len() == min_len(
                old(self).buffered().data.len(),
                min_len(old(dest).space().remaining, limit as nat),
            ),
            *final(dest) == *old(dest),
    {
        let (len, chunk) = self.data.track_partial_copy_into(dest, limit)?;
        self.offset = self.offset + chunk.len() as u64;
        self.offset = self.offset + len as u64;
        Ok((len, chunk))
    }

    fn track_copy_into<Dest: writer::Storage>(
        &mut self,
        dest: &mut Dest,
        limit: usize,
    ) -> (r: Result<usize, Infallible>)
        ensures
            r matches Ok(len) && len == min_len(
                old(self).buffered().data.len(),
                min_len(old(dest).space().remaining, limit as nat),
            ),
    {
        let len = self.data.track_copy_into(dest, limit)?;
        self.offset = self.offset + len as u64;
        Ok(len)
    }

    fn partial_copy_into<Dest: writer::Storage>(&mut self, dest: &mut Dest) -> (r: Result<
        Chunk<'_>,
        Infallible,
    >)
        ensures
            r matches Ok(chunk) && chunk@.len() == min_len(
                old(self).buffered().data.len(),
                old(dest).space().remaining,
            ),
            *final(dest) == *old(dest),
    {
        let limit = dest.remaining_capacity();
        let (_, chunk) = self.track_partial_copy_into(dest, limit)?;
        Ok(chunk)
    }

    fn copy_into<Dest: writer::Storage>(&mut self, dest: &mut Dest) -> (r: Result<(), Infallible>)
        ensures
            r is Ok,
            old(self).buffered().taken(final(self).buffered()) == min_len(
                old(self).buffered().data.len(),
                old(dest).space().remaining,
            ),
    {
        let limit = dest.remaining_capacity();
        let _ = self.track_copy_into(dest, limit)?;
        Ok(())
    }
}

impl Storage for RequestLen {
    type Error = Infallible;

    closed spec fn valid(&self) -> bool {
        in_range(self.offset as int, self.len as int)
    }

    closed spec fn buffered(&self) -> Buffered {
        request(self.offset as int, zero_seq(self.len as nat), self.is_fin, true)
    }

    open spec fn chunk_len(&self, watermark: usize) -> usize {
        min_len(
            min_len(self.buffered().data.len(), ZERO_CHUNK_LEN as nat),
            watermark as nat,
        ) as usize
    }

    fn buffered_len(&self) -> usize {
        self.len
    }

    fn read_chunk(&mut self, watermark: usize) -> (r: Result<Chunk<'_>, Infallible>)
        ensures
            r matches Ok(chunk) && chunk@ == zero_seq(
                min_len(
                    min_len(old(self).buffered().data.len(), ZERO_CHUNK_LEN as nat),
                    watermark as nat,
                ),
            ),
    {
        proof {
            self.buffered().law_take_nothing();
            assert(zero_seq(0) =~= Seq::<u8>::empty());
        }
        if self.len == 0 {
            return Ok(Chunk::empty());
        }
        let mut chunk_len: usize = self.len;
        if ZERO_CHUNK_LEN < chunk_len {
            chunk_len = ZERO_CHUNK_LEN;
        }
        if watermark < chunk_len {
            chunk_len = watermark;
        }
        if chunk_len == 0 {
            return Ok(Chunk::empty());
        }
        self.advance(chunk_len);
        Ok(Chunk::Slice(zeroes(chunk_len)))
    }

    fn track_partial_copy_into<Dest: writer::Storage>(
        &mut self,
        dest: &mut Dest,
        limit: usize,
    ) -> (r: Result<(usize, Chunk<'_>), Infallible>)
        ensures
            r matches Ok((len, chunk)) && chunk@.len() == min_len(
                min_len(
                    old(self).buffered().data.len(),
                    min_len(old(dest).space().remaining, limit as nat),
                ),
                ZERO_CHUNK_LEN as nat,
            ) && len + chunk@.len() == min_len(
                old(self).buffered().data.len(),
                min_len(old(dest).space().remaining, limit as nat),
            ),
    {
        let ghost start = self.buffered();
        proof {
            start.law_take_nothing();
            dest.remaining_in_room();
            assert(dest.space().written =~= dest.space().written + Seq::<u8>::empty());
        }
        let total_len = smaller(self.len, smaller(dest.remaining_capacity(), limit));
        if total_len == 0 {
            return Ok((0, Chunk::empty()));
        }
        let chunk_len = smaller(total_len, ZERO_CHUNK_LEN);
        let direct_len = total_len - chunk_len;
        let ghost written = dest.space().written;
        if direct_len > 0 {
            Self::put_zeroes(dest, direct_len);
            self.advance(direct_len);
        }
        let ghost mid = self.buffered();
        self.advance(chunk_len);
        proof {
            start.law_take_in_steps(mid, self.buffered());
            assert(dest.space().written + zero_seq(chunk_len as nat) =~= written
                + start.taken_bytes(self.buffered()));
        }
        Ok((direct_len, Chunk::Slice(zeroes(chunk_len))))
    }

    fn track_copy_into<Dest: writer::Storage>(
        &mut self,
        dest: &mut Dest,
        limit: usize,
    ) -> (r: Result<usize, Infallible>)
        ensures
            r matches Ok(len) && len == min_len(
                old(self).buffered().data.len(),
                min_len(old(dest).space().remaining, limit as nat),
            ),
    {
        proof {
            self.buffered().law_take_nothing();
            dest.remaining_in_room();
            assert(dest.space().written =~= dest.space().written + Seq::<u8>::empty());
        }
        let len = smaller(self.len, smaller(dest.remaining_capacity(), limit));
        if len == 0 {
            return Ok(0);
        }
        Self::put_zeroes(dest, len);
        self.advance(len);
        Ok(len)
    }

    fn partial_copy_into<Dest: writer::Storage>(&mut self, dest: &mut Dest) -> (r: Result<
        Chunk<'_>,
        Infallible,
    >)
        ensures
            r matches Ok(chunk) && chunk@.len() == min_len(
                min_len(old(self).buffered().data.len(), old(dest).space().remaining),
                ZERO_CHUNK_LEN as nat,
            ),
            old(self).buffered().taken(final(self).buffered()) == min_len(
                old(self).buffered().data.len(),
                old(dest).space().remaining,
            ),
    {
        let limit = dest.remaining_capacity();
        let (_, chunk) = self.track_partial_copy_into(dest, limit)?;
        Ok(chunk)
    }

    fn copy_into<Dest: writer::Storage>(&mut self, dest: &mut Dest) -> (r: Result<(), Infallible>)
        ensures
            r is Ok,
            old(self).buffered().taken(final(self).buffered()) == min_len(
                old(self).buffered().data.len(),
                old(dest).space().remaining,
            ),
    {
        let limit = dest.remaining_capacity();
        let _ = self.track_copy_into(dest, limit)?;
        Ok(())
    }
}

/// A request has the data at its place in the stream, which ends behind it exactly
/// if the request says so.
pub proof fn law_request(offset: int, data: Seq<u8>, is_fin: bool, zeroes: bool)
    ensures
        request(offset, data, is_fin, zeroes).data == data,
        request(offset, data, is_fin, zeroes).offset() == offset,
        request(offset, data, is_fin, zeroes).end - data.len() == offset,
        request(offset, data, is_fin, zeroes).fin is Some <==> is_fin,
        is_fin ==> request(offset, data, is_fin, zeroes).fin == Some(offset + data.len()),
        request(offset, data, is_fin, zeroes).zeroes == zeroes,
        !request(offset, data, is_fin, zeroes).fallible,
{
}

/// A request is in range exactly if every offset of it, that just past it included,
/// has less than 63 bits.
pub proof fn law_in_range(offset: int, len: int)
    ensures
        in_range(offset, len) <==> offset + len < 0x4000_0000_0000_0000,
{
}

} // verus!
