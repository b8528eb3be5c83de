//! A reader that hands out only so much.
use crate::buffer::chunk::Chunk;
use crate::buffer::reader::storage::min_len;
use crate::buffer::reader::storage::smaller;
use crate::buffer::reader::storage::Buffered;
use crate::buffer::reader::Reader;
use crate::buffer::reader::Storage;
use crate::buffer::writer;
use crate::buffer::zero::zero_seq;
use crate::varint::VarInt;
use vstd::prelude::*;

verus! {

/// How many bytes a [`Limit`] still lets through.
#[derive(Debug)]
pub struct Left {
    len: usize,
}

impl View for Left {
    type V = nat;

    closed spec fn view(&self) -> nat {
        self.len as nat
    }
}

/// Wraps a reader and limits the amount of data that can be read from it
///
/// This can be used for applying back pressure to the reader with flow control.
pub struct Limit<'a, R: Reader> {
    pub left: Left,
    pub reader: &'a mut R,
}

/// What is left of `buffered` when only its first `len` bytes are seen.
pub open spec fn limited(buffered: Buffered, len: nat) -> Buffered {
    let seen = min_len(len, buffered.data.len()) as int;
    Buffered { data: buffered.data.take(seen), end: buffered.offset() + seen, ..buffered }
}

/// Taking from what is seen is taking from what there is.
proof fn lemma_limited(source: Buffered, len: nat)
    ensures
        forall|rest: Buffered, left: nat|
            #![trigger source.advanced(rest), limited(rest, left)]
            source.advanced(rest) && source.taken(rest) + left == len ==> {
                &&& limited(source, len).advanced(limited(rest, left))
                &&& limited(source, len).taken(limited(rest, left)) == source.taken(rest)
                &&& limited(source, len).taken_bytes(limited(rest, left)) == source.taken_bytes(
                    rest,
                )
            },
{
    assert forall|rest: Buffered, left: nat|
        #![trigger source.advanced(rest), limited(rest, left)]
        source.advanced(rest) && source.taken(rest) + left == len implies {
        &&& limited(source, len).advanced(limited(rest, left))
        &&& limited(source, len).taken(limited(rest, left)) == source.taken(rest)
        &&& limited(source, len).taken_bytes(limited(rest, left)) == source.taken_bytes(rest)
    } by {
        let n = source.taken(rest);
        let before = limited(source, len);
        assert(limited(rest, left).data =~= before.data.skip(n));
        assert(before.data.take(n) =~= source.data.take(n));
    }
}

impl<'a, R: Reader> Limit<'a, R> {
    /// The reader behind the limit.
    pub open spec fn inner(&self) -> R {
        *self.reader
    }

    /// Limits `reader` to `max_buffered_len` bytes.
    pub fn new(reader: &'a mut R, max_buffered_len: usize) -> (r: Self)
        requires
            old(reader).valid(),
        ensures
            r.valid(),
            *r.reader == *old(reader),
            *final(reader) == *final(r.reader),
            r.left@ == min_len(max_buffered_len as nat, old(reader).buffered().data.len()),
            r.buffered() == limited(old(reader).buffered(), max_buffered_len as nat),
    {
        let len = smaller(max_buffered_len, reader.buffered_len());
        Self { left: Left { len }, reader }
    }
}

impl<'a, R: Reader> Storage for Limit<'a, R> {
    type Error = R::Error;

    open spec fn valid(&self) -> bool {
        self.reader.valid()
    }

    open spec fn buffered(&self) -> Buffered {
        limited(self.reader.buffered(), self.left@)
    }

    open spec fn chunk_len(&self, watermark: usize) -> usize {
        self.reader.chunk_len(min_len(self.left@, watermark as nat) as usize)
    }

    /// Returns the length of the buffered data. After a read failed the reader
    /// may have less than the limit lets through.
    fn buffered_len(&self) -> usize {
        smaller(self.left.len, self.reader.buffered_len())
    }

    fn read_chunk(&mut self, watermark: usize) -> (r: Result<Chunk<'_>, R::Error>)
        ensures
            *final(final(self).reader) == *final(old(self).reader),
            r is Ok ==> old(self).reader.buffered().advanced(final(self).reader.buffered())
                && old(self).reader.buffered().taken(final(self).reader.buffered())
                == old(self).left@ - final(self).left@,
            r is Err ==> final(self).left == old(self).left,
    {
        let watermark = smaller(self.left.len, watermark);
        proof {
            self.buffered().law_take_nothing();
            lemma_limited(self.reader.buffered(), self.left@);
        }
        let chunk = self.reader.read_chunk(watermark)?;
        self.left.len = self.left.len - chunk.len();
        Ok(chunk)
    }

    fn track_partial_copy_into<Dest: writer::Storage>(
        &mut self,
        dest: &mut Dest,
        limit: usize,
    ) -> (r: Result<(usize, Chunk<'_>), R::Error>)
        ensures
            *final(final(self).reader) == *final(old(self).reader),
            r is Ok ==> old(self).reader.buffered().advanced(final(self).reader.buffered())
                && old(self).reader.buffered().taken(final(self).reader.buffered())
                == old(self).left@ - final(self).left@,
            r is Err ==> final(self).left == old(self).left,
    {
        let limit = smaller(self.left.len, limit);
        proof {
            lemma_limited(self.reader.buffered(), self.left@);
        }
        let (len, chunk) = self.reader.track_partial_copy_into(dest, limit)?;
        self.left.len = self.left.len - (len + chunk.len());
        Ok((len, chunk))
    }

    fn track_copy_into<Dest: writer::Storage>(
        &mut self,
        dest: &mut Dest,
        limit: usize,
    ) -> (r: Result<usize, R::Error>)
        ensures
            *final(final(self).reader) == *final(old(self).reader),
            r is Ok ==> old(self).reader.buffered().advanced(final(self).reader.buffered())
                && old(self).reader.buffered().taken(final(self).reader.buffered())
                == old(self).left@ - final(self).left@,
            r is Err ==> final(self).left == old(self).left,
    {
        let limit = smaller(self.left.len, limit);
        proof {
            lemma_limited(self.reader.buffered(), self.left@);
        }
        let len = self.reader.track_copy_into(dest, limit)?;
        self.left.len = self.left.len - len;
        Ok(len)
    }

    fn partial_copy_into<Dest: writer::Storage>(&mut self, dest: &mut Dest) -> (r: Result<
        Chunk<'_>,
        R::Error,
    >)
        ensures
            *final(final(self).reader) == *final(old(self).reader),
            r is Ok ==> old(self).reader.buffered().advanced(final(self).reader.buffered())
                && old(self).reader.buffered().taken(final(self).reader.buffered())
                == old(self).left@ - final(self).left@,
            r is Err ==> final(self).left == old(self).left,
    {
        let limit = dest.remaining_capacity();
        let (_, chunk) = self.track_partial_copy_into(dest, limit)?;
        Ok(chunk)
    }

    fn copy_into<Dest: writer::Storage>(&mut self, dest: &mut Dest) -> (r: Result<(), R::Error>)
        ensures
            *final(final(self).reader) == *final(old(self).reader),
            r is Ok ==> old(self).reader.buffered().advanced(final(self).reader.buffered())
                && old(self).reader.buffered().taken(final(self).reader.buffered())
                == old(self).left@ - final(self).left@,
            r is Err ==> final(self).left == old(self).left,
    {
        let limit = dest.remaining_capacity();
        let _ = self.track_copy_into(dest, limit)?;
        Ok(())
    }
}

impl<'a, R: Reader> Reader for Limit<'a, R> {
    proof fn offsets_fit(&self) {
        self.reader.offsets_fit();
        let n = self.buffered().data.len();
        assert(self.reader.buffered().zeroes ==> self.buffered().data =~= zero_seq(n));
    }

    fn current_offset(&self) -> VarInt {
        self.reader.current_offset()
    }

    fn final_offset(&self) -> Option<VarInt> {
        self.reader.final_offset()
    }

    fn is_virtually_buffered(&self) -> bool {
        self.reader.is_virtually_buffered()
    }
}

/// What is seen through a limit is the front of what there is, as much as the limit
/// lets through, and all else is as it is.
pub proof fn law_limited(source: Buffered, len: nat)
    ensures
        limited(source, len).data.is_prefix_of(source.data),
        limited(source, len).data.len() <= len,
        limited(source, len).data.len() == len || limited(source, len).data == source.data,
        limited(source, len).offset() == source.offset(),
        limited(source, len).fin == source.fin,
        limited(source, len).zeroes == source.zeroes,
        limited(source, len).fallible == source.fallible,
{
    if source.data.len() <= len {
        assert(limited(source, len).data =~= source.data);
    }
}

/// What is read through a limit is read from the reader behind it, and the limit
/// shrinks with it: in all, no more gets through than the limit was at first.
pub proof fn law_limit_shrinks(source: Buffered, rest: Buffered, len: nat, left: nat)
    requires
        source.advanced(rest),
        source.taken(rest) + left == len,
    ensures
        limited(source, len).taken_bytes(limited(rest, left)) == source.taken_bytes(rest),
        source.taken_bytes(rest).len() + limited(rest, left).data.len() <= len,
        limited(source, len).data == source.taken_bytes(rest) + limited(rest, left).data,
{
    lemma_limited(source, len);
    assert(limited(source, len).advanced(limited(rest, left)));
    assert(limited(source, len).data =~= source.taken_bytes(rest) + limited(rest, left).data);
}

/// A chunk read through a limit is as long as one that the reader behind it gives
/// for what is asked or for what the limit lets through, if that is less.
pub proof fn law_limit_chunk<'a, R: Reader>(limit: Limit<'a, R>, watermark: usize, asked: usize)
    requires
        asked <= watermark && asked <= limit.left@,
        asked == watermark || asked == limit.left@,
    ensures
        limit.chunk_len(watermark) == limit.inner().chunk_len(asked),
        limit.buffered() == limited(limit.inner().buffered(), limit.left@),
{
}

} // verus!
