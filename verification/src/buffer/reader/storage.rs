//! Memory that data is taken from.
use crate::buffer::chunk::Chunk;
use crate::buffer::writer;
use crate::buffer::writer::storage::Space;
use crate::bytes_spec::bytes_mut_advance;
use crate::bytes_spec::bytes_mut_as_slice;
use crate::bytes_spec::bytes_mut_seq;
use bytes::BytesMut;
use vstd::prelude::*;
use vstd::slice::slice_subrange;

verus! {

/// What the state of a storage means.
#[verifier::ext_equal]
pub struct Buffered {
    /// The data that is buffered.
    pub data: Seq<u8>,
    /// The stream offset just past the buffered data; taking data does not
    /// change it.
    pub end: int,
    /// The final size of the stream, if it is known.
    pub fin: Option<int>,
    /// Whether the data is zeroes that are not held in memory.
    pub zeroes: bool,
    /// Whether taking data can fail.
    pub fallible: bool,
}

impl Buffered {
    /// The stream offset of the next byte.
    pub open spec fn offset(self) -> int {
        self.end - self.data.len()
    }

    /// How many bytes are taken to get to `after`.
    pub open spec fn taken(self, after: Buffered) -> int {
        self.data.len() - after.data.len()
    }

    /// The bytes that are taken to get to `after`.
    pub open spec fn taken_bytes(self, after: Buffered) -> Seq<u8> {
        self.data.take(self.taken(after))
    }

    /// Whether bytes at the front are taken to get to `after`, and nothing
    /// else happens.
    pub open spec fn advanced(self, after: Buffered) -> bool {
        &&& 0 <= self.taken(after)
        &&& after == (Buffered { data: self.data.skip(self.taken(after)), ..self })
    }

    /// What may become of the storage when taking data fails: it holds no more
    /// data than before, and its offset does not go back.
    pub open spec fn cut_short(self, after: Buffered) -> bool {
        &&& after.data.len() <= self.data.len()
        &&& self.offset() <= after.offset()
        &&& after.fin == self.fin
        &&& after.zeroes == self.zeroes
        &&& after.fallible == self.fallible
    }

    /// Taking nothing changes nothing.
    pub proof fn law_take_nothing(self)
        ensures
            self.advanced(self),
            self.taken_bytes(self) == Seq::<u8>::empty(),
    {
        assert(self.data.skip(0) =~= self.data);
        assert(self.data.take(0) =~= Seq::<u8>::empty());
    }

    /// Taking in two steps takes the same bytes, in the same order, as taking
    /// at once.
    pub proof fn law_take_in_steps(self, mid: Buffered, after: Buffered)
        requires
            self.advanced(mid),
            mid.advanced(after),
        ensures
            self.advanced(after),
            self.taken(after) == self.taken(mid) + mid.taken(after),
            self.taken_bytes(after) == self.taken_bytes(mid) + mid.taken_bytes(after),
    {
        assert(self.data.skip(self.taken(mid)).skip(mid.taken(after)) =~= self.data.skip(
            self.taken(after),
        ));
        assert(self.taken_bytes(after) =~= self.taken_bytes(mid) + mid.taken_bytes(after));
    }

    /// No byte is lost, and none is handed out twice: what was taken and what
    /// is left are what there was, and the offset moves with what was taken.
    pub proof fn law_nothing_lost(self, after: Buffered)
        requires
            self.advanced(after),
        ensures
            self.taken_bytes(after) + after.data == self.data,
            after.offset() == self.offset() + self.taken_bytes(after).len(),
            after.fin == self.fin,
            after.zeroes == self.zeroes,
            after.fallible == self.fallible,
    {
        assert(self.taken_bytes(after) + after.data =~= self.data);
    }
}

/// Whether the data from `source` to `rest` went into a storage that goes from
/// `before` to `after`. It was as much as the storage wanted, but no more than
/// `limit` bytes.
pub open spec fn copied(
    source: Buffered,
    rest: Buffered,
    before: Space,
    after: Space,
    limit: nat,
) -> bool {
    let wanted = min_len(before.remaining, limit);
    &&& source.taken(rest) <= wanted
    &&& before.put(after, source.taken_bytes(rest))
    &&& rest.data.len() == 0 || source.taken(rest) == wanted || after.remaining == 0
}

/// Whether the data from `source` to `rest` went into a storage that goes from
/// `before` to `after`, but for the last `chunk`, which still fits. It was as
/// much as the storage wanted, but no more than `limit` bytes.
pub open spec fn copied_but(
    source: Buffered,
    rest: Buffered,
    before: Space,
    after: Space,
    limit: nat,
    chunk: Seq<u8>,
) -> bool {
    let wanted = min_len(before.remaining, limit);
    let direct = source.taken(rest) - chunk.len();
    &&& source.taken(rest) <= wanted
    &&& after.written + chunk == before.written + source.taken_bytes(rest)
    &&& chunk.len() == 0 <==> source.taken(rest) == 0
    &&& chunk.len() <= after.room
    &&& after.room + direct >= before.room
    &&& after.remaining == 0 || after.remaining + direct <= before.remaining
    &&& rest.data.len() == 0 || source.taken(rest) == wanted || after.remaining <= chunk.len()
}

/// Something that data can be taken from.
pub trait Storage: Sized {
    /// What goes wrong when data cannot be taken.
    type Error;

    /// What holds of the storage between any two calls.
    spec fn valid(&self) -> bool;

    /// What is buffered.
    spec fn buffered(&self) -> Buffered;

    /// How long a chunk of at most `watermark` bytes is.
    spec fn chunk_len(&self, watermark: usize) -> usize;

    /// Returns the length of the buffered data.
    fn buffered_len(&self) -> (r: usize)
        requires
            self.valid(),
        ensures
            r == self.buffered().data.len(),
    ;

    /// Returns true if no data is buffered.
    fn buffer_is_empty(&self) -> (r: bool)
        requires
            self.valid(),
        ensures
            r == (self.buffered().data.len() == 0),
    {
        self.buffered_len() == 0
    }

    /// Takes a chunk of at most `watermark` bytes.
    fn read_chunk(&mut self, watermark: usize) -> (r: Result<Chunk<'_>, Self::Error>)
        requires
            old(self).valid(),
        ensures
            final(self).valid(),
            old(self).buffered().advanced(final(self).buffered()),
            r matches Ok(chunk) ==> {
                &&& chunk@ == old(self).buffered().taken_bytes(final(self).buffered())
                &&& chunk@.len() == old(self).chunk_len(watermark)
                &&& chunk@.len() <= watermark
                &&& watermark > 0 && old(self).buffered().data.len() > 0 ==> chunk@.len() > 0
            },
            r is Err ==> final(self).buffered() == old(self).buffered(),
            r is Err ==> old(self).buffered().fallible,
    ;

    /// Copies into `dest` as much as it wants, but no more than `limit` bytes,
    /// and but for the last chunk, which is returned instead. Returns how many
    /// bytes were copied, too.
    fn track_partial_copy_into<Dest: writer::Storage>(
        &mut self,
        dest: &mut Dest,
        limit: usize,
    ) -> (r: Result<(usize, Chunk<'_>), Self::Error>)
        requires
            old(self).valid(),
            old(dest).valid(),
        ensures
            final(self).valid(),
            final(dest).valid(),
            old(dest).space().written.is_prefix_of(final(dest).space().written),
            r matches Ok((len, chunk)) ==> {
                &&& old(self).buffered().advanced(final(self).buffered())
                &&& copied_but(
                    old(self).buffered(),
                    final(self).buffered(),
                    old(dest).space(),
                    final(dest).space(),
                    limit as nat,
                    chunk@,
                )
                &&& len + chunk@.len() == old(self).buffered().taken(final(self).buffered())
            },
            r is Err ==> old(self).buffered().fallible && old(self).buffered().cut_short(
                final(self).buffered(),
            ),
    ;

    /// Copies into `dest` as much as it wants, but no more than `limit` bytes.
    /// Returns how many bytes were copied.
    fn track_copy_into<Dest: writer::Storage>(
        &mut self,
        dest: &mut Dest,
        limit: usize,
    ) -> (r: Result<usize, Self::Error>)
        requires
            old(self).valid(),
            old(dest).valid(),
        ensures
            final(self).valid(),
            final(dest).valid(),
            old(dest).space().written.is_prefix_of(final(dest).space().written),
            r matches Ok(len) ==> {
                &&& old(self).buffered().advanced(final(self).buffered())
                &&& copied(
                    old(self).buffered(),
                    final(self).buffered(),
                    old(dest).space(),
                    final(dest).space(),
                    limit as nat,
                )
                &&& len == old(self).buffered().taken(final(self).buffered())
            },
            r is Err ==> old(self).buffered().fallible && old(self).buffered().cut_short(
                final(self).buffered(),
            ),
    ;

    /// Copies into `dest` as much as it wants, but for the last chunk, which
    /// is returned instead.
    fn partial_copy_into<Dest: writer::Storage>(&mut self, dest: &mut Dest) -> (r: Result<
        Chunk<'_>,
        Self::Error,
    >)
        requires
            old(self).valid(),
            old(dest).valid(),
        ensures
            final(self).valid(),
            final(dest).valid(),
            old(dest).space().written.is_prefix_of(final(dest).space().written),
            r matches Ok(chunk) ==> {
                &&& old(self).buffered().advanced(final(self).buffered())
                &&& copied_but(
                    old(self).buffered(),
                    final(self).buffered(),
                    old(dest).space(),
                    final(dest).space(),
                    old(dest).space().remaining,
                    chunk@,
                )
            },
            r is Err ==> old(self).buffered().fallible && old(self).buffered().cut_short(
                final(self).buffered(),
            ),
    {
        let limit = dest.remaining_capacity();
        let (_, chunk) = self.track_partial_copy_into(dest, limit)?;
        Ok(chunk)
    }

    /// Copies into `dest` as much as it wants.
    fn copy_into<Dest: writer::Storage>(&mut self, dest: &mut Dest) -> (r: Result<
        (),
        Self::Error,
    >)
        requires
            old(self).valid(),
            old(dest).valid(),
        ensures
            final(self).valid(),
            final(dest).valid(),
            old(dest).space().written.is_prefix_of(final(dest).space().written),
            r is Ok ==> {
                &&& old(self).buffered().advanced(final(self).buffered())
                &&& copied(
                    old(self).buffered(),
                    final(self).buffered(),
                    old(dest).space(),
                    final(dest).space(),
                    old(dest).space().remaining,
                )
            },
            r is Err ==> old(self).buffered().fallible && old(self).buffered().cut_short(
                final(self).buffered(),
            ),
    {
        let limit = dest.remaining_capacity();
        let _ = self.track_copy_into(dest, limit)?;
        Ok(())
    }
}

/// The length of `a`, or `b` if that is less.
pub open spec fn min_len(a: nat, b: nat) -> nat {
    if a <= b {
        a
    } else {
        b
    }
}

/// Returns the smaller of two lengths.
pub fn smaller(a: usize, b: usize) -> (r: usize)
    ensures
        r == min_len(a as nat, b as nat),
{
    if a <= b {
        a
    } else {
        b
    }
}

impl Storage for BytesMut {
    type Error = core::convert::Infallible;

    open spec fn valid(&self) -> bool {
        true
    }

    open spec fn buffered(&self) -> Buffered {
        Buffered { data: bytes_mut_seq(*self), end: 0, fin: None, zeroes: false, fallible: false }
    }

    open spec fn chunk_len(&self, watermark: usize) -> usize {
        min_len(bytes_mut_seq(*self).len(), watermark as nat) as usize
    }

    fn buffered_len(&self) -> usize {
        self.len()
    }

    fn read_chunk(&mut self, watermark: usize) -> (r: Result<Chunk<'_>, core::convert::Infallible>)
        ensures
            r matches Ok(chunk) && chunk@.len() == min_len(
                bytes_mut_seq(*old(self)).len(),
                watermark as nat,
            ) && chunk is Owned,
    {
        let len = smaller(self.len(), watermark);
        Ok(Chunk::Owned(self.split_to(len)))
    }

    fn track_partial_copy_into<Dest: writer::Storage>(
        &mut self,
        dest: &mut Dest,
        limit: usize,
    ) -> (r: Result<(usize, Chunk<'_>), core::convert::Infallible>)
        ensures
            r matches Ok((len, chunk)) && len == 0 && chunk@.len() == min_len(
                bytes_mut_seq(*old(self)).len(),
                min_len(old(dest).space().remaining, limit as nat),
            ),
            *final(dest) == *old(dest),
    {
        proof {
            dest.remaining_in_room();
        }
        let chunk = self.read_chunk(smaller(dest.remaining_capacity(), limit))?;
        Ok((0, chunk))
    }

    fn track_copy_into<Dest: writer::Storage>(
        &mut self,
        dest: &mut Dest,
        limit: usize,
    ) -> (r: Result<usize, core::convert::Infallible>)
        ensures
            r matches Ok(len) && len == min_len(
                bytes_mut_seq(*old(self)).len(),
                min_len(old(dest).space().remaining, limit as nat),
            ),
    {
        proof {
            dest.remaining_in_room();
        }
        let len = smaller(self.len(), smaller(dest.remaining_capacity(), limit));
        if Dest::specializes_bytes() || Dest::specializes_bytes_mut() {
            let bytes = self.split_to(len);
            dest.put_bytes_mut(bytes);
        } else {
            dest.put_slice(slice_subrange(bytes_mut_as_slice(self), 0, len));
            bytes_mut_advance(self, len);
        }
        Ok(len)
    }

    fn partial_copy_into<Dest: writer::Storage>(&mut self, dest: &mut Dest) -> (r: Result<
        Chunk<'_>,
        core::convert::Infallible,
    >)
        ensures
            r matches Ok(chunk) && chunk@.len() == min_len(
                bytes_mut_seq(*old(self)).len(),
                old(dest).space().remaining,
            ) && old(self).buffered().taken(final(self).buffered()) == chunk@.len(),
            *final(dest) == *old(dest),
    {
        let limit = dest.remaining_capacity();
        let (_, chunk) = self.track_partial_copy_into(dest, limit)?;
        Ok(chunk)
    }

    fn copy_into<Dest: writer::Storage>(&mut self, dest: &mut Dest) -> (r: Result<
        (),
        core::convert::Infallible,
    >)
        ensures
            r is Ok,
            old(self).buffered().taken(final(self).buffered()) == min_len(
                bytes_mut_seq(*old(self)).len(),
                old(dest).space().remaining,
            ),
    {
        let limit = dest.remaining_capacity();
        let _ = self.track_copy_into(dest, limit)?;
        Ok(())
    }
}

impl<'a> Storage for &'a [u8] {
    type Error = core::convert::Infallible;

    open spec fn valid(&self) -> bool {
        true
    }

    open spec fn buffered(&self) -> Buffered {
        Buffered { data: (*self)@, end: 0, fin: None, zeroes: false, fallible: false }
    }

    open spec fn chunk_len(&self, watermark: usize) -> usize {
        min_len((*self)@.len(), watermark as nat) as usize
    }

    fn buffered_len(&self) -> usize {
        self.len()
    }

    fn read_chunk(&mut self, watermark: usize) -> (r: Result<Chunk<'_>, core::convert::Infallible>)
        ensures
            r matches Ok(chunk) && chunk@.len() == min_len((*old(self))@.len(), watermark as nat),
    {
        let len = smaller(self.len(), watermark);
        let (chunk, rest) = self.split_at(len);
        *self = rest;
        Ok(Chunk::Slice(chunk))
    }

    fn track_partial_copy_into<Dest: writer::Storage>(
        &mut self,
        dest: &mut Dest,
        limit: usize,
    ) -> (r: Result<(usize, Chunk<'_>), core::convert::Infallible>)
        ensures
            r matches Ok((len, chunk)) && len == 0 && chunk@.len() == min_len(
                (*old(self))@.len(),
                min_len(old(dest).space().remaining, limit as nat),
            ),
            *final(dest) == *old(dest),
    {
        proof {
            dest.remaining_in_room();
        }
        let chunk = self.read_chunk(smaller(dest.remaining_capacity(), limit))?;
        Ok((0, chunk))
    }

    fn track_copy_into<Dest: writer::Storage>(
        &mut self,
        dest: &mut Dest,
        limit: usize,
    ) -> (r: Result<usize, core::convert::Infallible>)
        ensures
            r matches Ok(len) && len == min_len(
                (*old(self))@.len(),
                min_len(old(dest).space().remaining, limit as nat),
            ),
    {
        proof {
            dest.remaining_in_room();
        }
        let len = smaller(self.len(), smaller(dest.remaining_capacity(), limit));
        let (chunk, rest) = self.split_at(len);
        dest.put_slice(chunk);
        *self = rest;
        Ok(len)
    }

    fn partial_copy_into<Dest: writer::Storage>(&mut self, dest: &mut Dest) -> (r: Result<
        Chunk<'_>,
        core::convert::Infallible,
    >)
        ensures
            r matches Ok(chunk) && chunk@.len() == min_len(
                (*old(self))@.len(),
                old(dest).space().remaining,
            ) && old(self).buffered().taken(final(self).buffered()) == chunk@.len(),
            *final(dest) == *old(dest),
    {
        let limit = dest.remaining_capacity();
        let (_, chunk) = self.track_partial_copy_into(dest, limit)?;
        Ok(chunk)
    }

    fn copy_into<Dest: writer::Storage>(&mut self, dest: &mut Dest) -> (r: Result<
        (),
        core::convert::Infallible,
    >)
        ensures
            r is Ok,
            old(self).buffered().taken(final(self).buffered()) == min_len(
                (*old(self))@.len(),
                old(dest).space().remaining,
            ),
    {
        let limit = dest.remaining_capacity();
        let _ = self.track_copy_into(dest, limit)?;
        Ok(())
    }
}

/// The smaller of two lengths is one of them, and neither is smaller.
pub proof fn law_min_len(a: nat, b: nat)
    ensures
        min_len(a, b) <= a && min_len(a, b) <= b,
        min_len(a, b) == a || min_len(a, b) == b,
{
}

/// A copy puts the front of the data behind what the storage holds. It stops only
/// when there is no more data, when the limit is reached, or when the storage wants
/// no more, and the reader keeps the rest.
pub proof fn law_copied(
    source: Buffered,
    rest: Buffered,
    before: Space,
    after: Space,
    limit: nat,
    n: int,
)
    requires
        source.advanced(rest),
        copied(source, rest, before, after, limit),
        n == after.written.len() - before.written.len(),
    ensures
        0 <= n <= source.data.len() && n <= limit && n <= before.remaining,
        n == source.data.len() || n == limit || n == before.remaining || after.remaining == 0,
        after.written == before.written + source.data.take(n),
        rest.data == source.data.skip(n),
        rest.offset() == source.offset() + n,
        after.remaining == 0 || after.remaining <= before.remaining - n,
        after.room >= before.room - n,
{
}

/// A copy that hands out its last chunk does what a copy does, but for that chunk,
/// which fits and belongs behind what the storage holds.
pub proof fn law_copied_but(
    source: Buffered,
    rest: Buffered,
    before: Space,
    after: Space,
    limit: nat,
    chunk: Seq<u8>,
    n: int,
)
    requires
        source.advanced(rest),
        copied_but(source, rest, before, after, limit, chunk),
        before.written.is_prefix_of(after.written),
        n == after.written.len() + chunk.len() - before.written.len(),
    ensures
        0 <= n <= source.data.len() && n <= limit && n <= before.remaining,
        n == source.data.len() || n == limit || n == before.remaining || after.remaining
            <= chunk.len(),
        after.written + chunk == before.written + source.data.take(n),
        rest.data == source.data.skip(n),
        rest.offset() == source.offset() + n,
        chunk.len() <= after.room,
        n > 0 ==> chunk.len() > 0,
{
    assert((after.written + chunk).len() == (before.written + source.taken_bytes(rest)).len());
}

} // verus!
