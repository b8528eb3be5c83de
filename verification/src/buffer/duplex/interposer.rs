//! Reading past a buffer.
use crate::buffer::chunk::Chunk;
use crate::buffer::duplex::Skip;
use crate::buffer::error::Refusal;
use crate::buffer::reader::storage::copied;
use crate::buffer::reader::storage::Buffered;
use crate::buffer::reader::Storage as ReaderStorage;
use crate::buffer::writer::storage::Space;
use crate::buffer::writer::Storage as WriterStorage;
use crate::buffer::writer::Writer;
use crate::buffer::Error;
use crate::buffer::Reader;
use crate::varint::law_of_value;
use crate::varint::VarInt;
use vstd::prelude::*;

verus! {

/// A wrapper around an underlying buffer (`duplex`) which will prefer to
/// read/write from a user-provided temporary buffer (`storage`). The underlying
/// buffer (`duplex`)'s current position and total length are updated if needed.
pub struct Interposer<'a, S, D> where S: WriterStorage, D: Skip {
    pub storage: &'a mut S,
    pub duplex: &'a mut D,
}

impl<'a, S, D> Interposer<'a, S, D> where S: WriterStorage, D: Skip {
    /// Puts `storage` in front of `duplex`, which has to be drained into
    /// `storage` as far as that has room.
    pub fn new(storage: &'a mut S, duplex: &'a mut D) -> (r: Self)
        requires
            old(storage).valid(),
            old(duplex).valid(),
            old(storage).space().remaining == 0 || old(duplex).buffered().data.len() == 0,
        ensures
            r.valid(),
            *r.storage == *old(storage),
            *r.duplex == *old(duplex),
            *final(storage) == *final(r.storage),
            *final(duplex) == *final(r.duplex),
    {
        Self { storage, duplex }
    }

    /// What the storage holds and has space for.
    pub open spec fn space(&self) -> Space {
        self.storage.space()
    }

    /// The underlying buffer.
    pub open spec fn inner(&self) -> D {
        *self.duplex
    }

    /// Whether data of a reader goes to the underlying buffer: the storage
    /// would rather have shared memory, has no room or too little, or the data
    /// is not what comes next.
    pub open spec fn delegates(&self, source: Buffered) -> bool {
        ||| S::wants_bytes()
        ||| S::wants_bytes_mut()
        ||| self.storage.space().remaining == 0
        ||| source.offset() != self.duplex.buffered().offset()
        ||| self.storage.space().remaining < source.data.len() as int / 2
    }
}

/// Delegates to the inner Duplex
impl<'a, S, D> ReaderStorage for Interposer<'a, S, D> where S: WriterStorage, D: Skip {
    type Error = D::Error;

    open spec fn valid(&self) -> bool {
        &&& self.storage.valid()
        &&& self.duplex.valid()
    }

    open spec fn buffered(&self) -> Buffered {
        Buffered { zeroes: false, ..self.duplex.buffered() }
    }

    open spec fn chunk_len(&self, watermark: usize) -> usize {
        self.duplex.chunk_len(watermark)
    }

    fn buffered_len(&self) -> usize {
        self.duplex.buffered_len()
    }

    fn buffer_is_empty(&self) -> bool {
        self.duplex.buffer_is_empty()
    }

    fn read_chunk(&mut self, watermark: usize) -> (r: Result<Chunk<'_>, D::Error>)
        ensures
            *final(self).storage == *old(self).storage,
            *final(final(self).storage) == *final(old(self).storage),
            *final(final(self).duplex) == *final(old(self).duplex),
    {
        self.duplex.read_chunk(watermark)
    }

    fn track_partial_copy_into<Dest: WriterStorage>(
        &mut self,
        dest: &mut Dest,
        limit: usize,
    ) -> (r: Result<(usize, Chunk<'_>), D::Error>)
        ensures
            *final(self).storage == *old(self).storage,
            *final(final(self).storage) == *final(old(self).storage),
            *final(final(self).duplex) == *final(old(self).duplex),
    {
        self.duplex.track_partial_copy_into(dest, limit)
    }

    fn track_copy_into<Dest: WriterStorage>(
        &mut self,
        dest: &mut Dest,
        limit: usize,
    ) -> (r: Result<usize, D::Error>)
        ensures
            *final(self).storage == *old(self).storage,
            *final(final(self).storage) == *final(old(self).storage),
            *final(final(self).duplex) == *final(old(self).duplex),
    {
        self.duplex.track_copy_into(dest, limit)
    }

    fn partial_copy_into<Dest: WriterStorage>(&mut self, dest: &mut Dest) -> (r: Result<
        Chunk<'_>,
        D::Error,
    >)
        ensures
            *final(self).storage == *old(self).storage,
            *final(final(self).storage) == *final(old(self).storage),
            *final(final(self).duplex) == *final(old(self).duplex),
    {
        self.duplex.partial_copy_into(dest)
    }

    fn copy_into<Dest: WriterStorage>(&mut self, dest: &mut Dest) -> (r: Result<(), D::Error>)
        ensures
            *final(self).storage == *old(self).storage,
            *final(final(self).storage) == *final(old(self).storage),
            *final(final(self).duplex) == *final(old(self).duplex),
    {
        self.duplex.copy_into(dest)
    }
}

/// Delegates to the inner Duplex
impl<'a, S, D> Reader for Interposer<'a, S, D> where S: WriterStorage, D: Skip {
    proof fn offsets_fit(&self) {
        self.duplex.offsets_fit();
    }

    fn current_offset(&self) -> VarInt {
        self.duplex.current_offset()
    }

    fn final_offset(&self) -> Option<VarInt> {
        self.duplex.final_offset()
    }

    fn has_buffered_fin(&self) -> bool {
        self.duplex.has_buffered_fin()
    }

    fn is_consumed(&self) -> bool {
        self.duplex.is_consumed()
    }

    fn is_virtually_buffered(&self) -> bool {
        false
    }
}

impl<'a, S, D> Writer for Interposer<'a, S, D> where S: WriterStorage, D: Skip {
    open spec fn takes(&self) -> bool {
        self.valid()
    }

    /// Data goes to the underlying buffer, or as much of it as the storage
    /// wants goes to the storage, past the underlying buffer, which gets the
    /// rest.
    open spec fn took(before: Self, after: Self, source: Buffered, rest: Buffered) -> bool {
        if before.delegates(source) {
            &&& after.storage.space() == before.storage.space()
            &&& D::took(*before.duplex, *after.duplex, source, rest)
        } else {
            exists|copied: Buffered, duplex: D| #[trigger]
                went_past(before, after, source, copied, duplex) && if copied.data.len() == 0 {
                    rest == copied && *after.duplex == duplex
                } else {
                    D::took(duplex, *after.duplex, copied, rest)
                }
        }
    }

    /// The underlying buffer refuses the data; or the storage has taken what it
    /// wants, and the underlying buffer does not let that go past it, or
    /// refuses the rest.
    open spec fn refused(
        before: Self,
        after: Self,
        source: Buffered,
        rest: Buffered,
        why: Refusal,
    ) -> bool {
        if before.delegates(source) {
            &&& after.storage.space() == before.storage.space()
            &&& D::refused(*before.duplex, *after.duplex, source, rest, why)
        } else {
            ||| stopped(before, after, source, rest, why)
            ||| exists|copied: Buffered, duplex: D| #[trigger]
                went_past(before, after, source, copied, duplex) && copied.data.len() > 0
                    && D::refused(duplex, *after.duplex, copied, rest, why)
        }
    }

    fn read_from<R: Reader>(&mut self, reader: &mut R) -> (r: Result<(), Error<R::Error>>)
        ensures
            *final(final(self).storage) == *final(old(self).storage),
            *final(final(self).duplex) == *final(old(self).duplex),
            old(self).delegates(old(reader).buffered()) ==> *final(self).storage
                == *old(self).storage,
            r matches Err(e) && e is ReaderError && !old(self).delegates(old(reader).buffered())
                ==> reader_failed(*old(self), *final(self), old(reader).buffered()),
    {
        let ghost before = *self;
        let ghost source = reader.buffered();
        proof {
            self.duplex.valid_both_ways();
            reader.offsets_fit();
        }
        let final_offset = reader.final_offset();
        let should_delegate = {
            // if the storage specializes writing zero-copy Bytes/BytesMut, then
            // just write to the receive buffer, since that's what it
            // stores
            let mut should_delegate = S::specializes_bytes() || S::specializes_bytes_mut();
            // if the storage has no space left then write into the duplex
            should_delegate = should_delegate || !self.storage.has_remaining_capacity();
            // if this packet is non-contiguous, then delegate to the wrapped
            // writer
            should_delegate = should_delegate || reader.current_offset().as_u64()
                != self.duplex.current_offset().as_u64();
            // We want to decrypt into our own buffer (`duplex`) if that's
            // cheaper. Note that decrypt is itself an optional "free"
            // copy. Our choices are:
            //
            // 1. Decrypt in-place, copy head to `storage` and tail to `duplex`
            // 2. Decrypt to `duplex`, copy head to `storage`
            // 3. Decrypt to `storage`
            //
            // 1 and 2 are always possible (duplex can take any amount of data).
            // 1 is always more expensive than 2 in `# of bytes copied` but does
            // potentially save allocating large buffer(s) in
            // `duplex`, if most of the bytes go into storage.
            //
            // 3 is optimal and should essentially always be preferred.
            should_delegate || self.storage.remaining_capacity() < reader.buffered_len() / 2
        };
        if should_delegate {
            let r = self.duplex.read_from(reader);
            proof {
                self.duplex.valid_both_ways();
            }
            // don't copy into `storage` here - let the caller do that later
            // since it can be more efficient to pull from
            // `duplex` all in one go.
            return r;
        }
        // track the number of consumed bytes
        let limit = self.storage.remaining_capacity();
        let len = match reader.track_copy_into(self.storage, limit) {
            Ok(len) => len,
            Err(e) => return Err(Error::ReaderError(e)),
        };
        let ghost copied = reader.buffered();
        let write_len = match VarInt::try_from(len) {
            Ok(write_len) => write_len,
            Err(_) => return Err(Error::OutOfRange),
        };
        // notify the duplex that we bypassed it and should skip
        proof {
            if let Some(size) = final_offset {
                law_of_value(size);
            }
        }
        if let Err(e) = self.duplex.skip(write_len, final_offset) {
            proof {
                self.duplex.valid_both_ways();
                assert(stopped(before, *self, source, copied, e.refusal().unwrap()));
            }
            return Err(e.mapped());
        }
        proof {
            self.duplex.valid_both_ways();
            assert(went_past(before, *self, source, copied, *self.duplex));
        }
        let ghost passed = *self.duplex;
        // if we still have some remaining bytes consume the rest in the duplex
        if !reader.buffer_is_empty() {
            let r = self.duplex.read_from(reader);
            proof {
                self.duplex.valid_both_ways();
                assert(went_past(before, *self, source, copied, passed));
            }
            return r;
        }
        Ok(())
    }
}

/// Whether the data from `source` to `copied` went to the storage, as much of it
/// as that wants, and past the underlying buffer, which becomes `duplex`.
pub open spec fn went_past<'a, S: WriterStorage, D: Skip>(
    before: Interposer<'a, S, D>,
    after: Interposer<'a, S, D>,
    source: Buffered,
    copied: Buffered,
    duplex: D,
) -> bool {
    &&& went_to_storage(before, after, source, copied)
    &&& D::skipped(*before.duplex, duplex, VarInt::of(source.taken(copied)), final_of(source))
    &&& duplex.buffered().offset() == before.duplex.buffered().offset() + source.taken(copied)
}

/// What may become of an interposer when a reader fails that it does not
/// delegate. Either the copy into the storage failed, and the underlying buffer
/// is as it was; or the storage took what it wants, and the rest failed.
pub open spec fn reader_failed<'a, S: WriterStorage, D: Skip>(
    before: Interposer<'a, S, D>,
    after: Interposer<'a, S, D>,
    source: Buffered,
) -> bool {
    ||| *after.duplex == *before.duplex && before.storage.space().written.is_prefix_of(
        after.storage.space().written,
    )
    ||| exists|copied: Buffered, duplex: D| #[trigger]
        went_past(before, after, source, copied, duplex) && copied.data.len() > 0
}

/// Whether the data from `source` to `rest` went to the storage, as much of it as
/// that wants, but the underlying buffer did not let it go past for the reason
/// given.
pub open spec fn stopped<'a, S: WriterStorage, D: Skip>(
    before: Interposer<'a, S, D>,
    after: Interposer<'a, S, D>,
    source: Buffered,
    rest: Buffered,
    why: Refusal,
) -> bool {
    &&& went_to_storage(before, after, source, rest)
    &&& D::skip_refused(
        *before.duplex,
        *after.duplex,
        VarInt::of(source.taken(rest)),
        final_of(source),
        why,
    )
}

/// Whether the data from `source` to `rest` went to the storage, as much of it as
/// that wants.
pub open spec fn went_to_storage<'a, S: WriterStorage, D: Skip>(
    before: Interposer<'a, S, D>,
    after: Interposer<'a, S, D>,
    source: Buffered,
    rest: Buffered,
) -> bool {
    &&& source.advanced(rest)
    &&& copied(
        source,
        rest,
        before.storage.space(),
        after.storage.space(),
        before.storage.space().remaining,
    )
}

/// The final offset of the stream that data belongs to.
pub open spec fn final_of(source: Buffered) -> Option<VarInt> {
    match source.fin {
        Some(size) => Some(VarInt::of(size)),
        None => None,
    }
}

/// Whether the storage goes from `before` to `after` by getting the bytes of
/// `stream` from `offset` on.
pub open spec fn got_from(
    before: Space,
    after: Space,
    offset: int,
    stream: spec_fn(int) -> u8,
) -> bool {
    &&& before.written.is_prefix_of(after.written)
    &&& forall|i: int|
        before.written.len() <= i < after.written.len() ==> #[trigger] after.written[i] == stream(
            offset + (i - before.written.len()),
        )
}

/// Bytes go into the storage only if they are the next ones of the stream: what it
/// gets are the stream's bytes from the underlying buffer's offset on, and that
/// offset moves just past them. This holds of any stream that the reader's data
/// belongs to, whether the underlying buffer takes the rest or refuses it.
pub proof fn law_storage_gets_what_comes_next<'a, S: WriterStorage, D: Skip>(
    before: Interposer<'a, S, D>,
    after: Interposer<'a, S, D>,
    source: Buffered,
    rest: Buffered,
    why: Refusal,
    stream: spec_fn(int) -> u8,
)
    requires
        Interposer::<'a, S, D>::took(before, after, source, rest) || Interposer::<
            'a,
            S,
            D,
        >::refused(before, after, source, rest, why),
        forall|i: int|
            0 <= i < source.data.len() ==> #[trigger] source.data[i] == stream(
                source.offset() + i,
            ),
    ensures
        got_from(
            before.space(),
            after.space(),
            before.inner().buffered().offset(),
            stream,
        ),
        after.space().written != before.space().written ==> source.offset()
            == before.inner().buffered().offset(),
        after.space().written != before.space().written && Interposer::<
            'a,
            S,
            D,
        >::took(before, after, source, rest) ==> exists|copied: Buffered, duplex: D| #[trigger]
            went_past(before, after, source, copied, duplex) && duplex.buffered().offset()
                == before.inner().buffered().offset() + (after.space().written.len()
                - before.space().written.len()),
{
    let old_space = before.space();
    let new_space = after.space();
    if !before.delegates(source) {
        assert(exists|copied: Buffered| #[trigger]
            went_to_storage(before, after, source, copied)) by {
            if Interposer::<'a, S, D>::took(before, after, source, rest) {
                let (copied, duplex) = choose|copied: Buffered, duplex: D| #[trigger]
                    went_past(before, after, source, copied, duplex) && if copied.data.len() == 0 {
                        rest == copied && after.inner() == duplex
                    } else {
                        D::took(duplex, after.inner(), copied, rest)
                    };
                assert(went_to_storage(before, after, source, copied));
            } else if stopped(before, after, source, rest, why) {
                assert(went_to_storage(before, after, source, rest));
            } else {
                let (copied, duplex) = choose|copied: Buffered, duplex: D| #[trigger]
                    went_past(before, after, source, copied, duplex) && copied.data.len() > 0
                        && D::refused(duplex, after.inner(), copied, rest, why);
                assert(went_to_storage(before, after, source, copied));
            }
        }
        let copied = choose|copied: Buffered| #[trigger]
            went_to_storage(before, after, source, copied);
        assert(new_space.written == old_space.written + source.taken_bytes(copied));
    }
}

/// Data goes past the underlying buffer exactly if it is what comes next, the
/// storage has room for half of it and some at all, and does not want shared memory.
/// The storage then gets as much of it as it wants, the underlying buffer is told
/// how much that was and where the stream ends, and gets what is left. Else the
/// storage stays as it is, and the underlying buffer gets everything.
pub proof fn law_who_gets_the_data<'a, S: WriterStorage, D: Skip>(
    before: Interposer<'a, S, D>,
    after: Interposer<'a, S, D>,
    source: Buffered,
    rest: Buffered,
    fin: Option<VarInt>,
)
    requires
        fin is Some <==> source.fin is Some,
        fin matches Some(size) ==> source.fin == Some(size@),
        Interposer::<'a, S, D>::took(before, after, source, rest),
    ensures
        ({
            let room = before.space().remaining;
            let old_space = before.space();
            let new_space = after.space();
            let n = new_space.written.len() - old_space.written.len();
            let left = Buffered { data: source.data.skip(n), ..source };
            if !S::wants_bytes() && !S::wants_bytes_mut() && room > 0 && source.offset()
                == before.inner().buffered().offset() && source.data.len() <= 2 * room + 1 {
                &&& 0 <= n <= source.data.len()
                &&& n == source.data.len() || n == room || new_space.remaining == 0
                &&& new_space.written == old_space.written + source.data.take(n)
                &&& exists|duplex: D|
                    {
                        &&& #[trigger] D::skipped(
                            before.inner(),
                            duplex,
                            VarInt::of(n),
                            fin,
                        )
                        &&& duplex.buffered().offset() == before.inner().buffered().offset() + n
                        &&& if n == source.data.len() {
                            rest == left && after.inner() == duplex
                        } else {
                            D::took(duplex, after.inner(), left, rest)
                        }
                    }
            } else {
                &&& new_space.written == old_space.written
                &&& new_space.remaining == old_space.remaining
                &&& D::took(before.inner(), after.inner(), source, rest)
            }
        }),
{
    if let Some(size) = fin {
        law_of_value(size);
    }
    assert(fin == final_of(source));
    if !before.delegates(source) {
        let (copied, duplex) = choose|copied: Buffered, duplex: D| #[trigger]
            went_past(before, after, source, copied, duplex) && if copied.data.len() == 0 {
                rest == copied && after.inner() == duplex
            } else {
                D::took(duplex, after.inner(), copied, rest)
            };
        let n = after.space().written.len() - before.space().written.len();
        assert(after.space().written == before.space().written
            + source.taken_bytes(copied));
        assert(n == source.taken(copied));
        assert(copied =~= Buffered { data: source.data.skip(n), ..source });
        assert(D::skipped(before.inner(), duplex, VarInt::of(n), fin));
    }
}

/// What is read from an interposer is read from the underlying buffer.
pub proof fn law_reads_underlying_buffer<'a, S: WriterStorage, D: Skip>(
    interposer: Interposer<'a, S, D>,
    watermark: usize,
)
    ensures
        interposer.buffered().data == interposer.inner().buffered().data,
        interposer.buffered().offset() == interposer.inner().buffered().offset(),
        interposer.buffered().fin == interposer.inner().buffered().fin,
        interposer.buffered().fallible == interposer.inner().buffered().fallible,
        !interposer.buffered().zeroes,
        interposer.chunk_len(watermark) == interposer.inner().chunk_len(watermark),
{
}

/// A refusal is the underlying buffer's, and is passed on as it is. If data went past
/// that buffer, the storage has as much of it as it wants, and it is the skip or the
/// rest that was refused. Else the storage is as it was.
pub proof fn law_refusal_is_passed_on<'a, S: WriterStorage, D: Skip>(
    before: Interposer<'a, S, D>,
    after: Interposer<'a, S, D>,
    source: Buffered,
    rest: Buffered,
    why: Refusal,
    fin: Option<VarInt>,
)
    requires
        fin is Some <==> source.fin is Some,
        fin matches Some(size) ==> source.fin == Some(size@),
        Interposer::<'a, S, D>::refused(before, after, source, rest, why),
    ensures
        ({
            let room = before.space().remaining;
            let old_space = before.space();
            let new_space = after.space();
            let n = new_space.written.len() - old_space.written.len();
            let left = Buffered { data: source.data.skip(n), ..source };
            if !S::wants_bytes() && !S::wants_bytes_mut() && room > 0 && source.offset()
                == before.inner().buffered().offset() && source.data.len() <= 2 * room + 1 {
                &&& 0 <= n <= source.data.len()
                &&& n == source.data.len() || n == room || new_space.remaining == 0
                &&& new_space.written == old_space.written + source.data.take(n)
                &&& {
                    ||| D::skip_refused(before.inner(), after.inner(), VarInt::of(n), fin, why)
                        && rest == left
                    ||| exists|duplex: D|
                        {
                            &&& #[trigger] D::skipped(before.inner(), duplex, VarInt::of(n), fin)
                            &&& n < source.data.len()
                            &&& D::refused(duplex, after.inner(), left, rest, why)
                        }
                }
            } else {
                &&& new_space.written == old_space.written
                &&& new_space.remaining == old_space.remaining
                &&& D::refused(before.inner(), after.inner(), source, rest, why)
            }
        }),
{
    if let Some(size) = fin {
        law_of_value(size);
    }
    assert(fin == final_of(source));
    if !before.delegates(source) {
        let n = after.space().written.len() - before.space().written.len();
        let left = Buffered { data: source.data.skip(n), ..source };
        if stopped(before, after, source, rest, why) {
            assert(after.space().written == before.space().written + source.taken_bytes(rest));
            assert(n == source.taken(rest));
            assert(rest =~= left);
        } else {
            let (copied, duplex) = choose|copied: Buffered, duplex: D| #[trigger]
                went_past(before, after, source, copied, duplex) && copied.data.len() > 0
                    && D::refused(duplex, after.inner(), copied, rest, why);
            assert(after.space().written == before.space().written + source.taken_bytes(copied));
            assert(n == source.taken(copied));
            assert(copied =~= left);
            assert(D::skipped(before.inner(), duplex, VarInt::of(n), fin));
        }
    }
}

} // verus!
