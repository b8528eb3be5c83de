//! Memory that takes data.
use crate::buffer::chunk::Chunk;
use crate::buffer::zero::zero_seq;
use crate::bytes_spec::bytes_as_slice;
use crate::bytes_spec::bytes_mut_as_slice;
use crate::bytes_spec::bytes_mut_seq;
use crate::bytes_spec::bytes_seq;
use bytes::Bytes;
use bytes::BytesMut;
use vstd::prelude::*;

verus! {

/// What the state of a storage means.
pub struct Space {
    /// Everything that has been put into the storage.
    pub written: Seq<u8>,
    /// How many more bytes the storage can take.
    pub room: nat,
    /// How many more bytes the storage wants; never more than it can take.
    pub remaining: nat,
}

impl Space {
    /// Whether `after` is what becomes of the storage when `bytes` are put into
    /// it. It holds the bytes, can still take all that fits behind them, and
    /// wants no more than it would have wanted behind them.
    pub open spec fn put(self, after: Space, bytes: Seq<u8>) -> bool {
        &&& after.written == self.written + bytes
        &&& after.room + bytes.len() >= self.room
        &&& after.remaining == 0 || after.remaining + bytes.len() <= self.remaining
    }

    /// Putting nothing into a storage changes nothing.
    pub proof fn law_put_nothing(self)
        ensures
            self.put(self, Seq::empty()),
    {
        assert(self.written + Seq::<u8>::empty() =~= self.written);
    }

    /// Putting in two steps is putting at once.
    pub proof fn law_put_in_steps(self, mid: Space, after: Space, one: Seq<u8>, two: Seq<u8>)
        requires
            self.put(mid, one),
            mid.put(after, two),
        ensures
            self.put(after, one + two),
    {
        assert(self.written + one + two =~= self.written + (one + two));
    }
}

/// Something that data can be put into.
pub trait Storage: Sized {
    /// What the storage holds and has space for.
    spec fn space(&self) -> Space;

    /// What holds of the storage between any two calls.
    spec fn valid(&self) -> bool;

    /// Whether writing [`Bytes`] is cheaper than writing a slice.
    spec fn wants_bytes() -> bool;

    /// Whether writing [`BytesMut`] is cheaper than writing a slice.
    spec fn wants_bytes_mut() -> bool;

    /// Whether the storage can take `len` bytes in one piece.
    spec fn in_one_piece(&self, len: usize) -> bool;

    /// A storage never wants more than it can take.
    proof fn remaining_in_room(&self)
        requires
            self.valid(),
        ensures
            self.space().remaining <= self.space().room,
    ;

    /// Returns whether writing [`Bytes`] is cheaper than writing a slice.
    fn specializes_bytes() -> (r: bool)
        ensures
            r == Self::wants_bytes(),
    ;

    /// Returns whether writing [`BytesMut`] is cheaper than writing a slice.
    fn specializes_bytes_mut() -> (r: bool)
        ensures
            r == Self::wants_bytes_mut(),
    ;

    /// Writes a slice.
    fn put_slice(&mut self, bytes: &[u8])
        requires
            old(self).valid(),
            bytes@.len() <= old(self).space().room,
        ensures
            final(self).valid(),
            old(self).space().put(final(self).space(), bytes@),
    ;

    /// Returns how many more bytes the storage wants.
    fn remaining_capacity(&self) -> (r: usize)
        requires
            self.valid(),
        ensures
            r == self.space().remaining,
    ;

    /// Returns true if the storage wants more.
    fn has_remaining_capacity(&self) -> (r: bool)
        requires
            self.valid(),
        ensures
            r == (self.space().remaining > 0),
    ;

    /// Writes the bytes of a [`Bytes`].
    fn put_bytes(&mut self, bytes: Bytes)
        requires
            old(self).valid(),
            bytes_seq(bytes).len() <= old(self).space().room,
        ensures
            final(self).valid(),
            old(self).space().put(final(self).space(), bytes_seq(bytes)),
    ;

    /// Writes the bytes of a [`BytesMut`].
    fn put_bytes_mut(&mut self, bytes: BytesMut)
        requires
            old(self).valid(),
            bytes_mut_seq(bytes).len() <= old(self).space().room,
        ensures
            final(self).valid(),
            old(self).space().put(final(self).space(), bytes_mut_seq(bytes)),
    ;

    /// Writes a chunk.
    fn put_chunk(&mut self, chunk: Chunk<'_>)
        requires
            old(self).valid(),
            chunk@.len() <= old(self).space().room,
        ensures
            final(self).valid(),
            old(self).space().put(final(self).space(), chunk@),
    ;

    /// Lets `f` fill `payload_len` bytes, which are zeroes at first, and writes
    /// them, if the storage can take them in one piece. Returns whether it did.
    fn put_uninit_slice<F, Error>(&mut self, payload_len: usize, f: F) -> (r: Result<bool, Error>)
        where F: FnOnce(&mut [u8]) -> Result<(), Error>
        requires
            old(self).valid(),
            payload_len <= old(self).space().room,
            forall|s: &mut [u8]|
                s@ == zero_seq(payload_len as nat) ==> #[trigger] call_requires(f, (s,)),
            forall|s: &mut [u8], r: Result<(), Error>| #[trigger]
                call_ensures(f, (s,), r) ==> final(s)@.len() == s@.len(),
        ensures
            final(self).valid(),
            r matches Ok(done) ==> done == old(self).in_one_piece(payload_len),
            !old(self).in_one_piece(payload_len) ==> r is Ok && final(self).space()
                == old(self).space(),
            old(self).in_one_piece(payload_len) ==> exists|s: &mut [u8], filled: Result<(), Error>|
                s@ == zero_seq(payload_len as nat) && #[trigger] call_ensures(f, (s,), filled)
                    && match filled {
                    Ok(_) => r is Ok && old(self).space().put(final(self).space(), final(s)@),
                    Err(e) => r == Err::<bool, Error>(e) && final(self).space()
                        == old(self).space(),
                },
    ;
}

/// Storage that holds what is put into it, up to a limit.
pub struct Bounded {
    data: BytesMut,
    limit: usize,
}

impl Bounded {
    /// Creates a storage that appends up to `limit` bytes to `data`.
    pub fn new(data: BytesMut, limit: usize) -> (r: Bounded)
        requires
            bytes_mut_seq(data).len() + limit <= isize::MAX,
        ensures
            r.valid(),
            r.space().written == bytes_mut_seq(data),
            r.space().room == limit,
            r.space().remaining == limit,
    {
        Bounded { data, limit }
    }

    /// The storage wants all that it can take.
    pub proof fn wants_all(&self)
        ensures
            self.space().remaining == self.space().room,
    {
    }

    /// Returns what the storage holds.
    pub fn as_slice(&self) -> (r: &[u8])
        ensures
            r@ == self.space().written,
    {
        bytes_mut_as_slice(&self.data)
    }

    /// Returns the buffer with what was put into it.
    pub fn into_inner(self) -> (r: BytesMut)
        ensures
            bytes_mut_seq(r) == self.space().written,
    {
        self.data
    }
}

impl Storage for Bounded {
    closed spec fn space(&self) -> Space {
        Space {
            written: bytes_mut_seq(self.data),
            room: self.limit as nat,
            remaining: self.limit as nat,
        }
    }

    closed spec fn valid(&self) -> bool {
        bytes_mut_seq(self.data).len() + self.limit <= isize::MAX
    }

    open spec fn wants_bytes() -> bool {
        false
    }

    open spec fn wants_bytes_mut() -> bool {
        false
    }

    open spec fn in_one_piece(&self, len: usize) -> bool {
        true
    }

    proof fn remaining_in_room(&self) {
    }

    fn specializes_bytes() -> bool {
        false
    }

    fn specializes_bytes_mut() -> bool {
        false
    }

    fn put_slice(&mut self, bytes: &[u8])
        ensures
            final(self).space().remaining == old(self).space().remaining - bytes@.len(),
            final(self).space().room == final(self).space().remaining,
    {
        self.data.extend_from_slice(bytes);
        self.limit = self.limit - bytes.len();
    }

    fn remaining_capacity(&self) -> usize {
        self.limit
    }

    fn has_remaining_capacity(&self) -> bool {
        self.limit > 0
    }

    fn put_bytes(&mut self, bytes: Bytes)
        ensures
            final(self).space().remaining == old(self).space().remaining - bytes_seq(bytes).len(),
            final(self).space().room == final(self).space().remaining,
    {
        self.put_slice(bytes_as_slice(&bytes));
    }

    fn put_bytes_mut(&mut self, bytes: BytesMut)
        ensures
            final(self).space().remaining == old(self).space().remaining - bytes_mut_seq(
                bytes,
            ).len(),
            final(self).space().room == final(self).space().remaining,
    {
        self.put_slice(bytes_mut_as_slice(&bytes));
    }

    fn put_chunk(&mut self, chunk: Chunk<'_>)
        ensures
            final(self).space().remaining == old(self).space().remaining - chunk@.len(),
            final(self).space().room == final(self).space().remaining,
    {
        self.put_slice(chunk.as_slice());
    }

    fn put_uninit_slice<F, Error>(&mut self, payload_len: usize, f: F) -> (r: Result<
        bool,
        Error,
    >) where F: FnOnce(&mut [u8]) -> Result<(), Error>
        ensures
            r matches Ok(done) ==> done,
    {
        let mut bytes: Vec<u8> = Vec::new();
        bytes.resize(payload_len, 0);
        assert(bytes@ =~= zero_seq(payload_len as nat));
        let r = f(bytes.as_mut_slice());
        assert(exists|s: &mut [u8]|
            s@ == zero_seq(payload_len as nat) && final(s)@ == bytes@ && #[trigger] call_ensures(
                f,
                (s,),
                r,
            ));
        match r {
            Ok(()) => {
                self.put_slice(bytes.as_slice());
                Ok(true)
            },
            Err(e) => Err(e),
        }
    }
}

/// What is put into a storage is there behind what was there, and takes no more
/// room than it is long; the storage wants at most what it still wanted.
pub proof fn law_put(before: Space, after: Space, bytes: Seq<u8>, i: int)
    requires
        before.put(after, bytes),
    ensures
        after.written.len() == before.written.len() + bytes.len(),
        0 <= i < before.written.len() ==> after.written[i] == before.written[i],
        0 <= i < bytes.len() ==> after.written[before.written.len() + i] == bytes[i],
        before.room - bytes.len() <= after.room,
        after.remaining <= before.remaining,
        after.remaining > 0 ==> after.remaining <= before.remaining - bytes.len(),
{
}

} // verus!
