//! A storage that takes a single write.
use crate::buffer::chunk::Chunk;
use crate::buffer::writer::storage::Space;
use crate::buffer::writer::Storage;
use crate::bytes_spec::bytes_mut_seq;
use crate::bytes_spec::bytes_seq;
use bytes::Bytes;
use bytes::BytesMut;
use vstd::prelude::*;

verus! {

/// Whether something was written.
pub struct DidWrite(bool);

impl View for DidWrite {
    type V = bool;

    closed spec fn view(&self) -> bool {
        self.0
    }
}

/// Only allows a single write into the storage. After that, no more writes are
/// allowed.
///
/// This can be used for very low latency scenarios where processing the single
/// read is more important than filling the entire storage with as much data as
/// possible.
pub struct WriteOnce<'a, S: Storage> {
    pub storage: &'a mut S,
    pub did_write: DidWrite,
}

impl<'a, S: Storage> WriteOnce<'a, S> {
    /// The storage that is written into.
    pub open spec fn inner(&self) -> S {
        *self.storage
    }

    /// Creates a storage that puts a single write into `storage`.
    pub fn new(storage: &'a mut S) -> (r: Self)
        requires
            old(storage).valid(),
        ensures
            r.valid(),
            !r.did_write@,
            *r.storage == *old(storage),
            *final(storage) == *final(r.storage),
    {
        Self { storage, did_write: DidWrite(false) }
    }
}

impl<'a, S: Storage> Storage for WriteOnce<'a, S> {
    open spec fn space(&self) -> Space {
        Space {
            remaining: if self.did_write@ {
                0
            } else {
                self.storage.space().remaining
            },
            ..self.storage.space()
        }
    }

    open spec fn valid(&self) -> bool {
        self.storage.valid()
    }

    open spec fn wants_bytes() -> bool {
        S::wants_bytes()
    }

    open spec fn wants_bytes_mut() -> bool {
        S::wants_bytes_mut()
    }

    open spec fn in_one_piece(&self, len: usize) -> bool {
        self.storage.in_one_piece(len)
    }

    proof fn remaining_in_room(&self) {
        self.storage.remaining_in_room();
    }

    fn specializes_bytes() -> bool {
        S::specializes_bytes()
    }

    fn specializes_bytes_mut() -> bool {
        S::specializes_bytes_mut()
    }

    fn put_slice(&mut self, bytes: &[u8])
        ensures
            *final(final(self).storage) == *final(old(self).storage),
            final(self).did_write@ == (old(self).did_write@ || bytes@.len() > 0),
    {
        let did_write = bytes.len() > 0;
        self.storage.put_slice(bytes);
        self.did_write.0 = self.did_write.0 || did_write;
    }

    fn put_uninit_slice<F, Error>(&mut self, payload_len: usize, f: F) -> (r: Result<
        bool,
        Error,
    >) where F: FnOnce(&mut [u8]) -> Result<(), Error>
        ensures
            *final(final(self).storage) == *final(old(self).storage),
            final(self).did_write@ == (old(self).did_write@ || r == Ok::<bool, Error>(true)
                && payload_len > 0),
    {
        let did_write = self.storage.put_uninit_slice(payload_len, f)?;
        self.did_write.0 = self.did_write.0 || (did_write && payload_len > 0);
        Ok(did_write)
    }

    fn remaining_capacity(&self) -> usize {
        if self.did_write.0 {
            return 0;
        }
        self.storage.remaining_capacity()
    }

    fn has_remaining_capacity(&self) -> bool {
        if self.did_write.0 {
            return false;
        }
        self.storage.has_remaining_capacity()
    }

    fn put_bytes(&mut self, bytes: Bytes)
        ensures
            *final(final(self).storage) == *final(old(self).storage),
            final(self).did_write@ == (old(self).did_write@ || bytes_seq(bytes).len() > 0),
    {
        let did_write = bytes.len() > 0;
        self.storage.put_bytes(bytes);
        self.did_write.0 = self.did_write.0 || did_write;
    }

    fn put_bytes_mut(&mut self, bytes: BytesMut)
        ensures
            *final(final(self).storage) == *final(old(self).storage),
            final(self).did_write@ == (old(self).did_write@ || bytes_mut_seq(bytes).len() > 0),
    {
        let did_write = bytes.len() > 0;
        self.storage.put_bytes_mut(bytes);
        self.did_write.0 = self.did_write.0 || did_write;
    }

    fn put_chunk(&mut self, chunk: Chunk<'_>)
        ensures
            *final(final(self).storage) == *final(old(self).storage),
            final(self).did_write@ == (old(self).did_write@ || chunk@.len() > 0),
    {
        let did_write = !chunk.is_empty();
        self.storage.put_chunk(chunk);
        self.did_write.0 = self.did_write.0 || did_write;
    }
}

/// Whether one of a sequence of writes, given by the number of bytes each of them
/// wrote, wrote something.
pub open spec fn wrote_something(written: Seq<nat>) -> bool {
    exists|i: int| 0 <= i < written.len() && #[trigger] written[i] > 0
}

/// Once something was written, nothing more is wanted for good, however much room
/// the storage has; as long as nothing was written, what the storage wants is.
///
/// `states` are the states of a new [`WriteOnce`] before, between and behind a
/// sequence of writes, and `written` tells how many bytes each of them wrote.
pub proof fn law_one_write<'a, S: Storage>(states: Seq<WriteOnce<'a, S>>, written: Seq<nat>)
    requires
        states.len() == written.len() + 1,
        !states[0].did_write@,
        forall|i: int|
            0 <= i < written.len() ==> states[i + 1].did_write@ == (states[i].did_write@
                || #[trigger] written[i] > 0),
    ensures
        states.last().did_write@ == wrote_something(written),
        states.last().space().remaining == (if wrote_something(written) {
            0
        } else {
            states.last().storage.space().remaining
        }),
    decreases written.len(),
{
    if written.len() > 0 {
        let n = written.len() - 1;
        let front = written.drop_last();
        assert forall|i: int| 0 <= i < front.len() implies states.drop_last()[i + 1].did_write@ == (
        states.drop_last()[i].did_write@ || #[trigger] front[i] > 0) by {
            assert(front[i] == written[i]);
        }
        law_one_write(states.drop_last(), front);
        assert(written[n] == written.last());
        if wrote_something(front) {
            let i = choose|i: int| 0 <= i < front.len() && #[trigger] front[i] > 0;
            assert(written[i] > 0);
        }
        if wrote_something(written) && written[n] == 0 {
            let i = choose|i: int| 0 <= i < written.len() && #[trigger] written[i] > 0;
            assert(front[i] > 0);
        }
    }
}

/// What was put in is in the storage, which has room for as much as without the
/// wrapper, and wants as much until something was written.
pub proof fn law_passes_through<'a, S: Storage>(once: WriteOnce<'a, S>)
    ensures
        once.space().written == once.inner().space().written,
        once.space().room == once.inner().space().room,
        once.did_write@ ==> once.space().remaining == 0,
        !once.did_write@ ==> once.space().remaining == once.inner().space().remaining,
{
}

} // verus!
