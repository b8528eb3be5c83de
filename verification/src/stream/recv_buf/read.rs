//! Taking data out of a receive buffer.
use crate::buffer::writer::Storage;
use crate::bytes_spec::bytes_as_slice;
use crate::bytes_spec::bytes_seq;
use crate::stream::error::Error;
use crate::stream::recv_buf::handles_distinct;
use crate::stream::recv_buf::intervals;
use crate::stream::recv_buf::RecvAction;
use crate::stream::recv_buf::RecvBuf;
use crate::stream::sorter::buffered;
use crate::stream::sorter::byte_at;
use crate::stream::sorter::chunks_disjoint;
use crate::stream::sorter::chunks_from;
use crate::stream::sorter::lemma_below_first_gap;
use crate::stream::sorter::lemma_chunk_at;
use crate::stream::sorter::lemma_chunks_from_twice;
use crate::stream::sorter::lemma_pop_front;
use crate::stream::sorter::missing;
use crate::stream::sorter::sorted;
use crate::stream::state::RecvState;
use bytes::Bytes;
use vstd::prelude::*;

verus! {

broadcast use vstd::std_specs::hash::group_hash_axioms;

/// The bytes of several pieces, one after the other.
spec fn joined(pieces: Seq<Bytes>) -> Seq<u8>
    decreases pieces.len(),
{
    if pieces.len() == 0 {
        Seq::empty()
    } else {
        joined(pieces.drop_last()) + bytes_seq(pieces.last())
    }
}

/// The first pieces and the next one are no longer than all.
proof fn lemma_joined(pieces: Seq<Bytes>, i: int)
    requires
        0 <= i < pieces.len(),
    ensures
        joined(pieces.take(i + 1)) == joined(pieces.take(i)) + bytes_seq(pieces[i]),
        joined(pieces.take(i + 1)).len() <= joined(pieces).len(),
    decreases pieces.len(),
{
    assert(pieces.take(i + 1).drop_last() =~= pieces.take(i));
    if i + 1 == pieces.len() {
        assert(pieces.take(i + 1) =~= pieces);
    } else {
        let front = pieces.drop_last();
        assert(front.take(i + 1) =~= pieces.take(i + 1));
        lemma_joined(front, i);
    }
}

/// Writes pieces into a storage.
fn put_pieces<B: Storage>(out: &mut B, pieces: &Vec<Bytes>)
    requires
        old(out).valid(),
        joined(pieces@).len() <= old(out).space().room,
    ensures
        final(out).valid(),
        old(out).space().put(final(out).space(), joined(pieces@)),
{
    let ghost before = out.space();
    proof {
        before.law_put_nothing();
        assert(joined(pieces@.take(0)) =~= Seq::empty());
    }
    for i in 0..pieces.len()
        invariant
            out.valid(),
            joined(pieces@).len() <= before.room,
            before.put(out.space(), joined(pieces@.take(i as int))),
    {
        let ghost mid = out.space();
        proof {
            lemma_joined(pieces@, i as int);
        }
        out.put_slice(bytes_as_slice(&pieces[i]));
        proof {
            before.law_put_in_steps(
                mid,
                out.space(),
                joined(pieces@.take(i as int)),
                bytes_seq(pieces@[i as int]),
            );
        }
    }
    assert(pieces@.take(pieces@.len() as int) =~= pieces@);
}

/// Writes pieces to the front of a slice.
fn fill(out: &mut [u8], pieces: &Vec<Bytes>)
    requires
        joined(pieces@).len() <= old(out)@.len(),
    ensures
        final(out)@ == joined(pieces@) + old(out)@.skip(joined(pieces@).len() as int),
{
    let ghost before = out@;
    let total = out.len();
    let mut len: usize = 0;
    assert(joined(pieces@.take(0)) =~= Seq::empty());
    assert(before =~= joined(pieces@.take(0)) + before.skip(0));
    for i in 0..pieces.len()
        invariant
            out@.len() == total,
            before.len() == total,
            joined(pieces@).len() <= total,
            len == joined(pieces@.take(i as int)).len(),
            out@ == joined(pieces@.take(i as int)) + before.skip(len as int),
    {
        let bytes = bytes_as_slice(&pieces[i]);
        let ghost front = joined(pieces@.take(i as int));
        proof {
            lemma_joined(pieces@, i as int);
        }
        for k in 0..bytes.len()
            invariant
                out@.len() == total,
                before.len() == total,
                len == front.len(),
                len + bytes@.len() <= total,
                out@ == front + bytes@.take(k as int) + before.skip(len + k),
        {
            out[len + k] = bytes[k];
            assert(out@ =~= front + bytes@.take(k + 1) + before.skip(len + k + 1));
        }
        assert(bytes@.take(bytes@.len() as int) =~= bytes@);
        len = len + bytes.len();
    }
    assert(pieces@.take(pieces@.len() as int) =~= pieces@);
}

impl RecvBuf {
    /// Reads contiguous data from the receive buffer.
    ///
    /// Data is written into the given `out` buffer, up to the length of `out`.
    ///
    /// Only contiguous data is removed, starting from offset 0. The offset is
    /// incremented as data is taken out of the receive buffer. If there is no
    /// data at the expected read offset, the `Done` error is returned.
    ///
    /// On success the amount of data read and a flag indicating
    /// if there is no more data in the buffer, are returned as a tuple.
    pub fn emit(&mut self, out: &mut [u8]) -> (r: Result<(usize, bool), Error>)
        requires
            old(self).wf(),
        ensures
            final(self).wf(),
            r == old(self)@.read_result(old(out)@.len()),
            final(self)@ == old(self)@.read(old(out)@.len()),
            final(out)@ == old(self)@.read_out(old(out)@.len()) + old(out)@.skip(
                old(self)@.read_out(old(out)@.len()).len() as int,
            ),
    {
        let (pieces, len, fin) = self.read_pieces(out.len())?;
        fill(out, &pieces);
        Ok((len, fin))
    }

    /// Reads or discards contiguous data from the receive buffer.
    ///
    /// Passing an `action` of `RecvAction::Emit` results in data being
    /// written into the provided storage, up to its capacity.
    ///
    /// Passing an `action` of `RecvAction::Discard` results in up to
    /// the indicated number of bytes being discarded without copying.
    ///
    /// Only contiguous data is removed, starting from offset 0. The offset is
    /// incremented as data is taken out of the receive buffer. If there is no
    /// data at the expected read offset, the `Done` error is returned.
    ///
    /// On success the amount of data read or discarded, and a flag indicating
    /// if there is no more data in the buffer, are returned as a tuple.
    pub fn emit_or_discard<B: Storage>(&mut self, action: RecvAction<'_, B>) -> (r: Result<
        (usize, bool),
        Error,
    >)
        requires
            old(self).wf(),
            action.valid(),
        ensures
            final(self).wf(),
            r == old(self)@.read_result(action.capacity()),
            final(self)@ == old(self)@.read(action.capacity()),
            action matches RecvAction::Emit { out } ==> final(out).valid() && out.space().put(
                final(out).space(),
                old(self)@.read_out(action.capacity()),
            ),
    {
        match action {
            RecvAction::Emit { out } => {
                proof {
                    out.space().law_put_nothing();
                    out.remaining_in_room();
                }
                let (pieces, len, fin) = self.read_pieces(out.remaining_capacity())?;
                put_pieces(out, &pieces);
                Ok((len, fin))
            },
            RecvAction::Discard { len } => {
                let (_, len, fin) = self.read_pieces(len)?;
                Ok((len, fin))
            },
        }
    }

    /// Takes up to `total` bytes of contiguous data. Returns them in pieces,
    /// with how many they are and whether the stream is finished.
    fn read_pieces(&mut self, total: usize) -> (r: Result<(Vec<Bytes>, usize, bool), Error>)
        requires
            old(self).wf(),
        ensures
            final(self).wf(),
            final(self)@ == old(self)@.read(total as nat),
            r matches Ok((pieces, len, fin)) ==> old(self)@.read_result(total as nat) == Ok::<
                (usize, bool),
                Error,
            >((len, fin)) && joined(pieces@) == old(self)@.read_out(total as nat)
                && joined(pieces@).len() <= total,
            r matches Err(e) ==> old(self)@.read_result(total as nat) == Err::<
                (usize, bool),
                Error,
            >(e),
    {
        let ghost state = self@;
        self.check_readable()?;
        let mut pieces: Vec<Bytes> = Vec::new();
        let mut cap: usize = total;
        let mut len: usize = 0;
        let ghost mut popped = false;
        assert(joined(pieces@) =~= state.next_bytes(0));
        while cap > 0 && self.ready()
            invariant
                state.wf(),
                state.ready(),
                state.error is None,
                chunks_disjoint(state.chunks),
                len + cap == total,
                popped ==> total > 0,
                self.mid_read(state, len as int, popped),
                len > 0 ==> popped,
                !popped ==> self@.ready(),
                joined(pieces@) == state.next_bytes(len as nat),
            decreases
                    state.gaps[0].start - self@.off + (if self@.ready() {
                        1int
                    } else {
                        0int
                    }),
        {
            let chunk = self.read_piece(cap, Ghost(state), Ghost(len as int), Ghost(popped));
            len = len + chunk.len();
            cap = cap - chunk.len();
            proof {
                popped = true;
                assert(pieces@.push(chunk).drop_last() =~= pieces@);
            }
            pieces.push(chunk);
        }
        proof {
            if cap > 0 {
                self.lemma_read_all(state, len as int, popped);
            }
        }
        // Update consumed bytes for flow control.
        let fin = self.finish_read(len, Ghost(state), Ghost(total as nat));
        Ok((pieces, len, fin))
    }

    /// Fails when there is nothing to be read. When the stream was reset,
    /// clears its data and returns the error code instead.
    fn check_readable(&mut self) -> (r: Result<(), Error>)
        requires
            old(self).wf(),
        ensures
            final(self).wf(),
            r is Ok <==> old(self)@.ready() && old(self)@.error is None,
            r is Ok ==> *final(self) == *old(self) && final(self).mid_read(old(self)@, 0, false)
                && old(self)@.wf() && chunks_disjoint(old(self)@.chunks),
            r matches Err(e) ==> forall|cap: nat| #[trigger]
                old(self)@.read_result(cap) == Err::<(usize, bool), Error>(e),
            r is Err ==> forall|cap: nat| #[trigger] old(self)@.read(cap) == final(self)@,
    {
        if !self.ready() {
            return Err(Error::Done);
        }
        if let Some(e) = self.error {
            self.data.clear();
            assert(self.chunks() =~= Map::empty());
            return Err(Error::StreamReset(e));
        }
        Ok(())
    }

    /// Tells the flow control how much was read, and returns whether the
    /// stream is finished.
    fn finish_read(
        &mut self,
        len: usize,
        Ghost(state): Ghost<RecvState>,
        Ghost(cap): Ghost<nat>,
    ) -> (r: bool)
        requires
            state.wf(),
            state.ready(),
            state.error is None,
            old(self).mid_read(state, len as int, cap > 0),
            len == cap || len < cap && old(self)@.off == state.gaps[0].start,
        ensures
            final(self).wf(),
            final(self)@ == state.after_read(cap),
            len == state.read_len(cap),
            r == final(self)@.is_fin(),
    {
        proof {
            assert(state.chunks.contains_key(state.off));
            assert(!state.drain);
            assert(self@.off <= state.len) by {
                if state.len < state.gaps[0].start {
                    lemma_below_first_gap(state.gaps, state.len as int);
                    assert(state.gaps[0].start < state.gaps[0].end);
                    assert(missing(state.gaps, state.len as int));
                }
            }
        }
        self.flow_control.add_consumed(len as u64);
        self.is_fin()
    }

    /// Takes the next chunk, or its first `cap` bytes.
    fn read_piece(
        &mut self,
        cap: usize,
        Ghost(state): Ghost<RecvState>,
        Ghost(n): Ghost<int>,
        Ghost(popped): Ghost<bool>,
    ) -> (r: Bytes)
        requires
            old(self).mid_read(state, n, popped),
            old(self)@.ready(),
            chunks_disjoint(state.chunks),
            0 <= n,
            cap > 0,
        ensures
            final(self).mid_read(state, n + bytes_seq(r).len(), true),
            bytes_seq(r).len() <= cap,
            bytes_seq(r).len() > 0 || !final(self)@.ready(),
            state.next_bytes((n + bytes_seq(r).len()) as nat) == state.next_bytes(n as nat)
                + bytes_seq(r),
    {
        let ghost chunks = self@.chunks;
        let ghost off = self@.off;
        let r = self.sorter_pop(cap).unwrap();
        proof {
            let m = bytes_seq(r).len() as int;
            lemma_pop_front(chunks, state.gaps, off, m);
            if popped {
                lemma_chunks_from_twice(state.chunks, off as int, off + m);
            }
            assert forall|x: int| off + m <= x < state.gaps[0].start implies #[trigger] byte_at(
                self@.chunks,
                x,
            ) == byte_at(state.chunks, x) by {
                lemma_below_first_gap(state.gaps, x);
                assert(buffered(chunks, x));
                assert(byte_at(chunks, x) == byte_at(state.chunks, x));
            }
            assert forall|i: int| 0 <= i < m implies byte_at(state.chunks, state.off + (n + i))
                == #[trigger] bytes_seq(r)[i] by {
                assert(byte_at(chunks, off + i) == chunks[off][i]);
                assert(byte_at(chunks, off + i) == byte_at(state.chunks, off + i));
            }
            let whole = state.next_bytes((n + m) as nat);
            let parts = state.next_bytes(n as nat) + bytes_seq(r);
            assert forall|i: int| 0 <= i < n + m implies whole[i] == parts[i] by {
                if i >= n {
                    assert(bytes_seq(r)[i - n] == byte_at(state.chunks, state.off + (n + (i
                        - n))));
                }
            }
            assert(whole =~= parts);
            if m == 0 {
                assert(!self@.chunks.contains_key(off));
            }
        }
        r
    }

    /// Remove and return up to `max_size` bytes starting at `self.off`.
    fn sorter_pop(&mut self, max_size: usize) -> (r: Result<Bytes, Error>)
        requires
            sorted(old(self).chunks(), intervals(old(self).nodes()), old(self).off),
            max_size > 0,
            forall|k: u64| #[trigger]
                old(self).chunks().contains_key(k) && k != old(self).off
                    ==> old(self).chunks()[k].len() > 0,
        ensures
            final(self).same_but_read(old(self)),
            !old(self).chunks().contains_key(old(self).off) ==> r == Err::<Bytes, Error>(
                Error::Done,
            ) && final(self).chunks() == old(self).chunks() && final(self).off == old(self).off,
            old(self).chunks().contains_key(old(self).off) ==> {
                let front = old(self).chunks()[old(self).off];
                let n = if max_size < front.len() {
                    max_size as int
                } else {
                    front.len() as int
                };
                &&& r matches Ok(bytes) && bytes_seq(bytes) == front.take(n)
                &&& final(self).off == old(self).off + n
                &&& final(self).chunks() == chunks_from(old(self).chunks(), old(self).off + n)
            },
    {
        let ghost chunks = self.chunks();
        let ghost off = self.off;
        let ghost held = self.data@;
        let mut chunk = match self.data.remove(&self.off) {
            Some(b) => b,
            None => {
                assert(self.chunks() =~= chunks);
                return Err(Error::Done);
            },
        };
        let ghost front = bytes_seq(chunk);
        proof {
            assert(chunks.contains_key(off) && chunks[off] == front);
            assert(self.data@ == held.remove(off));
            assert(self.chunks() =~= chunks.remove(off));
            lemma_pop_front(
                chunks,
                intervals(self.nodes()),
                off,
                if max_size < front.len() {
                    max_size as int
                } else {
                    front.len() as int
                },
            );
        }
        if max_size < chunk.len() {
            let out = chunk.split_to(max_size);
            self.off = self.off + max_size as u64;
            self.data.insert(self.off, chunk);
            proof {
                assert(self.chunks() =~= chunks.remove(off).insert(self.off, front.skip(
                    max_size as int,
                )));
            }
            Ok(out)
        } else {
            self.off = self.off + chunk.len() as u64;
            assert(front.take(front.len() as int) =~= front);
            Ok(chunk)
        }
    }

    /// Whether the buffer is `state` after `n` bytes were read, but for the
    /// flow control, which has not been told yet. `popped` tells whether a
    /// chunk was taken.
    spec fn mid_read(&self, state: RecvState, n: int, popped: bool) -> bool {
        &&& handles_distinct(self.nodes())
        &&& self@ == (RecvState { chunks: self@.chunks, off: self@.off, ..state })
        &&& self@.off == state.off + n
        &&& if popped {
            self@.chunks == chunks_from(state.chunks, state.off + n)
        } else {
            n == 0 && self@.chunks == state.chunks
        }
        &&& sorted(self@.chunks, state.gaps, self@.off)
        &&& forall|k: u64| #[trigger]
            self@.chunks.contains_key(k) && (popped || k != self@.off) ==> self@.chunks[k].len() > 0
        &&& forall|x: int|
            self@.off <= x < state.gaps[0].start ==> #[trigger] byte_at(self@.chunks, x) == byte_at(
                state.chunks,
                x,
            )
    }

    /// Where reading stops short of its capacity, everything in front of the
    /// first missing byte has been read.
    proof fn lemma_read_all(&self, state: RecvState, n: int, popped: bool)
        requires
            self.mid_read(state, n, popped),
            !self@.ready(),
        ensures
            self@.off == state.gaps[0].start,
    {
        let off = self@.off;
        if off < state.gaps[0].start {
            lemma_below_first_gap(state.gaps, off as int);
            assert(state.gaps[0].start < state.gaps[0].end);
            lemma_chunk_at(self@.chunks, state.gaps, off, off);
        }
    }
}

} // verus!
