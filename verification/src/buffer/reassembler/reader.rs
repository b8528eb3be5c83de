//! Reading what has been put together.
use crate::buffer::chunk::Chunk;
use crate::buffer::reader::storage::min_len;
use crate::buffer::reader::storage::smaller;
use crate::buffer::reader::storage::Buffered;
use crate::buffer::reader::Reader;
use crate::buffer::reader::Storage;
use crate::buffer::reassembler::front_after;
use crate::buffer::reassembler::from_one_slot;
use crate::buffer::reassembler::front_read;
use crate::buffer::reassembler::lemma_front_read_twice;
use crate::buffer::reassembler::lemma_front_taken;
use crate::buffer::reassembler::lemma_ready_end;
use crate::buffer::reassembler::probe;
use crate::buffer::reassembler::ready;
use crate::buffer::reassembler::slot::Slot;
use crate::buffer::reassembler::slot_states;
use crate::buffer::reassembler::with_front;
use crate::buffer::reassembler::Reassembler;
use crate::buffer::writer;
use crate::bytes_spec::bytes_as_slice;
use crate::bytes_spec::bytes_mut_from_slice;
use crate::bytes_spec::bytes_mut_seq;
use crate::varint::VarInt;
use bytes::BytesMut;
use core::convert::Infallible;
use vstd::prelude::*;

verus! {

impl Reassembler {
    /// Returns true if there is data at the front.
    fn front_is_occupied(&self) -> (r: bool)
        requires
            self.wf(),
        ensures
            r == (self.slots().len() > 0 && self.slots()[0].bytes.len() > 0
                && self.slots()[0].start == self.start_offset()),
    {
        if self.slots.len() == 0 {
            return false;
        }
        let slot = &self.slots[0];
        assert(self.slots()[0] == slot@);
        slot.is_occupied(self.cursors.start_offset)
    }

    /// Reading nothing leaves the slots as they are.
    proof fn lemma_nothing_read(&self)
        ensures
            front_read(self.slots(), self.slots(), self.start_offset(), self.size()),
    {
        if self.slots().len() > 0 {
            assert(self.slots()[0].skipped(0) =~= self.slots()[0]);
        }
    }

    /// Puts the front slot back after `len` bytes were taken from it, unless
    /// it is used up.
    fn front_taken(&mut self, slot: Slot, len: usize, Ghost(before): Ghost<Reassembler>)
        requires
            before.wf(),
            before.slots().len() > 0,
            before.slots()[0].start == before.start_offset(),
            before.slots()[0].bytes.len() > 0,
            old(self).slots@ == before.slots@.skip(1),
            old(self).cursors == before.cursors,
            len <= before.slots()[0].bytes.len(),
            slot@ == before.slots()[0].skipped(len as int) || len == before.slots()[0].bytes.len()
                && slot@ == before.slots()[0].emptied() && (before.size() matches Some(size) && size
                <= before.slots()[0].end),
        ensures
            final(self).wf(),
            before.buffered().advanced(final(self).buffered()),
            before.buffered().taken(final(self).buffered()) == len,
            before.buffered().taken_bytes(final(self).buffered()) == before.slots()[0].bytes.take(
                len as int,
            ),
            final(self).slots() == with_front(before.slots(), slot@),
            front_read(
                before.slots(),
                final(self).slots(),
                final(self).start_offset(),
                before.size(),
            ),
    {
        let ghost front = slot@;
        if !slot.should_drop() {
            self.slots.push_front(slot);
        }
        probe::pop(self.cursors.start_offset, len);
        proof {
            let slots = before.slots();
            let after = slot_states(self.slots@);
            assert(after =~= with_front(slots, front));
            lemma_front_taken(
                slots,
                before.start_offset(),
                before.size(),
                len as int,
                front,
                after,
            );
            lemma_ready_end(slots, before.start_offset(), before.start_offset(), before.size());
        }
        self.cursors.start_offset = self.cursors.start_offset + len as u64;
    }

    /// Takes a chunk of at most `watermark` bytes.
    fn take_chunk(&mut self, watermark: usize) -> (r: BytesMut)
        requires
            old(self).wf(),
        ensures
            final(self).wf(),
            old(self).buffered().advanced(final(self).buffered()),
            bytes_mut_seq(r) == old(self).buffered().taken_bytes(final(self).buffered()),
            bytes_mut_seq(r).len() <= watermark,
            bytes_mut_seq(r).len() == (if old(self).buffered().data.len() > 0 {
                min_len(old(self).slots()[0].bytes.len(), watermark as nat)
            } else {
                0
            }),
            final(self).slots() == (if old(self).buffered().data.len() > 0 {
                with_front(
                    old(self).slots(),
                    front_after(old(self).slots()[0], watermark as nat, old(self).size()),
                )
            } else {
                old(self).slots()
            }),
            front_read(
                old(self).slots(),
                final(self).slots(),
                final(self).start_offset(),
                old(self).size(),
            ),
    {
        let ghost before = *self;
        // make sure the slot has some data
        if !self.front_is_occupied() {
            proof {
                self.buffered().law_take_nothing();
                self.lemma_nothing_read();
            }
            return BytesMut::new();
        }
        let mut slot = self.slots.pop_front().unwrap();
        assert(slot@ == before.slots()[0]);
        assert(slot@.wf());
        // if we have a final size and this slot overlaps it then return the
        // entire thing
        let overlaps_end = match self.cursors.final_size() {
            Some(final_size) => final_size <= slot.end_allocated() && watermark
                >= slot.buffered_len(),
            None => false,
        };
        let ghost bytes = slot@.bytes;
        let chunk = if overlaps_end {
            slot.consume()
        } else {
            match slot.read_chunk(watermark) {
                Ok(chunk) => match chunk {
                    Chunk::Owned(chunk) => chunk,
                    Chunk::Shared(chunk) => bytes_mut_from_slice(bytes_as_slice(&chunk)),
                    Chunk::Slice(chunk) => bytes_mut_from_slice(chunk),
                },
                Err(_) => BytesMut::new(),
            }
        };
        assert(bytes_mut_seq(chunk) =~= bytes.take(bytes_mut_seq(chunk).len() as int));
        self.front_taken(slot, chunk.len(), Ghost(before));
        chunk
    }
}

impl Storage for Reassembler {
    type Error = Infallible;

    open spec fn valid(&self) -> bool {
        self.wf()
    }

    open spec fn buffered(&self) -> Buffered {
        let data = ready(self.slots(), self.start_offset());
        Buffered {
            data,
            end: self.start_offset() + data.len(),
            fin: self.size(),
            zeroes: false,
            fallible: false,
        }
    }

    open spec fn chunk_len(&self, watermark: usize) -> usize {
        if self.buffered().data.len() > 0 {
            min_len(self.slots()[0].bytes.len(), watermark as nat) as usize
        } else {
            0
        }
    }

    fn buffered_len(&self) -> usize {
        self.len()
    }

    fn buffer_is_empty(&self) -> bool {
        self.is_empty()
    }

    fn read_chunk(&mut self, watermark: usize) -> (r: Result<Chunk<'_>, Infallible>)
        ensures
            r matches Ok(chunk) && chunk is Owned && chunk@.len() == (
            if old(self).buffered().data.len() > 0 {
                min_len(old(self).slots()[0].bytes.len(), watermark as nat)
            } else {
                0
            }),
            final(self).slots() == (if old(self).buffered().data.len() > 0 {
                with_front(
                    old(self).slots(),
                    front_after(old(self).slots()[0], watermark as nat, old(self).size()),
                )
            } else {
                old(self).slots()
            }),
            front_read(
                old(self).slots(),
                final(self).slots(),
                final(self).start_offset(),
                old(self).size(),
            ),
    {
        Ok(Chunk::Owned(self.take_chunk(watermark)))
    }

    fn track_partial_copy_into<Dest: writer::Storage>(
        &mut self,
        dest: &mut Dest,
        limit: usize,
    ) -> (r: Result<(usize, Chunk<'_>), Infallible>)
        ensures
            r matches Ok((len, chunk)) && chunk is Owned && (chunk@.len() == 0
                <==> old(self).buffered().data.len() == 0 || old(dest).space().remaining == 0
                || limit == 0),
            r matches Ok((len, chunk)) && (chunk@.len() > 0 ==> from_one_slot(
                old(self).slots(),
                final(self).start_offset(),
                chunk@.len() as int,
            )),
            front_read(
                old(self).slots(),
                final(self).slots(),
                final(self).start_offset(),
                old(self).size(),
            ),
    {
        let ghost slots = self.slots();
        let ghost size = self.size();
        let ghost start = self.buffered();
        let ghost written = dest.space().written;
        let ghost remaining0 = dest.space().remaining;
        let ghost wanted = min_len(remaining0, limit as nat);
        let mut prev = BytesMut::new();
        proof {
            start.law_take_nothing();
            self.lemma_nothing_read();
            assert(dest.space().written + bytes_mut_seq(prev) =~= dest.space().written);
            dest.remaining_in_room();
        }
        // ensure we have enough capacity in the destination buf
        if !dest.has_remaining_capacity() || limit == 0 {
            return Ok((0, Chunk::Owned(prev)));
        }
        let mut flushed: usize = 0;
        loop
            invariant
                start == old(self).buffered(),
                slots == old(self).slots(),
                size == old(self).size(),
                size == self.size(),
                old(self).wf(),
                front_read(slots, self.slots(), self.start_offset(), size),
                written == old(dest).space().written,
                remaining0 == old(dest).space().remaining,
                wanted == min_len(remaining0, limit as nat),
                wanted > 0,
                self.wf(),
                dest.valid(),
                start.advanced(self.buffered()),
                written.is_prefix_of(dest.space().written),
                dest.space().written + bytes_mut_seq(prev) == written + start.taken_bytes(
                    self.buffered(),
                ),
                flushed == start.taken(self.buffered()) - bytes_mut_seq(prev).len(),
                start.taken(self.buffered()) <= wanted,
                bytes_mut_seq(prev).len() <= dest.space().room,
                bytes_mut_seq(prev).len() == 0 ==> start.taken(self.buffered()) == 0
                    && dest.space().remaining == remaining0,
                dest.space().room + flushed >= old(dest).space().room,
                dest.space().remaining == 0 || flushed + dest.space().remaining <= remaining0,
                bytes_mut_seq(prev).len() > 0 ==> from_one_slot(
                    slots,
                    self.start_offset(),
                    bytes_mut_seq(prev).len() as int,
                ),
                self.buffered().data.len() > 0 ==> self.slots()[0].start == slots[slots.len()
                    - self.slots().len()].start,
            decreases self.buffered().data.len(),
        {
            let ghost before = self.buffered();
            let ghost mid = self.slots();
            let ghost mid_offset = self.start_offset();
            proof {
                dest.remaining_in_room();
            }
            let remaining = smaller(dest.remaining_capacity(), limit - flushed);
            if remaining < prev.len() {
                return Ok((flushed, Chunk::Owned(prev)));
            }
            let watermark = remaining - prev.len();
            let chunk = self.take_chunk(watermark);
            proof {
                start.law_take_in_steps(before, self.buffered());
                lemma_front_read_twice(
                    slots,
                    mid,
                    self.slots(),
                    mid_offset,
                    self.start_offset(),
                    size,
                );
            }
            // if the chunk is empty then return the previous value
            if chunk.len() == 0 {
                return Ok((flushed, Chunk::Owned(prev)));
            }
            proof {
                let gone = slots.len() - mid.len();
                assert(slots[gone].start == mid_offset);
                assert(slots[gone].filled() == mid[0].filled());
                assert(from_one_slot(
                    slots,
                    self.start_offset(),
                    bytes_mut_seq(chunk).len() as int,
                ));
            }
            // flush the previous chunk if needed
            let ghost held = dest.space().written;
            let ghost flush = bytes_mut_seq(prev);
            if prev.len() > 0 {
                flushed = flushed + prev.len();
                dest.put_bytes_mut(prev);
            }
            proof {
                assert(dest.space().written =~= held + flush);
                assert(dest.space().written + bytes_mut_seq(chunk) =~= written + start.taken_bytes(
                    self.buffered(),
                ));
            }
            // if the chunk is exactly the same size as the watermark, then return
            // it
            if chunk.len() == watermark {
                return Ok((flushed, Chunk::Owned(chunk)));
            }
            // store the chunk for another iteration, in case we can pull more
            prev = chunk;
        }
    }

    fn track_copy_into<Dest: writer::Storage>(
        &mut self,
        dest: &mut Dest,
        limit: usize,
    ) -> (r: Result<usize, Infallible>)
        ensures
            r is Ok,
            front_read(
                old(self).slots(),
                final(self).slots(),
                final(self).start_offset(),
                old(self).size(),
            ),
    {
        let ghost slots = self.slots();
        let ghost size = self.size();
        let ghost start = self.buffered();
        let ghost written = dest.space().written;
        let ghost remaining0 = dest.space().remaining;
        // if the destination wants bytes then use the partial copy logic instead
        if Dest::specializes_bytes() || Dest::specializes_bytes_mut() {
            let (len, chunk) = self.track_partial_copy_into(dest, limit)?;
            let total = len + chunk.len();
            dest.put_chunk(chunk);
            return Ok(total);
        }
        proof {
            start.law_take_nothing();
            self.lemma_nothing_read();
            assert(dest.space().written =~= written + Seq::<u8>::empty());
        }
        let mut len: usize = 0;
        loop
            invariant
                start == old(self).buffered(),
                slots == old(self).slots(),
                size == old(self).size(),
                size == self.size(),
                old(self).wf(),
                front_read(slots, self.slots(), self.start_offset(), size),
                written == old(dest).space().written,
                remaining0 == old(dest).space().remaining,
                self.wf(),
                dest.valid(),
                start.advanced(self.buffered()),
                dest.space().written == written + start.taken_bytes(self.buffered()),
                len == start.taken(self.buffered()),
                len <= min_len(remaining0, limit as nat),
                dest.space().room + len >= old(dest).space().room,
                dest.space().remaining == 0 || len + dest.space().remaining <= remaining0,
            decreases self.buffered().data.len(),
        {
            let ghost before = *self;
            // ensure we have enough capacity in the destination buf
            if !dest.has_remaining_capacity() || len == limit {
                return Ok(len);
            }
            // make sure the slot has some data
            if !self.front_is_occupied() {
                return Ok(len);
            }
            let mut slot = self.slots.pop_front().unwrap();
            assert(slot@ == before.slots()[0]);
            assert(slot@.wf());
            let taken = slot.track_copy_into(dest, limit - len)?;
            self.front_taken(slot, taken, Ghost(before));
            proof {
                start.law_take_in_steps(before.buffered(), self.buffered());
                lemma_front_read_twice(
                    slots,
                    before.slots(),
                    self.slots(),
                    before.start_offset(),
                    self.start_offset(),
                    size,
                );
                assert(dest.space().written =~= written + start.taken_bytes(self.buffered()));
            }
            len = len + taken;
        }
    }

    fn partial_copy_into<Dest: writer::Storage>(&mut self, dest: &mut Dest) -> (r: Result<
        Chunk<'_>,
        Infallible,
    >)
        ensures
            r matches Ok(chunk) && chunk is Owned && (chunk@.len() == 0
                <==> old(self).buffered().data.len() == 0 || old(dest).space().remaining == 0),
            r matches Ok(chunk) && (chunk@.len() > 0 ==> from_one_slot(
                old(self).slots(),
                final(self).start_offset(),
                chunk@.len() as int,
            )),
            front_read(
                old(self).slots(),
                final(self).slots(),
                final(self).start_offset(),
                old(self).size(),
            ),
    {
        let limit = dest.remaining_capacity();
        let (_, chunk) = self.track_partial_copy_into(dest, limit)?;
        Ok(chunk)
    }

    fn copy_into<Dest: writer::Storage>(&mut self, dest: &mut Dest) -> (r: Result<(), Infallible>)
        ensures
            r is Ok,
            front_read(
                old(self).slots(),
                final(self).slots(),
                final(self).start_offset(),
                old(self).size(),
            ),
    {
        let limit = dest.remaining_capacity();
        let _ = self.track_copy_into(dest, limit)?;
        Ok(())
    }
}

impl Reader for Reassembler {
    proof fn offsets_fit(&self) {
        lemma_ready_end(self.slots(), self.start_offset(), self.start_offset(), self.size());
    }

    fn current_offset(&self) -> VarInt {
        VarInt::new_unchecked(self.cursors.start_offset)
    }

    fn final_offset(&self) -> Option<VarInt> {
        match self.final_size() {
            Some(size) => Some(VarInt::new_unchecked(size)),
            None => None,
        }
    }

    /// Skips the data until a certain offset. Where the contiguous data does
    /// not reach that far, all of it is skipped; what lies behind a hole stays.
    fn skip_until(&mut self, offset: VarInt) -> (r: Result<(), Infallible>)
        ensures
            r is Ok,
            old(self).buffered().advanced(final(self).buffered()),
            front_read(
                old(self).slots(),
                final(self).slots(),
                final(self).start_offset(),
                old(self).size(),
            ),
    {
        let ghost slots = self.slots();
        let ghost size = self.size();
        let ghost start = self.buffered();
        let target = offset.as_u64();
        proof {
            start.law_take_nothing();
            self.lemma_nothing_read();
        }
        loop
            invariant
                start == old(self).buffered(),
                slots == old(self).slots(),
                size == old(self).size(),
                size == self.size(),
                old(self).wf(),
                self.wf(),
                front_read(slots, self.slots(), self.start_offset(), size),
                start.advanced(self.buffered()),
                self.buffered().offset() <= start.offset() || self.buffered().offset() <= offset@,
                target == offset@,
            ensures
                self.wf(),
                front_read(slots, self.slots(), self.start_offset(), size),
                start.advanced(self.buffered()),
                self.buffered().offset() <= start.offset() || self.buffered().offset() <= offset@,
                self.buffered().offset() >= offset@ || self.buffered().data.len() == 0,
            decreases self.buffered().data.len(),
        {
            if target <= self.cursors.start_offset || self.is_empty() {
                break;
            }
            let len = target - self.cursors.start_offset;
            let watermark: usize = if len > u32::MAX as u64 {
                u32::MAX as usize
            } else {
                len as usize
            };
            let ghost before = *self;
            let _ = self.take_chunk(watermark);
            proof {
                start.law_take_in_steps(before.buffered(), self.buffered());
                lemma_front_read_twice(
                    slots,
                    before.slots(),
                    self.slots(),
                    before.start_offset(),
                    self.start_offset(),
                    size,
                );
            }
        }
        Ok(())
    }

    fn is_virtually_buffered(&self) -> bool {
        false
    }
}

} // verus!
