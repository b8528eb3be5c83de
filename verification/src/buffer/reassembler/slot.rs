//! A piece of the stream, received or still to come.
use crate::buffer::chunk::Chunk;
use crate::buffer::reader::storage::min_len;
use crate::buffer::reader::storage::smaller;
use crate::buffer::reader::storage::Buffered;
use crate::buffer::reader::Reader;
use crate::buffer::reader::Storage;
use crate::buffer::reassembler::probe;
use crate::buffer::writer;
use crate::buffer::writer::storage::Bounded;
use crate::buffer::zero::zero_seq;
use crate::buffer::zero::zeroes;
use crate::buffer::zero::ZERO_CHUNK_LEN;
use crate::bytes_spec::bytes_mut_adjoin;
use crate::bytes_spec::bytes_mut_advance;
use crate::bytes_spec::bytes_mut_as_slice;
use crate::bytes_spec::bytes_mut_seq;
use crate::varint::VarInt;
use crate::varint::MAX_VARINT_VALUE;
use bytes::BytesMut;
use core::convert::Infallible;
use vstd::prelude::*;

verus! {

/// What a slot holds.
#[verifier::ext_equal]
pub struct SlotState {
    /// The stream offset of the first byte.
    pub start: int,
    /// The stream offset that the slot reaches up to when it is full.
    pub end: int,
    /// What was received so far, from the start on.
    pub bytes: Seq<u8>,
    /// Whether the bytes are zeroes that are not held in memory.
    pub is_virtual: bool,
}

impl SlotState {
    /// The stream offset just past what was received.
    pub open spec fn filled(self) -> int {
        self.start + self.bytes.len()
    }

    /// What holds of every slot: it is not longer than it may be, holds no
    /// more than fits, and its offsets are stream offsets.
    pub open spec fn wf(self) -> bool {
        &&& 0 <= self.start
        &&& self.filled() <= self.end <= MAX_VARINT_VALUE
        &&& self.end - self.start <= ZERO_CHUNK_LEN
        &&& self.is_virtual ==> self.bytes == zero_seq(self.bytes.len())
    }

    /// The slot without its first `len` bytes, received or not.
    pub open spec fn skipped(self, len: int) -> SlotState {
        SlotState {
            start: self.start + len,
            bytes: if len <= self.bytes.len() {
                self.bytes.skip(len)
            } else {
                Seq::empty()
            },
            ..self
        }
    }

    /// The slot with what `next`, which begins where it ends, has behind it.
    pub open spec fn joined(self, next: SlotState) -> SlotState {
        SlotState { end: next.end, bytes: self.bytes + next.bytes, ..self }
    }

    /// The slot with nothing left in it.
    pub open spec fn emptied(self) -> SlotState {
        SlotState { start: self.end, bytes: Seq::empty(), ..self }
    }
}

/// Possible states for slots in the reassembler's queue
#[derive(PartialEq, Eq, Debug)]
pub struct Slot {
    start: u64,
    end: u64,
    data: BytesMut,
    virtual_len: Option<usize>,
}

impl View for Slot {
    type V = SlotState;

    closed spec fn view(&self) -> SlotState {
        SlotState {
            start: self.start as int,
            end: self.end as int,
            bytes: match self.virtual_len {
                Some(len) => zero_seq(len as nat),
                None => bytes_mut_seq(self.data),
            },
            is_virtual: self.virtual_len is Some,
        }
    }
}

impl Slot {
    /// Creates a slot from `start` to `end` that holds `data`.
    pub fn new(start: u64, end: u64, data: BytesMut) -> (r: Self)
        requires
            start + bytes_mut_seq(data).len() <= end <= MAX_VARINT_VALUE,
            end - start <= ZERO_CHUNK_LEN,
        ensures
            r@ == (SlotState {
                start: start as int,
                end: end as int,
                bytes: bytes_mut_seq(data),
                is_virtual: false,
            }),
            r@.wf(),
    {
        probe::allocated(start, (end - start) as usize);
        Self { start, end, data, virtual_len: None }
    }

    /// Creates an empty slot from `start` to `end` that only counts.
    pub fn new_virtual(start: u64, end: u64) -> (r: Self)
        requires
            start <= end <= MAX_VARINT_VALUE,
            end - start <= ZERO_CHUNK_LEN,
        ensures
            r@ == (SlotState {
                start: start as int,
                end: end as int,
                bytes: Seq::empty(),
                is_virtual: true,
            }),
            r@.wf(),
    {
        let r = Self { start, end, data: BytesMut::new(), virtual_len: Some(0) };
        assert(r@.bytes =~= Seq::empty());
        assert(Seq::<u8>::empty() =~= zero_seq(0));
        r
    }

    /// Creates a new `Slot` with only offset and length, without allocating
    /// payload data. This is useful for benchmarking where actual payload
    /// is not needed. The slot maintains all invariants but has no backing
    /// data allocation.
    pub fn from_len(start: u64, len: usize) -> (r: Self)
        requires
            start + len <= MAX_VARINT_VALUE,
            len <= ZERO_CHUNK_LEN,
        ensures
            r@ == (SlotState {
                start: start as int,
                end: start + len,
                bytes: zero_seq(len as nat),
                is_virtual: true,
            }),
            r@.wf(),
    {
        let end = start + len as u64;
        Self { start, end, data: BytesMut::new(), virtual_len: Some(len) }
    }

    /// Returns how many bytes were received and not yet taken.
    pub fn buffered_len(&self) -> (r: usize)
        ensures
            r == self@.bytes.len(),
    {
        match self.virtual_len {
            Some(len) => len,
            None => self.data.len(),
        }
    }

    /// Returns true if the slot only counts its bytes.
    pub fn is_virtual(&self) -> (r: bool)
        ensures
            r == self@.is_virtual,
    {
        self.virtual_len.is_some()
    }

    /// Holds the bytes in memory.
    fn ensure_real(&mut self)
        requires
            old(self)@.wf(),
        ensures
            final(self)@ == (SlotState { is_virtual: false, ..old(self)@ }),
    {
        let len = match self.virtual_len {
            Some(len) => len,
            None => return,
        };
        self.virtual_len = None;
        let mut data = BytesMut::with_capacity((self.end - self.start) as usize);
        data.resize(len, 0);
        probe::allocated(self.start, (self.end - self.start) as usize);
        self.data = data;
        assert(self@.bytes =~= zero_seq(len as nat));
    }

    /// Returns true if the slot already holds all that it can.
    pub fn is_full(&self) -> (r: bool)
        requires
            self@.wf(),
        ensures
            r == (self@.filled() == self@.end),
    {
        self.end() == self.end_allocated()
    }

    /// Returns true if the slot holds nothing.
    pub fn is_empty(&self) -> (r: bool)
        ensures
            r == (self@.bytes.len() == 0),
    {
        self.buffered_len() == 0
    }

    /// Returns true if the slot holds the byte at `prev_offset` first.
    pub fn is_occupied(&self, prev_offset: u64) -> (r: bool)
        ensures
            r == (self@.bytes.len() > 0 && self@.start == prev_offset),
    {
        !self.is_empty() && self.start() == prev_offset
    }

    /// Returns the bytes that the slot holds.
    pub fn as_slice(&self) -> (r: &[u8])
        requires
            self@.wf(),
        ensures
            r@ == self@.bytes,
    {
        match self.virtual_len {
            Some(len) => zeroes(len),
            None => bytes_mut_as_slice(&self.data),
        }
    }

    /// Returns the stream offset of the first byte.
    pub fn start(&self) -> (r: u64)
        ensures
            r == self@.start,
    {
        self.start
    }

    /// Returns the stream offset just past what was received.
    pub fn end(&self) -> (r: u64)
        requires
            self@.wf(),
        ensures
            r == self@.filled(),
    {
        self.start + self.buffered_len() as u64
    }

    /// Returns the stream offset that the slot reaches up to when it is full.
    pub fn end_allocated(&self) -> (r: u64)
        ensures
            r == self@.end,
    {
        self.end
    }

    /// Takes all bytes, and leaves nothing in the slot.
    pub fn consume(&mut self) -> (r: BytesMut)
        requires
            old(self)@.wf(),
        ensures
            bytes_mut_seq(r) == old(self)@.bytes,
            final(self)@ == old(self)@.emptied(),
            final(self)@.wf(),
    {
        if let Some(len) = self.virtual_len {
            let mut data = BytesMut::with_capacity(len);
            data.resize(len, 0);
            self.virtual_len = Some(0);
            self.start = self.end;
            assert(bytes_mut_seq(data) =~= zero_seq(len as nat));
            assert(zero_seq(0) =~= Seq::<u8>::empty());
            return data;
        }
        let mut data = BytesMut::new();
        core::mem::swap(&mut self.data, &mut data);
        self.start = self.end;
        data
    }

    /// Drops up to `watermark` bytes and returns how many it were.
    pub fn consume_len(&mut self, watermark: usize) -> (r: usize)
        requires
            old(self)@.wf(),
        ensures
            r == min_len(old(self)@.bytes.len(), watermark as nat),
            final(self)@ == old(self)@.skipped(r as int),
            final(self)@.wf(),
    {
        let mut len: usize = self.buffered_len();
        if watermark < len {
            len = watermark;
        }
        self.skip(len as u64);
        len
    }

    /// Drops all bytes, leaves nothing in the slot, and returns how many bytes
    /// there were.
    pub fn consume_all_buffered(&mut self) -> (r: usize)
        requires
            old(self)@.wf(),
        ensures
            r == old(self)@.bytes.len(),
            final(self)@ == old(self)@.emptied(),
            final(self)@.wf(),
    {
        let len = self.buffered_len();
        if self.virtual_len.is_some() {
            self.virtual_len = Some(0);
        } else {
            self.data = BytesMut::new();
        }
        self.start = self.end;
        assert(zero_seq(0) =~= Seq::<u8>::empty());
        len
    }

    /// Drops the first `len` bytes of the slot, received or not.
    pub fn skip(&mut self, len: u64)
        requires
            old(self)@.wf(),
            len <= old(self)@.end - old(self)@.start,
        ensures
            final(self)@ == old(self)@.skipped(len as int),
            final(self)@.wf(),
    {
        let ghost before = self@;
        if let Some(buffered_len) = self.virtual_len {
            self.virtual_len = Some(buffered_len.saturating_sub(len as usize));
            self.start = self.start + len;
            assert(self@.bytes =~= before.skipped(len as int).bytes);
            return;
        }
        // trim off the data buffer
        let to_advance = len as usize;
        // extend the write cursor if the length extends beyond the
        // initialized offset
        if to_advance > self.data.len() {
            self.data.resize(to_advance, 0);
        }
        bytes_mut_advance(&mut self.data, to_advance);
        // advance the start position
        self.start = self.start + len;
        assert(self@.bytes =~= before.skipped(len as int).bytes);
    }

    /// Indicates the slot isn't capable of storing any more data and should be
    /// dropped
    pub fn should_drop(&self) -> (r: bool)
        ensures
            r == (self@.start == self@.end),
    {
        self.start() == self.end_allocated()
    }

    /// Appends a slot that begins where this one, which is full, ends.
    pub fn unsplit(&mut self, next: Self)
        requires
            old(self)@.wf(),
            next@.wf(),
            old(self)@.is_virtual == next@.is_virtual,
            old(self)@.filled() == old(self)@.end,
            old(self)@.end == next@.start,
            next@.end - old(self)@.start <= ZERO_CHUNK_LEN,
        ensures
            final(self)@ == old(self)@.joined(next@),
            final(self)@.wf(),
    {
        let ghost before = self@;
        if let Some(next_len) = next.virtual_len {
            if let Some(current_len) = self.virtual_len {
                self.virtual_len = Some(current_len + next_len);
                self.end = next.end;
                assert(self@.bytes =~= before.bytes + next@.bytes);
                return;
            }
        }
        self.data.unsplit(next.data);
        self.end = next.end;
    }

    /// Returns true if `unsplit` with `next` takes no copying: both only count,
    /// or the memory of `next` begins where that of this slot ends. Of where
    /// two buffers lie nothing is known, so neither is what is returned for
    /// two slots that hold their bytes in memory.
    pub fn can_unsplit(&self, next: &Self) -> (r: bool)
        ensures
            self@.is_virtual || next@.is_virtual ==> r == (self@.is_virtual && next@.is_virtual),
    {
        self.can_unsplit_if(next, bytes_mut_adjoin(&self.data, &next.data))
    }

    /// Returns true if `unsplit` with `next` takes no copying, where
    /// `adjoining` tells whether the memory of `next` begins where that of this
    /// slot ends.
    pub fn can_unsplit_if(&self, next: &Self, adjoining: bool) -> (r: bool)
        ensures
            r == (if self@.is_virtual || next@.is_virtual {
                self@.is_virtual && next@.is_virtual
            } else {
                adjoining
            }),
    {
        if self.virtual_len.is_some() || next.virtual_len.is_some() {
            return self.virtual_len.is_some() && next.virtual_len.is_some();
        }
        adjoining
    }
}

/// What becomes of a slot and of a reader when the reader's data is written into
/// the slot.
pub struct SlotWrite {
    /// The slot afterwards.
    pub slot: SlotState,
    /// A new slot for data that does not join what the slot holds.
    pub split: Option<SlotState>,
    /// How many bytes were written.
    pub len: nat,
    /// Whether the slot was filled up to its end.
    pub filled: bool,
}

impl SlotState {
    /// What becomes of the slot when data that begins at `offset` is written
    /// into it; `zeroes_only` tells whether the data is zeroes not held in
    /// memory. What lies in front of the end of what the slot holds has been
    /// skipped.
    pub open spec fn write(self, offset: int, data: Seq<u8>, zeroes_only: bool) -> SlotWrite {
        if data.len() == 0 || offset >= self.end || self.filled() == self.end {
            SlotWrite { slot: self, split: None, len: 0, filled: false }
        } else {
            let len = min_len((self.end - offset) as nat, data.len());
            let is_virtual = self.is_virtual && zeroes_only;
            let filled = offset + len == self.end;
            if offset == self.filled() {
                SlotWrite {
                    slot: SlotState { bytes: self.bytes + data.take(len as int), is_virtual, ..self
                    },
                    split: None,
                    len,
                    filled,
                }
            } else {
                SlotWrite {
                    slot: SlotState { end: offset, is_virtual, ..self },
                    split: Some(
                        SlotState {
                            start: offset,
                            end: self.end,
                            bytes: data.take(len as int),
                            is_virtual,
                        },
                    ),
                    len,
                    filled,
                }
            }
        }
    }
}

/// What is left behind when a reader's data was written into a slot.
pub struct SlotFill {
    /// The slot.
    pub slot: SlotState,
    /// A new slot for data that does not join what the slot holds.
    pub split: Option<SlotState>,
    /// What the reader still has.
    pub rest: Buffered,
    /// Whether a slot was filled up to its end.
    pub filled: bool,
}

impl SlotFill {
    /// Whether this is left behind when what `source` has is written into
    /// `slot`, where `filled` tells whether a slot was filled up before. What
    /// the slot holds already is skipped.
    pub open spec fn follows(self, slot: SlotState, source: Buffered, filled: bool) -> bool {
        let at = if source.offset() < slot.filled() {
            slot.filled()
        } else {
            source.offset()
        };
        let written = slot.write(at, source.data.skip(at - source.offset()), source.zeroes);
        if at <= source.end {
            &&& source.advanced(self.rest)
            &&& self.rest.offset() == at + written.len
            &&& self.slot == written.slot
            &&& self.split == written.split
            &&& self.filled == (filled || written.filled)
        } else {
            &&& self.rest.data.len() == 0
            &&& self.slot == slot
            &&& self.split is None
            &&& self.filled == filled
        }
    }
}

impl Slot {
    fn can_write_virtually<R: Reader>(&self, reader: &R) -> (r: bool)
        requires
            reader.valid(),
        ensures
            r == (self@.is_virtual && reader.buffered().zeroes),
            r ==> reader.buffered().data == zero_seq(reader.buffered().data.len()),
    {
        proof {
            reader.offsets_fit();
        }
        self.is_virtual() && reader.is_virtually_buffered()
    }

    /// Skips `len` bytes of a reader.
    fn advance_virtual_reader<R: Reader>(reader: &mut R, len: usize) -> (r: Result<(), R::Error>)
        requires
            old(reader).valid(),
            len <= old(reader).buffered().data.len(),
        ensures
            final(reader).valid(),
            old(reader).buffered().advanced(final(reader).buffered()),
            r is Ok ==> old(reader).buffered().taken(final(reader).buffered()) == len,
            r is Err ==> old(reader).buffered().fallible,
    {
        proof {
            reader.offsets_fit();
        }
        let target = reader.current_offset().checked_add_usize(len).unwrap();
        reader.skip_until(target)
    }

    /// Appends the data of a reader that begins where what the slot holds ends.
    fn write_reader_append<R: Reader>(
        &mut self,
        reader: &mut R,
        filled_slot: &mut bool,
    ) -> (r: Result<(), R::Error>)
        requires
            old(self)@.wf(),
            old(reader).valid(),
            old(reader).buffered().offset() == old(self)@.filled(),
            old(self)@.filled() < old(self)@.end,
        ensures
            final(reader).valid(),
            final(self)@.wf(),
            r is Ok ==> old(reader).buffered().advanced(final(reader).buffered()),
            r is Err ==> old(reader).buffered().fallible && old(reader).buffered().cut_short(
                final(reader).buffered(),
            ),
            r is Err ==> final(self)@ == (SlotState {
                is_virtual: old(self)@.is_virtual && old(reader).buffered().zeroes,
                ..old(self)@
            }) && *final(filled_slot) == *old(filled_slot),
            r is Ok ==> {
                let len = min_len(
                    (old(self)@.end - old(self)@.filled()) as nat,
                    old(reader).buffered().data.len(),
                );
                &&& old(reader).buffered().taken(final(reader).buffered()) == len
                &&& final(self)@ == (SlotState {
                    bytes: old(self)@.bytes + old(reader).buffered().data.take(len as int),
                    is_virtual: old(self)@.is_virtual && old(reader).buffered().zeroes,
                    ..old(self)@
                })
                &&& *final(filled_slot) == (*old(filled_slot) || final(self)@.filled()
                    == old(self)@.end)
            },
    {
        let ghost before = self@;
        let ghost source = reader.buffered();
        let chunk_len: usize = (self.end_allocated() - self.end()) as usize;
        if self.can_write_virtually(reader) {
            let mut len: usize = reader.buffered_len();
            if chunk_len < len {
                len = chunk_len;
            }
            if let Err(e) = Self::advance_virtual_reader(reader, len) {
                return Err(e);
            }
            probe::write(self.end(), len);
            if let Some(virtual_len) = self.virtual_len {
                self.virtual_len = Some(virtual_len + len);
            }
            *filled_slot = *filled_slot || chunk_len == len;
            assert(self@.bytes =~= before.bytes + source.data.take(len as int));
            return Ok(());
        }
        self.ensure_real();
        let held = self.data.len();
        let mut data = BytesMut::new();
        core::mem::swap(&mut self.data, &mut data);
        let mut dest = Bounded::new(data, chunk_len);
        let r = reader.copy_into(&mut dest);
        proof {
            dest.wants_all();
        }
        let mut data = dest.into_inner();
        match r {
            Ok(()) => {
                let len = data.len() - held;
                self.data = data;
                probe::write(self.start + held as u64, len);
                *filled_slot = *filled_slot || chunk_len == len;
                Ok(())
            },
            Err(e) => {
                data.truncate(held);
                assert(bytes_mut_seq(data) =~= before.bytes);
                self.data = data;
                Err(e)
            },
        }
    }

    /// Splits the slot where the data of a reader begins, and writes the data
    /// into the new slot, which is returned.
    fn write_reader_split<R: Reader>(
        &mut self,
        reader: &mut R,
        filled_slot: &mut bool,
    ) -> (r: Result<Self, R::Error>)
        requires
            old(self)@.wf(),
            old(reader).valid(),
            old(self)@.filled() < old(reader).buffered().offset() < old(self)@.end,
            old(reader).buffered().data.len() > 0,
        ensures
            final(reader).valid(),
            final(self)@.wf(),
            r is Ok ==> old(reader).buffered().advanced(final(reader).buffered()),
            r is Err ==> old(reader).buffered().fallible && old(reader).buffered().cut_short(
                final(reader).buffered(),
            ),
            r is Err ==> final(self)@ == (SlotState {
                is_virtual: old(self)@.is_virtual && old(reader).buffered().zeroes,
                ..old(self)@
            }) && *final(filled_slot) == *old(filled_slot),
            r matches Ok(split) ==> {
                let source = old(reader).buffered();
                let written = old(self)@.write(source.offset(), source.data, source.zeroes);
                &&& split@.wf()
                &&& written.split == Some(split@)
                &&& final(self)@ == written.slot
                &&& source.taken(final(reader).buffered()) == written.len
                &&& *final(filled_slot) == (*old(filled_slot) || written.filled)
            },
    {
        let ghost before = self@;
        let ghost source = reader.buffered();
        let reader_start = reader.current_offset().as_u64();
        let chunk_len: usize = (self.end_allocated() - reader_start) as usize;
        if self.can_write_virtually(reader) {
            let mut filled_len: usize = reader.buffered_len();
            if chunk_len < filled_len {
                filled_len = chunk_len;
            }
            if let Err(e) = Self::advance_virtual_reader(reader, filled_len) {
                return Err(e);
            }
            probe::write(reader_start, filled_len);
            *filled_slot = *filled_slot || chunk_len == filled_len;
            let filled = Self {
                start: reader_start,
                end: self.end,
                data: BytesMut::new(),
                virtual_len: Some(filled_len),
            };
            self.end = reader_start;
            assert(filled@.bytes =~= source.data.take(filled_len as int));
            return Ok(filled);
        }
        self.ensure_real();
        // split the memory where the data belongs
        let held = self.data.len();
        let offset: usize = (reader_start - self.end()) as usize;
        self.data.resize(held + offset, 0);
        let spare = self.data.split_off(held + offset);
        self.data.truncate(held);
        assert(bytes_mut_seq(self.data) =~= before.bytes);
        assert(bytes_mut_seq(spare) =~= Seq::empty());
        let mut dest = Bounded::new(spare, chunk_len);
        let r = reader.copy_into(&mut dest);
        proof {
            dest.wants_all();
        }
        if let Err(e) = r {
            return Err(e);
        }
        let filled = dest.into_inner();
        let filled_len = filled.len();
        assert(bytes_mut_seq(filled) =~= source.data.take(filled_len as int));
        probe::write(reader_start, filled_len);
        *filled_slot = *filled_slot || chunk_len == filled_len;
        let filled = Self { start: reader_start, end: self.end, data: filled, virtual_len: None };
        self.end = reader_start;
        Ok(filled)
    }

    /// Writes the data of a reader into the slot. What the slot holds already
    /// is skipped. Data that does not join what the slot holds gets a slot of
    /// its own, which is returned.
    pub fn try_write_reader<R: Reader>(
        &mut self,
        reader: &mut R,
        filled_slot: &mut bool,
    ) -> (r: Result<Option<Slot>, R::Error>)
        requires
            old(self)@.wf(),
            old(reader).valid(),
            old(self)@.start <= old(reader).buffered().offset(),
        ensures
            final(reader).valid(),
            final(self)@.wf(),
            r matches Ok(split) ==> {
                &&& split matches Some(split) ==> split@.wf()
                &&& SlotFill {
                    slot: final(self)@,
                    split: match split {
                        Some(split) => Some(split@),
                        None => None,
                    },
                    rest: final(reader).buffered(),
                    filled: *final(filled_slot),
                }.follows(old(self)@, old(reader).buffered(), *old(filled_slot))
            },
            r is Err ==> (final(self)@.is_virtual ==> old(self)@.is_virtual) && final(self)@ == (
            SlotState { is_virtual: final(self)@.is_virtual, ..old(self)@ })
                && *final(filled_slot) == *old(filled_slot),
            r is Err ==> old(reader).buffered().fallible && old(reader).buffered().cut_short(
                final(reader).buffered(),
            ),
    {
        let ghost source = reader.buffered();
        let end = self.end();
        let is_full = end == self.end_allocated();
        // trim off chunks we've already copied
        reader.skip_until(VarInt::new_unchecked(end))?;
        if is_full {
            // we've already filled this slot
            return Ok(None);
        }
        if reader.buffer_is_empty() {
            return Ok(None);
        }
        // read the current offset
        let start = reader.current_offset().as_u64();
        // make sure this slot owns this range of data
        if start >= self.end_allocated() {
            return Ok(None);
        }
        let ghost skipped = reader.buffered();
        // if the current offsets match just do a straight copy on to the end of
        // the buffer
        if start == end {
            self.write_reader_append(reader, filled_slot)?;
            proof {
                source.law_take_in_steps(skipped, reader.buffered());
            }
            return Ok(None);
        }
        // copy and split off the filled data into another slot
        let filled = self.write_reader_split(reader, filled_slot)?;
        proof {
            source.law_take_in_steps(skipped, reader.buffered());
        }
        Ok(Some(filled))
    }
}

impl Storage for Slot {
    type Error = Infallible;

    open spec fn valid(&self) -> bool {
        self@.wf()
    }

    open spec fn buffered(&self) -> Buffered {
        Buffered {
            data: self@.bytes,
            end: self@.filled(),
            fin: Some(self@.end),
            zeroes: false,
            fallible: false,
        }
    }

    open spec fn chunk_len(&self, watermark: usize) -> usize {
        min_len(self@.bytes.len(), watermark as nat) as usize
    }

    fn buffered_len(&self) -> usize {
        self.buffered_len()
    }

    fn buffer_is_empty(&self) -> bool {
        self.is_empty()
    }

    fn read_chunk(&mut self, watermark: usize) -> (r: Result<Chunk<'_>, Infallible>)
        ensures
            r matches Ok(chunk) && chunk@.len() == min_len(
                old(self)@.bytes.len(),
                watermark as nat,
            ) && final(self)@ == old(self)@.skipped(chunk@.len() as int),
    {
        let ghost before = self@;
        if let Some(buffered_len) = self.virtual_len {
            let mut len: usize = buffered_len;
            if watermark < len {
                len = watermark;
            }
            proof {
                assert(zero_seq((buffered_len - len) as nat) =~= before.bytes.skip(len as int));
                assert(zero_seq(len as nat) =~= before.bytes.take(len as int));
            }
            if len == 0 {
                return Ok(Chunk::empty());
            }
            self.virtual_len = Some(buffered_len - len);
            self.start = self.start + len as u64;
            return Ok(Chunk::Slice(zeroes(len)));
        }
        let chunk = self.data.read_chunk(watermark)?;
        self.start = self.start + chunk.len() as u64;
        Ok(chunk)
    }

    fn track_partial_copy_into<Dest: writer::Storage>(
        &mut self,
        dest: &mut Dest,
        limit: usize,
    ) -> (r: Result<(usize, Chunk<'_>), Infallible>)
        ensures
            r matches Ok((len, chunk)) && len == 0 && chunk@.len() == min_len(
                old(self)@.bytes.len(),
                min_len(old(dest).space().remaining, limit as nat),
            ) && final(self)@ == old(self)@.skipped(chunk@.len() as int),
            *final(dest) == *old(dest),
    {
        proof {
            dest.remaining_in_room();
        }
        let chunk = self.read_chunk(smaller(dest.remaining_capacity(), limit))?;
        Ok((0, chunk))
    }

    fn track_copy_into<Dest: writer::Storage>(
        &mut self,
        dest: &mut Dest,
        limit: usize,
    ) -> (r: Result<usize, Infallible>)
        ensures
            r matches Ok(len) && len == min_len(
                old(self)@.bytes.len(),
                min_len(old(dest).space().remaining, limit as nat),
            ) && final(self)@ == old(self)@.skipped(len as int),
    {
        let ghost before = self@;
        if let Some(buffered_len) = self.virtual_len {
            proof {
                dest.remaining_in_room();
            }
            let len = smaller(buffered_len, smaller(dest.remaining_capacity(), limit));
            proof {
                assert(zero_seq((buffered_len - len) as nat) =~= before.bytes.skip(len as int));
                assert(zero_seq(len as nat) =~= before.bytes.take(len as int));
                assert(dest.space().written =~= dest.space().written + before.bytes.take(0));
            }
            if len == 0 {
                return Ok(0);
            }
            dest.put_slice(zeroes(len));
            self.virtual_len = Some(buffered_len - len);
            self.start = self.start + len as u64;
            return Ok(len);
        }
        let len = self.data.track_copy_into(dest, limit)?;
        self.start = self.start + len as u64;
        Ok(len)
    }

    fn partial_copy_into<Dest: writer::Storage>(&mut self, dest: &mut Dest) -> (r: Result<
        Chunk<'_>,
        Infallible,
    >)
        ensures
            r matches Ok(chunk) && chunk@.len() == min_len(
                old(self)@.bytes.len(),
                old(dest).space().remaining,
            ) && final(self)@ == old(self)@.skipped(chunk@.len() as int),
            *final(dest) == *old(dest),
    {
        let limit = dest.remaining_capacity();
        let (_, chunk) = self.track_partial_copy_into(dest, limit)?;
        Ok(chunk)
    }

    fn copy_into<Dest: writer::Storage>(&mut self, dest: &mut Dest) -> (r: Result<(), Infallible>)
        ensures
            r is Ok,
            final(self)@ == old(self)@.skipped(
                min_len(old(self)@.bytes.len(), old(dest).space().remaining) as int,
            ),
    {
        let limit = dest.remaining_capacity();
        let _ = self.track_copy_into(dest, limit)?;
        Ok(())
    }
}

impl Reader for Slot {
    proof fn offsets_fit(&self) {
    }

    fn current_offset(&self) -> VarInt {
        VarInt::new_unchecked(self.start)
    }

    fn final_offset(&self) -> Option<VarInt> {
        Some(VarInt::new_unchecked(self.end))
    }

    /// Skips the data until a certain offset, received or not, but not past
    /// the end of the slot.
    fn skip_until(&mut self, offset: VarInt) -> (r: Result<(), Infallible>)
        ensures
            r is Ok,
            final(self)@ == old(self)@.skipped(
                if offset@ <= old(self)@.start {
                    0
                } else if offset@ <= old(self)@.end {
                    offset@ - old(self)@.start
                } else {
                    old(self)@.end - old(self)@.start
                },
            ),
    {
        let ghost before = self@;
        let mut target = offset.as_u64();
        if target > self.end {
            target = self.end;
        }
        if target > self.start {
            self.skip(target - self.start);
        } else {
            assert(self@ =~= before.skipped(0));
        }
        Ok(())
    }

    fn is_virtually_buffered(&self) -> bool {
        false
    }
}

} // verus!
