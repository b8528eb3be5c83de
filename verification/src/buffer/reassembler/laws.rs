//! What holds of slots over several calls.
use crate::buffer::reader::storage::min_len;
use crate::buffer::reader::storage::Buffered;
use crate::buffer::reader::Storage;
use crate::buffer::reassembler::from_one_slot;
use crate::buffer::reassembler::front_after;
use crate::buffer::reassembler::front_read;
use crate::buffer::reassembler::ready;
use crate::buffer::reassembler::slot::Slot;
use crate::buffer::reassembler::slot::SlotFill;
use crate::buffer::reassembler::slot::SlotState;
use crate::buffer::reassembler::slots_wf;
use crate::buffer::reassembler::with_front;
use crate::buffer::reassembler::Reassembler;
use crate::buffer::zero::zero_seq;
use vstd::prelude::*;

verus! {

/// All that a slot holds is what `stream` has at that offset.
pub open spec fn slot_holds_of(slot: SlotState, stream: spec_fn(int) -> u8) -> bool {
    forall|i: int|
        0 <= i < slot.bytes.len() ==> #[trigger] slot.bytes[i] == stream(slot.start + i)
}

/// Data at `offset` is what `stream` has there.
pub open spec fn data_of(offset: int, data: Seq<u8>, stream: spec_fn(int) -> u8) -> bool {
    forall|i: int| 0 <= i < data.len() ==> #[trigger] data[i] == stream(offset + i)
}

/// Writing keeps a slot well formed, and a slot that is split off is well
/// formed, too.
pub proof fn law_write_wf(slot: SlotState, offset: int, data: Seq<u8>, zeroes_only: bool)
    requires
        slot.wf(),
        slot.filled() <= offset,
        zeroes_only ==> data == zero_seq(data.len()),
    ensures
        slot.write(offset, data, zeroes_only).slot.wf(),
        slot.write(offset, data, zeroes_only).split matches Some(split) ==> split.wf(),
{
    let written = slot.write(offset, data, zeroes_only);
    assert(written.slot.is_virtual ==> written.slot.bytes =~= zero_seq(
        written.slot.bytes.len(),
    ));
    if let Some(split) = written.split {
        assert(split.is_virtual ==> split.bytes =~= zero_seq(
            split.bytes.len(),
        ));
    }
}

/// Splitting a slot neither adds nor loses room: the two parts lie back to back
/// where the slot was.
pub proof fn law_split_tiles(slot: SlotState, offset: int, data: Seq<u8>, zeroes_only: bool)
    requires
        slot.wf(),
    ensures
        slot.write(offset, data, zeroes_only).split matches Some(split) ==> {
            let front = slot.write(offset, data, zeroes_only).slot;
            &&& front.start == slot.start
            &&& front.bytes == slot.bytes
            &&& front.end == split.start
            &&& split.end == slot.end
        },
        slot.write(offset, data, zeroes_only).split is None ==> slot.write(
            offset,
            data,
            zeroes_only,
        ).slot.start == slot.start && slot.write(offset, data, zeroes_only).slot.end == slot.end,
{
}

/// Written data stays as it was sent: where what is held and what comes in
/// belong to one stream, what is held afterwards does, too.
pub proof fn law_write_keeps_content(
    slot: SlotState,
    offset: int,
    data: Seq<u8>,
    zeroes_only: bool,
    stream: spec_fn(int) -> u8,
)
    requires
        slot.wf(),
        slot_holds_of(slot, stream),
        data_of(offset, data, stream),
    ensures
        slot_holds_of(slot.write(offset, data, zeroes_only).slot, stream),
        slot.write(offset, data, zeroes_only).split matches Some(split) ==> slot_holds_of(
            split,
            stream,
        ),
{
    let written = slot.write(offset, data, zeroes_only);
    assert forall|i: int| 0 <= i < written.slot.bytes.len() implies #[trigger] written.slot.bytes[i]
        == stream(written.slot.start + i) by {
        if i >= slot.bytes.len() {
            assert(written.slot.bytes[i] == data[i - slot.bytes.len()]);
        }
    }
}

/// A slot that was split is whole again when its front is filled up and the two
/// parts are joined: it holds the same as if all had come in order.
pub proof fn law_fill_and_unsplit(slot: SlotState, first: Seq<u8>, second: Seq<u8>)
    requires
        slot.wf(),
        !slot.is_virtual,
        first.len() > 0,
        second.len() > 0,
        slot.filled() + first.len() + second.len() <= slot.end,
    ensures
        ({
            // out of order: the second piece, then the first
            let late = slot.write(slot.filled() + first.len(), second, false);
            let front = late.slot.write(late.slot.filled(), first, false);
            let back = late.split.unwrap();
            let joined = front.slot.joined(back);
            // in order: the first piece, then the second
            let one = slot.write(slot.filled(), first, false);
            let two = one.slot.write(one.slot.filled(), second, false);
            &&& late.split is Some
            &&& front.filled
            &&& front.slot.end == back.start
            &&& one.split is None
            &&& two.split is None
            &&& joined == two.slot
        }),
{
    let late = slot.write(slot.filled() + first.len(), second, false);
    let front = late.slot.write(late.slot.filled(), first, false);
    let back = late.split.unwrap();
    let one = slot.write(slot.filled(), first, false);
    let two = one.slot.write(one.slot.filled(), second, false);
    assert(first.take(first.len() as int) =~= first);
    assert(second.take(second.len() as int) =~= second);
    assert(front.slot.bytes + back.bytes =~= two.slot.bytes);
}

/// What can be read is what was sent, from the read offset on.
pub proof fn law_ready_content(
    slots: Seq<SlotState>,
    offset: int,
    stream: spec_fn(int) -> u8,
)
    requires
        forall|i: int| 0 <= i < slots.len() ==> slot_holds_of(#[trigger] slots[i], stream),
    ensures
        data_of(offset, ready(slots, offset), stream),
    decreases slots.len(),
{
    if slots.len() > 0 && slots[0].bytes.len() > 0 && slots[0].start == offset {
        let rest = slots.skip(1);
        let filled = slots[0].filled();
        assert forall|i: int| 0 <= i < rest.len() implies slot_holds_of(
            #[trigger] rest[i],
            stream,
        ) by {
            assert(rest[i] == slots[i + 1]);
        }
        law_ready_content(rest, filled, stream);
        let tail = ready(rest, filled);
        let data = ready(slots, offset);
        assert(slot_holds_of(slots[0], stream));
        assert forall|i: int| 0 <= i < data.len() implies #[trigger] data[i] == stream(offset
            + i) by {
            let n = slots[0].bytes.len() as int;
            if i >= n {
                assert(data[i] == tail[i - n]);
                assert(filled + (i - n) == offset + i);
            } else {
                assert(data[i] == slots[0].bytes[i]);
            }
        }
    }
}

/// What lies behind a hole stays where it is when data is read: only slots in
/// front of the offset that was read up to are touched.
pub proof fn law_behind_hole_stays(
    before: Seq<SlotState>,
    after: Seq<SlotState>,
    start_offset: int,
    offset: int,
    size: Option<int>,
    i: int,
)
    requires
        slots_wf(before, start_offset, size),
        front_read(before, after, offset, size),
        0 <= i < before.len(),
        offset < before[i].start,
    ensures
        0 <= i - (before.len() - after.len()),
        after[i - (before.len() - after.len())] == before[i],
{
    let gone = before.len() - after.len();
    if i == gone {
        assert(before[i].bytes.skip(0) =~= before[i].bytes);
    }
}

/// A write into a slot takes all that the slot has room for, be it all the data or
/// only the front of it, and tells whether the slot is full up to its end.
pub proof fn law_write_takes_all_that_fits(
    slot: SlotState,
    offset: int,
    data: Seq<u8>,
    zeroes_only: bool,
)
    requires
        slot.wf(),
        slot.filled() <= offset < slot.end,
        data.len() > 0,
    ensures
        ({
            let written = slot.write(offset, data, zeroes_only);
            // all the data, or all the room
            &&& written.len == data.len() && offset + data.len() <= slot.end || written.len
                == slot.end - offset && slot.end <= offset + data.len()
            &&& written.filled <==> slot.end <= offset + data.len()
            &&& match written.split {
                None => {
                    &&& offset == slot.filled()
                    &&& written.slot.bytes == slot.bytes + data.take(written.len as int)
                    &&& written.slot.start == slot.start && written.slot.end == slot.end
                    &&& written.filled <==> written.slot.filled() == slot.end
                },
                Some(split) => {
                    &&& slot.filled() < offset
                    &&& written.slot.bytes == slot.bytes
                    &&& written.slot.start == slot.start && written.slot.end == offset
                    &&& split.bytes == data.take(written.len as int)
                    &&& split.start == offset && split.end == slot.end
                    &&& written.filled <==> split.filled() == slot.end
                    &&& split.is_virtual == (slot.is_virtual && zeroes_only)
                },
            }
            &&& written.slot.is_virtual == (slot.is_virtual && zeroes_only)
        }),
{
}

/// Data that lies behind a slot, no data, and data for a slot that is full leave
/// the slot as it is.
pub proof fn law_nothing_fits(slot: SlotState, offset: int, data: Seq<u8>, zeroes_only: bool)
    requires
        slot.wf(),
        slot.filled() <= offset,
        data.len() == 0 || slot.end <= offset,
    ensures
        slot.write(offset, data, zeroes_only).slot == slot,
        slot.write(offset, data, zeroes_only).split is None,
        slot.write(offset, data, zeroes_only).len == 0,
        !slot.write(offset, data, zeroes_only).filled,
{
}

/// Writing two pieces one after the other is writing them at once.
pub proof fn law_write_in_steps(slot: SlotState, one: Seq<u8>, two: Seq<u8>, zeroes_only: bool)
    requires
        slot.wf(),
        0 < one.len() < slot.end - slot.filled(),
        two.len() > 0,
    ensures
        ({
            let first = slot.write(slot.filled(), one, zeroes_only);
            let second = first.slot.write(first.slot.filled(), two, zeroes_only);
            let once = slot.write(slot.filled(), one + two, zeroes_only);
            &&& second.slot == once.slot
            &&& first.len + second.len == once.len
            &&& second.filled == once.filled
            &&& first.split is None && second.split is None && once.split is None
        }),
{
    let first = slot.write(slot.filled(), one, zeroes_only);
    let second = first.slot.write(first.slot.filled(), two, zeroes_only);
    let once = slot.write(slot.filled(), one + two, zeroes_only);
    assert(one.take(one.len() as int) =~= one);
    assert(second.slot.bytes =~= once.slot.bytes);
}

/// A reader's data is written as far as the slot does not hold it yet and has room
/// for it, and no further: from `from`, where the reader begins or what the slot
/// holds ends, up to `to`, where the reader or the slot ends. The reader keeps what
/// lies behind. All data stays as it was sent.
pub proof fn law_reader_is_written(
    fill: SlotFill,
    slot: SlotState,
    source: Buffered,
    filled: bool,
    from: int,
    to: int,
    stream: spec_fn(int) -> u8,
)
    requires
        slot.wf(),
        slot.start <= source.offset(),
        fill.follows(slot, source, filled),
        from == source.offset() && slot.filled() <= from || from == slot.filled()
            && source.offset() <= from,
        to == source.end && to <= slot.end || to == slot.end && to <= source.end,
        slot_holds_of(slot, stream),
        data_of(source.offset(), source.data, stream),
    ensures
        // nothing is lost or made up
        slot_holds_of(fill.slot, stream),
        fill.split matches Some(split) ==> slot_holds_of(split, stream),
        slot.bytes.is_prefix_of(fill.slot.bytes),
        fill.slot.start == slot.start,
        // the data is held where it belongs
        from < to ==> match fill.split {
            None => {
                &&& from == slot.filled()
                &&& fill.slot.filled() == to
                &&& fill.slot.end == slot.end
            },
            Some(split) => {
                &&& slot.filled() < from
                &&& fill.slot.bytes == slot.bytes
                &&& fill.slot.end == from
                &&& split.start == from
                &&& split.filled() == to
                &&& split.end == slot.end
            },
        },
        from < to ==> fill.slot.is_virtual == (slot.is_virtual && source.zeroes),
        from >= to ==> fill.slot == slot && fill.split is None,
        fill.filled == (filled || from < to && to == slot.end),
        // the reader keeps the rest
        from < to ==> fill.rest.offset() == to && source.advanced(fill.rest),
        from < to ==> data_of(to, fill.rest.data, stream),
        to <= from <= source.end ==> fill.rest.offset() == from && source.advanced(fill.rest),
        source.end <= from ==> fill.rest.data.len() == 0,
{
    let offset = source.offset();
    let at = if offset < slot.filled() {
        slot.filled()
    } else {
        offset
    };
    assert(at == from);
    if at <= source.end {
        let data = source.data.skip(at - offset);
        assert forall|i: int| 0 <= i < data.len() implies #[trigger] data[i] == stream(at + i) by {
            assert(data[i] == source.data[at - offset + i]);
            assert(offset + (at - offset + i) == at + i);
        }
        law_write_keeps_content(slot, at, data, source.zeroes, stream);
        let rest = fill.rest.data;
        let n = source.taken(fill.rest);
        assert forall|i: int| 0 <= i < rest.len() implies #[trigger] rest[i] == stream(
            fill.rest.offset() + i,
        ) by {
            assert(rest[i] == source.data[n + i]);
            assert(offset + (n + i) == fill.rest.offset() + i);
        }
    }
}

/// Skipping the front of a slot drops just that: what lies behind stays where it
/// is, and the slot still ends where it did.
pub proof fn law_skipped(slot: SlotState, len: int)
    requires
        slot.wf(),
        0 <= len <= slot.end - slot.start,
    ensures
        slot.skipped(len).wf(),
        slot.skipped(len).start == slot.start + len,
        slot.skipped(len).end == slot.end,
        slot.skipped(len).is_virtual == slot.is_virtual,
        len <= slot.bytes.len() ==> slot.bytes == slot.bytes.take(len) + slot.skipped(len).bytes,
        len > slot.bytes.len() ==> slot.skipped(len).bytes.len() == 0,
        slot.emptied().bytes.len() == 0,
        slot.emptied().start == slot.end && slot.emptied().end == slot.end,
        slot.emptied().is_virtual == slot.is_virtual,
{
    let next = slot.skipped(len);
    if len <= slot.bytes.len() {
        assert(slot.bytes =~= slot.bytes.take(len) + next.bytes);
    }
    assert(next.is_virtual ==> next.bytes =~= zero_seq(next.bytes.len()));
}

/// Whether a slot holds the byte at `x`.
pub open spec fn slot_has(slot: SlotState, x: int) -> bool {
    slot.start <= x < slot.start + slot.bytes.len()
}

/// All that can be read is told: what is ready ends only where no slot holds the
/// next byte.
pub proof fn law_ready_up_to_the_hole(
    slots: Seq<SlotState>,
    start_offset: int,
    offset: int,
    size: Option<int>,
    i: int,
)
    requires
        slots_wf(slots, start_offset, size),
        0 <= i < slots.len(),
        forall|j: int| 0 <= j < slots.len() ==> offset <= (#[trigger] slots[j]).start,
    ensures
        !slot_has(slots[i], offset + ready(slots, offset).len()),
    decreases slots.len(),
{
    assert(slots[0].wf());
    if slots[0].bytes.len() > 0 && slots[0].start == offset {
        let rest = slots.skip(1);
        let filled = slots[0].filled();
        assert(forall|j: int| 0 <= j < rest.len() ==> #[trigger] rest[j] == slots[j + 1]);
        assert(ready(slots, offset).len() == slots[0].bytes.len() + ready(rest, filled).len());
        if i > 0 {
            assert forall|j: int| 0 <= j < rest.len() implies filled <= (
            #[trigger] rest[j]).start by {
                assert(rest[j] == slots[j + 1]);
            }
            law_ready_up_to_the_hole(rest, start_offset, filled, size, i - 1);
        }
    } else if slots[i].start == offset {
        if i > 0 {
            assert(slots[0].end <= slots[i].start);
        }
    }
}

/// Reading loses nothing but what was read: every byte that a slot holds at or
/// behind the offset that was read up to is still held.
pub proof fn law_read_keeps_the_rest(
    before: Seq<SlotState>,
    after: Seq<SlotState>,
    start_offset: int,
    offset: int,
    size: Option<int>,
    i: int,
    x: int,
)
    requires
        slots_wf(before, start_offset, size),
        front_read(before, after, offset, size),
        0 <= i < before.len(),
        offset <= x,
        slot_has(before[i], x),
    ensures
        ({
            let j = i - (before.len() - after.len());
            &&& 0 <= j < after.len()
            &&& slot_has(after[j], x)
            &&& after[j].bytes[x - after[j].start] == before[i].bytes[x - before[i].start]
            &&& after[j].end == before[i].end
        }),
{
    let gone = before.len() - after.len();
    assert(before[i].wf());
    assert(i >= gone);
    if i == gone {
        assert(after[0].start <= offset || after[0].start == before[gone].start);
    } else {
        assert(after[i - gone] == before[i]);
    }
}

/// A chunk taken from the front slot leaves the rest of the slot, and nothing of
/// it if all was taken and the stream ends in it.
pub proof fn law_front_after(slot: SlotState, watermark: nat, size: Option<int>)
    requires
        slot.wf(),
    ensures
        watermark < slot.bytes.len() ==> slot.bytes == slot.bytes.take(watermark as int)
            + front_after(slot, watermark, size).bytes && front_after(slot, watermark, size).start
            == slot.start + watermark,
        watermark >= slot.bytes.len() ==> front_after(slot, watermark, size).bytes.len() == 0
            && front_after(slot, watermark, size).start == (if size is Some && size.unwrap()
            <= slot.end {
            slot.end
        } else {
            slot.filled()
        }),
        front_after(slot, watermark, size).end == slot.end,
        front_after(slot, watermark, size).is_virtual == slot.is_virtual,
{
    if watermark < slot.bytes.len() {
        let n = watermark as int;
        assert(slot.bytes =~= slot.bytes.take(n) + slot.bytes.skip(n));
    }
}

/// Reading adds nothing: what a slot holds afterwards, it held before.
pub proof fn law_read_adds_nothing(
    before: Seq<SlotState>,
    after: Seq<SlotState>,
    offset: int,
    size: Option<int>,
    j: int,
    x: int,
)
    requires
        front_read(before, after, offset, size),
        0 <= j < after.len(),
        slot_has(after[j], x),
    ensures
        ({
            let i = j + (before.len() - after.len());
            &&& 0 <= i < before.len()
            &&& slot_has(before[i], x)
            &&& after[j].bytes[x - after[j].start] == before[i].bytes[x - before[i].start]
        }),
{
    let gone = before.len() - after.len();
    if j > 0 {
        assert(after[j] == before[gone + j]);
    }
}

/// A front slot goes when it can take no more and has nothing left, and only then.
/// The slots behind it stay.
pub proof fn law_with_front(slots: Seq<SlotState>, front: SlotState, i: int)
    requires
        slots.len() > 0,
        0 < i < slots.len(),
    ensures
        with_front(slots, front).len() == slots.len() - (if front.start == front.end {
            1int
        } else {
            0int
        }),
        front.start != front.end ==> with_front(slots, front)[0] == front && with_front(
            slots,
            front,
        )[i] == slots[i],
        front.start == front.end ==> with_front(slots, front)[i - 1] == slots[i],
{
}

/// Two slots that lie back to back are joined without losing a byte or moving one,
/// and without losing room.
pub proof fn law_joined(slot: SlotState, next: SlotState, x: int)
    requires
        slot.wf(),
        next.wf(),
        slot.filled() == slot.end,
        slot.end == next.start,
    ensures
        ({
            let joined = slot.joined(next);
            &&& joined.start == slot.start && joined.end == next.end
            &&& joined.is_virtual == slot.is_virtual
            &&& joined.filled() == next.filled()
            &&& slot_has(joined, x) <==> slot_has(slot, x) || slot_has(next, x)
            &&& slot_has(slot, x) ==> joined.bytes[x - joined.start] == slot.bytes[x - slot.start]
            &&& slot_has(next, x) ==> joined.bytes[x - joined.start] == next.bytes[x - next.start]
        }),
{
}

/// What a slot holds can be read from it, from its start on, and the stream is
/// taken to end where the slot does.
pub proof fn law_slot_as_reader(slot: Slot, watermark: usize)
    ensures
        slot.buffered().data == slot@.bytes,
        slot.buffered().offset() == slot@.start,
        slot.buffered().fin == Some(slot@.end),
        !slot.buffered().zeroes,
        !slot.buffered().fallible,
        slot@.wf() ==> slot.chunk_len(watermark) == min_len(
            slot@.bytes.len(),
            watermark as nat,
        ),
{
}

/// What is ready can be read from a reassembler, from its read offset on, one slot
/// at a time.
pub proof fn law_reassembler_as_reader(buf: Reassembler, watermark: usize)
    requires
        buf.wf(),
    ensures
        buf.buffered().data == ready(buf.slots(), buf.start_offset()),
        buf.buffered().offset() == buf.start_offset(),
        buf.buffered().fin == buf.size(),
        !buf.buffered().zeroes,
        !buf.buffered().fallible,
        buf.buffered().data.len() == 0 ==> buf.chunk_len(watermark) == 0,
        buf.buffered().data.len() > 0 ==> buf.slots()[0].bytes.is_prefix_of(buf.buffered().data)
            && buf.chunk_len(watermark) == min_len(buf.slots()[0].bytes.len(), watermark as nat),
{
    let data = buf.buffered().data;
    if data.len() > 0 {
        let front = buf.slots()[0].bytes;
        assert(data.take(front.len() as int) =~= front);
    }
}

/// The last chunk of a copy is all that was read of the last slot that was read
/// from: it begins where that slot does, and there is only one such chunk.
pub proof fn law_last_chunk(
    slots: Seq<SlotState>,
    start_offset: int,
    size: Option<int>,
    offset: int,
    len: int,
    i: int,
)
    requires
        slots_wf(slots, start_offset, size),
        from_one_slot(slots, offset, len),
        0 < len,
        0 <= i < slots.len(),
        slot_has(slots[i], offset - 1),
    ensures
        slots[i].start == offset - len,
        offset <= slots[i].start + slots[i].bytes.len(),
{
    let k = choose|k: int|
        0 <= k < slots.len() && (#[trigger] slots[k]).start == offset - len && offset
            <= slots[k].filled();
    assert(slots[i].wf() && slots[k].wf());
    if i < k {
        assert(slots[i].end <= slots[k].start);
    } else if k < i {
        assert(slots[k].end <= slots[i].start);
    }
}

/// A slot goes only when nothing can come into it any more: all of it was read, or
/// the stream ends in it.
pub proof fn law_only_used_up_slots_go(
    before: Seq<SlotState>,
    after: Seq<SlotState>,
    offset: int,
    size: Option<int>,
    i: int,
)
    requires
        front_read(before, after, offset, size),
        0 <= i < before.len() - after.len(),
    ensures
        before[i].start + before[i].bytes.len() <= offset,
        before[i].end <= offset || size is Some && size.unwrap() <= before[i].end,
{
}

} // verus!
