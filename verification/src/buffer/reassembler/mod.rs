//! Putting a stream together from its pieces.
pub mod laws;
pub mod probe;
pub mod reader;
pub mod request;
pub mod slot;

use crate::buffer::reader::storage::min_len;
use crate::buffer::reassembler::slot::Slot;
use crate::buffer::reassembler::slot::SlotState;
use crate::buffer::zero::zero_seq;
use crate::varint::MAX_VARINT_VALUE;
use std::collections::VecDeque;
use vstd::prelude::*;

verus! {

/// Where a reassembler is.
struct Cursors {
    /// The stream offset of the next byte to be read.
    start_offset: u64,
    /// The final size of the stream, if it is known.
    final_offset: Option<u64>,
}

impl Cursors {
    fn final_size(&self) -> (r: Option<u64>)
        ensures
            r == self.final_offset,
    {
        self.final_offset
    }
}

/// Pieces of a stream, in order, of which those at the front can be read.
pub struct Reassembler {
    slots: VecDeque<Slot>,
    cursors: Cursors,
}

/// The data at `offset` and behind it that the slots hold without a gap.
pub open spec fn ready(slots: Seq<SlotState>, offset: int) -> Seq<u8>
    decreases slots.len(),
{
    if slots.len() > 0 && slots[0].bytes.len() > 0 && slots[0].start == offset {
        slots[0].bytes + ready(slots.skip(1), slots[0].filled())
    } else {
        Seq::empty()
    }
}

/// Slots are in order, do not overlap, are not used up, and hold nothing from
/// behind the end of the stream.
pub open spec fn slots_wf(
    slots: Seq<SlotState>,
    start_offset: int,
    final_size: Option<int>,
) -> bool {
    &&& forall|i: int| 0 <= i < slots.len() ==> (#[trigger] slots[i]).wf()
    &&& forall|i: int|
        0 <= i < slots.len() ==> start_offset <= (#[trigger] slots[i]).start < slots[i].end
    &&& forall|i: int, j: int|
        0 <= i < j < slots.len() ==> (#[trigger] slots[i]).end <= (#[trigger] slots[j]).start
    &&& final_size matches Some(size) ==> forall|i: int|
        0 <= i < slots.len() ==> (#[trigger] slots[i]).bytes.len() == 0 || slots[i].filled() <= size
}

/// What slots mean.
pub open spec fn slot_states(slots: Seq<Slot>) -> Seq<SlotState> {
    slots.map_values(|slot: Slot| slot@)
}

/// The data that can be read ends where the slots that hold it do.
pub proof fn lemma_ready_end(
    slots: Seq<SlotState>,
    offset: int,
    start_offset: int,
    size: Option<int>,
)
    requires
        slots_wf(slots, start_offset, size),
        0 <= offset <= MAX_VARINT_VALUE,
        size matches Some(size) ==> offset <= size,
    ensures
        offset + ready(slots, offset).len() <= MAX_VARINT_VALUE,
        size matches Some(size) ==> offset + ready(slots, offset).len() <= size,
    decreases slots.len(),
{
    if slots.len() > 0 && slots[0].bytes.len() > 0 && slots[0].start == offset {
        let rest = slots.skip(1);
        assert forall|i: int| 0 <= i < rest.len() implies (#[trigger] rest[i]) == slots[i + 1] by {}
        assert(slots[0].wf());
        lemma_ready_end(rest, slots[0].filled(), start_offset, size);
    }
}

/// Whether a slot has no room in front of `offset` and behind it for data that
/// may still come.
pub open spec fn used_up(slot: SlotState, offset: int, size: Option<int>) -> bool {
    slot.end <= offset || (size matches Some(size) && size <= slot.end)
}

/// What becomes of the front slot when a chunk of at most `watermark` bytes is
/// taken from it: it is given away whole if it reaches up to the final size of
/// the stream and all its data is taken.
pub open spec fn front_after(slot: SlotState, watermark: nat, size: Option<int>) -> SlotState {
    if watermark >= slot.bytes.len() && (size matches Some(size) && size <= slot.end) {
        slot.emptied()
    } else {
        slot.skipped(min_len(slot.bytes.len(), watermark) as int)
    }
}

/// The slots with `front` in place of the one at the front, unless it has nothing
/// left.
pub open spec fn with_front(slots: Seq<SlotState>, front: SlotState) -> Seq<SlotState> {
    if front.start == front.end {
        slots.skip(1)
    } else {
        slots.update(0, front)
    }
}

/// Whether `after` are the slots `before` with only data in front of `offset`
/// taken. Slots at the front that were read out are gone, if they are used up or
/// reach up to the final size of the stream. The one that is then at the front
/// may have lost data at its own front, if it begins in front of `offset`, and
/// those behind are as they were.
pub open spec fn front_read(
    before: Seq<SlotState>,
    after: Seq<SlotState>,
    offset: int,
    size: Option<int>,
) -> bool {
    let gone = before.len() - after.len();
    &&& 0 <= gone
    &&& forall|i: int|
        0 <= i < gone ==> (#[trigger] before[i]).filled() <= offset && used_up(
            before[i],
            offset,
            size,
        )
    &&& after.len() > 0 ==> after[0].start <= offset || after[0].start == before[gone].start
    &&& after.len() > 0 ==> before[gone].start <= after[0].start && after[0]
        == before[gone].skipped(after[0].start - before[gone].start)
    &&& forall|i: int| 0 < i < after.len() ==> #[trigger] after[i] == before[gone + i]
}

/// Whether the `len` bytes that end at `offset` are the first ones of a slot.
pub open spec fn from_one_slot(slots: Seq<SlotState>, offset: int, len: int) -> bool {
    exists|i: int|
        0 <= i < slots.len() && (#[trigger] slots[i]).start == offset - len && offset
            <= slots[i].filled()
}

/// Reading twice reads from the front, too.
pub proof fn lemma_front_read_twice(
    before: Seq<SlotState>,
    mid: Seq<SlotState>,
    after: Seq<SlotState>,
    at: int,
    offset: int,
    size: Option<int>,
)
    requires
        front_read(before, mid, at, size),
        front_read(mid, after, offset, size),
        at <= offset,
        forall|i: int| 0 <= i < before.len() ==> (#[trigger] before[i]).wf(),
    ensures
        front_read(before, after, offset, size),
{
    let gone = before.len() - mid.len();
    let more = mid.len() - after.len();
    assert forall|i: int| 0 <= i < gone + more implies (#[trigger] before[i]).filled() <= offset
        && used_up(before[i], offset, size) by {
        if i >= gone {
            assert(mid[i - gone].filled() <= offset);
            if i == gone {
                assert(before[gone].filled() <= mid[0].filled());
            } else {
                assert(mid[i - gone] == before[i]);
            }
        }
    }
    if after.len() > 0 {
        if more == 0 {
            let a = mid[0].start - before[gone].start;
            let b = after[0].start - mid[0].start;
            assert(before[gone].skipped(a).skipped(b) =~= before[gone].skipped(a + b));
        } else {
            assert(mid[more] == before[gone + more]);
        }
    }
    assert forall|i: int| 0 < i < after.len() implies #[trigger] after[i] == before[gone + more
        + i] by {
        assert(after[i] == mid[more + i]);
    }
}

/// What can be read after the first `n` bytes of the front slot were taken.
pub proof fn lemma_front_taken(
    slots: Seq<SlotState>,
    offset: int,
    size: Option<int>,
    n: int,
    front: SlotState,
    after: Seq<SlotState>,
)
    requires
        slots_wf(slots, offset, size),
        slots.len() > 0,
        slots[0].start == offset,
        slots[0].bytes.len() > 0,
        0 <= n <= slots[0].bytes.len(),
        front == slots[0].skipped(n) || n == slots[0].bytes.len() && front == slots[0].emptied()
            && (size matches Some(size) && size <= slots[0].end),
        after == with_front(slots, front),
    ensures
        slots_wf(after, offset + n, size),
        ready(after, offset + n) == ready(slots, offset).skip(n),
        ready(slots, offset).take(n) == slots[0].bytes.take(n),
        n <= ready(slots, offset).len(),
        front_read(slots, after, offset + n, size),
        n == slots[0].bytes.len() && slots[0].filled() < slots[0].end ==> ready(
            after,
            offset + n,
        ).len() == 0,
{
    let rest = slots.skip(1);
    let tail = ready(rest, slots[0].filled());
    assert(slots[0].wf());
    assert(forall|i: int| 0 <= i < rest.len() ==> #[trigger] rest[i] == slots[i + 1]);
    assert(forall|i: int| 0 < i < slots.len() ==> slots[0].end <= (#[trigger] slots[i]).start);
    assert(front_read(slots, after, offset + n, size)) by {
        if after.len() == slots.len() {
            assert(after[0] == front);
            if front == slots[0].emptied() {
                assert(false);
            }
        } else if after.len() > 0 {
            assert(after[0] == slots[1]);
            assert(slots[1].skipped(0) =~= slots[1]);
        }
    }
    assert(front.wf()) by {
        assert(front.is_virtual ==> front.bytes =~= zero_seq(front.bytes.len()));
    }
    assert(slots_wf(after, offset + n, size)) by {
        let shift: int = if front.start == front.end {
            1
        } else {
            0
        };
        assert forall|i: int| 0 <= i < after.len() implies (#[trigger] after[i]) == (if i == 0
            && shift == 0 {
            front
        } else {
            slots[i + shift]
        }) by {}
    }
    assert(ready(slots, offset) == slots[0].bytes + tail);
    assert(ready(slots, offset).take(n) =~= slots[0].bytes.take(n));
    if n == slots[0].bytes.len() {
        assert(ready(slots, offset).skip(n) =~= tail);
        if slots[0].filled() < slots[0].end {
            assert(tail =~= Seq::empty()) by {
                if rest.len() > 0 {
                    assert(rest[0] == slots[1]);
                }
            }
            if front.start == front.end {
                assert(after == rest);
            }
            assert(ready(after, offset + n) =~= Seq::empty());
        } else {
            assert(front.start == front.end);
        }
    } else {
        assert(after.skip(1) =~= rest);
        assert(after[0] == front);
        assert(ready(after, offset + n) == front.bytes + tail);
        assert(ready(slots, offset).skip(n) =~= front.bytes + tail);
    }
}

impl Reassembler {
    /// The slots, from front to back.
    pub closed spec fn slots(&self) -> Seq<SlotState> {
        slot_states(self.slots@)
    }

    /// The stream offset of the next byte to be read.
    pub closed spec fn start_offset(&self) -> int {
        self.cursors.start_offset as int
    }

    /// The final size of the stream, if it is known.
    pub closed spec fn size(&self) -> Option<int> {
        match self.cursors.final_offset {
            Some(size) => Some(size as int),
            None => None,
        }
    }

    /// What holds of every reassembler.
    pub open spec fn wf(&self) -> bool {
        &&& slots_wf(self.slots(), self.start_offset(), self.size())
        &&& 0 <= self.start_offset() <= MAX_VARINT_VALUE
        &&& self.size() matches Some(size) ==> self.start_offset() <= size <= MAX_VARINT_VALUE
        &&& ready(self.slots(), self.start_offset()).len() <= usize::MAX
    }

    /// Creates a reassembler that has received nothing.
    pub fn new() -> (r: Self)
        ensures
            r.wf(),
            r.slots() == Seq::<SlotState>::empty(),
            r.start_offset() == 0,
            r.size() is None,
    {
        let r = Self {
            slots: VecDeque::new(),
            cursors: Cursors { start_offset: 0, final_offset: None },
        };
        assert(r.slots() =~= Seq::<SlotState>::empty());
        r
    }

    /// Creates a reassembler from slots.
    pub fn from_slots(
        slots: VecDeque<Slot>,
        start_offset: u64,
        final_offset: Option<u64>,
    ) -> (r: Self)
        requires
            slots_wf(
                slot_states(slots@),
                start_offset as int,
                match final_offset {
                    Some(size) => Some(size as int),
                    None => None,
                },
            ),
            start_offset <= MAX_VARINT_VALUE,
            final_offset matches Some(size) ==> start_offset <= size <= MAX_VARINT_VALUE,
            ready(slot_states(slots@), start_offset as int).len() <= usize::MAX,
        ensures
            r.wf(),
            r.slots() == slot_states(slots@),
            r.start_offset() == start_offset,
            r.size() == (match final_offset {
                Some(size) => Some(size as int),
                None => None::<int>,
            }),
    {
        Self { slots, cursors: Cursors { start_offset, final_offset } }
    }

    /// Returns the final size of the stream, if known.
    pub fn final_size(&self) -> (r: Option<u64>)
        ensures
            r is Some <==> self.size() is Some,
            r matches Some(size) ==> self.size() == Some(size as int),
    {
        self.cursors.final_size()
    }

    /// Returns the amount of bytes available for reading.
    /// This equals the amount of data that is stored in contiguous fashion at
    /// the start of the buffer.
    pub fn len(&self) -> (r: usize)
        requires
            self.wf(),
        ensures
            r == ready(self.slots(), self.start_offset()).len(),
    {
        let ghost all = self.slots();
        let ghost total = ready(all, self.start_offset()).len();
        let mut len: usize = 0;
        let mut offset: u64 = self.cursors.start_offset;
        let mut i: usize = 0;
        assert(all.skip(0) =~= all);
        while i < self.slots.len()
            invariant
                self.wf(),
                all == self.slots(),
                0 <= i <= self.slots@.len(),
                total == ready(all, self.start_offset()).len(),
                total <= usize::MAX,
                len + ready(all.skip(i as int), offset as int).len() == total,
            ensures
                len == total,
            decreases self.slots@.len() - i,
        {
            let slot = &self.slots[i];
            assert(all.skip(i as int)[0] == slot@);
            assert(all[i as int].wf());
            if !slot.is_occupied(offset) {
                break;
            }
            proof {
                assert(all.skip(i as int).skip(1) =~= all.skip(i + 1));
            }
            len = len + slot.buffered_len();
            offset = slot.end();
            i = i + 1;
        }
        len
    }

    /// Returns true if no bytes are available for reading
    pub fn is_empty(&self) -> (r: bool)
        requires
            self.wf(),
        ensures
            r == (ready(self.slots(), self.start_offset()).len() == 0),
    {
        if self.slots.len() > 0 {
            let slot = &self.slots[0];
            assert(self.slots()[0] == slot@);
            !slot.is_occupied(self.cursors.start_offset)
        } else {
            true
        }
    }
}

} // verus!
