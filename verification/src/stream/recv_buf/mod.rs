//! Receive-side stream buffer.
mod push;
mod read;

use crate::buffer::writer::storage::Space;
use crate::buffer::writer::Storage;
use crate::bytes_spec::bytes_seq;
use crate::stream::error::Error;
use crate::stream::flowcontrol::FlowControl;
use crate::stream::gap_list::ByteInterval;
use crate::stream::gap_list::gap_nodes;
use crate::stream::gap_list::list_get;
use crate::stream::gap_list::list_head;
use crate::stream::gap_list::list_len;
use crate::stream::gap_list::list_new;
use crate::stream::gap_list::list_push_back;
use crate::stream::gap_list::next_handle;
use crate::stream::gap_list::prev_handle;
use crate::stream::range_buf::RangeBuf;
use crate::stream::sorter::in_gap;
use crate::stream::sorter::lemma_empty_chunk;
use crate::stream::sorter::missing;
use crate::stream::sorter::no_empty;
use crate::stream::sorter::splits_gap;
use crate::stream::state::RecvState;
use bytes::Bytes;
use fast_list::LinkedList;
use fast_list::LinkedListIndex;
use std::collections::HashMap;
use vstd::prelude::*;

verus! {

broadcast use vstd::std_specs::hash::group_hash_axioms;

/// Map from stream offset to data chunk.
type OffsetMap = HashMap<u64, Bytes>;

/// The gap intervals of a list of gap nodes.
pub open spec fn intervals(nodes: Seq<(LinkedListIndex, ByteInterval)>) -> Seq<ByteInterval> {
    nodes.map_values(|n: (LinkedListIndex, ByteInterval)| n.1)
}

/// No two nodes have the same handle.
pub open spec fn handles_distinct(nodes: Seq<(LinkedListIndex, ByteInterval)>) -> bool {
    forall|i: int, j: int|
        0 <= i < j < nodes.len() ==> (#[trigger] nodes[i]).0 != (#[trigger] nodes[j]).0
}

/// The chunks that an offset map holds.
pub open spec fn chunk_map(data: Map<u64, Bytes>) -> Map<u64, Seq<u8>> {
    data.map_values(|b: Bytes| bytes_seq(b))
}

/// Ordered list of byte ranges not yet received.
#[derive(Debug)]
struct Gaps(LinkedList<ByteInterval>);

/// Receive-side stream buffer.
///
/// Incoming stream frames are stored in `data`, an offset-keyed hash map. A
/// `gaps` list tracks which byte ranges are still missing. `off` is the next
/// offset to deliver to the application.
#[derive(Debug)]
pub struct RecvBuf {
    /// Buffered chunks keyed by start offset.
    data: OffsetMap,
    /// The lowest data offset that has yet to be read by the application.
    off: u64,
    /// Ordered list of byte ranges not yet received.
    gaps: Gaps,
    /// The total length of data received on this stream.
    len: u64,
    /// Receiver flow controller.
    flow_control: FlowControl,
    /// The final stream offset received from the peer, if any.
    fin_off: Option<u64>,
    /// The error code received via RESET_STREAM.
    error: Option<u64>,
    /// Whether incoming data is validated but not buffered.
    drain: bool,
}

impl View for RecvBuf {
    type V = RecvState;

    closed spec fn view(&self) -> RecvState {
        RecvState {
            chunks: self.chunks(),
            gaps: intervals(self.nodes()),
            off: self.off,
            len: self.len,
            flow: self.flow_control@,
            fin_off: self.fin_off,
            error: self.error,
            drain: self.drain,
        }
    }
}

impl Default for RecvBuf {
    fn default() -> (r: RecvBuf)
        ensures
            r.wf(),
            r@ == RecvState::initial(0, 0, 0),
    {
        RecvBuf::new(0, 0, 0)
    }
}

/// What to do with data that is read.
pub enum RecvAction<'a, B: Storage> {
    /// Write the data into the given storage, as much as it has room for.
    Emit { out: &'a mut B },
    /// Drop up to the given number of bytes.
    Discard { len: usize },
}

impl<'a, B: Storage> RecvAction<'a, B> {
    /// How many bytes may be read.
    pub open spec fn capacity(&self) -> nat {
        match *self {
            RecvAction::Emit { out } => out.space().remaining,
            RecvAction::Discard { len } => len as nat,
        }
    }

    /// The space that there is for the data.
    pub open spec fn space(&self) -> Option<Space> {
        match *self {
            RecvAction::Emit { out } => Some(out.space()),
            RecvAction::Discard { len } => None,
        }
    }

    /// What holds of the storage.
    pub open spec fn valid(&self) -> bool {
        match *self {
            RecvAction::Emit { out } => out.valid(),
            RecvAction::Discard { len } => true,
        }
    }
}

/// As much may be read as the storage wants, or as is to be dropped.
pub proof fn law_capacity<'a, B: Storage>(action: RecvAction<'a, B>)
    ensures
        action.space() matches Some(space) ==> action.capacity() == space.remaining,
        action matches RecvAction::Discard { len } ==> action.capacity() == len,
        action is Emit <==> action.space() is Some,
{
}

/// What a reset means for the connection's flow control.
#[derive(Debug, PartialEq, Eq, Structural)]
pub struct RecvBufResetReturn {
    /// By how much the received length of the stream grows.
    pub max_data_delta: u64,
    /// How many bytes are given back as consumed.
    pub consumed_flowcontrol: u64,
}

impl RecvBufResetReturn {
    /// Nothing changes.
    pub fn zero() -> (r: Self)
        ensures
            r == (RecvBufResetReturn { max_data_delta: 0, consumed_flowcontrol: 0 }),
    {
        RecvBufResetReturn { max_data_delta: 0, consumed_flowcontrol: 0 }
    }
}

/// The most gaps that are tracked.
pub const MAX_GAPS: usize = 1000;

impl Gaps {
    pub closed spec fn nodes(&self) -> Seq<(LinkedListIndex, ByteInterval)> {
        gap_nodes(self.0)
    }
}

impl Default for Gaps {
    /// A single gap that covers everything.
    fn default() -> (r: Gaps)
        ensures
            r.nodes().len() == 1,
            r.nodes()[0].1 == (ByteInterval { start: 0, end: u64::MAX }),
    {
        let mut list = list_new();
        list_push_back(&mut list, ByteInterval { start: 0, end: u64::MAX });
        Gaps(list)
    }
}

/// Returns the gap of the node at position `k`, and the handle of the next one.
fn gap_at(list: &LinkedList<ByteInterval>, handle: LinkedListIndex, Ghost(k): Ghost<int>) -> (r: (
    ByteInterval,
    Option<LinkedListIndex>,
))
    requires
        0 <= k < gap_nodes(*list).len(),
        gap_nodes(*list)[k].0 == handle,
    ensures
        r == (gap_nodes(*list)[k].1, next_handle(gap_nodes(*list), k)),
{
    let (gap, _, next) = list_get(list, handle).unwrap();
    (gap, next)
}

/// Returns the handle of the node in front of the one at position `k`.
fn gap_before(list: &LinkedList<ByteInterval>, handle: LinkedListIndex, Ghost(k): Ghost<int>) -> (r:
    Option<LinkedListIndex>)
    requires
        0 <= k < gap_nodes(*list).len(),
        gap_nodes(*list)[k].0 == handle,
    ensures
        r == prev_handle(gap_nodes(*list), k),
{
    let (_, prev, _) = list_get(list, handle).unwrap();
    prev
}

impl RecvBuf {
    spec fn nodes(&self) -> Seq<(LinkedListIndex, ByteInterval)> {
        self.gaps.nodes()
    }

    spec fn chunks(&self) -> Map<u64, Seq<u8>> {
        chunk_map(self.data@)
    }

    spec fn same_but_data(&self, other: &RecvBuf) -> bool {
        &&& self.off == other.off
        &&& self.gaps == other.gaps
        &&& self.len == other.len
        &&& self.flow_control == other.flow_control
        &&& self.fin_off == other.fin_off
        &&& self.error == other.error
        &&& self.drain == other.drain
    }

    spec fn same_but_read(&self, other: &RecvBuf) -> bool {
        &&& self.gaps == other.gaps
        &&& self.len == other.len
        &&& self.flow_control == other.flow_control
        &&& self.fin_off == other.fin_off
        &&& self.error == other.error
        &&& self.drain == other.drain
    }

    spec fn same_but_sorter(&self, other: &RecvBuf) -> bool {
        &&& self.off == other.off
        &&& self.len == other.len
        &&& self.flow_control == other.flow_control
        &&& self.fin_off == other.fin_off
        &&& self.error == other.error
        &&& self.drain == other.drain
    }

    /// The invariant of a receive buffer.
    pub closed spec fn wf(&self) -> bool {
        &&& handles_distinct(self.nodes())
        &&& self@.wf()
    }

    /// The state of a receive buffer is well formed.
    pub proof fn law_state_wf(&self)
        requires
            self.wf(),
        ensures
            self@.wf(),
    {
    }

    /// Creates a new receive buffer.
    pub fn new(max_data: u64, initial_window: u64, max_window: u64) -> (r: RecvBuf)
        ensures
            r.wf(),
            r@ == RecvState::initial(max_data, initial_window, max_window),
    {
        let r = RecvBuf {
            data: HashMap::new(),
            off: 0,
            gaps: Gaps::default(),
            len: 0,
            flow_control: FlowControl::new(max_data, initial_window, max_window),
            fin_off: None,
            error: None,
            drain: false,
        };
        proof {
            assert(r.chunks() =~= Map::empty());
            let gaps = r@.gaps;
            assert(gaps =~= seq![ByteInterval { start: 0, end: u64::MAX }]);
            assert forall|x: int| 0 <= x < u64::MAX implies #[trigger] missing(gaps, x) by {
                assert(in_gap(gaps[0], x));
            }
        }
        r
    }

    /// Inserts the given chunk of data in the buffer.
    ///
    /// This also takes care of enforcing stream flow control limits, as well
    /// as handling incoming data that overlaps data that is already in the
    /// buffer.
    ///
    /// `has_room_for` tells whether there is room for the data.
    pub fn write(&mut self, buf: RangeBuf) -> (r: Result<(), Error>)
        requires
            old(self).wf(),
            old(self)@.room_for(buf.frame()),
        ensures
            final(self).wf(),
            r == old(self)@.write_result(buf.frame()),
            r is Err ==> final(self)@ == old(self)@,
            r is Ok ==> old(self)@.accepts(buf.frame(), final(self)@),
    {
        let ghost before = self@;
        let ghost frame = buf.frame();
        let max_off = buf.max_off();
        if max_off > self.max_data() {
            return Err(Error::FlowControl);
        }
        if let Some(fin_off) = self.fin_off {
            // Stream's size is known, forbid data beyond that point.
            if max_off > fin_off {
                return Err(Error::FinalSize);
            }
            // Stream's size is already known, forbid changing it.
            if buf.fin() && fin_off != max_off {
                return Err(Error::FinalSize);
            }
        }
        // Stream's known size is lower than data already received.
        if buf.fin() && max_off < self.len {
            return Err(Error::FinalSize);
        }
        // We already saved the final offset, so there's nothing else we
        // need to keep from the buffer if it's empty.
        if self.fin_off.is_some() && buf.is_empty() {
            return Ok(());
        }
        // No need to store empty buffer that doesn't carry the fin flag.
        if !buf.fin() && buf.is_empty() {
            return Ok(());
        }
        if buf.fin() {
            self.fin_off = Some(max_off);
        }
        if max_off > self.len {
            self.len = max_off;
        }
        if self.drain {
            // we are not storing any data, off == len
            self.off = self.len;
        } else if self.error.is_none() {
            if !buf.is_empty() {
                self.sorter_push(buf.off(), Bytes::copy_from_slice(buf.as_slice()));
                proof {
                    assert forall|x: int| self.len <= x < u64::MAX implies #[trigger] missing(
                        self@.gaps,
                        x,
                    ) by {
                        assert(missing(before.gaps, x));
                    }
                    if !no_empty(before.chunks) {
                        let k = choose|k: u64| #[trigger]
                            before.chunks.contains_key(k) && before.chunks[k].len() == 0;
                        assert(before.is_fin());
                        assert(frame.end() <= before.gaps[0].start);
                    }
                }
            } else if self.is_fin() && !self.ready() {
                // Empty fin with no data at the read position: insert a
                // zero-length sentinel so the application gets one
                // Ok((0, true)) notification.
                let ghost chunks = self.chunks();
                self.data.insert(self.off, Bytes::new());
                proof {
                    assert(self.chunks() =~= chunks.insert(self.off, Seq::empty()));
                    lemma_empty_chunk(chunks, before.gaps, self.off);
                }
            }
        }
        Ok(())
    }

    /// Resets the stream at the given offset.
    pub fn reset(&mut self, error_code: u64, final_size: u64) -> (r: Result<
        RecvBufResetReturn,
        Error,
    >)
        requires
            old(self).wf(),
        ensures
            final(self).wf(),
            old(self)@.reset_error(final_size) matches Some(e) ==> r == Err::<
                RecvBufResetReturn,
                Error,
            >(e) && final(self)@ == old(self)@,
            old(self)@.reset_error(final_size) is None ==> {
                &&& r == Ok::<RecvBufResetReturn, Error>(old(self)@.reset_credit(final_size))
                &&& final(self)@ == old(self)@.after_reset(error_code, final_size)
            },
    {
        // Stream's size is already known, forbid changing it.
        if let Some(fin_off) = self.fin_off {
            if fin_off != final_size {
                return Err(Error::FinalSize);
            }
        }
        // Stream's known size is lower than data already received.
        if final_size < self.len {
            return Err(Error::FinalSize);
        }
        // Final size must not exceed the stream-level flow control limit.
        if final_size > self.max_data() {
            return Err(Error::FlowControl);
        }
        if self.error.is_some() {
            // We already verified that the final size matches
            return Ok(RecvBufResetReturn::zero());
        }
        // Calculate how many bytes need to be removed from the connection flow
        // control.
        let result = RecvBufResetReturn {
            max_data_delta: final_size - self.len,
            consumed_flowcontrol: final_size - self.off,
        };
        self.error = Some(error_code);
        // Clear all data already buffered.
        self.off = final_size;
        self.data.clear();
        self.fin_off = Some(final_size);
        self.len = final_size;
        // Insert a sentinel so ready() returns true and the application
        // receives exactly one StreamReset notification via emit_or_discard.
        // Skip if already draining: shutdown() means the app is done reading.
        if !self.drain {
            self.data.insert(self.off, Bytes::new());
            assert(self.chunks() =~= map![final_size => Seq::empty()]);
        } else {
            assert(self.chunks() =~= Map::empty());
        }
        Ok(result)
    }

    /// Commits the new max_data limit.
    pub fn update_max_data(&mut self, now: u128)
        requires
            old(self).wf(),
        ensures
            final(self).wf(),
            final(self)@ == (RecvState { flow: old(self)@.flow.granted(now), ..old(self)@ }),
    {
        self.flow_control.update_max_data(now);
    }

    /// Return the new max_data limit.
    pub fn max_data_next(&mut self) -> (r: u64)
        ensures
            *final(self) == *old(self),
            r == old(self)@.flow.next_limit(),
    {
        self.flow_control.max_data_next()
    }

    /// Return the current flow control limit.
    pub fn max_data(&self) -> (r: u64)
        ensures
            r == self@.flow.max_data,
    {
        self.flow_control.max_data()
    }

    /// Return the current window.
    pub fn window(&self) -> (r: u64)
        ensures
            r == self@.flow.window,
    {
        self.flow_control.window()
    }

    /// Autotune the window size.
    pub fn autotune_window(&mut self, now: u128, rtt: u128)
        requires
            old(self).wf(),
        ensures
            final(self).wf(),
            final(self)@ == (RecvState { flow: old(self)@.flow.tuned(now, rtt), ..old(self)@ }),
    {
        self.flow_control.autotune_window(now, rtt);
    }

    /// Shuts down receiving data and returns the number of bytes
    /// that should be returned to the connection level flow
    /// control
    pub fn shutdown(&mut self) -> (r: Result<u64, Error>)
        requires
            old(self).wf(),
        ensures
            final(self).wf(),
            r == old(self)@.shutdown_result(),
            r is Err ==> final(self)@ == old(self)@,
            r is Ok ==> final(self)@ == old(self)@.after_shutdown(),
    {
        if self.drain {
            return Err(Error::Done);
        }
        self.drain = true;
        self.data.clear();
        assert(self.chunks() =~= Map::empty());
        let consumed = self.max_off() - self.off;
        self.off = self.max_off();
        Ok(consumed)
    }

    /// Returns the lowest offset of data buffered.
    pub fn off_front(&self) -> (r: u64)
        ensures
            r == self@.off,
    {
        self.off
    }

    /// Returns true if we need to update the local flow control limit.
    pub fn almost_full(&self) -> (r: bool)
        ensures
            r == self@.almost_full(),
    {
        self.fin_off.is_none() && self.flow_control.should_update_max_data()
    }

    /// Returns the largest offset ever received.
    pub fn max_off(&self) -> (r: u64)
        ensures
            r == self@.len,
    {
        self.len
    }

    /// Returns true if the receive-side of the stream is complete.
    ///
    /// This happens when the stream's receive final size is known, and the
    /// application has read all data from the stream.
    pub fn is_fin(&self) -> (r: bool)
        ensures
            r == self@.is_fin(),
    {
        match self.fin_off {
            Some(fin_off) => fin_off == self.off,
            None => false,
        }
    }

    /// Returns true if the stream is not storing incoming data.
    pub fn is_draining(&self) -> (r: bool)
        ensures
            r == self@.drain,
    {
        self.drain
    }

    /// Returns true if the stream has data to be read.
    pub fn ready(&self) -> (r: bool)
        ensures
            r == self@.ready(),
    {
        self.data.contains_key(&self.off)
    }

    /// Returns how many chunks are held.
    pub fn chunk_count(&self) -> (r: usize)
        ensures
            r == self@.chunks.len(),
    {
        proof {
            assert(self.chunks().dom() =~= self.data@.dom());
        }
        self.data.len()
    }

    /// Returns true if `write` can take the given data: it refuses the data or
    /// does not keep it, or the data ends below the largest offset and leaves at
    /// most `MAX_GAPS` gaps.
    pub fn has_room_for(&self, buf: &RangeBuf) -> (r: bool)
        requires
            self.wf(),
        ensures
            r == self@.room_for(buf.frame()),
    {
        let ghost frame = buf.frame();
        let end = buf.max_off();
        let start = buf.off();
        let refused = end > self.max_data() || (match self.fin_off {
            Some(fin_off) => end > fin_off || buf.fin() && end != fin_off,
            None => false,
        }) || buf.fin() && end < self.len;
        assert(refused == self@.write_result(frame) is Err);
        if refused || self.drain || self.error.is_some() || buf.is_empty() {
            return true;
        }
        if end == u64::MAX {
            return false;
        }
        list_len(&self.gaps.0) < MAX_GAPS || !self.splits_gap(start, end)
    }

    /// Returns true if `[start, end)` lies strictly inside one gap.
    fn splits_gap(&self, start: u64, end: u64) -> (r: bool)
        ensures
            r == splits_gap(self@.gaps, start as int, end as int),
    {
        let ghost nodes = self.nodes();
        let ghost mut i: int = 0;
        let mut next = list_head(&self.gaps.0);
        loop
            invariant
                nodes == self.nodes(),
                0 <= i <= nodes.len(),
                next == (if i < nodes.len() {
                    Some(nodes[i].0)
                } else {
                    None
                }),
                forall|k: int|
                    0 <= k < i ==> !((#[trigger] intervals(nodes)[k]).start < start && end
                        < intervals(nodes)[k].end),
            decreases nodes.len() - i,
        {
            match next {
                None => return false,
                Some(handle) => {
                    let (gap, following) = gap_at(&self.gaps.0, handle, Ghost(i));
                    assert(intervals(nodes)[i] == gap);
                    if gap.start < start && end < gap.end {
                        return true;
                    }
                    next = following;
                    proof {
                        i = i + 1;
                    }
                },
            }
        }
    }
}

} // verus!
