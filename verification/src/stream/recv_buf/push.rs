//! Sorting incoming data into the chunks and gaps of a receive buffer.
use crate::bytes_spec::bytes_seq;
use crate::stream::gap_list::ByteInterval;
use crate::stream::gap_list::list_get_mut;
use crate::stream::gap_list::list_head;
use crate::stream::gap_list::list_insert_after;
use crate::stream::gap_list::list_remove;
use crate::stream::gap_list::next_handle;
use crate::stream::gap_list::same_handle;
use crate::stream::recv_buf::chunk_map;
use crate::stream::recv_buf::gap_at;
use crate::stream::recv_buf::gap_before;
use crate::stream::recv_buf::handles_distinct;
use crate::stream::recv_buf::intervals;
use crate::stream::recv_buf::MAX_GAPS;
use crate::stream::recv_buf::RecvBuf;
use crate::stream::sorter::boundary;
use crate::stream::sorter::chain_end;
use crate::stream::sorter::chunk_end;
use crate::stream::sorter::gaps_cut;
use crate::stream::sorter::gaps_wf;
use crate::stream::sorter::holds;
use crate::stream::sorter::in_gap;
use crate::stream::sorter::lemma_below_first_gap;
use crate::stream::sorter::lemma_between_gaps;
use crate::stream::sorter::lemma_chunk_at;
use crate::stream::sorter::lemma_chunk_boundary;
use crate::stream::sorter::lemma_gap_boundary;
use crate::stream::sorter::lemma_gap_cut;
use crate::stream::sorter::lemma_kept;
use crate::stream::sorter::lemma_push_sorted;
use crate::stream::sorter::missing;
use crate::stream::sorter::no_empty;
use crate::stream::sorter::nothing_new;
use crate::stream::sorter::pushed_chunks;
use crate::stream::sorter::sorted;
use crate::stream::sorter::splits_gap;
use crate::stream::sorter::without_range;
use bytes::Bytes;
use fast_list::LinkedListIndex;
use vstd::prelude::*;

verus! {

broadcast use vstd::std_specs::hash::group_hash_axioms;

/// The gaps that a frame begins and ends in or next to.
struct Ends {
    start_gap: LinkedListIndex,
    starts_in_gap: bool,
    sg: ByteInterval,
    end_gap: LinkedListIndex,
    ends_in_gap: bool,
    eg: ByteInterval,
}

/// What is left of the gap that a frame begins in.
spec fn start_gap_rest(
    start_gap: LinkedListIndex,
    sg: ByteInterval,
    start: u64,
    end: u64,
    replaced: bool,
) -> Seq<(LinkedListIndex, ByteInterval)> {
    if start <= sg.start {
        if end >= sg.end {
            Seq::empty()
        } else {
            seq![(start_gap, ByteInterval { start: end, end: sg.end })]
        }
    } else if !replaced {
        seq![(start_gap, ByteInterval { start: sg.start, end: start })]
    } else {
        seq![(start_gap, sg)]
    }
}

/// `after` are the nodes `before` with one more at position `k`.
spec fn added(
    after: Seq<(LinkedListIndex, ByteInterval)>,
    before: Seq<(LinkedListIndex, ByteInterval)>,
    k: int,
    handle: LinkedListIndex,
    value: ByteInterval,
) -> bool {
    &&& after == before.insert(k, (handle, value))
    &&& forall|i: int| 0 <= i < before.len() ==> (#[trigger] before[i]).0 != handle
}

/// All between two neighbouring gaps has been received, and both ends of it lie
/// next to a missing byte.
proof fn lemma_region(nodes: Seq<(LinkedListIndex, ByteInterval)>, i: int)
    requires
        gaps_wf(intervals(nodes)),
        0 <= i,
        i + 1 < nodes.len(),
    ensures
        nodes[i].1.end < nodes[i + 1].1.start < u64::MAX,
        missing(intervals(nodes), nodes[i].1.end - 1),
        missing(intervals(nodes), nodes[i + 1].1.start as int),
        nothing_new(intervals(nodes), nodes[i].1.end as int, nodes[i + 1].1.start as int),
{
    let gaps = intervals(nodes);
    assert(gaps[i].start < gaps[i].end && gaps[i + 1].start < gaps[i + 1].end);
    assert(gaps[i].end < gaps[i + 1].start);
    assert(in_gap(gaps[i], gaps[i].end - 1));
    assert(in_gap(gaps[i + 1], gaps[i + 1].start as int));
    assert forall|x: int| gaps[i].end <= x < gaps[i + 1].start implies !#[trigger] missing(
        gaps,
        x,
    ) by {
        lemma_between_gaps(gaps, i, x);
    }
}

/// The nodes after a frame `[start, end)` came in that reaches from the gap at
/// `i` to the one at `j`: `left` and `right` are what is left of those two.
proof fn lemma_cut_nodes(
    nodes: Seq<(LinkedListIndex, ByteInterval)>,
    i: int,
    j: int,
    start: u64,
    end: u64,
    left: Seq<(LinkedListIndex, ByteInterval)>,
    right: Seq<(LinkedListIndex, ByteInterval)>,
    after: Seq<(LinkedListIndex, ByteInterval)>,
)
    requires
        gaps_wf(intervals(nodes)),
        handles_distinct(nodes),
        0 <= i <= j < nodes.len(),
        start < end < u64::MAX,
        start <= nodes[i].1.end,
        forall|k: int| 0 <= k < i ==> (#[trigger] nodes[k]).1.end < start,
        nodes[j].1.start <= end,
        i == j ==> nodes[i].1.start < end,
        end < nodes[j].1.end || j + 1 < nodes.len() && end < nodes[j + 1].1.start,
        if nodes[i].1.start < start {
            left == seq![(nodes[i].0, ByteInterval { start: nodes[i].1.start, end: start })]
        } else {
            left.len() == 0
        },
        if end < nodes[j].1.end {
            &&& right.len() == 1
            &&& right[0].1 == (ByteInterval { start: end, end: nodes[j].1.end })
            &&& forall|k: int|
                0 <= k < nodes.len() && (left.len() == 1 && k == i || k != i && k != j)
                    ==> (#[trigger] nodes[k]).0 != right[0].0
        } else {
            right.len() == 0
        },
        after == nodes.take(i) + left + right + nodes.skip(j + 1),
    ensures
        handles_distinct(after),
        gaps_cut(intervals(nodes), intervals(after), start as int, end as int),
        after.len() <= nodes.len() + 1,
        after.len() > nodes.len() ==> splits_gap(intervals(nodes), start as int, end as int),
{
    let gaps = intervals(nodes);
    assert(forall|k: int| 0 <= k < gaps.len() ==> #[trigger] gaps[k] == nodes[k].1);
    assert forall|k: int| j < k < gaps.len() implies end < (#[trigger] gaps[k]).start by {
        if j + 1 < k {
            assert(gaps[j + 1].end < gaps[k].start);
            assert(gaps[j + 1].start < gaps[j + 1].end);
        }
        assert(end < gaps[j].end ==> gaps[j].end < gaps[k].start);
    }
    let l = if gaps[i].start < start {
        seq![ByteInterval { start: gaps[i].start, end: start }]
    } else {
        Seq::empty()
    };
    let r = if end < gaps[j].end {
        seq![ByteInterval { start: end, end: gaps[j].end }]
    } else {
        Seq::empty()
    };
    assert(intervals(after) =~= gaps.take(i) + l + r + gaps.skip(j + 1));
    lemma_gap_cut(gaps, i, j, start, end, intervals(after));
    let at = i + left.len() + right.len();
    assert forall|x: int, y: int| 0 <= x < y < after.len() implies (#[trigger] after[x]).0 != (
    #[trigger] after[y]).0 by {
        let px = if x < i { x } else if x >= at { x - at + j + 1 } else { i };
        let py = if y < i { y } else if y >= at { y - at + j + 1 } else { i };
        assert(x < i || x >= at ==> after[x] == nodes[px]);
        assert(y < i || y >= at ==> after[y] == nodes[py]);
        assert(i <= x < i + left.len() ==> after[x].0 == nodes[i].0);
        assert(i <= y < i + left.len() ==> after[y].0 == nodes[i].0);
        assert(i + left.len() <= x < at ==> after[x] == right[0]);
        assert(i + left.len() <= y < at ==> after[y] == right[0]);
    }
}

/// No chunk begins inside a gap.
proof fn lemma_no_chunk_in_gap(
    chunks: Map<u64, Seq<u8>>,
    gaps: Seq<ByteInterval>,
    off: u64,
    i: int,
    k: u64,
)
    requires
        sorted(chunks, gaps, off),
        no_empty(chunks),
        0 <= i < gaps.len(),
        in_gap(gaps[i], k as int),
    ensures
        !chunks.contains_key(k),
{
    if chunks.contains_key(k) {
        assert(holds(chunks, k, k as int));
        assert(missing(gaps, k as int));
    }
}

impl RecvBuf {
    /// Returns the handle of the gap that contains or precedes `offset`, and
    /// whether `offset` falls inside that gap, of which its end counts as a
    /// part.
    fn find_start_gap(&self, offset: u64) -> (r: (LinkedListIndex, bool, Ghost<int>))
        requires
            gaps_wf(intervals(self.nodes())),
            intervals(self.nodes())[0].start <= offset,
        ensures
            0 <= r.2@ < self.nodes().len(),
            self.nodes()[r.2@].0 == r.0,
            self.nodes()[r.2@].1.start <= offset,
            forall|k: int|
                r.2@ < k < self.nodes().len() ==> offset < (#[trigger] self.nodes()[k]).1.start,
            r.1 == (offset <= self.nodes()[r.2@].1.end),
    {
        let ghost nodes = self.nodes();
        let ghost mut i: int = 0;
        let mut handle = list_head(&self.gaps.0).unwrap();
        loop
            invariant
                nodes == self.nodes(),
                gaps_wf(intervals(nodes)),
                0 <= i < nodes.len(),
                nodes[i].0 == handle,
                nodes[i].1.start <= offset,
            decreases nodes.len() - i,
        {
            let (gap, next) = gap_at(&self.gaps.0, handle, Ghost(i));
            let following = match next {
                Some(following) => {
                    let (after, _) = gap_at(&self.gaps.0, following, Ghost(i + 1));
                    if after.start <= offset {
                        Some(following)
                    } else {
                        None
                    }
                },
                None => None,
            };
            match following {
                Some(following) => {
                    handle = following;
                    proof {
                        i = i + 1;
                    }
                },
                None => {
                    proof {
                        assert forall|k: int| i < k < nodes.len() implies offset < (
                        #[trigger] nodes[k]).1.start by {
                            let gaps = intervals(nodes);
                            assert(gaps[k] == nodes[k].1 && gaps[i + 1] == nodes[i + 1].1);
                            assert(gaps[i + 1].start < gaps[i + 1].end);
                            if i + 1 < k {
                                assert(gaps[i + 1].end < gaps[k].start);
                            }
                        }
                    }
                    return (handle, offset <= gap.end, Ghost(i));
                },
            }
        }
    }

    /// Returns the handle of the gap, from `start_gap` on, that contains or
    /// follows `offset`, and whether `offset` falls inside that gap.
    fn find_end_gap(&self, start_gap: LinkedListIndex, Ghost(i): Ghost<int>, offset: u64) -> (r: (
        LinkedListIndex,
        bool,
        Ghost<int>,
    ))
        requires
            gaps_wf(intervals(self.nodes())),
            0 <= i < self.nodes().len(),
            self.nodes()[i].0 == start_gap,
            offset < u64::MAX,
        ensures
            i <= r.2@ < self.nodes().len(),
            self.nodes()[r.2@].0 == r.0,
            offset < self.nodes()[r.2@].1.end,
            forall|k: int| i <= k < r.2@ ==> (#[trigger] self.nodes()[k]).1.end <= offset,
            r.1 == in_gap(self.nodes()[r.2@].1, offset as int),
    {
        let ghost nodes = self.nodes();
        let ghost mut j: int = i;
        assert(intervals(nodes)[nodes.len() - 1].end == u64::MAX);
        let mut handle = start_gap;
        loop
            invariant
                nodes == self.nodes(),
                0 <= i <= j < nodes.len(),
                nodes[j].0 == handle,
                nodes[nodes.len() - 1].1.end == u64::MAX,
                offset < u64::MAX,
                forall|k: int| i <= k < j ==> (#[trigger] nodes[k]).1.end <= offset,
            decreases nodes.len() - j,
        {
            let (gap, next) = gap_at(&self.gaps.0, handle, Ghost(j));
            if offset < gap.end {
                return (handle, offset >= gap.start, Ghost(j));
            }
            handle = next.unwrap();
            proof {
                j = j + 1;
            }
        }
    }

    /// Returns the first gap that does not end before a frame that begins at
    /// `start`, and whether the frame begins inside it or at its end.
    fn first_gap_of(&self, start: u64) -> (r: (LinkedListIndex, bool, Ghost<int>))
        requires
            gaps_wf(intervals(self.nodes())),
            start < u64::MAX,
        ensures
            0 <= r.2@ < self.nodes().len(),
            self.nodes()[r.2@].0 == r.0,
            start <= self.nodes()[r.2@].1.end,
            forall|k: int| 0 <= k < r.2@ ==> (#[trigger] self.nodes()[k]).1.end < start,
            r.1 == (self.nodes()[r.2@].1.start <= start),
    {
        let ghost gaps = intervals(self.nodes());
        let head = list_head(&self.gaps.0).unwrap();
        let (first, _) = gap_at(&self.gaps.0, head, Ghost(0));
        assert(gaps[0] == first && gaps[0].start < gaps[0].end);
        if start < first.start {
            return (head, false, Ghost(0));
        }
        let (gap, inside, Ghost(i)) = self.find_start_gap(start);
        proof {
            assert forall|k: int| 0 <= k < i implies (#[trigger] self.nodes()[k]).1.end < start by {
                assert(gaps[k].end < gaps[i].start);
            }
            assert(gaps[gaps.len() - 1].end == u64::MAX);
        }
        if inside {
            return (gap, true, Ghost(i));
        }
        let (_, next) = gap_at(&self.gaps.0, gap, Ghost(i));
        proof {
            assert(gaps[i + 1].start < gaps[i + 1].end);
        }
        (next.unwrap(), false, Ghost(i + 1))
    }

    /// Returns the last gap, from `start_gap` on, that does not begin behind a
    /// frame that ends at `end`, and whether the byte there is missing; if all
    /// begin behind it, returns `start_gap`.
    fn last_gap_of(&self, start_gap: LinkedListIndex, Ghost(i): Ghost<int>, end: u64) -> (r: (
        LinkedListIndex,
        bool,
        Ghost<int>,
    ))
        requires
            gaps_wf(intervals(self.nodes())),
            handles_distinct(self.nodes()),
            0 <= i < self.nodes().len(),
            self.nodes()[i].0 == start_gap,
            end < u64::MAX,
        ensures
            i <= r.2@ < self.nodes().len(),
            self.nodes()[r.2@].0 == r.0,
            r.1 ==> in_gap(self.nodes()[r.2@].1, end as int),
            !r.1 ==> {
                ||| r.2@ + 1 < self.nodes().len() && self.nodes()[r.2@].1.end <= end && end
                    < self.nodes()[r.2@ + 1].1.start
                ||| r.2@ == i && end < self.nodes()[i].1.start
            },
    {
        let (gap, inside, Ghost(j)) = self.find_end_gap(start_gap, Ghost(i), end);
        if inside || same_handle(gap, start_gap) {
            return (gap, inside, Ghost(j));
        }
        assert(j > i);
        let prev = gap_before(&self.gaps.0, gap, Ghost(j)).unwrap();
        (prev, false, Ghost(j - 1))
    }

    /// Drops the chunks that lie back to back from `pos` on: those that begin
    /// in `[pos, to)`, where `to` is the next missing offset.
    fn delete_consecutive(
        &mut self,
        mut pos: u64,
        Ghost(whole): Ghost<Map<u64, Seq<u8>>>,
        Ghost(gaps): Ghost<Seq<ByteInterval>>,
        Ghost(off): Ghost<u64>,
        Ghost(to): Ghost<int>,
    )
        requires
            sorted(whole, gaps, off),
            no_empty(whole),
            off <= pos <= to < u64::MAX,
            boundary(whole, pos as int),
            nothing_new(gaps, pos as int, to),
            missing(gaps, to),
            forall|k: u64| #[trigger]
                old(self).chunks().contains_key(k) ==> whole.contains_key(k)
                    && old(self).chunks()[k] == whole[k],
            old(self).chunks().contains_key(pos) ==> forall|k: u64|
                pos <= k < to ==> (#[trigger] old(self).chunks().contains_key(k)
                    <==> whole.contains_key(k)),
        ensures
            final(self).same_but_data(old(self)),
            final(self).chunks() == (if old(self).chunks().contains_key(pos) {
                without_range(old(self).chunks(), pos as int, to)
            } else {
                old(self).chunks()
            }),
    {
        let ghost pos0 = pos;
        let ghost before = self.chunks();
        let ghost present = before.contains_key(pos);
        proof {
            assert(without_range(before, pos as int, pos as int) =~= before);
        }
        loop
            invariant
                self.same_but_data(old(self)),
                sorted(whole, gaps, off),
                no_empty(whole),
                off <= pos0 <= pos <= to < u64::MAX,
                boundary(whole, pos as int),
                nothing_new(gaps, pos0 as int, to),
                missing(gaps, to),
                forall|k: u64| #[trigger]
                    before.contains_key(k) ==> whole.contains_key(k) && before[k] == whole[k],
                present == before.contains_key(pos0),
                present ==> forall|k: u64|
                    pos0 <= k < to ==> (#[trigger] before.contains_key(k)
                        <==> whole.contains_key(k)),
                !present ==> pos == pos0,
                self.chunks() == without_range(before, pos0 as int, pos as int),
            ensures
                self.same_but_data(old(self)),
                self.chunks() == (if present {
                    without_range(before, pos0 as int, to)
                } else {
                    before
                }),
            decreases to - pos,
        {
            let ghost data = self.data@;
            match self.data.remove(&pos) {
                Some(entry) => {
                    proof {
                        assert(self.chunks().contains_key(pos) ==> false);
                        assert(chunk_map(data).contains_key(pos));
                        assert(before.contains_key(pos));
                        assert(whole.contains_key(pos));
                        assert(holds(whole, pos, pos as int));
                        assert(!missing(gaps, pos as int));
                        assert(pos < to);
                        assert(bytes_seq(entry) == chunk_map(data)[pos]);
                        assert(bytes_seq(entry) == whole[pos]);
                        lemma_chunk_at(whole, gaps, off, pos);
                        lemma_chunk_boundary(whole, pos);
                        if chunk_end(whole, pos) > to {
                            assert(holds(whole, pos, to));
                            assert(false);
                        }
                    }
                    let ghost at = pos;
                    pos = pos + entry.len() as u64;
                    proof {
                        assert forall|k: u64| #[trigger] before.contains_key(k) implies !(at < k
                            < pos) by {
                            assert(whole.contains_key(k));
                        }
                        assert(self.data@ == data.remove(at));
                        assert(self.chunks() =~= chunk_map(data).remove(at));
                        assert(chunk_map(data) == without_range(before, pos0 as int, at as int));
                        assert(self.chunks() =~= without_range(before, pos0 as int, pos as int));
                    }
                },
                None => {
                    proof {
                        assert(chunk_map(data) =~= self.chunks());
                        if present && pos < to {
                            lemma_chunk_at(whole, gaps, off, pos);
                            assert(before.contains_key(pos));
                            assert(chunk_map(data).contains_key(pos));
                        }
                    }
                    break;
                },
            }
        }
    }

    /// Replaces shorter existing frames with a longer one at `[start, end)`:
    /// drops the chunks that lie back to back from `start` on and end within
    /// the frame. Returns the offset up to which they were dropped and the new
    /// end of the frame, which is cut so that it ends where a longer chunk
    /// begins; `None` if the chunk at `start` is not shorter than the frame.
    fn replace_shorter(
        &mut self,
        start: u64,
        end: u64,
        Ghost(gaps): Ghost<Seq<ByteInterval>>,
        Ghost(off): Ghost<u64>,
    ) -> (r: Option<(u64, u64)>)
        requires
            sorted(old(self).chunks(), gaps, off),
            no_empty(old(self).chunks()),
            start < end < u64::MAX,
        ensures
            final(self).same_but_data(old(self)),
            r is None ==> {
                &&& final(self).chunks() == old(self).chunks()
                &&& old(self).chunks().contains_key(start)
                &&& old(self).chunks()[start].len() >= end - start
            },
            r matches Some((pos, cut)) ==> {
                &&& start <= pos <= cut <= end
                &&& final(self).chunks() == without_range(
                    old(self).chunks(),
                    start as int,
                    pos as int,
                )
                &&& nothing_new(gaps, start as int, pos as int)
                &&& pos > start ==> {
                    &&& off <= start
                    &&& boundary(old(self).chunks(), pos as int)
                    &&& old(self).chunks().contains_key(start)
                    &&& old(self).chunks()[start].len() < end - start
                    &&& chain_end(old(self).chunks(), start as int, end as int) == chain_end(
                        old(self).chunks(),
                        pos as int,
                        end as int,
                    )
                }
                &&& {
                    ||| cut == end && !old(self).chunks().contains_key(pos)
                    ||| {
                        &&& cut == pos
                        &&& pos > start
                        &&& old(self).chunks().contains_key(pos)
                        &&& chunk_end(old(self).chunks(), pos) > end
                    }
                }
            },
    {
        let ghost before = self.chunks();
        let mut pos: u64 = start;
        proof {
            assert(without_range(before, start as int, start as int) =~= before);
        }
        loop
            invariant
                self.same_but_data(old(self)),
                before == old(self).chunks(),
                sorted(before, gaps, off),
                no_empty(before),
                start < end < u64::MAX,
                start <= pos <= end,
                self.chunks() == without_range(before, start as int, pos as int),
                nothing_new(gaps, start as int, pos as int),
                pos > start ==> {
                    &&& off <= start
                    &&& boundary(before, pos as int)
                    &&& before.contains_key(start)
                    &&& before[start].len() < end - start
                    &&& chain_end(before, start as int, end as int) == chain_end(
                        before,
                        pos as int,
                        end as int,
                    )
                },
            decreases end - pos,
        {
            let ghost data = self.data@;
            match self.data.get(&pos) {
                None => {
                    assert(!self.chunks().contains_key(pos));
                    return Some((pos, end));
                },
                Some(chunk) => {
                    let old_len = chunk.len() as u64;
                    proof {
                        assert(self.chunks().contains_key(pos));
                        assert(before.contains_key(pos));
                        assert(self.chunks()[pos] == bytes_seq(*chunk));
                        assert(bytes_seq(*chunk) == before[pos]);
                    }
                    if end - pos > old_len || (pos > start && end - pos == old_len) {
                        let _ = self.data.remove(&pos);
                        let ghost at = pos;
                        pos = pos + old_len;
                        proof {
                            assert forall|k: u64| #[trigger] before.contains_key(k) implies !(at
                                < k < pos) by {}
                            assert(self.chunks() =~= chunk_map(data).remove(at));
                            assert(self.chunks() =~= without_range(
                                before,
                                start as int,
                                pos as int,
                            ));
                            lemma_chunk_boundary(before, at);
                            assert forall|x: int| start <= x < pos implies !#[trigger] missing(
                                gaps,
                                x,
                            ) by {
                                if x >= at {
                                    assert(holds(before, at, x));
                                }
                            }
                        }
                    } else {
                        if pos == start {
                            return None;
                        }
                        return Some((pos, pos));
                    }
                },
            }
        }
    }

    /// Update / remove the start gap. Returns whether its end was moved.
    fn update_start_gap(
        &mut self,
        start_gap: LinkedListIndex,
        sg: ByteInterval,
        start: u64,
        end: u64,
        replaced: bool,
        Ghost(i): Ghost<int>,
    ) -> (adjusted: bool)
        requires
            0 <= i < old(self).nodes().len(),
            old(self).nodes()[i] == (start_gap, sg),
        ensures
            final(self).same_but_sorter(old(self)),
            final(self).data == old(self).data,
            adjusted == (sg.start < start && !replaced),
            final(self).nodes() == old(self).nodes().take(i) + start_gap_rest(
                start_gap,
                sg,
                start,
                end,
                replaced,
            ) + old(self).nodes().skip(i + 1),
    {
        let ghost nodes = self.nodes();
        let ghost rest = start_gap_rest(start_gap, sg, start, end, replaced);
        let mut adjusted = false;
        if start <= sg.start {
            if end >= sg.end {
                list_remove(&mut self.gaps.0, start_gap);
            } else {
                list_get_mut(&mut self.gaps.0, start_gap).start = end;
            }
        } else if !replaced {
            list_get_mut(&mut self.gaps.0, start_gap).end = start;
            adjusted = true;
        }
        proof {
            assert(nodes[i].0 == start_gap);
            assert(self.nodes() =~= nodes.take(i) + rest + nodes.skip(i + 1));
        }
        adjusted
    }

    /// Remove intermediate gaps and their associated frames: the gaps between
    /// the ones at `i` and `j`, and the chunks between those two.
    fn remove_intermediate(
        &mut self,
        start_gap_end: u64,
        start_gap_next: Option<LinkedListIndex>,
        end_gap_start: u64,
        Ghost(nodes): Ghost<Seq<(LinkedListIndex, ByteInterval)>>,
        Ghost(front): Ghost<Seq<(LinkedListIndex, ByteInterval)>>,
        Ghost(i): Ghost<int>,
        Ghost(j): Ghost<int>,
        Ghost(whole): Ghost<Map<u64, Seq<u8>>>,
        Ghost(off): Ghost<u64>,
        Ghost(from): Ghost<int>,
        Ghost(done): Ghost<int>,
    )
        requires
            sorted(whole, intervals(nodes), off),
            no_empty(whole),
            0 <= i < j < nodes.len(),
            start_gap_end == nodes[i].1.end,
            start_gap_next == Some(nodes[i + 1].0),
            end_gap_start == nodes[j].1.start,
            old(self).nodes() == front + nodes.skip(i + 1),
            old(self).chunks() == without_range(whole, from, done),
            from <= start_gap_end,
            from <= done,
            done == nodes[i + 1].1.start && from == start_gap_end || done <= start_gap_end && (
            forall|k: u64| #[trigger] whole.contains_key(k) ==> !(done <= k < start_gap_end)),
        ensures
            final(self).same_but_sorter(old(self)),
            final(self).nodes() == front + nodes.skip(j),
            final(self).chunks() == without_range(whole, from, end_gap_start as int),
    {
        let ghost gaps = intervals(nodes);
        proof {
            lemma_region(nodes, i);
            lemma_gap_boundary(whole, gaps, off, start_gap_end as int);
            assert(off <= start_gap_end) by {
                assert(gaps[0].start < gaps[0].end);
                if i > 0 {
                    assert(gaps[0].end < gaps[i].start);
                    assert(gaps[i].start < gaps[i].end);
                }
            }
        }
        let ghost region_end = nodes[i + 1].1.start as int;
        self.delete_consecutive(
            start_gap_end,
            Ghost(whole),
            Ghost(gaps),
            Ghost(off),
            Ghost(region_end),
        );
        let ghost mut t: int = i + 1;
        let mut gap = start_gap_next;
        proof {
            if done == region_end && from == start_gap_end {
                assert(!without_range(whole, from, done).contains_key(start_gap_end));
            } else {
                if !without_range(whole, from, done).contains_key(start_gap_end) {
                    assert(!missing(gaps, start_gap_end as int));
                    lemma_chunk_at(whole, gaps, off, start_gap_end);
                    assert(false);
                }
                assert(self.chunks() =~= without_range(whole, from, region_end));
            }
        }
        loop
            invariant
                self.same_but_sorter(old(self)),
                sorted(whole, gaps, off),
                no_empty(whole),
                gaps == intervals(nodes),
                0 <= i < t <= j < nodes.len(),
                end_gap_start == nodes[j].1.start,
                gap == Some(nodes[t].0),
                self.nodes() == front + nodes.skip(t),
                from <= nodes[i].1.end,
                self.chunks() == without_range(whole, from, nodes[t].1.start as int),
            ensures
                self.same_but_sorter(old(self)),
                self.nodes() == front + nodes.skip(j),
                self.chunks() == without_range(whole, from, end_gap_start as int),
            decreases j - t,
        {
            let handle = gap.unwrap();
            let ghost at: int = front.len() as int;
            assert(self.nodes()[at] == nodes[t]);
            let (item, next) = gap_at(&self.gaps.0, handle, Ghost(at));
            proof {
                assert(gaps[t].start < gaps[t].end);
                assert(gaps[t] == nodes[t].1 && gaps[j] == nodes[j].1 && gaps[i] == nodes[i].1);
                assert(t < j ==> gaps[t].end < gaps[j].start);
                assert(gaps[i].end < gaps[t].start);
            }
            if item.end >= end_gap_start {
                break;
            }
            proof {
                assert(t < j);
                assert(next == Some(nodes[t + 1].0)) by {
                    assert(self.nodes()[at + 1] == nodes[t + 1]);
                }
                lemma_region(nodes, t);
                lemma_gap_boundary(whole, gaps, off, item.end as int);
                assert(off <= item.end) by {
                    assert(gaps[0].end < gaps[t].start);
                    assert(gaps[0].start < gaps[0].end);
                }
            }
            let ghost region_end = nodes[t + 1].1.start as int;
            let ghost chunks = self.chunks();
            proof {
                assert(!missing(gaps, item.end as int));
                lemma_chunk_at(whole, gaps, off, item.end);
                assert(chunks.contains_key(item.end));
            }
            self.delete_consecutive(
                item.end,
                Ghost(whole),
                Ghost(gaps),
                Ghost(off),
                Ghost(region_end),
            );
            proof {
                assert forall|k: u64| #[trigger] whole.contains_key(k) implies !(gaps[t].start <= k
                    < gaps[t].end) by {
                    if gaps[t].start <= k < gaps[t].end {
                        assert(holds(whole, k, k as int));
                        assert(in_gap(gaps[t], k as int));
                    }
                }
                assert(self.chunks() =~= without_range(whole, from, region_end));
            }
            let ghost before = self.nodes();
            assert(before[at].0 == handle);
            list_remove(&mut self.gaps.0, handle);
            proof {
                assert(self.nodes() =~= front + nodes.skip(t + 1));
                t = t + 1;
            }
            gap = next;
        }
    }

    /// Update / remove the end gap.
    fn update_end_gap(
        &mut self,
        start_gap: LinkedListIndex,
        end_gap: LinkedListIndex,
        same: bool,
        adjusted: bool,
        sg: ByteInterval,
        eg: ByteInterval,
        end: u64,
        Ghost(k): Ghost<int>,
    )
        requires
            same ==> sg == eg,
            same && adjusted && end != eg.end ==> 0 <= k < old(self).nodes().len()
                && old(self).nodes()[k].0 == start_gap,
            !same ==> 0 <= k < old(self).nodes().len() && old(self).nodes()[k] == (end_gap, eg),
            old(self).nodes().len() < 0xffff_fffe,
        ensures
            final(self).same_but_sorter(old(self)),
            final(self).data == old(self).data,
            same && adjusted && end != eg.end ==> exists|h: LinkedListIndex| #[trigger]
                added(
                    final(self).nodes(),
                    old(self).nodes(),
                    k + 1,
                    h,
                    ByteInterval { start: end, end: sg.end },
                ),
            same && !(adjusted && end != eg.end) ==> final(self).nodes() == old(self).nodes(),
            !same && end == eg.end ==> final(self).nodes() == old(self).nodes().remove(k),
            !same && end != eg.end ==> final(self).nodes() == old(self).nodes().update(
                k,
                (end_gap, ByteInterval { start: end, end: eg.end }),
            ),
    {
        let ghost nodes = self.nodes();
        if end == eg.end {
            if !same {
                assert(nodes[k].0 == end_gap);
                list_remove(&mut self.gaps.0, end_gap);
            }
        } else if same && adjusted {
            assert(nodes[k].0 == start_gap);
            let h = list_insert_after(
                &mut self.gaps.0,
                start_gap,
                ByteInterval { start: end, end: sg.end },
            );
            assert(added(
                self.nodes(),
                nodes,
                k + 1,
                h,
                ByteInterval { start: end, end: sg.end },
            ));
        } else if !same {
            assert(nodes[k].0 == end_gap);
            list_get_mut(&mut self.gaps.0, end_gap).start = end;
        }
    }

    /// Puts a frame that is not dropped in its place: trims it to what is kept
    /// of it, takes what it brings out of the gaps from `ends.start_gap` to
    /// `ends.end_gap`, and drops the chunks that it replaces.
    #[verifier::rlimit(50)]
    fn place_frame(
        &mut self,
        offset: u64,
        pos: u64,
        cut: u64,
        mut buf: Bytes,
        ends: Ends,
        start_gap_next: Option<LinkedListIndex>,
        Ghost(nodes): Ghost<Seq<(LinkedListIndex, ByteInterval)>>,
        Ghost(whole): Ghost<Map<u64, Seq<u8>>>,
        Ghost(i): Ghost<int>,
        Ghost(j): Ghost<int>,
        Ghost(range): Ghost<(u64, u64)>,
    )
        requires
            old(self).nodes() == nodes,
            handles_distinct(nodes),
            nodes.len() <= MAX_GAPS,
            sorted(whole, intervals(nodes), old(self).off),
            no_empty(whole),
            old(self).chunks() == without_range(whole, offset as int, pos as int),
            0 <= i <= j < nodes.len(),
            nodes[i] == (ends.start_gap, ends.sg),
            nodes[j] == (ends.end_gap, ends.eg),
            start_gap_next == next_handle(nodes, i),
            ends.starts_in_gap == (ends.sg.start <= offset),
            ends.ends_in_gap == in_gap(ends.eg, offset + bytes_seq(buf).len()),
            bytes_seq(buf).len() > 0,
            offset + bytes_seq(buf).len() < u64::MAX,
            offset <= ends.sg.end,
            forall|k: int| 0 <= k < i ==> (#[trigger] nodes[k]).1.end < offset,
            ends.eg.start <= offset + bytes_seq(buf).len(),
            i == j ==> ends.sg.start < offset + bytes_seq(buf).len(),
            offset + bytes_seq(buf).len() < ends.eg.end || j + 1 < nodes.len() && offset
                + bytes_seq(buf).len() < nodes[j + 1].1.start,
            offset <= pos <= cut <= offset + bytes_seq(buf).len(),
            range.0 == (if offset < ends.sg.start && pos == offset {
                ends.sg.start
            } else {
                offset
            }),
            range.1 == (if whole.contains_key(pos) {
                cut as int
            } else if offset + bytes_seq(buf).len() < ends.eg.end {
                offset + bytes_seq(buf).len()
            } else {
                ends.eg.end as int
            }),
            offset <= range.0 < range.1 <= offset + bytes_seq(buf).len(),
            whole.contains_key(pos) ==> i == j && offset == ends.sg.end && cut == pos && pos
                > offset,
            !whole.contains_key(pos) ==> cut == offset + bytes_seq(buf).len(),
            !whole.contains_key(pos) && pos > offset ==> {
                ||| offset == ends.sg.end && i < j && pos == nodes[i + 1].1.start
                ||| offset < ends.sg.start && pos == ends.sg.start
            },
            pos == offset ==> offset < ends.sg.end,
            nodes.len() == MAX_GAPS ==> !splits_gap(
                intervals(nodes),
                offset as int,
                offset + bytes_seq(buf).len(),
            ),
        ensures
            final(self).same_but_sorter(old(self)),
            handles_distinct(final(self).nodes()),
            final(self).nodes().len() <= MAX_GAPS,
            final(self).chunks() == without_range(whole, range.0 as int, range.1 as int).insert(
                range.0,
                bytes_seq(buf).subrange(range.0 - offset, range.1 - offset),
            ),
            gaps_cut(
                intervals(nodes),
                intervals(final(self).nodes()),
                offset as int,
                offset + bytes_seq(buf).len(),
            ),
    {
        let Ends { start_gap, starts_in_gap, sg, end_gap, ends_in_gap, eg } = ends;
        let ghost gaps = intervals(nodes);
        let ghost off = self.off;
        let ghost data = bytes_seq(buf);
        let ghost end0 = (offset + data.len()) as u64;
        let start_gap_equals_end_gap = same_handle(start_gap, end_gap);
        let mut start: u64 = offset;
        let mut end: u64 = offset + buf.len() as u64;
        let has_replaced_at_least_one = pos > start;
        proof {
            assert(start_gap_equals_end_gap <==> i == j);
            assert(gaps[i] == sg && gaps[j] == eg);
            assert(sg.start < sg.end && eg.start < eg.end);
            assert(i < j ==> sg.end < eg.start);
        }
        if cut < end {
            // Cut new frame so it ends where the existing frame starts.
            let _ = buf.split_off((cut - start) as usize);
            end = cut;
        }
        // Trim leading bytes that fall before the gap start.
        if !starts_in_gap && !has_replaced_at_least_one {
            buf = buf.split_off((sg.start - start) as usize);
            start = sg.start;
        }
        assert(start == range.0);
        assert(bytes_seq(buf) =~= data.subrange(start - offset, end - offset));
        let adjusted_start_gap_end = self.update_start_gap(
            start_gap,
            sg,
            start,
            end,
            has_replaced_at_least_one,
            Ghost(i),
        );
        let ghost left = if sg.start < offset {
            seq![(start_gap, ByteInterval { start: sg.start, end: offset })]
        } else {
            Seq::empty()
        };
        let ghost rest = start_gap_rest(start_gap, sg, start, end, has_replaced_at_least_one);
        if !start_gap_equals_end_gap {
            proof {
                assert(rest =~= left);
                assert forall|k: u64| #[trigger] whole.contains_key(k) implies !(sg.start <= k
                    < sg.end) by {
                    if sg.start <= k < sg.end {
                        lemma_no_chunk_in_gap(whole, gaps, off, i, k);
                    }
                }
                if pos == offset {
                    assert(self.chunks() =~= without_range(whole, start as int, start as int));
                }
            }
            let ghost done = if pos == offset {
                start as int
            } else {
                pos as int
            };
            let ghost front = nodes.take(i) + left;
            self.remove_intermediate(
                sg.end,
                start_gap_next,
                eg.start,
                Ghost(nodes),
                Ghost(front),
                Ghost(i),
                Ghost(j),
                Ghost(whole),
                Ghost(off),
                Ghost(start as int),
                Ghost(done),
            );
        }
        // Trim trailing bytes that fall past the end gap.
        if !ends_in_gap && start != eg.end && end > eg.end {
            let _ = buf.split_off((eg.end - start) as usize);
            end = eg.end;
        }
        assert(end == range.1);
        assert(bytes_seq(buf) =~= data.subrange(start - offset, end - offset));
        let ghost before = self.nodes();
        self.update_end_gap(
            start_gap,
            end_gap,
            start_gap_equals_end_gap,
            adjusted_start_gap_end,
            sg,
            eg,
            end,
            Ghost(i + if i < j { left.len() as int } else { 0int }),
        );
        proof {
            let after = self.nodes();
            let right = if end0 < eg.end {
                seq![after[i + left.len()]]
            } else {
                Seq::empty()
            };
            assert(after =~= nodes.take(i) + left + right + nodes.skip(j + 1));
            if i == j && end0 < eg.end && left.len() == 1 {
                assert(forall|k: int|
                    0 <= k < nodes.len() ==> before[k].0 == (#[trigger] nodes[k]).0);
            }
            lemma_cut_nodes(nodes, i, j, offset, end0, left, right, after);
        }
        let ghost chunks = self.chunks();
        self.data.insert(start, buf);
        proof {
            assert(self.chunks() =~= chunks.insert(start, bytes_seq(buf)));
            assert forall|k: u64| #[trigger] whole.contains_key(k) implies !(sg.start <= k < sg.end)
                && !(eg.start <= k < eg.end) by {
                if sg.start <= k < sg.end {
                    lemma_no_chunk_in_gap(whole, gaps, off, i, k);
                }
                if eg.start <= k < eg.end {
                    lemma_no_chunk_in_gap(whole, gaps, off, j, k);
                }
            }
            assert(self.chunks() =~= without_range(whole, range.0 as int, range.1 as int).insert(
                range.0,
                data.subrange(range.0 - offset, range.1 - offset),
            ));
        }
    }

    /// Insert a new frame, trimming or discarding bytes that overlap with
    /// already-received data. Longer frames replace shorter ones at the same
    /// position.
    pub(super) fn sorter_push(&mut self, offset: u64, mut buf: Bytes)
        requires
            handles_distinct(old(self).nodes()),
            sorted(old(self).chunks(), intervals(old(self).nodes()), old(self).off),
            bytes_seq(buf).len() > 0,
            offset + bytes_seq(buf).len() < u64::MAX,
            no_empty(old(self).chunks()) || offset + bytes_seq(buf).len() <= intervals(
                old(self).nodes(),
            )[0].start,
            old(self).nodes().len() <= MAX_GAPS,
            old(self).nodes().len() == MAX_GAPS ==> !splits_gap(
                intervals(old(self).nodes()),
                offset as int,
                offset + bytes_seq(buf).len(),
            ),
        ensures
            final(self).same_but_sorter(old(self)),
            handles_distinct(final(self).nodes()),
            final(self).nodes().len() <= MAX_GAPS,
            final(self).chunks() == pushed_chunks(
                old(self).chunks(),
                intervals(old(self).nodes()),
                offset as int,
                bytes_seq(buf),
            ),
            gaps_cut(
                intervals(old(self).nodes()),
                intervals(final(self).nodes()),
                offset as int,
                offset + bytes_seq(buf).len(),
            ),
            sorted(final(self).chunks(), intervals(final(self).nodes()), final(self).off),
            no_empty(old(self).chunks()) ==> no_empty(final(self).chunks()),
            offset + bytes_seq(buf).len() <= intervals(old(self).nodes())[0].start
                ==> final(self).chunks() == old(self).chunks() && final(self).nodes()
                == old(self).nodes(),
    {
        let ghost nodes = self.nodes();
        let ghost gaps = intervals(nodes);
        let ghost whole = self.chunks();
        let ghost off = self.off;
        let ghost data = bytes_seq(buf);
        let start: u64 = offset;
        let end: u64 = offset + buf.len() as u64;
        let head = list_head(&self.gaps.0).unwrap();
        let (first, _) = gap_at(&self.gaps.0, head, Ghost(0));
        if end <= first.start {
            proof {
                assert(gaps[0].start == first.start);
                assert forall|x: int| x < end implies !#[trigger] missing(gaps, x) by {
                    lemma_below_first_gap(gaps, x);
                }
            }
            return;
        }
        let (start_gap, starts_in_gap, Ghost(i)) = self.first_gap_of(start);
        let (end_gap, ends_in_gap, Ghost(j)) = self.last_gap_of(start_gap, Ghost(i), end);
        let start_gap_equals_end_gap = same_handle(start_gap, end_gap);
        let (sg, start_gap_next) = gap_at(&self.gaps.0, start_gap, Ghost(i));
        let (eg, _) = gap_at(&self.gaps.0, end_gap, Ghost(j));
        proof {
            assert(start_gap_equals_end_gap <==> i == j);
            assert(gaps[i] == sg && gaps[j] == eg);
            assert(forall|k: int| 0 <= k < gaps.len() ==> gaps[k] == (#[trigger] nodes[k]).1);
            assert(forall|k: int| 0 <= k < gaps.len() ==> #[trigger] gaps[k] == nodes[k].1);
        }
        if (start_gap_equals_end_gap && end <= sg.start) || (!start_gap_equals_end_gap && sg.end
            >= eg.start && end <= sg.start) {
            proof {
                assert(i == j);
                assert forall|x: int| start - 1 <= x < end implies !#[trigger] missing(gaps, x) by {
                    if i == 0 {
                        lemma_below_first_gap(gaps, x);
                    } else {
                        assert(gaps[i - 1].end < start);
                        lemma_between_gaps(gaps, i - 1, x);
                    }
                }
            }
            return;
        }
        let (pos, cut) = match self.replace_shorter(start, end, Ghost(gaps), Ghost(off)) {
            Some(r) => r,
            None => {
                proof {
                    assert forall|x: int| start <= x < end implies !#[trigger] missing(gaps, x) by {
                        assert(holds(whole, start, x));
                    }
                }
                return;
            },
        };
        let ghost range = lemma_kept(whole, gaps, off, i, j, start, end, pos, cut);
        self.place_frame(
            offset,
            pos,
            cut,
            buf,
            Ends { start_gap, starts_in_gap, sg, end_gap, ends_in_gap, eg },
            start_gap_next,
            Ghost(nodes),
            Ghost(whole),
            Ghost(i),
            Ghost(j),
            Ghost(range),
        );
        proof {
            let after = intervals(self.nodes());
            lemma_push_sorted(
                whole,
                gaps,
                off,
                offset,
                (offset + data.len()) as u64,
                range.0,
                range.1,
                data.subrange(range.0 - offset, range.1 - offset),
                after,
            );
        }
    }
}

} // verus!
