//! The mathematical model of the frame sorter.
//!
//! A sorter keeps *chunks*, byte sequences keyed by the stream offset of their
//! first byte, and *gaps*, the ranges of the stream that have not been received
//! yet. Everything at or above the read offset is in a gap or in exactly one
//! chunk.
use crate::stream::gap_list::ByteInterval;
use vstd::prelude::*;

verus! {

/// Whether offset `x` lies in `gap`.
pub open spec fn in_gap(gap: ByteInterval, x: int) -> bool {
    gap.start <= x < gap.end
}

/// Whether the byte at offset `x` has not been received yet.
pub open spec fn missing(gaps: Seq<ByteInterval>, x: int) -> bool {
    exists|i: int| 0 <= i < gaps.len() && #[trigger] in_gap(gaps[i], x)
}

/// Gaps are not empty, are ordered, do not touch, and the last one has no end.
pub open spec fn gaps_wf(gaps: Seq<ByteInterval>) -> bool {
    &&& gaps.len() > 0
    &&& forall|i: int| 0 <= i < gaps.len() ==> (#[trigger] gaps[i]).start < gaps[i].end
    &&& forall|i: int, j: int|
        0 <= i < j < gaps.len() ==> (#[trigger] gaps[i]).end < (#[trigger] gaps[j]).start
    &&& gaps[gaps.len() - 1].end == u64::MAX
}

/// The offset just past the chunk at `k`.
pub open spec fn chunk_end(chunks: Map<u64, Seq<u8>>, k: u64) -> int {
    k + chunks[k].len()
}

/// Whether the chunk at `k` holds offset `x`.
pub open spec fn holds(chunks: Map<u64, Seq<u8>>, k: u64, x: int) -> bool {
    chunks.contains_key(k) && k <= x < chunk_end(chunks, k)
}

/// Whether some chunk holds offset `x`.
pub open spec fn buffered(chunks: Map<u64, Seq<u8>>, x: int) -> bool {
    exists|k: u64| #[trigger] holds(chunks, k, x)
}

/// The byte that the chunks hold at offset `x`.
pub open spec fn byte_at(chunks: Map<u64, Seq<u8>>, x: int) -> u8 {
    let k = choose|k: u64| #[trigger] holds(chunks, k, x);
    chunks[k][x - k]
}

/// Chunks do not overlap.
pub open spec fn chunks_disjoint(chunks: Map<u64, Seq<u8>>) -> bool {
    forall|k1: u64, k2: u64|
        #[trigger] chunks.contains_key(k1) && #[trigger] chunks.contains_key(k2) && k1 < k2
            ==> chunk_end(chunks, k1) <= k2
}

/// The state of a sorter whose next byte to deliver is at `off`: all that was
/// received from there on is held, once, and nothing else is.
pub open spec fn sorted(chunks: Map<u64, Seq<u8>>, gaps: Seq<ByteInterval>, off: u64) -> bool {
    &&& gaps_wf(gaps)
    &&& off <= gaps[0].start
    &&& forall|k: u64| #[trigger] chunks.contains_key(k) ==> off <= k
    &&& chunks_disjoint(chunks)
    &&& forall|k: u64, x: int| #[trigger] holds(chunks, k, x) ==> x < u64::MAX && !missing(gaps, x)
    &&& forall|x: int| off <= x < u64::MAX && !#[trigger] missing(gaps, x) ==> buffered(chunks, x)
}

/// Every chunk holds something.
pub open spec fn no_empty(chunks: Map<u64, Seq<u8>>) -> bool {
    forall|k: u64| #[trigger] chunks.contains_key(k) ==> chunks[k].len() > 0
}

/// Whether offset `x` is not strictly inside a chunk.
pub open spec fn boundary(chunks: Map<u64, Seq<u8>>, x: int) -> bool {
    forall|k: u64| #[trigger] chunks.contains_key(k) ==> !(k < x < chunk_end(chunks, k))
}

/// Whether all bytes in `[start, end)` have been received.
pub open spec fn nothing_new(gaps: Seq<ByteInterval>, start: int, end: int) -> bool {
    forall|x: int| start <= x < end ==> !#[trigger] missing(gaps, x)
}

/// Whether `y` is the first missing offset at or above `x`.
pub open spec fn is_first_missing(gaps: Seq<ByteInterval>, x: int, y: int) -> bool {
    x <= y && missing(gaps, y) && nothing_new(gaps, x, y)
}

/// Whether `y` is just past the last missing offset below `x`.
pub open spec fn is_missing_end(gaps: Seq<ByteInterval>, x: int, y: int) -> bool {
    y <= x && missing(gaps, y - 1) && nothing_new(gaps, y, x)
}

/// Follows the chunks that lie back to back from `pos` on for as long as they
/// end at or before `end`; gives the offset just past the last of them.
pub open spec fn chain_end(chunks: Map<u64, Seq<u8>>, pos: int, end: int) -> int
    decreases end - pos,
{
    if 0 <= pos <= u64::MAX && chunks.contains_key(pos as u64) && chunks[pos as u64].len() > 0
        && chunk_end(chunks, pos as u64) <= end {
        chain_end(chunks, chunk_end(chunks, pos as u64), end)
    } else {
        pos
    }
}

/// The part of a frame `[start, end)` that is kept; `None` when the frame is
/// dropped as a duplicate.
///
/// - A frame that brings something new is kept from its start, if that byte is
///   missing or a chunk begins there, and else from the first missing byte. It
///   is kept up to its end, if the stream is missing the byte there, and else
///   up to the last byte that was missing.
/// - A frame that brings nothing new is kept only if it begins right behind a
///   gap and is longer than the chunk there: it then replaces all the chunks
///   from there on that it covers whole.
pub open spec fn kept_range(
    chunks: Map<u64, Seq<u8>>,
    gaps: Seq<ByteInterval>,
    start: int,
    end: int,
) -> Option<(int, int)> {
    if nothing_new(gaps, start, end) {
        if missing(gaps, start - 1) && chunks.contains_key(start as u64)
            && chunks[start as u64].len() < end - start {
            Some((start, chain_end(chunks, start, end)))
        } else {
            None
        }
    } else {
        let from = if missing(gaps, start) || chunks.contains_key(start as u64) {
            start
        } else {
            choose|y: int| is_first_missing(gaps, start, y)
        };
        let to = if missing(gaps, end) {
            end
        } else {
            choose|y: int| is_missing_end(gaps, end, y)
        };
        Some((from, to))
    }
}

/// The chunks without those that begin in `[from, to)`.
pub open spec fn without_range(chunks: Map<u64, Seq<u8>>, from: int, to: int) -> Map<
    u64,
    Seq<u8>,
> {
    chunks.filter_keys(|k: u64| !(from <= k < to))
}

/// The chunks after a frame with bytes `data` at `start` came in.
pub open spec fn pushed_chunks(
    chunks: Map<u64, Seq<u8>>,
    gaps: Seq<ByteInterval>,
    start: int,
    data: Seq<u8>,
) -> Map<u64, Seq<u8>> {
    match kept_range(chunks, gaps, start, start + data.len()) {
        None => chunks,
        Some((from, to)) => without_range(chunks, from, to).insert(
            from as u64,
            data.subrange(from - start, to - start),
        ),
    }
}

/// `after` are the gaps `before` without the bytes in `[start, end)`.
pub open spec fn gaps_cut(
    before: Seq<ByteInterval>,
    after: Seq<ByteInterval>,
    start: int,
    end: int,
) -> bool {
    &&& gaps_wf(after)
    &&& forall|x: int| #[trigger]
        missing(after, x) <==> missing(before, x) && !(start <= x < end)
}

/// What the chunks hold at offset `to` and behind it, in chunks that begin
/// there or later.
pub open spec fn chunks_from(chunks: Map<u64, Seq<u8>>, to: int) -> Map<u64, Seq<u8>> {
    let behind = chunks.filter_keys(|k: u64| k > to);
    if buffered(chunks, to) {
        let k = choose|k: u64| #[trigger] holds(chunks, k, to);
        behind.insert(to as u64, chunks[k].skip(to - k))
    } else {
        behind
    }
}

/// Whether a frame lies strictly inside one gap and so makes two of it.
pub open spec fn splits_gap(gaps: Seq<ByteInterval>, start: int, end: int) -> bool {
    exists|i: int|
        0 <= i < gaps.len() && (#[trigger] gaps[i]).start < start && end < gaps[i].end
}

/// Nothing below the first gap is missing.
pub proof fn lemma_below_first_gap(gaps: Seq<ByteInterval>, x: int)
    requires
        gaps_wf(gaps),
        x < gaps[0].start,
    ensures
        !missing(gaps, x),
{
    if missing(gaps, x) {
        let i = choose|i: int| 0 <= i < gaps.len() && #[trigger] in_gap(gaps[i], x);
        if i > 0 {
            assert(gaps[0].end < gaps[i].start);
        }
    }
}

/// Nothing from the end of one gap to the start of the next is missing.
pub proof fn lemma_between_gaps(gaps: Seq<ByteInterval>, i: int, x: int)
    requires
        gaps_wf(gaps),
        0 <= i,
        i + 1 < gaps.len(),
        gaps[i].end <= x < gaps[i + 1].start,
    ensures
        !missing(gaps, x),
{
    if missing(gaps, x) {
        let k = choose|k: int| 0 <= k < gaps.len() && #[trigger] in_gap(gaps[k], x);
        if k < i {
            assert(gaps[k].end < gaps[i].start);
        } else if k > i + 1 {
            assert(gaps[i + 1].end < gaps[k].start);
        }
    }
}

/// A chunk begins at every received offset that is not strictly inside one.
pub proof fn lemma_chunk_at(
    chunks: Map<u64, Seq<u8>>,
    gaps: Seq<ByteInterval>,
    off: u64,
    x: u64,
)
    requires
        sorted(chunks, gaps, off),
        off <= x < u64::MAX,
        !missing(gaps, x as int),
        boundary(chunks, x as int),
    ensures
        chunks.contains_key(x),
        chunks[x].len() > 0,
{
    assert(buffered(chunks, x as int));
    let k = choose|k: u64| #[trigger] holds(chunks, k, x as int);
    assert(chunks.contains_key(k));
    assert(k == x);
}

/// A missing offset, and one just behind a missing offset, is no inner offset
/// of a chunk.
pub proof fn lemma_gap_boundary(
    chunks: Map<u64, Seq<u8>>,
    gaps: Seq<ByteInterval>,
    off: u64,
    x: int,
)
    requires
        sorted(chunks, gaps, off),
        missing(gaps, x) || missing(gaps, x - 1),
    ensures
        boundary(chunks, x),
{
    assert forall|k: u64| #[trigger] chunks.contains_key(k) implies !(k < x < chunk_end(
        chunks,
        k,
    )) by {
        if k < x < chunk_end(chunks, k) {
            assert(holds(chunks, k, x));
            assert(holds(chunks, k, x - 1));
        }
    }
}

/// Where a chunk begins and where it ends is no inner offset of a chunk.
pub proof fn lemma_chunk_boundary(chunks: Map<u64, Seq<u8>>, k: u64)
    requires
        chunks_disjoint(chunks),
        chunks.contains_key(k),
    ensures
        boundary(chunks, k as int),
        boundary(chunks, chunk_end(chunks, k)),
{
    assert forall|k2: u64| #[trigger] chunks.contains_key(k2) implies !(k2 < chunk_end(chunks, k)
        < chunk_end(chunks, k2)) by {
        if k2 < k {
            assert(chunk_end(chunks, k2) <= k);
        } else if k < k2 {
            assert(chunk_end(chunks, k) <= k2);
        }
    }
    assert forall|k2: u64| #[trigger] chunks.contains_key(k2) implies !(k2 < k < chunk_end(
        chunks,
        k2,
    )) by {
        if k2 < k {
            assert(chunk_end(chunks, k2) <= k);
        }
    }
}

/// A frame turns the gaps from the one at `i` to the one at `j` into what is
/// left of them in front of the frame and behind it.
#[verifier::rlimit(40)]
pub proof fn lemma_gap_cut(
    gaps: Seq<ByteInterval>,
    i: int,
    j: int,
    start: u64,
    end: u64,
    after: Seq<ByteInterval>,
)
    requires
        gaps_wf(gaps),
        0 <= i <= j < gaps.len(),
        start < end,
        start <= gaps[i].end,
        forall|k: int| 0 <= k < i ==> (#[trigger] gaps[k]).end < start,
        gaps[j].start <= end,
        i == j ==> gaps[i].start < end,
        forall|k: int| j < k < gaps.len() ==> end < (#[trigger] gaps[k]).start,
        end < u64::MAX,
        after == gaps.take(i) + (if gaps[i].start < start {
            seq![ByteInterval { start: gaps[i].start, end: start }]
        } else {
            Seq::empty()
        }) + (if end < gaps[j].end {
            seq![ByteInterval { start: end, end: gaps[j].end }]
        } else {
            Seq::empty()
        }) + gaps.skip(j + 1),
    ensures
        gaps_cut(gaps, after, start as int, end as int),
        after.len() > gaps.len() ==> splits_gap(gaps, start as int, end as int),
        after.len() <= gaps.len() + 1,
{
    let l = if gaps[i].start < start {
        1int
    } else {
        0int
    };
    let r = if end < gaps[j].end {
        1int
    } else {
        0int
    };
    assert(after.len() == i + l + r + (gaps.len() - j - 1));
    assert(forall|k: int| 0 <= k < i ==> #[trigger] after[k] == gaps[k]);
    assert(l == 1 ==> after[i] == (ByteInterval { start: gaps[i].start, end: start }));
    assert(r == 1 ==> after[i + l] == (ByteInterval { start: end, end: gaps[j].end }));
    assert(forall|k: int|
        i + l + r <= k < after.len() ==> #[trigger] after[k] == gaps[k - (i + l + r) + j + 1]);
    assert(gaps_wf(after)) by {
        if j + 1 < gaps.len() {
            assert(after[after.len() - 1] == gaps[gaps.len() - 1]);
        }
        assert forall|k: int| 0 <= k < after.len() implies (#[trigger] after[k]).start
            < after[k].end by {}
        assert forall|x: int, y: int| 0 <= x < y < after.len() implies (#[trigger] after[x]).end
            < (#[trigger] after[y]).start by {}
    }
    assert forall|x: int| #[trigger] missing(after, x) <==> missing(gaps, x) && !(start <= x
        < end) by {
        if missing(after, x) {
            let k = choose|k: int| 0 <= k < after.len() && #[trigger] in_gap(after[k], x);
            if k < i {
                assert(in_gap(gaps[k], x));
            } else if k < i + l {
                assert(in_gap(gaps[i], x));
            } else if k < i + l + r {
                assert(in_gap(gaps[j], x));
            } else {
                let m = k - (i + l + r) + j + 1;
                assert(in_gap(gaps[m], x));
            }
        }
        if missing(gaps, x) && !(start <= x < end) {
            let k = choose|k: int| 0 <= k < gaps.len() && #[trigger] in_gap(gaps[k], x);
            if k < i {
                assert(in_gap(after[k], x));
            } else if k > j {
                assert(in_gap(after[k - j - 1 + i + l + r], x));
            } else if x < start {
                if k > i {
                    assert(gaps[i].end < gaps[k].start);
                }
                assert(in_gap(after[i], x));
            } else {
                if k < j {
                    assert(gaps[k].end < gaps[j].start);
                }
                assert(in_gap(after[i + l], x));
            }
        }
    }
    if after.len() > gaps.len() {
        assert(gaps[i].start < start && end < gaps[i].end);
    }
}

/// What a frame leaves behind is sorted again.
pub proof fn lemma_push_sorted(
    chunks: Map<u64, Seq<u8>>,
    gaps: Seq<ByteInterval>,
    off: u64,
    start: u64,
    end: u64,
    from: u64,
    to: u64,
    data: Seq<u8>,
    after: Seq<ByteInterval>,
)
    requires
        sorted(chunks, gaps, off),
        gaps_cut(gaps, after, start as int, end as int),
        start <= from < to <= end < u64::MAX,
        off <= from,
        data.len() == to - from,
        boundary(chunks, from as int),
        boundary(chunks, to as int),
        forall|x: int| start <= x < end && #[trigger] missing(gaps, x) ==> from <= x < to,
    ensures
        sorted(without_range(chunks, from as int, to as int).insert(from, data), after, off),
{
    let next = without_range(chunks, from as int, to as int).insert(from, data);
    assert(chunk_end(next, from) == to);
    assert forall|k: u64| #[trigger] next.contains_key(k) && k != from implies chunks.contains_key(
        k,
    ) && next[k] == chunks[k] && !(from <= k < to) && chunk_end(next, k) == chunk_end(
        chunks,
        k,
    ) by {}
    assert forall|k: u64| #[trigger] chunks.contains_key(k) && !(from <= k < to) implies
        next.contains_key(k) && next[k] == chunks[k] by {}
    assert forall|x: int| #[trigger] missing(after, x) implies missing(gaps, x) by {}
    assert(!missing(after, off - 1) || missing(gaps, off - 1));
    assert(off <= after[0].start) by {
        assert(in_gap(after[0], after[0].start as int));
        assert(missing(after, after[0].start as int));
        assert(missing(gaps, after[0].start as int));
        if after[0].start < off {
            lemma_below_first_gap(gaps, after[0].start as int);
        }
    }
    assert(chunks_disjoint(next)) by {
        assert forall|k1: u64, k2: u64|
            #[trigger] next.contains_key(k1) && #[trigger] next.contains_key(k2) && k1
                < k2 implies chunk_end(next, k1) <= k2 by {
            if k1 != from && k2 != from {
                assert(chunks.contains_key(k1) && chunks.contains_key(k2));
            } else if k2 == from {
                assert(chunks.contains_key(k1));
            }
        }
    }
    assert forall|k: u64, x: int| #[trigger] holds(next, k, x) implies x < u64::MAX && !missing(
        after,
        x,
    ) by {
        if k != from {
            assert(next.contains_key(k));
            assert(holds(chunks, k, x));
        }
    }
    assert forall|x: int| off <= x < u64::MAX && !#[trigger] missing(after, x) implies buffered(
        next,
        x,
    ) by {
        if from <= x < to {
            assert(holds(next, from, x));
        } else {
            if missing(gaps, x) {
                assert(start <= x < end);
                assert(false);
            }
            assert(buffered(chunks, x));
            let k = choose|k: u64| #[trigger] holds(chunks, k, x);
            assert(chunks.contains_key(k));
            assert(holds(next, k, x));
        }
    }
}

/// Only one chunk holds an offset, and what it holds there is the byte there.
pub proof fn lemma_byte_at(chunks: Map<u64, Seq<u8>>, k: u64, x: int)
    requires
        chunks_disjoint(chunks),
        holds(chunks, k, x),
    ensures
        byte_at(chunks, x) == chunks[k][x - k],
        forall|k2: u64| #[trigger] holds(chunks, k2, x) ==> k2 == k,
{
    assert forall|k2: u64| #[trigger] holds(chunks, k2, x) implies k2 == k by {
        assert(chunks.contains_key(k) && chunks.contains_key(k2));
    }
}

/// Taking the first `n` bytes away from the chunk at the front leaves what lies
/// behind them.
pub proof fn lemma_pop_front(
    chunks: Map<u64, Seq<u8>>,
    gaps: Seq<ByteInterval>,
    off: u64,
    n: int,
)
    requires
        sorted(chunks, gaps, off),
        chunks.contains_key(off),
        0 <= n <= chunks[off].len(),
        n > 0 || chunks[off].len() == 0,
        forall|k: u64| #[trigger]
            chunks.contains_key(k) && k != off ==> chunks[k].len() > 0,
    ensures
        off + n <= gaps[0].start,
        chunks_from(chunks, off + n) == (if n < chunks[off].len() {
            chunks.remove(off).insert((off + n) as u64, chunks[off].skip(n))
        } else {
            chunks.remove(off)
        }),
        sorted(chunks_from(chunks, off + n), gaps, (off + n) as u64),
        forall|x: int|
            off <= x < off + n ==> #[trigger] byte_at(chunks, x) == chunks[off][x - off],
        forall|x: int|
            #![trigger byte_at(chunks, x)]
            #![trigger byte_at(chunks_from(chunks, off + n), x)]
            off + n <= x && buffered(chunks, x) ==> byte_at(chunks_from(chunks, off + n), x)
                == byte_at(chunks, x),
        forall|k: u64| #[trigger]
            chunks_from(chunks, off + n).contains_key(k) && k != off + n ==> chunks.contains_key(k)
                && chunks_from(chunks, off + n)[k] == chunks[k] && k != off,
        forall|k: u64| #[trigger]
            chunks_from(chunks, off + n).contains_key(k) ==> chunks_from(chunks, off + n)[k].len()
                > 0,
{
    let to = off + n;
    let front = chunks[off];
    assert(gaps[0].start < gaps[0].end);
    assert(in_gap(gaps[0], gaps[0].start as int));
    assert(missing(gaps, gaps[0].start as int));
    if off + front.len() > gaps[0].start {
        assert(holds(chunks, off, gaps[0].start as int));
        assert(false);
    }
    let next = if n < front.len() {
        chunks.remove(off).insert(to as u64, front.skip(n))
    } else {
        chunks.remove(off)
    };
    assert forall|k: u64| #[trigger] chunks.contains_key(k) && k != off implies off + front.len()
        <= k by {}
    if n < front.len() {
        assert(holds(chunks, off, to));
        lemma_byte_at(chunks, off, to);
        assert(buffered(chunks, to));
        assert(chunks_from(chunks, to) =~= next);
    } else if buffered(chunks, to) {
        let k = choose|k: u64| #[trigger] holds(chunks, k, to);
        assert(chunks.contains_key(k));
        assert(k == to);
        assert(chunks[k].skip(0) =~= chunks[k]);
        assert(chunks_from(chunks, to) =~= next);
    } else {
        assert forall|k: u64| #[trigger] chunks.contains_key(k) && k != off implies k > to by {
            if k == to {
                assert(holds(chunks, k, to));
            }
        }
        assert(chunks_from(chunks, to) =~= next);
    }
    assert forall|x: int| off <= x < to implies #[trigger] byte_at(chunks, x) == front[x
        - off] by {
        assert(holds(chunks, off, x));
        lemma_byte_at(chunks, off, x);
    }
    assert forall|k: u64| #[trigger] next.contains_key(k) implies (if k == to && n < front.len() {
        next[k] == front.skip(n)
    } else {
        k != off && chunks.contains_key(k) && next[k] == chunks[k]
    }) by {}
    assert(chunks_disjoint(next)) by {
        assert forall|k1: u64, k2: u64|
            #[trigger] next.contains_key(k1) && #[trigger] next.contains_key(k2) && k1
                < k2 implies chunk_end(next, k1) <= k2 by {
            if k1 == to && n < front.len() {
                assert(chunks.contains_key(k2));
            } else {
                assert(chunks.contains_key(k1));
                if !(k2 == to && n < front.len()) {
                    assert(chunks.contains_key(k2));
                }
            }
        }
    }
    // what was held behind `to` still is
    assert forall|x: int| to <= x && #[trigger] buffered(chunks, x) implies buffered(next, x)
        && byte_at(next, x) == byte_at(chunks, x) by {
        let k = choose|k: u64| #[trigger] holds(chunks, k, x);
        lemma_byte_at(chunks, k, x);
        assert(chunks.contains_key(k));
        if k == off {
            assert(holds(next, to as u64, x));
            lemma_byte_at(next, to as u64, x);
        } else {
            assert(next.contains_key(k));
            assert(holds(next, k, x));
            lemma_byte_at(next, k, x);
        }
    }
    assert forall|k: u64, x: int| #[trigger] holds(next, k, x) implies x < u64::MAX && !missing(
        gaps,
        x,
    ) by {
        assert(next.contains_key(k));
        if k == to && n < front.len() {
            assert(holds(chunks, off, x));
        } else {
            assert(holds(chunks, k, x));
        }
    }
}

/// What lies behind an offset can be found in two steps.
pub proof fn lemma_chunks_from_twice(chunks: Map<u64, Seq<u8>>, a: int, b: int)
    requires
        chunks_disjoint(chunks),
        0 <= a <= b <= u64::MAX,
    ensures
        chunks_from(chunks_from(chunks, a), b) == chunks_from(chunks, b),
{
    let first = chunks_from(chunks, a);
    if buffered(chunks, a) {
        let k = choose|k: u64| #[trigger] holds(chunks, k, a);
        assert(first.contains_key(a as u64) && first[a as u64] == chunks[k].skip(a - k));
    }
    assert forall|k: u64| #[trigger] first.contains_key(k) && k != a implies chunks.contains_key(k)
        && first[k] == chunks[k] by {}
    assert(chunks_disjoint(first)) by {
        assert forall|k1: u64, k2: u64|
            #[trigger] first.contains_key(k1) && #[trigger] first.contains_key(k2) && k1
                < k2 implies chunk_end(first, k1) <= k2 by {
            assert(chunks.contains_key(k2));
            if k1 == a {
                let k = choose|k: u64| #[trigger] holds(chunks, k, a);
                assert(chunks.contains_key(k));
            } else {
                assert(chunks.contains_key(k1));
            }
        }
    }
    if buffered(chunks, b) {
        let k = choose|k: u64| #[trigger] holds(chunks, k, b);
        lemma_byte_at(chunks, k, b);
        assert(chunks.contains_key(k));
        if k <= a {
            assert(holds(chunks, k, a));
            lemma_byte_at(chunks, k, a);
            assert(holds(first, a as u64, b));
            lemma_byte_at(first, a as u64, b);
            assert(chunks[k].skip(a - k).skip(b - a) =~= chunks[k].skip(b - k));
        } else {
            assert(first.contains_key(k));
            assert(holds(first, k, b));
            lemma_byte_at(first, k, b);
        }
    } else if buffered(first, b) {
        let k = choose|k: u64| #[trigger] holds(first, k, b);
        assert(first.contains_key(k));
        if k == a {
            let k0 = choose|k: u64| #[trigger] holds(chunks, k, a);
            assert(holds(chunks, k0, b));
        } else {
            assert(holds(chunks, k, b));
        }
    }
    assert(chunks_from(first, b) =~= chunks_from(chunks, b));
}

/// An empty chunk at the read offset holds nothing.
pub proof fn lemma_empty_chunk(chunks: Map<u64, Seq<u8>>, gaps: Seq<ByteInterval>, off: u64)
    requires
        sorted(chunks, gaps, off),
        !chunks.contains_key(off),
    ensures
        sorted(chunks.insert(off, Seq::empty()), gaps, off),
{
    let next = chunks.insert(off, Seq::empty());
    assert forall|k: u64, x: int| #[trigger] holds(next, k, x) implies x < u64::MAX && !missing(
        gaps,
        x,
    ) by {
        assert(holds(chunks, k, x));
    }
    assert forall|x: int| off <= x < u64::MAX && !#[trigger] missing(gaps, x) implies buffered(
        next,
        x,
    ) by {
        assert(buffered(chunks, x));
        let k = choose|k: u64| #[trigger] holds(chunks, k, x);
        assert(holds(next, k, x));
    }
    assert(chunks_disjoint(next)) by {
        assert forall|k1: u64, k2: u64|
            #[trigger] next.contains_key(k1) && #[trigger] next.contains_key(k2) && k1
                < k2 implies chunk_end(next, k1) <= k2 by {
            if k1 != off {
                assert(chunks.contains_key(k1) && chunks.contains_key(k2));
            }
        }
    }
}

/// The part of a frame that is kept, found from the first gap that does not end
/// before the frame and the last one that does not begin behind it.
///
/// `pos` and `cut` are how far the chunks from `start` on are shorter than the
/// frame and where the frame then has to end.
pub proof fn lemma_kept(
    chunks: Map<u64, Seq<u8>>,
    gaps: Seq<ByteInterval>,
    off: u64,
    i: int,
    j: int,
    start: u64,
    end: u64,
    pos: u64,
    cut: u64,
) -> (range: (u64, u64))
    requires
        sorted(chunks, gaps, off),
        no_empty(chunks),
        start < end < u64::MAX,
        0 <= i <= j < gaps.len(),
        start <= gaps[i].end,
        forall|k: int| 0 <= k < i ==> (#[trigger] gaps[k]).end < start,
        gaps[j].start <= end,
        i == j ==> gaps[i].start < end,
        end < gaps[j].end || j + 1 < gaps.len() && end < gaps[j + 1].start,
        start <= pos <= cut <= end,
        nothing_new(gaps, start as int, pos as int),
        pos > start ==> {
            &&& off <= start
            &&& boundary(chunks, pos as int)
            &&& chunks.contains_key(start)
            &&& chunks[start].len() < end - start
            &&& chain_end(chunks, start as int, end as int) == chain_end(
                chunks,
                pos as int,
                end as int,
            )
        },
        cut == end && !chunks.contains_key(pos) || cut == pos && pos > start
            && chunks.contains_key(pos) && chunk_end(chunks, pos) > end,
    ensures
        range.0 == (if start < gaps[i].start && pos == start {
            gaps[i].start
        } else {
            start
        }),
        range.1 == (if chunks.contains_key(pos) {
            cut
        } else if end < gaps[j].end {
            end
        } else {
            gaps[j].end
        }),
        kept_range(chunks, gaps, start as int, end as int) == Some(
            (range.0 as int, range.1 as int),
        ),
        start <= range.0 < range.1 <= end,
        off <= range.0,
        boundary(chunks, range.0 as int),
        boundary(chunks, range.1 as int),
        forall|x: int|
            start <= x < end && #[trigger] missing(gaps, x) ==> range.0 <= x < range.1,
        chunks.contains_key(pos) ==> i == j && start == gaps[i].end,
        !chunks.contains_key(pos) && pos > start ==> {
            ||| start == gaps[i].end && i < j && pos == gaps[i + 1].start
            ||| start < gaps[i].start && pos == gaps[i].start
        },
        pos == start ==> start < gaps[i].end,
{
    let a = gaps[i].start;
    let b = gaps[i].end;
    let p = gaps[j].start;
    let q = gaps[j].end;
    let s = start as int;
    let e = end as int;
    assert(gaps[0].start < gaps[0].end);
    assert(a < b && p < q);
    assert(i < j ==> b < p);
    assert(in_gap(gaps[i], a as int) && in_gap(gaps[i], b - 1) && in_gap(gaps[j], p as int)
        && in_gap(gaps[j], q - 1));
    assert(missing(gaps, a as int) && missing(gaps, b - 1) && missing(gaps, p as int) && missing(
        gaps,
        q - 1,
    ));
    assert(off <= a) by {
        if i > 0 {
            assert(gaps[0].end < gaps[i].start);
        }
    }
    // between the gap before `i` and gap `i`
    assert forall|x: int| s <= x < a implies !#[trigger] missing(gaps, x) by {
        if i == 0 {
            lemma_below_first_gap(gaps, x);
        } else {
            assert(gaps[i - 1].end < start);
            lemma_between_gaps(gaps, i - 1, x);
        }
    }
    // behind gap `i`
    assert forall|x: int|
        i + 1 < gaps.len() && b <= x < gaps[i + 1].start implies !#[trigger] missing(gaps, x) by {
        lemma_between_gaps(gaps, i, x);
    }
    // behind gap `j`
    assert forall|x: int| q <= x <= end implies !#[trigger] missing(gaps, x) by {
        lemma_between_gaps(gaps, j, x);
    }
    if s == b {
        lemma_gap_boundary(chunks, gaps, off, s);
        if i + 1 < gaps.len() {
            assert(b < gaps[i + 1].start);
        }
        assert(!missing(gaps, s));
        lemma_chunk_at(chunks, gaps, off, start);
        assert(pos > start);
    }
    if chunks.contains_key(start) {
        assert(holds(chunks, start, s));
        assert(!missing(gaps, s));
        assert(s < a || s == b) by {
            if a <= s < b {
                assert(in_gap(gaps[i], s));
            }
        }
    }
    if pos > start && !chunks.contains_key(pos) {
        assert(missing(gaps, pos as int)) by {
            if !missing(gaps, pos as int) {
                lemma_chunk_at(chunks, gaps, off, pos);
            }
        }
        if s == b {
            assert(pos > b);
            assert(i + 1 < gaps.len());
            if pos > gaps[i + 1].start {
                assert(in_gap(gaps[i + 1], gaps[i + 1].start as int));
                assert(missing(gaps, gaps[i + 1].start as int));
                assert(false);
            }
            assert(pos == gaps[i + 1].start);
            assert(i < j);
        } else {
            assert(s < a);
            if pos > a {
                assert(false);
            }
            assert(pos == a);
        }
    }
    if chunks.contains_key(pos) {
        // the frame ends inside the chunk at `pos`
        assert(pos > start);
        assert forall|x: int| s <= x <= e implies !#[trigger] missing(gaps, x) by {
            if x >= pos {
                assert(holds(chunks, pos, x));
            }
        }
        if s < a {
            assert(a <= e);
            assert(false);
        }
        assert(s == b);
        if i < j {
            assert(s <= p <= e);
            assert(false);
        }
        assert(chain_end(chunks, pos as int, e) == pos);
        assert(nothing_new(gaps, s, e));
        assert(missing(gaps, s - 1));
        lemma_chunk_boundary(chunks, start);
        return (start, cut);
    }
    let from = if start < a && pos == start {
        a
    } else {
        start
    };
    let to = if end < q {
        end
    } else {
        q
    };
    assert(boundary(chunks, from as int)) by {
        if chunks.contains_key(from) {
            lemma_chunk_boundary(chunks, from);
        } else {
            assert(missing(gaps, from as int)) by {
                if from == start && pos == start {
                    assert(in_gap(gaps[i], s));
                }
            }
            lemma_gap_boundary(chunks, gaps, off, from as int);
        }
    }
    assert(boundary(chunks, to as int)) by {
        if end < q {
            assert(in_gap(gaps[j], e));
        }
        lemma_gap_boundary(chunks, gaps, off, to as int);
    }
    assert(missing(gaps, e) <==> end < q) by {
        if end < q {
            assert(in_gap(gaps[j], e));
        }
    }
    if nothing_new(gaps, s, e) {
        // all received: the frame begins at the end of gap `i` and ends where
        // the next one begins
        if pos == start {
            if s < a {
                assert(!missing(gaps, a as int));
            } else {
                assert(in_gap(gaps[i], s));
                assert(!missing(gaps, s));
            }
            assert(false);
        }
        if s < a {
            assert(!missing(gaps, a as int));
            assert(false);
        }
        assert(s == b && i < j && pos == gaps[i + 1].start);
        assert(pos == end) by {
            if pos < end {
                assert(!missing(gaps, pos as int));
            }
        }
        assert(in_gap(gaps[i + 1], e));
        assert(missing(gaps, e));
        assert(chain_end(chunks, pos as int, e) == pos);
        assert(to == end);
        assert(missing(gaps, s - 1));
        return (from, to);
    }
    // some byte is new
    assert(from as int == (if missing(gaps, s) || chunks.contains_key(start) {
        s
    } else {
        choose|y: int| is_first_missing(gaps, s, y)
    })) by {
        if !(missing(gaps, s) || chunks.contains_key(start)) {
            if a <= s < b {
                assert(in_gap(gaps[i], s));
            }
            assert(s < a && pos == start);
            assert(is_first_missing(gaps, s, a as int));
            let y = choose|y: int| is_first_missing(gaps, s, y);
            assert(is_first_missing(gaps, s, y));
            if y < a {
                assert(!missing(gaps, y));
            } else if a < y {
                assert(!missing(gaps, a as int));
            }
        } else if missing(gaps, s) {
            assert(s >= a);
        } else {
            assert(pos > start);
        }
    }
    assert(to as int == (if missing(gaps, e) {
        e
    } else {
        choose|y: int| is_missing_end(gaps, e, y)
    })) by {
        if !missing(gaps, e) {
            assert(is_missing_end(gaps, e, q as int));
            let y = choose|y: int| is_missing_end(gaps, e, y);
            assert(is_missing_end(gaps, e, y));
            if y < q {
                assert(!missing(gaps, q - 1));
            } else if q < y {
                assert(!missing(gaps, y - 1));
            }
        }
    }
    let x = choose|x: int| s <= x < e && #[trigger] missing(gaps, x);
    assert(s <= x < e && missing(gaps, x));
    assert forall|x: int| s <= x < e && #[trigger] missing(gaps, x) implies from <= x < to by {}
    (from, to)
}

} // verus!
