//! What holds of a receive buffer over several calls.
use crate::stream::error::Error;
use crate::stream::gap_list::ByteInterval;
use crate::stream::sorter::boundary;
use crate::stream::sorter::buffered;
use crate::stream::sorter::byte_at;
use crate::stream::sorter::chain_end;
use crate::stream::sorter::chunk_end;
use crate::stream::sorter::chunks_disjoint;
use crate::stream::sorter::chunks_from;
use crate::stream::sorter::gaps_cut;
use crate::stream::sorter::gaps_wf;
use crate::stream::sorter::holds;
use crate::stream::sorter::in_gap;
use crate::stream::sorter::is_first_missing;
use crate::stream::sorter::is_missing_end;
use crate::stream::sorter::kept_range;
use crate::stream::sorter::lemma_below_first_gap;
use crate::stream::sorter::lemma_byte_at;
use crate::stream::sorter::lemma_chunk_at;
use crate::stream::sorter::lemma_chunk_boundary;
use crate::stream::sorter::lemma_chunks_from_twice;
use crate::stream::sorter::lemma_gap_boundary;
use crate::stream::sorter::lemma_push_sorted;
use crate::stream::sorter::missing;
use crate::stream::sorter::nothing_new;
use crate::stream::sorter::pushed_chunks;
use crate::stream::sorter::sorted;
use crate::stream::sorter::splits_gap;
use crate::stream::state::Frame;
use crate::stream::state::RecvState;
use vstd::prelude::*;

verus! {

/// All that the buffer holds is what `stream` has at that offset.
pub open spec fn holds_of(state: RecvState, stream: spec_fn(int) -> u8) -> bool {
    forall|x: int| #[trigger]
        buffered(state.chunks, x) ==> byte_at(state.chunks, x) == stream(x)
}

/// The data of a frame is what `stream` has at that offset.
pub open spec fn carries(frame: Frame, stream: spec_fn(int) -> u8) -> bool {
    forall|i: int|
        0 <= i < frame.data.len() ==> #[trigger] frame.data[i] == stream(frame.start + i)
}

/// Some offset is the first missing one, if any is missing.
proof fn lemma_first_missing(gaps: Seq<ByteInterval>, lo: int, x: int)
    requires
        lo <= x,
        missing(gaps, x),
    ensures
        exists|y: int| y <= x && #[trigger] is_first_missing(gaps, lo, y),
    decreases x - lo,
{
    if nothing_new(gaps, lo, x) {
        assert(is_first_missing(gaps, lo, x));
    } else {
        let z = choose|z: int| lo <= z < x && #[trigger] missing(gaps, z);
        lemma_first_missing(gaps, lo, z);
        let y = choose|y: int| y <= z && #[trigger] is_first_missing(gaps, lo, y);
        assert(y <= x && is_first_missing(gaps, lo, y));
    }
}

/// Some offset is just past the last missing one, if any is missing.
proof fn lemma_missing_end(gaps: Seq<ByteInterval>, x: int, hi: int)
    requires
        x < hi,
        missing(gaps, x),
    ensures
        exists|y: int| x < y && #[trigger] is_missing_end(gaps, hi, y),
    decreases hi - x,
{
    if nothing_new(gaps, x + 1, hi) {
        assert(is_missing_end(gaps, hi, x + 1));
    } else {
        let z = choose|z: int| x + 1 <= z < hi && #[trigger] missing(gaps, z);
        lemma_missing_end(gaps, z, hi);
        let y = choose|y: int| z < y && #[trigger] is_missing_end(gaps, hi, y);
        assert(x < y && is_missing_end(gaps, hi, y));
    }
}

/// A chain of chunks ends where it has to.
proof fn lemma_chain_end(chunks: Map<u64, Seq<u8>>, pos: int, end: int)
    requires
        pos <= end,
    ensures
        pos <= chain_end(chunks, pos, end) <= end,
    decreases end - pos,
{
    if 0 <= pos <= u64::MAX && chunks.contains_key(pos as u64) && chunks[pos as u64].len() > 0
        && chunk_end(chunks, pos as u64) <= end {
        lemma_chain_end(chunks, chunk_end(chunks, pos as u64), end);
    }
}

/// What is kept of a frame is a part of it.
pub proof fn law_kept_part(
    chunks: Map<u64, Seq<u8>>,
    gaps: Seq<ByteInterval>,
    start: u64,
    end: int,
)
    requires
        start <= end,
    ensures
        kept_range(chunks, gaps, start as int, end) matches Some((from, to)) ==> start <= from
            <= to <= end,
{
    let s = start as int;
    if nothing_new(gaps, s, end) {
        lemma_chain_end(chunks, s, end);
    } else {
        let x = choose|x: int| s <= x < end && #[trigger] missing(gaps, x);
        lemma_first_missing(gaps, s, x);
        lemma_missing_end(gaps, x, end);
        let y0 = choose|y: int| y <= x && #[trigger] is_first_missing(gaps, s, y);
        let y = choose|y: int| is_first_missing(gaps, s, y);
        assert(is_first_missing(gaps, s, y));
        assert(y == y0) by {
            if y < y0 {
                assert(!missing(gaps, y));
            } else if y0 < y {
                assert(!missing(gaps, y0));
            }
        }
        let z0 = choose|z: int| x < z && #[trigger] is_missing_end(gaps, end, z);
        let z = choose|z: int| is_missing_end(gaps, end, z);
        assert(is_missing_end(gaps, end, z));
        assert(z == z0) by {
            if z < z0 {
                assert(!missing(gaps, z0 - 1));
            } else if z0 < z {
                assert(!missing(gaps, z - 1));
            }
        }
    }
}

/// Received data stays as it was sent: where what is held and what comes in
/// belong to one stream, what is held afterwards does, too.
pub proof fn law_write_keeps_content(
    state: RecvState,
    frame: Frame,
    next: RecvState,
    stream: spec_fn(int) -> u8,
)
    requires
        state.wf(),
        next.wf(),
        state.accepts(frame, next),
        holds_of(state, stream),
        carries(frame, stream),
    ensures
        holds_of(next, stream),
{
    assert forall|x: int| #[trigger] buffered(next.chunks, x) implies byte_at(next.chunks, x)
        == stream(x) by {
        let k = choose|k: u64| #[trigger] holds(next.chunks, k, x);
        assert(next.chunks.contains_key(k));
        if state.tells_nothing(frame) {
        } else if state.keeps() && frame.data.len() > 0 {
            let start = frame.start as int;
            law_kept_part(state.chunks, state.gaps, frame.start, frame.end());
            lemma_byte_at(next.chunks, k, x);
            match kept_range(state.chunks, state.gaps, start, frame.end()) {
                None => {
                    assert(buffered(state.chunks, x));
                },
                Some((from, to)) => {
                    if k == from as u64 {
                        let part = frame.data.subrange(from - start, to - start);
                        assert(next.chunks[k] == part);
                        assert(from <= to <= frame.end());
                        assert(from == from as u64) by {
                            lemma_from_fits(state, frame, from, to);
                        }
                        assert(part[x - k] == frame.data[x - start]);
                    } else {
                        assert(state.chunks.contains_key(k));
                        assert(holds(state.chunks, k, x));
                        lemma_byte_at(state.chunks, k, x);
                        assert(buffered(state.chunks, x));
                    }
                },
            }
        } else if next.chunks != state.chunks {
            assert(holds(state.chunks, k, x));
            lemma_byte_at(state.chunks, k, x);
            assert(buffered(state.chunks, x));
            lemma_byte_at(next.chunks, k, x);
        }
    }
}

/// What is kept of a frame begins at an offset of the stream.
proof fn lemma_from_fits(state: RecvState, frame: Frame, from: int, to: int)
    requires
        state.wf(),
        state.keeps(),
        kept_range(state.chunks, state.gaps, frame.start as int, frame.end()) == Some((from, to)),
    ensures
        0 <= from <= u64::MAX,
{
    law_kept_part(state.chunks, state.gaps, frame.start, frame.end());
    let start = frame.start as int;
    if from != start {
        assert(is_first_missing(state.gaps, start, from)) by {
            let x = choose|x: int| start <= x < frame.end() && #[trigger] missing(state.gaps, x);
            lemma_first_missing(state.gaps, start, x);
        }
        let i = choose|i: int|
            0 <= i < state.gaps.len() && #[trigger] in_gap(state.gaps[i], from);
    }
}

/// Nothing that came in is lost: what is held after a frame is what was held
/// before it and what it brought from the read offset on.
pub proof fn law_nothing_lost(state: RecvState, frame: Frame, next: RecvState)
    requires
        state.wf(),
        next.wf(),
        state.accepts(frame, next),
        state.keeps(),
        frame.end() < u64::MAX,
    ensures
        forall|x: int|
            state.off <= x ==> (#[trigger] buffered(next.chunks, x) <==> buffered(state.chunks, x)
                || frame.start <= x < frame.end()),
        frame.data.len() > 0 ==> nothing_new(next.gaps, frame.start as int, frame.end()),
{
    assert forall|x: int| state.off <= x implies (#[trigger] buffered(next.chunks, x) <==> buffered(
        state.chunks,
        x,
    ) || frame.start <= x < frame.end()) by {
        if state.tells_nothing(frame) {
        } else {
            lemma_buffered_iff(state, x);
            lemma_buffered_iff(next, x);
            if frame.data.len() > 0 {
                assert(missing(next.gaps, x) <==> missing(state.gaps, x) && !(frame.start <= x
                    < frame.end()));
            }
        }
    }
}

/// From the read offset on, an offset is held or missing.
proof fn lemma_buffered_iff(state: RecvState, x: int)
    requires
        state.wf(),
        state.keeps(),
        state.off <= x,
    ensures
        buffered(state.chunks, x) <==> x < u64::MAX && !missing(state.gaps, x),
{
    if buffered(state.chunks, x) {
        let k = choose|k: u64| #[trigger] holds(state.chunks, k, x);
    }
}

/// What was sent is what is read: the bytes handed out are those of the stream
/// from the read offset on, and what is still held belongs to the stream.
pub proof fn law_read_content(state: RecvState, cap: nat, stream: spec_fn(int) -> u8)
    requires
        state.wf(),
        holds_of(state, stream),
    ensures
        forall|i: int|
            0 <= i < state.read_out(cap).len() ==> #[trigger] state.read_out(cap)[i] == stream(
                state.off + i,
            ),
        holds_of(state.read(cap), stream),
{
    let out = state.read_out(cap);
    assert forall|i: int| 0 <= i < out.len() implies #[trigger] out[i] == stream(state.off
        + i) by {
        lemma_front_held(state, state.off + i);
    }
    if state.ready() && state.error is None {
        let next = state.after_read(cap);
        let to = state.off + state.read_len(cap);
        assert forall|x: int| #[trigger] buffered(next.chunks, x) implies byte_at(next.chunks, x)
            == stream(x) by {
            if cap > 0 {
                lemma_behind(state.chunks, to, x);
            }
        }
    } else {
        assert forall|x: int| #[trigger] buffered(state.read(cap).chunks, x) implies byte_at(
            state.read(cap).chunks,
            x,
        ) == stream(x) by {
            let k = choose|k: u64| #[trigger] holds(state.read(cap).chunks, k, x);
        }
    }
}

/// Everything in front of the first missing byte is held.
proof fn lemma_front_held(state: RecvState, x: int)
    requires
        state.wf(),
        state.keeps(),
        state.off <= x < state.gaps[0].start,
    ensures
        buffered(state.chunks, x),
{
    lemma_below_first_gap(state.gaps, x);
}

/// What lies behind an offset is what lay there before.
pub proof fn lemma_behind(chunks: Map<u64, Seq<u8>>, to: int, x: int)
    requires
        chunks_disjoint(chunks),
        0 <= to <= u64::MAX,
        buffered(chunks_from(chunks, to), x),
    ensures
        buffered(chunks, x),
        byte_at(chunks_from(chunks, to), x) == byte_at(chunks, x),
{
    let next = chunks_from(chunks, to);
    let k = choose|k: u64| #[trigger] holds(next, k, x);
    assert(next.contains_key(k));
    let k0 = if k == to {
        choose|k: u64| #[trigger] holds(chunks, k, to)
    } else {
        k
    };
    assert(holds(chunks, k0, x));
    lemma_byte_at(chunks, k0, x);
    assert forall|k1: u64, k2: u64|
        #[trigger] next.contains_key(k1) && #[trigger] next.contains_key(k2) && k1
            < k2 implies chunk_end(next, k1) <= k2 by {
        assert(chunks.contains_key(k2));
        if k1 == to {
            let k = choose|k: u64| #[trigger] holds(chunks, k, to);
            assert(chunks.contains_key(k));
        } else {
            assert(chunks.contains_key(k1));
        }
    }
    lemma_byte_at(next, k, x);
}

/// Reading in two steps gives the same as reading at once.
pub proof fn law_read_in_steps(state: RecvState, a: nat, b: nat)
    requires
        state.wf(),
        state.ready(),
        state.error is None,
        a > 0,
        state.after_read(a).wf(),
    ensures
        state.read_out(a) + state.after_read(a).read_out(b) == state.read_out(a + b),
        state.after_read(a).read(b) == state.after_read(a + b),
{
    let mid = state.after_read(a);
    let to = mid.off as int;
    assert(state.chunks.contains_key(state.off));
    assert(sorted(state.chunks, state.gaps, state.off));
    assert(state.off + state.read_len(a + b) <= u64::MAX);
    if mid.ready() {
        if b > 0 {
            lemma_chunks_from_twice(state.chunks, to, to + mid.read_len(b));
        }
        assert(mid.after_read(b) =~= state.after_read(a + b));
        assert forall|x: int| mid.off <= x < mid.off + mid.read_len(b) implies #[trigger] byte_at(
            mid.chunks,
            x,
        ) == byte_at(state.chunks, x) by {
            lemma_front_held(mid, x);
            lemma_behind(state.chunks, to, x);
        }
        let parts = state.read_out(a) + mid.read_out(b);
        let whole = state.read_out(a + b);
        assert forall|i: int| 0 <= i < whole.len() implies parts[i] == whole[i] by {
            let n = state.read_len(a) as int;
            if i >= n {
                assert(parts[i] == byte_at(mid.chunks, mid.off + (i - n)));
                assert(mid.off + (i - n) == state.off + i);
            }
        }
        assert(parts =~= whole);
    } else {
        // everything in front of the first gap was read
        assert(mid.off == state.gaps[0].start) by {
            if mid.off < state.gaps[0].start {
                lemma_front_held(mid, mid.off as int);
                let k = choose|k: u64| #[trigger] holds(mid.chunks, k, mid.off as int);
                assert(mid.chunks.contains_key(k));
                assert(k == mid.off);
            }
        }
        assert(state.read_out(a) + mid.read_out(b) =~= state.read_out(a + b));
    }
}

/// A reset is told exactly once: the first read after it gives the error code,
/// whatever comes in before, and every later one finds nothing.
pub proof fn law_reset_told_once(
    state: RecvState,
    error_code: u64,
    final_size: u64,
    frame: Frame,
    next: RecvState,
    cap: nat,
    later: nat,
)
    requires
        state.wf(),
        !state.drain,
        state.error is None,
        state.reset_error(final_size) is None,
        state.after_reset(error_code, final_size).write_result(frame) is Ok,
        state.after_reset(error_code, final_size).accepts(frame, next),
    ensures
        next == state.after_reset(error_code, final_size),
        next.read_result(cap) == Err::<(usize, bool), Error>(Error::StreamReset(error_code)),
        next.read(cap).read_result(later) == Err::<(usize, bool), Error>(Error::Done),
        next.read(cap).read(later) == next.read(cap),
        next.reset_error(final_size) is None && next.after_reset(error_code, final_size) == next,
{
    assert(next =~= state.after_reset(error_code, final_size));
}

/// An empty frame that ends a stream with nothing left to read is told exactly
/// once.
pub proof fn law_empty_fin_told_once(
    state: RecvState,
    frame: Frame,
    next: RecvState,
    cap: nat,
    later: nat,
)
    requires
        state.wf(),
        next.wf(),
        state.keeps(),
        state.fin_off is None,
        state.write_result(frame) is Ok,
        state.accepts(frame, next),
        frame.fin,
        frame.data.len() == 0,
        frame.start == state.off,
        cap > 0,
    ensures
        next.read_result(cap) == Ok::<(usize, bool), Error>((0, true)),
        next.read(cap).read_result(later) == Err::<(usize, bool), Error>(Error::Done),
{
    assert(next.off == next.len);
    assert(!state.ready()) by {
        if state.ready() {
            assert(state.chunks[state.off].len() > 0);
            assert(holds(state.chunks, state.off, state.off as int));
            assert(missing(state.gaps, state.off as int));
        }
    }
    assert(next.ready());
    assert(state.gaps[0].start == state.off) by {
        if state.off < state.gaps[0].start {
            lemma_below_first_gap(state.gaps, state.off as int);
            assert(state.gaps[0].start < state.gaps[0].end);
            assert(missing(state.gaps, state.off as int));
        }
    }
    let last = next.read(cap);
    assert(next.read_len(cap) == 0);
    assert(!last.chunks.contains_key(last.off)) by {
        if buffered(next.chunks, next.off as int) {
            let k = choose|k: u64| #[trigger] holds(next.chunks, k, next.off as int);
            assert(holds(state.chunks, k, next.off as int));
            assert(missing(state.gaps, next.off as int));
        }
    }
}

/// The final size of a stream, once known, never changes, and the largest offset
/// received stays there.
pub proof fn law_final_size_fixed(state: RecvState, frame: Frame, next: RecvState, fin_off: u64)
    requires
        state.wf(),
        state.fin_off == Some(fin_off),
    ensures
        state.write_result(frame) is Ok && state.accepts(frame, next) ==> next.fin_off == Some(
            fin_off,
        ) && next.len == fin_off,
        forall|cap: nat| (#[trigger] state.read(cap)).fin_off == Some(fin_off) && state.read(cap).len
            == fin_off,
        forall|error_code: u64, final_size: u64|
            state.reset_error(final_size) is None ==> (#[trigger] state.after_reset(
                error_code,
                final_size,
            )).fin_off == Some(fin_off) && state.after_reset(error_code, final_size).len
                == fin_off,
        state.after_shutdown().fin_off == Some(fin_off) && state.after_shutdown().len == fin_off,
{
}

/// After reading was given up, nothing is ever handed out again, and giving it
/// up again changes nothing.
pub proof fn law_shutdown_final(state: RecvState, frame: Frame, next: RecvState, cap: nat)
    requires
        state.wf(),
        state.write_result(frame) is Ok,
        state.drain,
        state.accepts(frame, next),
    ensures
        next.drain,
        next.off == next.len,
        next.read_result(cap) == Err::<(usize, bool), Error>(Error::Done),
        next.read(cap) == next,
        state.after_shutdown() == state,
{
    assert(state.after_shutdown() =~= state);
}

/// The gaps are determined by which offsets are missing.
pub proof fn law_gaps_determined(a: Seq<ByteInterval>, b: Seq<ByteInterval>)
    requires
        gaps_wf(a),
        gaps_wf(b),
        forall|x: int| #[trigger] missing(a, x) <==> missing(b, x),
    ensures
        a == b,
{
    assert forall|i: int| 0 <= i < a.len() implies i < b.len() && #[trigger] a[i] == b[i] by {
        lemma_same_gap(a, b, i);
    }
    assert forall|i: int| 0 <= i < b.len() implies i < a.len() && #[trigger] a[i] == b[i] by {
        lemma_same_gap(b, a, i);
    }
    if a.len() > b.len() {
        assert(a[b.len() as int] == a[b.len() as int]);
        lemma_same_gap(a, b, b.len() as int);
    }
    if b.len() > a.len() {
        lemma_same_gap(b, a, a.len() as int);
    }
    assert(a =~= b);
}

/// Two lists of the same missing offsets have the same gap at the same place.
proof fn lemma_same_gap(a: Seq<ByteInterval>, b: Seq<ByteInterval>, i: int)
    requires
        gaps_wf(a),
        gaps_wf(b),
        forall|x: int| #[trigger] missing(a, x) <==> missing(b, x),
        0 <= i < a.len(),
    ensures
        i < b.len(),
        a[i] == b[i],
    decreases i,
{
    if i > 0 {
        lemma_same_gap(a, b, i - 1);
    }
    assert(in_gap(a[i], a[i].start as int));
    assert(missing(a, a[i].start as int));
    assert(missing(b, a[i].start as int));
    let j = choose|j: int| 0 <= j < b.len() && #[trigger] in_gap(b[j], a[i].start as int);
    assert(i <= j) by {
        if j < i {
            assert(b[j].end <= b[i - 1].end);
            assert(a[i - 1].end < a[i].start);
        }
    }
    // the gap of `b` at `i` begins where that of `a` does
    assert(in_gap(b[i], b[i].start as int));
    assert(missing(a, b[i].start as int));
    let k = choose|k: int| 0 <= k < a.len() && #[trigger] in_gap(a[k], b[i].start as int);
    assert(k == i) by {
        if k < i {
            assert(a[k].end <= a[i - 1].end);
            assert(b[i - 1].end < b[i].start);
        } else if k > i {
            assert(a[i].end < a[k].start);
            if i < j {
                assert(b[i].start < b[j].start);
            }
        }
    }
    if i < j {
        assert(b[i].end < b[j].start);
    }
    assert(i == j);
    assert(a[i].start == b[i].start);
    // and ends where it does
    if a[i].end < b[i].end {
        let x = a[i].end as int;
        assert(in_gap(b[i], x));
        assert(missing(a, x));
        let m = choose|m: int| 0 <= m < a.len() && #[trigger] in_gap(a[m], x);
        assert(m != i);
    } else if b[i].end < a[i].end {
        let x = b[i].end as int;
        assert(in_gap(a[i], x));
        assert(missing(a, x));
        assert(missing(b, x));
        let m = choose|m: int| 0 <= m < b.len() && #[trigger] in_gap(b[m], x);
        assert(m != i);
    }
}

/// Data that was received before changes neither what is missing nor what is
/// read.
pub proof fn law_duplicate_changes_nothing(
    state: RecvState,
    frame: Frame,
    next: RecvState,
    stream: spec_fn(int) -> u8,
    cap: nat,
)
    requires
        state.wf(),
        next.wf(),
        state.keeps(),
        frame.data.len() > 0 || frame.end() <= state.len,
        state.accepts(frame, next),
        holds_of(state, stream),
        carries(frame, stream),
        nothing_new(state.gaps, frame.start as int, frame.end()),
        frame.end() < u64::MAX,
    ensures
        next.gaps == state.gaps,
        next.len == state.len,
        next.next_bytes(next.read_len(cap)) == state.next_bytes(state.read_len(cap)),
{
    if !state.tells_nothing(frame) {
        assert forall|x: int| #[trigger] missing(state.gaps, x) <==> missing(next.gaps, x) by {}
        law_gaps_determined(state.gaps, next.gaps);
        assert(next.len == state.len) by {
            if state.len < frame.end() {
                assert(missing(state.gaps, frame.end() - 1));
            }
        }
        law_write_keeps_content(state, frame, next, stream);
        let n = state.read_len(cap);
        assert forall|x: int| state.off <= x < state.off + n implies #[trigger] byte_at(
            next.chunks,
            x,
        ) == byte_at(state.chunks, x) by {
            lemma_front_held(state, x);
            lemma_front_held(next, x);
        }
        assert(next.next_bytes(n) =~= state.next_bytes(n));
    }
}

/// The order in which two frames come in does not matter to what can be read.
pub proof fn law_order_irrelevant(
    state: RecvState,
    one: Frame,
    two: Frame,
    after_one: RecvState,
    after_two: RecvState,
    one_two: RecvState,
    two_one: RecvState,
    stream: spec_fn(int) -> u8,
    cap: nat,
)
    requires
        state.wf(),
        state.keeps(),
        holds_of(state, stream),
        carries(one, stream),
        carries(two, stream),
        after_one.wf(),
        after_two.wf(),
        one_two.wf(),
        two_one.wf(),
        one.data.len() > 0,
        two.data.len() > 0,
        state.accepts(one, after_one),
        after_one.accepts(two, one_two),
        state.accepts(two, after_two),
        after_two.accepts(one, two_one),
    ensures
        one_two.gaps == two_one.gaps,
        one_two.len == two_one.len,
        one_two.next_bytes(one_two.read_len(cap)) == two_one.next_bytes(two_one.read_len(cap)),
{
    assert forall|x: int| #[trigger] missing(one_two.gaps, x) <==> missing(two_one.gaps, x) by {
        assert(missing(one_two.gaps, x) <==> missing(after_one.gaps, x) && !(two.start <= x
            < two.end()));
        assert(missing(two_one.gaps, x) <==> missing(after_two.gaps, x) && !(one.start <= x
            < one.end()));
        assert(missing(after_one.gaps, x) <==> missing(state.gaps, x) && !(one.start <= x
            < one.end()));
        assert(missing(after_two.gaps, x) <==> missing(state.gaps, x) && !(two.start <= x
            < two.end()));
    }
    law_gaps_determined(one_two.gaps, two_one.gaps);
    law_write_keeps_content(state, one, after_one, stream);
    law_write_keeps_content(after_one, two, one_two, stream);
    law_write_keeps_content(state, two, after_two, stream);
    law_write_keeps_content(after_two, one, two_one, stream);
    let n = one_two.read_len(cap);
    assert forall|x: int| state.off <= x < state.off + n implies #[trigger] byte_at(
        one_two.chunks,
        x,
    ) == byte_at(two_one.chunks, x) by {
        lemma_front_held(one_two, x);
        lemma_front_held(two_one, x);
    }
    assert(one_two.next_bytes(n) =~= two_one.next_bytes(n));
}

/// The first gap begins at the first missing offset.
pub proof fn law_first_gap(gaps: Seq<ByteInterval>)
    requires
        gaps_wf(gaps),
    ensures
        is_first_missing(gaps, 0, gaps[0].start as int),
{
    assert(gaps[0].start < gaps[0].end);
    assert(in_gap(gaps[0], gaps[0].start as int));
    assert forall|x: int| 0 <= x < gaps[0].start implies !#[trigger] missing(gaps, x) by {
        lemma_below_first_gap(gaps, x);
    }
}

/// A frame that holds the next byte to be read can be read at once, up to its
/// end at least.
pub proof fn law_next_frame_readable(state: RecvState, frame: Frame, next: RecvState, cap: nat)
    requires
        state.wf(),
        next.wf(),
        state.keeps(),
        state.accepts(frame, next),
        frame.start <= state.off < frame.end(),
    ensures
        next.ready(),
        next.read_len(cap) == cap || next.read_len(cap) >= frame.end() - state.off,
{
    law_first_gap(next.gaps);
    assert(forall|x: int| frame.start <= x < frame.end() ==> !#[trigger] missing(next.gaps, x));
    assert(next.gaps[0].start >= frame.end()) by {
        let first = next.gaps[0].start as int;
        assert(missing(next.gaps, first));
        if first < frame.end() {
            assert(next.off <= first);
        }
    }
    lemma_front_held(next, next.off as int);
    let k = choose|k: u64| #[trigger] holds(next.chunks, k, next.off as int);
    assert(next.chunks.contains_key(k));
}

/// As long as data is kept, flow control has counted exactly what was read.
pub proof fn law_consumed_is_read(state: RecvState)
    requires
        state.wf(),
        state.keeps(),
    ensures
        state.flow.consumed == state.off,
{
}

/// Nothing is read beyond the final size, and reading is told to be finished
/// exactly when it gets there.
pub proof fn law_finished_at_final_size(state: RecvState, cap: nat)
    requires
        state.wf(),
        cap <= usize::MAX,
    ensures
        state.fin_off matches Some(fin_off) ==> state.read(cap).off <= fin_off,
        state.read_result(cap) matches Ok((len, fin)) ==> fin == (state.fin_off == Some(
            (state.off + len) as u64,
        )),
{
    if state.ready() && state.error is None {
        assert(state.gaps[0].start <= state.len) by {
            if state.len < state.gaps[0].start {
                lemma_below_first_gap(state.gaps, state.len as int);
                assert(state.gaps[0].start < state.gaps[0].end);
                assert(missing(state.gaps, state.len as int));
            }
        }
    }
}

/// What was sent is read: when everything up to `end` has come in, a read with
/// enough space hands out what was sent, at least up to there.
pub proof fn law_received_is_read(
    state: RecvState,
    end: int,
    cap: nat,
    stream: spec_fn(int) -> u8,
)
    requires
        state.wf(),
        state.keeps(),
        holds_of(state, stream),
        state.off < end <= u64::MAX,
        nothing_new(state.gaps, state.off as int, end),
        cap >= end - state.off,
    ensures
        state.read_result(cap) is Ok,
        state.read_out(cap).len() >= end - state.off,
        forall|i: int|
            0 <= i < end - state.off ==> #[trigger] state.read_out(cap)[i] == stream(
                state.off + i,
            ),
{
    law_first_gap(state.gaps);
    let first = state.gaps[0].start as int;
    assert(missing(state.gaps, first));
    assert(end <= first);
    lemma_front_held(state, state.off as int);
    let k = choose|k: u64| #[trigger] holds(state.chunks, k, state.off as int);
    assert(state.chunks.contains_key(k));
    assert(state.ready());
    law_read_content(state, cap, stream);
}

/// Whether an offset is missing in exactly one gap or held by exactly one chunk,
/// and not both.
pub open spec fn in_one_place(
    chunks: Map<u64, Seq<u8>>,
    gaps: Seq<ByteInterval>,
    x: int,
) -> bool {
    &&& missing(gaps, x) <==> !buffered(chunks, x)
    &&& forall|i: int, j: int|
        0 <= i < gaps.len() && 0 <= j < gaps.len() && #[trigger] in_gap(gaps[i], x)
            && #[trigger] in_gap(gaps[j], x) ==> i == j
    &&& forall|k1: u64, k2: u64| #[trigger]
        holds(chunks, k1, x) && #[trigger] holds(chunks, k2, x) ==> k1 == k2
}

/// Every offset from the read offset on is missing once or held once.
pub proof fn law_partition(chunks: Map<u64, Seq<u8>>, gaps: Seq<ByteInterval>, off: u64, x: int)
    requires
        sorted(chunks, gaps, off),
        off <= x < u64::MAX,
    ensures
        in_one_place(chunks, gaps, x),
{
    if buffered(chunks, x) {
        let k = choose|k: u64| #[trigger] holds(chunks, k, x);
        lemma_byte_at(chunks, k, x);
    }
    assert forall|i: int, j: int|
        0 <= i < gaps.len() && 0 <= j < gaps.len() && #[trigger] in_gap(gaps[i], x)
            && #[trigger] in_gap(gaps[j], x) implies i == j by {
        if i < j {
            assert(gaps[i].end < gaps[j].start);
        } else if j < i {
            assert(gaps[j].end < gaps[i].start);
        }
    }
}

/// Following chunks back to back gets to the end of a chunk.
proof fn lemma_chain_boundary(
    chunks: Map<u64, Seq<u8>>,
    gaps: Seq<ByteInterval>,
    off: u64,
    pos: int,
    end: int,
)
    requires
        sorted(chunks, gaps, off),
        boundary(chunks, pos),
    ensures
        boundary(chunks, chain_end(chunks, pos, end)),
    decreases end - pos,
{
    if 0 <= pos <= u64::MAX && chunks.contains_key(pos as u64) && chunks[pos as u64].len() > 0
        && chunk_end(chunks, pos as u64) <= end {
        lemma_chunk_boundary(chunks, pos as u64);
        lemma_chain_boundary(chunks, gaps, off, chunk_end(chunks, pos as u64), end);
    }
}

/// Sorting a frame in keeps every offset missing once or held once: no received
/// byte is lost and none is held twice. Missing is what was missing and the frame
/// does not bring.
pub proof fn law_push_keeps_partition(
    chunks: Map<u64, Seq<u8>>,
    gaps: Seq<ByteInterval>,
    off: u64,
    start: u64,
    data: Seq<u8>,
    after: Seq<ByteInterval>,
)
    requires
        sorted(chunks, gaps, off),
        data.len() > 0,
        start + data.len() < u64::MAX,
        gaps_cut(gaps, after, start as int, start + data.len()),
    ensures
        sorted(pushed_chunks(chunks, gaps, start as int, data), after, off),
        forall|x: int|
            off <= x < u64::MAX ==> #[trigger] in_one_place(
                pushed_chunks(chunks, gaps, start as int, data),
                after,
                x,
            ),
        forall|x: int| #[trigger]
            missing(after, x) <==> missing(gaps, x) && !(start <= x < start + data.len()),
{
    let s = start as int;
    let e = start + data.len();
    let next = pushed_chunks(chunks, gaps, s, data);
    law_kept_part(chunks, gaps, start, e);
    match kept_range(chunks, gaps, s, e) {
        None => {
            assert forall|x: int| #[trigger] missing(gaps, x) <==> missing(after, x) by {}
            law_gaps_determined(gaps, after);
        },
        Some((from, to)) => {
            law_first_gap(gaps);
            assert forall|x: int| x < gaps[0].start implies !#[trigger] missing(gaps, x) by {
                lemma_below_first_gap(gaps, x);
            }
            if nothing_new(gaps, s, e) {
                lemma_gap_boundary(chunks, gaps, off, s);
                lemma_chain_boundary(chunks, gaps, off, s, e);
                if chunks[start].len() > 0 {
                    lemma_chain_end(chunks, chunk_end(chunks, start), e);
                } else {
                    assert(!missing(gaps, s));
                    lemma_chunk_at(chunks, gaps, off, start);
                }
            } else {
                let x = choose|x: int| s <= x < e && #[trigger] missing(gaps, x);
                lemma_first_missing(gaps, s, x);
                lemma_missing_end(gaps, x, e);
                if missing(gaps, s) {
                    lemma_gap_boundary(chunks, gaps, off, s);
                } else if chunks.contains_key(start) {
                    lemma_chunk_boundary(chunks, start);
                } else {
                    assert(is_first_missing(gaps, s, from));
                    lemma_gap_boundary(chunks, gaps, off, from);
                }
                if !missing(gaps, e) {
                    assert(is_missing_end(gaps, e, to));
                }
                lemma_gap_boundary(chunks, gaps, off, to);
                assert forall|y: int| s <= y < e && #[trigger] missing(gaps, y) implies from <= y
                    < to by {
                    if y < from {
                        assert(is_first_missing(gaps, s, from));
                    }
                    if y >= to {
                        assert(is_missing_end(gaps, e, to));
                    }
                }
                assert(from <= x < to);
            }
            lemma_push_sorted(
                chunks,
                gaps,
                off,
                start,
                e as u64,
                from as u64,
                to as u64,
                data.subrange(from - s, to - s),
                after,
            );
        },
    }
    assert forall|x: int| off <= x < u64::MAX implies #[trigger] in_one_place(next, after, x) by {
        law_partition(next, after, off, x);
    }
}

/// A frame that ends the stream, and a reset, make the final size known.
pub proof fn law_final_size_known(state: RecvState, frame: Frame, next: RecvState)
    requires
        state.wf(),
        frame.end() <= u64::MAX,
        state.write_result(frame) is Ok,
        state.accepts(frame, next),
        frame.fin,
    ensures
        next.fin_off == Some(frame.end() as u64),
        next.len == frame.end(),
        forall|error_code: u64, final_size: u64|
            state.reset_error(final_size) is None ==> (#[trigger] state.after_reset(
                error_code,
                final_size,
            )).fin_off == Some(final_size) && state.after_reset(error_code, final_size).len
                == final_size,
{
}

/// Neither the read offset nor the largest offset received ever goes back, and
/// the one never passes the other.
pub proof fn law_offsets_never_decrease(
    state: RecvState,
    frame: Frame,
    next: RecvState,
    cap: nat,
    error_code: u64,
    final_size: u64,
)
    requires
        state.wf(),
        frame.end() <= u64::MAX,
        state.write_result(frame) is Ok ==> state.accepts(frame, next),
        state.write_result(frame) is Err ==> next == state,
    ensures
        state.off <= next.off <= next.len && state.len <= next.len,
        state.off <= state.read(cap).off <= state.len && state.read(cap).len == state.len,
        state.reset_error(final_size) is None ==> {
            let reset = state.after_reset(error_code, final_size);
            state.off <= reset.off <= reset.len && state.len <= reset.len
        },
        state.off <= state.after_shutdown().off && state.after_shutdown().off
            == state.after_shutdown().len == state.len,
{
    if state.ready() && state.error is None {
        assert(state.gaps[0].start <= state.len) by {
            if state.len < state.gaps[0].start {
                lemma_below_first_gap(state.gaps, state.len as int);
                assert(state.gaps[0].start < state.gaps[0].end);
                assert(missing(state.gaps, state.len as int));
            }
        }
    }
}

/// Something can be read exactly if the next byte has come in, or if there is a
/// notice to be given.
proof fn lemma_ready(state: RecvState)
    requires
        state.wf(),
        state.keeps(),
    ensures
        state.off < state.gaps[0].start ==> state.ready(),
        state.ready() && state.off == state.gaps[0].start ==> state.is_fin()
            && state.chunks[state.off].len() == 0,
{
    law_first_gap(state.gaps);
    if state.off < state.gaps[0].start {
        lemma_front_held(state, state.off as int);
        let k = choose|k: u64| #[trigger] holds(state.chunks, k, state.off as int);
        assert(state.chunks.contains_key(k));
    } else if state.ready() && state.chunks[state.off].len() > 0 {
        assert(holds(state.chunks, state.off, state.off as int));
        assert(missing(state.gaps, state.off as int));
    }
}

/// Writing a frame again right away is accepted and changes nothing that can be
/// seen: neither an offset, nor the final size, nor what is missing, nor whether
/// there is something to be read. Where all data is of one stream, it does not
/// change what is read either.
pub proof fn law_repeat_changes_nothing(
    state: RecvState,
    frame: Frame,
    once: RecvState,
    twice: RecvState,
    stream: spec_fn(int) -> u8,
    cap: nat,
)
    requires
        state.wf(),
        once.wf(),
        twice.wf(),
        frame.end() <= u64::MAX,
        state.room_for(frame),
        state.write_result(frame) is Ok,
        state.accepts(frame, once),
        once.accepts(frame, twice),
    ensures
        once.write_result(frame) is Ok,
        once.room_for(frame),
        twice.gaps == once.gaps,
        twice.off == once.off,
        twice.len == once.len,
        twice.fin_off == once.fin_off,
        twice.error == once.error,
        twice.drain == once.drain,
        twice.flow == once.flow,
        twice.ready() == once.ready(),
        twice.is_fin() == once.is_fin(),
        once.keeps() && holds_of(state, stream) && carries(frame, stream) ==> holds_of(
            twice,
            stream,
        ) && twice.next_bytes(twice.read_len(cap)) == once.next_bytes(once.read_len(cap)),
{
    if once.tells_nothing(frame) {
        if holds_of(state, stream) && carries(frame, stream) {
            law_write_keeps_content(state, frame, once, stream);
        }
    } else if once.keeps() && frame.data.len() > 0 {
        assert(nothing_new(once.gaps, frame.start as int, frame.end()));
        assert forall|x: int| #[trigger] missing(once.gaps, x) <==> missing(twice.gaps, x) by {}
        law_gaps_determined(once.gaps, twice.gaps);
        assert(!splits_gap(once.gaps, frame.start as int, frame.end())) by {
            if splits_gap(once.gaps, frame.start as int, frame.end()) {
                let i = choose|i: int|
                    0 <= i < once.gaps.len() && (#[trigger] once.gaps[i]).start < frame.start
                        && frame.end() < once.gaps[i].end;
                assert(in_gap(once.gaps[i], frame.start as int));
                assert(missing(once.gaps, frame.start as int));
            }
        }
        lemma_ready(once);
        lemma_ready(twice);
        if once.off == once.gaps[0].start && (once.ready() || twice.ready()) {
            // nothing but a notice can lie at the read offset, and a frame that
            // ends in front of it leaves the chunks alone
            assert(frame.end() <= once.off);
            lemma_below_first_gap(once.gaps, frame.start - 1);
        }
        if holds_of(state, stream) && carries(frame, stream) {
            law_write_keeps_content(state, frame, once, stream);
            law_write_keeps_content(once, frame, twice, stream);
            let n = once.read_len(cap);
            assert forall|x: int| once.off <= x < once.off + n implies #[trigger] byte_at(
                twice.chunks,
                x,
            ) == byte_at(once.chunks, x) by {
                lemma_front_held(once, x);
                lemma_front_held(twice, x);
            }
            assert(twice.next_bytes(n) =~= once.next_bytes(n));
        }
    }
}

/// Data that was received before stays as it is, whatever a frame says of it,
/// unless the frame covers a whole chunk of it.
pub proof fn law_held_data_stays(state: RecvState, frame: Frame, next: RecvState, k: u64, x: int)
    requires
        state.wf(),
        next.wf(),
        state.keeps(),
        state.accepts(frame, next),
        frame.end() < u64::MAX,
        holds(state.chunks, k, x),
        k < frame.start || frame.end() < chunk_end(state.chunks, k) || frame.data.len() == 0,
    ensures
        buffered(next.chunks, x),
        byte_at(next.chunks, x) == state.chunks[k][x - k],
{
    assert(state.chunks.contains_key(k));
    if !state.tells_nothing(frame) && frame.data.len() > 0 {
        law_kept_part(state.chunks, state.gaps, frame.start, frame.end());
        if let Some((from, to)) = kept_range(
            state.chunks,
            state.gaps,
            frame.start as int,
            frame.end(),
        ) {
            lemma_from_fits(state, frame, from, to);
            if from <= k <= to && to < chunk_end(state.chunks, k) && (k < to || k == from) {
                // what lies at `to` would be lost
                law_nothing_lost(state, frame, next);
                assert(holds(state.chunks, k, to));
                assert(buffered(next.chunks, to));
                let k2 = choose|k2: u64| #[trigger] holds(next.chunks, k2, to);
                assert(next.chunks.contains_key(k2));
                assert(k2 != from);
                assert(state.chunks.contains_key(k2));
                assert(k2 == k);
            }
        }
    } else if next.chunks != state.chunks {
        assert(k != state.off);
    }
    assert(next.chunks.contains_key(k) && next.chunks[k] == state.chunks[k]);
    assert(holds(next.chunks, k, x));
    lemma_byte_at(next.chunks, k, x);
}

/// What was missing is filled with the bytes of the frame that brings it, and so
/// is what lies between two such bytes.
pub proof fn law_missing_data_is_filled(
    state: RecvState,
    frame: Frame,
    next: RecvState,
    a: int,
    x: int,
    b: int,
)
    requires
        state.wf(),
        next.wf(),
        state.keeps(),
        state.accepts(frame, next),
        frame.start <= a <= x <= b < frame.end() < u64::MAX,
        missing(state.gaps, a),
        missing(state.gaps, b),
    ensures
        buffered(next.chunks, x),
        byte_at(next.chunks, x) == frame.data[x - frame.start],
        !missing(next.gaps, x),
{
    let start = frame.start as int;
    law_kept_part(state.chunks, state.gaps, frame.start, frame.end());
    let (from, to) = kept_range(state.chunks, state.gaps, start, frame.end()).unwrap();
    lemma_from_fits(state, frame, from, to);
    lemma_first_missing(state.gaps, start, a);
    lemma_missing_end(state.gaps, b, frame.end());
    if from != start {
        assert(is_first_missing(state.gaps, start, from));
    }
    if to != frame.end() {
        assert(is_missing_end(state.gaps, frame.end(), to));
    }
    assert(from <= a && b < to);
    assert(holds(next.chunks, from as u64, x));
    lemma_byte_at(next.chunks, from as u64, x);
    assert(missing(next.gaps, x) ==> !(start <= x < frame.end()));
}

/// A frame that brings nothing new is dropped, unless it begins right behind a
/// gap and is longer than the chunk there, whose bytes it then replaces.
pub proof fn law_nothing_new_is_dropped(state: RecvState, frame: Frame, next: RecvState, x: int)
    requires
        state.wf(),
        next.wf(),
        state.keeps(),
        state.accepts(frame, next),
        0 < frame.data.len(),
        frame.end() < u64::MAX,
        nothing_new(state.gaps, frame.start as int, frame.end()),
    ensures
        !missing(state.gaps, frame.start - 1) ==> next.chunks == state.chunks,
        missing(state.gaps, frame.start - 1) ==> state.chunks.contains_key(frame.start),
        frame.data.len() <= state.chunks[frame.start].len() ==> next.chunks == state.chunks,
        missing(state.gaps, frame.start - 1) && holds(state.chunks, frame.start, x)
            && state.chunks[frame.start].len() < frame.data.len() ==> byte_at(next.chunks, x)
            == frame.data[x - frame.start],
{
    let start = frame.start as int;
    if missing(state.gaps, start - 1) {
        lemma_gap_boundary(state.chunks, state.gaps, state.off, start);
        assert(state.off <= start) by {
            if start < state.off {
                lemma_below_first_gap(state.gaps, start - 1);
            }
        }
        lemma_chunk_at(state.chunks, state.gaps, state.off, frame.start);
        if state.chunks[frame.start].len() < frame.data.len() {
            let to = chain_end(state.chunks, start, frame.end());
            lemma_chain_end(state.chunks, chunk_end(state.chunks, frame.start), frame.end());
            if holds(state.chunks, frame.start, x) {
                assert(holds(next.chunks, frame.start, x));
                lemma_byte_at(next.chunks, frame.start, x);
            }
        }
    }
}

/// What is kept of a frame that brings something new is one chunk, in place of those
/// that lie in it. It begins with the frame, if the frame begins with a missing byte
/// or with a chunk, and else at the first missing byte; and it ends with the frame,
/// if the byte there is missing, and else with the last missing one.
pub proof fn law_new_data_is_one_chunk(
    state: RecvState,
    frame: Frame,
    next: RecvState,
    from: u64,
    to: int,
    k: u64,
)
    requires
        state.wf(),
        state.keeps(),
        state.accepts(frame, next),
        !nothing_new(state.gaps, frame.start as int, frame.end()),
        if missing(state.gaps, frame.start as int) || state.chunks.contains_key(frame.start) {
            from == frame.start
        } else {
            is_first_missing(state.gaps, frame.start as int, from as int)
        },
        if missing(state.gaps, frame.end()) {
            to == frame.end()
        } else {
            is_missing_end(state.gaps, frame.end(), to)
        },
    ensures
        next.chunks.contains_key(from),
        next.chunks[from] == frame.data.subrange(from - frame.start, to - frame.start),
        k != from ==> (next.chunks.contains_key(k) <==> state.chunks.contains_key(k) && !(from
            <= k < to)),
        k != from && next.chunks.contains_key(k) ==> next.chunks[k] == state.chunks[k],
{
    let start = frame.start as int;
    let end = frame.end();
    let y = choose|y: int| is_first_missing(state.gaps, start, y);
    if is_first_missing(state.gaps, start, from as int) {
        if y < from {
            assert(!missing(state.gaps, y));
        } else if from < y {
            assert(!missing(state.gaps, from as int));
        }
    }
    let z = choose|z: int| is_missing_end(state.gaps, end, z);
    if is_missing_end(state.gaps, end, to) {
        if z < to {
            assert(!missing(state.gaps, to - 1));
        } else if to < z {
            assert(!missing(state.gaps, z - 1));
        }
    }
}

/// Following chunks stops only where none begins that still fits.
proof fn lemma_chain_stops(chunks: Map<u64, Seq<u8>>, pos: int, end: int)
    ensures
        ({
            let to = chain_end(chunks, pos, end);
            0 <= to <= u64::MAX && chunks.contains_key(to as u64) && chunks[to as u64].len() > 0
                ==> end < chunk_end(chunks, to as u64)
        }),
    decreases end - pos,
{
    if 0 <= pos <= u64::MAX && chunks.contains_key(pos as u64) && chunks[pos as u64].len() > 0
        && chunk_end(chunks, pos as u64) <= end {
        lemma_chain_stops(chunks, chunk_end(chunks, pos as u64), end);
    }
}

/// A frame that brings nothing new but is kept becomes one chunk in place of all
/// those, back to back, that it covers whole.
pub proof fn law_longer_duplicate_is_one_chunk(
    state: RecvState,
    frame: Frame,
    next: RecvState,
    to: u64,
    k: u64,
)
    requires
        state.wf(),
        state.keeps(),
        state.accepts(frame, next),
        frame.end() < u64::MAX,
        nothing_new(state.gaps, frame.start as int, frame.end()),
        missing(state.gaps, frame.start - 1),
        state.chunks.contains_key(frame.start),
        0 < state.chunks[frame.start].len() < frame.data.len(),
        to == frame.start + next.chunks[frame.start].len(),
    ensures
        next.chunks.contains_key(frame.start),
        next.chunks[frame.start] == frame.data.take(to - frame.start),
        chunk_end(state.chunks, frame.start) <= to <= frame.end(),
        state.chunks.contains_key(to) && state.chunks[to].len() > 0 ==> frame.end() < chunk_end(
            state.chunks,
            to,
        ),
        k != frame.start ==> (next.chunks.contains_key(k) <==> state.chunks.contains_key(k) && !(
        frame.start <= k < to)),
        k != frame.start && next.chunks.contains_key(k) ==> next.chunks[k] == state.chunks[k],
{
    let start = frame.start as int;
    let last = chain_end(state.chunks, start, frame.end());
    lemma_chain_end(state.chunks, chunk_end(state.chunks, frame.start), frame.end());
    lemma_chain_stops(state.chunks, start, frame.end());
    assert(last == chain_end(
        state.chunks,
        chunk_end(state.chunks, frame.start),
        frame.end(),
    ));
    assert(frame.data.subrange(0, last - start) =~= frame.data.take(last - start));
    assert(to == last);
}

} // verus!
