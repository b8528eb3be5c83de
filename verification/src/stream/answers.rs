//! What a receive buffer owes to the peer, to the connection and to the
//! application.
use crate::stream::error::Error;
use crate::stream::flowcontrol::law_low_below_half;
use crate::stream::laws::law_first_gap;
use crate::stream::sorter::buffered;
use crate::stream::sorter::byte_at;
use crate::stream::sorter::chunks_from;
use crate::stream::sorter::holds;
use crate::stream::sorter::in_gap;
use crate::stream::sorter::lemma_below_first_gap;
use crate::stream::sorter::lemma_byte_at;
use crate::stream::sorter::missing;
use crate::stream::state::Frame;
use crate::stream::state::RecvState;
use vstd::prelude::*;

verus! {

/// A new buffer has received nothing, and takes every frame within its limit.
pub proof fn law_initial(max_data: u64, window: u64, max_window: u64, frame: Frame)
    ensures
        ({
            let state = RecvState::initial(max_data, window, max_window);
            &&& state.wf()
            &&& state.off == 0 && state.len == 0
            &&& state.fin_off is None && state.error is None && !state.drain
            &&& state.flow.consumed == 0 && state.flow.max_data == max_data
            &&& state.flow.window == window && state.flow.max_window == max_window
            &&& state.flow.last_update is None
            &&& forall|x: int| !#[trigger] buffered(state.chunks, x)
            &&& forall|x: int| 0 <= x < u64::MAX ==> #[trigger] missing(state.gaps, x)
            &&& !state.ready() && !state.is_fin()
            &&& state.write_result(frame) is Ok <==> frame.end() <= max_data
        }),
{
    let state = RecvState::initial(max_data, window, max_window);
    assert forall|x: int| 0 <= x < u64::MAX implies #[trigger] missing(state.gaps, x) by {
        assert(in_gap(state.gaps[0], x));
    }
}

/// A frame is refused for flow control exactly if it ends beyond the limit,
/// whatever was received before and whatever else is wrong with it.
pub proof fn law_flow_control(state: RecvState, frame: Frame)
    ensures
        state.write_result(frame) == Err::<(), Error>(Error::FlowControl) <==> frame.end()
            > state.flow.max_data,
{
}

/// The largest offset received never passes the limit granted: neither does an
/// accepted frame take it there, nor a reset, nor a read, nor giving up reading.
pub proof fn law_limit_never_passed(
    state: RecvState,
    frame: Frame,
    next: RecvState,
    cap: nat,
    error_code: u64,
    final_size: u64,
)
    requires
        state.len <= state.flow.max_data,
    ensures
        state.write_result(frame) is Ok && state.accepts(frame, next) ==> next.len
            <= next.flow.max_data && next.flow.max_data == state.flow.max_data,
        state.reset_error(final_size) is None ==> state.after_reset(error_code, final_size).len
            <= state.after_reset(error_code, final_size).flow.max_data,
        state.read(cap).len <= state.read(cap).flow.max_data,
        state.after_shutdown().len <= state.after_shutdown().flow.max_data,
{
}

/// However many frames come in, the largest offset received does not pass the
/// limit. `states` are the states before, between and behind the frames, each of
/// which was accepted or refused.
pub proof fn law_limit_never_passed_by_many(states: Seq<RecvState>, frames: Seq<Frame>)
    requires
        states.len() == frames.len() + 1,
        states[0].len <= states[0].flow.max_data,
        forall|i: int|
            0 <= i < frames.len() ==> match states[i].write_result(#[trigger] frames[i]) {
                Ok(()) => states[i].accepts(frames[i], states[i + 1]),
                Err(_) => states[i + 1] == states[i],
            },
    ensures
        states.last().len <= states[0].flow.max_data,
        states.last().flow.max_data == states[0].flow.max_data,
    decreases frames.len(),
{
    if frames.len() > 0 {
        let front = frames.drop_last();
        assert forall|i: int| 0 <= i < front.len() implies match states.drop_last()[i].write_result(
            #[trigger] front[i],
        ) {
            Ok(()) => states.drop_last()[i].accepts(front[i], states.drop_last()[i + 1]),
            Err(_) => states.drop_last()[i + 1] == states.drop_last()[i],
        } by {
            assert(front[i] == frames[i]);
        }
        law_limit_never_passed_by_many(states.drop_last(), front);
        assert(frames[frames.len() - 1] == frames.last());
    }
}

/// Within the limit, a frame is refused exactly if it is at odds with what is
/// known of the size of the stream: it goes beyond the final size, or claims to
/// end the stream elsewhere than there or in front of what was received.
pub proof fn law_final_size(state: RecvState, frame: Frame)
    requires
        frame.end() <= state.flow.max_data,
    ensures
        state.write_result(frame) == (if (state.fin_off is None || frame.end()
            <= state.fin_off.unwrap()) && (frame.fin ==> state.len <= frame.end() && (
        state.fin_off is None || state.fin_off.unwrap() <= frame.end())) {
            Ok::<(), Error>(())
        } else {
            Err::<(), Error>(Error::FinalSize)
        }),
{
}

/// What an accepted frame tells of the stream is remembered: how far it reaches,
/// and where it ends. An empty frame tells something only if it is the first to
/// end the stream. Nothing else changes, but that whoever has given up reading
/// is taken to have read what comes in.
pub proof fn law_accepted_frame(state: RecvState, frame: Frame, next: RecvState)
    requires
        state.wf(),
        frame.end() <= u64::MAX,
        state.write_result(frame) is Ok,
        state.accepts(frame, next),
    ensures
        frame.data.len() > 0 ==> next.len >= frame.end(),
        frame.fin ==> next.len == frame.end() && next.fin_off == Some(frame.end() as u64),
        next.len >= state.len,
        next.len == state.len || next.len == frame.end(),
        !frame.fin ==> next.fin_off == state.fin_off,
        frame.data.len() == 0 && (!frame.fin || state.fin_off is Some) ==> next == state,
        next.flow == state.flow,
        next.error == state.error,
        next.drain == state.drain,
        next.off == (if state.drain {
            next.len
        } else {
            state.off
        }),
        state.drain || state.error is Some ==> next.chunks == state.chunks,
{
}

/// Whoever has received something can read it: as long as the stream is not read
/// to its end, there is something to be read exactly if the next byte has come
/// in. At its end there is at most a notice.
pub proof fn law_ready(state: RecvState)
    requires
        state.wf(),
        !state.drain,
        state.error is None,
    ensures
        state.fin_off != Some(state.off) ==> (state.ready() <==> buffered(
            state.chunks,
            state.off as int,
        )),
        buffered(state.chunks, state.off as int) ==> state.ready() && state.off < state.len,
        state.off < u64::MAX ==> (buffered(state.chunks, state.off as int) <==> !missing(
            state.gaps,
            state.off as int,
        )),
{
    let off = state.off as int;
    if buffered(state.chunks, off) {
        let k = choose|k: u64| #[trigger] holds(state.chunks, k, off);
        assert(state.chunks.contains_key(k));
        assert(k == state.off);
    }
    if state.ready() && state.fin_off != Some(state.off) {
        assert(holds(state.chunks, state.off, off));
    }
}

/// A read hands out all that has come in from the read offset on, up to the first
/// missing byte or as far as there is space. It counts as consumed, and is gone;
/// what lies behind it stays as it is.
pub proof fn law_read(state: RecvState, cap: nat)
    requires
        state.wf(),
        state.error is None,
        state.chunks.contains_key(state.off),
        cap <= usize::MAX,
    ensures
        ({
            let out = state.read_out(cap);
            let next = state.read(cap);
            let to = state.off + out.len();
            &&& state.read_result(cap) == Ok::<(usize, bool), Error>(
                (out.len() as usize, state.fin_off == Some(to as u64)),
            )
            &&& out.len() <= cap
            &&& to <= state.len
            &&& forall|x: int| state.off <= x < to ==> #[trigger] buffered(state.chunks, x)
            &&& forall|i: int|
                0 <= i < out.len() ==> #[trigger] out[i] == byte_at(state.chunks, state.off + i)
            &&& out.len() == cap || !buffered(state.chunks, to)
            &&& next.off == to
            &&& next.flow.consumed == state.flow.consumed + out.len()
            &&& next.flow.max_data == state.flow.max_data
            &&& next.flow.window == state.flow.window
            &&& next.flow.max_window == state.flow.max_window
            &&& next.flow.last_update == state.flow.last_update
            &&& next.gaps == state.gaps
            &&& next.len == state.len
            &&& next.fin_off == state.fin_off
            &&& next.error == state.error
            &&& next.drain == state.drain
            &&& forall|x: int| #[trigger]
                buffered(next.chunks, x) <==> to <= x && buffered(state.chunks, x)
            &&& forall|x: int| #[trigger]
                buffered(next.chunks, x) ==> byte_at(next.chunks, x) == byte_at(state.chunks, x)
            &&& cap == 0 ==> next == state
            &&& out.len() < cap ==> !next.ready()
        }),
{
    let out = state.read_out(cap);
    let next = state.read(cap);
    let to = state.off + out.len();
    assert(state.ready());
    law_first_gap(state.gaps);
    let first = state.gaps[0].start as int;
    assert(missing(state.gaps, first));
    assert(first <= state.len) by {
        if state.len < first {
            lemma_below_first_gap(state.gaps, state.len as int);
            assert(missing(state.gaps, state.len as int));
        }
    }
    assert forall|x: int| state.off <= x < to implies #[trigger] buffered(state.chunks, x) by {
        lemma_below_first_gap(state.gaps, x);
    }
    if to == first && buffered(state.chunks, to) {
        let k = choose|k: u64| #[trigger] holds(state.chunks, k, to);
    }
    if cap == 0 {
        assert(next =~= state);
        assert forall|x: int| #[trigger] buffered(state.chunks, x) implies state.off <= x by {
            let k = choose|k: u64| #[trigger] holds(state.chunks, k, x);
            assert(state.chunks.contains_key(k));
        }
    } else {
        assert forall|x: int| #[trigger] buffered(next.chunks, x) implies to <= x && buffered(
            state.chunks,
            x,
        ) && byte_at(next.chunks, x) == byte_at(state.chunks, x) by {
            lemma_left_behind(state, to, x);
        }
        assert forall|x: int| to <= x && #[trigger] buffered(state.chunks, x) implies buffered(
            next.chunks,
            x,
        ) by {
            let k = choose|k: u64| #[trigger] holds(state.chunks, k, x);
            if k > to {
                assert(holds(next.chunks, k, x));
            } else {
                assert(holds(state.chunks, k, to));
                let k0 = choose|k: u64| #[trigger] holds(state.chunks, k, to);
                assert(k0 == k) by {
                    assert(state.chunks.contains_key(k) && state.chunks.contains_key(k0));
                }
                assert(holds(next.chunks, to as u64, x));
            }
        }
    }
}

/// What is left of the chunks behind an offset lies there as before.
proof fn lemma_left_behind(state: RecvState, to: int, x: int)
    requires
        state.wf(),
        state.error is None,
        !state.drain,
        0 <= to <= u64::MAX,
        buffered(chunks_from(state.chunks, to), x),
    ensures
        to <= x,
        buffered(state.chunks, x),
        byte_at(chunks_from(state.chunks, to), x) == byte_at(state.chunks, x),
{
    crate::stream::laws::lemma_behind(state.chunks, to, x);
    let next = chunks_from(state.chunks, to);
    let k = choose|k: u64| #[trigger] holds(next, k, x);
    assert(next.contains_key(k));
}

/// Where there is nothing to be read, a read says so and changes nothing. The
/// first read after a reset gives the error code and no data, and is the last
/// that gives anything.
pub proof fn law_nothing_read(state: RecvState, cap: nat)
    requires
        !state.chunks.contains_key(state.off) || state.error is Some,
    ensures
        state.read_out(cap).len() == 0,
        !state.chunks.contains_key(state.off) ==> state.read_result(cap) == Err::<
            (usize, bool),
            Error,
        >(Error::Done) && state.read(cap) == state,
        state.chunks.contains_key(state.off) ==> {
            let next = state.read(cap);
            &&& state.read_result(cap) == Err::<(usize, bool), Error>(
                Error::StreamReset(state.error.unwrap()),
            )
            &&& !next.ready()
            &&& next.off == state.off && next.len == state.len && next.flow == state.flow
            &&& next.fin_off == state.fin_off && next.error == state.error
            &&& next.drain == state.drain && next.gaps == state.gaps
        },
{
}

/// The receive side is complete exactly when the final size is known and all up
/// to the largest offset received has been read.
pub proof fn law_complete(state: RecvState)
    requires
        state.wf(),
    ensures
        state.is_fin() <==> state.fin_off is Some && state.off == state.len,
{
}

/// A reset is accepted exactly if its final size agrees with the one that is
/// known, is not less than what was received, and lies within the limit. A limit
/// is held against it only when the size is not wrong in itself.
pub proof fn law_reset_checks(state: RecvState, final_size: u64)
    ensures
        state.reset_error(final_size) == (if final_size < state.len || state.fin_off is Some
            && state.fin_off.unwrap() != final_size {
            Some(Error::FinalSize)
        } else if state.flow.max_data < final_size {
            Some(Error::FlowControl)
        } else {
            None
        }),
{
}

/// Credit is conserved by a reset. The first one accounts for every byte up to
/// the final size: for those that were not read as consumed, and for those that
/// did not come in as received. A later one accounts for none.
pub proof fn law_reset_conserves_credit(state: RecvState, error_code: u64, final_size: u64)
    requires
        state.wf(),
        state.reset_error(final_size) is None,
    ensures
        ({
            let credit = state.reset_credit(final_size);
            let next = state.after_reset(error_code, final_size);
            &&& state.off + credit.consumed_flowcontrol == next.off == final_size
            &&& state.len + credit.max_data_delta == next.len == final_size
            &&& state.error is Some ==> credit.consumed_flowcontrol == 0 && credit.max_data_delta
                == 0 && next == state
            &&& next.reset_error(final_size) is None
            &&& next.reset_credit(final_size).consumed_flowcontrol == 0
            &&& next.reset_credit(final_size).max_data_delta == 0
        }),
{
}

/// A reset ends the stream: its final size is known, it counts as read, none of
/// its data is left, and the application is told the error code unless it has
/// given up reading.
pub proof fn law_reset_ends_stream(state: RecvState, error_code: u64, final_size: u64, cap: nat)
    requires
        state.wf(),
        state.error is None,
        state.reset_error(final_size) is None,
    ensures
        ({
            let next = state.after_reset(error_code, final_size);
            &&& next.wf()
            &&& next.error == Some(error_code)
            &&& next.fin_off == Some(final_size)
            &&& next.is_fin()
            &&& next.drain == state.drain
            &&& next.flow == state.flow
            &&& next.gaps == state.gaps
            &&& forall|x: int| !#[trigger] buffered(next.chunks, x)
            &&& next.ready() <==> !state.drain
            &&& next.read_result(cap) == Err::<(usize, bool), Error>(
                if state.drain {
                    Error::Done
                } else {
                    Error::StreamReset(error_code)
                },
            )
        }),
{
}

/// Giving up reading gives back what was received and not read, once, and drops
/// it: nothing is left to be read.
pub proof fn law_shutdown(state: RecvState, cap: nat)
    requires
        state.wf(),
    ensures
        state.shutdown_result() is Err <==> state.drain,
        state.shutdown_result() matches Err(e) ==> e == Error::Done,
        state.shutdown_result() matches Ok(credit) ==> {
            let next = state.after_shutdown();
            &&& next.wf()
            &&& state.off + credit == next.off == state.len
            &&& next.drain
            &&& next.len == state.len
            &&& next.fin_off == state.fin_off
            &&& next.error == state.error
            &&& next.flow == state.flow
            &&& next.gaps == state.gaps
            &&& forall|x: int| !#[trigger] buffered(next.chunks, x)
            &&& next.read_result(cap) == Err::<(usize, bool), Error>(Error::Done)
            &&& next.shutdown_result() is Err
        },
{
}

/// No byte is given back twice and none is forgotten: whether reading is given up
/// before a reset or after it, in all the connection gets back what lies between
/// the read offset and the final size.
pub proof fn law_credit_in_any_order(state: RecvState, error_code: u64, final_size: u64)
    requires
        state.wf(),
        !state.drain,
        state.error is None,
        state.reset_error(final_size) is None,
    ensures
        ({
            let dropped = state.after_shutdown();
            let reset = state.after_reset(error_code, final_size);
            &&& dropped.reset_error(final_size) is None
            &&& state.shutdown_result().unwrap() + dropped.reset_credit(
                final_size,
            ).consumed_flowcontrol == final_size - state.off
            &&& dropped.reset_credit(final_size).max_data_delta == final_size - state.len
            &&& reset.shutdown_result() == Ok::<u64, Error>(0)
            &&& state.reset_credit(final_size).consumed_flowcontrol == final_size - state.off
        }),
{
}

/// The sender has to be told a new limit exactly if it may still send more and
/// has less than half of the window left.
pub proof fn law_almost_full(state: RecvState, left: int)
    requires
        0 <= left,
        left == state.flow.max_data - state.flow.consumed || left == 0 && state.flow.max_data
            < state.flow.consumed,
    ensures
        state.almost_full() <==> state.fin_off is None && 2 * left + 2 <= state.flow.window,
{
    law_low_below_half(state.flow, left);
}

/// A stream does not stall: when everything up to the limit was read, the sender
/// has to be told a new one, however often that was done before, unless the
/// final size is known.
pub proof fn law_used_up_limit_is_told(state: RecvState, now: u128)
    requires
        state.wf(),
        state.keeps(),
        state.fin_off is None,
        state.flow.window >= 2,
        state.off >= state.flow.max_data,
        state.flow.max_data < u64::MAX,
    ensures
        state.almost_full(),
        state.flow.granted(now).max_data > state.flow.max_data,
{
}

/// There is room for a frame unless it reaches the last offset or would leave more
/// than a thousand gaps.
pub proof fn law_room(state: RecvState, frame: Frame)
    requires
        state.wf(),
        frame.end() < u64::MAX,
    ensures
        state.gaps.len() <= 1000,
        state.gaps.len() < 1000 ==> state.room_for(frame),
        (forall|i: int|
            0 <= i < state.gaps.len() ==> !((#[trigger] state.gaps[i]).start < frame.start
                && frame.end() < state.gaps[i].end)) ==> state.room_for(frame),
        frame.data.len() == 0 || state.drain || state.error is Some ==> state.room_for(frame),
        state.write_result(frame) is Err ==> state.room_for(frame),
{
}

/// A frame reaches from its start on as far as its data is long, and is kept as
/// long as the stream was neither reset nor given up.
pub proof fn law_frame(state: RecvState, frame: Frame)
    ensures
        frame.end() - frame.start == frame.data.len(),
        state.keeps() <==> !state.drain && state.error is None,
        state.ready() <==> state.chunks.contains_key(state.off),
{
}

} // verus!
