//! The mathematical model of a receive buffer and of what is done with it.
use crate::stream::error::Error;
use crate::stream::flowcontrol::FlowState;
use crate::stream::gap_list::ByteInterval;
use crate::stream::recv_buf::RecvBufResetReturn;
use crate::stream::recv_buf::MAX_GAPS;
use crate::stream::sorter::byte_at;
use crate::stream::sorter::chunks_from;
use crate::stream::sorter::gaps_cut;
use crate::stream::sorter::gaps_wf;
use crate::stream::sorter::missing;
use crate::stream::sorter::pushed_chunks;
use crate::stream::sorter::sorted;
use crate::stream::sorter::splits_gap;
use vstd::prelude::*;

verus! {

/// Stream data as it comes in.
pub struct Frame {
    /// The stream offset of the first byte.
    pub start: u64,
    /// The data.
    pub data: Seq<u8>,
    /// Whether the stream ends with the data.
    pub fin: bool,
}

impl Frame {
    /// The stream offset just past the last byte.
    pub open spec fn end(self) -> int {
        self.start + self.data.len()
    }
}

/// What the state of a receive buffer means.
#[verifier::ext_equal]
pub struct RecvState {
    /// The chunks that are held, by the offset of their first byte.
    pub chunks: Map<u64, Seq<u8>>,
    /// The byte ranges not yet received.
    pub gaps: Seq<ByteInterval>,
    /// The offset of the next byte to hand to the application.
    pub off: u64,
    /// The largest offset ever received.
    pub len: u64,
    /// Receiver flow control.
    pub flow: FlowState,
    /// The final size of the stream, if it is known.
    pub fin_off: Option<u64>,
    /// The error code that the peer reset the stream with, if it did.
    pub error: Option<u64>,
    /// Whether incoming data is checked but not kept.
    pub drain: bool,
}

impl RecvState {
    /// A buffer that has received nothing.
    pub open spec fn initial(max_data: u64, window: u64, max_window: u64) -> RecvState {
        RecvState {
            chunks: Map::empty(),
            gaps: seq![ByteInterval { start: 0, end: u64::MAX }],
            off: 0,
            len: 0,
            flow: FlowState { consumed: 0, max_data, window, max_window, last_update: None },
            fin_off: None,
            error: None,
            drain: false,
        }
    }

    /// Whether data is still kept.
    pub open spec fn keeps(self) -> bool {
        !self.drain && self.error is None
    }

    /// Whether there is something to be read.
    pub open spec fn ready(self) -> bool {
        self.chunks.contains_key(self.off)
    }

    /// Whether the final size is known and everything has been read.
    pub open spec fn is_fin(self) -> bool {
        self.fin_off == Some(self.off)
    }

    /// What holds of every receive buffer.
    pub open spec fn wf(self) -> bool {
        &&& gaps_wf(self.gaps)
        &&& self.gaps.len() <= MAX_GAPS
        &&& self.flow.consumed <= self.off <= self.len
        &&& self.fin_off matches Some(fin_off) ==> self.len == fin_off
        &&& self.error is Some ==> self.is_fin() && self.off == self.len
        &&& self.drain ==> self.off == self.len && self.chunks =~= Map::empty()
        &&& if self.keeps() {
            &&& self.flow.consumed == self.off
            &&& sorted(self.chunks, self.gaps, self.off)
            &&& forall|k: u64| #[trigger]
                self.chunks.contains_key(k) ==> self.chunks[k].len() > 0 || k == self.off
                    && self.is_fin()
            &&& forall|x: int| self.len <= x < u64::MAX ==> #[trigger] missing(self.gaps, x)
        } else {
            forall|k: u64| #[trigger]
                self.chunks.contains_key(k) ==> k == self.off && self.chunks[k].len() == 0
        }
    }

    /// What a frame is answered: a frame beyond the flow control limit, or one
    /// that is at odds with the final size of the stream, is refused.
    pub open spec fn write_result(self, frame: Frame) -> Result<(), Error> {
        if frame.end() > self.flow.max_data {
            Err(Error::FlowControl)
        } else if self.fin_off matches Some(fin_off) && (frame.end() > fin_off || frame.fin
            && frame.end() != fin_off) {
            Err(Error::FinalSize)
        } else if frame.fin && frame.end() < self.len {
            Err(Error::FinalSize)
        } else {
            Ok(())
        }
    }

    /// Whether an accepted frame changes nothing: it is empty, and does not
    /// tell the final size or tells one that is known.
    pub open spec fn tells_nothing(self, frame: Frame) -> bool {
        frame.data.len() == 0 && (self.fin_off is Some || !frame.fin)
    }

    /// Whether the gaps can take an accepted frame: offsets end below the
    /// largest integer, and the number of gaps is bounded.
    pub open spec fn room_for(self, frame: Frame) -> bool {
        self.write_result(frame) is Ok && self.keeps() && frame.data.len() > 0 ==> frame.end()
            < u64::MAX && (self.gaps.len() == MAX_GAPS ==> !splits_gap(
            self.gaps,
            frame.start as int,
            frame.end(),
        ))
    }

    /// Whether `next` is the state after an accepted frame.
    pub open spec fn accepts(self, frame: Frame, next: RecvState) -> bool {
        if self.tells_nothing(frame) {
            next == self
        } else {
            &&& next.flow == self.flow
            &&& next.error == self.error
            &&& next.drain == self.drain
            &&& next.fin_off == if frame.fin {
                Some(frame.end() as u64)
            } else {
                self.fin_off
            }
            &&& next.len == if self.len < frame.end() {
                frame.end()
            } else {
                self.len as int
            }
            &&& next.off == if self.drain {
                next.len
            } else {
                self.off
            }
            &&& if self.keeps() && frame.data.len() > 0 {
                &&& next.chunks == pushed_chunks(
                    self.chunks,
                    self.gaps,
                    frame.start as int,
                    frame.data,
                )
                &&& gaps_cut(self.gaps, next.gaps, frame.start as int, frame.end())
            } else {
                &&& next.gaps == self.gaps
                // an empty frame that ends a stream with nothing left to read
                // is told to the application once
                &&& next.chunks == if self.keeps() && next.is_fin() && !self.ready() {
                    self.chunks.insert(self.off, Seq::empty())
                } else {
                    self.chunks
                }
            }
        }
    }

    /// How many bytes are read when there is space for `cap`: all that lie in
    /// front of the first missing byte, as far as they fit.
    pub open spec fn read_len(self, cap: nat) -> nat {
        if cap <= self.gaps[0].start - self.off {
            cap
        } else {
            (self.gaps[0].start - self.off) as nat
        }
    }

    /// The next `n` bytes to be read.
    pub open spec fn next_bytes(self, n: nat) -> Seq<u8> {
        Seq::new(n, |i: int| byte_at(self.chunks, self.off + i))
    }

    /// The state after reading with space for `cap` bytes.
    pub open spec fn after_read(self, cap: nat) -> RecvState {
        let n = self.read_len(cap);
        RecvState {
            chunks: if cap > 0 {
                chunks_from(self.chunks, self.off + n)
            } else {
                self.chunks
            },
            off: (self.off + n) as u64,
            flow: FlowState { consumed: (self.flow.consumed + n) as u64, ..self.flow },
            ..self
        }
    }

    /// What reading is answered.
    pub open spec fn read_result(self, cap: nat) -> Result<(usize, bool), Error> {
        if !self.ready() {
            Err(Error::Done)
        } else if let Some(e) = self.error {
            Err(Error::StreamReset(e))
        } else {
            Ok((self.read_len(cap) as usize, self.after_read(cap).is_fin()))
        }
    }

    /// The state after a call to read, with space for `cap` bytes.
    pub open spec fn read(self, cap: nat) -> RecvState {
        if !self.ready() {
            self
        } else if self.error is Some {
            RecvState { chunks: Map::empty(), ..self }
        } else {
            self.after_read(cap)
        }
    }

    /// The bytes that a call to read hands out, with space for `cap` bytes.
    pub open spec fn read_out(self, cap: nat) -> Seq<u8> {
        if self.read_result(cap) is Ok {
            self.next_bytes(self.read_len(cap))
        } else {
            Seq::empty()
        }
    }

    /// Why a reset is refused, if it is.
    pub open spec fn reset_error(self, final_size: u64) -> Option<Error> {
        if self.fin_off matches Some(fin_off) && fin_off != final_size {
            Some(Error::FinalSize)
        } else if final_size < self.len {
            Some(Error::FinalSize)
        } else if final_size > self.flow.max_data {
            Some(Error::FlowControl)
        } else {
            None
        }
    }

    /// What an accepted reset gives back to the connection's flow control.
    pub open spec fn reset_credit(self, final_size: u64) -> RecvBufResetReturn {
        if self.error is Some {
            RecvBufResetReturn { max_data_delta: 0, consumed_flowcontrol: 0 }
        } else {
            RecvBufResetReturn {
                max_data_delta: (final_size - self.len) as u64,
                consumed_flowcontrol: (final_size - self.off) as u64,
            }
        }
    }

    /// The state after an accepted reset.
    pub open spec fn after_reset(self, error_code: u64, final_size: u64) -> RecvState {
        if self.error is Some {
            self
        } else {
            RecvState {
                chunks: if self.drain {
                    Map::empty()
                } else {
                    map![final_size => Seq::empty()]
                },
                off: final_size,
                len: final_size,
                fin_off: Some(final_size),
                error: Some(error_code),
                ..self
            }
        }
    }

    /// What giving up reading is answered: how many bytes are given back to the
    /// connection's flow control.
    pub open spec fn shutdown_result(self) -> Result<u64, Error> {
        if self.drain {
            Err(Error::Done)
        } else {
            Ok((self.len - self.off) as u64)
        }
    }

    /// Whether the sender has to be told a new limit.
    pub open spec fn almost_full(self) -> bool {
        self.fin_off is None && self.flow.low()
    }

    /// The state after reading was given up.
    pub open spec fn after_shutdown(self) -> RecvState {
        RecvState { chunks: Map::empty(), off: self.len, drain: true, ..self }
    }
}

} // verus!
