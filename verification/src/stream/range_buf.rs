//! A piece of stream data with its place in the stream.
use crate::stream::state::Frame;
use vstd::prelude::*;
use vstd::slice::slice_to_vec;

verus! {

/// Stream data together with the offset of its first byte and the flag that
/// marks the end of the stream.
#[derive(Debug)]
pub struct RangeBuf {
    data: Vec<u8>,
    off: u64,
    fin: bool,
}

impl RangeBuf {
    /// The end of the data is an offset, too.
    #[verifier::type_invariant]
    spec fn fits(self) -> bool {
        self.off + self.data@.len() <= u64::MAX
    }

    /// The data carried.
    pub closed spec fn bytes(&self) -> Seq<u8> {
        self.data@
    }

    /// The stream offset of the first byte.
    pub closed spec fn start(&self) -> u64 {
        self.off
    }

    /// The stream offset just past the last byte.
    pub open spec fn end(&self) -> int {
        self.start() + self.bytes().len()
    }

    /// Whether the stream ends with this data.
    pub closed spec fn ends_stream(&self) -> bool {
        self.fin
    }

    /// The frame that this is.
    pub open spec fn frame(&self) -> Frame {
        Frame { start: self.start(), data: self.bytes(), fin: self.ends_stream() }
    }

    /// Creates a new `RangeBuf` from the given slice.
    pub fn from(buf: &[u8], off: u64, fin: bool) -> (r: RangeBuf)
        requires
            off + buf@.len() <= u64::MAX,
        ensures
            r.bytes() == buf@,
            r.start() == off,
            r.ends_stream() == fin,
    {
        RangeBuf { data: slice_to_vec(buf), off, fin }
    }

    /// Returns whether the data ends the stream.
    pub fn fin(&self) -> (r: bool)
        ensures
            r == self.ends_stream(),
    {
        self.fin
    }

    /// Returns the starting offset of the data.
    pub fn off(&self) -> (r: u64)
        ensures
            r == self.start(),
    {
        self.off
    }

    /// Returns the final offset of the data.
    pub fn max_off(&self) -> (r: u64)
        ensures
            r == self.end(),
    {
        proof {
            use_type_invariant(self);
        }
        self.off + self.data.len() as u64
    }

    /// Returns the length of the data.
    pub fn len(&self) -> (r: usize)
        ensures
            r == self.bytes().len(),
    {
        self.data.len()
    }

    /// Returns true if there is no data.
    pub fn is_empty(&self) -> (r: bool)
        ensures
            r == (self.bytes().len() == 0),
    {
        self.data.len() == 0
    }

    /// Returns the data as a slice.
    pub fn as_slice(&self) -> (r: &[u8])
        ensures
            r@ == self.bytes(),
    {
        self.data.as_slice()
    }
}

/// A piece of data reaches from its start on as far as it is long.
pub proof fn law_end(buf: RangeBuf)
    ensures
        buf.end() - buf.start() == buf.bytes().len(),
        buf.frame().end() - buf.frame().start == buf.frame().data.len(),
        buf.frame().start == buf.start(),
        buf.frame().data == buf.bytes(),
        buf.frame().fin == buf.ends_stream(),
        buf.frame().end() == buf.end(),
{
}

} // verus!
