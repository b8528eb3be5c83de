//! Pieces of data that a reader hands out.
use crate::bytes_spec::bytes_as_slice;
use crate::bytes_spec::bytes_mut_as_slice;
use crate::bytes_spec::bytes_mut_seq;
use crate::bytes_spec::bytes_seq;
use bytes::Bytes;
use bytes::BytesMut;
use vstd::prelude::*;

verus! {

/// A piece of data, borrowed or owned.
pub enum Chunk<'a> {
    Slice(&'a [u8]),
    Shared(Bytes),
    Owned(BytesMut),
}

impl<'a> View for Chunk<'a> {
    type V = Seq<u8>;

    open spec fn view(&self) -> Seq<u8> {
        match *self {
            Chunk::Slice(s) => s@,
            Chunk::Shared(b) => bytes_seq(b),
            Chunk::Owned(b) => bytes_mut_seq(b),
        }
    }
}

impl<'a> Chunk<'a> {
    /// Returns a piece without data.
    pub fn empty() -> (r: Chunk<'a>)
        ensures
            r@ == Seq::<u8>::empty(),
            r is Owned,
    {
        Chunk::Owned(BytesMut::new())
    }

    /// Returns the data as a slice.
    pub fn as_slice(&self) -> (r: &[u8])
        ensures
            r@ == self@,
    {
        match self {
            Chunk::Slice(s) => s,
            Chunk::Shared(b) => bytes_as_slice(b),
            Chunk::Owned(b) => bytes_mut_as_slice(b),
        }
    }

    /// Returns the length of the data.
    pub fn len(&self) -> (r: usize)
        ensures
            r == self@.len(),
    {
        match self {
            Chunk::Slice(s) => s.len(),
            Chunk::Shared(b) => b.len(),
            Chunk::Owned(b) => b.len(),
        }
    }

    /// Returns true if there is no data.
    pub fn is_empty(&self) -> (r: bool)
        ensures
            r == (self@.len() == 0),
    {
        self.len() == 0
    }
}

} // verus!
