//! Zeroes that are not held in memory more than once.
use vstd::prelude::*;
use vstd::slice::slice_subrange;

verus! {

/// How many zeroes can be had in one piece.
pub const ZERO_CHUNK_LEN: usize = 65536;

/// `len` zeroes.
pub open spec fn zero_seq(len: nat) -> Seq<u8> {
    Seq::new(len, |i: int| 0u8)
}

/// Returns `len` zeroes.
pub fn zeroes(len: usize) -> (r: &'static [u8])
    requires
        len <= ZERO_CHUNK_LEN,
    ensures
        r@ == zero_seq(len as nat),
{
    let all: &'static [u8; 65536] = &[0u8; 65536];
    let r = slice_subrange(all.as_slice(), 0, len);
    assert(r@ =~= zero_seq(len as nat));
    r
}

/// Zeroes are as many as asked for, and zero.
pub proof fn law_zeroes(len: nat, i: int)
    ensures
        zero_seq(len).len() == len,
        0 <= i < len ==> zero_seq(len)[i] == 0,
{
}

} // verus!
