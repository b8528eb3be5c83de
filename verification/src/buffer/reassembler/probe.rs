//! Where a reassembler tells what it does.
use vstd::prelude::*;

verus! {

/// Records a reassembler allocation.
pub fn allocated(_offset: u64, _capacity: usize) {
}

/// Records a chunk consumed from the front of the buffer.
pub fn pop(_offset: u64, _len: usize) {
}

/// Records a chunk written at an offset.
pub fn write(_offset: u64, _len: usize) {
}

} // verus!
