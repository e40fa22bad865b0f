//! Writing all of some bytes to a stream that takes a part at a time.

use vstd::prelude::*;

verus! {

/// How many bytes are still to be written after the stream took `written`
/// of the `remaining` ones. A stream takes at least one byte, and no more
/// than it was offered.
pub fn left_to_write(remaining: usize, written: u64) -> (left: usize)
    requires
        0 < written <= remaining,
    ensures
        left == remaining - written,
{
    remaining - written as usize
}

} // verus!
