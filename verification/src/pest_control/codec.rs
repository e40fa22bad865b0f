//! Frames: one byte for the kind of packet, the length of the whole frame
//! in four bytes, the content, and one byte that brings the sum of all bytes
//! of the frame to a multiple of 256.

use crate::big_endian::{read_u32, spec_encode_u32, spec_u32_at, write_u32};
use vstd::prelude::*;

pub mod packets;

verus! {

/// Why bytes are no packet.
#[derive(Debug, Clone, Copy, PartialEq, Eq)]
pub enum Error {
    /// The first byte is the kind of no packet.
    UnknownPacket(u8),
    /// The length that the frame gives is not the length of a packet of its
    /// kind.
    InvalidLength,
    /// The bytes of the frame do not add up to a multiple of 256.
    InvalidChecksum,
}

/// The bytes that surround the content of a frame: kind, length, checksum.
pub const FRAME_OVERHEAD: usize = 6;

/// The sum of the bytes.
pub open spec fn spec_sum(bytes: Seq<u8>) -> int
    decreases bytes.len(),
{
    if bytes.len() == 0 {
        0
    } else {
        spec_sum(bytes.drop_last()) + bytes.last() as int
    }
}

/// The byte that brings the sum of `bytes` to a multiple of 256.
pub open spec fn spec_checksum(bytes: Seq<u8>) -> u8 {
    ((256 - spec_sum(bytes) % 256) % 256) as u8
}

/// The frame of a packet of the given kind and content.
pub open spec fn spec_frame(kind: u8, content: Seq<u8>) -> Seq<u8> {
    let head = seq![kind] + spec_encode_u32((content.len() + 6) as u32) + content;
    head.push(spec_checksum(head))
}

/// What the front of a stream is, for one who waits for a frame.
pub enum Framing {
    /// A whole frame of the kind and length that were asked for, with a
    /// sum that is right.
    Whole,
    /// The beginning of such a frame.
    Partial,
    /// Neither.
    Broken { error: Error },
}

/// Judges the front of `b` as a frame of the given kind and length. The
/// kind is judged first, then the length, then the sum.
pub open spec fn spec_framing(b: Seq<u8>, kind: u8, length: u32) -> Framing {
    if b.len() == 0 {
        Framing::Partial
    } else if b[0] != kind {
        Framing::Broken { error: Error::UnknownPacket(b[0]) }
    } else if b.len() < 5 {
        Framing::Partial
    } else if spec_u32_at(b, 1) != length {
        Framing::Broken { error: Error::InvalidLength }
    } else if b.len() < length {
        Framing::Partial
    } else if spec_sum(b.take(length as int)) % 256 != 0 {
        Framing::Broken { error: Error::InvalidChecksum }
    } else {
        Framing::Whole
    }
}

/// The sum of a list of bytes grows by each byte that is added.
pub proof fn lemma_sum_push(bytes: Seq<u8>, last: u8)
    ensures
        spec_sum(bytes.push(last)) == spec_sum(bytes) + last,
{
    assert(bytes.push(last).drop_last() =~= bytes);
}

/// The checksum does what it is for.
pub proof fn lemma_checksum(bytes: Seq<u8>)
    ensures
        spec_sum(bytes.push(spec_checksum(bytes))) % 256 == 0,
{
    lemma_sum_push(bytes, spec_checksum(bytes));
}

/// The sum of the first `n` bytes, modulo 256.
pub fn sum_mod_256(bytes: &[u8], n: usize) -> (sum: u8)
    requires
        n <= bytes@.len(),
    ensures
        sum == spec_sum(bytes@.take(n as int)) % 256,
{
    let mut sum: u32 = 0;
    let mut i: usize = 0;
    while i < n
        invariant
            i <= n <= bytes@.len(),
            sum < 256,
            sum == spec_sum(bytes@.take(i as int)) % 256,
        decreases n - i,
    {
        proof {
            assert(bytes@.take(i + 1) =~= bytes@.take(i as int).push(bytes@[i as int]));
            lemma_sum_push(bytes@.take(i as int), bytes@[i as int]);
        }
        sum = (sum + bytes[i] as u32) % 256;
        i += 1;
    }
    sum as u8
}

/// Judges the front of `bytes` as a frame of the given kind and length:
/// `Ok(true)` for a whole frame, `Ok(false)` for the beginning of one.
pub fn check_frame(bytes: &[u8], kind: u8, length: u32) -> (r: Result<bool, Error>)
    ensures
        match spec_framing(bytes@, kind, length) {
            Framing::Whole => r == Ok::<bool, Error>(true),
            Framing::Partial => r == Ok::<bool, Error>(false),
            Framing::Broken { error } => r == Err::<bool, Error>(error),
        },
{
    if bytes.len() == 0 {
        return Ok(false);
    }
    if bytes[0] != kind {
        return Err(Error::UnknownPacket(bytes[0]));
    }
    if bytes.len() < 5 {
        return Ok(false);
    }
    if read_u32(bytes, 1) != length {
        return Err(Error::InvalidLength);
    }
    if (bytes.len() as u64) < (length as u64) {
        return Ok(false);
    }
    if sum_mod_256(bytes, length as usize) != 0 {
        return Err(Error::InvalidChecksum);
    }
    Ok(true)
}

/// Puts a frame together.
pub struct Writer {
    kind: u8,
    content: Vec<u8>,
}

impl Writer {
    /// The kind of the packet.
    pub closed spec fn kind(&self) -> u8 {
        self.kind
    }

    /// The content so far.
    pub closed spec fn content(&self) -> Seq<u8> {
        self.content@
    }

    /// A writer for a packet of the given kind, with no content yet.
    pub fn new(kind: u8) -> (w: Writer)
        ensures
            w.kind() == kind,
            w.content() == Seq::<u8>::empty(),
    {
        Writer { kind, content: Vec::new() }
    }

    /// Adds a number to the content.
    pub fn write_u32(&mut self, v: u32)
        ensures
            final(self).kind() == old(self).kind(),
            final(self).content() == old(self).content() + spec_encode_u32(v),
    {
        write_u32(&mut self.content, v);
    }

    /// The finished frame. Its length must fit into the four bytes that a
    /// frame has for it.
    pub fn finalize(self) -> (frame: Vec<u8>)
        requires
            self.content().len() + 6 <= u32::MAX,
        ensures
            frame@ == spec_frame(self.kind(), self.content()),
    {
        let mut frame: Vec<u8> = Vec::new();
        frame.push(self.kind);
        write_u32(&mut frame, (self.content.len() + FRAME_OVERHEAD) as u32);
        let mut i: usize = 0;
        let ghost head = frame@;
        while i < self.content.len()
            invariant
                i <= self.content@.len(),
                frame@ == head + self.content@.take(i as int),
            decreases self.content@.len() - i,
        {
            frame.push(self.content[i]);
            assert(self.content@.take(i + 1) =~= self.content@.take(i as int).push(
                self.content@[i as int],
            ));
            i += 1;
        }
        assert(self.content@.take(i as int) =~= self.content@);
        assert(frame@.take(frame@.len() as int) =~= frame@);
        let sum = sum_mod_256(frame.as_slice(), frame.len());
        let check: u8 = ((256 - sum as u32) % 256) as u8;
        frame.push(check);
        frame
    }
}

/// Reads numbers from a frame, one after the other.
pub struct Parser<'a> {
    data: &'a [u8],
    at: usize,
}

impl<'a> Parser<'a> {
    /// The bytes that are read.
    pub closed spec fn data(&self) -> Seq<u8> {
        self.data@
    }

    /// How many bytes were read.
    pub closed spec fn at(&self) -> int {
        self.at as int
    }

    /// A parser at the first byte of `data`.
    pub fn new(data: &'a [u8]) -> (p: Parser<'a>)
        ensures
            p.data() == data@,
            p.at() == 0,
    {
        Parser { data, at: 0 }
    }

    /// Reads one byte.
    pub fn read_u8(&mut self) -> (v: u8)
        requires
            old(self).at() + 1 <= old(self).data().len(),
        ensures
            v == old(self).data()[old(self).at()],
            final(self).data() == old(self).data(),
            final(self).at() == old(self).at() + 1,
    {
        let v = self.data[self.at];
        self.at = self.at + 1;
        v
    }

    /// Reads a number of four bytes.
    pub fn read_u32(&mut self) -> (v: u32)
        requires
            old(self).at() + 4 <= old(self).data().len(),
        ensures
            v == spec_u32_at(old(self).data(), old(self).at()),
            final(self).data() == old(self).data(),
            final(self).at() == old(self).at() + 4,
    {
        let total: usize = self.data.len();
        let v = read_u32(self.data, self.at);
        self.at = self.at + 4;
        v
    }
}

} // verus!
