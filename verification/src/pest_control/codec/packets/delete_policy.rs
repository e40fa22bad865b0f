//! The packet that asks for a policy to be deleted.

use crate::big_endian::{
    lemma_field, lemma_starts_with_front, lemma_u32_round_trip, spec_encode_u32, spec_u32_at,
};
use crate::buffer::{bytes_of, spec_bytes, take_front};
use crate::pest_control::codec::packets;
use crate::pest_control::codec::packets::Reading;
use crate::pest_control::codec::{
    check_frame, lemma_checksum, spec_checksum, spec_frame, spec_framing, Error, Framing, Parser,
    Writer,
};
use bytes::BytesMut;
use vstd::prelude::*;

verus! {

/// The first byte of the packet.
pub const KIND: u8 = 0x56;

/// The length of the frame of the packet.
pub const LENGTH: u32 = 10;

/// The request to delete the policy of the given number.
#[derive(Debug, PartialEq, Eq, Clone, Copy, Structural)]
pub struct Packet {
    pub policy: u32,
}

/// The bytes of the packet on the wire.
pub open spec fn spec_write_packet(packet: Packet) -> Seq<u8> {
    spec_frame(KIND, spec_encode_u32(packet.policy))
}

/// What the front of `b` holds, for one who waits for this packet.
pub open spec fn spec_read_packet(b: Seq<u8>) -> Reading {
    match spec_framing(b, KIND, LENGTH) {
        Framing::Whole => Reading::Complete {
            packet: packets::Packet::DeletePolicy(Packet { policy: spec_u32_at(b, 5) }),
            consumed: 10,
        },
        Framing::Partial => Reading::Incomplete,
        Framing::Broken { error } => Reading::Invalid { error },
    }
}

impl Packet {
    /// The bytes of the packet on the wire.
    pub fn write_packet(&self) -> (frame: Vec<u8>)
        ensures
            frame@ == spec_write_packet(*self),
    {
        let mut writer = Writer::new(KIND);

        writer.write_u32(self.policy);

        writer.finalize()
    }

    #[must_use]
    pub fn new(policy: u32) -> (packet: Packet)
        ensures
            packet == (Packet { policy }),
    {
        Packet { policy }
    }
}

/// Reads the packet from the bytes of its frame.
#[derive(Debug, PartialEq, Eq)]
pub struct PacketDecoder;

impl PacketDecoder {
    /// The packet that the frame `data` holds. The frame must have its
    /// kind, its length and the number.
    pub fn decode(data: &[u8]) -> (packet: Packet)
        requires
            data@.len() >= 9,
        ensures
            packet == (Packet { policy: spec_u32_at(data@, 5) }),
    {
        let mut parser = Parser::new(data);

        parser.read_u8();
        parser.read_u32();
        let policy = parser.read_u32();

        Packet::new(policy)
    }
}

/// Takes the packet at the front of `src` out of it, if all of it is there.
pub fn read_packet(src: &mut BytesMut) -> (r: Result<Option<packets::Packet>, Error>)
    ensures
        match spec_read_packet(spec_bytes(*old(src))) {
            Reading::Complete { packet, consumed } => r == Ok::<Option<packets::Packet>, Error>(
                Some(packet),
            ) && spec_bytes(*final(src)) == spec_bytes(*old(src)).skip(consumed as int),
            Reading::Incomplete => r == Ok::<Option<packets::Packet>, Error>(None) && spec_bytes(
                *final(src),
            ) == spec_bytes(*old(src)),
            Reading::Invalid { error } => r == Err::<Option<packets::Packet>, Error>(error)
                && spec_bytes(*final(src)) == spec_bytes(*old(src)),
        },
{
    match check_frame(bytes_of(src), KIND, LENGTH) {
        Err(error) => Err(error),
        Ok(false) => Ok(None),
        Ok(true) => {
            let raw_packet = take_front(src, 10);
            let packet = PacketDecoder::decode(raw_packet.as_slice());
            Ok(Some(packets::Packet::DeletePolicy(packet)))
        },
    }
}

/// Round trip: the bytes of a packet, whatever follows them in the buffer,
/// are read as that packet, and exactly those bytes are used up.
pub proof fn lemma_read_written(packet: Packet, rest: Seq<u8>)
    ensures
        spec_read_packet(spec_write_packet(packet) + rest) == (Reading::Complete {
            packet: packets::Packet::DeletePolicy(packet),
            consumed: 10,
        }),
{
    let p0 = seq![KIND];
    let p1 = p0 + spec_encode_u32(10);
    let head = p1 + spec_encode_u32(packet.policy);
    let check = seq![spec_checksum(head)];
    let frame = spec_write_packet(packet);
    let b = frame + rest;
    assert(frame =~= head + check);
    lemma_starts_with_front(frame, rest);
    lemma_field(b, head, check);
    lemma_field(b, p1, spec_encode_u32(packet.policy));
    lemma_field(b, p0, spec_encode_u32(10));
    lemma_u32_round_trip(b, 1, 10);
    lemma_u32_round_trip(b, 5, packet.policy);
    assert(b[0] == b.subrange(0, 1)[0]);
    lemma_checksum(head);
    assert(b.take(10) =~= frame);
    assert(frame =~= head.push(spec_checksum(head)));
}

} // verus!
