//! The packets, and the codec that reads them from a buffer and writes them
//! to one.

use crate::buffer::{append, bytes_of, spec_bytes};
use crate::pest_control::codec::Error;
use bytes::BytesMut;
use vstd::prelude::*;

pub mod delete_policy;

verus! {

/// A packet of any kind.
#[derive(Debug, PartialEq, Eq, Clone, Copy, Structural)]
pub enum Packet {
    DeletePolicy(delete_policy::Packet),
}

impl From<delete_policy::Packet> for Packet {
    fn from(packet: delete_policy::Packet) -> (r: Packet) {
        Packet::DeletePolicy(packet)
    }
}

impl vstd::std_specs::convert::FromSpecImpl<delete_policy::Packet> for Packet {
    open spec fn obeys_from_spec() -> bool {
        true
    }

    open spec fn from_spec(packet: delete_policy::Packet) -> Packet {
        Packet::DeletePolicy(packet)
    }
}

/// What the front of a buffer holds.
pub enum Reading {
    /// A whole packet, made of the first `consumed` bytes.
    Complete { packet: Packet, consumed: nat },
    /// The beginning of a packet, or nothing.
    Incomplete,
    /// Bytes that begin no packet.
    Invalid { error: Error },
}

/// The bytes of a packet on the wire.
pub open spec fn spec_write(packet: Packet) -> Seq<u8> {
    match packet {
        Packet::DeletePolicy(packet) => delete_policy::spec_write_packet(packet),
    }
}

/// What the front of `b` holds: the first byte tells the kind of packet,
/// and the packet is read as one of that kind.
pub open spec fn spec_read(b: Seq<u8>) -> Reading {
    if b.len() == 0 {
        Reading::Incomplete
    } else if b[0] == delete_policy::KIND {
        delete_policy::spec_read_packet(b)
    } else {
        Reading::Invalid { error: Error::UnknownPacket(b[0]) }
    }
}

/// Reads packets from a buffer and writes them to one.
pub struct PacketCodec;

impl PacketCodec {
    #[must_use]
    pub fn new() -> (codec: PacketCodec) {
        PacketCodec
    }

    /// Takes the packet at the front of `src` out of it, if all of it is
    /// there. `Ok(None)` asks for more bytes. Unless a packet is handed
    /// back, `src` stays as it is.
    pub fn decode(&mut self, src: &mut BytesMut) -> (r: Result<Option<Packet>, Error>)
        ensures
            match spec_read(spec_bytes(*old(src))) {
                Reading::Complete { packet, consumed } => r == Ok::<Option<Packet>, Error>(
                    Some(packet),
                ) && spec_bytes(*final(src)) == spec_bytes(*old(src)).skip(consumed as int),
                Reading::Incomplete => r == Ok::<Option<Packet>, Error>(None) && spec_bytes(
                    *final(src),
                ) == spec_bytes(*old(src)),
                Reading::Invalid { error } => r == Err::<Option<Packet>, Error>(error)
                    && spec_bytes(*final(src)) == spec_bytes(*old(src)),
            },
    {
        let first: Option<u8> = {
            let held = bytes_of(src);
            if held.len() == 0 {
                None
            } else {
                Some(held[0])
            }
        };
        match first {
            None => Ok(None),
            Some(kind) => {
                if kind == delete_policy::KIND {
                    delete_policy::read_packet(src)
                } else {
                    Err(Error::UnknownPacket(kind))
                }
            },
        }
    }

    /// Appends the bytes of `packet` to `dst`.
    pub fn encode(&mut self, packet: Packet, dst: &mut BytesMut) -> (r: Result<(), Error>)
        ensures
            r is Ok,
            spec_bytes(*final(dst)) == spec_bytes(*old(dst)) + spec_write(packet),
    {
        let raw_packet = match packet {
            Packet::DeletePolicy(packet) => packet.write_packet(),
        };
        append(dst, raw_packet.as_slice());
        Ok(())
    }
}

impl Default for PacketCodec {
    fn default() -> (codec: PacketCodec) {
        PacketCodec::new()
    }
}

} // verus!
