//! The binary wire format: a one-byte tag, then big-endian integers and
//! length-prefixed strings, with nothing between two messages.

use crate::big_endian::{
    lemma_field, lemma_grow, lemma_starts_with_front, lemma_u16_bytes, lemma_u16_round_trip,
    lemma_u32_bytes, lemma_u32_round_trip, read_u16, read_u32, spec_encode_u16, spec_encode_u32,
    spec_u16_at, spec_u32_at, starts_with, write_u16, write_u32,
};
use crate::speed_daemon::controller::{Ticket, TicketView};
use crate::speed_daemon::octets::copy_range;
use vstd::prelude::*;

verus! {

pub const TAG_ERROR: u8 = 0x10;

pub const TAG_PLATE: u8 = 0x20;

pub const TAG_TICKET: u8 = 0x21;

pub const TAG_WANT_HEARTBEAT: u8 = 0x40;

pub const TAG_HEARTBEAT: u8 = 0x41;

pub const TAG_I_AM_CAMERA: u8 = 0x80;

pub const TAG_I_AM_DISPATCHER: u8 = 0x81;

/// A message of the protocol. Strings are held as their bytes.
#[derive(Debug, Clone, PartialEq, Eq)]
pub enum Message {
    Error { msg: Vec<u8> },
    Plate { plate: Vec<u8>, timestamp: u32 },
    Ticket(Ticket),
    WantHeartbeat { interval: u32 },
    Heartbeat,
    IAmCamera { road: u16, mile: u16, limit: u16 },
    IAmDispatcher { roads: Vec<u16> },
}

/// What a [`Message`] says, with sequences in place of vectors.
pub enum MessageView {
    Error { msg: Seq<u8> },
    Plate { plate: Seq<u8>, timestamp: u32 },
    Ticket(TicketView),
    WantHeartbeat { interval: u32 },
    Heartbeat,
    IAmCamera { road: u16, mile: u16, limit: u16 },
    IAmDispatcher { roads: Seq<u16> },
}

impl View for Message {
    type V = MessageView;

    open spec fn view(&self) -> MessageView {
        match *self {
            Message::Error { msg } => MessageView::Error { msg: msg@ },
            Message::Plate { plate, timestamp } => MessageView::Plate { plate: plate@, timestamp },
            Message::Ticket(ticket) => MessageView::Ticket(ticket@),
            Message::WantHeartbeat { interval } => MessageView::WantHeartbeat { interval },
            Message::Heartbeat => MessageView::Heartbeat,
            Message::IAmCamera { road, mile, limit } => MessageView::IAmCamera {
                road,
                mile,
                limit,
            },
            Message::IAmDispatcher { roads } => MessageView::IAmDispatcher { roads: roads@ },
        }
    }
}

/// Why bytes are not a message, or a message cannot be put into bytes.
#[derive(Debug, Clone, Copy, PartialEq, Eq, Structural)]
pub enum WireError {
    /// The first byte is the tag of no message.
    UnknownTag(u8),
    /// A string holds a byte that is no ASCII character.
    NotAscii,
    /// A string or a list of roads has more than 255 elements.
    TooLong,
}

/// What the front of a byte stream holds.
pub enum Decoded {
    /// A whole message, made of the first `consumed` bytes.
    Complete { message: MessageView, consumed: nat },
    /// The beginning of a message; more bytes are needed.
    Incomplete,
    /// Bytes that begin no message.
    Malformed { error: WireError },
}

/// Every byte of `s` is an ASCII character.
pub open spec fn is_ascii(s: Seq<u8>) -> bool {
    forall|i: int| 0 <= i < s.len() ==> #[trigger] s[i] < 0x80
}

/// `s` can travel as a string: at most 255 bytes, all of them ASCII.
pub open spec fn valid_str(s: Seq<u8>) -> bool {
    s.len() <= 255 && is_ascii(s)
}

/// A string on the wire: its length in one byte, then its bytes.
pub open spec fn spec_encode_str(s: Seq<u8>) -> Seq<u8> {
    seq![s.len() as u8] + s
}

/// A list of roads on the wire, two bytes each, without its count.
pub open spec fn spec_encode_roads(roads: Seq<u16>) -> Seq<u8> {
    Seq::new(
        2 * roads.len(),
        |k: int|
            if k % 2 == 0 {
                (roads[k / 2] / 0x100) as u8
            } else {
                (roads[k / 2] % 0x100) as u8
            },
    )
}

/// The `n` roads that `b` holds from `at` on.
pub open spec fn spec_roads_at(b: Seq<u8>, at: int, n: nat) -> Seq<u16> {
    Seq::new(n, |i: int| spec_u16_at(b, at + 2 * i))
}

/// The bytes of a ticket on the wire: the tag, the plate, and the six
/// numbers in the order of the fields.
#[verifier::opaque]
pub open spec fn spec_encode_ticket(t: TicketView) -> Seq<u8> {
    seq![TAG_TICKET] + spec_encode_str(t.plate) + spec_encode_u16(t.road) + spec_encode_u16(
        t.mile1,
    ) + spec_encode_u32(t.timestamp1) + spec_encode_u16(t.mile2) + spec_encode_u32(t.timestamp2)
        + spec_encode_u16(t.speed)
}

impl MessageView {
    /// The message can be put on the wire.
    pub open spec fn valid(self) -> bool {
        match self {
            MessageView::Error { msg } => valid_str(msg),
            MessageView::Plate { plate, .. } => valid_str(plate),
            MessageView::Ticket(ticket) => valid_str(ticket.plate),
            MessageView::IAmDispatcher { roads } => roads.len() <= 255,
            _ => true,
        }
    }

    /// The bytes of the message on the wire.
    pub open spec fn encode(self) -> Seq<u8> {
        match self {
            MessageView::Error { msg } => seq![TAG_ERROR] + spec_encode_str(msg),
            MessageView::Plate { plate, timestamp } => seq![TAG_PLATE] + spec_encode_str(plate)
                + spec_encode_u32(timestamp),
            MessageView::Ticket(t) => spec_encode_ticket(t),
            MessageView::WantHeartbeat { interval } => seq![TAG_WANT_HEARTBEAT] + spec_encode_u32(
                interval,
            ),
            MessageView::Heartbeat => seq![TAG_HEARTBEAT],
            MessageView::IAmCamera { road, mile, limit } => seq![TAG_I_AM_CAMERA]
                + spec_encode_u16(road) + spec_encode_u16(mile) + spec_encode_u16(limit),
            MessageView::IAmDispatcher { roads } => seq![TAG_I_AM_DISPATCHER, roads.len() as u8]
                + spec_encode_roads(roads),
        }
    }
}

/// Where the string that starts right after the tag ends, if all of it is
/// there.
pub open spec fn spec_str_end(b: Seq<u8>) -> Option<int> {
    if b.len() >= 2 && b.len() >= 2 + b[1] {
        Some(2 + b[1] as int)
    } else {
        None
    }
}

/// What the front of `b` holds: the grammar of the protocol, read from the
/// first byte on.
pub open spec fn spec_decode(b: Seq<u8>) -> Decoded {
    if b.len() == 0 {
        Decoded::Incomplete
    } else if b[0] == TAG_ERROR || b[0] == TAG_PLATE || b[0] == TAG_TICKET {
        match spec_str_end(b) {
            None => Decoded::Incomplete,
            Some(end) => {
                let text = b.subrange(2, end);
                if !is_ascii(text) {
                    Decoded::Malformed { error: WireError::NotAscii }
                } else if b[0] == TAG_ERROR {
                    Decoded::Complete {
                        message: MessageView::Error { msg: text },
                        consumed: end as nat,
                    }
                } else if b[0] == TAG_PLATE {
                    if b.len() < end + 4 {
                        Decoded::Incomplete
                    } else {
                        Decoded::Complete {
                            message: MessageView::Plate {
                                plate: text,
                                timestamp: spec_u32_at(b, end),
                            },
                            consumed: (end + 4) as nat,
                        }
                    }
                } else {
                    if b.len() < end + 16 {
                        Decoded::Incomplete
                    } else {
                        Decoded::Complete {
                            message: MessageView::Ticket(
                                TicketView {
                                    plate: text,
                                    road: spec_u16_at(b, end),
                                    mile1: spec_u16_at(b, end + 2),
                                    timestamp1: spec_u32_at(b, end + 4),
                                    mile2: spec_u16_at(b, end + 8),
                                    timestamp2: spec_u32_at(b, end + 10),
                                    speed: spec_u16_at(b, end + 14),
                                },
                            ),
                            consumed: (end + 16) as nat,
                        }
                    }
                }
            },
        }
    } else if b[0] == TAG_WANT_HEARTBEAT {
        if b.len() < 5 {
            Decoded::Incomplete
        } else {
            Decoded::Complete {
                message: MessageView::WantHeartbeat { interval: spec_u32_at(b, 1) },
                consumed: 5,
            }
        }
    } else if b[0] == TAG_HEARTBEAT {
        Decoded::Complete { message: MessageView::Heartbeat, consumed: 1 }
    } else if b[0] == TAG_I_AM_CAMERA {
        if b.len() < 7 {
            Decoded::Incomplete
        } else {
            Decoded::Complete {
                message: MessageView::IAmCamera {
                    road: spec_u16_at(b, 1),
                    mile: spec_u16_at(b, 3),
                    limit: spec_u16_at(b, 5),
                },
                consumed: 7,
            }
        }
    } else if b[0] == TAG_I_AM_DISPATCHER {
        if b.len() < 2 || b.len() < 2 + 2 * b[1] {
            Decoded::Incomplete
        } else {
            Decoded::Complete {
                message: MessageView::IAmDispatcher { roads: spec_roads_at(b, 2, b[1] as nat) },
                consumed: (2 + 2 * b[1]) as nat,
            }
        }
    } else {
        Decoded::Malformed { error: WireError::UnknownTag(b[0]) }
    }
}

/// Tells whether every byte of `s` is an ASCII character.
pub fn all_ascii(s: &[u8]) -> (r: bool)
    ensures
        r == is_ascii(s@),
{
    let mut i: usize = 0;
    while i < s.len()
        invariant
            i <= s@.len(),
            forall|j: int| 0 <= j < i ==> #[trigger] s@[j] < 0x80,
        decreases s@.len() - i,
    {
        if s[i] >= 0x80 {
            return false;
        }
        i += 1;
    }
    true
}

/// Appends the bytes of `s` to `out`.
pub fn write_bytes(out: &mut Vec<u8>, s: &[u8])
    ensures
        final(out)@ == old(out)@ + s@,
{
    let mut i: usize = 0;
    while i < s.len()
        invariant
            i <= s@.len(),
            out@ == old(out)@ + s@.subrange(0, i as int),
        decreases s@.len() - i,
    {
        out.push(s[i]);
        assert(s@.subrange(0, i + 1) =~= s@.subrange(0, i as int).push(s@[i as int]));
        i += 1;
    }
    assert(s@.subrange(0, i as int) =~= s@);
}

/// Appends `s` to `out` as a string of the protocol.
pub fn write_str(out: &mut Vec<u8>, s: &[u8])
    requires
        s@.len() <= 255,
    ensures
        final(out)@ == old(out)@ + spec_encode_str(s@),
{
    out.push(s.len() as u8);
    write_bytes(out, s);
    assert(out@ =~= old(out)@ + spec_encode_str(s@));
}

/// Appends `roads` to `out`, two bytes each.
pub fn write_roads(out: &mut Vec<u8>, roads: &[u16])
    requires
        roads@.len() <= 255,
    ensures
        final(out)@ == old(out)@ + spec_encode_roads(roads@),
{
    let mut i: usize = 0;
    while i < roads.len()
        invariant
            i <= roads@.len(),
            out@ == old(out)@ + spec_encode_roads(roads@.subrange(0, i as int)),
        decreases roads@.len() - i,
    {
        write_u16(out, roads[i]);
        assert(out@ =~= old(out)@ + spec_encode_roads(roads@.subrange(0, i + 1)));
        i += 1;
    }
    assert(roads@.subrange(0, i as int) =~= roads@);
}

/// The `n` roads that `buf` holds from `at` on.
pub fn read_roads(buf: &[u8], at: usize, n: usize) -> (v: Vec<u16>)
    requires
        at + 2 * n <= buf@.len(),
    ensures
        v@ == spec_roads_at(buf@, at as int, n as nat),
{
    let total: usize = buf.len();
    let mut v: Vec<u16> = Vec::new();
    let mut i: usize = 0;
    while i < n
        invariant
            i <= n,
            at + 2 * n <= total == buf@.len(),
            v@ == spec_roads_at(buf@, at as int, i as nat),
        decreases n - i,
    {
        v.push(read_u16(buf, at + 2 * i));
        assert(v@ =~= spec_roads_at(buf@, at as int, (i + 1) as nat));
        i += 1;
    }
    v
}

impl Message {
    /// Appends the bytes of the message to `out`. A message that cannot
    /// travel (a string or a list of roads too long, a string that is not
    /// ASCII) leaves `out` as it was.
    pub fn encode(&self, out: &mut Vec<u8>) -> (r: Result<(), WireError>)
        ensures
            self@.valid() ==> r is Ok && final(out)@ == old(out)@ + self@.encode(),
            !self@.valid() ==> r is Err && final(out)@ == old(out)@,
            r is Err ==> r->Err_0 == spec_encode_error(self@),
    {
        match self {
            Message::Error { msg } => {
                if msg.len() > 255 {
                    return Err(WireError::TooLong);
                }
                if !all_ascii(msg.as_slice()) {
                    return Err(WireError::NotAscii);
                }
                out.push(TAG_ERROR);
                write_str(out, msg.as_slice());
                assert(out@ =~= old(out)@ + self@.encode());
            },
            Message::Plate { plate, timestamp } => {
                if plate.len() > 255 {
                    return Err(WireError::TooLong);
                }
                if !all_ascii(plate.as_slice()) {
                    return Err(WireError::NotAscii);
                }
                out.push(TAG_PLATE);
                write_str(out, plate.as_slice());
                write_u32(out, *timestamp);
                assert(out@ =~= old(out)@ + self@.encode());
            },
            Message::Ticket(ticket) => {
                if ticket.plate.len() > 255 {
                    return Err(WireError::TooLong);
                }
                if !all_ascii(ticket.plate.as_slice()) {
                    return Err(WireError::NotAscii);
                }
                out.push(TAG_TICKET);
                write_str(out, ticket.plate.as_slice());
                write_u16(out, ticket.road);
                write_u16(out, ticket.mile1);
                write_u32(out, ticket.timestamp1);
                write_u16(out, ticket.mile2);
                write_u32(out, ticket.timestamp2);
                write_u16(out, ticket.speed);
                assert(out@ =~= old(out)@ + self@.encode()) by {
                    reveal(spec_encode_ticket);
                }
            },
            Message::WantHeartbeat { interval } => {
                out.push(TAG_WANT_HEARTBEAT);
                write_u32(out, *interval);
                assert(out@ =~= old(out)@ + self@.encode());
            },
            Message::Heartbeat => {
                out.push(TAG_HEARTBEAT);
                assert(out@ =~= old(out)@ + self@.encode());
            },
            Message::IAmCamera { road, mile, limit } => {
                out.push(TAG_I_AM_CAMERA);
                write_u16(out, *road);
                write_u16(out, *mile);
                write_u16(out, *limit);
                assert(out@ =~= old(out)@ + self@.encode());
            },
            Message::IAmDispatcher { roads } => {
                if roads.len() > 255 {
                    return Err(WireError::TooLong);
                }
                out.push(TAG_I_AM_DISPATCHER);
                out.push(roads.len() as u8);
                write_roads(out, roads.as_slice());
                assert(out@ =~= old(out)@ + self@.encode());
            },
        }
        Ok(())
    }
}

/// Why a message that is not valid cannot travel: its length is judged
/// first.
pub open spec fn spec_encode_error(m: MessageView) -> WireError {
    let too_long = match m {
        MessageView::Error { msg } => msg.len() > 255,
        MessageView::Plate { plate, .. } => plate.len() > 255,
        MessageView::Ticket(ticket) => ticket.plate.len() > 255,
        MessageView::IAmDispatcher { roads } => roads.len() > 255,
        _ => false,
    };
    if too_long {
        WireError::TooLong
    } else {
        WireError::NotAscii
    }
}

/// Reads the message at the front of `buf`, if all of it is there, and
/// tells how many bytes it takes. `Ok(None)` asks for more bytes; nothing
/// of `buf` is used up by it.
pub fn decode(buf: &[u8]) -> (r: Result<Option<(Message, usize)>, WireError>)
    ensures
        match spec_decode(buf@) {
            Decoded::Complete { message, consumed } => r matches Ok(Some((m, n))) && m@ == message
                && n == consumed,
            Decoded::Incomplete => r matches Ok(None),
            Decoded::Malformed { error } => r == Err::<Option<(Message, usize)>, WireError>(error),
        },
{
    if buf.len() == 0 {
        return Ok(None);
    }
    let tag: u8 = buf[0];
    if tag == TAG_ERROR || tag == TAG_PLATE || tag == TAG_TICKET {
        if buf.len() < 2 || buf.len() < 2 + buf[1] as usize {
            return Ok(None);
        }
        let end: usize = 2 + buf[1] as usize;
        let text = copy_range(buf, 2, end);
        if !all_ascii(text.as_slice()) {
            return Err(WireError::NotAscii);
        }
        if tag == TAG_ERROR {
            Ok(Some((Message::Error { msg: text }, end)))
        } else if tag == TAG_PLATE {
            if buf.len() < end + 4 {
                return Ok(None);
            }
            Ok(Some((Message::Plate { plate: text, timestamp: read_u32(buf, end) }, end + 4)))
        } else {
            if buf.len() < end + 16 {
                return Ok(None);
            }
            let ticket = Ticket {
                plate: text,
                road: read_u16(buf, end),
                mile1: read_u16(buf, end + 2),
                timestamp1: read_u32(buf, end + 4),
                mile2: read_u16(buf, end + 8),
                timestamp2: read_u32(buf, end + 10),
                speed: read_u16(buf, end + 14),
            };
            Ok(Some((Message::Ticket(ticket), end + 16)))
        }
    } else if tag == TAG_WANT_HEARTBEAT {
        if buf.len() < 5 {
            return Ok(None);
        }
        Ok(Some((Message::WantHeartbeat { interval: read_u32(buf, 1) }, 5)))
    } else if tag == TAG_HEARTBEAT {
        Ok(Some((Message::Heartbeat, 1)))
    } else if tag == TAG_I_AM_CAMERA {
        if buf.len() < 7 {
            return Ok(None);
        }
        Ok(
            Some(
                (
                    Message::IAmCamera {
                        road: read_u16(buf, 1),
                        mile: read_u16(buf, 3),
                        limit: read_u16(buf, 5),
                    },
                    7,
                ),
            ),
        )
    } else if tag == TAG_I_AM_DISPATCHER {
        if buf.len() < 2 || buf.len() < 2 + 2 * (buf[1] as usize) {
            return Ok(None);
        }
        let n: usize = buf[1] as usize;
        Ok(Some((Message::IAmDispatcher { roads: read_roads(buf, 2, n) }, 2 + 2 * n)))
    } else {
        Err(WireError::UnknownTag(tag))
    }
}

/// In a stream that begins with the tag and a string, the string's length
/// and bytes stand where the grammar looks for them.
proof fn lemma_text_field(b: Seq<u8>, tag: u8, text: Seq<u8>)
    requires
        valid_str(text),
        starts_with(b, seq![tag] + spec_encode_str(text)),
    ensures
        b[0] == tag,
        spec_str_end(b) == Some(2 + text.len() as int),
        b.subrange(2, 2 + text.len() as int) == text,
{
    let p = seq![tag] + spec_encode_str(text);
    let whole = b.subrange(0, p.len() as int);
    assert(whole[0] == p[0] && whole[1] == p[1]);
    assert forall|i: int| 0 <= i < text.len() implies b[2 + i] == text[i] by {
        assert(whole[2 + i] == p[2 + i]);
    }
    assert(b.subrange(2, 2 + text.len() as int) =~= text);
}

/// In a stream that begins with the bytes of a ticket, each field is read
/// back from its place.
proof fn lemma_ticket_fields(b: Seq<u8>, t: TicketView)
    requires
        valid_str(t.plate),
        starts_with(b, spec_encode_ticket(t)),
    ensures
        spec_encode_ticket(t).len() == 18 + t.plate.len(),
        b.len() >= 18 + t.plate.len(),
        b[0] == TAG_TICKET,
        spec_str_end(b) == Some(2 + t.plate.len() as int),
        b.subrange(2, 2 + t.plate.len() as int) == t.plate,
        spec_u16_at(b, 2 + t.plate.len() as int) == t.road,
        spec_u16_at(b, 4 + t.plate.len() as int) == t.mile1,
        spec_u32_at(b, 6 + t.plate.len() as int) == t.timestamp1,
        spec_u16_at(b, 10 + t.plate.len() as int) == t.mile2,
        spec_u32_at(b, 12 + t.plate.len() as int) == t.timestamp2,
        spec_u16_at(b, 16 + t.plate.len() as int) == t.speed,
{
    let end: int = 2 + t.plate.len() as int;
    let p1 = seq![TAG_TICKET] + spec_encode_str(t.plate);
    let p2 = p1 + spec_encode_u16(t.road);
    let p3 = p2 + spec_encode_u16(t.mile1);
    let p4 = p3 + spec_encode_u32(t.timestamp1);
    let p5 = p4 + spec_encode_u16(t.mile2);
    let p6 = p5 + spec_encode_u32(t.timestamp2);
    assert(spec_encode_ticket(t) == p6 + spec_encode_u16(t.speed)) by {
        reveal(spec_encode_ticket);
    }
    lemma_field(b, p6, spec_encode_u16(t.speed));
    lemma_field(b, p5, spec_encode_u32(t.timestamp2));
    lemma_field(b, p4, spec_encode_u16(t.mile2));
    lemma_field(b, p3, spec_encode_u32(t.timestamp1));
    lemma_field(b, p2, spec_encode_u16(t.mile1));
    lemma_field(b, p1, spec_encode_u16(t.road));
    lemma_text_field(b, TAG_TICKET, t.plate);
    assert(p1.len() == end);
    lemma_u16_round_trip(b, end, t.road);
    lemma_u16_round_trip(b, end + 2, t.mile1);
    lemma_u32_round_trip(b, end + 4, t.timestamp1);
    lemma_u16_round_trip(b, end + 8, t.mile2);
    lemma_u32_round_trip(b, end + 10, t.timestamp2);
    lemma_u16_round_trip(b, end + 14, t.speed);
}

/// A stream in which the fields of a ticket stand at their places is read
/// as that ticket.
proof fn lemma_decode_ticket(b: Seq<u8>, t: TicketView)
    requires
        is_ascii(t.plate),
        b.len() >= 18 + t.plate.len(),
        b[0] == TAG_TICKET,
        spec_str_end(b) == Some(2 + t.plate.len() as int),
        b.subrange(2, 2 + t.plate.len() as int) == t.plate,
        spec_u16_at(b, 2 + t.plate.len() as int) == t.road,
        spec_u16_at(b, 4 + t.plate.len() as int) == t.mile1,
        spec_u32_at(b, 6 + t.plate.len() as int) == t.timestamp1,
        spec_u16_at(b, 10 + t.plate.len() as int) == t.mile2,
        spec_u32_at(b, 12 + t.plate.len() as int) == t.timestamp2,
        spec_u16_at(b, 16 + t.plate.len() as int) == t.speed,
    ensures
        spec_decode(b) == (Decoded::Complete {
            message: MessageView::Ticket(t),
            consumed: 18 + t.plate.len(),
        }),
{
}

proof fn lemma_decode_encode_ticket(t: TicketView, rest: Seq<u8>)
    requires
        valid_str(t.plate),
    ensures
        spec_decode(MessageView::Ticket(t).encode() + rest) == (Decoded::Complete {
            message: MessageView::Ticket(t),
            consumed: MessageView::Ticket(t).encode().len(),
        }),
{
    let e = spec_encode_ticket(t);
    let b = e + rest;
    lemma_starts_with_front(e, rest);
    lemma_ticket_fields(b, t);
    lemma_decode_ticket(b, t);
}

proof fn lemma_decode_encode_roads(roads: Seq<u16>, rest: Seq<u8>)
    requires
        roads.len() <= 255,
    ensures
        spec_decode(MessageView::IAmDispatcher { roads }.encode() + rest) == (Decoded::Complete {
            message: MessageView::IAmDispatcher { roads },
            consumed: MessageView::IAmDispatcher { roads }.encode().len(),
        }),
{
    let b = MessageView::IAmDispatcher { roads }.encode() + rest;
    let bytes = spec_encode_roads(roads);
    assert(b[0] == TAG_I_AM_DISPATCHER && b[1] == roads.len());
    assert forall|i: int| 0 <= i < roads.len() implies spec_u16_at(b, 2 + 2 * i) == roads[i] by {
        assert(b[2 + 2 * i] == bytes[2 * i]);
        assert(b[2 + 2 * i + 1] == bytes[2 * i + 1]);
    }
    assert(spec_roads_at(b, 2, roads.len()) =~= roads);
}

proof fn lemma_decode_encode_error(msg: Seq<u8>, rest: Seq<u8>)
    requires
        valid_str(msg),
    ensures
        spec_decode(MessageView::Error { msg }.encode() + rest) == (Decoded::Complete {
            message: MessageView::Error { msg },
            consumed: MessageView::Error { msg }.encode().len(),
        }),
{
    let e = seq![TAG_ERROR] + spec_encode_str(msg);
    let b = e + rest;
    lemma_starts_with_front(e, rest);
    lemma_text_field(b, TAG_ERROR, msg);
}

proof fn lemma_decode_encode_plate(plate: Seq<u8>, timestamp: u32, rest: Seq<u8>)
    requires
        valid_str(plate),
    ensures
        spec_decode(MessageView::Plate { plate, timestamp }.encode() + rest) == (Decoded::Complete {
            message: MessageView::Plate { plate, timestamp },
            consumed: MessageView::Plate { plate, timestamp }.encode().len(),
        }),
{
    let p1 = seq![TAG_PLATE] + spec_encode_str(plate);
    let e = p1 + spec_encode_u32(timestamp);
    let b = e + rest;
    lemma_starts_with_front(e, rest);
    lemma_field(b, p1, spec_encode_u32(timestamp));
    lemma_text_field(b, TAG_PLATE, plate);
    lemma_u32_round_trip(b, 2 + plate.len() as int, timestamp);
}

proof fn lemma_decode_encode_want_heartbeat(interval: u32, rest: Seq<u8>)
    ensures
        spec_decode(MessageView::WantHeartbeat { interval }.encode() + rest) == (Decoded::Complete {
            message: MessageView::WantHeartbeat { interval },
            consumed: MessageView::WantHeartbeat { interval }.encode().len(),
        }),
{
    let e = seq![TAG_WANT_HEARTBEAT] + spec_encode_u32(interval);
    let b = e + rest;
    lemma_starts_with_front(e, rest);
    lemma_field(b, seq![TAG_WANT_HEARTBEAT], spec_encode_u32(interval));
    lemma_u32_round_trip(b, 1, interval);
    assert(b[0] == TAG_WANT_HEARTBEAT);
}

proof fn lemma_decode_encode_camera(road: u16, mile: u16, limit: u16, rest: Seq<u8>)
    ensures
        spec_decode(MessageView::IAmCamera { road, mile, limit }.encode() + rest) == (
        Decoded::Complete {
            message: MessageView::IAmCamera { road, mile, limit },
            consumed: MessageView::IAmCamera { road, mile, limit }.encode().len(),
        }),
{
    let p0 = seq![TAG_I_AM_CAMERA];
    let p1 = p0 + spec_encode_u16(road);
    let p2 = p1 + spec_encode_u16(mile);
    let e = p2 + spec_encode_u16(limit);
    let b = e + rest;
    lemma_starts_with_front(e, rest);
    lemma_field(b, p2, spec_encode_u16(limit));
    lemma_field(b, p1, spec_encode_u16(mile));
    lemma_field(b, p0, spec_encode_u16(road));
    lemma_u16_round_trip(b, 1, road);
    lemma_u16_round_trip(b, 3, mile);
    lemma_u16_round_trip(b, 5, limit);
    assert(b[0] == TAG_I_AM_CAMERA);
}

proof fn lemma_decode_encode_heartbeat(rest: Seq<u8>)
    ensures
        spec_decode(MessageView::Heartbeat.encode() + rest) == (Decoded::Complete {
            message: MessageView::Heartbeat,
            consumed: MessageView::Heartbeat.encode().len(),
        }),
{
    let b = seq![TAG_HEARTBEAT] + rest;
    assert(b[0] == TAG_HEARTBEAT);
}

/// Round trip, from messages to bytes and back: the bytes of a valid
/// message, whatever follows them in the stream, are read as that message
/// and as nothing else, and exactly those bytes are used up.
pub proof fn lemma_decode_encode(m: MessageView, rest: Seq<u8>)
    requires
        m.valid(),
    ensures
        spec_decode(m.encode() + rest) == (Decoded::Complete {
            message: m,
            consumed: m.encode().len(),
        }),
{
    match m {
        MessageView::Error { msg } => {
            lemma_decode_encode_error(msg, rest);
        },
        MessageView::Plate { plate, timestamp } => {
            lemma_decode_encode_plate(plate, timestamp, rest);
        },
        MessageView::Ticket(t) => {
            lemma_decode_encode_ticket(t, rest);
        },
        MessageView::WantHeartbeat { interval } => {
            lemma_decode_encode_want_heartbeat(interval, rest);
        },
        MessageView::Heartbeat => {
            lemma_decode_encode_heartbeat(rest);
        },
        MessageView::IAmCamera { road, mile, limit } => {
            lemma_decode_encode_camera(road, mile, limit, rest);
        },
        MessageView::IAmDispatcher { roads } => {
            lemma_decode_encode_roads(roads, rest);
        },
    }
}

proof fn lemma_encode_decode_ticket(b: Seq<u8>)
    requires
        b.len() > 0,
        b[0] == TAG_TICKET,
        spec_decode(b) is Complete,
    ensures
        spec_decode(b)->message.encode() == b.subrange(0, spec_decode(b)->consumed as int),
{
    let m = spec_decode(b)->message;
    let n = spec_decode(b)->consumed as int;
    let t = m->Ticket_0;
    let p1 = seq![TAG_TICKET] + spec_encode_str(t.plate);
    let p2 = p1 + spec_encode_u16(t.road);
    let p3 = p2 + spec_encode_u16(t.mile1);
    let p4 = p3 + spec_encode_u32(t.timestamp1);
    let p5 = p4 + spec_encode_u16(t.mile2);
    let p6 = p5 + spec_encode_u32(t.timestamp2);
    let p7 = p6 + spec_encode_u16(t.speed);
    assert(p1 =~= b.subrange(0, n - 16));
    lemma_u16_bytes(b, n - 16);
    lemma_grow(b, p1, n - 16, spec_encode_u16(t.road));
    lemma_u16_bytes(b, n - 14);
    lemma_grow(b, p2, n - 14, spec_encode_u16(t.mile1));
    lemma_u32_bytes(b, n - 12);
    lemma_grow(b, p3, n - 12, spec_encode_u32(t.timestamp1));
    lemma_u16_bytes(b, n - 8);
    lemma_grow(b, p4, n - 8, spec_encode_u16(t.mile2));
    lemma_u32_bytes(b, n - 6);
    lemma_grow(b, p5, n - 6, spec_encode_u32(t.timestamp2));
    lemma_u16_bytes(b, n - 2);
    lemma_grow(b, p6, n - 2, spec_encode_u16(t.speed));
    assert(m.encode() == p7) by {
        reveal(spec_encode_ticket);
    }
}

proof fn lemma_encode_decode_roads(b: Seq<u8>)
    requires
        b.len() > 0,
        b[0] == TAG_I_AM_DISPATCHER,
        spec_decode(b) is Complete,
    ensures
        spec_decode(b)->message.encode() == b.subrange(0, spec_decode(b)->consumed as int),
{
    let m = spec_decode(b)->message;
    let n = spec_decode(b)->consumed as int;
    let roads = spec_roads_at(b, 2, b[1] as nat);
    let bytes = spec_encode_roads(roads);
    assert forall|k: int| 0 <= k < bytes.len() implies bytes[k] == b[2 + k] by {
        lemma_u16_bytes(b, 2 + 2 * (k / 2));
        let pair = b.subrange(2 + 2 * (k / 2), 2 + 2 * (k / 2) + 2);
        assert(pair[0] == b[2 + 2 * (k / 2)] && pair[1] == b[2 + 2 * (k / 2) + 1]);
    }
    assert(m.encode() =~= b.subrange(0, n));
}

/// Round trip, from bytes to a message and back: what is read from the
/// front of a stream is a valid message, and its bytes are the ones that
/// were used up.
pub proof fn lemma_encode_decode(b: Seq<u8>)
    requires
        spec_decode(b) is Complete,
    ensures
        spec_decode(b)->message.valid(),
        spec_decode(b)->consumed <= b.len(),
        spec_decode(b)->message.encode() == b.subrange(0, spec_decode(b)->consumed as int),
{
    let m = spec_decode(b)->message;
    let n = spec_decode(b)->consumed as int;
    if b[0] == TAG_ERROR {
        assert(m.encode() =~= b.subrange(0, n));
    } else if b[0] == TAG_PLATE {
        let p1 = seq![TAG_PLATE] + spec_encode_str(m->plate);
        assert(p1 =~= b.subrange(0, n - 4));
        lemma_u32_bytes(b, n - 4);
        lemma_grow(b, p1, n - 4, spec_encode_u32(m->timestamp));
    } else if b[0] == TAG_TICKET {
        lemma_encode_decode_ticket(b);
    } else if b[0] == TAG_WANT_HEARTBEAT {
        lemma_u32_bytes(b, 1);
        assert(seq![TAG_WANT_HEARTBEAT] =~= b.subrange(0, 1));
        lemma_grow(b, seq![TAG_WANT_HEARTBEAT], 1, spec_encode_u32(m->interval));
    } else if b[0] == TAG_HEARTBEAT {
        assert(m.encode() =~= b.subrange(0, n));
    } else if b[0] == TAG_I_AM_CAMERA {
        let p0 = seq![TAG_I_AM_CAMERA];
        let p1 = p0 + spec_encode_u16(m->road);
        let p2 = p1 + spec_encode_u16(m->mile);
        assert(p0 =~= b.subrange(0, 1));
        lemma_u16_bytes(b, 1);
        lemma_grow(b, p0, 1, spec_encode_u16(m->road));
        lemma_u16_bytes(b, 3);
        lemma_grow(b, p1, 3, spec_encode_u16(m->mile));
        lemma_u16_bytes(b, 5);
        lemma_grow(b, p2, 5, spec_encode_u16(m->limit));
    } else {
        lemma_encode_decode_roads(b);
    }
}

/// A message takes at least its tag.
pub proof fn lemma_consumed_is_positive(b: Seq<u8>)
    requires
        spec_decode(b) is Complete,
    ensures
        spec_decode(b)->consumed > 0,
{
}

/// The length of a message on the wire.
pub proof fn lemma_encoded_length(m: MessageView)
    requires
        m.valid(),
    ensures
        m.encode().len() == match m {
            MessageView::Error { msg } => 2 + msg.len(),
            MessageView::Plate { plate, .. } => 6 + plate.len(),
            MessageView::Ticket(t) => 18 + t.plate.len(),
            MessageView::WantHeartbeat { .. } => 5,
            MessageView::Heartbeat => 1,
            MessageView::IAmCamera { .. } => 7,
            MessageView::IAmDispatcher { roads } => 2 + 2 * roads.len(),
        },
{
    match m {
        MessageView::Ticket(t) => {
            reveal(spec_encode_ticket);
        },
        _ => {},
    }
}

/// The beginning of a message that starts with a string makes the reader
/// wait as long as the string is not all there.
proof fn lemma_text_waits(e: Seq<u8>, tag: u8, text: Seq<u8>, n: int)
    requires
        valid_str(text),
        tag == TAG_ERROR || tag == TAG_PLATE || tag == TAG_TICKET,
        e.len() > 0,
        e[0] == tag,
        spec_str_end(e) == Some(2 + text.len() as int),
        e.subrange(2, 2 + text.len() as int) == text,
        0 <= n <= e.len(),
    ensures
        n < 2 + text.len() ==> spec_decode(e.take(n)) is Incomplete,
        n >= 2 + text.len() ==> e.take(n)[0] == tag && spec_str_end(e.take(n)) == Some(
            2 + text.len() as int,
        ) && e.take(n).subrange(2, 2 + text.len() as int) == text,
{
    let b = e.take(n);
    if n >= 2 {
        assert(b[0] == e[0] && b[1] == e[1]);
    } else if n == 1 {
        assert(b[0] == e[0]);
    }
    if n >= 2 + text.len() {
        assert(b.subrange(2, 2 + text.len() as int) =~= e.subrange(2, 2 + text.len() as int));
    }
}

/// The reader waits: the beginning of a valid message, short of its last
/// byte at least, is taken neither for a message nor for an error.
pub proof fn lemma_beginning_waits(m: MessageView, n: int)
    requires
        m.valid(),
        0 <= n < m.encode().len(),
    ensures
        spec_decode(m.encode().take(n)) is Incomplete,
{
    let e = m.encode();
    let b = e.take(n);
    lemma_encoded_length(m);
    if n > 0 {
        assert(b[0] == e[0]);
    }
    match m {
        MessageView::Error { msg } => {
            lemma_starts_with_front(e, Seq::empty());
            assert(e + Seq::<u8>::empty() =~= e);
            lemma_text_field(e, TAG_ERROR, msg);
            lemma_text_waits(e, TAG_ERROR, msg, n);
        },
        MessageView::Plate { plate, timestamp } => {
            let p1 = seq![TAG_PLATE] + spec_encode_str(plate);
            lemma_starts_with_front(e, Seq::empty());
            assert(e + Seq::<u8>::empty() =~= e);
            lemma_field(e, p1, spec_encode_u32(timestamp));
            lemma_text_field(e, TAG_PLATE, plate);
            lemma_text_waits(e, TAG_PLATE, plate, n);
        },
        MessageView::Ticket(t) => {
            lemma_starts_with_front(e, Seq::empty());
            assert(e + Seq::<u8>::empty() =~= e);
            lemma_ticket_fields(e, t);
            lemma_text_waits(e, TAG_TICKET, t.plate, n);
        },
        MessageView::WantHeartbeat { interval } => {
            if n > 0 {
                assert(e[0] == TAG_WANT_HEARTBEAT);
            }
        },
        MessageView::Heartbeat => {},
        MessageView::IAmCamera { road, mile, limit } => {
            if n > 0 {
                assert(e[0] == TAG_I_AM_CAMERA);
            }
        },
        MessageView::IAmDispatcher { roads } => {
            if n > 0 {
                assert(e[0] == TAG_I_AM_DISPATCHER);
            }
            if n > 1 {
                assert(b[1] == e[1]);
                assert(e[1] == roads.len());
            }
        },
    }
}

} // verus!
