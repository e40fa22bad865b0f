//! One connection: who the client is, which messages it may send, and what
//! each of them asks the daemon to do.
//!
//! A client begins unidentified and becomes a camera or a dispatcher, once.
//! A camera may report plates. Any client may ask for a heartbeat, once. A
//! message that is not allowed is judged by its first byte, before the rest
//! of it has come.

use crate::speed_daemon::cameras::{
    CameraError, Cameras, RoadView, spec_register, spec_release,
};
use crate::speed_daemon::controller::{Plate, PlateView};
use crate::speed_daemon::heartbeat::{period_of, spec_period, Heartbeat};
use crate::speed_daemon::wire::{
    decode, spec_decode, Decoded, Message, MessageView, WireError, TAG_I_AM_CAMERA,
    TAG_I_AM_DISPATCHER, TAG_PLATE, TAG_WANT_HEARTBEAT,
};
use vstd::prelude::*;
use vstd::string::StringSliceAdditionalSpecFns;

verus! {

/// Who the client of a connection is.
#[derive(Debug, Clone, Copy, PartialEq, Eq, Structural)]
pub enum Role {
    /// The client has not said yet.
    Unidentified,
    /// A camera at a mile of a road, with the limit that it declared.
    Camera { road: u16, mile: u16, limit: u16 },
    /// A dispatcher.
    Dispatcher,
    /// The connection is over.
    Closed,
}

/// What a client did wrong.
#[derive(Debug, Clone, Copy, PartialEq, Eq, Structural)]
pub enum ProtocolError {
    /// A message that the client may not send, or not now. `identified`
    /// tells whether the client had said who it is.
    IllegalMessage { tag: u8, identified: bool },
    /// Bytes that are no message.
    Malformed(WireError),
    /// A camera that cannot be taken in.
    Camera(CameraError),
}

/// What the daemon has to do after a step of a connection.
#[derive(Debug, Clone, PartialEq, Eq)]
pub enum Action {
    /// Wait for more bytes.
    Wait,
    /// Nothing: the camera has its place.
    CameraReady,
    /// Register the dispatcher for these roads.
    Register { roads: Vec<u16> },
    /// Send a heartbeat every `period` milliseconds, or none where the
    /// period is 0.
    Heartbeat { period: u64 },
    /// Hand the report to the ticketing engine.
    Observe(Plate),
    /// Tell the client what it did wrong, and close the connection.
    Close { error: ProtocolError },
}

/// What an [`Action`] says, with sequences in place of vectors.
pub enum ActionView {
    Wait,
    CameraReady,
    Register { roads: Seq<u16> },
    Heartbeat { period: u64 },
    Observe(PlateView),
    Close { error: ProtocolError },
}

impl View for Action {
    type V = ActionView;

    open spec fn view(&self) -> ActionView {
        match *self {
            Action::Wait => ActionView::Wait,
            Action::CameraReady => ActionView::CameraReady,
            Action::Register { roads } => ActionView::Register { roads: roads@ },
            Action::Heartbeat { period } => ActionView::Heartbeat { period },
            Action::Observe(plate) => ActionView::Observe(plate@),
            Action::Close { error } => ActionView::Close { error },
        }
    }
}

/// One step of a connection: how many bytes were used up, and what is to be
/// done.
#[derive(Debug, Clone, PartialEq, Eq)]
pub struct Step {
    pub consumed: usize,
    pub action: Action,
}

/// What a connection knows: who the client is, and the period of the
/// heartbeat, if the client has asked for one.
pub struct SessionView {
    pub role: Role,
    pub heartbeat: Option<u64>,
}

/// Where a step leads: the connection and the registry of cameras after it,
/// the bytes that it used up, and what is to be done.
pub struct Outcome {
    pub session: SessionView,
    pub cameras: Map<u16, RoadView>,
    pub consumed: nat,
    pub action: ActionView,
}

/// A client in the state `s` may send a message with the tag `tag`.
pub open spec fn spec_legal(s: SessionView, tag: u8) -> bool {
    if tag == TAG_WANT_HEARTBEAT {
        !(s.role is Closed) && s.heartbeat is None
    } else if tag == TAG_I_AM_CAMERA || tag == TAG_I_AM_DISPATCHER {
        s.role is Unidentified
    } else if tag == TAG_PLATE {
        s.role is Camera
    } else {
        false
    }
}

/// The registry of cameras after the connection is over: a camera gives
/// its place back.
pub open spec fn spec_leave(role: Role, cameras: Map<u16, RoadView>) -> Map<u16, RoadView> {
    match role {
        Role::Camera { road, .. } => spec_release(cameras, road),
        _ => cameras,
    }
}

/// The end of a connection on an error of the client.
pub open spec fn spec_fail(s: SessionView, cameras: Map<u16, RoadView>, error: ProtocolError) -> Outcome {
    Outcome {
        session: SessionView { role: Role::Closed, heartbeat: s.heartbeat },
        cameras: spec_leave(s.role, cameras),
        consumed: 0,
        action: ActionView::Close { error },
    }
}

/// Where a message that the client may send leads.
pub open spec fn spec_apply(
    s: SessionView,
    cameras: Map<u16, RoadView>,
    message: MessageView,
    consumed: nat,
) -> Outcome {
    match message {
        MessageView::IAmCamera { road, mile, limit } => match spec_register(cameras, road, limit) {
            Ok(after) => Outcome {
                session: SessionView {
                    role: Role::Camera { road, mile, limit },
                    heartbeat: s.heartbeat,
                },
                cameras: after,
                consumed,
                action: ActionView::CameraReady,
            },
            Err(error) => spec_fail(s, cameras, ProtocolError::Camera(error)),
        },
        MessageView::IAmDispatcher { roads } => Outcome {
            session: SessionView { role: Role::Dispatcher, heartbeat: s.heartbeat },
            cameras,
            consumed,
            action: ActionView::Register { roads },
        },
        MessageView::WantHeartbeat { interval } => Outcome {
            session: SessionView { role: s.role, heartbeat: Some(spec_period(interval)) },
            cameras,
            consumed,
            action: ActionView::Heartbeat { period: spec_period(interval) },
        },
        MessageView::Plate { plate, timestamp } => match s.role {
            Role::Camera { road, mile, limit } => Outcome {
                session: s,
                cameras,
                consumed,
                action: ActionView::Observe(PlateView { plate, road, mile, limit, timestamp }),
            },
            _ => spec_fail(
                s,
                cameras,
                ProtocolError::IllegalMessage {
                    tag: TAG_PLATE,
                    identified: !(s.role is Unidentified),
                },
            ),
        },
        MessageView::Error { .. } => spec_fail(
            s,
            cameras,
            ProtocolError::IllegalMessage { tag: 0x10, identified: !(s.role is Unidentified) },
        ),
        MessageView::Ticket(_) => spec_fail(
            s,
            cameras,
            ProtocolError::IllegalMessage { tag: 0x21, identified: !(s.role is Unidentified) },
        ),
        MessageView::Heartbeat => spec_fail(
            s,
            cameras,
            ProtocolError::IllegalMessage { tag: 0x41, identified: !(s.role is Unidentified) },
        ),
    }
}

/// Where the bytes `buf`, which the client has sent and the daemon has not
/// used up, lead.
///
/// The first byte decides whether the message is allowed. A message that is
/// allowed is waited for until all of it is there.
pub open spec fn spec_step(s: SessionView, cameras: Map<u16, RoadView>, buf: Seq<u8>) -> Outcome {
    if buf.len() == 0 {
        Outcome { session: s, cameras, consumed: 0, action: ActionView::Wait }
    } else if !spec_legal(s, buf[0]) {
        spec_fail(
            s,
            cameras,
            ProtocolError::IllegalMessage { tag: buf[0], identified: !(s.role is Unidentified) },
        )
    } else {
        match spec_decode(buf) {
            Decoded::Incomplete => Outcome {
                session: s,
                cameras,
                consumed: 0,
                action: ActionView::Wait,
            },
            Decoded::Malformed { error } => spec_fail(s, cameras, ProtocolError::Malformed(error)),
            Decoded::Complete { message, consumed } => spec_apply(s, cameras, message, consumed),
        }
    }
}

/// The state of one connection.
#[derive(Debug)]
pub struct Session {
    role: Role,
    heartbeat: Heartbeat,
}

impl View for Session {
    type V = SessionView;

    closed spec fn view(&self) -> SessionView {
        SessionView { role: self.role, heartbeat: self.heartbeat.period() }
    }
}

impl Session {
    /// A connection whose client has said nothing yet.
    pub fn new() -> (session: Session)
        ensures
            session@ == (SessionView { role: Role::Unidentified, heartbeat: None }),
    {
        Session { role: Role::Unidentified, heartbeat: Heartbeat::new(None) }
    }

    /// Who the client is.
    pub fn role(&self) -> (role: Role)
        ensures
            role == self@.role,
    {
        self.role
    }

    /// The heartbeat of the connection.
    pub fn heartbeat(&self) -> (heartbeat: Heartbeat)
        ensures
            heartbeat.period() == self@.heartbeat,
    {
        self.heartbeat
    }

    /// Tells whether the client may now send a message with the tag `tag`.
    pub fn accepts(&self, tag: u8) -> (legal: bool)
        ensures
            legal == spec_legal(self@, tag),
    {
        if tag == TAG_WANT_HEARTBEAT {
            !matches!(self.role, Role::Closed) && !self.heartbeat.is_setted()
        } else if tag == TAG_I_AM_CAMERA || tag == TAG_I_AM_DISPATCHER {
            matches!(self.role, Role::Unidentified)
        } else if tag == TAG_PLATE {
            matches!(self.role, Role::Camera { .. })
        } else {
            false
        }
    }

    /// Ends the connection: a camera gives its place back.
    pub fn close(&mut self, cameras: &mut Cameras)
        requires
            old(cameras).wf(),
        ensures
            final(cameras).wf(),
            final(cameras)@ == spec_leave(old(self)@.role, old(cameras)@),
            final(self)@ == (SessionView { role: Role::Closed, heartbeat: old(self)@.heartbeat }),
    {
        match self.role {
            Role::Camera { road, .. } => {
                cameras.release(road);
            },
            _ => {},
        }
        self.role = Role::Closed;
    }

    /// Ends the connection on an error of the client.
    fn fail(&mut self, cameras: &mut Cameras, error: ProtocolError) -> (step: Step)
        requires
            old(cameras).wf(),
        ensures
            final(cameras).wf(),
            final(self)@ == spec_fail(old(self)@, old(cameras)@, error).session,
            final(cameras)@ == spec_fail(old(self)@, old(cameras)@, error).cameras,
            step.consumed == 0,
            step.action@ == spec_fail(old(self)@, old(cameras)@, error).action,
    {
        self.close(cameras);
        Step { consumed: 0, action: Action::Close { error } }
    }

    /// Takes one step on the bytes that the client has sent and that were
    /// not used up yet: at most one message is read from their front.
    pub fn step(&mut self, cameras: &mut Cameras, buf: &[u8]) -> (step: Step)
        requires
            old(cameras).wf(),
        ensures
            final(cameras).wf(),
            final(self)@ == spec_step(old(self)@, old(cameras)@, buf@).session,
            final(cameras)@ == spec_step(old(self)@, old(cameras)@, buf@).cameras,
            step.consumed == spec_step(old(self)@, old(cameras)@, buf@).consumed,
            step.action@ == spec_step(old(self)@, old(cameras)@, buf@).action,
    {
        if buf.len() == 0 {
            return Step { consumed: 0, action: Action::Wait };
        }
        let identified = !matches!(self.role, Role::Unidentified);
        if !self.accepts(buf[0]) {
            return self.fail(cameras, ProtocolError::IllegalMessage { tag: buf[0], identified });
        }
        match decode(buf) {
            Ok(None) => Step { consumed: 0, action: Action::Wait },
            Err(error) => self.fail(cameras, ProtocolError::Malformed(error)),
            Ok(Some((message, consumed))) => match message {
                Message::IAmCamera { road, mile, limit } => match cameras.register(road, limit) {
                    Ok(()) => {
                        self.role = Role::Camera { road, mile, limit };
                        Step { consumed, action: Action::CameraReady }
                    },
                    Err(error) => self.fail(cameras, ProtocolError::Camera(error)),
                },
                Message::IAmDispatcher { roads } => {
                    self.role = Role::Dispatcher;
                    Step { consumed, action: Action::Register { roads } }
                },
                Message::WantHeartbeat { interval } => {
                    let period = period_of(interval);
                    self.heartbeat.set_period(period);
                    Step { consumed, action: Action::Heartbeat { period } }
                },
                Message::Plate { plate, timestamp } => match self.role {
                    Role::Camera { road, mile, limit } => Step {
                        consumed,
                        action: Action::Observe(Plate { plate, road, mile, limit, timestamp }),
                    },
                    _ => self.fail(
                        cameras,
                        ProtocolError::IllegalMessage { tag: TAG_PLATE, identified },
                    ),
                },
                Message::Error { .. } => self.fail(
                    cameras,
                    ProtocolError::IllegalMessage { tag: 0x10, identified },
                ),
                Message::Ticket(_) => self.fail(
                    cameras,
                    ProtocolError::IllegalMessage { tag: 0x21, identified },
                ),
                Message::Heartbeat => self.fail(
                    cameras,
                    ProtocolError::IllegalMessage { tag: 0x41, identified },
                ),
            },
        }
    }
}

impl Default for Session {
    fn default() -> (session: Session)
        ensures
            session@ == (SessionView { role: Role::Unidentified, heartbeat: None }),
    {
        Session::new()
    }
}

/// The digit, in lower case, of a number below sixteen.
pub open spec fn spec_hex_digit(n: u8) -> u8 {
    if n < 10 {
        (0x30 + n) as u8
    } else {
        (0x61 + n - 10) as u8
    }
}

/// The two digits of a byte, in lower case.
pub open spec fn spec_hex(byte: u8) -> Seq<u8> {
    seq![spec_hex_digit(byte / 16), spec_hex_digit(byte % 16)]
}

/// What the client is told of its error.
pub open spec fn spec_text(error: ProtocolError) -> Seq<u8> {
    match error {
        ProtocolError::IllegalMessage { tag, identified } => if identified {
            "invalid msg: 0x".spec_bytes() + spec_hex(tag)
        } else {
            "invalid message: 0x".spec_bytes() + spec_hex(tag)
        },
        ProtocolError::Malformed(WireError::UnknownTag(tag)) => "invalid message: 0x".spec_bytes()
            + spec_hex(tag),
        ProtocolError::Malformed(WireError::NotAscii) => "invalid string".spec_bytes(),
        ProtocolError::Malformed(WireError::TooLong) => "string too long".spec_bytes(),
        ProtocolError::Camera(CameraError::LimitConflict) => "invalid camera: limit conflict".spec_bytes(),
        ProtocolError::Camera(CameraError::TooManyCameras) => "invalid camera: too many cameras".spec_bytes(),
    }
}

fn hex_digit(n: u8) -> (digit: u8)
    requires
        n < 16,
    ensures
        digit == spec_hex_digit(n),
{
    if n < 10 {
        0x30 + n
    } else {
        0x61 + n - 10
    }
}

/// `text`, and the two digits of `byte` behind it.
fn with_hex(text: &str, byte: u8) -> (out: Vec<u8>)
    ensures
        out@ == text.spec_bytes() + spec_hex(byte),
{
    let mut out = crate::speed_daemon::octets::copy_bytes(text.as_bytes());
    out.push(hex_digit(byte / 16));
    out.push(hex_digit(byte % 16));
    assert(out@ =~= text.spec_bytes() + spec_hex(byte));
    out
}

impl ProtocolError {
    /// What the client is told of its error.
    pub fn text(&self) -> (text: Vec<u8>)
        ensures
            text@ == spec_text(*self),
    {
        match *self {
            ProtocolError::IllegalMessage { tag, identified } => if identified {
                with_hex("invalid msg: 0x", tag)
            } else {
                with_hex("invalid message: 0x", tag)
            },
            ProtocolError::Malformed(WireError::UnknownTag(tag)) => with_hex(
                "invalid message: 0x",
                tag,
            ),
            ProtocolError::Malformed(WireError::NotAscii) => crate::speed_daemon::octets::copy_bytes(
                "invalid string".as_bytes(),
            ),
            ProtocolError::Malformed(WireError::TooLong) => crate::speed_daemon::octets::copy_bytes(
                "string too long".as_bytes(),
            ),
            ProtocolError::Camera(CameraError::LimitConflict) => crate::speed_daemon::octets::copy_bytes(
                "invalid camera: limit conflict".as_bytes(),
            ),
            ProtocolError::Camera(CameraError::TooManyCameras) => crate::speed_daemon::octets::copy_bytes(
                "invalid camera: too many cameras".as_bytes(),
            ),
        }
    }
}

/// A client says once who it is: a camera stays that camera and a
/// dispatcher stays a dispatcher until the connection is over, and a
/// connection that is over stays so.
pub proof fn lemma_identity_is_kept(s: SessionView, cameras: Map<u16, RoadView>, buf: Seq<u8>)
    requires
        !(s.role is Unidentified),
    ensures
        spec_step(s, cameras, buf).session.role == s.role || spec_step(
            s,
            cameras,
            buf,
        ).session.role is Closed,
{
}

/// A heartbeat is asked for once: a period that is set stays as it is.
pub proof fn lemma_heartbeat_is_kept(s: SessionView, cameras: Map<u16, RoadView>, buf: Seq<u8>)
    requires
        s.heartbeat is Some,
    ensures
        spec_step(s, cameras, buf).session.heartbeat == s.heartbeat,
{
}

/// A step that ends the connection uses up nothing; any other step uses up
/// the bytes of one whole message, or waits.
pub proof fn lemma_step_uses_one_message(s: SessionView, cameras: Map<u16, RoadView>, buf: Seq<u8>)
    ensures
        ({
            let after = spec_step(s, cameras, buf);
            match after.action {
                ActionView::Wait | ActionView::Close { .. } => after.consumed == 0,
                _ => spec_decode(buf) is Complete && after.consumed == spec_decode(buf)->consumed
                    && 0 < after.consumed <= buf.len(),
            }
        }),
{
    if spec_decode(buf) is Complete {
        crate::speed_daemon::wire::lemma_encode_decode(buf);
        crate::speed_daemon::wire::lemma_consumed_is_positive(buf);
    }
}

} // verus!
