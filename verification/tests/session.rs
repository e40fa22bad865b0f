use protohackers::speed_daemon::cameras::{CameraError, Cameras};
use protohackers::speed_daemon::controller::Plate;
use protohackers::speed_daemon::heartbeat::{period_of, Heartbeat};
use protohackers::speed_daemon::session::{Action, ProtocolError, Role, Session, Step};
use protohackers::speed_daemon::wire::WireError;

const I_AM_CAMERA: [u8; 7] = [0x80, 0x00, 0x7b, 0x00, 0x08, 0x00, 0x3c];
const PLATE: [u8; 10] = [0x20, 0x04, 0x55, 0x4e, 0x31, 0x58, 0x00, 0x00, 0x00, 0x2d];
const I_AM_DISPATCHER: [u8; 4] = [0x81, 0x01, 0x00, 0x7b];
const WANT_HEARTBEAT: [u8; 5] = [0x40, 0x00, 0x00, 0x00, 0x0a];

fn closed(error: ProtocolError) -> Step {
    Step { consumed: 0, action: Action::Close { error } }
}

#[test]
fn camera_reports_plates() {
    let mut cameras = Cameras::new();
    let mut session = Session::new();
    assert_eq!(session.role(), Role::Unidentified);
    assert_eq!(
        session.step(&mut cameras, &I_AM_CAMERA),
        Step { consumed: 7, action: Action::CameraReady }
    );
    assert_eq!(session.role(), Role::Camera { road: 123, mile: 8, limit: 60 });
    assert_eq!(cameras.count(123), 1);
    let expected = Plate { plate: b"UN1X".to_vec(), road: 123, mile: 8, limit: 60, timestamp: 45 };
    assert_eq!(
        session.step(&mut cameras, &PLATE),
        Step { consumed: 10, action: Action::Observe(expected) }
    );
    session.close(&mut cameras);
    assert_eq!(session.role(), Role::Closed);
    assert_eq!(cameras.count(123), 0);
}

#[test]
fn dispatcher_names_its_roads() {
    let mut cameras = Cameras::new();
    let mut session = Session::default();
    assert_eq!(
        session.step(&mut cameras, &[0x81, 0x03, 0x00, 0x42, 0x01, 0x70, 0x13, 0x88, 0x40]),
        Step { consumed: 8, action: Action::Register { roads: vec![66, 368, 5000] } }
    );
    assert_eq!(session.role(), Role::Dispatcher);
    assert_eq!(
        session.step(&mut cameras, &PLATE),
        closed(ProtocolError::IllegalMessage { tag: 0x20, identified: true })
    );
    assert_eq!(session.role(), Role::Closed);
}

#[test]
fn step_waits_for_whole_messages() {
    let mut cameras = Cameras::new();
    let mut session = Session::new();
    assert_eq!(session.step(&mut cameras, &[]), Step { consumed: 0, action: Action::Wait });
    for cut in 1..I_AM_CAMERA.len() {
        assert_eq!(
            session.step(&mut cameras, &I_AM_CAMERA[..cut]),
            Step { consumed: 0, action: Action::Wait }
        );
        assert_eq!(session.role(), Role::Unidentified);
    }
    let mut stream = I_AM_CAMERA.to_vec();
    stream.extend_from_slice(&PLATE[..4]);
    assert_eq!(session.step(&mut cameras, &stream).consumed, 7);
    assert_eq!(session.step(&mut cameras, &stream[7..]), Step { consumed: 0, action: Action::Wait });
}

#[test]
fn plate_before_camera_is_an_error() {
    let mut cameras = Cameras::new();
    let mut session = Session::new();
    // the first byte is enough
    assert_eq!(
        session.step(&mut cameras, &PLATE[..1]),
        closed(ProtocolError::IllegalMessage { tag: 0x20, identified: false })
    );
    assert_eq!(session.role(), Role::Closed);
}

#[test]
fn identity_is_given_once() {
    let mut cameras = Cameras::new();
    let mut session = Session::new();
    session.step(&mut cameras, &I_AM_CAMERA);
    assert_eq!(
        session.step(&mut cameras, &I_AM_DISPATCHER),
        closed(ProtocolError::IllegalMessage { tag: 0x81, identified: true })
    );
    // the camera has given its place back
    assert_eq!(cameras.count(123), 0);

    let mut session = Session::new();
    session.step(&mut cameras, &I_AM_DISPATCHER);
    assert_eq!(
        session.step(&mut cameras, &I_AM_CAMERA[..1]),
        closed(ProtocolError::IllegalMessage { tag: 0x80, identified: true })
    );
    let mut session = Session::new();
    session.step(&mut cameras, &I_AM_CAMERA);
    assert_eq!(
        session.step(&mut cameras, &I_AM_CAMERA),
        closed(ProtocolError::IllegalMessage { tag: 0x80, identified: true })
    );
}

#[test]
fn heartbeat_is_asked_for_once() {
    let mut cameras = Cameras::new();
    let mut session = Session::new();
    assert!(!session.heartbeat().is_setted());
    assert_eq!(
        session.step(&mut cameras, &WANT_HEARTBEAT),
        Step { consumed: 5, action: Action::Heartbeat { period: 1000 } }
    );
    assert!(session.heartbeat().is_setted());
    assert!(session.heartbeat().is_valid());
    assert_eq!(session.heartbeat().due_every(), Some(1000));
    assert_eq!(session.role(), Role::Unidentified);
    assert_eq!(
        session.step(&mut cameras, &WANT_HEARTBEAT),
        closed(ProtocolError::IllegalMessage { tag: 0x40, identified: false })
    );
}

#[test]
fn heartbeat_of_zero_counts_as_asked() {
    let mut cameras = Cameras::new();
    let mut session = Session::new();
    session.step(&mut cameras, &I_AM_DISPATCHER);
    assert_eq!(
        session.step(&mut cameras, &[0x40, 0, 0, 0, 0]),
        Step { consumed: 5, action: Action::Heartbeat { period: 0 } }
    );
    assert!(session.heartbeat().is_setted());
    assert!(!session.heartbeat().is_valid());
    assert_eq!(session.heartbeat().due_every(), None);
    assert_eq!(
        session.step(&mut cameras, &[0x40]),
        closed(ProtocolError::IllegalMessage { tag: 0x40, identified: true })
    );
}

#[test]
fn heartbeat_may_come_at_any_time() {
    let mut cameras = Cameras::new();
    let mut session = Session::new();
    session.step(&mut cameras, &I_AM_CAMERA);
    assert_eq!(
        session.step(&mut cameras, &[0x40, 0x00, 0x00, 0x04, 0xdb]),
        Step { consumed: 5, action: Action::Heartbeat { period: 124300 } }
    );
    assert_eq!(session.role(), Role::Camera { road: 123, mile: 8, limit: 60 });
    assert_eq!(session.step(&mut cameras, &PLATE).consumed, 10);
}

#[test]
fn heartbeat_period_is_in_milliseconds() {
    assert_eq!(period_of(10), 1000);
    assert_eq!(period_of(25), 2500);
    assert_eq!(period_of(0), 0);
    assert_eq!(period_of(u32::MAX), 429496729500);
    let mut heartbeat = Heartbeat::new(None);
    assert!(!heartbeat.is_setted());
    assert!(!heartbeat.is_valid());
    heartbeat.set_period(period_of(25));
    assert!(heartbeat.is_valid());
    assert_eq!(heartbeat.due_every(), Some(2500));
    assert_eq!(Heartbeat::new(Some(0)).due_every(), None);
    assert!(Heartbeat::new(Some(0)).is_setted());
    assert!(!Heartbeat::default().is_setted());
}

#[test]
fn messages_of_the_server_are_errors() {
    for tag in [0x10u8, 0x21, 0x41, 0x00, 0x7f, 0xff] {
        let mut cameras = Cameras::new();
        let mut session = Session::new();
        assert_eq!(
            session.step(&mut cameras, &[tag, 0, 0, 0, 0, 0, 0, 0]),
            closed(ProtocolError::IllegalMessage { tag, identified: false })
        );
        assert!(!session.accepts(tag));
    }
}

#[test]
fn accepts_follows_the_role() {
    let mut cameras = Cameras::new();
    let mut session = Session::new();
    assert!(session.accepts(0x80) && session.accepts(0x81) && session.accepts(0x40));
    assert!(!session.accepts(0x20));
    session.step(&mut cameras, &I_AM_CAMERA);
    assert!(session.accepts(0x20) && session.accepts(0x40));
    assert!(!session.accepts(0x80) && !session.accepts(0x81));
    session.close(&mut cameras);
    assert!(!session.accepts(0x20) && !session.accepts(0x40) && !session.accepts(0x80));
}

#[test]
fn limit_conflict_closes_the_second_camera() {
    let mut cameras = Cameras::new();
    let mut first = Session::new();
    let mut second = Session::new();
    assert_eq!(
        first.step(&mut cameras, &[0x80, 0, 7, 0, 0, 0, 60]).action,
        Action::CameraReady
    );
    assert_eq!(
        second.step(&mut cameras, &[0x80, 0, 7, 0, 5, 0, 70]),
        closed(ProtocolError::Camera(CameraError::LimitConflict))
    );
    assert_eq!(second.role(), Role::Closed);
    assert_eq!(first.role(), Role::Camera { road: 7, mile: 0, limit: 60 });
    assert_eq!(cameras.count(7), 1);
    assert_eq!(cameras.limit(7), Some(60));
}

#[test]
fn a_plate_that_is_not_ascii_closes_the_camera() {
    let mut cameras = Cameras::new();
    let mut session = Session::new();
    session.step(&mut cameras, &I_AM_CAMERA);
    assert_eq!(
        session.step(&mut cameras, &[0x20, 0x01, 0xc3, 0, 0, 0, 0]),
        closed(ProtocolError::Malformed(WireError::NotAscii))
    );
    assert_eq!(cameras.count(123), 0);
}

#[test]
fn errors_have_texts() {
    let text = |e: ProtocolError| String::from_utf8(e.text()).unwrap();
    assert_eq!(text(ProtocolError::IllegalMessage { tag: 0x20, identified: false }), "invalid message: 0x20");
    assert_eq!(text(ProtocolError::IllegalMessage { tag: 0x0a, identified: false }), "invalid message: 0x0a");
    assert_eq!(text(ProtocolError::IllegalMessage { tag: 0xff, identified: true }), "invalid msg: 0xff");
    assert_eq!(text(ProtocolError::IllegalMessage { tag: 0x81, identified: true }), "invalid msg: 0x81");
    assert_eq!(text(ProtocolError::Camera(CameraError::LimitConflict)), "invalid camera: limit conflict");
    assert_eq!(text(ProtocolError::Camera(CameraError::TooManyCameras)), "invalid camera: too many cameras");
    assert_eq!(text(ProtocolError::Malformed(WireError::NotAscii)), "invalid string");
    assert_eq!(text(ProtocolError::Malformed(WireError::TooLong)), "string too long");
    assert_eq!(text(ProtocolError::Malformed(WireError::UnknownTag(0x9c))), "invalid message: 0x9c");
}
