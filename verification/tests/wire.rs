use protohackers::speed_daemon::controller::Ticket;
use protohackers::speed_daemon::wire::{decode, Message, WireError};

fn bytes_of(message: &Message) -> Vec<u8> {
    let mut out = Vec::new();
    message.encode(&mut out).unwrap();
    out
}

fn sample_ticket() -> Ticket {
    Ticket {
        plate: b"UN1X".to_vec(),
        road: 66,
        mile1: 100,
        timestamp1: 123456,
        mile2: 110,
        timestamp2: 123816,
        speed: 10000,
    }
}

fn one_of_each() -> Vec<Message> {
    vec![
        Message::Error { msg: b"illegal msg".to_vec() },
        Message::Plate { plate: b"RE05BKG".to_vec(), timestamp: 123456 },
        Message::Ticket(sample_ticket()),
        Message::WantHeartbeat { interval: 1243 },
        Message::Heartbeat,
        Message::IAmCamera { road: 368, mile: 1234, limit: 40 },
        Message::IAmDispatcher { roads: vec![66, 368, 5000] },
    ]
}

#[test]
fn encode_error() {
    assert_eq!(bytes_of(&Message::Error { msg: b"bad".to_vec() }), vec![0x10, 0x03, 0x62, 0x61, 0x64]);
    assert_eq!(
        bytes_of(&Message::Error { msg: b"illegal msg".to_vec() }),
        vec![0x10, 0x0b, 0x69, 0x6c, 0x6c, 0x65, 0x67, 0x61, 0x6c, 0x20, 0x6d, 0x73, 0x67]
    );
}

#[test]
fn encode_plate() {
    assert_eq!(
        bytes_of(&Message::Plate { plate: b"UN1X".to_vec(), timestamp: 1000 }),
        vec![0x20, 0x04, 0x55, 0x4e, 0x31, 0x58, 0x00, 0x00, 0x03, 0xe8]
    );
}

#[test]
fn encode_ticket() {
    assert_eq!(
        bytes_of(&Message::Ticket(sample_ticket())),
        vec![
            0x21, 0x04, 0x55, 0x4e, 0x31, 0x58, 0x00, 0x42, 0x00, 0x64, 0x00, 0x01, 0xe2, 0x40,
            0x00, 0x6e, 0x00, 0x01, 0xe3, 0xa8, 0x27, 0x10
        ]
    );
}

#[test]
fn encode_heartbeats() {
    assert_eq!(bytes_of(&Message::WantHeartbeat { interval: 10 }), vec![0x40, 0x00, 0x00, 0x00, 0x0a]);
    assert_eq!(bytes_of(&Message::WantHeartbeat { interval: 1243 }), vec![0x40, 0x00, 0x00, 0x04, 0xdb]);
    assert_eq!(bytes_of(&Message::Heartbeat), vec![0x41]);
}

#[test]
fn encode_identities() {
    assert_eq!(
        bytes_of(&Message::IAmCamera { road: 66, mile: 100, limit: 60 }),
        vec![0x80, 0x00, 0x42, 0x00, 0x64, 0x00, 0x3c]
    );
    assert_eq!(bytes_of(&Message::IAmDispatcher { roads: vec![66] }), vec![0x81, 0x01, 0x00, 0x42]);
    assert_eq!(
        bytes_of(&Message::IAmDispatcher { roads: vec![66, 368, 5000] }),
        vec![0x81, 0x03, 0x00, 0x42, 0x01, 0x70, 0x13, 0x88]
    );
    assert_eq!(bytes_of(&Message::IAmDispatcher { roads: vec![] }), vec![0x81, 0x00]);
}

#[test]
fn encode_appends() {
    let mut out = vec![0xaa, 0xbb];
    Message::Heartbeat.encode(&mut out).unwrap();
    Message::WantHeartbeat { interval: 0xa6a9b567 }.encode(&mut out).unwrap();
    assert_eq!(out, vec![0xaa, 0xbb, 0x41, 0x40, 0xa6, 0xa9, 0xb5, 0x67]);
}

#[test]
fn encode_refuses_what_cannot_travel() {
    let mut out = vec![1, 2, 3];
    let long = Message::Error { msg: vec![b'a'; 256] };
    assert_eq!(long.encode(&mut out), Err(WireError::TooLong));
    let latin = Message::Plate { plate: vec![b'A', 0xe9], timestamp: 0 };
    assert_eq!(latin.encode(&mut out), Err(WireError::NotAscii));
    let both = Message::Plate { plate: vec![0xe9; 300], timestamp: 0 };
    assert_eq!(both.encode(&mut out), Err(WireError::TooLong));
    let many = Message::IAmDispatcher { roads: vec![7; 256] };
    assert_eq!(many.encode(&mut out), Err(WireError::TooLong));
    let mut ticket = sample_ticket();
    ticket.plate = vec![0x80];
    assert_eq!(Message::Ticket(ticket).encode(&mut out), Err(WireError::NotAscii));
    assert_eq!(out, vec![1, 2, 3]);
}

#[test]
fn encode_takes_the_longest() {
    let mut out = Vec::new();
    Message::Error { msg: vec![b'z'; 255] }.encode(&mut out).unwrap();
    assert_eq!(out.len(), 257);
    assert_eq!(out[1], 255);
    let mut out = Vec::new();
    Message::IAmDispatcher { roads: vec![0xffff; 255] }.encode(&mut out).unwrap();
    assert_eq!(out.len(), 2 + 510);
}

#[test]
fn decode_examples() {
    assert_eq!(
        decode(&[0x20, 0x07, 0x52, 0x45, 0x30, 0x35, 0x42, 0x4b, 0x47, 0x00, 0x01, 0xe2, 0x40]),
        Ok(Some((Message::Plate { plate: b"RE05BKG".to_vec(), timestamp: 123456 }, 13)))
    );
    assert_eq!(
        decode(&[0x80, 0x01, 0x70, 0x04, 0xd2, 0x00, 0x28]),
        Ok(Some((Message::IAmCamera { road: 368, mile: 1234, limit: 40 }, 7)))
    );
    assert_eq!(
        decode(&[0x81, 0x03, 0x00, 0x42, 0x01, 0x70, 0x13, 0x88]),
        Ok(Some((Message::IAmDispatcher { roads: vec![66, 368, 5000] }, 8)))
    );
    assert_eq!(
        decode(&[0x40, 0x00, 0x00, 0x04, 0xdb]),
        Ok(Some((Message::WantHeartbeat { interval: 1243 }, 5)))
    );
    assert_eq!(decode(&[0x41]), Ok(Some((Message::Heartbeat, 1))));
    assert_eq!(decode(&[0x10, 0x00]), Ok(Some((Message::Error { msg: vec![] }, 2))));
    assert_eq!(
        decode(&[
            0x21, 0x07, 0x52, 0x45, 0x30, 0x35, 0x42, 0x4b, 0x47, 0x01, 0x70, 0x04, 0xd2, 0x00,
            0x0f, 0x42, 0x40, 0x04, 0xd3, 0x00, 0x0f, 0x42, 0x7c, 0x17, 0x70
        ]),
        Ok(Some((
            Message::Ticket(Ticket {
                plate: b"RE05BKG".to_vec(),
                road: 368,
                mile1: 1234,
                timestamp1: 1000000,
                mile2: 1235,
                timestamp2: 1000060,
                speed: 6000,
            }),
            25
        )))
    );
}

#[test]
fn decode_reads_big_numbers() {
    assert_eq!(
        decode(&[0x40, 0xa6, 0xa9, 0xb5, 0x67]),
        Ok(Some((Message::WantHeartbeat { interval: 2796139879 }, 5)))
    );
    assert_eq!(
        decode(&[0x80, 0xa8, 0x23, 0x12, 0x45, 0xff, 0xff]),
        Ok(Some((Message::IAmCamera { road: 43043, mile: 4677, limit: 65535 }, 7)))
    );
}

#[test]
fn decode_leaves_what_follows() {
    let stream = [0x41, 0x40, 0x00, 0x00, 0x00, 0x0a, 0x99];
    assert_eq!(decode(&stream), Ok(Some((Message::Heartbeat, 1))));
    assert_eq!(decode(&stream[1..]), Ok(Some((Message::WantHeartbeat { interval: 10 }, 5))));
    assert_eq!(decode(&stream[6..]), Err(WireError::UnknownTag(0x99)));
}

#[test]
fn decode_waits_for_the_rest() {
    for message in one_of_each() {
        let bytes = bytes_of(&message);
        for cut in 0..bytes.len() {
            assert_eq!(decode(&bytes[..cut]), Ok(None), "{:?} cut at {}", message, cut);
        }
        assert_eq!(decode(&bytes), Ok(Some((message, bytes.len()))));
    }
}

#[test]
fn decode_refuses_unknown_tags() {
    assert_eq!(decode(&[0x00]), Err(WireError::UnknownTag(0x00)));
    assert_eq!(decode(&[0x11, 0x00]), Err(WireError::UnknownTag(0x11)));
    assert_eq!(decode(&[0x82, 1, 2, 3]), Err(WireError::UnknownTag(0x82)));
    assert_eq!(decode(&[0xff]), Err(WireError::UnknownTag(0xff)));
}

#[test]
fn decode_refuses_what_is_not_ascii() {
    assert_eq!(decode(&[0x20, 0x02, 0x41, 0x80, 0, 0, 0, 1]), Err(WireError::NotAscii));
    assert_eq!(decode(&[0x20, 0x02, 0x41, 0x80]), Err(WireError::NotAscii));
    assert_eq!(decode(&[0x10, 0x01, 0xff]), Err(WireError::NotAscii));
    assert_eq!(decode(&[0x20, 0x02, 0x80]), Ok(None));
    assert_eq!(decode(&[0x20, 0x01, 0x7f, 0, 0, 0, 0]), Ok(Some((Message::Plate { plate: vec![0x7f], timestamp: 0 }, 7))));
}

#[test]
fn round_trip() {
    for message in one_of_each() {
        let mut stream = bytes_of(&message);
        let length = stream.len();
        stream.extend_from_slice(&[0x41, 0x00, 0xff]);
        assert_eq!(decode(&stream), Ok(Some((message, length))));
    }
}

#[test]
fn round_trip_of_bytes() {
    let stream = vec![0x81, 0x02, 0x00, 0x01, 0xff, 0xfe, 0x41];
    let (message, used) = decode(&stream).unwrap().unwrap();
    assert_eq!(used, 6);
    assert_eq!(bytes_of(&message), stream[..used].to_vec());
}
