use bytes::BytesMut;
use protohackers::means_to_an_end::{parse, I32Encoder, Message, MessageInvalid, Prices};
use protohackers::poller::{ready_keys, EventKey};
use protohackers::stream::left_to_write;

#[test]
fn parse_reads_inserts_and_queries() {
    assert_eq!(
        parse(&[0x49, 0x00, 0x00, 0x30, 0x39, 0x00, 0x00, 0x00, 0x65]),
        Ok(Message::Insert { timestamp: 12345, price: 101 })
    );
    assert_eq!(
        parse(&[0x51, 0x00, 0x00, 0x03, 0xe8, 0x00, 0x01, 0x86, 0xa0]),
        Ok(Message::Query { mintime: 1000, maxtime: 100000 })
    );
}

#[test]
fn parse_reads_negative_numbers() {
    assert_eq!(
        parse(&[b'I', 0xff, 0xff, 0xff, 0xff, 0x80, 0x00, 0x00, 0x00]),
        Ok(Message::Insert { timestamp: -1, price: i32::MIN })
    );
    assert_eq!(
        parse(&[b'Q', 0x7f, 0xff, 0xff, 0xff, 0xff, 0xff, 0xff, 0x9c]),
        Ok(Message::Query { mintime: i32::MAX, maxtime: -100 })
    );
}

#[test]
fn parse_refuses_other_letters() {
    assert_eq!(parse(&[b'X', 0, 0, 0, 0, 0, 0, 0, 0]), Err(MessageInvalid));
    assert_eq!(parse(&[b'i', 0, 0, 0, 1, 0, 0, 0, 1]), Err(MessageInvalid));
    assert_eq!(parse(&[0, 0, 0, 0, 0, 0, 0, 0, 0]), Err(MessageInvalid));
}

#[test]
fn encoder_writes_four_bytes() {
    let mut encoder = I32Encoder::new();
    let mut buffer = BytesMut::new();
    encoder.encode(101, &mut buffer);
    assert_eq!(&buffer[..], &[0x00, 0x00, 0x00, 0x65]);
    encoder.encode(-1, &mut buffer);
    encoder.encode(i32::MIN, &mut buffer);
    I32Encoder::default().encode(i32::MAX, &mut buffer);
    assert_eq!(
        &buffer[..],
        &[0, 0, 0, 0x65, 0xff, 0xff, 0xff, 0xff, 0x80, 0, 0, 0, 0x7f, 0xff, 0xff, 0xff]
    );
    for item in [0, 1, -1, 255, 256, -256, 123456789, -123456789, i32::MIN, i32::MAX] {
        let mut buffer = BytesMut::new();
        encoder.encode(item, &mut buffer);
        assert_eq!(&buffer[..], item.to_be_bytes().as_slice());
    }
}

#[test]
fn mean_of_the_example_session() {
    let mut prices = Prices::new();
    prices.insert(12345, 101);
    prices.insert(12346, 102);
    prices.insert(12347, 100);
    prices.insert(40960, 5);
    assert_eq!(prices.mean(12288, 16384), 101);
    assert_eq!(prices.mean(0, i32::MAX), 77);
    assert_eq!(prices.mean(12346, 12346), 102);
}

#[test]
fn mean_of_nothing_is_zero() {
    let mut prices = Prices::new();
    assert_eq!(prices.mean(i32::MIN, i32::MAX), 0);
    prices.insert(10, 500);
    assert_eq!(prices.mean(11, 20), 0);
    assert_eq!(prices.mean(20, 5), 0);
    assert_eq!(prices.mean(10, 9), 0);
}

#[test]
fn mean_cuts_off_towards_zero() {
    let mut prices = Prices::new();
    prices.insert(1, 1);
    prices.insert(2, 2);
    assert_eq!(prices.mean(1, 2), 1);
    let mut prices = Prices::new();
    prices.insert(1, -1);
    prices.insert(2, -2);
    assert_eq!(prices.mean(1, 2), -1);
    prices.insert(3, -4);
    assert_eq!(prices.mean(1, 3), -2);
    prices.insert(-7, 6);
    assert_eq!(prices.mean(i32::MIN, i32::MAX), 0);
}

#[test]
fn mean_of_the_largest_prices() {
    let mut prices = Prices::new();
    for timestamp in 0..100 {
        prices.insert(timestamp, i32::MAX);
    }
    assert_eq!(prices.mean(0, 99), i32::MAX);
    for timestamp in 0..100 {
        prices.insert(timestamp, i32::MIN);
    }
    assert_eq!(prices.mean(0, 99), i32::MIN);
    assert_eq!(prices.mean(50, 50), i32::MIN);
}

#[test]
fn a_second_price_for_a_time_replaces_the_first() {
    let mut prices = Prices::new();
    prices.insert(5, 10);
    prices.insert(6, 20);
    prices.insert(5, 30);
    assert_eq!(prices.mean(5, 5), 30);
    assert_eq!(prices.mean(5, 6), 25);
}

#[test]
fn ready_keys_translate_places_to_indexes() {
    assert_eq!(ready_keys(&[4, 7, 9], &[2, 0]), vec![EventKey(9), EventKey(4)]);
    assert_eq!(ready_keys(&[4, 7, 9], &[]), vec![]);
    assert_eq!(ready_keys(&[3], &[0, 0]), vec![EventKey(3), EventKey(3)]);
}

#[test]
fn left_to_write_counts_down() {
    assert_eq!(left_to_write(10, 3), 7);
    assert_eq!(left_to_write(10, 10), 0);
    assert_eq!(left_to_write(1, 1), 0);
}
