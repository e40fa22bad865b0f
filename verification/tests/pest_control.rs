use bytes::BytesMut;
use protohackers::pest_control::codec::packets::delete_policy::{read_packet, Packet, PacketDecoder};
use protohackers::pest_control::codec::packets;
use protohackers::pest_control::codec::packets::PacketCodec;
use protohackers::pest_control::codec::{check_frame, sum_mod_256, Error, Parser, Writer};

const DELETE_123: [u8; 10] = [0x56, 0x00, 0x00, 0x00, 0x0a, 0x00, 0x00, 0x00, 0x7b, 0x25];

#[test]
fn test_read() {
    let data = [0x56, 0x00, 0x00, 0x00, 0x0a, 0x00, 0x00, 0x00, 0x7b, 0x25].as_slice();
    let mut buffer = BytesMut::from(data);
    let mut codec = PacketCodec::new();

    let packets::Packet::DeletePolicy(raw_packet) = codec.decode(&mut buffer).unwrap().unwrap();

    assert_eq!(Packet::new(123), raw_packet);
}

#[test]
fn test_write() {
    let mut buffer = BytesMut::new();
    {
        let mut codec = PacketCodec::new();

        codec.encode(Packet::new(123).into(), &mut buffer).unwrap();
    }

    let data = [0x56, 0x00, 0x00, 0x00, 0x0a, 0x00, 0x00, 0x00, 0x7b, 0x25].as_slice();

    assert_eq!(data, buffer);
}

#[test]
fn write_packet_frames_the_number() {
    assert_eq!(Packet::new(123).write_packet(), DELETE_123.to_vec());
    assert_eq!(
        Packet::new(0xffff_ffff).write_packet(),
        vec![0x56, 0, 0, 0, 10, 0xff, 0xff, 0xff, 0xff, 0xa4]
    );
    assert_eq!(Packet::new(0).write_packet(), vec![0x56, 0, 0, 0, 10, 0, 0, 0, 0, 0xa0]);
    for policy in [0u32, 1, 255, 256, 65535, 0x0102_0304, u32::MAX] {
        let frame = Packet::new(policy).write_packet();
        assert_eq!(frame.iter().fold(0u8, |sum, b| sum.wrapping_add(*b)), 0);
        assert_eq!(PacketDecoder::decode(&frame), Packet { policy });
    }
}

#[test]
fn decode_takes_the_packet_out_of_the_buffer() {
    let mut buffer = BytesMut::new();
    buffer.extend_from_slice(&DELETE_123);
    buffer.extend_from_slice(&Packet::new(7).write_packet());
    buffer.extend_from_slice(&[0x56, 0x00]);
    let mut codec = PacketCodec::default();
    assert_eq!(codec.decode(&mut buffer), Ok(Some(packets::Packet::DeletePolicy(Packet::new(123)))));
    assert_eq!(buffer.len(), 12);
    assert_eq!(codec.decode(&mut buffer), Ok(Some(Packet::new(7).into())));
    assert_eq!(&buffer[..], &[0x56, 0x00]);
    assert_eq!(codec.decode(&mut buffer), Ok(None));
    assert_eq!(&buffer[..], &[0x56, 0x00]);
}

#[test]
fn codec_waits_for_the_rest() {
    let mut codec = PacketCodec::new();
    for cut in 0..DELETE_123.len() {
        let mut buffer = BytesMut::from(&DELETE_123[..cut]);
        assert_eq!(codec.decode(&mut buffer), Ok(None));
        assert_eq!(&buffer[..], &DELETE_123[..cut]);
    }
}

#[test]
fn decode_refuses_what_is_no_packet() {
    let mut codec = PacketCodec::new();
    let mut unknown = BytesMut::from(&[0x99u8, 0, 0, 0, 10][..]);
    assert_eq!(codec.decode(&mut unknown), Err(Error::UnknownPacket(0x99)));
    assert_eq!(unknown.len(), 5);
    let mut long = BytesMut::from(&[0x56u8, 0, 0, 0, 11, 0, 0, 0, 0x7b, 0, 0x24][..]);
    assert_eq!(codec.decode(&mut long), Err(Error::InvalidLength));
    let mut short = BytesMut::from(&[0x56u8, 0, 0, 0, 9][..]);
    assert_eq!(codec.decode(&mut short), Err(Error::InvalidLength));
    let mut sum = BytesMut::from(&[0x56u8, 0, 0, 0, 10, 0, 0, 0, 0x7b, 0x26][..]);
    assert_eq!(codec.decode(&mut sum), Err(Error::InvalidChecksum));
    assert_eq!(sum.len(), 10);
    let mut other = BytesMut::from(&[0x57u8, 0, 0, 0, 10, 0, 0, 0, 0x7b, 0x24][..]);
    assert_eq!(read_packet(&mut other), Err(Error::UnknownPacket(0x57)));
}

#[test]
fn frames_are_judged_kind_first() {
    assert_eq!(check_frame(&[], 0x56, 10), Ok(false));
    assert_eq!(check_frame(&[0x55], 0x56, 10), Err(Error::UnknownPacket(0x55)));
    assert_eq!(check_frame(&[0x56, 0, 0, 0], 0x56, 10), Ok(false));
    assert_eq!(check_frame(&[0x56, 0, 0, 1, 10], 0x56, 10), Err(Error::InvalidLength));
    assert_eq!(check_frame(&DELETE_123[..9], 0x56, 10), Ok(false));
    assert_eq!(check_frame(&DELETE_123, 0x56, 10), Ok(true));
    assert_eq!(check_frame(&[0x52, 0, 0, 0, 6, 0xa8, 0x01], 0x52, 6), Ok(true));
    assert_eq!(check_frame(&[0x52, 0, 0, 0, 6, 0xa9], 0x52, 6), Err(Error::InvalidChecksum));
}

#[test]
fn sums_wrap_at_256() {
    assert_eq!(sum_mod_256(&[], 0), 0);
    assert_eq!(sum_mod_256(&[200, 100, 7], 3), 51);
    assert_eq!(sum_mod_256(&[200, 100, 7], 2), 44);
    assert_eq!(sum_mod_256(&[0xff; 1000], 1000), 24);
    assert_eq!(sum_mod_256(&DELETE_123, 10), 0);
}

#[test]
fn writer_and_parser_agree() {
    let mut writer = Writer::new(0x53);
    writer.write_u32(0x0102_0304);
    writer.write_u32(12345);
    let frame = writer.finalize();
    assert_eq!(frame.len(), 14);
    assert_eq!(&frame[..5], &[0x53, 0, 0, 0, 14]);
    assert_eq!(sum_mod_256(&frame, 14), 0);
    let mut parser = Parser::new(&frame);
    assert_eq!(parser.read_u8(), 0x53);
    assert_eq!(parser.read_u32(), 14);
    assert_eq!(parser.read_u32(), 0x0102_0304);
    assert_eq!(parser.read_u32(), 12345);
    assert_eq!(Writer::new(0x52).finalize(), vec![0x52, 0, 0, 0, 6, 0xa8]);
}
