use mcproto::error::ProtocolError;
use mcproto::ids::{Block, BlockWithState, Entity, Item};
use mcproto::packet::{parse_frame, write_frame, FrameStatus, RawPacket};
use mcproto::varint::{
    read_var_int, read_var_long, read_var_u32, read_var_u64, write_var_int, write_var_long,
    write_var_u32, write_var_u64,
};

#[test]
fn var_int_300() {
    let mut out = Vec::new();
    write_var_int(300, &mut out);
    assert_eq!(out, vec![0xAC, 0x02]);
    assert_eq!(read_var_int(&[0xAC, 0x02]), Ok((300, 2)));
}

#[test]
fn var_int_round_trips() {
    for &n in &[0i32, 1, 127, 128, 255, 25565, 2097151, i32::MAX, -1, i32::MIN, -300] {
        let mut out = Vec::new();
        write_var_int(n, &mut out);
        assert!(out.len() <= 5);
        assert_eq!(read_var_int(&out), Ok((n, out.len())));
    }
    let mut out = Vec::new();
    write_var_int(-1, &mut out);
    assert_eq!(out, vec![0xFF, 0xFF, 0xFF, 0xFF, 0x0F]);
    for &n in &[0u32, 1, 128, u32::MAX] {
        let mut out = Vec::new();
        write_var_u32(n, &mut out);
        assert_eq!(read_var_u32(&out), Ok((n, out.len())));
    }
}

#[test]
fn var_long_round_trips() {
    for &n in &[0i64, 1, 300, i64::MAX, -1, i64::MIN] {
        let mut out = Vec::new();
        write_var_long(n, &mut out);
        assert!(out.len() <= 10);
        assert_eq!(read_var_long(&out), Ok((n, out.len())));
    }
    let mut out = Vec::new();
    write_var_u64(u64::MAX, &mut out);
    assert_eq!(out.len(), 10);
    assert_eq!(read_var_u64(&out), Ok((u64::MAX, 10)));
}

#[test]
fn malformed_var_ints() {
    assert_eq!(read_var_int(&[]), Err(ProtocolError::MalformedVarInt));
    assert_eq!(read_var_int(&[0x80, 0x80]), Err(ProtocolError::MalformedVarInt));
    assert_eq!(read_var_int(&[0x80, 0x80, 0x80, 0x80, 0x80, 0x01]), Err(ProtocolError::MalformedVarInt));
    assert_eq!(read_var_long(&[0xFF; 11]), Err(ProtocolError::MalformedVarInt));
    // trailing bytes are left alone
    assert_eq!(read_var_int(&[0x05, 0xFF]), Ok((5, 1)));
}

#[test]
fn identifiers_as_var_ints() {
    let mut out = Vec::new();
    Block::from_id(300).serialize_minecraft_packet_part(&mut out);
    Item::from_id(1).serialize_minecraft_packet_part(&mut out);
    Entity::from_id(128).serialize_minecraft_packet_part(&mut out);
    BlockWithState::from_id(0).serialize_minecraft_packet_part(&mut out);
    assert_eq!(out, vec![0xAC, 0x02, 0x01, 0x80, 0x01, 0x00]);
    assert_eq!(Block::deserialize_minecraft_packet_part(&out), Ok((Block::from_id(300), 2)));
    assert_eq!(Item::deserialize_minecraft_packet_part(&out[2..]), Ok((Item::from_id(1), 1)));
    assert_eq!(Entity::deserialize_minecraft_packet_part(&out[3..]), Ok((Entity::from_id(128), 2)));
    assert_eq!(
        BlockWithState::deserialize_minecraft_packet_part(&out[5..]),
        Ok((BlockWithState::from_id(0), 1))
    );
    assert_eq!(Item::deserialize_minecraft_packet_part(&[0x80]), Err(ProtocolError::MalformedVarInt));
    assert_eq!(Block::from_id(7).id(), 7);
    assert_eq!(BlockWithState::default(), BlockWithState::from_id(0));
}

#[test]
fn frame_round_trip() {
    let mut out = Vec::new();
    write_frame(&[1, 2, 3], &mut out).unwrap();
    assert_eq!(out, vec![3, 1, 2, 3]);
    assert_eq!(parse_frame(&out), Ok(FrameStatus::Complete { body_start: 1, body_len: 3 }));
    let body = vec![7u8; 300];
    let mut out = Vec::new();
    write_frame(&body, &mut out).unwrap();
    assert_eq!(&out[..2], &[0xAC, 0x02]);
    assert_eq!(parse_frame(&out), Ok(FrameStatus::Complete { body_start: 2, body_len: 300 }));
}

#[test]
fn short_frame_waits_for_more() {
    // declared length 5, only 3 body bytes so far
    assert_eq!(parse_frame(&[5, 1, 2, 3]), Ok(FrameStatus::NeedMore));
    assert_eq!(parse_frame(&[]), Ok(FrameStatus::NeedMore));
    assert_eq!(parse_frame(&[0x80, 0x80]), Ok(FrameStatus::NeedMore));
    assert_eq!(parse_frame(&[5, 1, 2, 3, 4, 5]), Ok(FrameStatus::Complete { body_start: 1, body_len: 5 }));
}

#[test]
fn frame_length_prefix_too_long() {
    assert_eq!(parse_frame(&[0x80, 0x80, 0x80, 0x01]), Err(ProtocolError::FrameTooLarge));
    let body = vec![0u8; 0x20_0000];
    let mut out = vec![9];
    assert_eq!(write_frame(&body, &mut out), Err(ProtocolError::FrameTooLarge));
    assert_eq!(out, vec![9]);
}

#[test]
fn auto_play_clientbound_29() {
    let input = &[41, 0, 0, 11, 235, 0, 3, 19, 109, 105, 110, 101, 99, 114, 97, 102, 116, 58, 111, 118, 101, 114, 119, 111, 114, 108, 100, 20, 109, 105, 110, 101, 99, 114, 97, 102, 116, 58, 116, 104, 101, 95, 110, 101, 116, 104, 101, 114, 17, 109, 105, 110, 101, 99, 114, 97, 102, 116, 58, 116, 104, 101, 95, 101, 110, 100, 20, 10, 10, 0, 1, 0, 19, 109, 105, 110, 101, 99, 114, 97, 102, 116, 58, 111, 118, 101, 114, 119, 111, 114, 108, 100, 19, 109, 105, 110, 101, 99, 114, 97, 102, 116, 58, 111, 118, 101, 114, 119, 111, 114, 108, 100, 116, 58, 202, 32, 182, 71, 111, 68, 1, 255, 0, 0, 1, 19, 109, 105, 110, 101, 99, 114, 97, 102, 116, 58, 111, 118, 101, 114, 119, 111, 114, 108, 100, 0, 0, 32, 128, 0, 25, 208, 52, 0];
    let packet = RawPacket::deserialize_uncompressed_minecraft_packet(input).unwrap();
    assert_eq!(packet.id, 41);
    assert_eq!(packet.serialize_minecraft_packet(), input.to_vec());
}

#[test]
fn auto_play_clientbound_59() {
    let input = &[89, 65, 30, 31, 100, 16, 0, 0, 0, 0];
    let packet = RawPacket::deserialize_uncompressed_minecraft_packet(input).unwrap();
    assert_eq!(packet.id, 89);
    assert_eq!(packet.serialize_minecraft_packet(), input.to_vec());
}

#[test]
fn auto_play_clientbound_6a() {
    let input = &[106, 196, 20, 172, 19, 1];
    let packet = RawPacket::deserialize_uncompressed_minecraft_packet(input).unwrap();
    assert_eq!(packet.id, 106);
    assert_eq!(packet.body, vec![196, 20, 172, 19, 1]);
    assert_eq!(
        RawPacket::deserialize_uncompressed_minecraft_packet(&[0xFF]),
        Err(ProtocolError::MalformedVarInt)
    );
}
