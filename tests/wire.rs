use mcproto::components::MultiBlockChange;
use mcproto::error::ProtocolError;
use mcproto::serial::{
    read_bool, read_u16, read_u64, read_var_long_array, write_bool, write_u16, write_u64,
    write_var_long_array,
};

#[test]
fn big_endian_primitives() {
    let mut out = Vec::new();
    write_u16(0x1234, &mut out);
    write_u64(0x0102030405060708, &mut out);
    write_bool(true, &mut out);
    assert_eq!(out, vec![0x12, 0x34, 1, 2, 3, 4, 5, 6, 7, 8, 1]);
    assert_eq!(read_u16(&out), Ok((0x1234, 2)));
    assert_eq!(read_u64(&out[2..]), Ok((0x0102030405060708, 8)));
    assert_eq!(read_bool(&out[10..]), Ok((true, 1)));
    assert_eq!(read_bool(&[0]), Ok((false, 1)));
    assert_eq!(read_bool(&[2]), Err(ProtocolError::UnknownVariant));
    assert_eq!(read_bool(&[]), Err(ProtocolError::LengthMismatch));
    assert_eq!(read_u16(&[1]), Err(ProtocolError::LengthMismatch));
    assert_eq!(read_u64(&[1, 2, 3, 4, 5, 6, 7]), Err(ProtocolError::LengthMismatch));
    let mut out = Vec::new();
    write_u64(u64::MAX, &mut out);
    assert_eq!(read_u64(&out), Ok((u64::MAX, 8)));
}

#[test]
fn length_prefixed_sequences() {
    let items = vec![0u64, 300, u64::MAX];
    let mut out = Vec::new();
    write_var_long_array(&items, &mut out);
    assert_eq!(out[0], 3);
    assert_eq!(&out[1..4], &[0, 0xAC, 0x02]);
    assert_eq!(out.len(), 1 + 1 + 2 + 10);
    assert_eq!(read_var_long_array(&out), Ok((items, out.len())));
    // declares three entries, holds two
    assert_eq!(read_var_long_array(&[3, 1, 2]), Err(ProtocolError::LengthMismatch));
    // an entry cut short
    assert_eq!(read_var_long_array(&[1, 0x80]), Err(ProtocolError::MalformedVarInt));
    assert_eq!(read_var_long_array(&[0x80]), Err(ProtocolError::MalformedVarInt));
    assert_eq!(read_var_long_array(&[0, 9]), Ok((vec![], 1)));
}

#[test]
fn multi_block_change_on_the_wire() {
    let position = MultiBlockChange::encode_chunk_section_position(-3, 4, 5).unwrap();
    let entry = MultiBlockChange::encode_block(9, 1, 2, 3).unwrap();
    let change = MultiBlockChange { chunk_section_position: position, blocks: vec![entry] };
    let mut out = Vec::new();
    change.serialize_minecraft_packet_part(&mut out);
    assert_eq!(&out[..8], &position.to_be_bytes());
    let (back, used) = MultiBlockChange::deserialize_minecraft_packet_part(&out).unwrap();
    assert_eq!(used, out.len());
    assert_eq!(back, change);
    assert_eq!(MultiBlockChange::decode_chunk_section_position(back.chunk_section_position), (-3, 4, 5));
    assert_eq!(MultiBlockChange::decode_block(back.blocks[0]), (9, 1, 2, 3));
    assert_eq!(
        MultiBlockChange::deserialize_minecraft_packet_part(&out[..7]),
        Err(ProtocolError::LengthMismatch)
    );
    assert_eq!(
        MultiBlockChange::deserialize_minecraft_packet_part(&out[..out.len() - 1]),
        Err(ProtocolError::MalformedVarInt)
    );
}
