use mcproto::components::{BlockEntity, BlockFace, DiggingState, MultiBlockChange, PartialDiggingState};
use mcproto::error::ProtocolError;
use mcproto::ids::Block;

#[test]
fn test_chunk_section_position() {
    let position = (15, 7, 23);
    let encoded =
        MultiBlockChange::encode_chunk_section_position(position.0, position.1, position.2)
            .unwrap();
    let decoded = MultiBlockChange::decode_chunk_section_position(encoded);
    assert_eq!(position, decoded);

    let position = (-15, 7, 23);
    let encoded =
        MultiBlockChange::encode_chunk_section_position(position.0, position.1, position.2)
            .unwrap();
    let decoded = MultiBlockChange::decode_chunk_section_position(encoded);
    assert_eq!(position, decoded);

    let position = (0, 0, 0);
    let encoded =
        MultiBlockChange::encode_chunk_section_position(position.0, position.1, position.2)
            .unwrap();
    let decoded = MultiBlockChange::decode_chunk_section_position(encoded);
    assert_eq!(position, decoded);

    let position = (-1651, -65, -54412);
    let encoded =
        MultiBlockChange::encode_chunk_section_position(position.0, position.1, position.2)
            .unwrap();
    let decoded = MultiBlockChange::decode_chunk_section_position(encoded);
    assert_eq!(position, decoded);
}

#[test]
fn section_position_extremes_round_trip() {
    for &(x, y, z) in &[
        (-2097152, -524288, -2097152),
        (2097151, 524287, 2097151),
        (-1, -1, -1),
    ] {
        let w = MultiBlockChange::encode_chunk_section_position(x, y, z).unwrap();
        assert_eq!(MultiBlockChange::decode_chunk_section_position(w), (x, y, z));
    }
}

#[test]
fn section_position_exact_layout() {
    // every coordinate biased by half its range: x in the top 22 bits, z in the next 22, y in the low 20
    let w = MultiBlockChange::encode_chunk_section_position(0, 0, 0).unwrap();
    assert_eq!(w, (1u64 << 21 << 42) | (1u64 << 21 << 20) | (1u64 << 19));
    let w = MultiBlockChange::encode_chunk_section_position(-2097152, -524288, -2097152).unwrap();
    assert_eq!(w, 0);
    assert_eq!(MultiBlockChange::decode_chunk_section_position(u64::MAX), (2097151, 524287, 2097151));
}

#[test]
fn section_position_out_of_range() {
    assert_eq!(
        MultiBlockChange::encode_chunk_section_position(2097152, 0, 0),
        Err(ProtocolError::OutOfRange)
    );
    assert_eq!(
        MultiBlockChange::encode_chunk_section_position(0, -524289, 0),
        Err(ProtocolError::OutOfRange)
    );
    assert_eq!(
        MultiBlockChange::encode_chunk_section_position(0, 0, -2097153),
        Err(ProtocolError::OutOfRange)
    );
    assert_eq!(
        MultiBlockChange::encode_chunk_section_position(0, 524288, 0),
        Err(ProtocolError::OutOfRange)
    );
}

#[test]
fn block_entry_round_trip() {
    let w = MultiBlockChange::encode_block(1234, 1, 2, 3).unwrap();
    assert_eq!(w, (1234u64 << 12) | (1 << 8) | (3 << 4) | 2);
    assert_eq!(MultiBlockChange::decode_block(w), (1234, 1, 2, 3));
    let w = MultiBlockChange::encode_block(u32::MAX, 15, 15, 15).unwrap();
    assert_eq!(MultiBlockChange::decode_block(w), (u32::MAX, 15, 15, 15));
    assert_eq!(MultiBlockChange::encode_block(1, 16, 0, 0), Err(ProtocolError::OutOfRange));
    assert_eq!(MultiBlockChange::encode_block(1, 0, 16, 0), Err(ProtocolError::OutOfRange));
    assert_eq!(MultiBlockChange::encode_block(1, 0, 0, 16), Err(ProtocolError::OutOfRange));
}

#[test]
fn block_entity_coordinates() {
    let e = BlockEntity::new(3, -64, 14, Block::from_id(42), vec![10, 0]);
    assert_eq!(e.x(), 3);
    assert_eq!(e.y(), -64);
    assert_eq!(e.z(), 14);
    assert_eq!(e.get_block(), Block::from_id(42));
    assert_eq!(e.data, vec![10, 0]);
    let e = BlockEntity::new(0x13, 40000, 0x2F, Block::from_id(1), Vec::new());
    assert_eq!(e.x(), 3);
    assert_eq!(e.z(), 15);
    assert_eq!(e.y(), 40000 - 65536);
}

#[test]
fn digging_states_by_discriminant() {
    assert_eq!(DiggingState::from_discriminant(6), Ok(DiggingState::SwapItemInHand));
    assert_eq!(DiggingState::from_discriminant(7), Err(ProtocolError::UnknownVariant));
    assert_eq!(DiggingState::from_discriminant(-1), Err(ProtocolError::UnknownVariant));
    assert_eq!(PartialDiggingState::from_discriminant(2), Ok(PartialDiggingState::Finished));
    assert_eq!(PartialDiggingState::from_discriminant(3), Err(ProtocolError::UnknownVariant));
    let mut out = Vec::new();
    DiggingState::DropItem.serialize_minecraft_packet_part(&mut out);
    assert_eq!(out, vec![4]);
    assert_eq!(DiggingState::deserialize_minecraft_packet_part(&[4, 9]), Ok((DiggingState::DropItem, 1)));
    assert_eq!(DiggingState::deserialize_minecraft_packet_part(&[0x80, 0x01]), Err(ProtocolError::UnknownVariant));
    assert_eq!(DiggingState::deserialize_minecraft_packet_part(&[0x80]), Err(ProtocolError::MalformedVarInt));
    assert_eq!(
        PartialDiggingState::deserialize_minecraft_packet_part(&[1]),
        Ok((PartialDiggingState::Cancelled, 1))
    );
}

#[test]
fn block_faces_as_bytes() {
    let mut out = Vec::new();
    BlockFace::West.serialize_minecraft_packet_part(&mut out);
    assert_eq!(out, vec![4]);
    assert_eq!(BlockFace::deserialize_minecraft_packet_part(&[5]), Ok((BlockFace::East, 1)));
    assert_eq!(BlockFace::deserialize_minecraft_packet_part(&[6]), Err(ProtocolError::UnknownVariant));
    assert_eq!(BlockFace::deserialize_minecraft_packet_part(&[]), Err(ProtocolError::LengthMismatch));
    assert_eq!(BlockFace::from_discriminant(0), Ok(BlockFace::Bottom));
}
