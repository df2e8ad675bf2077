use mcproto::block_state_registry::BlockStateRegistry;
use mcproto::error::ProtocolError;
use mcproto::ids::{Block, BlockWithState};

#[test]
fn test_get_block_drop() {}

fn sample() -> BlockStateRegistry {
    let mut r = BlockStateRegistry::new();
    // block 0: no fields, one state
    r.add(Block::from_id(0), vec![], BlockWithState::from_id(0)).unwrap();
    // block 1: three booleans and a four-valued enumeration
    r.add(Block::from_id(1), vec![2, 2, 2, 4], BlockWithState::from_id(1)).unwrap();
    // block 2: a slab (three kinds) that may be waterlogged
    r.add(Block::from_id(2), vec![3, 2], BlockWithState::from_id(34)).unwrap();
    r
}

#[test]
fn state_count_is_the_product_of_radices() {
    let r = sample();
    assert_eq!(r.block_to_block_states(Block::from_id(0)), Some((0, 0)));
    assert_eq!(r.block_to_block_states(Block::from_id(1)), Some((1, 32)));
    assert_eq!(r.block_to_block_states(Block::from_id(2)), Some((33, 38)));
    assert_eq!(r.block_to_block_states(Block::from_id(3)), None);
    assert_eq!(r.total_states(), 39);
}

#[test]
fn ranges_partition_all_states() {
    let r = sample();
    let mut next = 0;
    for b in 0..3 {
        let (lo, hi) = r.block_to_block_states(Block::from_id(b)).unwrap();
        assert_eq!(lo, next);
        for id in lo..=hi {
            assert_eq!(r.block_state_to_block(BlockWithState::from_id(id)), Some(Block::from_id(b)));
        }
        next = hi + 1;
    }
    assert_eq!(next, r.total_states());
    assert_eq!(r.block_state_to_block(BlockWithState::from_id(39)), None);
    assert!(r.block_state_is_valid(BlockWithState::from_id(38)));
    assert!(!r.block_state_is_valid(BlockWithState::from_id(39)));
    assert!(r.block_is_valid(Block::from_id(2)));
    assert!(!r.block_is_valid(Block::from_id(3)));
}

#[test]
fn encode_weights_each_field_by_the_radices_before_it() {
    let r = sample();
    // weights of the fields: 16, 8, 4, 1 (product of the radices after each)
    let id = r.encode_state(Block::from_id(1), &vec![1, 0, 1, 2]).unwrap();
    assert_eq!(id.id() - 1, 1 * 16 + 0 * 8 + 1 * 4 + 2 * 1);
    assert_eq!(r.decode_state(id), Some((Block::from_id(1), vec![1, 0, 1, 2])));
    let id = r.encode_state(Block::from_id(0), &vec![]).unwrap();
    assert_eq!(id, BlockWithState::from_id(0));
}

#[test]
fn every_state_round_trips() {
    let r = sample();
    for id in 0..r.total_states() {
        let (block, values) = r.decode_state(BlockWithState::from_id(id)).unwrap();
        assert_eq!(r.encode_state(block, &values), Ok(BlockWithState::from_id(id)));
    }
    assert_eq!(r.decode_state(BlockWithState::from_id(39)), None);
}

#[test]
fn encode_rejects_bad_assignments() {
    let r = sample();
    assert_eq!(r.encode_state(Block::from_id(1), &vec![1, 0, 2, 0]), Err(ProtocolError::InvalidFieldValue));
    assert_eq!(r.encode_state(Block::from_id(1), &vec![1, 0, 1]), Err(ProtocolError::InvalidFieldValue));
    assert_eq!(r.encode_state(Block::from_id(9), &vec![]), Err(ProtocolError::StateIdOutOfRange));
}

#[test]
fn single_field_get_and_set() {
    let r = sample();
    let id = r.encode_state(Block::from_id(1), &vec![1, 0, 1, 2]).unwrap();
    let enum_field = r.block_state(Block::from_id(1), 3).unwrap();
    assert_eq!(enum_field.offset, 1);
    assert_eq!(enum_field.num_values, 4);
    assert_eq!(r.get_block_state_value(id, enum_field), Ok(2));
    let moved = r.set_block_state_value(id, enum_field, 3).unwrap();
    assert_eq!(r.decode_state(moved), Some((Block::from_id(1), vec![1, 0, 1, 3])));
    let second = r.block_state(Block::from_id(1), 1).unwrap();
    let moved = r.set_block_state_value(id, second, 1).unwrap();
    assert_eq!(r.decode_state(moved), Some((Block::from_id(1), vec![1, 1, 1, 2])));
    assert_eq!(r.set_block_state_value(id, enum_field, 4), Err(ProtocolError::InvalidFieldValue));
    let slab = r.block_state(Block::from_id(2), 0).unwrap();
    assert_eq!(r.get_block_state_value(id, slab), Err(ProtocolError::StateIdOutOfRange));
    assert_eq!(r.block_state(Block::from_id(1), 4), None);
    assert_eq!(r.default_state(Block::from_id(2)), Some(BlockWithState::from_id(34)));
}

#[test]
fn add_rejects_bad_blocks() {
    let mut r = sample();
    assert_eq!(r.add(Block::from_id(5), vec![2], BlockWithState::from_id(39)), Err(ProtocolError::StateIdOutOfRange));
    assert_eq!(r.add(Block::from_id(3), vec![2, 0], BlockWithState::from_id(39)), Err(ProtocolError::InvalidFieldValue));
    assert_eq!(r.add(Block::from_id(3), vec![2], BlockWithState::from_id(41)), Err(ProtocolError::InvalidFieldValue));
    assert_eq!(
        r.add(Block::from_id(3), vec![65536, 65536], BlockWithState::from_id(39)),
        Err(ProtocolError::StateIdOutOfRange)
    );
    assert_eq!(r.total_states(), 39);
    assert_eq!(r.add(Block::from_id(3), vec![2], BlockWithState::from_id(40)), Ok(()));
    assert_eq!(r.block_to_block_states(Block::from_id(3)), Some((39, 40)));
}

#[test]
fn three_booleans_and_a_four_valued_enumeration() {
    let mut r = BlockStateRegistry::new();
    r.add(Block::from_id(0), vec![2, 2, 2, 4], BlockWithState::from_id(0)).unwrap();
    assert_eq!(r.total_states(), 2 * 2 * 2 * 4);
    // the last declared field (the enumeration) varies fastest
    assert_eq!(r.encode_state(Block::from_id(0), &vec![1, 0, 1, 2]), Ok(BlockWithState::from_id(22)));
    assert_eq!(r.encode_state(Block::from_id(0), &vec![0, 0, 0, 1]), Ok(BlockWithState::from_id(1)));
    assert_eq!(r.encode_state(Block::from_id(0), &vec![0, 0, 1, 0]), Ok(BlockWithState::from_id(4)));
    assert_eq!(r.decode_state(BlockWithState::from_id(31)), Some((Block::from_id(0), vec![1, 1, 1, 3])));
}
