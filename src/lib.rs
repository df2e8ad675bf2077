//! Binary encoding core of a game-protocol server: variable-length integers,
//! packet framing, identifiers, bit-field packing, block-state schemas and the
//! mixed-radix block-state registry, with the small name and recipe tables
//! that sit beside them.

pub mod error;
pub mod varint;
pub mod mixed_radix;
pub mod ids;
pub mod block_state_registry;
pub mod components;
pub mod packet;
pub mod serial;
pub mod categories;
pub mod recipes;
pub mod schema;
pub mod string_distance;
