//! Numeric identifiers of blocks, items, entities and block states, written
//! on the wire as variable-length integers.

use vstd::prelude::*;

use crate::error::ProtocolError;
use crate::varint::{read_var_u32, varint_bytes, varint_parse, write_var_u32, VAR_INT_MAX_BYTES};

verus! {

/// A block kind, by its number in the block catalog.
#[derive(Debug, Clone, Copy, PartialEq, Eq, Hash, Structural)]
pub struct Block(pub u32);

/// An item kind, by its number in the item catalog.
///
/// Not `Copy`, so that an item in hand is not duplicated by accident.
#[derive(Debug, Clone, PartialEq, Eq, Hash, Structural)]
pub struct Item(pub u32);

/// An entity kind, by its number in the entity catalog.
#[derive(Debug, Clone, Copy, PartialEq, Eq, Hash, Structural)]
pub struct Entity(pub u32);

/// A block together with a full assignment of its state fields, as one packed
/// state id.
#[derive(Debug, Clone, Copy, PartialEq, Eq, Hash, Structural)]
pub struct BlockWithState(pub u32);

/// What reading an identifier from the front of `input` gives: the underlying
/// integer and the number of bytes consumed, or `MalformedVarInt`.
pub open spec fn read_id_spec(input: Seq<u8>) -> Result<(u32, usize), ProtocolError> {
    match varint_parse(input, VAR_INT_MAX_BYTES as nat) {
        Some((v, n)) => Ok(((v % 0x1_0000_0000) as u32, n as usize)),
        None => Err(ProtocolError::MalformedVarInt),
    }
}

impl Block {
    pub fn from_id(id: u32) -> (r: Block)
        ensures
            r.0 == id,
    {
        Block(id)
    }

    pub fn id(&self) -> (r: u32)
        ensures
            r == self.0,
    {
        self.0
    }

    /// Appends the id as a variable-length integer.
    pub fn serialize_minecraft_packet_part(self, output: &mut Vec<u8>)
        ensures
            final(output)@ == old(output)@ + varint_bytes(self.0 as nat),
    {
        write_var_u32(self.0, output);
    }

    /// Reads an id written as a variable-length integer; also returns the number
    /// of bytes consumed.
    pub fn deserialize_minecraft_packet_part(input: &[u8]) -> (r: Result<(Block, usize), ProtocolError>)
        ensures
            match read_id_spec(input@) {
                Ok((id, n)) => r == Ok::<(Block, usize), ProtocolError>((Block(id), n)),
                Err(e) => r == Err::<(Block, usize), ProtocolError>(e),
            },
    {
        let (id, n) = read_var_u32(input)?;
        Ok((Block(id), n))
    }
}

impl Item {
    pub fn from_id(id: u32) -> (r: Item)
        ensures
            r.0 == id,
    {
        Item(id)
    }

    pub fn id(&self) -> (r: u32)
        ensures
            r == self.0,
    {
        self.0
    }

    /// Appends the id as a variable-length integer.
    pub fn serialize_minecraft_packet_part(self, output: &mut Vec<u8>)
        ensures
            final(output)@ == old(output)@ + varint_bytes(self.0 as nat),
    {
        write_var_u32(self.0, output);
    }

    /// Reads an id written as a variable-length integer; also returns the number
    /// of bytes consumed.
    pub fn deserialize_minecraft_packet_part(input: &[u8]) -> (r: Result<(Item, usize), ProtocolError>)
        ensures
            match read_id_spec(input@) {
                Ok((id, n)) => r == Ok::<(Item, usize), ProtocolError>((Item(id), n)),
                Err(e) => r == Err::<(Item, usize), ProtocolError>(e),
            },
    {
        let (id, n) = read_var_u32(input)?;
        Ok((Item(id), n))
    }
}

impl Entity {
    pub fn from_id(id: u32) -> (r: Entity)
        ensures
            r.0 == id,
    {
        Entity(id)
    }

    pub fn id(&self) -> (r: u32)
        ensures
            r == self.0,
    {
        self.0
    }

    /// Appends the id as a variable-length integer.
    pub fn serialize_minecraft_packet_part(self, output: &mut Vec<u8>)
        ensures
            final(output)@ == old(output)@ + varint_bytes(self.0 as nat),
    {
        write_var_u32(self.0, output);
    }

    /// Reads an id written as a variable-length integer; also returns the number
    /// of bytes consumed.
    pub fn deserialize_minecraft_packet_part(input: &[u8]) -> (r: Result<(Entity, usize), ProtocolError>)
        ensures
            match read_id_spec(input@) {
                Ok((id, n)) => r == Ok::<(Entity, usize), ProtocolError>((Entity(id), n)),
                Err(e) => r == Err::<(Entity, usize), ProtocolError>(e),
            },
    {
        let (id, n) = read_var_u32(input)?;
        Ok((Entity(id), n))
    }
}

impl BlockWithState {
    pub fn from_id(id: u32) -> (r: BlockWithState)
        ensures
            r.0 == id,
    {
        BlockWithState(id)
    }

    pub fn id(&self) -> (r: u32)
        ensures
            r == self.0,
    {
        self.0
    }

    /// Appends the packed state id as a variable-length integer.
    pub fn serialize_minecraft_packet_part(self, output: &mut Vec<u8>)
        ensures
            final(output)@ == old(output)@ + varint_bytes(self.0 as nat),
    {
        write_var_u32(self.0, output);
    }

    /// Reads a packed state id written as a variable-length integer; also returns
    /// the number of bytes consumed.
    pub fn deserialize_minecraft_packet_part(input: &[u8]) -> (r: Result<(BlockWithState, usize), ProtocolError>)
        ensures
            match read_id_spec(input@) {
                Ok((id, n)) => r == Ok::<(BlockWithState, usize), ProtocolError>(
                    (BlockWithState(id), n),
                ),
                Err(e) => r == Err::<(BlockWithState, usize), ProtocolError>(e),
            },
    {
        let (id, n) = read_var_u32(input)?;
        Ok((BlockWithState(id), n))
    }
}

impl Default for BlockWithState {
    fn default() -> (r: BlockWithState)
        ensures
            r.0 == 0,
    {
        BlockWithState(0)
    }
}

/// Writing an identifier and reading it back gives the same identifier and
/// consumes exactly what was written, at most five bytes.
pub proof fn lemma_id_round_trip(id: u32)
    ensures
        varint_bytes(id as nat).len() <= VAR_INT_MAX_BYTES,
        read_id_spec(varint_bytes(id as nat)) == Ok::<(u32, usize), ProtocolError>(
            (id, varint_bytes(id as nat).len() as usize),
        ),
{
    crate::varint::lemma_var_int_round_trip(id);
    assert((id as nat) % 0x1_0000_0000 == id as nat);
}

} // verus!
