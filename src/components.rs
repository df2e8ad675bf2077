//! Protocol components: chunk-section and block-change bit-field packing,
//! block entities, and small enumerations read by discriminant.

use vstd::prelude::*;

use crate::error::ProtocolError;
use crate::ids::Block;
use crate::serial::{
    be_bytes, be_value, parse_var_longs, read_u64, read_var_long_array, var_long_array_bytes,
    write_u64, write_var_long_array,
};
use crate::varint::{
    i32_of_bits, read_var_int, varint_bytes, varint_parse, write_var_int,
    VAR_INT_MAX_BYTES,
};

verus! {

/// `2^22`: the number of values of a packed chunk x or z coordinate.
pub const CHUNK_XZ_VALUES: u64 = 0x40_0000;

/// `2^20`: the number of values of a packed section y coordinate.
pub const SECTION_Y_VALUES: u64 = 0x10_0000;

/// The signed values that fit a biased field of `2^width` values:
/// `[-2^(width-1), 2^(width-1))`, given the number of values `n = 2^width`.
pub open spec fn fits_biased(v: int, n: int) -> bool {
    -(n / 2) <= v < n / 2
}

/// Chunk section position packed into one word: biased x in the top 22 bits,
/// biased z in the next 22, biased y in the low 20.
pub open spec fn packed_section_position(x: int, y: int, z: int) -> int {
    (x + 0x20_0000) * 0x400_0000_0000 + (z + 0x20_0000) * 0x10_0000 + (y + 0x8_0000)
}

/// The chunk section position that the word `w` holds.
pub open spec fn unpacked_section_position(w: int) -> (int, int, int) {
    (w / 0x400_0000_0000 - 0x20_0000, w % 0x10_0000 - 0x8_0000, (w / 0x10_0000) % 0x40_0000 - 0x20_0000)
}

/// Block change entry packed into one word: the state id above the low 12 bits,
/// then 4 bits each of x, z and y inside the section.
pub open spec fn packed_block(block: int, x: int, y: int, z: int) -> int {
    block * 0x1000 + x * 0x100 + z * 0x10 + y
}

/// Whether the biased packing of a chunk section position fits its field widths.
pub open spec fn section_position_fits(x: int, y: int, z: int) -> bool {
    &&& fits_biased(x, CHUNK_XZ_VALUES as int)
    &&& fits_biased(y, SECTION_Y_VALUES as int)
    &&& fits_biased(z, CHUNK_XZ_VALUES as int)
}

/// A block entity in a chunk: its place in the chunk, its kind and its data.
#[derive(Debug, PartialEq, Eq)]
pub struct BlockEntity {
    /// x inside the chunk in the high four bits, z in the low four.
    packed_xz: u8,
    /// Height in the world.
    y: i16,
    /// The block's kind.
    ty: u32,
    /// The block entity's data in its binary tag encoding, without x, y and z.
    pub data: Vec<u8>,
}

/// `v` wrapped into the range of `i16`, as a two's-complement truncation does.
pub open spec fn wrap_i16(v: int) -> int {
    let m = v % 0x1_0000;
    if m >= 0x8000 {
        m - 0x1_0000
    } else {
        m
    }
}

impl BlockEntity {
    /// A block entity at `relative_x`, `relative_z` inside its chunk (their low
    /// four bits) and at height `world_y` (wrapped into `i16`).
    pub fn new(relative_x: u8, world_y: i32, relative_z: u8, block_type: Block, data: Vec<u8>) -> (r:
        BlockEntity)
        ensures
            r.x_spec() == relative_x % 16,
            r.z_spec() == relative_z % 16,
            r.y_spec() == wrap_i16(world_y as int),
            r.ty_spec() == block_type.0,
            r.data_spec() == data@,
    {
        let m: i64 = (world_y as i64 % 0x1_0000 + 0x1_0000) % 0x1_0000;
        let y: i16 = if m >= 0x8000 {
            (m - 0x1_0000) as i16
        } else {
            m as i16
        };
        BlockEntity {
            packed_xz: (relative_x % 16) * 16 + relative_z % 16,
            y,
            ty: block_type.0,
            data,
        }
    }

    pub closed spec fn x_spec(&self) -> int {
        self.packed_xz as int / 16
    }

    pub closed spec fn z_spec(&self) -> int {
        self.packed_xz as int % 16
    }

    pub closed spec fn y_spec(&self) -> int {
        self.y as int
    }

    pub closed spec fn ty_spec(&self) -> u32 {
        self.ty
    }

    pub closed spec fn data_spec(&self) -> Seq<u8> {
        self.data@
    }

    /// x inside the chunk, 0 to 15.
    pub fn x(&self) -> (r: i32)
        ensures
            r == self.x_spec(),
    {
        (self.packed_xz / 16) as i32
    }

    /// Height in the world.
    pub fn y(&self) -> (r: i32)
        ensures
            r == self.y_spec(),
    {
        self.y as i32
    }

    /// z inside the chunk, 0 to 15.
    pub fn z(&self) -> (r: i32)
        ensures
            r == self.z_spec(),
    {
        (self.packed_xz % 16) as i32
    }

    /// The block's kind.
    pub fn get_block(&self) -> (r: Block)
        ensures
            r.0 == self.ty_spec(),
    {
        Block(self.ty)
    }
}

/// Progress of digging a block, as a client reports it.
#[derive(Debug, Clone, Copy, PartialEq, Eq, Structural)]
pub enum PartialDiggingState {
    Started,
    Cancelled,
    Finished,
}

/// What a player does with a block or an item, as a client reports it.
#[derive(Debug, Clone, Copy, PartialEq, Eq, Structural)]
pub enum DiggingState {
    Started,
    Cancelled,
    Finished,
    DropItemStack,
    DropItem,
    ShootArrowOrFinishEating,
    SwapItemInHand,
}

/// A face of a block.
#[derive(Debug, Clone, Copy, PartialEq, Eq, Structural)]
pub enum BlockFace {
    Bottom,
    Top,
    North,
    South,
    West,
    East,
}

impl PartialDiggingState {
    /// Position of the variant in declaration order.
    pub open spec fn index_spec(self) -> int {
        match self {
            PartialDiggingState::Started => 0,
            PartialDiggingState::Cancelled => 1,
            PartialDiggingState::Finished => 2,
        }
    }

    pub fn discriminant(self) -> (r: i32)
        ensures
            r == self.index_spec(),
    {
        match self {
            PartialDiggingState::Started => 0,
            PartialDiggingState::Cancelled => 1,
            PartialDiggingState::Finished => 2,
        }
    }

    /// The variant at position `d`, or `UnknownVariant`.
    pub fn from_discriminant(d: i32) -> (r: Result<PartialDiggingState, ProtocolError>)
        ensures
            0 <= d < 3 ==> (r matches Ok(v) && v.index_spec() == d),
            !(0 <= d < 3) ==> r == Err::<PartialDiggingState, ProtocolError>(
                ProtocolError::UnknownVariant,
            ),
    {
        match d {
            0 => Ok(PartialDiggingState::Started),
            1 => Ok(PartialDiggingState::Cancelled),
            2 => Ok(PartialDiggingState::Finished),
            _ => Err(ProtocolError::UnknownVariant),
        }
    }

    /// Appends the discriminant as a variable-length integer.
    pub fn serialize_minecraft_packet_part(self, output: &mut Vec<u8>)
        ensures
            final(output)@ == old(output)@ + varint_bytes(self.index_spec() as nat),
    {
        write_var_int(self.discriminant(), output);
    }

    /// Reads a variable-length discriminant; also returns the bytes consumed.
    pub fn deserialize_minecraft_packet_part(input: &[u8]) -> (r: Result<
        (PartialDiggingState, usize),
        ProtocolError,
    >)
        ensures
            match varint_parse(input@, VAR_INT_MAX_BYTES as nat) {
                None => r == Err::<(PartialDiggingState, usize), ProtocolError>(
                    ProtocolError::MalformedVarInt,
                ),
                Some((v, n)) => {
                    let d = i32_of_bits(v) as int;
                    if 0 <= d < 3 {
                        r matches Ok((s, k)) && s.index_spec() == d && k == n
                    } else {
                        r == Err::<(PartialDiggingState, usize), ProtocolError>(
                            ProtocolError::UnknownVariant,
                        )
                    }
                },
            },
    {
        proof {
            crate::varint::lemma_varint_parse_bound(input@, VAR_INT_MAX_BYTES as nat);
        }
        let (d, n) = read_var_int(input)?;
        let s = PartialDiggingState::from_discriminant(d)?;
        Ok((s, n))
    }
}

impl DiggingState {
    /// Position of the variant in declaration order.
    pub open spec fn index_spec(self) -> int {
        match self {
            DiggingState::Started => 0,
            DiggingState::Cancelled => 1,
            DiggingState::Finished => 2,
            DiggingState::DropItemStack => 3,
            DiggingState::DropItem => 4,
            DiggingState::ShootArrowOrFinishEating => 5,
            DiggingState::SwapItemInHand => 6,
        }
    }

    pub fn discriminant(self) -> (r: i32)
        ensures
            r == self.index_spec(),
    {
        match self {
            DiggingState::Started => 0,
            DiggingState::Cancelled => 1,
            DiggingState::Finished => 2,
            DiggingState::DropItemStack => 3,
            DiggingState::DropItem => 4,
            DiggingState::ShootArrowOrFinishEating => 5,
            DiggingState::SwapItemInHand => 6,
        }
    }

    /// The variant at position `d`, or `UnknownVariant`.
    pub fn from_discriminant(d: i32) -> (r: Result<DiggingState, ProtocolError>)
        ensures
            0 <= d < 7 ==> (r matches Ok(v) && v.index_spec() == d),
            !(0 <= d < 7) ==> r == Err::<DiggingState, ProtocolError>(
                ProtocolError::UnknownVariant,
            ),
    {
        match d {
            0 => Ok(DiggingState::Started),
            1 => Ok(DiggingState::Cancelled),
            2 => Ok(DiggingState::Finished),
            3 => Ok(DiggingState::DropItemStack),
            4 => Ok(DiggingState::DropItem),
            5 => Ok(DiggingState::ShootArrowOrFinishEating),
            6 => Ok(DiggingState::SwapItemInHand),
            _ => Err(ProtocolError::UnknownVariant),
        }
    }

    /// Appends the discriminant as a variable-length integer.
    pub fn serialize_minecraft_packet_part(self, output: &mut Vec<u8>)
        ensures
            final(output)@ == old(output)@ + varint_bytes(self.index_spec() as nat),
    {
        write_var_int(self.discriminant(), output);
    }

    /// Reads a variable-length discriminant; also returns the bytes consumed.
    pub fn deserialize_minecraft_packet_part(input: &[u8]) -> (r: Result<
        (DiggingState, usize),
        ProtocolError,
    >)
        ensures
            match varint_parse(input@, VAR_INT_MAX_BYTES as nat) {
                None => r == Err::<(DiggingState, usize), ProtocolError>(
                    ProtocolError::MalformedVarInt,
                ),
                Some((v, n)) => {
                    let d = i32_of_bits(v) as int;
                    if 0 <= d < 7 {
                        r matches Ok((s, k)) && s.index_spec() == d && k == n
                    } else {
                        r == Err::<(DiggingState, usize), ProtocolError>(
                            ProtocolError::UnknownVariant,
                        )
                    }
                },
            },
    {
        proof {
            crate::varint::lemma_varint_parse_bound(input@, VAR_INT_MAX_BYTES as nat);
        }
        let (d, n) = read_var_int(input)?;
        let s = DiggingState::from_discriminant(d)?;
        Ok((s, n))
    }
}

impl BlockFace {
    /// Position of the variant in declaration order.
    pub open spec fn index_spec(self) -> int {
        match self {
            BlockFace::Bottom => 0,
            BlockFace::Top => 1,
            BlockFace::North => 2,
            BlockFace::South => 3,
            BlockFace::West => 4,
            BlockFace::East => 5,
        }
    }

    pub fn discriminant(self) -> (r: u8)
        ensures
            r == self.index_spec(),
    {
        match self {
            BlockFace::Bottom => 0,
            BlockFace::Top => 1,
            BlockFace::North => 2,
            BlockFace::South => 3,
            BlockFace::West => 4,
            BlockFace::East => 5,
        }
    }

    /// The variant at position `d`, or `UnknownVariant`.
    pub fn from_discriminant(d: u8) -> (r: Result<BlockFace, ProtocolError>)
        ensures
            d < 6 ==> (r matches Ok(v) && v.index_spec() == d),
            d >= 6 ==> r == Err::<BlockFace, ProtocolError>(ProtocolError::UnknownVariant),
    {
        match d {
            0 => Ok(BlockFace::Bottom),
            1 => Ok(BlockFace::Top),
            2 => Ok(BlockFace::North),
            3 => Ok(BlockFace::South),
            4 => Ok(BlockFace::West),
            5 => Ok(BlockFace::East),
            _ => Err(ProtocolError::UnknownVariant),
        }
    }

    /// Appends the discriminant as one byte.
    pub fn serialize_minecraft_packet_part(self, output: &mut Vec<u8>)
        ensures
            final(output)@ == old(output)@.push(self.index_spec() as u8),
    {
        output.push(self.discriminant());
    }

    /// Reads a one-byte discriminant; also returns the bytes consumed.
    pub fn deserialize_minecraft_packet_part(input: &[u8]) -> (r: Result<(BlockFace, usize), ProtocolError>)
        ensures
            input@.len() == 0 ==> r == Err::<(BlockFace, usize), ProtocolError>(
                ProtocolError::LengthMismatch,
            ),
            input@.len() > 0 && input@[0] >= 6 ==> r == Err::<(BlockFace, usize), ProtocolError>(
                ProtocolError::UnknownVariant,
            ),
            input@.len() > 0 && input@[0] < 6 ==> (r matches Ok((f, k)) && f.index_spec()
                == input@[0] && k == 1),
    {
        if input.len() == 0 {
            return Err(ProtocolError::LengthMismatch);
        }
        let f = BlockFace::from_discriminant(input[0])?;
        Ok((f, 1))
    }
}

/// Several block changes in one chunk section.
#[derive(Debug, PartialEq, Eq)]
pub struct MultiBlockChange {
    /// Chunk x and z (22 bits each) and section y (20 bits), each biased by half
    /// its range, from the high bits to the low ones.
    pub chunk_section_position: u64,
    /// Each entry holds a state id above the low 12 bits, then 4 bits each of x,
    /// z and y inside the section.
    pub blocks: Vec<u64>,
}

impl MultiBlockChange {
    /// Appends the position as a big-endian `u64`, then the entries as a
    /// length-prefixed sequence of variable-length integers.
    pub fn serialize_minecraft_packet_part(&self, output: &mut Vec<u8>)
        requires
            self.blocks@.len() <= u32::MAX,
        ensures
            final(output)@ == old(output)@ + be_bytes(self.chunk_section_position as nat, 8)
                + var_long_array_bytes(self.blocks@),
    {
        write_u64(self.chunk_section_position, output);
        write_var_long_array(&self.blocks, output);
    }

    /// Reads what `serialize_minecraft_packet_part` writes; also returns the
    /// bytes consumed.
    ///
    /// Fails with `LengthMismatch` where the input is too short for the
    /// position or holds fewer entries than declared, and with
    /// `MalformedVarInt` where the count or an entry is broken.
    pub fn deserialize_minecraft_packet_part(input: &[u8]) -> (r: Result<
        (MultiBlockChange, usize),
        ProtocolError,
    >)
        ensures
            input@.len() < 8 ==> r == Err::<(MultiBlockChange, usize), ProtocolError>(
                ProtocolError::LengthMismatch,
            ),
            input@.len() >= 8 ==> {
                let rest = input@.skip(8);
                match varint_parse(rest, VAR_INT_MAX_BYTES as nat) {
                    None => r == Err::<(MultiBlockChange, usize), ProtocolError>(
                        ProtocolError::MalformedVarInt,
                    ),
                    Some((c, k)) => match parse_var_longs(rest.skip(k as int), c % 0x1_0000_0000) {
                        Err(e) => r == Err::<(MultiBlockChange, usize), ProtocolError>(e),
                        Ok((items, m)) => r matches Ok((v, n)) && v.chunk_section_position as nat
                            == be_value(input@.take(8)) && v.blocks@ == items && n == 8 + k + m,
                    },
                }
            },
    {
        let (position, n) = read_u64(input)?;
        let rest = vstd::slice::slice_subrange(input, 8, input.len());
        assert(rest@ =~= input@.skip(8));
        proof {
            crate::varint::lemma_varint_parse_bound(rest@, VAR_INT_MAX_BYTES as nat);
        }
        let (blocks, m) = read_var_long_array(rest)?;
        proof {
            if let Some((c, k)) = varint_parse(rest@, VAR_INT_MAX_BYTES as nat) {
                lemma_parse_var_longs_len(rest@.skip(k as int), c % 0x1_0000_0000);
            }
        }
        Ok((MultiBlockChange { chunk_section_position: position, blocks }, n + m))
    }
    /// Packs a chunk section position (block coordinates divided by 16, rounded
    /// down) into one word, each coordinate biased by half its field's range.
    ///
    /// Fails with `OutOfRange` where x or z is outside `[-2^21, 2^21)` or y is
    /// outside `[-2^19, 2^19)`.
    pub fn encode_chunk_section_position(x: i32, y: i32, z: i32) -> (r: Result<u64, ProtocolError>)
        ensures
            section_position_fits(x as int, y as int, z as int) ==> r == Ok::<u64, ProtocolError>(
                packed_section_position(x as int, y as int, z as int) as u64,
            ),
            !section_position_fits(x as int, y as int, z as int) ==> r == Err::<u64, ProtocolError>(
                ProtocolError::OutOfRange,
            ),
    {
        if x < -0x20_0000 || x >= 0x20_0000 || y < -0x8_0000 || y >= 0x8_0000 || z < -0x20_0000 || z
            >= 0x20_0000 {
            return Err(ProtocolError::OutOfRange);
        }
        let bx = (x + 0x20_0000) as u64;
        let by = (y + 0x8_0000) as u64;
        let bz = (z + 0x20_0000) as u64;
        assert(bx * 0x400_0000_0000 <= 0x3F_FFFF * 0x400_0000_0000) by (nonlinear_arith)
            requires
                bx <= 0x3F_FFFF,
        ;
        assert(bz * 0x10_0000 <= 0x3F_FFFF * 0x10_0000) by (nonlinear_arith)
            requires
                bz <= 0x3F_FFFF,
        ;
        Ok(bx * 0x400_0000_0000 + bz * 0x10_0000 + by)
    }

    /// The chunk section position held by `chunk_section_position`.
    pub fn decode_chunk_section_position(chunk_section_position: u64) -> (r: (i32, i32, i32))
        ensures
            (r.0 as int, r.1 as int, r.2 as int) == unpacked_section_position(
                chunk_section_position as int,
            ),
    {
        let w = chunk_section_position;
        let x = (w / 0x400_0000_0000) as i32 - 0x20_0000;
        let y = (w % 0x10_0000) as i32 - 0x8_0000;
        let z = ((w / 0x10_0000) % 0x40_0000) as i32 - 0x20_0000;
        (x, y, z)
    }

    /// Packs a state id and a position inside the section (each 0 to 15).
    ///
    /// Fails with `OutOfRange` where x, y or z is above 15.
    pub fn encode_block(block: u32, x: u8, y: u8, z: u8) -> (r: Result<u64, ProtocolError>)
        ensures
            x <= 15 && y <= 15 && z <= 15 ==> r == Ok::<u64, ProtocolError>(
                packed_block(block as int, x as int, y as int, z as int) as u64,
            ),
            !(x <= 15 && y <= 15 && z <= 15) ==> r == Err::<u64, ProtocolError>(
                ProtocolError::OutOfRange,
            ),
    {
        if x > 15 || y > 15 || z > 15 {
            return Err(ProtocolError::OutOfRange);
        }
        Ok(block as u64 * 0x1000 + x as u64 * 0x100 + z as u64 * 0x10 + y as u64)
    }

    /// The state id (the low 32 bits of what lies above the low 12 bits) and the
    /// position inside the section held by `block`.
    pub fn decode_block(block: u64) -> (r: (u32, u8, u8, u8))
        ensures
            r.0 == (block as int / 0x1000) % 0x1_0000_0000,
            r.1 == (block as int / 0x100) % 0x10,
            r.2 == block as int % 0x10,
            r.3 == (block as int / 0x10) % 0x10,
    {
        (
            ((block / 0x1000) % 0x1_0000_0000) as u32,
            ((block / 0x100) % 0x10) as u8,
            (block % 0x10) as u8,
            ((block / 0x10) % 0x10) as u8,
        )
    }
}

/// What a sequence parse consumes lies inside its input.
proof fn lemma_parse_var_longs_len(s: Seq<u8>, count: nat)
    ensures
        parse_var_longs(s, count) matches Ok((_, m)) ==> m <= s.len(),
    decreases count,
{
    if count > 0 && s.len() > 0 {
        crate::varint::lemma_varint_parse_bound(s, crate::varint::VAR_LONG_MAX_BYTES as nat);
        if let Some((v, n)) = varint_parse(s, crate::varint::VAR_LONG_MAX_BYTES as nat) {
            lemma_parse_var_longs_len(s.skip(n as int), (count - 1) as nat);
        }
    }
}

/// Unpacking a packed chunk section position gives back every position whose
/// coordinates fit their biased fields.
pub proof fn lemma_section_position_round_trip(x: int, y: int, z: int)
    requires
        section_position_fits(x, y, z),
    ensures
        0 <= packed_section_position(x, y, z) < 0x1_0000_0000_0000_0000,
        unpacked_section_position(packed_section_position(x, y, z)) == (x, y, z),
{
    let bx = x + 0x20_0000;
    let by = y + 0x8_0000;
    let bz = z + 0x20_0000;
    let w = packed_section_position(x, y, z);
    let low = bz * 0x10_0000 + by;
    assert(0 <= low < 0x400_0000_0000) by (nonlinear_arith)
        requires
            0 <= bz < 0x40_0000,
            0 <= by < 0x10_0000,
            low == bz * 0x10_0000 + by,
    ;
    assert(0 <= w < 0x1_0000_0000_0000_0000) by (nonlinear_arith)
        requires
            0 <= bx < 0x40_0000,
            0 <= low < 0x400_0000_0000,
            w == bx * 0x400_0000_0000 + low,
    ;
    vstd::arithmetic::div_mod::lemma_fundamental_div_mod_converse(w, 0x400_0000_0000, bx, low);
    let mid = bx * 0x40_0000 + bz;
    assert(w == mid * 0x10_0000 + by) by (nonlinear_arith)
        requires
            w == bx * 0x400_0000_0000 + bz * 0x10_0000 + by,
            mid == bx * 0x40_0000 + bz,
    ;
    vstd::arithmetic::div_mod::lemma_fundamental_div_mod_converse(w, 0x10_0000, mid, by);
    vstd::arithmetic::div_mod::lemma_fundamental_div_mod_converse(mid, 0x40_0000, bx, bz);
}

/// Every word is the packing of the position it holds: no two words unpack to
/// the same position.
pub proof fn lemma_section_position_onto(w: int)
    requires
        0 <= w < 0x1_0000_0000_0000_0000,
    ensures
        ({
            let (x, y, z) = unpacked_section_position(w);
            section_position_fits(x, y, z) && packed_section_position(x, y, z) == w
        }),
{
    let bx = w / 0x400_0000_0000;
    let mid = w / 0x10_0000;
    let by = w % 0x10_0000;
    let bz = mid % 0x40_0000;
    vstd::arithmetic::div_mod::lemma_fundamental_div_mod(w, 0x10_0000);
    vstd::arithmetic::div_mod::lemma_fundamental_div_mod(mid, 0x40_0000);
    vstd::arithmetic::div_mod::lemma_div_denominator(w, 0x10_0000, 0x40_0000);
    assert(mid / 0x40_0000 == bx);
    assert(0 <= bx < 0x40_0000) by {
        vstd::arithmetic::div_mod::lemma_div_pos_is_pos(w, 0x400_0000_0000);
        vstd::arithmetic::div_mod::lemma_div_is_ordered(w, 0x1_0000_0000_0000_0000 - 1, 0x400_0000_0000);
    }
    assert(w == bx * 0x400_0000_0000 + bz * 0x10_0000 + by) by (nonlinear_arith)
        requires
            w == 0x10_0000 * mid + by,
            mid == 0x40_0000 * bx + bz,
    ;
}

/// Decoding a packed block change entry gives back the state id and the
/// position inside the section.
pub proof fn lemma_block_round_trip(block: u32, x: u8, y: u8, z: u8)
    requires
        x <= 15,
        y <= 15,
        z <= 15,
    ensures
        ({
            let w = packed_block(block as int, x as int, y as int, z as int);
            &&& 0 <= w < 0x1_0000_0000_0000_0000
            &&& (w / 0x1000) % 0x1_0000_0000 == block
            &&& (w / 0x100) % 0x10 == x
            &&& w % 0x10 == y
            &&& (w / 0x10) % 0x10 == z
        }),
{
    let w = packed_block(block as int, x as int, y as int, z as int);
    let b = block as int;
    let xi = x as int;
    let yi = y as int;
    let zi = z as int;
    let low = xi * 0x100 + zi * 0x10 + yi;
    assert(0 <= low < 0x1000);
    vstd::arithmetic::div_mod::lemma_fundamental_div_mod_converse(w, 0x1000, b, low);
    vstd::arithmetic::div_mod::lemma_small_mod(b as nat, 0x1_0000_0000);
    let hi8 = b * 0x10 + xi;
    vstd::arithmetic::div_mod::lemma_fundamental_div_mod_converse(w, 0x100, hi8, zi * 0x10 + yi);
    vstd::arithmetic::div_mod::lemma_fundamental_div_mod_converse(hi8, 0x10, b, xi);
    let hi4 = b * 0x100 + xi * 0x10 + zi;
    vstd::arithmetic::div_mod::lemma_fundamental_div_mod_converse(w, 0x10, hi4, yi);
    vstd::arithmetic::div_mod::lemma_fundamental_div_mod_converse(hi4, 0x10, b * 0x10 + xi, zi);
}

} // verus!
