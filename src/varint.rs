//! Variable-length integers: seven value bits per byte, least significant
//! chunk first, the high bit set on every byte but the last.

use vstd::prelude::*;

use crate::error::ProtocolError;

verus! {

/// Largest number of bytes a 32-bit variable-length integer may take.
pub const VAR_INT_MAX_BYTES: usize = 5;

/// Largest number of bytes a 64-bit variable-length integer may take.
pub const VAR_LONG_MAX_BYTES: usize = 10;

/// `128` raised to the power `k`: the number of values that `k` seven-bit chunks hold.
pub open spec fn pow128(k: nat) -> nat
    decreases k,
{
    if k == 0 {
        1
    } else {
        128 * pow128((k - 1) as nat)
    }
}

/// The minimal encoding of `v`: seven value bits per byte, least significant
/// chunk first, high bit set on every byte but the last.
pub open spec fn varint_bytes(v: nat) -> Seq<u8>
    decreases v,
{
    if v < 128 {
        seq![v as u8]
    } else {
        seq![(v % 128 + 128) as u8] + varint_bytes(v / 128)
    }
}

/// Reads one variable-length integer from the front of `s`, taking at most
/// `max` bytes: the value and the number of bytes consumed, or `None` when the
/// chain of continuation bits runs past `max` bytes or past the end of `s`.
pub open spec fn varint_parse(s: Seq<u8>, max: nat) -> Option<(nat, nat)>
    decreases max,
{
    if max == 0 || s.len() == 0 {
        None
    } else if s[0] < 128 {
        Some((s[0] as nat, 1nat))
    } else {
        match varint_parse(s.drop_first(), (max - 1) as nat) {
            Some((v, n)) => Some(((s[0] - 128) as nat + 128 * v, n + 1)),
            None => None,
        }
    }
}

/// The unsigned bit pattern of a signed 32-bit integer (two's complement).
pub open spec fn bits_of_i32(n: i32) -> nat {
    if n < 0 {
        (n + 0x1_0000_0000) as nat
    } else {
        n as nat
    }
}

/// The signed 32-bit integer whose two's-complement pattern is the low 32 bits of `v`.
pub open spec fn i32_of_bits(v: nat) -> i32 {
    let w = v % 0x1_0000_0000;
    if w >= 0x8000_0000 {
        (w - 0x1_0000_0000) as i32
    } else {
        w as i32
    }
}

/// The unsigned bit pattern of a signed 64-bit integer (two's complement).
pub open spec fn bits_of_i64(n: i64) -> nat {
    if n < 0 {
        (n + 0x1_0000_0000_0000_0000) as nat
    } else {
        n as nat
    }
}

/// The signed 64-bit integer whose two's-complement pattern is the low 64 bits of `v`.
pub open spec fn i64_of_bits(v: nat) -> i64 {
    let w = v % 0x1_0000_0000_0000_0000;
    if w >= 0x8000_0000_0000_0000 {
        (w - 0x1_0000_0000_0000_0000) as i64
    } else {
        w as i64
    }
}

pub proof fn lemma_pow128_positive(k: nat)
    ensures
        pow128(k) >= 1,
    decreases k,
{
    if k > 0 {
        lemma_pow128_positive((k - 1) as nat);
    }
}

pub proof fn lemma_pow128_monotonic(a: nat, b: nat)
    requires
        a <= b,
    ensures
        pow128(a) <= pow128(b),
    decreases b,
{
    if a < b {
        lemma_pow128_monotonic(a, (b - 1) as nat);
        lemma_pow128_positive((b - 1) as nat);
    }
}

/// An encoding never has more chunks than the value needs.
pub proof fn lemma_varint_len(v: nat, k: nat)
    requires
        k >= 1,
        v < pow128(k),
    ensures
        1 <= varint_bytes(v).len() <= k,
    decreases v,
{
    if v >= 128 {
        assert(k >= 2) by {
            if k == 1 {
                assert(pow128(1) == 128) by {
                    reveal_with_fuel(pow128, 2);
                }
            }
        }
        assert(v / 128 < pow128((k - 1) as nat)) by (nonlinear_arith)
            requires
                v < 128 * pow128((k - 1) as nat),
        ;
        lemma_varint_len(v / 128, (k - 1) as nat);
    }
}

/// A value that `varint_parse` returns fits the bytes it consumed.
pub proof fn lemma_varint_parse_bound(s: Seq<u8>, max: nat)
    ensures
        match varint_parse(s, max) {
            Some((v, n)) => 1 <= n <= max && n <= s.len() && v < pow128(n),
            None => true,
        },
    decreases max,
{
    if max > 0 && s.len() > 0 && s[0] >= 128 {
        lemma_varint_parse_bound(s.drop_first(), (max - 1) as nat);
        match varint_parse(s.drop_first(), (max - 1) as nat) {
            Some((v, n)) => {
                let b = (s[0] - 128) as nat;
                assert(b + 128 * v < 128 * pow128(n)) by (nonlinear_arith)
                    requires
                        b < 128,
                        v < pow128(n),
                ;
            },
            None => {},
        }
    } else if max > 0 && s.len() > 0 {
        assert(pow128(1) == 128) by {
            reveal_with_fuel(pow128, 2);
        }
    }
}

/// Reading back an encoding gives the value and its length, whatever follows it.
pub proof fn lemma_varint_round_trip(v: nat, rest: Seq<u8>, max: nat)
    requires
        varint_bytes(v).len() <= max,
    ensures
        varint_parse(varint_bytes(v) + rest, max) == Some((v, varint_bytes(v).len())),
    decreases v,
{
    let s = varint_bytes(v) + rest;
    if v < 128 {
        assert(s[0] == v as u8);
    } else {
        let tail = varint_bytes(v / 128);
        assert(s.drop_first() =~= tail + rest);
        lemma_varint_round_trip(v / 128, rest, (max - 1) as nat);
        assert(s[0] == (v % 128 + 128) as u8);
    }
}

/// Every unsigned 32-bit value reads back from its encoding, which has at most
/// five bytes.
pub proof fn lemma_var_int_round_trip(n: u32)
    ensures
        varint_bytes(n as nat).len() <= VAR_INT_MAX_BYTES,
        varint_parse(varint_bytes(n as nat), VAR_INT_MAX_BYTES as nat) == Some(
            (n as nat, varint_bytes(n as nat).len()),
        ),
{
    assert(pow128(5) == 34359738368) by {
        reveal_with_fuel(pow128, 6);
    }
    lemma_varint_len(n as nat, 5);
    lemma_varint_round_trip(n as nat, Seq::empty(), 5);
    assert(varint_bytes(n as nat) + Seq::<u8>::empty() =~= varint_bytes(n as nat));
}

/// Every signed 32-bit value survives the trip through its bit pattern and its
/// encoding, which has at most five bytes.
pub proof fn lemma_signed_var_int_round_trip(n: i32)
    ensures
        bits_of_i32(n) < 0x1_0000_0000,
        varint_bytes(bits_of_i32(n)).len() <= VAR_INT_MAX_BYTES,
        varint_parse(varint_bytes(bits_of_i32(n)), VAR_INT_MAX_BYTES as nat) == Some(
            (bits_of_i32(n), varint_bytes(bits_of_i32(n)).len()),
        ),
        i32_of_bits(bits_of_i32(n)) == n,
{
    lemma_var_int_round_trip(bits_of_i32(n) as u32);
}

/// Every unsigned 64-bit value reads back from its encoding, which has at most
/// ten bytes.
pub proof fn lemma_var_long_round_trip(n: u64)
    ensures
        varint_bytes(n as nat).len() <= VAR_LONG_MAX_BYTES,
        varint_parse(varint_bytes(n as nat), VAR_LONG_MAX_BYTES as nat) == Some(
            (n as nat, varint_bytes(n as nat).len()),
        ),
{
    assert(pow128(10) == 1180591620717411303424) by {
        reveal_with_fuel(pow128, 11);
    }
    lemma_varint_len(n as nat, 10);
    lemma_varint_round_trip(n as nat, Seq::empty(), 10);
    assert(varint_bytes(n as nat) + Seq::<u8>::empty() =~= varint_bytes(n as nat));
}

/// Every signed 64-bit value survives the trip through its bit pattern and its
/// encoding, which has at most ten bytes.
pub proof fn lemma_signed_var_long_round_trip(n: i64)
    ensures
        bits_of_i64(n) < 0x1_0000_0000_0000_0000,
        varint_bytes(bits_of_i64(n)).len() <= VAR_LONG_MAX_BYTES,
        varint_parse(varint_bytes(bits_of_i64(n)), VAR_LONG_MAX_BYTES as nat) == Some(
            (bits_of_i64(n), varint_bytes(bits_of_i64(n)).len()),
        ),
        i64_of_bits(bits_of_i64(n)) == n,
{
    lemma_var_long_round_trip(bits_of_i64(n) as u64);
}

/// Appends the encoding of `value` to `out`.
pub fn write_var_u64(value: u64, out: &mut Vec<u8>)
    ensures
        final(out)@ == old(out)@ + varint_bytes(value as nat),
{
    let ghost start = old(out)@;
    let mut v: u64 = value;
    while v >= 128
        invariant
            out@ + varint_bytes(v as nat) == start + varint_bytes(value as nat),
        decreases v,
    {
        let ghost before = out@;
        out.push((v % 128 + 128) as u8);
        assert(varint_bytes(v as nat) == seq![(v % 128 + 128) as u8] + varint_bytes(
            (v / 128) as nat,
        ));
        assert(before + varint_bytes(v as nat) =~= out@ + varint_bytes((v / 128) as nat));
        v = v / 128;
    }
    out.push(v as u8);
    assert(varint_bytes(v as nat) == seq![v as u8]);
}

/// Reads a variable-length integer from `input` at `pos`, taking at most `max` bytes.
fn read_var_at(input: &[u8], pos: usize, max: usize) -> (r: Option<(u128, usize)>)
    requires
        max <= VAR_LONG_MAX_BYTES,
        pos <= input@.len(),
    ensures
        match r {
            Some((v, n)) => varint_parse(input@.skip(pos as int), max as nat) == Some(
                (v as nat, n as nat),
            ),
            None => varint_parse(input@.skip(pos as int), max as nat) is None,
        },
    decreases max,
{
    let ghost s = input@.skip(pos as int);
    if max == 0 || pos >= input.len() {
        return None;
    }
    let b = input[pos];
    assert(s[0] == b);
    if b < 128 {
        Some((b as u128, 1))
    } else {
        assert(s.drop_first() =~= input@.skip(pos + 1));
        match read_var_at(input, pos + 1, max - 1) {
            Some((v, n)) => {
                proof {
                    lemma_varint_parse_bound(s.drop_first(), (max - 1) as nat);
                    lemma_pow128_monotonic(n as nat, 9);
                    assert(pow128(9) == 9223372036854775808) by {
                        reveal_with_fuel(pow128, 10);
                    }
                }
                Some(((b - 128) as u128 + 128 * v, n + 1))
            },
            None => None,
        }
    }
}

/// Reads one unsigned variable-length integer of at most `max` bytes from the
/// front of `input`: the value and the number of bytes consumed.
fn read_var(input: &[u8], max: usize) -> (r: Result<(u128, usize), ProtocolError>)
    requires
        max <= VAR_LONG_MAX_BYTES,
    ensures
        match varint_parse(input@, max as nat) {
            Some((v, n)) => r matches Ok((a, b)) && a as nat == v && b as nat == n,
            None => r == Err::<(u128, usize), ProtocolError>(ProtocolError::MalformedVarInt),
        },
{
    assert(input@.skip(0) =~= input@);
    match read_var_at(input, 0, max) {
        Some((v, n)) => Ok((v, n)),
        None => Err(ProtocolError::MalformedVarInt),
    }
}

/// Appends the encoding of an unsigned 32-bit value (at most five bytes).
pub fn write_var_u32(value: u32, out: &mut Vec<u8>)
    ensures
        final(out)@ == old(out)@ + varint_bytes(value as nat),
        varint_bytes(value as nat).len() <= VAR_INT_MAX_BYTES,
{
    proof {
        lemma_var_int_round_trip(value);
    }
    write_var_u64(value as u64, out);
}

/// Reads an unsigned 32-bit variable-length integer: the value, taken modulo
/// `2^32`, and the number of bytes consumed.
pub fn read_var_u32(input: &[u8]) -> (r: Result<(u32, usize), ProtocolError>)
    ensures
        match varint_parse(input@, VAR_INT_MAX_BYTES as nat) {
            Some((v, n)) => r == Ok::<(u32, usize), ProtocolError>(
                ((v % 0x1_0000_0000) as u32, n as usize),
            ),
            None => r == Err::<(u32, usize), ProtocolError>(ProtocolError::MalformedVarInt),
        },
{
    let (v, n) = read_var(input, VAR_INT_MAX_BYTES)?;
    proof {
        lemma_varint_parse_bound(input@, 5);
    }
    Ok(((v % 0x1_0000_0000) as u32, n))
}

/// Appends the encoding of a signed 32-bit value, taken as its two's-complement
/// bit pattern (at most five bytes).
pub fn write_var_int(value: i32, out: &mut Vec<u8>)
    ensures
        final(out)@ == old(out)@ + varint_bytes(bits_of_i32(value)),
        varint_bytes(bits_of_i32(value)).len() <= VAR_INT_MAX_BYTES,
{
    let bits: u32 = if value < 0 {
        (value as i64 + 0x1_0000_0000i64) as u32
    } else {
        value as u32
    };
    write_var_u32(bits, out);
}

/// Reads a signed 32-bit variable-length integer: the two's-complement value of
/// the low 32 bits read, and the number of bytes consumed.
pub fn read_var_int(input: &[u8]) -> (r: Result<(i32, usize), ProtocolError>)
    ensures
        match varint_parse(input@, VAR_INT_MAX_BYTES as nat) {
            Some((v, n)) => r == Ok::<(i32, usize), ProtocolError>((i32_of_bits(v), n as usize)),
            None => r == Err::<(i32, usize), ProtocolError>(ProtocolError::MalformedVarInt),
        },
{
    let (bits, n) = read_var_u32(input)?;
    let value: i32 = if bits >= 0x8000_0000 {
        (bits as i64 - 0x1_0000_0000i64) as i32
    } else {
        bits as i32
    };
    Ok((value, n))
}

/// Appends the encoding of an unsigned 64-bit value (at most ten bytes).
pub fn write_var_u64_checked_len(value: u64, out: &mut Vec<u8>)
    ensures
        final(out)@ == old(out)@ + varint_bytes(value as nat),
        varint_bytes(value as nat).len() <= VAR_LONG_MAX_BYTES,
{
    proof {
        lemma_var_long_round_trip(value);
    }
    write_var_u64(value, out);
}

/// Reads an unsigned 64-bit variable-length integer: the value, taken modulo
/// `2^64`, and the number of bytes consumed.
pub fn read_var_u64(input: &[u8]) -> (r: Result<(u64, usize), ProtocolError>)
    ensures
        match varint_parse(input@, VAR_LONG_MAX_BYTES as nat) {
            Some((v, n)) => r == Ok::<(u64, usize), ProtocolError>(
                ((v % 0x1_0000_0000_0000_0000) as u64, n as usize),
            ),
            None => r == Err::<(u64, usize), ProtocolError>(ProtocolError::MalformedVarInt),
        },
{
    let (v, n) = read_var(input, VAR_LONG_MAX_BYTES)?;
    proof {
        lemma_varint_parse_bound(input@, 10);
    }
    Ok(((v % 0x1_0000_0000_0000_0000) as u64, n))
}

/// Appends the encoding of a signed 64-bit value, taken as its two's-complement
/// bit pattern (at most ten bytes).
pub fn write_var_long(value: i64, out: &mut Vec<u8>)
    ensures
        final(out)@ == old(out)@ + varint_bytes(bits_of_i64(value)),
        varint_bytes(bits_of_i64(value)).len() <= VAR_LONG_MAX_BYTES,
{
    let bits: u64 = if value < 0 {
        (value as i128 + 0x1_0000_0000_0000_0000i128) as u64
    } else {
        value as u64
    };
    write_var_u64_checked_len(bits, out);
}

/// Reads a signed 64-bit variable-length integer: the two's-complement value of
/// the low 64 bits read, and the number of bytes consumed.
pub fn read_var_long(input: &[u8]) -> (r: Result<(i64, usize), ProtocolError>)
    ensures
        match varint_parse(input@, VAR_LONG_MAX_BYTES as nat) {
            Some((v, n)) => r == Ok::<(i64, usize), ProtocolError>((i64_of_bits(v), n as usize)),
            None => r == Err::<(i64, usize), ProtocolError>(ProtocolError::MalformedVarInt),
        },
{
    let (bits, n) = read_var_u64(input)?;
    let value: i64 = if bits >= 0x8000_0000_0000_0000 {
        (bits as i128 - 0x1_0000_0000_0000_0000i128) as i64
    } else {
        bits as i64
    };
    Ok((value, n))
}

} // verus!
