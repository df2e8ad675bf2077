//! Fixed-width big-endian values and length-prefixed sequences.

use vstd::prelude::*;

use crate::error::ProtocolError;
use crate::varint::{
    lemma_varint_parse_bound, read_var_u32, read_var_u64, varint_bytes, varint_parse,
    write_var_u32, write_var_u64, VAR_INT_MAX_BYTES, VAR_LONG_MAX_BYTES,
};

verus! {

/// The `n` low bytes of `v`, most significant first.
pub open spec fn be_bytes(v: nat, n: nat) -> Seq<u8>
    decreases n,
{
    if n == 0 {
        seq![]
    } else {
        be_bytes(v / 256, (n - 1) as nat).push((v % 256) as u8)
    }
}

/// The value of the bytes `s`, most significant first.
pub open spec fn be_value(s: Seq<u8>) -> nat
    decreases s.len(),
{
    if s.len() == 0 {
        0
    } else {
        be_value(s.drop_last()) * 256 + s.last() as nat
    }
}

/// `256^n`.
pub open spec fn pow256(n: nat) -> nat
    decreases n,
{
    if n == 0 {
        1
    } else {
        256 * pow256((n - 1) as nat)
    }
}

/// The `n` big-endian bytes of a value below `256^n` read back as that value.
pub proof fn lemma_be_round_trip(v: nat, n: nat)
    requires
        v < pow256(n),
    ensures
        be_bytes(v, n).len() == n,
        be_value(be_bytes(v, n)) == v,
    decreases n,
{
    if n > 0 {
        assert(v / 256 < pow256((n - 1) as nat)) by {
            vstd::arithmetic::div_mod::lemma_div_by_multiple_is_strongly_ordered(
                v as int,
                pow256(n) as int,
                pow256((n - 1) as nat) as int,
                256,
            );
            assert(pow256(n) == pow256((n - 1) as nat) * 256);
            vstd::arithmetic::div_mod::lemma_fundamental_div_mod(v as int, 256);
            assert((v / 256) < pow256((n - 1) as nat)) by (nonlinear_arith)
                requires
                    v < 256 * pow256((n - 1) as nat),
                    v == 256 * (v / 256) + v % 256,
                    v % 256 >= 0,
            ;
        }
        lemma_be_round_trip(v / 256, (n - 1) as nat);
        let s = be_bytes(v, n);
        assert(s.drop_last() =~= be_bytes(v / 256, (n - 1) as nat));
        vstd::arithmetic::div_mod::lemma_fundamental_div_mod(v as int, 256);
    }
}

proof fn lemma_be_value_bound(s: Seq<u8>)
    ensures
        be_value(s) < pow256(s.len()),
    decreases s.len(),
{
    if s.len() > 0 {
        lemma_be_value_bound(s.drop_last());
        let p = pow256((s.len() - 1) as nat);
        let a = be_value(s.drop_last());
        let l = s.last() as nat;
        assert(a * 256 + l < 256 * p) by (nonlinear_arith)
            requires
                a < p,
                l < 256,
        ;
    }
}

/// Appends the `n` low bytes of `v`, most significant first.
fn write_be(v: u64, n: usize, out: &mut Vec<u8>)
    requires
        n <= 8,
    ensures
        final(out)@ == old(out)@ + be_bytes(v as nat, n as nat),
{
    let ghost start = old(out)@;
    let mut k: usize = n;
    proof {
        lemma_be_len(v as nat, n as nat);
        assert(be_bytes(v as nat, n as nat).take(0) =~= Seq::<u8>::empty());
        assert(start + Seq::<u8>::empty() =~= start);
    }
    while k > 0
        invariant
            k <= n <= 8,
            out@ == start + be_bytes(v as nat, n as nat).take((n - k) as int),
            be_bytes(v as nat, n as nat).len() == n,
        decreases k,
    {
        proof {
            lemma_be_byte(v as nat, n as nat, (n - k) as nat);
            assert(be_bytes(v as nat, n as nat).take((n - k + 1) as int) =~= be_bytes(
                v as nat,
                n as nat,
            ).take((n - k) as int).push(be_bytes(v as nat, n as nat)[(n - k) as int]));
        }
        let shift = k - 1;
        let mut d: u64 = v;
        let mut s: usize = 0;
        assert(pow256(0) == 1);
        assert(v as nat / 1 == v as nat);
        while s < shift
            invariant
                s <= shift < 8,
                d as nat == v as nat / pow256(s as nat),
            decreases shift - s,
        {
            proof {
                lemma_pow256_positive(s as nat);
                vstd::arithmetic::div_mod::lemma_div_denominator(
                    v as int,
                    pow256(s as nat) as int,
                    256,
                );
                assert(pow256((s + 1) as nat) == pow256(s as nat) * 256);
            }
            d = d / 256;
            s = s + 1;
        }
        out.push((d % 256) as u8);
        k = k - 1;
    }
    proof {
        assert(be_bytes(v as nat, n as nat).take(n as int) =~= be_bytes(v as nat, n as nat));
    }
}

proof fn lemma_pow256_positive(n: nat)
    ensures
        pow256(n) >= 1,
    decreases n,
{
    if n > 0 {
        lemma_pow256_positive((n - 1) as nat);
    }
}

/// Byte `i` of the `n` big-endian bytes of `v` is `(v / 256^(n-1-i)) % 256`.
proof fn lemma_be_byte(v: nat, n: nat, i: nat)
    requires
        i < n,
    ensures
        be_bytes(v, n).len() == n,
        be_bytes(v, n)[i as int] == ((v / pow256((n - 1 - i) as nat)) % 256) as u8,
    decreases n,
{
    lemma_be_len(v, n);
    if i == n - 1 {
        assert(v / 1 == v);
    } else {
        lemma_be_byte(v / 256, (n - 1) as nat, i);
        lemma_pow256_positive((n - 2 - i) as nat);
        vstd::arithmetic::div_mod::lemma_div_denominator(
            v as int,
            256,
            pow256((n - 2 - i) as nat) as int,
        );
        assert(pow256((n - 1 - i) as nat) == 256 * pow256((n - 2 - i) as nat));
    }
}

proof fn lemma_be_len(v: nat, n: nat)
    ensures
        be_bytes(v, n).len() == n,
    decreases n,
{
    if n > 0 {
        lemma_be_len(v / 256, (n - 1) as nat);
    }
}

/// Reads `n` bytes, most significant first, from the front of `input`.
fn read_be(input: &[u8], n: usize) -> (r: Result<(u64, usize), ProtocolError>)
    requires
        n <= 8,
    ensures
        input@.len() < n ==> r == Err::<(u64, usize), ProtocolError>(ProtocolError::LengthMismatch),
        input@.len() >= n ==> r == Ok::<(u64, usize), ProtocolError>(
            (be_value(input@.take(n as int)) as u64, n),
        ),
{
    if input.len() < n {
        return Err(ProtocolError::LengthMismatch);
    }
    let mut v: u64 = 0;
    let mut i: usize = 0;
    proof {
        assert(input@.take(0) =~= Seq::<u8>::empty());
    }
    while i < n
        invariant
            i <= n <= 8,
            n <= input@.len(),
            v as nat == be_value(input@.take(i as int)),
        decreases n - i,
    {
        proof {
            lemma_be_value_bound(input@.take(i as int));
            assert(pow256(7) == 72057594037927936) by {
                reveal_with_fuel(pow256, 8);
            }
            lemma_pow256_monotonic(i as nat, 7);
            assert(input@.take(i + 1).drop_last() =~= input@.take(i as int));
        }
        v = v * 256 + input[i] as u64;
        i = i + 1;
    }
    proof {
        lemma_be_value_bound(input@.take(n as int));
    }
    Ok((v, n))
}

proof fn lemma_pow256_monotonic(a: nat, b: nat)
    requires
        a <= b,
    ensures
        pow256(a) <= pow256(b),
    decreases b,
{
    if a < b {
        lemma_pow256_monotonic(a, (b - 1) as nat);
        lemma_pow256_positive((b - 1) as nat);
    }
}

/// Appends a `u16`, big-endian.
pub fn write_u16(v: u16, out: &mut Vec<u8>)
    ensures
        final(out)@ == old(out)@ + be_bytes(v as nat, 2),
{
    write_be(v as u64, 2, out);
}

/// Reads a big-endian `u16`; also returns the bytes consumed.
pub fn read_u16(input: &[u8]) -> (r: Result<(u16, usize), ProtocolError>)
    ensures
        input@.len() < 2 ==> r == Err::<(u16, usize), ProtocolError>(ProtocolError::LengthMismatch),
        input@.len() >= 2 ==> (r matches Ok((v, n)) && v as nat == be_value(input@.take(2)) && n
            == 2),
{
    let (v, n) = read_be(input, 2)?;
    proof {
        lemma_be_value_bound(input@.take(2));
        assert(pow256(2) == 65536) by {
            reveal_with_fuel(pow256, 3);
        }
    }
    Ok((v as u16, n))
}

/// Appends a `u64`, big-endian.
pub fn write_u64(v: u64, out: &mut Vec<u8>)
    ensures
        final(out)@ == old(out)@ + be_bytes(v as nat, 8),
{
    write_be(v, 8, out);
}

/// Reads a big-endian `u64`; also returns the bytes consumed.
pub fn read_u64(input: &[u8]) -> (r: Result<(u64, usize), ProtocolError>)
    ensures
        input@.len() < 8 ==> r == Err::<(u64, usize), ProtocolError>(ProtocolError::LengthMismatch),
        input@.len() >= 8 ==> (r matches Ok((v, n)) && v as nat == be_value(input@.take(8)) && n
            == 8),
{
    proof {
        if input@.len() >= 8 {
            lemma_be_value_bound(input@.take(8));
            assert(pow256(8) == 0x1_0000_0000_0000_0000) by {
                reveal_with_fuel(pow256, 9);
            }
        }
    }
    read_be(input, 8)
}

/// Appends a `bool` as one byte, 1 for `true` and 0 for `false`.
pub fn write_bool(v: bool, out: &mut Vec<u8>)
    ensures
        final(out)@ == old(out)@.push(if v {
            1u8
        } else {
            0u8
        }),
{
    out.push(if v {
        1
    } else {
        0
    });
}

/// Reads a one-byte `bool`: 0 or 1, any other byte being an unknown variant.
pub fn read_bool(input: &[u8]) -> (r: Result<(bool, usize), ProtocolError>)
    ensures
        input@.len() == 0 ==> r == Err::<(bool, usize), ProtocolError>(
            ProtocolError::LengthMismatch,
        ),
        input@.len() > 0 && input@[0] > 1 ==> r == Err::<(bool, usize), ProtocolError>(
            ProtocolError::UnknownVariant,
        ),
        input@.len() > 0 && input@[0] <= 1 ==> r == Ok::<(bool, usize), ProtocolError>(
            (input@[0] == 1, 1),
        ),
{
    if input.len() == 0 {
        return Err(ProtocolError::LengthMismatch);
    }
    match input[0] {
        0 => Ok((false, 1)),
        1 => Ok((true, 1)),
        _ => Err(ProtocolError::UnknownVariant),
    }
}

/// The encoding of each of `items` as a variable-length integer, one after the other.
pub open spec fn var_longs_bytes(items: Seq<u64>) -> Seq<u8>
    decreases items.len(),
{
    if items.len() == 0 {
        seq![]
    } else {
        var_longs_bytes(items.drop_last()) + varint_bytes(items.last() as nat)
    }
}

/// A length-prefixed sequence: its length as a variable-length integer, then
/// each item as one.
pub open spec fn var_long_array_bytes(items: Seq<u64>) -> Seq<u8> {
    varint_bytes(items.len()) + var_longs_bytes(items)
}

/// Reads `count` variable-length integers from the front of `s`: the items
/// and the bytes consumed; `LengthMismatch` where the input ends before an
/// item starts, `MalformedVarInt` where an item is broken.
pub open spec fn parse_var_longs(s: Seq<u8>, count: nat) -> Result<(Seq<u64>, nat), ProtocolError>
    decreases count,
{
    if count == 0 {
        Ok((seq![], 0))
    } else if s.len() == 0 {
        Err(ProtocolError::LengthMismatch)
    } else {
        match varint_parse(s, VAR_LONG_MAX_BYTES as nat) {
            None => Err(ProtocolError::MalformedVarInt),
            Some((v, n)) => match parse_var_longs(s.skip(n as int), (count - 1) as nat) {
                Ok((rest, m)) => Ok(
                    (seq![(v % 0x1_0000_0000_0000_0000) as u64] + rest, n + m),
                ),
                Err(e) => Err(e),
            },
        }
    }
}

/// Appends a length-prefixed sequence of variable-length integers.
pub fn write_var_long_array(items: &Vec<u64>, out: &mut Vec<u8>)
    requires
        items@.len() <= u32::MAX,
    ensures
        final(out)@ == old(out)@ + var_long_array_bytes(items@),
{
    let ghost start = old(out)@;
    write_var_u32(items.len() as u32, out);
    let mut i: usize = 0;
    proof {
        assert(items@.take(0) =~= Seq::<u64>::empty());
    }
    while i < items.len()
        invariant
            i <= items@.len(),
            out@ == start + varint_bytes(items@.len()) + var_longs_bytes(items@.take(i as int)),
        decreases items@.len() - i,
    {
        proof {
            assert(items@.take(i + 1).drop_last() =~= items@.take(i as int));
        }
        write_var_u64(items[i], out);
        i = i + 1;
        proof {
            assert(out@ =~= start + varint_bytes(items@.len()) + var_longs_bytes(items@.take(i as int)));
        }
    }
    proof {
        assert(items@.take(items@.len() as int) =~= items@);
        assert(out@ =~= start + var_long_array_bytes(items@));
    }
}

/// Reads a length-prefixed sequence of variable-length integers; also returns
/// the bytes consumed.
///
/// Fails with `MalformedVarInt` where the length or an item is broken, and
/// with `LengthMismatch` where fewer items follow than the length declares.
pub fn read_var_long_array(input: &[u8]) -> (r: Result<(Vec<u64>, usize), ProtocolError>)
    ensures
        match varint_parse(input@, VAR_INT_MAX_BYTES as nat) {
            None => r == Err::<(Vec<u64>, usize), ProtocolError>(ProtocolError::MalformedVarInt),
            Some((c, k)) => match parse_var_longs(input@.skip(k as int), c % 0x1_0000_0000) {
                Err(e) => r == Err::<(Vec<u64>, usize), ProtocolError>(e),
                Ok((items, m)) => r matches Ok((v, n)) && v@ == items && n == k + m,
            },
        },
{
    proof {
        lemma_varint_parse_bound(input@, VAR_INT_MAX_BYTES as nat);
    }
    let (count, k) = read_var_u32(input)?;
    let mut items: Vec<u64> = Vec::new();
    let mut pos: usize = k;
    let mut left: u32 = count;
    while left > 0
        invariant
            k <= pos <= input@.len(),
            left <= count,
            match varint_parse(input@, VAR_INT_MAX_BYTES as nat) {
                Some((c, kk)) => c % 0x1_0000_0000 == count && kk == k,
                None => false,
            },
            parse_var_longs(input@.skip(k as int), count as nat) == match parse_var_longs(
                input@.skip(pos as int),
                left as nat,
            ) {
                Ok((rest, m)) => Ok((items@ + rest, (pos - k) as nat + m)),
                Err(e) => Err(e),
            },
        decreases left,
    {
        let ghost s = input@.skip(pos as int);
        if pos >= input.len() {
            assert(s.len() == 0);
            return Err(ProtocolError::LengthMismatch);
        }
        let tail = vstd::slice::slice_subrange(input, pos, input.len());
        assert(tail@ =~= s);
        proof {
            lemma_varint_parse_bound(s, VAR_LONG_MAX_BYTES as nat);
        }
        let (v, n) = read_var_u64(tail)?;
        proof {
            assert(s.skip(n as int) =~= input@.skip(pos + n));
            let ghost before = items@;
            assert(forall|rest: Seq<u64>| #[trigger] (before + (seq![v] + rest)) =~= (before.push(v) + rest));
        }
        items.push(v);
        pos = pos + n;
        left = left - 1;
    }
    proof {
        assert(items@ + Seq::<u64>::empty() =~= items@);
    }
    Ok((items, pos))
}

/// A length-prefixed sequence written out reads back as the same items and
/// consumes exactly what was written.
pub proof fn lemma_var_long_array_round_trip(items: Seq<u64>, rest: Seq<u8>)
    requires
        items.len() <= u32::MAX,
    ensures
        ({
            let s = var_long_array_bytes(items) + rest;
            let k = varint_bytes(items.len()).len();
            &&& varint_parse(s, VAR_INT_MAX_BYTES as nat) == Some((items.len(), k))
            &&& parse_var_longs(s.skip(k as int), items.len()) == Ok::<(Seq<u64>, nat), ProtocolError>(
                (items, var_longs_bytes(items).len()),
            )
        }),
{
    crate::varint::lemma_var_int_round_trip(items.len() as u32);
    let head = varint_bytes(items.len());
    let s = var_long_array_bytes(items) + rest;
    assert(s =~= head + (var_longs_bytes(items) + rest));
    crate::varint::lemma_varint_round_trip(items.len(), var_longs_bytes(items) + rest, 5);
    assert(s.skip(head.len() as int) =~= var_longs_bytes(items) + rest);
    lemma_var_longs_round_trip(items, rest);
}

proof fn lemma_var_longs_round_trip(items: Seq<u64>, rest: Seq<u8>)
    ensures
        parse_var_longs(var_longs_bytes(items) + rest, items.len()) == Ok::<
            (Seq<u64>, nat),
            ProtocolError,
        >((items, var_longs_bytes(items).len())),
    decreases items.len(),
{
    if items.len() > 0 {
        let first = items[0];
        let tail = items.drop_first();
        lemma_var_longs_split(items);
        let fb = varint_bytes(first as nat);
        crate::varint::lemma_var_long_round_trip(first);
        let s = var_longs_bytes(items) + rest;
        assert(fb.len() > 0);
        assert(s =~= fb + (var_longs_bytes(tail) + rest));
        assert(s.len() > 0);
        crate::varint::lemma_varint_round_trip(first as nat, var_longs_bytes(tail) + rest, 10);
        assert(s.skip(fb.len() as int) =~= var_longs_bytes(tail) + rest);
        lemma_var_longs_round_trip(tail, rest);
        assert(seq![first] + tail =~= items);
        assert((first as nat) % 0x1_0000_0000_0000_0000 == first as nat);
        assert(tail.len() == items.len() - 1);
        assert(varint_parse(s, VAR_LONG_MAX_BYTES as nat) == Some((first as nat, fb.len())));
        assert(((first as nat) % 0x1_0000_0000_0000_0000) as u64 == first);
        assert(var_longs_bytes(items).len() == fb.len() + var_longs_bytes(tail).len());
    } else {
        assert(items =~= Seq::<u64>::empty());
        assert(var_longs_bytes(items) + rest =~= rest);
    }
}

/// The encoding of a sequence is that of its first item, then that of the rest.
proof fn lemma_var_longs_split(items: Seq<u64>)
    requires
        items.len() > 0,
    ensures
        var_longs_bytes(items) == varint_bytes(items[0] as nat) + var_longs_bytes(items.drop_first()),
    decreases items.len(),
{
    if items.len() == 1 {
        assert(items.drop_last() =~= Seq::<u64>::empty());
        assert(items.drop_first() =~= Seq::<u64>::empty());
        assert(var_longs_bytes(Seq::<u64>::empty()) == Seq::<u8>::empty());
        assert(items.last() == items[0]);
        assert(var_longs_bytes(items) == var_longs_bytes(items.drop_last()) + varint_bytes(
            items.last() as nat,
        ));
        assert(var_longs_bytes(items) =~= varint_bytes(items[0] as nat));
        assert(varint_bytes(items[0] as nat) + Seq::<u8>::empty() =~= varint_bytes(items[0] as nat));
    } else {
        lemma_var_longs_split(items.drop_last());
        assert(items.drop_last().drop_first() =~= items.drop_first().drop_last());
        assert(items.drop_first().last() == items.last());
    }
}

} // verus!
