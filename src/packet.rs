//! Length-prefixed frames and packets whose body starts with a discriminant.

use vstd::prelude::*;

use crate::error::ProtocolError;
use crate::varint::{
    bits_of_i32, i32_of_bits, lemma_signed_var_int_round_trip, lemma_varint_parse_bound,
    lemma_varint_round_trip, read_var_int, read_var_u32, varint_bytes, varint_parse,
    write_var_int, write_var_u32, VAR_INT_MAX_BYTES,
};

verus! {

/// Largest number of bytes the length prefix of a frame may take.
pub const FRAME_LENGTH_MAX_BYTES: usize = 3;

/// Number of values a frame length prefix can hold: `128^3`.
pub const FRAME_LENGTH_LIMIT: usize = 0x20_0000;

/// What the bytes received so far on a stream say about the next frame.
#[derive(Debug, Clone, Copy, PartialEq, Eq, Structural)]
pub enum FrameStatus {
    /// A whole frame is there: its body starts at `body_start` and has
    /// `body_len` bytes, all of them received.
    Complete { body_start: usize, body_len: usize },
    /// More bytes must arrive before the frame is whole.
    NeedMore,
}

/// What the bytes `s` received so far say about the next frame.
pub open spec fn frame_status(s: Seq<u8>) -> Result<FrameStatus, ProtocolError> {
    match varint_parse(s, FRAME_LENGTH_MAX_BYTES as nat) {
        Some((len, n)) => if n + len <= s.len() {
            Ok(FrameStatus::Complete { body_start: n as usize, body_len: len as usize })
        } else {
            Ok(FrameStatus::NeedMore)
        },
        None => if s.len() >= FRAME_LENGTH_MAX_BYTES {
            Err(ProtocolError::FrameTooLarge)
        } else {
            Ok(FrameStatus::NeedMore)
        },
    }
}

/// Looks at the bytes received so far on a stream and says whether they hold a
/// whole frame, where its body lies, or whether more bytes are needed.
///
/// Fails with `FrameTooLarge` where the length prefix runs past three bytes.
/// A frame is reported complete only once every byte of its body is there.
pub fn parse_frame(buffer: &[u8]) -> (r: Result<FrameStatus, ProtocolError>)
    ensures
        r == frame_status(buffer@),
        r matches Ok(FrameStatus::Complete { body_start, body_len }) ==> body_start + body_len
            <= buffer@.len(),
{
    let mut head: Vec<u8> = Vec::new();
    let mut i: usize = 0;
    while i < buffer.len() && i < FRAME_LENGTH_MAX_BYTES
        invariant
            i <= buffer@.len(),
            i <= FRAME_LENGTH_MAX_BYTES,
            head@ == buffer@.take(i as int),
        decreases FRAME_LENGTH_MAX_BYTES - i,
    {
        head.push(buffer[i]);
        i = i + 1;
    }
    proof {
        lemma_parse_prefix(buffer@, head@, FRAME_LENGTH_MAX_BYTES as nat);
        lemma_varint_parse_bound(buffer@, FRAME_LENGTH_MAX_BYTES as nat);
        assert(crate::varint::pow128(3) == 0x20_0000) by {
            reveal_with_fuel(crate::varint::pow128, 4);
        }
        crate::varint::lemma_pow128_monotonic(0, 3);
    }
    match read_var_u32(head.as_slice()) {
        Ok((len, n)) => {
            proof {
                lemma_varint_parse_bound(head@, VAR_INT_MAX_BYTES as nat);
                lemma_parse_max_more(head@, 3, 5);
                crate::varint::lemma_pow128_monotonic(n as nat, 3);
            }
            if (len as usize) <= buffer.len() - n {
                Ok(FrameStatus::Complete { body_start: n, body_len: len as usize })
            } else {
                Ok(FrameStatus::NeedMore)
            }
        },
        Err(_) => {
            proof {
                lemma_parse_max_more(head@, 3, 5);
            }
            if buffer.len() >= FRAME_LENGTH_MAX_BYTES {
                Err(ProtocolError::FrameTooLarge)
            } else {
                Ok(FrameStatus::NeedMore)
            }
        },
    }
}

/// Parsing with at most `max` bytes only looks at the first `max` bytes.
proof fn lemma_parse_prefix(s: Seq<u8>, t: Seq<u8>, max: nat)
    requires
        t == s.take(if s.len() < max { s.len() as int } else { max as int }),
    ensures
        varint_parse(s, max) == varint_parse(t, max),
    decreases max,
{
    if max > 0 && s.len() > 0 {
        assert(t[0] == s[0]);
        let m = (max - 1) as nat;
        assert(t.drop_first() =~= s.drop_first().take(
            if s.drop_first().len() < m { s.drop_first().len() as int } else { m as int },
        ));
        lemma_parse_prefix(s.drop_first(), t.drop_first(), m);
    }
}

/// A sequence of at most `a` bytes parses alike with any bound `b >= a`.
proof fn lemma_parse_max_more(s: Seq<u8>, a: nat, b: nat)
    requires
        s.len() <= a <= b,
    ensures
        varint_parse(s, a) == varint_parse(s, b),
    decreases a,
{
    if a > 0 && s.len() > 0 {
        lemma_parse_max_more(s.drop_first(), (a - 1) as nat, (b - 1) as nat);
    }
}

/// Appends `src` to `out`.
fn append_bytes(out: &mut Vec<u8>, src: &[u8])
    ensures
        final(out)@ == old(out)@ + src@,
{
    let mut i: usize = 0;
    while i < src.len()
        invariant
            i <= src@.len(),
            out@ == old(out)@ + src@.take(i as int),
        decreases src@.len() - i,
    {
        out.push(src[i]);
        i = i + 1;
        assert(src@.take(i as int) =~= src@.take(i - 1).push(src@[i - 1]));
    }
    assert(src@.take(src@.len() as int) =~= src@);
}

/// Appends a frame holding `body`: its length as a variable-length integer,
/// then the body.
///
/// Fails with `FrameTooLarge`, writing nothing, where the body has `2^21`
/// bytes or more, so that its length would not fit the three-byte prefix.
pub fn write_frame(body: &[u8], out: &mut Vec<u8>) -> (r: Result<(), ProtocolError>)
    ensures
        body@.len() < FRAME_LENGTH_LIMIT ==> r == Ok::<(), ProtocolError>(()) && final(out)@ == old(
            out,
        )@ + varint_bytes(body@.len()) + body@,
        body@.len() >= FRAME_LENGTH_LIMIT ==> r == Err::<(), ProtocolError>(
            ProtocolError::FrameTooLarge,
        ) && final(out)@ == old(out)@,
{
    if body.len() >= FRAME_LENGTH_LIMIT {
        return Err(ProtocolError::FrameTooLarge);
    }
    write_var_u32(body.len() as u32, out);
    append_bytes(out, body);
    Ok(())
}

/// A frame written for a body is read back as complete, with that body.
pub proof fn lemma_frame_round_trip(body: Seq<u8>, rest: Seq<u8>)
    requires
        body.len() < FRAME_LENGTH_LIMIT,
    ensures
        ({
            let s = varint_bytes(body.len()) + body + rest;
            let n = varint_bytes(body.len()).len();
            &&& frame_status(s) == Ok::<FrameStatus, ProtocolError>(
                FrameStatus::Complete { body_start: n as usize, body_len: body.len() as usize },
            )
            &&& s.subrange(n as int, (n + body.len()) as int) == body
        }),
{
    let len = body.len();
    assert(crate::varint::pow128(3) == 0x20_0000) by {
        reveal_with_fuel(crate::varint::pow128, 4);
    }
    crate::varint::lemma_varint_len(len, 3);
    let head = varint_bytes(len);
    let s = head + body + rest;
    assert(s =~= head + (body + rest));
    lemma_varint_round_trip(len, body + rest, 3);
    assert(s.subrange(head.len() as int, (head.len() + len) as int) =~= body);
}

/// A packet whose body is left undecoded: its discriminant, read as a
/// variable-length integer, and the bytes that follow it.
#[derive(Debug, Clone, PartialEq, Eq)]
pub struct RawPacket {
    pub id: i32,
    pub body: Vec<u8>,
}

impl RawPacket {
    /// Splits an uncompressed frame body into its discriminant and the rest.
    ///
    /// Fails with `MalformedVarInt` where the discriminant is not a valid
    /// variable-length integer.
    pub fn deserialize_uncompressed_minecraft_packet(input: &[u8]) -> (r: Result<RawPacket, ProtocolError>)
        ensures
            match varint_parse(input@, VAR_INT_MAX_BYTES as nat) {
                None => r == Err::<RawPacket, ProtocolError>(ProtocolError::MalformedVarInt),
                Some((v, n)) => r matches Ok(p) && p.id == i32_of_bits(v) && p.body@
                    == input@.skip(n as int),
            },
    {
        proof {
            lemma_varint_parse_bound(input@, VAR_INT_MAX_BYTES as nat);
        }
        let (id, n) = read_var_int(input)?;
        let mut body: Vec<u8> = Vec::new();
        let mut i: usize = n;
        while i < input.len()
            invariant
                n <= i <= input@.len(),
                body@ == input@.subrange(n as int, i as int),
            decreases input@.len() - i,
        {
            body.push(input[i]);
            i = i + 1;
            assert(input@.subrange(n as int, i as int) =~= input@.subrange(n as int, i - 1).push(
                input@[i - 1],
            ));
        }
        assert(input@.subrange(n as int, input@.len() as int) =~= input@.skip(n as int));
        Ok(RawPacket { id, body })
    }

    /// The packet's bytes: the discriminant as a variable-length integer, then
    /// the body.
    pub fn serialize_minecraft_packet(&self) -> (r: Vec<u8>)
        ensures
            r@ == varint_bytes(bits_of_i32(self.id)) + self.body@,
    {
        let mut out: Vec<u8> = Vec::new();
        write_var_int(self.id, &mut out);
        append_bytes(&mut out, self.body.as_slice());
        assert(Seq::<u8>::empty() + varint_bytes(bits_of_i32(self.id)) =~= varint_bytes(
            bits_of_i32(self.id),
        ));
        out
    }
}

/// A packet written out and read back gives the same discriminant and body.
pub proof fn lemma_raw_packet_round_trip(id: i32, body: Seq<u8>)
    ensures
        varint_parse(varint_bytes(bits_of_i32(id)) + body, VAR_INT_MAX_BYTES as nat) == Some(
            (bits_of_i32(id), varint_bytes(bits_of_i32(id)).len()),
        ),
        i32_of_bits(bits_of_i32(id)) == id,
        (varint_bytes(bits_of_i32(id)) + body).skip(varint_bytes(bits_of_i32(id)).len() as int)
            == body,
{
    lemma_signed_var_int_round_trip(id);
    lemma_varint_round_trip(bits_of_i32(id), body, VAR_INT_MAX_BYTES as nat);
    assert((varint_bytes(bits_of_i32(id)) + body).skip(varint_bytes(bits_of_i32(id)).len() as int)
        =~= body);
}

} // verus!
