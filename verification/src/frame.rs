//! Length-prefixed framing: a payload behind its length, written as four
//! bytes, most significant first.

use vstd::prelude::*;
use crate::error::DecodeError;

verus! {

/// The largest payload that a length prefix can announce.
pub const MAX_PAYLOAD: usize = 0xffff_ffff;

/// The four bytes of `n`, most significant first.
pub open spec fn be32(n: int) -> Seq<u8> {
    seq![
        ((n / 0x100_0000) % 0x100) as u8,
        ((n / 0x1_0000) % 0x100) as u8,
        ((n / 0x100) % 0x100) as u8,
        (n % 0x100) as u8,
    ]
}

/// The number that the first four bytes of `bytes` stand for.
pub open spec fn be32_value(bytes: Seq<u8>) -> int {
    bytes[0] as int * 0x100_0000 + bytes[1] as int * 0x1_0000 + bytes[2] as int * 0x100
        + bytes[3] as int
}

/// A payload behind its length.
pub open spec fn framed(payload: Seq<u8>) -> Seq<u8> {
    be32(payload.len() as int) + payload
}

/// The payload that the front of `bytes` frames, with the number of bytes
/// that prefix and payload take together.
#[verifier::opaque]
pub open spec fn parse_frame(bytes: Seq<u8>) -> Result<(Seq<u8>, nat), DecodeError> {
    if bytes.len() < 4 {
        Err(DecodeError::TruncatedInput)
    } else if bytes.len() - 4 < be32_value(bytes) {
        Err(DecodeError::TruncatedInput)
    } else {
        let end = 4 + be32_value(bytes);
        Ok((bytes.subrange(4, end), end as nat))
    }
}

/// A length prefix reads back as the number it was written from.
pub proof fn lemma_be32_value(n: int, rest: Seq<u8>)
    requires
        0 <= n <= 0xffff_ffff,
    ensures
        be32(n).len() == 4,
        be32_value(be32(n) + rest) == n,
{
    let s = be32(n) + rest;
    assert(s[0] == be32(n)[0] && s[1] == be32(n)[1] && s[2] == be32(n)[2] && s[3] == be32(n)[3]);
}

/// A framed payload reads back as that payload, whatever follows it.
pub proof fn lemma_parse_framed(payload: Seq<u8>, rest: Seq<u8>)
    requires
        payload.len() <= 0xffff_ffff,
    ensures
        parse_frame(framed(payload) + rest) == Ok::<(Seq<u8>, nat), DecodeError>(
            (payload, framed(payload).len()),
        ),
        framed(payload).len() == 4 + payload.len(),
{
    reveal(parse_frame);
    let n = payload.len() as int;
    let s = framed(payload) + rest;
    lemma_be32_value(n, payload + rest);
    assert(s =~= be32(n) + (payload + rest));
    assert(s.subrange(4, 4 + n) =~= payload);
}

/// Appends the four bytes of `value`, most significant first.
pub fn write_int_be(buffer: &mut Vec<u8>, value: u32)
    ensures
        final(buffer)@ == old(buffer)@ + be32(value as int),
{
    buffer.push((value / 0x100_0000) as u8);
    buffer.push(((value / 0x1_0000) % 0x100) as u8);
    buffer.push(((value / 0x100) % 0x100) as u8);
    buffer.push((value % 0x100) as u8);
    assert(buffer@ =~= old(buffer)@ + be32(value as int));
}

/// Reads the number that the first four bytes of `buffer` stand for.
/// A buffer of fewer than four bytes is truncated.
pub fn read_int_be(buffer: &[u8]) -> (result: Result<u32, DecodeError>)
    ensures
        buffer@.len() < 4 ==> result == Err::<u32, DecodeError>(DecodeError::TruncatedInput),
        buffer@.len() >= 4 ==> result == Ok::<u32, DecodeError>(be32_value(buffer@) as u32),
        buffer@.len() >= 4 ==> 0 <= be32_value(buffer@) <= 0xffff_ffff,
{
    if buffer.len() < 4 {
        return Err(DecodeError::TruncatedInput);
    }
    let b0: u32 = buffer[0] as u32;
    let b1: u32 = buffer[1] as u32;
    let b2: u32 = buffer[2] as u32;
    let b3: u32 = buffer[3] as u32;
    Ok(b0 * 0x100_0000 + b1 * 0x1_0000 + b2 * 0x100 + b3)
}

/// Overwrites the four bytes at `offset` with those of `value`, most
/// significant first.
pub fn write_int_be_into_offset(buffer: &mut Vec<u8>, value: u32, offset: usize)
    requires
        offset + 4 <= old(buffer).len(),
    ensures
        final(buffer)@ == old(buffer)@.subrange(0, offset as int) + be32(value as int) + old(
            buffer,
        )@.subrange(offset + 4, old(buffer)@.len() as int),
{
    let second: usize = offset + 1;
    let third: usize = offset + 2;
    let fourth: usize = offset + 3;
    buffer[offset] = (value / 0x100_0000) as u8;
    buffer[second] = ((value / 0x1_0000) % 0x100) as u8;
    buffer[third] = ((value / 0x100) % 0x100) as u8;
    buffer[fourth] = (value % 0x100) as u8;
    assert(buffer@ =~= old(buffer)@.subrange(0, offset as int) + be32(value as int) + old(
        buffer,
    )@.subrange(offset + 4, old(buffer)@.len() as int));
}

/// Appends `value` behind its length and returns the number of bytes
/// appended.
pub fn write_array(buffer: &mut Vec<u8>, value: &[u8]) -> (written: usize)
    requires
        value@.len() <= MAX_PAYLOAD,
    ensures
        final(buffer)@ == old(buffer)@ + framed(value@),
        written == framed(value@).len(),
        written == 4 + value@.len(),
{
    let length: usize = value.len();
    write_int_be(buffer, length as u32);
    let mut i: usize = 0;
    while i < length
        invariant
            i <= length,
            length == value@.len(),
            buffer@ == old(buffer)@ + be32(length as int) + value@.subrange(0, i as int),
        decreases length - i,
    {
        buffer.push(value[i]);
        i += 1;
        assert(value@.subrange(0, i as int) =~= value@.subrange(0, i - 1).push(value@[i - 1]));
        assert(buffer@ =~= old(buffer)@ + be32(length as int) + value@.subrange(0, i as int));
    }
    assert(value@.subrange(0, length as int) =~= value@);
    assert(buffer@ =~= old(buffer)@ + framed(value@));
    assert(buffer@.len() == old(buffer)@.len() + 4 + length);
    assert(buffer.len() <= usize::MAX);
    4 + length
}

/// Reads the payload that the front of `buffer` frames, with the number of
/// bytes that prefix and payload take together. The buffer is truncated
/// where it is shorter than the prefix or than the length the prefix
/// announces.
pub fn read_vec(buffer: &[u8]) -> (result: Result<(Vec<u8>, usize), DecodeError>)
    ensures
        match result {
            Ok((payload, taken)) => {
                &&& parse_frame(buffer@) == Ok::<(Seq<u8>, nat), DecodeError>(
                    (payload@, taken as nat),
                )
                &&& taken == 4 + payload@.len()
                &&& taken <= buffer@.len()
            },
            Err(e) => parse_frame(buffer@) == Err::<(Seq<u8>, nat), DecodeError>(e),
        },
{
    reveal(parse_frame);
    let size: usize = match read_int_be(buffer) {
        Ok(n) => n as usize,
        Err(e) => {
            return Err(e);
        },
    };
    if buffer.len() - 4 < size {
        return Err(DecodeError::TruncatedInput);
    }
    let end: usize = size + 4;
    let mut value: Vec<u8> = Vec::new();
    let mut i: usize = 4;
    while i < end
        invariant
            4 <= i <= end <= buffer@.len(),
            value@ == buffer@.subrange(4, i as int),
        decreases end - i,
    {
        value.push(buffer[i]);
        i += 1;
        assert(buffer@.subrange(4, i as int) =~= buffer@.subrange(4, i - 1).push(buffer@[i - 1]));
    }
    Ok((value, end))
}

} // verus!
