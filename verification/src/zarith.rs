//! Signed integers of variable length: sign and magnitude, the low six bits
//! of the magnitude in the first byte, seven more in each byte that
//! follows, least significant group first.

use vstd::prelude::*;
use crate::error::DecodeError;

verus! {

/// The largest magnitude that an integer of a tree may have.
pub const MAX_MAGNITUDE: u64 = 0x7fff_ffff;

/// Where the reader stops counting: any magnitude from here on is too large.
const SATURATED: u64 = 0x8000_0000;

/// Whether `v` is an integer that a tree may hold: its magnitude fits.
pub open spec fn in_range(v: int) -> bool {
    -0x7fff_ffff <= v <= 0x7fff_ffff
}

/// The magnitude of `v`.
pub open spec fn magnitude(v: int) -> nat {
    if v < 0 {
        (-v) as nat
    } else {
        v as nat
    }
}

/// The bytes that follow the first one: seven bits of `m` each, least
/// significant group first, the top bit set on all but the last. Nothing
/// follows where `m` is zero.
pub open spec fn groups(m: nat) -> Seq<u8>
    decreases m,
{
    if m == 0 {
        Seq::empty()
    } else {
        seq![(m % 128 + if m >= 128 { 128int } else { 0 }) as u8] + groups(m / 128)
    }
}

/// The first byte: the low six bits of the magnitude, the sign in bit 6,
/// and bit 7 set where more bytes follow.
pub open spec fn first_byte(v: int) -> u8 {
    let m = magnitude(v);
    (m % 64 + (if v < 0 { 64int } else { 0 }) + (if m >= 64 { 128int } else { 0 })) as u8
}

/// The bytes of `v`.
pub open spec fn zarith(v: int) -> Seq<u8> {
    seq![first_byte(v)] + groups(magnitude(v) / 64)
}

/// The number that a run of groups at the front of `bytes` stands for, with
/// the length of the run. The run ends with the first byte whose top bit is
/// clear; there is none where every byte has it set.
pub open spec fn parse_groups(bytes: Seq<u8>) -> Option<(nat, nat)>
    decreases bytes.len(),
{
    if bytes.len() == 0 {
        None
    } else if bytes[0] < 128 {
        Some((bytes[0] as nat, 1))
    } else {
        match parse_groups(bytes.skip(1)) {
            None => None,
            Some((m, taken)) => Some((((bytes[0] - 128) + 128 * m) as nat, taken + 1)),
        }
    }
}

/// The integer at the front of `bytes`, with the number of bytes it takes.
/// The input is truncated where it ends before a byte with a clear top bit;
/// an integer whose magnitude does not fit is out of range.
#[verifier::opaque]
pub open spec fn parse_zarith(bytes: Seq<u8>) -> Result<(int, nat), DecodeError> {
    if bytes.len() == 0 {
        Err(DecodeError::TruncatedInput)
    } else {
        let low = bytes[0] % 64;
        let negative = (bytes[0] / 64) % 2 == 1;
        let rest = if bytes[0] >= 128 {
            parse_groups(bytes.skip(1))
        } else {
            Some((0nat, 0nat))
        };
        match rest {
            None => Err(DecodeError::TruncatedInput),
            Some((high, taken)) => {
                let m = low + 64 * high;
                if m > 0x7fff_ffff {
                    Err(DecodeError::IntegerOutOfRange)
                } else if negative {
                    Ok((-m, taken + 1))
                } else {
                    Ok((m, taken + 1))
                }
            },
        }
    }
}

/// A run of groups written from a positive number reads back as that
/// number, whatever follows it.
pub proof fn lemma_parse_groups(m: nat, rest: Seq<u8>)
    requires
        m > 0,
    ensures
        parse_groups(groups(m) + rest) == Some((m, groups(m).len())),
    decreases m,
{
    let s = groups(m) + rest;
    let head = (m % 128 + if m >= 128 { 128int } else { 0 }) as u8;
    assert(s[0] == head);
    if m >= 128 {
        lemma_parse_groups(m / 128, rest);
        assert(s.skip(1) =~= groups(m / 128) + rest);
    } else {
        assert(groups(m / 128) =~= Seq::<u8>::empty());
    }
}

/// Every integer in range reads back as itself, whatever follows its bytes.
pub proof fn lemma_parse_zarith(v: int, rest: Seq<u8>)
    requires
        in_range(v),
    ensures
        parse_zarith(zarith(v) + rest) == Ok::<(int, nat), DecodeError>((v, zarith(v).len())),
{
    reveal(parse_zarith);
    let m = magnitude(v);
    let s = zarith(v) + rest;
    assert(s[0] == first_byte(v));
    if m >= 64 {
        lemma_parse_groups(m / 64, rest);
        assert(s.skip(1) =~= groups(m / 64) + rest);
    } else {
        assert(groups(m / 64) =~= Seq::<u8>::empty());
    }
}

/// A run of groups ends within the input.
pub proof fn lemma_parse_groups_taken(bytes: Seq<u8>)
    ensures
        parse_groups(bytes) matches Some((_, taken)) ==> 1 <= taken <= bytes.len(),
    decreases bytes.len(),
{
    if bytes.len() > 0 && bytes[0] >= 128 {
        lemma_parse_groups_taken(bytes.skip(1));
    }
}

/// An integer ends within the input, and its magnitude fits.
pub proof fn lemma_parse_zarith_taken(bytes: Seq<u8>)
    ensures
        parse_zarith(bytes) matches Ok((v, taken)) ==> 1 <= taken <= bytes.len() && in_range(v),
{
    reveal(parse_zarith);
    if bytes.len() > 0 {
        lemma_parse_groups_taken(bytes.skip(1));
    }
}

/// A run that never clears the top bit has no end.
proof fn lemma_parse_groups_unending(bytes: Seq<u8>, from: int)
    requires
        0 <= from <= bytes.len(),
        forall|j: int| from <= j < bytes.len() ==> bytes[j] >= 128,
    ensures
        parse_groups(bytes.skip(from)) is None,
    decreases bytes.len() - from,
{
    if from < bytes.len() {
        lemma_parse_groups_unending(bytes, from + 1);
        assert(bytes.skip(from).skip(1) =~= bytes.skip(from + 1));
    }
}

/// Appends the bytes of `value` and returns how many they are.
pub fn write_zarith(buffer: &mut Vec<u8>, value: i32) -> (written: usize)
    requires
        in_range(value as int),
    ensures
        final(buffer)@ == old(buffer)@ + zarith(value as int),
        written == zarith(value as int).len(),
{
    let sign: bool = value < 0;
    let mut size: usize = 0;
    let mut rest: u32 = if sign {
        (-(value as i64)) as u32
    } else {
        value as u32
    };
    let mut first: u8 = if rest > 0x3f {
        (rest % 0x40 + 0x80) as u8
    } else {
        (rest % 0x40) as u8
    };
    if sign {
        first = first + 0x40;
    }
    buffer.push(first);
    size += 1;
    rest = rest / 0x40;
    assert(buffer@ + groups(rest as nat) =~= old(buffer)@ + zarith(value as int));
    while rest != 0
        invariant
            size >= 1,
            buffer@.len() == old(buffer)@.len() + size,
            old(buffer)@ + zarith(value as int) == buffer@ + groups(rest as nat),
        decreases rest,
    {
        let byte: u8 = if rest > 0x7f {
            (rest % 0x80 + 0x80) as u8
        } else {
            (rest % 0x80) as u8
        };
        assert(buffer@ + groups(rest as nat) =~= buffer@.push(byte) + groups(
            (rest / 0x80) as nat,
        ));
        buffer.push(byte);
        assert(buffer.len() <= usize::MAX);
        size += 1;
        rest = rest / 0x80;
    }
    assert(buffer@ + groups(0) =~= buffer@);
    size
}

/// Reads the integer at the front of `buffer`, with the number of bytes it
/// takes. Any number of groups is read; what counts is the magnitude they
/// add up to.
pub fn read_zarith(buffer: &[u8]) -> (result: Result<(i32, usize), DecodeError>)
    ensures
        match result {
            Ok((value, taken)) => {
                &&& parse_zarith(buffer@) == Ok::<(int, nat), DecodeError>(
                    (value as int, taken as nat),
                )
                &&& 1 <= taken <= buffer@.len()
            },
            Err(e) => parse_zarith(buffer@) == Err::<(int, nat), DecodeError>(e),
        },
{
    reveal(parse_zarith);
    if buffer.len() == 0 {
        return Err(DecodeError::TruncatedInput);
    }
    let first: u8 = buffer[0];
    let low: u64 = (first % 0x40) as u64;
    let sign: bool = (first / 0x40) % 2 == 1;
    let mut high: u64 = 0;
    let mut index: usize = 1;
    let ghost mut exact: nat = 0;
    if first >= 0x80 {
        let mut end: usize = 1;
        while end < buffer.len() && buffer[end] >= 0x80
            invariant
                1 <= end <= buffer@.len(),
                forall|j: int| 1 <= j < end ==> buffer@[j] >= 128,
            decreases buffer@.len() - end,
        {
            end += 1;
        }
        if end == buffer.len() {
            proof {
                lemma_parse_groups_unending(buffer@, 1);
            }
            return Err(DecodeError::TruncatedInput);
        }
        high = buffer[end] as u64;
        proof {
            exact = buffer@[end as int] as nat;
        }
        let mut i: usize = end;
        while i > 1
            invariant
                1 <= i <= end < buffer@.len(),
                forall|j: int| 1 <= j < end ==> buffer@[j] >= 128,
                parse_groups(buffer@.skip(i as int)) == Some((exact, (end - i + 1) as nat)),
                high <= SATURATED,
                high == if exact < SATURATED { exact } else { SATURATED as nat },
            decreases i,
        {
            i -= 1;
            let group: u64 = (buffer[i] - 0x80) as u64;
            high = group + 0x80 * high;
            if high > SATURATED {
                high = SATURATED;
            }
            proof {
                assert(buffer@.skip(i as int).skip(1) =~= buffer@.skip(i + 1));
                exact = (group + 128 * exact) as nat;
            }
        }
        index = end + 1;
    }
    let total: u64 = low + 0x40 * high;
    if total > MAX_MAGNITUDE {
        Err(DecodeError::IntegerOutOfRange)
    } else if sign {
        Ok((-(total as i32), index))
    } else {
        Ok((total as i32, index))
    }
}

} // verus!
