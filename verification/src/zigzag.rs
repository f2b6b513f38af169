//! The zigzag bijection between signed and unsigned integers of one width:
//! small magnitudes map to small unsigned values, so a varint stays short.
//! `0 -> 0`, `-1 -> 1`, `1 -> 2`, `-2 -> 3`, and so on.

use vstd::prelude::*;

verus! {

/// The zigzag image of a signed value, as unbounded arithmetic: a value of
/// width `W` lands in the unsigned range of the same width.
pub open spec fn zz_enc(n: int) -> int {
    if n >= 0 {
        2 * n
    } else {
        -2 * n - 1
    }
}

/// The signed value a zigzag image stands for.
pub open spec fn zz_dec(u: int) -> int {
    if u % 2 == 0 {
        u / 2
    } else {
        -((u + 1) / 2)
    }
}

/// Zigzag round trip: decoding an encoding gives the value back.
pub proof fn lemma_zigzag_round_trip(n: int)
    ensures
        zz_dec(zz_enc(n)) == n,
{
}

/// Zigzag is a bijection: encoding a decoding gives the image back.
pub proof fn lemma_zigzag_inverse(u: int)
    requires
        u >= 0,
    ensures
        zz_enc(zz_dec(u)) == u,
{
}

/// Encode an `i16`.
pub fn encode_i16(n: i16) -> (r: u16)
    ensures
        r == zz_enc(n as int),
{
    if n >= 0 {
        (n as u16) * 2
    } else {
        ((-(n + 1)) as u16) * 2 + 1
    }
}

/// Decode to an `i16`.
pub fn decode_i16(u: u16) -> (r: i16)
    ensures
        r == zz_dec(u as int),
{
    if u % 2 == 0 {
        (u / 2) as i16
    } else {
        -(((u - 1) / 2) as i16) - 1
    }
}

/// Encode an `i32`.
pub fn encode_i32(n: i32) -> (r: u32)
    ensures
        r == zz_enc(n as int),
{
    if n >= 0 {
        (n as u32) * 2
    } else {
        ((-(n + 1)) as u32) * 2 + 1
    }
}

/// Decode to an `i32`.
pub fn decode_i32(u: u32) -> (r: i32)
    ensures
        r == zz_dec(u as int),
{
    if u % 2 == 0 {
        (u / 2) as i32
    } else {
        -(((u - 1) / 2) as i32) - 1
    }
}

/// Encode an `i64`.
pub fn encode_i64(n: i64) -> (r: u64)
    ensures
        r == zz_enc(n as int),
{
    if n >= 0 {
        (n as u64) * 2
    } else {
        ((-(n + 1)) as u64) * 2 + 1
    }
}

/// Decode to an `i64`.
pub fn decode_i64(u: u64) -> (r: i64)
    ensures
        r == zz_dec(u as int),
{
    if u % 2 == 0 {
        (u / 2) as i64
    } else {
        -(((u - 1) / 2) as i64) - 1
    }
}

/// Encode an `i128`.
pub fn encode_i128(n: i128) -> (r: u128)
    ensures
        r == zz_enc(n as int),
{
    if n >= 0 {
        (n as u128) * 2
    } else {
        ((-(n + 1)) as u128) * 2 + 1
    }
}

/// Decode to an `i128`.
pub fn decode_i128(u: u128) -> (r: i128)
    ensures
        r == zz_dec(u as int),
{
    if u % 2 == 0 {
        (u / 2) as i128
    } else {
        -(((u - 1) / 2) as i128) - 1
    }
}

/// Encode an `isize`.
pub fn encode_isize(n: isize) -> (r: usize)
    ensures
        r == zz_enc(n as int),
{
    if n >= 0 {
        (n as usize) * 2
    } else {
        ((-(n + 1)) as usize) * 2 + 1
    }
}

/// Decode to an `isize`.
pub fn decode_isize(u: usize) -> (r: isize)
    ensures
        r == zz_dec(u as int),
{
    if u % 2 == 0 {
        (u / 2) as isize
    } else {
        -(((u - 1) / 2) as isize) - 1
    }
}

} // verus!
