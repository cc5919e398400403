//! Little-endian integers and NUL-terminated strings inside a byte region.

use vstd::prelude::*;
use vstd::utf8::{decode_utf8, valid_utf8};

verus! {

/// The unsigned 16-bit little-endian integer stored at `s[i..i + 2]`.
pub open spec fn le_u16(s: Seq<u8>, i: int) -> int {
    s[i] as int + 0x100 * (s[i + 1] as int)
}

/// The unsigned 32-bit little-endian integer stored at `s[i..i + 4]`.
pub open spec fn le_u32(s: Seq<u8>, i: int) -> int {
    s[i] as int + 0x100 * (s[i + 1] as int) + 0x1_0000 * (s[i + 2] as int) + 0x100_0000 * (s[i
        + 3] as int)
}

/// The two's-complement reading of an unsigned 16-bit value.
pub open spec fn signed16(v: int) -> int {
    if v < 0x8000 {
        v
    } else {
        v - 0x1_0000
    }
}

/// The two's-complement reading of an unsigned 32-bit value.
pub open spec fn signed32(v: int) -> int {
    if v < 0x8000_0000 {
        v
    } else {
        v - 0x1_0000_0000
    }
}

/// The signed 16-bit little-endian integer stored at `s[i..i + 2]`.
pub open spec fn le_i16(s: Seq<u8>, i: int) -> int {
    signed16(le_u16(s, i))
}

/// The signed 32-bit little-endian integer stored at `s[i..i + 4]`.
pub open spec fn le_i32(s: Seq<u8>, i: int) -> int {
    signed32(le_u32(s, i))
}

/// Distance from `start` to the first NUL byte at or after it, or to `limit`
/// when no NUL byte occurs before `limit`.
pub open spec fn nul_distance(s: Seq<u8>, start: int, limit: int) -> int
    decreases limit - start,
{
    if start >= limit || s[start] == 0 {
        0
    } else {
        1 + nul_distance(s, start + 1, limit)
    }
}

/// Reads the unsigned 16-bit integer at offset `i`.
pub fn unpack_u16(data: &[u8], i: usize) -> (r: u16)
    requires
        i + 2 <= data@.len(),
    ensures
        r == le_u16(data@, i as int),
{
    let b0: u16 = data[i] as u16;
    let b1: u16 = data[i + 1] as u16;
    b0 + 0x100 * b1
}

/// Reads the unsigned 32-bit integer at offset `i`.
pub fn unpack_u32(data: &[u8], i: usize) -> (r: u32)
    requires
        i + 4 <= data@.len(),
    ensures
        r == le_u32(data@, i as int),
{
    let b0: u32 = data[i] as u32;
    let b1: u32 = data[i + 1] as u32;
    let b2: u32 = data[i + 2] as u32;
    let b3: u32 = data[i + 3] as u32;
    b0 + 0x100 * b1 + 0x1_0000 * b2 + 0x100_0000 * b3
}

/// Reads the signed 16-bit integer at offset `i`.
pub fn unpack_i16(data: &[u8], i: usize) -> (r: i16)
    requires
        i + 2 <= data@.len(),
    ensures
        r == le_i16(data@, i as int),
{
    let v: u16 = unpack_u16(data, i);
    if v < 0x8000 {
        v as i16
    } else {
        let low: i16 = (v - 0x8000) as i16;
        low + i16::MIN
    }
}

/// Reads the signed 32-bit integer at offset `i`.
pub fn unpack_i32(data: &[u8], i: usize) -> (r: i32)
    requires
        i + 4 <= data@.len(),
    ensures
        r == le_i32(data@, i as int),
{
    let v: u32 = unpack_u32(data, i);
    if v < 0x8000_0000 {
        v as i32
    } else {
        let low: i32 = (v - 0x8000_0000) as i32;
        low + i32::MIN
    }
}

/// Length of the NUL-terminated string that starts at `start`, cut at `limit`.
pub fn nul_terminated_len(data: &[u8], start: usize, limit: usize) -> (len: usize)
    requires
        start <= limit <= data@.len(),
    ensures
        len == nul_distance(data@, start as int, limit as int),
        start + len <= limit,
        start + len < limit ==> data@[start + len] == 0,
        forall|k: int| start <= k < start + len ==> data@[k] != 0,
{
    let mut end: usize = start;
    while end < limit && data[end] != 0
        invariant
            start <= end <= limit <= data@.len(),
            forall|k: int| start <= k < end ==> data@[k] != 0,
            nul_distance(data@, start as int, limit as int) == (end - start) + nul_distance(
                data@,
                end as int,
                limit as int,
            ),
        decreases limit - end,
    {
        end = end + 1;
    }
    end - start
}

/// The text that `bytes` encode, where they are valid UTF-8.
///
/// Calls `String::from_utf8` of the standard library on a copy of the bytes.
/// The contract states what its documentation promises: it succeeds exactly
/// on valid UTF-8, and the string it returns holds the characters that the
/// bytes encode.
#[verifier::external_body]
pub(crate) fn string_from_utf8(bytes: &[u8]) -> (r: Option<String>)
    ensures
        r is Some <==> valid_utf8(bytes@),
        r matches Some(text) ==> text@ == decode_utf8(bytes@),
{
    String::from_utf8(bytes.to_vec()).ok()
}

} // verus!
