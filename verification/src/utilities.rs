use vstd::prelude::*;
use vstd::pervasive::unreached;
use vstd::slice::slice_index_get;
use crate::errors::CscError;

verus! {

/// Relies on char::from_u32: yields the character with the given code point
/// exactly when the code point is not a surrogate and not above the maximum
/// Unicode scalar value.
pub assume_specification[ char::from_u32 ](i: u32) -> (r: Option<char>)
    ensures
        r is Some <==> (i < 0xD800 || (0xE000 <= i && i < 0x110000)),
        r is Some ==> r->Some_0 as u32 == i,
;

/// Relies on String::push: appends the given character to the end of the
/// string.
pub assume_specification[ String::push ](s: &mut String, c: char)
    ensures
        final(s)@ == old(s)@.push(c),
;

/// The character with the same code point as the byte.
pub open spec fn byte_to_char(b: u8) -> char {
    (b as u32) as char
}

/// Each byte read as the character with the same code point.
pub open spec fn bytes_to_chars(b: Seq<u8>) -> Seq<char> {
    Seq::new(b.len(), |i: int| byte_to_char(b[i]))
}

/// Maps every byte to the character with the same code point, one character
/// per byte; never fails, since every byte value is a valid code point.
pub fn from_ut8_unaligned(bytes: &[u8]) -> (r: Result<String, CscError>)
    ensures
        r is Ok,
        r->Ok_0@ == bytes_to_chars(bytes@),
{
    let mut result = String::new();
    let mut i: usize = 0;
    while i < bytes.len()
        invariant
            i <= bytes@.len(),
            result@ == bytes_to_chars(bytes@).take(i as int),
        decreases bytes@.len() - i,
    {
        let b: u8 = *slice_index_get(bytes, i);
        match char::from_u32(b as u32) {
            Some(c) => {
                result.push(c);
                proof {
                    vstd::utf8::char_u32_cast(c, b as u32);
                    assert(c == byte_to_char(b));
                    assert(bytes_to_chars(bytes@).take(i + 1) =~= bytes_to_chars(
                        bytes@,
                    ).take(i as int).push(byte_to_char(b)));
                }
            },
            None => {
                return unreached();
            },
        }
        i = i + 1;
    }
    proof {
        assert(bytes_to_chars(bytes@).take(bytes@.len() as int) =~= bytes_to_chars(bytes@));
    }
    Ok(result)
}

/// The signed 16-bit value whose two's-complement bits equal `u`.
pub open spec fn spec_i16_from_u16(u: u16) -> i16 {
    if u < 0x8000 {
        u as i16
    } else {
        (u - 0x10000) as i16
    }
}

/// The unsigned 16-bit value whose bits equal the two's-complement form of `i`.
pub open spec fn spec_u16_from_i16(i: i16) -> u16 {
    if i >= 0 {
        i as u16
    } else {
        (i + 0x10000) as u16
    }
}

/// The signed 32-bit value whose two's-complement bits equal `u`.
pub open spec fn spec_i32_from_u32(u: u32) -> i32 {
    if u < 0x8000_0000 {
        u as i32
    } else {
        (u - 0x1_0000_0000) as i32
    }
}

/// The unsigned 32-bit value whose bits equal the two's-complement form of `i`.
pub open spec fn spec_u32_from_i32(i: i32) -> u32 {
    if i >= 0 {
        i as u32
    } else {
        (i + 0x1_0000_0000) as u32
    }
}

pub fn i16_from_u16(u: u16) -> (r: i16)
    ensures
        r == spec_i16_from_u16(u),
{
    if u < 0x8000 {
        u as i16
    } else {
        let d: i32 = 0x10000 - u as i32;
        (-d) as i16
    }
}

pub fn u16_from_i16(i: i16) -> (r: u16)
    ensures
        r == spec_u16_from_i16(i),
{
    if i >= 0 {
        i as u16
    } else {
        let v: i32 = i as i32 + 0x10000;
        v as u16
    }
}

pub fn i32_from_u32(u: u32) -> (r: i32)
    ensures
        r == spec_i32_from_u32(u),
{
    if u < 0x8000_0000 {
        u as i32
    } else {
        let d: i64 = 0x1_0000_0000 - u as i64;
        (-d) as i32
    }
}

pub fn u32_from_i32(i: i32) -> (r: u32)
    ensures
        r == spec_u32_from_i32(i),
{
    if i >= 0 {
        i as u32
    } else {
        let v: i64 = i as i64 + 0x1_0000_0000;
        v as u32
    }
}

/// Reinterpreting 16 bits as signed and back is the identity.
pub proof fn lemma_u16_i16_round_trip(u: u16)
    ensures
        spec_u16_from_i16(spec_i16_from_u16(u)) == u,
{
}

/// Reinterpreting a signed 16-bit value as unsigned and back is the identity.
pub proof fn lemma_i16_u16_round_trip(i: i16)
    ensures
        spec_i16_from_u16(spec_u16_from_i16(i)) == i,
{
}

/// Reinterpreting 32 bits as signed and back is the identity.
pub proof fn lemma_u32_i32_round_trip(u: u32)
    ensures
        spec_u32_from_i32(spec_i32_from_u32(u)) == u,
{
}

/// Reinterpreting a signed 32-bit value as unsigned and back is the identity.
pub proof fn lemma_i32_u32_round_trip(i: i32)
    ensures
        spec_i32_from_u32(spec_u32_from_i32(i)) == i,
{
}

} // verus!
