//! The bit-packing transforms applied to integral values: on read the raw
//! word is masked and then shifted right in the variant's native width and
//! signedness — sign-propagating for the signed widths, zero-filling for
//! the unsigned 32-bit width; on write the value is shifted left and
//! masked. Shift amounts are taken modulo the width and masks are
//! truncated to the width, as wrapping integer operations would do.

use vstd::prelude::*;

verus! {

/// Sign-propagating right shift of a 32-bit pattern by `s < 32` places.
pub open spec fn spec_sar32(x: u32, s: u32) -> u32
    recommends
        s < 32,
{
    if x >> 31 == 0 {
        x >> s
    } else {
        (x >> s) | !(u32::MAX >> s)
    }
}

/// Sign-propagating right shift of a 16-bit pattern by `s < 16` places.
pub open spec fn spec_sar16(x: u16, s: u16) -> u16
    recommends
        s < 16,
{
    if x >> 15 == 0 {
        x >> s
    } else {
        (x >> s) | !(u16::MAX >> s)
    }
}

/// Sign-propagating right shift of an 8-bit pattern by `s < 8` places.
pub open spec fn spec_sar8(x: u8, s: u8) -> u8
    recommends
        s < 8,
{
    if x >> 7 == 0 {
        x >> s
    } else {
        (x >> s) | !(u8::MAX >> s)
    }
}

/// The unsigned 32-bit pattern of a signed value (two's complement).
pub open spec fn as_u32_spec(l: i32) -> u32 {
    if l >= 0 {
        l as u32
    } else {
        (l + 0x1_0000_0000) as u32
    }
}

/// The signed reading of an unsigned 32-bit pattern (two's complement).
pub open spec fn as_i32_spec(x: u32) -> i32 {
    if x < 0x8000_0000 {
        x as i32
    } else {
        (x - 0x1_0000_0000) as i32
    }
}

/// The unsigned 16-bit pattern of a signed value (two's complement).
pub open spec fn as_u16_spec(l: i16) -> u16 {
    if l >= 0 {
        l as u16
    } else {
        (l + 0x1_0000) as u16
    }
}

/// The signed reading of an unsigned 16-bit pattern (two's complement).
pub open spec fn as_i16_spec(x: u16) -> i16 {
    if x < 0x8000 {
        x as i16
    } else {
        (x - 0x1_0000) as i16
    }
}

/// The unsigned 8-bit pattern of a signed value (two's complement).
pub open spec fn as_u8_spec(l: i8) -> u8 {
    if l >= 0 {
        l as u8
    } else {
        (l + 0x100) as u8
    }
}

/// The signed reading of an unsigned 8-bit pattern (two's complement).
pub open spec fn as_i8_spec(x: u8) -> i8 {
    if x < 0x80 {
        x as i8
    } else {
        (x - 0x100) as i8
    }
}

/// Reinterprets a signed 32-bit value as its bit pattern.
pub fn i32_to_u32(l: i32) -> (r: u32)
    ensures
        r == as_u32_spec(l),
{
    if l >= 0 {
        l as u32
    } else {
        u32::MAX - ((-1i32 - l) as u32)
    }
}

/// Reinterprets a 32-bit pattern as a signed value.
pub fn u32_to_i32(x: u32) -> (r: i32)
    ensures
        r == as_i32_spec(x),
{
    if x < 0x8000_0000 {
        x as i32
    } else {
        -1i32 - ((u32::MAX - x) as i32)
    }
}

/// Reinterprets a signed 16-bit value as its bit pattern.
pub fn i16_to_u16(l: i16) -> (r: u16)
    ensures
        r == as_u16_spec(l),
{
    if l >= 0 {
        l as u16
    } else {
        u16::MAX - ((-1i16 - l) as u16)
    }
}

/// Reinterprets a 16-bit pattern as a signed value.
pub fn u16_to_i16(x: u16) -> (r: i16)
    ensures
        r == as_i16_spec(x),
{
    if x < 0x8000 {
        x as i16
    } else {
        -1i16 - ((u16::MAX - x) as i16)
    }
}

/// Reinterprets a signed 8-bit value as its bit pattern.
pub fn i8_to_u8(l: i8) -> (r: u8)
    ensures
        r == as_u8_spec(l),
{
    if l >= 0 {
        l as u8
    } else {
        u8::MAX - ((-1i8 - l) as u8)
    }
}

/// Reinterprets an 8-bit pattern as a signed value.
pub fn u8_to_i8(x: u8) -> (r: i8)
    ensures
        r == as_i8_spec(x),
{
    if x < 0x80 {
        x as i8
    } else {
        -1i8 - ((u8::MAX - x) as i8)
    }
}

/// The two reinterpretations of one width undo each other.
pub proof fn lemma_reinterpret_round_trip()
    ensures
        forall|l: i32| #[trigger] as_i32_spec(as_u32_spec(l)) == l,
        forall|x: u32| #[trigger] as_u32_spec(as_i32_spec(x)) == x,
        forall|l: i16| #[trigger] as_i16_spec(as_u16_spec(l)) == l,
        forall|x: u16| #[trigger] as_u16_spec(as_i16_spec(x)) == x,
        forall|l: i8| #[trigger] as_i8_spec(as_u8_spec(l)) == l,
        forall|x: u8| #[trigger] as_u8_spec(as_i8_spec(x)) == x,
{
}

/// The read transform on a signed 32-bit value's pattern: mask, then
/// sign-propagating shift right.
pub open spec fn spec_read32(x: u32, mask: u32, shift: u8) -> u32 {
    spec_sar32(x & mask, (shift % 32) as u32)
}

/// The read transform on an unsigned 32-bit value: mask, then
/// zero-filling shift right.
pub open spec fn spec_read32u(x: u32, mask: u32, shift: u8) -> u32 {
    (x & mask) >> ((shift % 32) as u32)
}

/// The write transform on a 32-bit pattern: shift left, then mask.
pub open spec fn spec_write32(x: u32, mask: u32, shift: u8) -> u32 {
    (x << ((shift % 32) as u32)) & mask
}

/// The read transform on a 16-bit pattern: mask, then shift right.
pub open spec fn spec_read16(x: u16, mask: u32, shift: u8) -> u16 {
    spec_sar16(x & (mask as u16), (shift % 16) as u16)
}

/// The write transform on a 16-bit pattern: shift left, then mask.
pub open spec fn spec_write16(x: u16, mask: u32, shift: u8) -> u16 {
    (x << ((shift % 16) as u16)) & (mask as u16)
}

/// The read transform on an 8-bit pattern: mask, then shift right.
pub open spec fn spec_read8(x: u8, mask: u32, shift: u8) -> u8 {
    spec_sar8(x & (mask as u8), shift % 8)
}

/// The write transform on an 8-bit pattern: shift left, then mask.
pub open spec fn spec_write8(x: u8, mask: u32, shift: u8) -> u8 {
    (x << (shift % 8)) & (mask as u8)
}

/// Executes the signed 32-bit read transform.
pub fn read_transform32(x: u32, mask: u32, shift: u8) -> (r: u32)
    ensures
        r == spec_read32(x, mask, shift),
{
    let s: u32 = (shift % 32) as u32;
    let m = x & mask;
    if m >> 31 == 0 {
        m >> s
    } else {
        (m >> s) | !(u32::MAX >> s)
    }
}

/// Executes the unsigned 32-bit read transform.
pub fn read_transform32u(x: u32, mask: u32, shift: u8) -> (r: u32)
    ensures
        r == spec_read32u(x, mask, shift),
{
    let s: u32 = (shift % 32) as u32;
    (x & mask) >> s
}

/// Executes the 32-bit write transform.
pub fn write_transform32(x: u32, mask: u32, shift: u8) -> (r: u32)
    ensures
        r == spec_write32(x, mask, shift),
{
    let s: u32 = (shift % 32) as u32;
    (x << s) & mask
}

/// Executes the 16-bit read transform.
pub fn read_transform16(x: u16, mask: u32, shift: u8) -> (r: u16)
    ensures
        r == spec_read16(x, mask, shift),
{
    let s: u16 = (shift % 16) as u16;
    let m = x & (mask as u16);
    if m >> 15 == 0 {
        m >> s
    } else {
        (m >> s) | !(u16::MAX >> s)
    }
}

/// Executes the 16-bit write transform.
pub fn write_transform16(x: u16, mask: u32, shift: u8) -> (r: u16)
    ensures
        r == spec_write16(x, mask, shift),
{
    let s: u16 = (shift % 16) as u16;
    (x << s) & (mask as u16)
}

/// Executes the 8-bit read transform.
pub fn read_transform8(x: u8, mask: u32, shift: u8) -> (r: u8)
    ensures
        r == spec_read8(x, mask, shift),
{
    let s: u8 = shift % 8;
    let m = x & (mask as u8);
    if m >> 7 == 0 {
        m >> s
    } else {
        (m >> s) | !(u8::MAX >> s)
    }
}

/// Executes the 8-bit write transform.
pub fn write_transform8(x: u8, mask: u32, shift: u8) -> (r: u8)
    ensures
        r == spec_write8(x, mask, shift),
{
    let s: u8 = shift % 8;
    (x << s) & (mask as u8)
}

/// Applying the write transform to the result of the read transform gives
/// back the masked input, in either 32-bit signedness, provided the mask
/// keeps no bit below the shift (the bits a round trip necessarily
/// drops).
pub proof fn lemma_mask_shift_idempotent32(x: u32, m: u32, s: u8)
    requires
        s < 32,
        ((x & m) >> (s as u32)) << (s as u32) == x & m,
    ensures
        spec_write32(spec_read32(x, m, s), m, s) == x & m,
        spec_write32(spec_read32u(x, m, s), m, s) == x & m,
{
    assert(spec_write32(spec_read32(x, m, s), m, s) == x & m && spec_write32(
        spec_read32u(x, m, s),
        m,
        s,
    ) == x & m) by (bit_vector)
        requires
            s < 32,
            ((x & m) >> (s as u32)) << (s as u32) == x & m,
    ;
}

/// The 16-bit form of the same round trip, over the truncated mask.
pub proof fn lemma_mask_shift_idempotent16(x: u16, m: u32, s: u8)
    requires
        s < 16,
        ((x & (m as u16)) >> (s as u16)) << (s as u16) == x & (m as u16),
    ensures
        spec_write16(spec_read16(x, m, s), m, s) == x & (m as u16),
{
    assert(spec_write16(spec_read16(x, m, s), m, s) == x & (m as u16)) by (bit_vector)
        requires
            s < 16,
            ((x & (m as u16)) >> (s as u16)) << (s as u16) == x & (m as u16),
    ;
}

/// The 8-bit form of the same round trip, over the truncated mask.
pub proof fn lemma_mask_shift_idempotent8(x: u8, m: u32, s: u8)
    requires
        s < 8,
        ((x & (m as u8)) >> s) << s == x & (m as u8),
    ensures
        spec_write8(spec_read8(x, m, s), m, s) == x & (m as u8),
{
    assert(spec_write8(spec_read8(x, m, s), m, s) == x & (m as u8)) by (bit_vector)
        requires
            s < 8,
            ((x & (m as u8)) >> s) << s == x & (m as u8),
    ;
}

} // verus!
