//! The name-hash recurrence used by the format, and the lookup table that
//! maps a hash back to a human-readable field name.

use vstd::prelude::*;
use vstd::string::StringSliceAdditionalSpecFns;

verus! {

/// The modulus of 32-bit wrapping arithmetic.
pub open spec fn wrap32(x: int) -> u32 {
    (x % 0x1_0000_0000) as u32
}

/// The hash of a byte sequence: starting from 0, each byte `b` takes the
/// accumulator `h` to `b + h * 31`, wrapping at 32 bits.
pub open spec fn calchash_spec(bytes: Seq<u8>) -> u32
    decreases bytes.len(),
{
    if bytes.len() == 0 {
        0u32
    } else {
        wrap32(bytes.last() as int + calchash_spec(bytes.drop_last()) as int * 0x1f)
    }
}

/// Computes the 32-bit name hash of `text`: `h = b + h*31` (wrapping) over
/// the UTF-8 bytes of the name.
pub fn calchash(text: &str) -> (r: u32)
    ensures
        r == calchash_spec(text.spec_bytes()),
{
    let bytes = text.as_bytes();
    let n = bytes.len();
    let mut output: u32 = 0;
    let mut i: usize = 0;
    while i != n
        invariant
            i <= n,
            n == bytes@.len(),
            bytes@ == text.spec_bytes(),
            output == calchash_spec(bytes@.take(i as int)),
        decreases n - i,
    {
        proof {
            assert(bytes@.take(i as int + 1).drop_last() =~= bytes@.take(i as int));
            assert(bytes@.take(i as int + 1).last() == bytes@[i as int]);
        }
        output = (bytes[i] as u32).wrapping_add(output.wrapping_mul(0x1f));
        i += 1;
    }
    proof {
        assert(bytes@.take(n as int) =~= bytes@);
    }
    output
}

/// The hash of the empty name is zero.
pub proof fn lemma_hash_empty()
    ensures
        calchash_spec(Seq::<u8>::empty()) == 0,
{
}

/// The modulus of the older hash recurrence.
pub const OLD_HASH_MOD: u32 = 33554393;

/// The older hash of a byte sequence: each byte `b` takes the accumulator
/// `h` to `(b * 256 + h) mod 33554393`.
pub open spec fn calc_old_hash_spec(bytes: Seq<u8>) -> u32
    decreases bytes.len(),
{
    if bytes.len() == 0 {
        0u32
    } else {
        (((bytes.last() as int) * 0x100 + calc_old_hash_spec(bytes.drop_last()) as int) % (
        OLD_HASH_MOD as int)) as u32
    }
}

/// Computes the older 24-bit-range name hash of `text`:
/// `h = (b << 8 + h) mod 33554393` over the UTF-8 bytes of the name.
pub fn calc_old_hash(text: &str) -> (r: u32)
    ensures
        r == calc_old_hash_spec(text.spec_bytes()),
{
    let bytes = text.as_bytes();
    let n = bytes.len();
    let mut output: u32 = 0;
    let mut i: usize = 0;
    while i != n
        invariant
            i <= n,
            n == bytes@.len(),
            bytes@ == text.spec_bytes(),
            output == calc_old_hash_spec(bytes@.take(i as int)),
            output < OLD_HASH_MOD,
        decreases n - i,
    {
        proof {
            assert(bytes@.take(i as int + 1).drop_last() =~= bytes@.take(i as int));
            assert(bytes@.take(i as int + 1).last() == bytes@[i as int]);
        }
        output = ((bytes[i] as u32) * 0x100 + output) % OLD_HASH_MOD;
        i += 1;
    }
    proof {
        assert(bytes@.take(n as int) =~= bytes@);
    }
    output
}

} // verus!
