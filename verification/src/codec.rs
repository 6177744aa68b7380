//! Byte-level primitives of the codec: reading and writing fixed-width
//! integers at a chosen offset of a byte buffer, in a caller-selected byte
//! order. The format carries no endianness marker, so every entry point of
//! the crate takes an explicit [`Endian`].

use vstd::bytes::*;
use vstd::prelude::*;

verus! {

/// The byte order of all multi-byte fields of one file.
#[derive(Clone, Copy, Debug, PartialEq, Eq, Structural)]
pub enum Endian {
    Big,
    Little,
}

/// The two bytes that represent `v` in byte order `e`.
pub open spec fn spec_u16_bytes(v: u16, e: Endian) -> Seq<u8> {
    match e {
        Endian::Little => spec_u16_to_le_bytes(v),
        Endian::Big => spec_u16_to_le_bytes(v).reverse(),
    }
}

/// The four bytes that represent `v` in byte order `e`.
pub open spec fn spec_u32_bytes(v: u32, e: Endian) -> Seq<u8> {
    match e {
        Endian::Little => spec_u32_to_le_bytes(v),
        Endian::Big => spec_u32_to_le_bytes(v).reverse(),
    }
}

/// The value of the two bytes of `data` starting at `off`, in byte order `e`.
pub open spec fn spec_u16_at(data: Seq<u8>, off: int, e: Endian) -> u16 {
    let raw = data.subrange(off, off + 2);
    match e {
        Endian::Little => spec_u16_from_le_bytes(raw),
        Endian::Big => spec_u16_from_le_bytes(raw.reverse()),
    }
}

/// The value of the four bytes of `data` starting at `off`, in byte order `e`.
pub open spec fn spec_u32_at(data: Seq<u8>, off: int, e: Endian) -> u32 {
    let raw = data.subrange(off, off + 4);
    match e {
        Endian::Little => spec_u32_from_le_bytes(raw),
        Endian::Big => spec_u32_from_le_bytes(raw.reverse()),
    }
}

/// Reading two bytes back from their written form restores the value.
pub proof fn lemma_u16_round_trip(v: u16, e: Endian)
    ensures
        spec_u16_bytes(v, e).len() == 2,
        spec_u16_at(spec_u16_bytes(v, e), 0, e) == v,
{
    lemma_auto_spec_u16_to_from_le_bytes();
    let le = spec_u16_to_le_bytes(v);
    match e {
        Endian::Little => {
            assert(le.subrange(0, 2) =~= le);
        },
        Endian::Big => {
            assert(le.reverse().subrange(0, 2) =~= le.reverse());
            assert(le.reverse().reverse() =~= le);
        },
    }
}

/// Reading four bytes back from their written form restores the value.
pub proof fn lemma_u32_round_trip(v: u32, e: Endian)
    ensures
        spec_u32_bytes(v, e).len() == 4,
        spec_u32_at(spec_u32_bytes(v, e), 0, e) == v,
{
    lemma_auto_spec_u32_to_from_le_bytes();
    let le = spec_u32_to_le_bytes(v);
    match e {
        Endian::Little => {
            assert(le.subrange(0, 4) =~= le);
        },
        Endian::Big => {
            assert(le.reverse().subrange(0, 4) =~= le.reverse());
            assert(le.reverse().reverse() =~= le);
        },
    }
}

/// A 16-bit value written anywhere into a buffer reads back as itself.
pub proof fn lemma_u16_at_of_bytes(data: Seq<u8>, off: int, v: u16, e: Endian)
    requires
        0 <= off,
        off + 2 <= data.len(),
        data.subrange(off, off + 2) == spec_u16_bytes(v, e),
    ensures
        spec_u16_at(data, off, e) == v,
{
    lemma_auto_spec_u16_to_from_le_bytes();
    let le = spec_u16_to_le_bytes(v);
    assert(le.len() == 2);
    assert(spec_u16_from_le_bytes(le) == v);
    match e {
        Endian::Little => {
            assert(data.subrange(off, off + 2) == le);
        },
        Endian::Big => {
            assert(data.subrange(off, off + 2) == le.reverse());
            assert(le.reverse().reverse() =~= le);
        },
    }
}

/// A 32-bit value written anywhere into a buffer reads back as itself.
pub proof fn lemma_u32_at_of_bytes(data: Seq<u8>, off: int, v: u32, e: Endian)
    requires
        0 <= off,
        off + 4 <= data.len(),
        data.subrange(off, off + 4) == spec_u32_bytes(v, e),
    ensures
        spec_u32_at(data, off, e) == v,
{
    lemma_auto_spec_u32_to_from_le_bytes();
    let le = spec_u32_to_le_bytes(v);
    assert(le.len() == 4);
    assert(spec_u32_from_le_bytes(le) == v);
    match e {
        Endian::Little => {
            assert(data.subrange(off, off + 4) == le);
        },
        Endian::Big => {
            assert(data.subrange(off, off + 4) == le.reverse());
            assert(le.reverse().reverse() =~= le);
        },
    }
}

/// Reads one byte of `data` at `off`.
pub fn read_u8(data: &Vec<u8>, off: usize) -> (r: u8)
    requires
        off < data@.len(),
    ensures
        r == data@[off as int],
{
    data[off]
}

/// Reads a 16-bit value at `off` of `data` in byte order `e`.
pub fn read_u16(data: &Vec<u8>, off: usize, e: Endian) -> (r: u16)
    requires
        off + 2 <= data@.len(),
    ensures
        r == spec_u16_at(data@, off as int, e),
{
    let n = data.len();
    let mut raw: Vec<u8> = Vec::new();
    match e {
        Endian::Little => {
            raw.push(data[off]);
            raw.push(data[off + 1]);
            proof {
                assert(raw@ =~= data@.subrange(off as int, off as int + 2));
            }
        },
        Endian::Big => {
            raw.push(data[off + 1]);
            raw.push(data[off]);
            proof {
                assert(raw@ =~= data@.subrange(off as int, off as int + 2).reverse());
            }
        },
    }
    u16_from_le_bytes(raw.as_slice())
}

/// Reads a 32-bit value at `off` of `data` in byte order `e`.
pub fn read_u32(data: &Vec<u8>, off: usize, e: Endian) -> (r: u32)
    requires
        off + 4 <= data@.len(),
    ensures
        r == spec_u32_at(data@, off as int, e),
{
    let n = data.len();
    let mut raw: Vec<u8> = Vec::new();
    match e {
        Endian::Little => {
            raw.push(data[off]);
            raw.push(data[off + 1]);
            raw.push(data[off + 2]);
            raw.push(data[off + 3]);
            proof {
                assert(raw@ =~= data@.subrange(off as int, off as int + 4));
            }
        },
        Endian::Big => {
            raw.push(data[off + 3]);
            raw.push(data[off + 2]);
            raw.push(data[off + 1]);
            raw.push(data[off]);
            proof {
                assert(raw@ =~= data@.subrange(off as int, off as int + 4).reverse());
            }
        },
    }
    u32_from_le_bytes(raw.as_slice())
}

/// Appends the two bytes of `v` in byte order `e` to `out`.
pub fn push_u16(out: &mut Vec<u8>, v: u16, e: Endian)
    ensures
        final(out)@ == old(out)@ + spec_u16_bytes(v, e),
{
    let le = u16_to_le_bytes(v);
    match e {
        Endian::Little => {
            out.push(le[0]);
            out.push(le[1]);
            proof {
                assert(out@ =~= old(out)@ + spec_u16_bytes(v, e));
            }
        },
        Endian::Big => {
            out.push(le[1]);
            out.push(le[0]);
            proof {
                assert(spec_u16_bytes(v, e).len() == 2);
                assert(spec_u16_bytes(v, e)[0] == le@[1]);
                assert(spec_u16_bytes(v, e)[1] == le@[0]);
                assert(out@ =~= old(out)@ + spec_u16_bytes(v, e));
            }
        },
    }
}

/// Appends the four bytes of `v` in byte order `e` to `out`.
pub fn push_u32(out: &mut Vec<u8>, v: u32, e: Endian)
    ensures
        final(out)@ == old(out)@ + spec_u32_bytes(v, e),
{
    let le = u32_to_le_bytes(v);
    match e {
        Endian::Little => {
            out.push(le[0]);
            out.push(le[1]);
            out.push(le[2]);
            out.push(le[3]);
            proof {
                assert(out@ =~= old(out)@ + spec_u32_bytes(v, e));
            }
        },
        Endian::Big => {
            out.push(le[3]);
            out.push(le[2]);
            out.push(le[1]);
            out.push(le[0]);
            proof {
                let b = spec_u32_bytes(v, e);
                assert(b.len() == 4);
                assert(b[0] == le@[3]);
                assert(b[1] == le@[2]);
                assert(b[2] == le@[1]);
                assert(b[3] == le@[0]);
                assert(out@ =~= old(out)@ + b);
            }
        },
    }
}

} // verus!
