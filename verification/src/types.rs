//! The data model of the format: the 16-byte header, the 12-byte field
//! descriptor, the seven-variant value union, and the byte-level layout of
//! each of them.

use crate::codec::{
    push_u16, push_u32, read_u16, read_u32, spec_u16_at, spec_u16_bytes, spec_u32_at,
    spec_u32_bytes, Endian,
};
use crate::hash::calchash;
use crate::hash::calchash_spec;
use crate::sjis::{sjis_decode, sjis_decode_of};
use crate::text::{
    idec_string, spec_idec, spec_udec, spec_uhex, udec_string, uhex_string, utf8_lossy,
    utf8_lossy_of,
};
use crate::transform::{
    as_i16_spec, as_i32_spec, as_i8_spec, as_u16_spec, as_u32_spec, as_u8_spec, i16_to_u16,
    i32_to_u32, i8_to_u8, read_transform16, read_transform32, read_transform32u, read_transform8,
    spec_read16, spec_read32, spec_read32u, spec_read8, spec_write16, spec_write32, spec_write8,
    u16_to_i16, u32_to_i32,
    u8_to_i8, write_transform16, write_transform32, write_transform8,
};
use std::collections::HashMap;
use vstd::prelude::*;
use vstd::string::StrSliceExecFns;
use vstd::string::StringExecFns;
use vstd::string::StringSliceAdditionalSpecFns;

verus! {

/// The fatal failures of the two pipelines. A structural failure aborts the
/// whole read or write; a string that cannot be resolved does not raise an
/// error (the value keeps an empty string instead).
#[derive(Clone, Copy, Debug, PartialEq, Eq, Structural)]
pub enum BcsvError {
    /// The stream ended before a fixed-width read was complete.
    TruncatedInput,
    /// The position after emitting the rows does not match the string-table
    /// offset the header claims.
    LayoutMismatch,
}

impl BcsvError {
    /// A short description of the failure.
    pub fn message(&self) -> (r: &'static str)
        ensures
            *self is TruncatedInput ==> r@ == "stream ended inside a fixed-width read"@,
            *self is LayoutMismatch ==> r@ == "row block end does not match the string table offset"@,
    {
        match self {
            BcsvError::TruncatedInput => "stream ended inside a fixed-width read",
            BcsvError::LayoutMismatch => "row block end does not match the string table offset",
        }
    }
}

/// The header of a file: sixteen bytes, four 32-bit words, no magic.
#[derive(Clone, Copy, Debug, PartialEq, Eq, Structural)]
pub struct Header {
    /// The count of entries (rows) owned by every single field.
    pub entrycount: u32,
    /// The total count of fields.
    pub fieldcount: u32,
    /// Absolute offset at which the entry (row) block begins.
    pub entrydataoff: u32,
    /// The byte stride of a single row.
    pub entrysize: u32,
}

impl Default for Header {
    fn default() -> (r: Self)
        ensures
            r == (Header { entrycount: 0, fieldcount: 0, entrydataoff: 0, entrysize: 0 }),
    {
        Header { entrycount: 0, fieldcount: 0, entrydataoff: 0, entrysize: 0 }
    }
}

impl Header {
    /// The absolute offset of the string table: the end of the row block.
    pub open spec fn spec_stringoffset(self) -> int {
        self.entrydataoff + self.entrycount * self.entrysize
    }

    /// Computes the absolute offset of the string table.
    pub fn stringoffset(&self) -> (r: u64)
        ensures
            r == self.spec_stringoffset(),
    {
        proof {
            assert(self.entrycount * self.entrysize <= 0xffff_ffff * 0xffff_ffff) by (nonlinear_arith)
                requires
                    self.entrycount <= 0xffff_ffff,
                    self.entrysize <= 0xffff_ffff,
            ;
        }
        self.entrydataoff as u64 + self.entrycount as u64 * self.entrysize as u64
    }

    /// The sixteen bytes of the header in byte order `e`.
    pub open spec fn spec_bytes(self, e: Endian) -> Seq<u8> {
        spec_u32_bytes(self.entrycount, e) + spec_u32_bytes(self.fieldcount, e) + spec_u32_bytes(
            self.entrydataoff,
            e,
        ) + spec_u32_bytes(self.entrysize, e)
    }

    /// The header read from the first sixteen bytes of `data`.
    pub open spec fn spec_at(data: Seq<u8>, e: Endian) -> Header {
        Header {
            entrycount: spec_u32_at(data, 0, e),
            fieldcount: spec_u32_at(data, 4, e),
            entrydataoff: spec_u32_at(data, 8, e),
            entrysize: spec_u32_at(data, 12, e),
        }
    }

    /// Reads the header from the front of `data`.
    pub fn from_bytes(data: &Vec<u8>, e: Endian) -> (r: Header)
        requires
            data@.len() >= 16,
        ensures
            r == Header::spec_at(data@, e),
    {
        Header {
            entrycount: read_u32(data, 0, e),
            fieldcount: read_u32(data, 4, e),
            entrydataoff: read_u32(data, 8, e),
            entrysize: read_u32(data, 12, e),
        }
    }

    /// Appends the sixteen header bytes to `out`.
    pub fn push_bytes(&self, out: &mut Vec<u8>, e: Endian)
        ensures
            final(out)@ == old(out)@ + self.spec_bytes(e),
    {
        push_u32(out, self.entrycount, e);
        push_u32(out, self.fieldcount, e);
        push_u32(out, self.entrydataoff, e);
        push_u32(out, self.entrysize, e);
        proof {
            assert(out@ =~= old(out)@ + self.spec_bytes(e));
        }
    }
}

/// The header image is always sixteen bytes long.
pub proof fn lemma_header_bytes_len(h: Header, e: Endian)
    ensures
        h.spec_bytes(e).len() == 16,
{
    crate::codec::lemma_u32_round_trip(h.entrycount, e);
    crate::codec::lemma_u32_round_trip(h.fieldcount, e);
    crate::codec::lemma_u32_round_trip(h.entrydataoff, e);
    crate::codec::lemma_u32_round_trip(h.entrysize, e);
}

/// A descriptor image is always twelve bytes long.
pub proof fn lemma_field_bytes_len(f: Field, e: Endian)
    ensures
        f.spec_bytes(e).len() == 12,
{
    crate::codec::lemma_u32_round_trip(f.hash, e);
    crate::codec::lemma_u32_round_trip(f.mask, e);
    crate::codec::lemma_u16_round_trip(f.dataoff, e);
}

/// The seven on-disk field types, and a sentinel for any unknown tag.
#[derive(Clone, Copy, Debug, PartialEq, Eq, Structural)]
pub enum FieldType {
    /// A signed 32-bit integer.
    LONG,
    /// A fixed buffer of 32 raw bytes.
    STRING,
    /// A 32-bit floating-point number, carried as its bit pattern.
    FLOAT,
    /// An unsigned 32-bit integer.
    ULONG,
    /// A 16-bit integer, signed or unsigned by presentation.
    SHORT,
    /// An 8-bit integer, signed or unsigned by presentation.
    CHAR,
    /// A 32-bit offset into the string table, resolved to its string.
    STRINGOFF,
    /// An unknown type; stands for any tag above six.
    NULL,
}

impl FieldType {
    /// The field type a tag byte denotes; every tag above six is unknown.
    pub open spec fn spec_from_u8(v: u8) -> FieldType {
        if v == 0 {
            FieldType::LONG
        } else if v == 1 {
            FieldType::STRING
        } else if v == 2 {
            FieldType::FLOAT
        } else if v == 3 {
            FieldType::ULONG
        } else if v == 4 {
            FieldType::SHORT
        } else if v == 5 {
            FieldType::CHAR
        } else if v == 6 {
            FieldType::STRINGOFF
        } else {
            FieldType::NULL
        }
    }

    /// Maps a tag byte to its field type.
    pub fn from_u8(v: u8) -> (r: FieldType)
        ensures
            r == FieldType::spec_from_u8(v),
    {
        match v {
            0 => FieldType::LONG,
            1 => FieldType::STRING,
            2 => FieldType::FLOAT,
            3 => FieldType::ULONG,
            4 => FieldType::SHORT,
            5 => FieldType::CHAR,
            6 => FieldType::STRINGOFF,
            _ => FieldType::NULL,
        }
    }

    /// The tag byte of each type; the unknown sentinel keeps tag seven.
    pub open spec fn spec_tag(self) -> u8 {
        match self {
            FieldType::LONG => 0,
            FieldType::STRING => 1,
            FieldType::FLOAT => 2,
            FieldType::ULONG => 3,
            FieldType::SHORT => 4,
            FieldType::CHAR => 5,
            FieldType::STRINGOFF => 6,
            FieldType::NULL => 7,
        }
    }

    /// Returns the tag byte of this type.
    pub fn tag(&self) -> (r: u8)
        ensures
            r == self.spec_tag(),
    {
        match self {
            FieldType::LONG => 0,
            FieldType::STRING => 1,
            FieldType::FLOAT => 2,
            FieldType::ULONG => 3,
            FieldType::SHORT => 4,
            FieldType::CHAR => 5,
            FieldType::STRINGOFF => 6,
            FieldType::NULL => 7,
        }
    }

    /// The on-disk byte size of the type; a string-table offset takes four
    /// bytes because only the offset is stored inline.
    pub open spec fn spec_size(self) -> u16 {
        match self {
            FieldType::NULL => 0,
            FieldType::LONG => 4,
            FieldType::ULONG => 4,
            FieldType::FLOAT => 4,
            FieldType::STRINGOFF => 4,
            FieldType::SHORT => 2,
            FieldType::CHAR => 1,
            FieldType::STRING => 32,
        }
    }

    /// Returns the on-disk byte size of the type.
    pub fn size(&self) -> (r: u16)
        ensures
            r == self.spec_size(),
    {
        match self {
            FieldType::NULL => 0,
            FieldType::LONG => 4,
            FieldType::ULONG => 4,
            FieldType::FLOAT => 4,
            FieldType::STRINGOFF => 4,
            FieldType::SHORT => 2,
            FieldType::CHAR => 1,
            FieldType::STRING => 32,
        }
    }

    /// The default bit mask of the type: all ones across the type's width
    /// for the integral types, zero for the rest.
    pub open spec fn spec_mask(self) -> u32 {
        match self {
            FieldType::NULL => 0,
            FieldType::STRING => 0,
            FieldType::FLOAT => 0,
            FieldType::LONG => 0xffff_ffff,
            FieldType::ULONG => 0xffff_ffff,
            FieldType::STRINGOFF => 0xffff_ffff,
            FieldType::SHORT => 0xffff,
            FieldType::CHAR => 0xff,
        }
    }

    /// Returns the default bit mask of the type.
    pub fn mask(&self) -> (r: u32)
        ensures
            r == self.spec_mask(),
    {
        match self {
            FieldType::NULL => 0,
            FieldType::STRING => 0,
            FieldType::FLOAT => 0,
            FieldType::LONG => 0xffff_ffff,
            FieldType::ULONG => 0xffff_ffff,
            FieldType::STRINGOFF => 0xffff_ffff,
            FieldType::SHORT => 0xffff,
            FieldType::CHAR => 0xff,
        }
    }

    /// The rank that orders fields in the physical row layout, independent
    /// of declaration order; unknown types sort first as invalid.
    pub open spec fn spec_order(self) -> i32 {
        match self {
            FieldType::NULL => -1i32,
            FieldType::STRING => 0,
            FieldType::FLOAT => 1,
            FieldType::LONG => 2,
            FieldType::ULONG => 3,
            FieldType::SHORT => 4,
            FieldType::CHAR => 5,
            FieldType::STRINGOFF => 6,
        }
    }

    /// Returns the write-order rank of the type.
    pub fn order(&self) -> (r: i32)
        ensures
            r == self.spec_order(),
    {
        match self {
            FieldType::NULL => -1,
            FieldType::STRING => 0,
            FieldType::FLOAT => 1,
            FieldType::LONG => 2,
            FieldType::ULONG => 3,
            FieldType::SHORT => 4,
            FieldType::CHAR => 5,
            FieldType::STRINGOFF => 6,
        }
    }
}

/// One field descriptor: twelve bytes describing a column of the table.
/// Two descriptors denote the same field exactly when their hashes match.
#[derive(Clone, Copy, Debug, PartialEq, Eq, Structural, Hash)]
pub struct Field {
    /// The hash of the field's name, per [`crate::hash::calchash`].
    pub hash: u32,
    /// The bit mask of the packing transform; usually the type's default.
    pub mask: u32,
    /// The byte offset of this column within one row.
    pub dataoff: u16,
    /// The bit shift of the packing transform; usually zero.
    pub shift: u8,
    /// The tag byte of the field's type.
    pub datatype: u8,
}

impl Default for Field {
    fn default() -> (r: Self)
        ensures
            r == (Field { hash: 0, mask: 0, dataoff: 0, shift: 0, datatype: 0 }),
    {
        Field { hash: 0, mask: 0, dataoff: 0, shift: 0, datatype: 0 }
    }
}

impl Field {
    /// The field's type, decoded from its tag byte.
    pub open spec fn spec_field_type(self) -> FieldType {
        FieldType::spec_from_u8(self.datatype)
    }

    /// Returns the field's type.
    pub fn get_field_type(&self) -> (r: FieldType)
        ensures
            r == self.spec_field_type(),
    {
        FieldType::from_u8(self.datatype)
    }

    /// The twelve descriptor bytes in byte order `e`.
    pub open spec fn spec_bytes(self, e: Endian) -> Seq<u8> {
        spec_u32_bytes(self.hash, e) + spec_u32_bytes(self.mask, e) + spec_u16_bytes(
            self.dataoff,
            e,
        ) + seq![self.shift] + seq![self.datatype]
    }

    /// The descriptor read from the twelve bytes of `data` at `off`.
    pub open spec fn spec_at(data: Seq<u8>, off: int, e: Endian) -> Field {
        Field {
            hash: spec_u32_at(data, off, e),
            mask: spec_u32_at(data, off + 4, e),
            dataoff: spec_u16_at(data, off + 8, e),
            shift: data[off + 10],
            datatype: data[off + 11],
        }
    }

    /// Reads a descriptor from the twelve bytes of `data` at `off`.
    pub fn from_bytes(data: &Vec<u8>, off: usize, e: Endian) -> (r: Field)
        requires
            off + 12 <= data@.len(),
        ensures
            r == Field::spec_at(data@, off as int, e),
    {
        let n = data.len();
        Field {
            hash: read_u32(data, off, e),
            mask: read_u32(data, off + 4, e),
            dataoff: read_u16(data, off + 8, e),
            shift: data[off + 10],
            datatype: data[off + 11],
        }
    }

    /// Appends the twelve descriptor bytes to `out`.
    pub fn push_bytes(&self, out: &mut Vec<u8>, e: Endian)
        ensures
            final(out)@ == old(out)@ + self.spec_bytes(e),
    {
        push_u32(out, self.hash, e);
        push_u32(out, self.mask, e);
        push_u16(out, self.dataoff, e);
        out.push(self.shift);
        out.push(self.datatype);
        proof {
            assert(out@ =~= old(out)@ + self.spec_bytes(e));
        }
    }

    /// Looks the field's name up in the hash table; a hash with no entry
    /// renders as `0x` followed by its uppercase hexadecimal form.
    pub fn get_name(&self, hashes: &HashMap<u32, String>) -> (r: String)
        ensures
            hashes@.contains_key(self.hash) ==> r@ == hashes@[self.hash]@,
            !hashes@.contains_key(self.hash) ==> r@ == "0x"@ + spec_uhex(self.hash as int),
    {
        broadcast use vstd::std_specs::hash::group_hash_axioms;

        match hashes.get(&self.hash) {
            Some(name) => name.clone(),
            None => {
                let mut s = String::new();
                proof {
                    reveal_strlit("0x");
                }
                s.append("0x");
                let h = uhex_string(self.hash as u64);
                s.append(h.as_str());
                proof {
                    assert(s@ =~= "0x"@ + spec_uhex(self.hash as int));
                }
                s
            },
        }
    }

    /// Makes a field from a name and a type, with the type's default mask
    /// and no shift.
    pub fn new_with_type(name: &str, datatype: FieldType) -> (r: Field)
        ensures
            r == (Field {
                hash: calchash_spec(name.spec_bytes()),
                mask: datatype.spec_mask(),
                dataoff: 0,
                shift: 0,
                datatype: datatype.spec_tag(),
            }),
    {
        let hash = calchash(name);
        let mask = datatype.mask();
        Field { hash, mask, dataoff: 0, shift: 0, datatype: datatype.tag() }
    }

    /// Makes a field from a name, an explicit mask and shift, and a type.
    pub fn new(name: &str, mask: u32, shift: u8, datatype: FieldType) -> (r: Field)
        ensures
            r == (Field {
                hash: calchash_spec(name.spec_bytes()),
                mask: mask,
                dataoff: 0,
                shift: shift,
                datatype: datatype.spec_tag(),
            }),
    {
        Field { hash: calchash(name), mask, dataoff: 0, shift, datatype: datatype.tag() }
    }
}

/// The mathematical model of one value: the same seven variants with
/// sequences in place of the executable buffers.
pub enum ValueV {
    LONG(i32),
    STRING(Seq<u8>),
    FLOAT(u32),
    ULONG(u32),
    SHORT(i16),
    CHAR(i8),
    STRINGOFF(u32, Seq<char>),
    NULL,
}

/// One cell of the table, tagged like the field type that owns it. A
/// floating-point cell carries the 32-bit pattern of its value; a
/// string-offset cell carries both the transient on-disk offset and the
/// resolved string, the durable part.
#[derive(Clone, Debug)]
pub enum Value {
    /// A signed 32-bit integer.
    LONG(i32),
    /// A fixed buffer of 32 raw bytes.
    STRING(Vec<u8>),
    /// The bit pattern of a 32-bit floating-point number.
    FLOAT(u32),
    /// An unsigned 32-bit integer.
    ULONG(u32),
    /// A 16-bit integer.
    SHORT(i16),
    /// An 8-bit integer.
    CHAR(i8),
    /// A string-table offset and the string it resolves to.
    STRINGOFF(u32, String),
    /// An invalid entry.
    NULL,
}

impl View for Value {
    type V = ValueV;

    open spec fn view(&self) -> ValueV {
        match self {
            Value::LONG(l) => ValueV::LONG(*l),
            Value::STRING(s) => ValueV::STRING(s@),
            Value::FLOAT(f) => ValueV::FLOAT(*f),
            Value::ULONG(u) => ValueV::ULONG(*u),
            Value::SHORT(s) => ValueV::SHORT(*s),
            Value::CHAR(c) => ValueV::CHAR(*c),
            Value::STRINGOFF(o, s) => ValueV::STRINGOFF(*o, s@),
            Value::NULL => ValueV::NULL,
        }
    }
}

impl ValueV {
    /// The field type this value belongs to.
    pub open spec fn spec_fieldtype(self) -> FieldType {
        match self {
            ValueV::LONG(_) => FieldType::LONG,
            ValueV::STRING(_) => FieldType::STRING,
            ValueV::FLOAT(_) => FieldType::FLOAT,
            ValueV::ULONG(_) => FieldType::ULONG,
            ValueV::SHORT(_) => FieldType::SHORT,
            ValueV::CHAR(_) => FieldType::CHAR,
            ValueV::STRINGOFF(_, _) => FieldType::STRINGOFF,
            ValueV::NULL => FieldType::NULL,
        }
    }

    /// The model value a fresh cell of the given type holds.
    pub open spec fn spec_new(t: FieldType) -> ValueV {
        match t {
            FieldType::LONG => ValueV::LONG(0),
            FieldType::STRING => ValueV::STRING(Seq::new(32, |i| 0u8)),
            FieldType::FLOAT => ValueV::FLOAT(0),
            FieldType::ULONG => ValueV::ULONG(0),
            FieldType::SHORT => ValueV::SHORT(0),
            FieldType::CHAR => ValueV::CHAR(0),
            FieldType::STRINGOFF => ValueV::STRINGOFF(0, Seq::empty()),
            FieldType::NULL => ValueV::NULL,
        }
    }

    /// The read transform over the value's native width; only the integral
    /// variants change.
    pub open spec fn read_transformed(self, mask: u32, shift: u8) -> ValueV {
        match self {
            ValueV::LONG(l) => ValueV::LONG(as_i32_spec(spec_read32(as_u32_spec(l), mask, shift))),
            ValueV::ULONG(u) => ValueV::ULONG(spec_read32u(u, mask, shift)),
            ValueV::SHORT(s) => ValueV::SHORT(
                as_i16_spec(spec_read16(as_u16_spec(s), mask, shift)),
            ),
            ValueV::CHAR(c) => ValueV::CHAR(as_i8_spec(spec_read8(as_u8_spec(c), mask, shift))),
            _ => self,
        }
    }

    /// The write transform over the value's native width; only the integral
    /// variants change.
    pub open spec fn write_transformed(self, mask: u32, shift: u8) -> ValueV {
        match self {
            ValueV::LONG(l) => ValueV::LONG(
                as_i32_spec(spec_write32(as_u32_spec(l), mask, shift)),
            ),
            ValueV::ULONG(u) => ValueV::ULONG(spec_write32(u, mask, shift)),
            ValueV::SHORT(s) => ValueV::SHORT(
                as_i16_spec(spec_write16(as_u16_spec(s), mask, shift)),
            ),
            ValueV::CHAR(c) => ValueV::CHAR(as_i8_spec(spec_write8(as_u8_spec(c), mask, shift))),
            _ => self,
        }
    }

    /// The bytes one value contributes to its row slot. A string-offset
    /// value contributes only its four offset bytes; an invalid value
    /// contributes nothing.
    pub open spec fn spec_bytes(self, e: Endian) -> Seq<u8> {
        match self {
            ValueV::LONG(l) => spec_u32_bytes(as_u32_spec(l), e),
            ValueV::STRING(s) => s,
            ValueV::FLOAT(f) => spec_u32_bytes(f, e),
            ValueV::ULONG(u) => spec_u32_bytes(u, e),
            ValueV::SHORT(s) => spec_u16_bytes(as_u16_spec(s), e),
            ValueV::CHAR(c) => seq![as_u8_spec(c)],
            ValueV::STRINGOFF(o, _) => spec_u32_bytes(o, e),
            ValueV::NULL => Seq::empty(),
        }
    }

    /// The canonical textual form of a value; the `signed` flag chooses the
    /// signed or the reinterpreted unsigned rendering of the 16-bit and
    /// 8-bit widths. A floating-point value has no rendering here.
    pub open spec fn spec_render(self, signed: bool) -> Option<Seq<char>> {
        match self {
            ValueV::LONG(l) => Some(spec_idec(l as int)),
            ValueV::STRING(s) => Some(utf8_lossy_of(s)),
            ValueV::FLOAT(_) => None,
            ValueV::ULONG(u) => Some(spec_udec(u as int)),
            ValueV::SHORT(s) => if signed {
                Some(spec_idec(s as int))
            } else {
                Some(spec_udec(as_u16_spec(s) as int))
            },
            ValueV::CHAR(c) => if signed {
                Some(spec_idec(c as int))
            } else {
                Some(spec_udec(as_u8_spec(c) as int))
            },
            ValueV::STRINGOFF(_, s) => Some(s),
            ValueV::NULL => Some("NULL"@),
        }
    }
}

/// The absolute offset of one value slot: the row block base, plus the
/// row's stride offset, plus the column's offset within the row.
pub open spec fn spec_value_off(header: Header, field: Field, row: int) -> int {
    header.entrydataoff + row * header.entrysize + field.dataoff
}

/// Whether the slot of the given field in the given row lies within
/// `data`; a zero-width slot consumes nothing and is never out of bounds.
pub open spec fn value_in_bounds(data: Seq<u8>, header: Header, field: Field, row: int) -> bool {
    field.spec_field_type() is NULL || spec_value_off(header, field, row)
        + field.spec_field_type().spec_size() <= data.len()
}

/// The raw (untransformed, unresolved) value decoded from the slot of
/// `field` in row `row`.
pub open spec fn spec_raw_value_at(
    data: Seq<u8>,
    e: Endian,
    header: Header,
    field: Field,
    row: int,
) -> ValueV {
    let off = spec_value_off(header, field, row);
    match field.spec_field_type() {
        FieldType::LONG => ValueV::LONG(as_i32_spec(spec_u32_at(data, off, e))),
        FieldType::STRING => ValueV::STRING(data.subrange(off, off + 32)),
        FieldType::FLOAT => ValueV::FLOAT(spec_u32_at(data, off, e)),
        FieldType::ULONG => ValueV::ULONG(spec_u32_at(data, off, e)),
        FieldType::SHORT => ValueV::SHORT(as_i16_spec(spec_u16_at(data, off, e))),
        FieldType::CHAR => ValueV::CHAR(as_i8_spec(data[off])),
        FieldType::STRINGOFF => ValueV::STRINGOFF(spec_u32_at(data, off, e), Seq::empty()),
        FieldType::NULL => ValueV::NULL,
    }
}

/// The value decoded from the slot of `field` in row `row`, with the
/// field's read transform applied (strings not yet resolved).
pub open spec fn spec_value_at(
    data: Seq<u8>,
    e: Endian,
    header: Header,
    field: Field,
    row: int,
) -> ValueV {
    spec_raw_value_at(data, e, header, field, row).read_transformed(field.mask, field.shift)
}

/// The position of the first zero byte of `data` at or after `i`, or -1
/// when there is none.
pub open spec fn find_null(data: Seq<u8>, i: int) -> int
    decreases data.len() - i,
{
    if i < 0 || i >= data.len() {
        -1
    } else if data[i] == 0 {
        i
    } else {
        find_null(data, i + 1)
    }
}

/// The string resolved from `data` at absolute position `start`: the bytes
/// up to the first null terminator, decoded as Shift-JIS. A position out of
/// range, or a missing terminator, resolves to the empty string.
pub open spec fn spec_string_at(data: Seq<u8>, start: int) -> Seq<char> {
    if 0 <= start <= data.len() && find_null(data, start) >= start {
        sjis_decode_of(data.subrange(start, find_null(data, start)))
    } else {
        Seq::empty()
    }
}

/// The value after the deferred string-resolution pass: a string-offset
/// value resolves its string against the string-table region; every other
/// value is unchanged.
pub open spec fn spec_resolved(v: ValueV, data: Seq<u8>, header: Header) -> ValueV {
    match v {
        ValueV::STRINGOFF(off, _) => ValueV::STRINGOFF(
            off,
            spec_string_at(data, header.spec_stringoffset() + off),
        ),
        _ => v,
    }
}

/// A scan that saw no zero up to `p`, and a zero at `p` if `p` is inside
/// the data, has found the first null.
pub proof fn lemma_find_null_from(data: Seq<u8>, start: int, p: int)
    requires
        0 <= start <= p <= data.len(),
        forall|j: int| start <= j < p ==> data[j] != 0,
        p < data.len() ==> data[p] == 0,
    ensures
        find_null(data, start) == if p < data.len() {
            p
        } else {
            -1
        },
    decreases p - start,
{
    if start < p {
        lemma_find_null_from(data, start + 1, p);
    }
}

impl Value {
    /// Makes a fresh zero-valued cell of the given type.
    pub fn new(fieldtype: FieldType) -> (r: Value)
        ensures
            r@ == ValueV::spec_new(fieldtype),
    {
        match fieldtype {
            FieldType::LONG => Value::LONG(0),
            FieldType::STRING => {
                let buf: Vec<u8> = vec![0u8; 32];
                proof {
                    assert(buf@ =~= Seq::new(32, |i: int| 0u8));
                }
                Value::STRING(buf)
            },
            FieldType::FLOAT => Value::FLOAT(0),
            FieldType::ULONG => Value::ULONG(0),
            FieldType::SHORT => Value::SHORT(0),
            FieldType::CHAR => Value::CHAR(0),
            FieldType::STRINGOFF => Value::STRINGOFF(0, String::new()),
            FieldType::NULL => Value::NULL,
        }
    }

    /// Returns the field type this value belongs to.
    pub fn fieldtype(&self) -> (r: FieldType)
        ensures
            r == self@.spec_fieldtype(),
    {
        match self {
            Value::LONG(_) => FieldType::LONG,
            Value::STRING(_) => FieldType::STRING,
            Value::FLOAT(_) => FieldType::FLOAT,
            Value::ULONG(_) => FieldType::ULONG,
            Value::SHORT(_) => FieldType::SHORT,
            Value::CHAR(_) => FieldType::CHAR,
            Value::STRINGOFF(_, _) => FieldType::STRINGOFF,
            Value::NULL => FieldType::NULL,
        }
    }

    /// Applies the read transform of `field` to this value in place.
    pub fn recalc(&mut self, field: Field)
        ensures
            final(self)@ == old(self)@.read_transformed(field.mask, field.shift),
    {
        let replacement = match &*self {
            Value::LONG(l) => Some(
                Value::LONG(u32_to_i32(read_transform32(i32_to_u32(*l), field.mask, field.shift))),
            ),
            Value::ULONG(u) => Some(Value::ULONG(read_transform32u(*u, field.mask, field.shift))),
            Value::SHORT(s) => Some(
                Value::SHORT(u16_to_i16(read_transform16(i16_to_u16(*s), field.mask, field.shift))),
            ),
            Value::CHAR(c) => Some(
                Value::CHAR(u8_to_i8(read_transform8(i8_to_u8(*c), field.mask, field.shift))),
            ),
            _ => None,
        };
        if let Some(v) = replacement {
            *self = v;
        }
    }

    /// Applies the write transform of `field` to this value in place.
    pub fn calc_write(&mut self, field: Field)
        ensures
            final(self)@ == old(self)@.write_transformed(field.mask, field.shift),
    {
        let replacement = match &*self {
            Value::LONG(l) => Some(
                Value::LONG(u32_to_i32(write_transform32(i32_to_u32(*l), field.mask, field.shift))),
            ),
            Value::ULONG(u) => Some(Value::ULONG(write_transform32(*u, field.mask, field.shift))),
            Value::SHORT(s) => Some(
                Value::SHORT(
                    u16_to_i16(write_transform16(i16_to_u16(*s), field.mask, field.shift)),
                ),
            ),
            Value::CHAR(c) => Some(
                Value::CHAR(u8_to_i8(write_transform8(i8_to_u8(*c), field.mask, field.shift))),
            ),
            _ => None,
        };
        if let Some(v) = replacement {
            *self = v;
        }
    }

    /// Decodes the slot of `field` in row `row` into this value and applies
    /// the read transform; string-offset cells keep an empty string until
    /// the resolution pass. Fails with `TruncatedInput`, leaving the value
    /// unchanged, exactly when the slot reaches past the end of `data`.
    pub fn read(
        &mut self,
        data: &Vec<u8>,
        endian: Endian,
        row: u32,
        header: Header,
        field: Field,
    ) -> (r: Result<(), BcsvError>)
        ensures
            r is Ok <==> value_in_bounds(data@, header, field, row as int),
            r is Ok ==> final(self)@ == spec_value_at(data@, endian, header, field, row as int),
            r is Ok && final(self)@ is STRING ==> final(self)@->STRING_0.len() == 32,
            r is Err ==> *final(self) == *old(self) && r->Err_0 == BcsvError::TruncatedInput,
    {
        let n = data.len();
        let ft = field.get_field_type();
        let size = ft.size();
        proof {
            assert(row as u64 * header.entrysize as u64 <= 0xffff_ffff * 0xffff_ffff)
                by (nonlinear_arith)
                requires
                    row <= 0xffff_ffffu64,
                    header.entrysize <= 0xffff_ffffu64,
            ;
        }
        let off64: u64 = header.entrydataoff as u64 + row as u64 * header.entrysize as u64
            + field.dataoff as u64;
        if matches!(ft, FieldType::NULL) {
            *self = Value::NULL;
            proof {
                vstd::arithmetic::mul::lemma_mul_is_commutative(
                    row as int,
                    header.entrysize as int,
                );
            }
            return Ok(());
        }
        if (n as u64) < (size as u64) || off64 > n as u64 - size as u64 {
            return Err(BcsvError::TruncatedInput);
        }
        let off = off64 as usize;
        match ft {
            FieldType::LONG => {
                let raw = read_u32(data, off, endian);
                *self = Value::LONG(u32_to_i32(read_transform32(raw, field.mask, field.shift)));
            },
            FieldType::STRING => {
                let mut buf: Vec<u8> = Vec::new();
                let mut i: usize = 0;
                while i != 32
                    invariant
                        i <= 32,
                        n == data@.len(),
                        off + 32 <= n,
                        buf@ =~= data@.subrange(off as int, off + i),
                    decreases 32 - i,
                {
                    buf.push(data[off + i]);
                    proof {
                        assert(buf@ =~= data@.subrange(off as int, off + i + 1));
                    }
                    i += 1;
                }
                *self = Value::STRING(buf);
            },
            FieldType::FLOAT => {
                let raw = read_u32(data, off, endian);
                *self = Value::FLOAT(raw);
            },
            FieldType::ULONG => {
                let raw = read_u32(data, off, endian);
                *self = Value::ULONG(read_transform32u(raw, field.mask, field.shift));
            },
            FieldType::SHORT => {
                let raw = read_u16(data, off, endian);
                *self = Value::SHORT(u16_to_i16(read_transform16(raw, field.mask, field.shift)));
            },
            FieldType::CHAR => {
                let raw = data[off];
                *self = Value::CHAR(u8_to_i8(read_transform8(raw, field.mask, field.shift)));
            },
            FieldType::STRINGOFF => {
                let raw = read_u32(data, off, endian);
                *self = Value::STRINGOFF(raw, String::new());
            },
            FieldType::NULL => {
                *self = Value::NULL;
            },
        }
        proof {
            vstd::arithmetic::mul::lemma_mul_is_commutative(
                row as int,
                header.entrysize as int,
            );
        }
        Ok(())
    }

    /// Resolves a string-offset cell against the string-table region of
    /// `data`: the bytes at the table base plus the stored offset, up to
    /// the first null terminator, decoded as Shift-JIS. A slot that cannot
    /// be resolved keeps an empty string; no error is raised. Every other
    /// cell is left unchanged.
    pub fn calc_stringoff(&mut self, data: &Vec<u8>, header: Header)
        ensures
            final(self)@ == spec_resolved(old(self)@, data@, header),
    {
        let n = data.len();
        let stored = match &*self {
            Value::STRINGOFF(o, _) => Some(*o),
            _ => None,
        };
        if let Some(off) = stored {
            let base = header.stringoffset();
            proof {
                assert(header.entrycount as u64 * header.entrysize as u64 <= 0xffff_ffff
                    * 0xffff_ffff) by (nonlinear_arith)
                    requires
                        header.entrycount <= 0xffff_ffffu64,
                        header.entrysize <= 0xffff_ffffu64,
                ;
            }
            let start64: u64 = base + off as u64;
            let ghost start = start64 as int;
            if start64 >= n as u64 {
                proof {
                    if start64 == n as u64 {
                        lemma_find_null_from(data@, start, start);
                    }
                }
                *self = Value::STRINGOFF(off, String::new());
            } else {
                let startp = start64 as usize;
                let mut p = startp;
                let mut buf: Vec<u8> = Vec::new();
                while p < n && data[p] != 0
                    invariant
                        startp <= p <= n,
                        n == data@.len(),
                        buf@ =~= data@.subrange(startp as int, p as int),
                        forall|j: int| startp <= j < p ==> data@[j] != 0,
                    decreases n - p,
                {
                    buf.push(data[p]);
                    proof {
                        assert(buf@ =~= data@.subrange(startp as int, p + 1));
                    }
                    p += 1;
                }
                proof {
                    lemma_find_null_from(data@, startp as int, p as int);
                }
                if p < n {
                    let s = sjis_decode(&buf);
                    *self = Value::STRINGOFF(off, s);
                } else {
                    *self = Value::STRINGOFF(off, String::new());
                }
            }
        }
    }

    /// Renders the value as text; the `signed` flag picks the signed or the
    /// unsigned reading of the 16-bit and 8-bit widths. A floating-point
    /// value has no rendering in this crate and yields `None`.
    pub fn get_string(&self, signed: bool) -> (r: Option<String>)
        ensures
            r is Some <==> self@.spec_render(signed) is Some,
            r is Some ==> Some(r->0@) == self@.spec_render(signed),
    {
        match self {
            Value::LONG(l) => Some(idec_string(*l as i64)),
            Value::STRING(s) => Some(utf8_lossy(s)),
            Value::FLOAT(_) => None,
            Value::ULONG(u) => Some(udec_string(*u as u64)),
            Value::SHORT(sh) => {
                if signed {
                    Some(idec_string(*sh as i64))
                } else {
                    Some(udec_string(i16_to_u16(*sh) as u64))
                }
            },
            Value::CHAR(c) => {
                if signed {
                    Some(idec_string(*c as i64))
                } else {
                    Some(udec_string(i8_to_u8(*c) as u64))
                }
            },
            Value::STRINGOFF(_, st) => Some(st.clone()),
            Value::NULL => Some(String::from_str("NULL")),
        }
    }

    /// Makes a copy of this value whose model equals this one's.
    pub fn duplicate(&self) -> (r: Value)
        ensures
            r@ == self@,
    {
        match self {
            Value::LONG(l) => Value::LONG(*l),
            Value::STRING(s) => {
                let n = s.len();
                let mut buf: Vec<u8> = Vec::new();
                let mut i: usize = 0;
                while i != n
                    invariant
                        i <= n,
                        n == s@.len(),
                        buf@ =~= s@.take(i as int),
                    decreases n - i,
                {
                    buf.push(s[i]);
                    proof {
                        assert(buf@ =~= s@.take(i + 1));
                    }
                    i += 1;
                }
                proof {
                    assert(s@.take(n as int) =~= s@);
                }
                Value::STRING(buf)
            },
            Value::FLOAT(f) => Value::FLOAT(*f),
            Value::ULONG(u) => Value::ULONG(*u),
            Value::SHORT(sh) => Value::SHORT(*sh),
            Value::CHAR(c) => Value::CHAR(*c),
            Value::STRINGOFF(o, st) => Value::STRINGOFF(*o, st.clone()),
            Value::NULL => Value::NULL,
        }
    }

    /// Appends the value's slot bytes to `out`: the packed word for the
    /// integral types, the raw buffer for a string, the four offset bytes
    /// for a string-offset cell, and nothing for an invalid cell.
    pub fn write(&self, out: &mut Vec<u8>, endian: Endian)
        ensures
            final(out)@ == old(out)@ + self@.spec_bytes(endian),
    {
        match self {
            Value::LONG(l) => push_u32(out, i32_to_u32(*l), endian),
            Value::STRING(s) => {
                out.extend_from_slice(s.as_slice());
                proof {
                    assert(out@ =~= old(out)@ + self@.spec_bytes(endian));
                }
            },
            Value::FLOAT(f) => push_u32(out, *f, endian),
            Value::ULONG(u) => push_u32(out, *u, endian),
            Value::SHORT(sh) => push_u16(out, i16_to_u16(*sh), endian),
            Value::CHAR(c) => {
                out.push(i8_to_u8(*c));
                proof {
                    assert(out@ =~= old(out)@ + self@.spec_bytes(endian));
                }
            },
            Value::STRINGOFF(o, _) => push_u32(out, *o, endian),
            Value::NULL => {
                proof {
                    assert(out@ =~= old(out)@ + self@.spec_bytes(endian));
                }
            },
        }
    }
}

} // verus!
