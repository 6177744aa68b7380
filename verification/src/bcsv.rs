//! The layout engine: the table aggregate that owns the header, the field
//! list in declared order, and one column of values per field, with the
//! full read and write pipelines.
//!
//! Two orders derive from the one canonical field list: descriptors are
//! read and written in declared order, while the physical row layout
//! follows the write-order rank of each field's type. Neither pipeline
//! reorders the canonical list itself.

use crate::codec::{spec_u32_bytes, Endian};
use crate::sjis::{sjis_encode, sjis_encode_of};
use crate::string_table::{
    lemma_update_offs_len, spec_find_str, spec_next_off, spec_update_offs, StringTable,
};
use crate::types::{
    spec_resolved, spec_value_at, value_in_bounds, BcsvError, Field, FieldType, Header, Value,
    ValueV,
};
use std::collections::HashMap;
use vstd::prelude::*;

verus! {

/// The model of one column: each value's model, in place.
pub open spec fn col_view(s: Seq<Value>) -> Seq<ValueV> {
    Seq::new(s.len(), |i: int| s[i]@)
}

/// The columns of a table as their mathematical model.
pub open spec fn spec_columns(vs: Seq<Vec<Value>>) -> Seq<Seq<ValueV>> {
    Seq::new(vs.len(), |i: int| col_view(vs[i]@))
}

/// The declared indices whose field carries the given rank, in declared
/// order.
pub open spec fn spec_rank_indices(fields: Seq<Field>, rank: int) -> Seq<usize>
    decreases fields.len(),
{
    if fields.len() == 0 {
        Seq::empty()
    } else {
        spec_rank_indices(fields.drop_last(), rank) + if fields.last().spec_field_type().spec_order()
            == rank {
            seq![(fields.len() - 1) as usize]
        } else {
            Seq::empty()
        }
    }
}

/// The declared indices with rank at most `rank`, grouped by rank in
/// ascending order, declared order within one rank.
pub open spec fn spec_ranks_upto(fields: Seq<Field>, rank: int) -> Seq<usize>
    decreases rank + 2,
{
    if rank < -1 {
        Seq::empty()
    } else {
        spec_ranks_upto(fields, rank - 1) + spec_rank_indices(fields, rank)
    }
}

/// The declared indices in physical (write-order) sequence: stable by
/// rank, declared order among equals.
pub open spec fn spec_sorted_indices(fields: Seq<Field>) -> Seq<usize> {
    spec_ranks_upto(fields, 6)
}

/// The canonical field list reordered into physical sequence.
pub open spec fn spec_sort_fields(fields: Seq<Field>) -> Seq<Field> {
    Seq::new(
        spec_sorted_indices(fields).len(),
        |k: int| fields[spec_sorted_indices(fields)[k] as int],
    )
}

/// Whether the field at declared index `j` sits before the one at `i` in
/// the physical sequence: a lower rank, or the same rank declared earlier.
pub open spec fn spec_precedes(fields: Seq<Field>, j: int, i: int) -> bool {
    let rj = fields[j].spec_field_type().spec_order();
    let ri = fields[i].spec_field_type().spec_order();
    rj < ri || (rj == ri && j < i)
}

/// The sum of the sizes of the fields among the first `upto` that precede
/// index `i` in the physical sequence.
pub open spec fn spec_size_before(fields: Seq<Field>, i: int, upto: int) -> int
    decreases upto,
{
    if upto <= 0 {
        0
    } else {
        spec_size_before(fields, i, upto - 1) + if spec_precedes(fields, upto - 1, i) {
            fields[upto - 1].spec_field_type().spec_size() as int
        } else {
            0
        }
    }
}

/// The repacked data offset of the field at declared index `i`: the bytes
/// all physically earlier fields take, wrapped to the descriptor's 16-bit
/// field.
pub open spec fn spec_new_dataoff(fields: Seq<Field>, i: int) -> u16 {
    (spec_size_before(fields, i, fields.len() as int) % 0x10000) as u16
}

/// The field at declared index `i` with its data offset repacked.
pub open spec fn spec_updated_field(fields: Seq<Field>, i: int) -> Field {
    Field {
        hash: fields[i].hash,
        mask: fields[i].mask,
        dataoff: spec_new_dataoff(fields, i),
        shift: fields[i].shift,
        datatype: fields[i].datatype,
    }
}

/// The canonical field list with every data offset repacked.
pub open spec fn spec_updated_fields(fields: Seq<Field>) -> Seq<Field> {
    Seq::new(fields.len(), |i: int| spec_updated_field(fields, i))
}

/// The sum of the sizes of the first `upto` fields: the byte stride one
/// row takes.
pub open spec fn spec_size_total(fields: Seq<Field>, upto: int) -> int
    decreases upto,
{
    if upto <= 0 {
        0
    } else {
        spec_size_total(fields, upto - 1) + fields[upto - 1].spec_field_type().spec_size() as int
    }
}

/// The whole table: the header, the hash lookup table for field names, the
/// canonical field list in declared order, and one column of values per
/// field, row-aligned.
#[derive(Debug)]
pub struct BCSV {
    /// The header of the file.
    pub header: Header,
    /// The optional name lookup table; not part of the binary format.
    pub hash_table: HashMap<u32, String>,
    /// The fields, in declared (on-disk descriptor) order.
    pub fields: Vec<Field>,
    /// One column of values per field: `values[i]` belongs to `fields[i]`.
    pub values: Vec<Vec<Value>>,
}

impl BCSV {
    /// A well-formed table: one column per field, each column holding
    /// exactly one value per entry, and every fixed-string cell carrying
    /// its full 32-byte buffer.
    pub open spec fn wf(self) -> bool {
        &&& self.values@.len() == self.fields@.len()
        &&& (forall|i: int|
            0 <= i < self.values@.len() ==> (#[trigger] self.values@[i])@.len()
                == self.header.entrycount)
        &&& (forall|i: int, r: int|
            0 <= i < self.values@.len() && 0 <= r < self.values@[i]@.len() && (
            #[trigger] self.values@[i]@[r])@ is STRING ==> self.values@[i]@[r]@->STRING_0.len()
                == 32)
    }

    /// Makes an empty table.
    pub fn new() -> (r: BCSV)
        ensures
            r.header == (Header { entrycount: 0, fieldcount: 0, entrydataoff: 0, entrysize: 0 }),
            r.fields@.len() == 0,
            r.values@.len() == 0,
            r.hash_table@ == Map::<u32, String>::empty(),
            r.wf(),
    {
        broadcast use vstd::std_specs::hash::group_hash_axioms;

        BCSV {
            header: Header { entrycount: 0, fieldcount: 0, entrydataoff: 0, entrysize: 0 },
            hash_table: HashMap::new(),
            fields: Vec::new(),
            values: Vec::new(),
        }
    }

    /// Hands out the declared indices in physical (write-order) sequence.
    fn sorted_indices(&self) -> (r: Vec<usize>)
        ensures
            r@ == spec_sorted_indices(self.fields@),
            forall|k: int| 0 <= k < r@.len() ==> (#[trigger] r@[k]) < self.fields@.len(),
    {
        let n = self.fields.len();
        let mut r: Vec<usize> = Vec::new();
        let mut rank: i32 = -1;
        proof {
            assert(r@ =~= spec_ranks_upto(self.fields@, -2));
        }
        while rank != 7
            invariant
                -1 <= rank <= 7,
                n == self.fields@.len(),
                r@ == spec_ranks_upto(self.fields@, rank - 1),
                forall|k: int| 0 <= k < r@.len() ==> (#[trigger] r@[k]) < n,
            decreases 7 - rank,
        {
            let mut j: usize = 0;
            let ghost prefix = r@;
            proof {
                assert(spec_rank_indices(self.fields@.take(0), rank as int) =~= Seq::<
                    usize,
                >::empty());
                assert(prefix + Seq::<usize>::empty() =~= prefix);
            }
            while j != n
                invariant
                    j <= n,
                    n == self.fields@.len(),
                    prefix == spec_ranks_upto(self.fields@, rank - 1),
                    r@ == prefix + spec_rank_indices(self.fields@.take(j as int), rank as int),
                    forall|k: int| 0 <= k < r@.len() ==> (#[trigger] r@[k]) < n,
                decreases n - j,
            {
                proof {
                    assert(self.fields@.take(j + 1).drop_last() =~= self.fields@.take(j as int));
                    assert(self.fields@.take(j + 1).last() == self.fields@[j as int]);
                }
                if self.fields[j].get_field_type().order() == rank {
                    r.push(j);
                    proof {
                        assert(r@ =~= prefix + spec_rank_indices(
                            self.fields@.take(j + 1),
                            rank as int,
                        ));
                    }
                } else {
                    proof {
                        assert(prefix + spec_rank_indices(self.fields@.take(j + 1), rank as int)
                            =~= prefix + spec_rank_indices(self.fields@.take(j as int), rank as int));
                    }
                }
                j += 1;
            }
            proof {
                assert(self.fields@.take(n as int) =~= self.fields@);
            }
            rank = rank + 1;
        }
        r
    }

    /// Hands out the fields re-sequenced into physical (write-order) rank
    /// order; the canonical declared list is left as it is.
    pub fn sort_fields(&self) -> (r: Vec<Field>)
        ensures
            r@ == spec_sort_fields(self.fields@),
    {
        let idx = self.sorted_indices();
        let m = idx.len();
        let mut r: Vec<Field> = Vec::new();
        let mut k: usize = 0;
        while k != m
            invariant
                k <= m,
                m == idx@.len(),
                forall|t: int| 0 <= t < m ==> (#[trigger] idx@[t]) < self.fields@.len(),
                idx@ == spec_sorted_indices(self.fields@),
                r@.len() == k,
                forall|t: int|
                    0 <= t < k ==> (#[trigger] r@[t]) == spec_sort_fields(self.fields@)[t],
            decreases m - k,
        {
            r.push(self.fields[idx[k]]);
            k += 1;
        }
        proof {
            assert(r@ =~= spec_sort_fields(self.fields@));
        }
        r
    }

    /// Adds a field to the table, with a fresh column holding one default
    /// value per row.
    pub fn new_field(&mut self, field: Field)
        ensures
            final(self).header == old(self).header,
            final(self).hash_table == old(self).hash_table,
            final(self).fields@ == old(self).fields@.push(field),
            final(self).values@.len() == old(self).values@.len() + 1,
            forall|i: int|
                0 <= i < old(self).values@.len() ==> (#[trigger] final(self).values@[i]) == old(
                    self,
                ).values@[i],
            col_view((final(self).values@.last())@) == Seq::new(
                old(self).header.entrycount as nat,
                |r: int| ValueV::spec_new(field.spec_field_type()),
            ),
            old(self).wf() ==> final(self).wf(),
    {
        let ft = field.get_field_type();
        let ec = self.header.entrycount as usize;
        let mut col: Vec<Value> = Vec::new();
        let mut r: usize = 0;
        while r != ec
            invariant
                r <= ec,
                col@.len() == r,
                forall|t: int| 0 <= t < r ==> (#[trigger] col@[t])@ == ValueV::spec_new(ft),
            decreases ec - r,
        {
            col.push(Value::new(ft));
            r += 1;
        }
        proof {
            assert(col_view(col@) =~= Seq::new(
                self.header.entrycount as nat,
                |t: int| ValueV::spec_new(ft),
            ));
        }
        self.fields.push(field);
        self.values.push(col);
    }

    /// Finds the declared index of the first field with the given hash;
    /// two descriptors denote the same field exactly when their hashes
    /// match.
    pub fn field_index(&self, hash: u32) -> (r: Option<usize>)
        ensures
            match r {
                Some(i) => i < self.fields@.len() && self.fields@[i as int].hash == hash && (forall|
                    j: int,
                |
                    0 <= j < i ==> (#[trigger] self.fields@[j]).hash != hash),
                None => forall|j: int|
                    0 <= j < self.fields@.len() ==> (#[trigger] self.fields@[j]).hash != hash,
            },
    {
        let n = self.fields.len();
        let mut i: usize = 0;
        while i != n
            invariant
                i <= n,
                n == self.fields@.len(),
                forall|j: int| 0 <= j < i ==> (#[trigger] self.fields@[j]).hash != hash,
            decreases n - i,
        {
            if self.fields[i].hash == hash {
                return Some(i);
            }
            i += 1;
        }
        None
    }

    /// Hands out a copy of the column owned by the given field, looked up
    /// by its hash.
    pub fn get_values(&self, field: &Field) -> (r: Option<Vec<Value>>)
        ensures
            ({
                let i = spec_first_hash_index(self.fields@, field.hash);
                match r {
                    Some(col) => 0 <= i < self.values@.len() && col_view(col@) == col_view(
                        self.values@[i]@,
                    ),
                    None => i < 0 || i >= self.values@.len(),
                }
            }),
    {
        proof {
            lemma_first_hash_index(self.fields@, field.hash);
        }
        if let Some(i) = self.field_index(field.hash) {
            proof {
                assert(i as int == spec_first_hash_index(self.fields@, field.hash)) by {
                    lemma_first_hash_index(self.fields@, field.hash);
                    let s = spec_first_hash_index(self.fields@, field.hash);
                    if s < i {
                        assert(self.fields@[s].hash == field.hash);
                    }
                    if s > i {
                        assert(self.fields@[i as int].hash == field.hash);
                    }
                }
            }
            if i < self.values.len() {
                let src = &self.values[i];
                let m = src.len();
                let mut col: Vec<Value> = Vec::new();
                let mut k: usize = 0;
                while k != m
                    invariant
                        k <= m,
                        m == src@.len(),
                        src@ == self.values@[i as int]@,
                        col@.len() == k,
                        forall|t: int| 0 <= t < k ==> (#[trigger] col@[t])@ == src@[t]@,
                    decreases m - k,
                {
                    col.push(src[k].duplicate());
                    k += 1;
                }
                proof {
                    assert(col_view(col@) =~= col_view(src@));
                }
                return Some(col);
            }
        }
        None
    }

    /// Appends one value to the column of the given field; nothing happens
    /// when the value's type differs from the field's, or when the table
    /// has no such field.
    pub fn add_value(&mut self, field: Field, value: Value)
        ensures
            final(self).header == old(self).header,
            final(self).hash_table == old(self).hash_table,
            final(self).fields == old(self).fields,
            ({
                let oldvals = old(self).values@;
                let newvals = final(self).values@;
                let i = spec_first_hash_index(old(self).fields@, field.hash);
                if value@.spec_fieldtype() == field.spec_field_type() && 0 <= i < oldvals.len() {
                    &&& newvals.len() == oldvals.len()
                    &&& (forall|j: int|
                        0 <= j < oldvals.len() && j != i ==> (#[trigger] newvals[j]) == oldvals[j])
                    &&& col_view(newvals[i]@) == col_view(oldvals[i]@).push(value@)
                } else {
                    newvals == oldvals
                }
            }),
    {
        if field.get_field_type().tag() != value.fieldtype().tag() {
            return ;
        }
        proof {
            lemma_first_hash_index(self.fields@, field.hash);
        }
        if let Some(i) = self.field_index(field.hash) {
            if i < self.values.len() {
                self.values[i].push(value);
            }
        }
    }

    /// Decides well-formedness at run time, so that unverified callers
    /// can test [`BCSV::wf`] — the write pipeline's precondition — before
    /// serializing a hand-built table.
    pub fn is_well_formed(&self) -> (r: bool)
        ensures
            r == self.wf(),
    {
        let nv = self.values.len();
        if nv != self.fields.len() {
            return false;
        }
        let ec = self.header.entrycount;
        let mut i: usize = 0;
        while i != nv
            invariant
                i <= nv,
                nv == self.values@.len(),
                ec == self.header.entrycount,
                forall|t: int|
                    0 <= t < i ==> (#[trigger] self.values@[t])@.len() == self.header.entrycount,
                forall|t: int, r2: int|
                    0 <= t < i && 0 <= r2 < self.values@[t]@.len() && (
                    #[trigger] self.values@[t]@[r2])@ is STRING
                        ==> self.values@[t]@[r2]@->STRING_0.len() == 32,
            decreases nv - i,
        {
            let col = &self.values[i];
            let m = col.len();
            if m as u64 != ec as u64 {
                return false;
            }
            let mut r2: usize = 0;
            while r2 != m
                invariant
                    r2 <= m,
                    m == col@.len(),
                    col@ == self.values@[i as int]@,
                    0 <= i < self.values@.len(),
                    forall|t: int|
                        0 <= t < r2 && (#[trigger] col@[t])@ is STRING ==> col@[t]@->STRING_0.len()
                            == 32,
                decreases m - r2,
            {
                match &col[r2] {
                    Value::STRING(sbuf) => {
                        if sbuf.len() != 32 {
                            return false;
                        }
                    },
                    _ => {},
                }
                r2 += 1;
            }
            i += 1;
        }
        true
    }

    /// Replaces one cell of one column.
    pub fn set_value(&mut self, index: usize, row: usize, value: Value)
        requires
            index < old(self).values@.len(),
            row < old(self).values@[index as int]@.len(),
        ensures
            final(self).header == old(self).header,
            final(self).hash_table == old(self).hash_table,
            final(self).fields == old(self).fields,
            final(self).values@.len() == old(self).values@.len(),
            ({
                let oldvals = old(self).values@;
                let newvals = final(self).values@;
                &&& (forall|j: int|
                    0 <= j < oldvals.len() && j != index ==> (#[trigger] newvals[j]) == oldvals[j])
                &&& col_view(newvals[index as int]@) == col_view(oldvals[index as int]@).update(
                    row as int,
                    value@,
                )
            }),
    {
        self.values[index][row] = value;
        proof {
            assert(col_view(self.values@[index as int]@) =~= col_view(
                old(self).values@[index as int]@,
            ).update(row as int, value@));
        }
    }

    /// Replaces the field at a declared index while its column stays in
    /// place: the explicit rekey of a column, with no intermediate state.
    pub fn set_field(&mut self, index: usize, field: Field)
        requires
            index < old(self).fields@.len(),
        ensures
            final(self).header == old(self).header,
            final(self).hash_table == old(self).hash_table,
            final(self).values == old(self).values,
            final(self).fields@ == old(self).fields@.update(index as int, field),
    {
        self.fields[index] = field;
    }
}

/// The descriptors read from `data`: `fc` records of twelve bytes each,
/// beginning right after the sixteen header bytes, in stream order.
pub open spec fn spec_fields_at(data: Seq<u8>, e: Endian, fc: int) -> Seq<Field> {
    Seq::new(fc as nat, |i: int| Field::spec_at(data, 16 + 12 * i, e))
}

/// Whether `data` parses structurally: the header is complete, the
/// descriptor block is complete, and every value slot of every row lies
/// within the data. String resolution has no part here: it never fails a
/// read.
pub open spec fn spec_read_ok(data: Seq<u8>, e: Endian) -> bool {
    &&& data.len() >= 16
    &&& 16 + 12 * (Header::spec_at(data, e).fieldcount as int) <= data.len()
    &&& (forall|i: int, row: int|
        0 <= i < Header::spec_at(data, e).fieldcount as int && 0 <= row < Header::spec_at(
            data,
            e,
        ).entrycount ==> #[trigger] value_in_bounds(
            data,
            Header::spec_at(data, e),
            spec_fields_at(data, e, Header::spec_at(data, e).fieldcount as int)[i],
            row,
        ))
}

/// A structurally valid parse keeps every slot of every row inside the
/// data.
proof fn lemma_read_ok_in_bounds(data: Seq<u8>, e: Endian, i: int, row: int)
    requires
        spec_read_ok(data, e),
        0 <= i < Header::spec_at(data, e).fieldcount as int,
        0 <= row < Header::spec_at(data, e).entrycount,
    ensures
        value_in_bounds(
            data,
            Header::spec_at(data, e),
            spec_fields_at(data, e, Header::spec_at(data, e).fieldcount as int)[i],
            row,
        ),
{
}

/// The column a field yields: one decoded, transformed and resolved value
/// per row.
pub open spec fn spec_column_at(data: Seq<u8>, e: Endian, h: Header, f: Field) -> Seq<ValueV> {
    Seq::new(
        h.entrycount as nat,
        |row: int| spec_resolved(spec_value_at(data, e, h, f, row), data, h),
    )
}

/// All columns of a parse, one per descriptor, in declared order.
pub open spec fn spec_parse_columns(data: Seq<u8>, e: Endian, h: Header, fields: Seq<Field>) -> Seq<
    Seq<ValueV>,
> {
    Seq::new(fields.len(), |i: int| spec_column_at(data, e, h, fields[i]))
}

impl BCSV {
    /// The read pipeline: parses the header, then the descriptor block,
    /// then decodes every row of every column with the read transform
    /// applied, and finally resolves every string-offset value against the
    /// string-table region. Fails with `TruncatedInput` exactly when the
    /// header, the descriptor block, or any value slot reaches past the
    /// end of `data`; a string that cannot be resolved keeps an empty
    /// string and fails nothing. The hash lookup table is kept as it is.
    pub fn read(&mut self, data: &Vec<u8>, endian: Endian) -> (r: Result<(), BcsvError>)
        ensures
            r is Ok <==> spec_read_ok(data@, endian),
            r is Ok ==> ({
                let h = Header::spec_at(data@, endian);
                &&& final(self).header == h
                &&& final(self).fields@ == spec_fields_at(data@, endian, h.fieldcount as int)
                &&& spec_columns(final(self).values@) == spec_parse_columns(
                    data@,
                    endian,
                    h,
                    final(self).fields@,
                )
                &&& final(self).wf()
            }),
            final(self).hash_table == old(self).hash_table,
            r is Err ==> r->Err_0 == BcsvError::TruncatedInput,
    {
        let n = data.len();
        if n < 16 {
            return Err(BcsvError::TruncatedInput);
        }
        let header = Header::from_bytes(data, endian);
        self.header = header;
        self.fields = Vec::new();
        self.values = Vec::new();
        if 16u64 + 12u64 * (header.fieldcount as u64) > n as u64 {
            return Err(BcsvError::TruncatedInput);
        }
        let fc = header.fieldcount as usize;
        let mut i: usize = 0;
        while i != fc
            invariant
                i <= fc,
                n == data@.len(),
                16 + 12 * fc <= n,
                fc == header.fieldcount,
                header == Header::spec_at(data@, endian),
                self.header == header,
                self.hash_table == old(self).hash_table,
                self.values@.len() == 0,
                self.fields@.len() == i,
                forall|t: int|
                    0 <= t < i ==> (#[trigger] self.fields@[t]) == Field::spec_at(
                        data@,
                        16 + 12 * t,
                        endian,
                    ),
            decreases fc - i,
        {
            let f = Field::from_bytes(data, 16 + 12 * i, endian);
            self.fields.push(f);
            i += 1;
        }
        proof {
            assert(self.fields@ =~= spec_fields_at(data@, endian, header.fieldcount as int));
        }
        let ec = header.entrycount;
        let mut i: usize = 0;
        while i != fc
            invariant
                i <= fc,
                n == data@.len(),
                16 + 12 * fc <= n,
                fc == header.fieldcount,
                ec == header.entrycount,
                header == Header::spec_at(data@, endian),
                self.header == header,
                self.hash_table == old(self).hash_table,
                self.fields@ == spec_fields_at(data@, endian, header.fieldcount as int),
                self.fields@.len() == fc,
                self.values@.len() == i,
                forall|t: int, row: int|
                    0 <= t < i && 0 <= row < ec ==> #[trigger] value_in_bounds(
                        data@,
                        header,
                        self.fields@[t],
                        row,
                    ),
                forall|t: int|
                    0 <= t < i ==> col_view((#[trigger] self.values@[t])@) == spec_column_at(
                        data@,
                        endian,
                        header,
                        self.fields@[t],
                    ),
                forall|t: int, r2: int|
                    0 <= t < i && 0 <= r2 < self.values@[t]@.len() && (
                    #[trigger] self.values@[t]@[r2])@ is STRING ==> self.values@[t]@[r2]@->STRING_0.len()
                        == 32,
            decreases fc - i,
        {
            let field = self.fields[i];
            let ft = field.get_field_type();
            let mut col: Vec<Value> = Vec::new();
            let mut row: u32 = 0;
            while row != ec
                invariant
                    row <= ec,
                    ec == header.entrycount,
                    n == data@.len(),
                    header == Header::spec_at(data@, endian),
                    field == spec_fields_at(data@, endian, header.fieldcount as int)[i as int],
                    0 <= i < header.fieldcount,
                    ft == field.spec_field_type(),
                    self.hash_table == old(self).hash_table,
                    col@.len() == row,
                    forall|t: int| 0 <= t < row ==> #[trigger] value_in_bounds(
                        data@,
                        header,
                        field,
                        t,
                    ),
                    forall|t: int|
                        0 <= t < row ==> (#[trigger] col@[t])@ == spec_resolved(
                            spec_value_at(data@, endian, header, field, t),
                            data@,
                            header,
                        ),
                    forall|t: int|
                        0 <= t < row && (#[trigger] col@[t])@ is STRING ==> col@[t]@->STRING_0.len()
                            == 32,
                decreases ec - row,
            {
                let mut v = Value::new(ft);
                match v.read(data, endian, row, header, field) {
                    Ok(_) => {},
                    Err(er) => {
                        proof {
                            let h = Header::spec_at(data@, endian);
                            let fs = spec_fields_at(data@, endian, h.fieldcount as int);
                            assert(h == header);
                            assert(fs[i as int] == field);
                            if spec_read_ok(data@, endian) {
                                lemma_read_ok_in_bounds(data@, endian, i as int, row as int);
                                assert(false);
                            }
                        }
                        return Err(er);
                    },
                }
                v.calc_stringoff(data, header);
                col.push(v);
                row += 1;
            }
            self.values.push(col);
            proof {
                assert(col_view(col@) =~= spec_column_at(data@, endian, header, field));
                assert(forall|t: int, r2: int|
                    0 <= t < i + 1 && 0 <= r2 < ec ==> #[trigger] value_in_bounds(
                        data@,
                        header,
                        self.fields@[t],
                        r2,
                    )) by {
                    assert forall|t: int, r2: int|
                        0 <= t < i + 1 && 0 <= r2 < ec implies #[trigger] value_in_bounds(
                        data@,
                        header,
                        self.fields@[t],
                        r2,
                    ) by {
                        if t == i {
                            assert(value_in_bounds(data@, header, field, r2));
                        }
                    }
                }
            }
            i += 1;
        }
        proof {
            assert(spec_read_ok(data@, endian));
            assert(spec_columns(self.values@) =~= spec_parse_columns(
                data@,
                endian,
                header,
                self.fields@,
            ));
        }
        Ok(())
    }
}

/// The descriptor block: the twelve bytes of each of the first `upto`
/// fields, in declared order.
pub open spec fn spec_descriptor_bytes(fields: Seq<Field>, e: Endian, upto: int) -> Seq<u8>
    decreases upto,
{
    if upto <= 0 {
        Seq::empty()
    } else {
        spec_descriptor_bytes(fields, e, upto - 1) + fields[upto - 1].spec_bytes(e)
    }
}

/// The values of a table in the order the row block emits them: row by
/// row, fields in physical (rank) sequence within each row.
pub open spec fn spec_write_vals(cols: Seq<Seq<ValueV>>, sorted: Seq<usize>, ec: int) -> Seq<
    ValueV,
> {
    Seq::new(
        (ec * sorted.len()) as nat,
        |m: int| cols[sorted[m % (sorted.len() as int)] as int][m / (sorted.len() as int)],
    )
}

/// The bytes of one emitted row slot: the value (with its interned string
/// offset already in place) packed by its field's write transform.
pub open spec fn spec_slot_bytes(
    fields: Seq<Field>,
    sorted: Seq<usize>,
    pvals: Seq<ValueV>,
    e: Endian,
    m: int,
) -> Seq<u8> {
    let f = fields[sorted[m % (sorted.len() as int)] as int];
    pvals[m].write_transformed(f.mask, f.shift).spec_bytes(e)
}

/// The row block: the first `upto` slots, concatenated in emission order.
pub open spec fn spec_rows_bytes(
    fields: Seq<Field>,
    sorted: Seq<usize>,
    pvals: Seq<ValueV>,
    e: Endian,
    upto: int,
) -> Seq<u8>
    decreases upto,
{
    if upto <= 0 {
        Seq::empty()
    } else {
        spec_rows_bytes(fields, sorted, pvals, e, upto - 1) + spec_slot_bytes(
            fields,
            sorted,
            pvals,
            e,
            upto - 1,
        )
    }
}

/// The serialized string table: each interned string's Shift-JIS bytes
/// followed by one null terminator, in ascending-offset order, tightly
/// packed.
pub open spec fn spec_strtab_bytes(entries: Seq<(Seq<char>, u32)>, upto: int) -> Seq<u8>
    decreases upto,
{
    if upto <= 0 {
        Seq::empty()
    } else {
        spec_strtab_bytes(entries, upto - 1) + sjis_encode_of(entries[upto - 1].0) + seq![0u8]
    }
}

/// How many fill bytes take a length up to the next 32-byte boundary.
pub open spec fn spec_pad_len(n: int) -> int {
    (32 - (n % 32)) % 32
}

/// The unpadded image of a table: header, descriptors with repacked
/// offsets in declared order, the row block in rank order with freshly
/// interned string offsets, and the string table.
pub open spec fn spec_serialized_body(
    header: Header,
    fields: Seq<Field>,
    cols: Seq<Seq<ValueV>>,
    e: Endian,
) -> Seq<u8> {
    let sorted = spec_sorted_indices(fields);
    let wvals = spec_write_vals(cols, sorted, header.entrycount as int);
    let stepped = spec_update_offs(Seq::empty(), wvals);
    header.spec_bytes(e) + spec_descriptor_bytes(
        spec_updated_fields(fields),
        e,
        fields.len() as int,
    ) + spec_rows_bytes(fields, sorted, stepped.1, e, wvals.len() as int) + spec_strtab_bytes(
        stepped.0,
        stepped.0.len() as int,
    )
}

/// The image the write pipeline appends for a table, when its header is
/// consistent: the unpadded image followed by `0x40` fill bytes up to a
/// 32-byte boundary.
pub open spec fn spec_serialized(
    header: Header,
    fields: Seq<Field>,
    cols: Seq<Seq<ValueV>>,
    e: Endian,
) -> Seq<u8> {
    let body = spec_serialized_body(header, fields, cols, e);
    body + Seq::new(spec_pad_len(body.len() as int) as nat, |j: int| 0x40u8)
}

/// Every produced image is a whole number of 32-byte blocks, and every
/// byte past the unpadded image is the `0x40` fill byte.
pub proof fn lemma_serialized_aligned(
    header: Header,
    fields: Seq<Field>,
    cols: Seq<Seq<ValueV>>,
    e: Endian,
)
    ensures
        spec_serialized(header, fields, cols, e).len() % 32 == 0,
        spec_serialized(header, fields, cols, e).len() == spec_serialized_body(
            header,
            fields,
            cols,
            e,
        ).len() + spec_pad_len(spec_serialized_body(header, fields, cols, e).len() as int),
        forall|j: int|
            spec_serialized_body(header, fields, cols, e).len() <= j < spec_serialized(
                header,
                fields,
                cols,
                e,
            ).len() ==> #[trigger] spec_serialized(header, fields, cols, e)[j] == 0x40u8,
{
    let body = spec_serialized_body(header, fields, cols, e);
    let n = body.len() as int;
    assert(0 <= n % 32 < 32);
    assert((n + spec_pad_len(n)) % 32 == 0) by (nonlinear_arith)
        requires
            spec_pad_len(n) == (32 - (n % 32)) % 32,
            n >= 0,
    ;
}

impl BCSV {
    /// Builds the declared field list with every data offset repacked:
    /// each field's new offset is the byte total of the fields that sit
    /// before it in the physical sequence.
    fn updated_fields(&self) -> (r: Vec<Field>)
        ensures
            r@ == spec_updated_fields(self.fields@),
    {
        let nf = self.fields.len();
        let mut r: Vec<Field> = Vec::new();
        let mut i: usize = 0;
        while i != nf
            invariant
                i <= nf,
                nf == self.fields@.len(),
                r@.len() == i,
                forall|t: int|
                    0 <= t < i ==> (#[trigger] r@[t]) == spec_updated_field(self.fields@, t),
            decreases nf - i,
        {
            let fi = self.fields[i];
            let ranki = fi.get_field_type().order();
            let mut doff: u128 = 0;
            let mut j: usize = 0;
            while j != nf
                invariant
                    j <= nf,
                    i < nf,
                    nf == self.fields@.len(),
                    fi == self.fields@[i as int],
                    ranki == fi.spec_field_type().spec_order(),
                    doff == spec_size_before(self.fields@, i as int, j as int),
                    doff <= 32 * j,
                decreases nf - j,
            {
                let fj = self.fields[j];
                let rankj = fj.get_field_type().order();
                if rankj < ranki || (rankj == ranki && j < i) {
                    doff = doff + fj.get_field_type().size() as u128;
                }
                j += 1;
            }
            r.push(
                Field {
                    hash: fi.hash,
                    mask: fi.mask,
                    dataoff: (doff % 0x10000) as u16,
                    shift: fi.shift,
                    datatype: fi.datatype,
                },
            );
            i += 1;
        }
        proof {
            assert(r@ =~= spec_updated_fields(self.fields@));
        }
        r
    }

    /// Recomputes the derived layout of the header and the fields from the
    /// current field list: repacks every data offset, sets the field
    /// count, the row-block offset right after the descriptor block, and
    /// the row stride to the byte total of all fields; an entry count of
    /// zero is filled in from the first column's length. Counters wrap at
    /// the width of their header field. Values and the hash table are
    /// untouched.
    pub fn update_layout(&mut self)
        ensures
            final(self).fields@ == spec_updated_fields(old(self).fields@),
            final(self).values == old(self).values,
            final(self).hash_table == old(self).hash_table,
            final(self).header.entrycount == (if old(self).header.entrycount == 0 && old(
                self,
            ).values@.len() > 0 {
                crate::hash::wrap32(old(self).values@[0]@.len() as int)
            } else {
                old(self).header.entrycount
            }),
            final(self).header.fieldcount == crate::hash::wrap32(old(self).fields@.len() as int),
            final(self).header.entrydataoff == crate::hash::wrap32(
                16 + 12 * old(self).fields@.len() as int,
            ),
            final(self).header.entrysize == crate::hash::wrap32(
                spec_size_total(old(self).fields@, old(self).fields@.len() as int),
            ),
    {
        let nf = self.fields.len();
        let upd = self.updated_fields();
        self.fields = upd;
        let mut total: u128 = 0;
        let mut j: usize = 0;
        while j != nf
            invariant
                j <= nf,
                nf == old(self).fields@.len(),
                self.fields@ == spec_updated_fields(old(self).fields@),
                self.values == old(self).values,
                self.hash_table == old(self).hash_table,
                self.header == old(self).header,
                total == spec_size_total(old(self).fields@, j as int),
                total <= 32 * j,
            decreases nf - j,
        {
            proof {
                assert(self.fields@[j as int].datatype == old(self).fields@[j as int].datatype);
            }
            total = total + self.fields[j].get_field_type().size() as u128;
            j += 1;
        }
        self.header.entrysize = (total % 0x1_0000_0000) as u32;
        self.header.fieldcount = (nf as u128 % 0x1_0000_0000) as u32;
        self.header.entrydataoff = ((16 + 12 * nf as u128) % 0x1_0000_0000) as u32;
        if self.header.entrycount == 0 && self.values.len() > 0 {
            self.header.entrycount = (self.values[0].len() as u128 % 0x1_0000_0000) as u32;
        }
    }
}

/// A value as the row block emits it: a string-offset value with its
/// freshly assigned offset in place, every other value as stored.
pub open spec fn spec_patched(wv: Seq<ValueV>, offs: Seq<u32>, m: int) -> ValueV {
    match wv[m] {
        ValueV::STRINGOFF(_, s) => ValueV::STRINGOFF(offs[m], s),
        v => v,
    }
}

/// The descriptor block of `upto` fields is `12 * upto` bytes long.
pub proof fn lemma_descriptor_block_len(fields: Seq<Field>, e: Endian, upto: int)
    requires
        0 <= upto <= fields.len(),
    ensures
        spec_descriptor_bytes(fields, e, upto).len() == 12 * upto,
    decreases upto,
{
    if upto > 0 {
        lemma_descriptor_block_len(fields, e, upto - 1);
        crate::types::lemma_field_bytes_len(fields[upto - 1], e);
    }
}

impl BCSV {
    /// The write pipeline: emits the stored header as it is, then the
    /// descriptors in declared order with repacked data offsets, then the
    /// row block row by row with the fields in physical rank sequence,
    /// each value packed by its field's write transform and each
    /// string-offset slot carrying the offset the deduplicating pool
    /// assigns in emission order; verifies that the row block ends exactly
    /// at the string-table offset the header claims, and otherwise fails
    /// with `LayoutMismatch`, leaving `out` untouched; then appends the
    /// string table and fills with `0x40` bytes up to a 32-byte boundary
    /// of the appended image.
    #[verifier::rlimit(100)]
    pub fn write(&self, out: &mut Vec<u8>, endian: Endian) -> (r: Result<(), BcsvError>)
        requires
            self.wf(),
        ensures
            ({
                let sorted = spec_sorted_indices(self.fields@);
                let cols = spec_columns(self.values@);
                let wvals = spec_write_vals(cols, sorted, self.header.entrycount as int);
                let stepped = spec_update_offs(Seq::empty(), wvals);
                let rows = spec_rows_bytes(
                    self.fields@,
                    sorted,
                    stepped.1,
                    endian,
                    wvals.len() as int,
                );
                &&& (r is Ok <==> 16 + 12 * self.fields@.len() + rows.len()
                    == self.header.spec_stringoffset())
                &&& (r is Ok ==> final(out)@ == old(out)@ + spec_serialized(
                    self.header,
                    self.fields@,
                    cols,
                    endian,
                ))
                &&& (r is Err ==> final(out)@ == old(out)@ && r->Err_0
                    == BcsvError::LayoutMismatch)
            }),
    {
        let ghost cols = spec_columns(self.values@);
        let base = out.len();
        self.header.push_bytes(out, endian);
        let upd = self.updated_fields();
        let nf = upd.len();
        let mut i: usize = 0;
        while i != nf
            invariant
                i <= nf,
                nf == self.fields@.len(),
                upd@ == spec_updated_fields(self.fields@),
                out@ == old(out)@ + self.header.spec_bytes(endian) + spec_descriptor_bytes(
                    upd@,
                    endian,
                    i as int,
                ),
            decreases nf - i,
        {
            let f = upd[i];
            f.push_bytes(out, endian);
            i += 1;
        }
        let ghost head = old(out)@ + self.header.spec_bytes(endian) + spec_descriptor_bytes(
            upd@,
            endian,
            nf as int,
        );
        let sorted = self.sorted_indices();
        let ns = sorted.len();
        let ec = self.header.entrycount;
        let ghost wvals = spec_write_vals(cols, sorted@, ec as int);
        proof {
            assert(wvals.len() == ec * ns);
            vstd::arithmetic::mul::lemma_mul_nonnegative(ec as int, ns as int);
        }
        let mut table = StringTable::new();
        let mut offs: Vec<u32> = Vec::new();
        let mut row: u32 = 0;
        proof {
            assert(wvals.take(0) =~= Seq::<ValueV>::empty());
        }
        while row != ec
            invariant
                row <= ec,
                ec == self.header.entrycount,
                ns == sorted@.len(),
                self.wf(),
                sorted@ == spec_sorted_indices(self.fields@),
                forall|t: int| 0 <= t < ns ==> (#[trigger] sorted@[t]) < self.fields@.len(),
                cols == spec_columns(self.values@),
                wvals == spec_write_vals(cols, sorted@, ec as int),
                table.wf(),
                offs@.len() == row * ns,
                table@ == spec_update_offs(Seq::empty(), wvals.take(row * ns)).0,
                forall|t: int|
                    0 <= t < row * ns ==> #[trigger] spec_update_offs(
                        Seq::empty(),
                        wvals.take(row * ns),
                    ).1[t] == spec_patched(wvals, offs@, t),
            decreases ec - row,
        {
            let mut k: usize = 0;
            while k != ns
                invariant
                    k <= ns,
                    row < ec,
                    ec == self.header.entrycount,
                    ns == sorted@.len(),
                    self.wf(),
                    sorted@ == spec_sorted_indices(self.fields@),
                    forall|t: int| 0 <= t < ns ==> (#[trigger] sorted@[t]) < self.fields@.len(),
                    cols == spec_columns(self.values@),
                    wvals == spec_write_vals(cols, sorted@, ec as int),
                    table.wf(),
                    offs@.len() == row * ns + k,
                    table@ == spec_update_offs(Seq::empty(), wvals.take(row * ns + k)).0,
                    forall|t: int|
                        0 <= t < row * ns + k ==> #[trigger] spec_update_offs(
                            Seq::empty(),
                            wvals.take(row * ns + k),
                        ).1[t] == spec_patched(wvals, offs@, t),
                decreases ns - k,
            {
                let ghost m = row * ns + k;
                proof {
                    assert(m + 1 <= ec * ns) by (nonlinear_arith)
                        requires
                            m == row * ns + k,
                            0 <= row < ec,
                            0 <= k < ns,
                    ;
                    vstd::arithmetic::div_mod::lemma_fundamental_div_mod_converse(
                        m,
                        ns as int,
                        row as int,
                        k as int,
                    );
                    assert(wvals.take(m + 1).drop_last() =~= wvals.take(m));
                    assert(wvals.take(m + 1).last() == wvals[m]);
                    assert(wvals[m] == cols[sorted@[k as int] as int][row as int]);
                }
                let ci = sorted[k];
                let rowu = row as usize;
                let ghost prior = spec_update_offs(Seq::empty(), wvals.take(m));
                proof {
                    assert(cols[ci as int] == col_view(self.values@[ci as int]@));
                    assert(wvals[m] == self.values@[ci as int]@[row as int]@);
                }
                match &self.values[ci][rowu] {
                    Value::STRINGOFF(o, s) => {
                        table.push(s.as_str());
                        let off2 = match table.find(s) {
                            Some(x) => x,
                            None => *o,
                        };
                        offs.push(off2);
                    },
                    _ => {
                        offs.push(0);
                    },
                }
                proof {
                    lemma_update_offs_len(Seq::empty(), wvals.take(m));
                    lemma_update_offs_len(Seq::empty(), wvals.take(m + 1));
                    let stepped = spec_update_offs(Seq::empty(), wvals.take(m + 1));
                    assert(stepped.0 == table@);
                    assert forall|t: int| 0 <= t < m + 1 implies #[trigger] spec_update_offs(
                        Seq::empty(),
                        wvals.take(m + 1),
                    ).1[t] == spec_patched(wvals, offs@, t) by {
                        if t < m {
                            assert(prior.1[t] == spec_patched(wvals, offs@.drop_last(), t));
                            assert(spec_patched(wvals, offs@.drop_last(), t) == spec_patched(
                                wvals,
                                offs@,
                                t,
                            ));
                        }
                    }
                }
                k += 1;
            }
            proof {
                assert(row * ns + ns == (row + 1) * ns) by (nonlinear_arith);
            }
            row += 1;
        }
        let ghost stepped = spec_update_offs(Seq::empty(), wvals);
        proof {
            assert(wvals.take(ec as int * ns as int) =~= wvals);
        }
        let total = offs.len();
        let mut m: usize = 0;
        while m != total
            invariant
                m <= total,
                total == offs@.len(),
                offs@.len() == ec * ns,
                ec == self.header.entrycount,
                ns == sorted@.len(),
                self.wf(),
                sorted@ == spec_sorted_indices(self.fields@),
                forall|t: int| 0 <= t < ns ==> (#[trigger] sorted@[t]) < self.fields@.len(),
                cols == spec_columns(self.values@),
                wvals == spec_write_vals(cols, sorted@, ec as int),
                stepped == spec_update_offs(Seq::empty(), wvals),
                forall|t: int|
                    0 <= t < wvals.len() ==> #[trigger] stepped.1[t] == spec_patched(
                        wvals,
                        offs@,
                        t,
                    ),
                head == old(out)@ + self.header.spec_bytes(endian) + spec_descriptor_bytes(
                    spec_updated_fields(self.fields@),
                    endian,
                    self.fields@.len() as int,
                ),
                out@ == head + spec_rows_bytes(self.fields@, sorted@, stepped.1, endian, m as int),
            decreases total - m,
        {
            proof {
                if ns == 0 {
                    assert(ec * ns == 0) by (nonlinear_arith)
                        requires
                            ns == 0,
                    ;
                }
                assert(ns > 0);
                vstd::arithmetic::div_mod::lemma_fundamental_div_mod(m as int, ns as int);
                lemma_update_offs_len(Seq::empty(), wvals);
            }
            let k = m % ns;
            let rowu = m / ns;
            let ci = sorted[k];
            let f = self.fields[ci];
            proof {
                assert(rowu < ec) by (nonlinear_arith)
                    requires
                        0 < ns,
                        m == (m / ns) * ns + (m % ns) && 0 <= m % ns < ns,
                        rowu == m / ns,
                        m < ec * ns,
                ;
                assert(wvals[m as int] == cols[sorted@[k as int] as int][rowu as int]);
                assert(cols[ci as int] == col_view(self.values@[ci as int]@));
                assert(wvals[m as int] == self.values@[ci as int]@[rowu as int]@);
                assert(stepped.1[m as int] == spec_patched(wvals, offs@, m as int));
            }
            match &self.values[ci][rowu] {
                Value::STRINGOFF(_, _) => {
                    crate::codec::push_u32(out, offs[m], endian);
                },
                v => {
                    let mut tmp = v.duplicate();
                    tmp.calc_write(f);
                    tmp.write(out, endian);
                },
            }
            proof {
                assert(out@ =~= head + spec_rows_bytes(
                    self.fields@,
                    sorted@,
                    stepped.1,
                    endian,
                    m + 1,
                ));
            }
            m += 1;
        }
        proof {
            crate::types::lemma_header_bytes_len(self.header, endian);
            lemma_descriptor_block_len(
                spec_updated_fields(self.fields@),
                endian,
                self.fields@.len() as int,
            );
        }
        let so = self.header.stringoffset();
        let pos = out.len() - base;
        if pos as u64 != so {
            out.truncate(base);
            proof {
                assert(out@ =~= old(out)@);
            }
            return Err(BcsvError::LayoutMismatch);
        }
        let strs = table.data();
        let nstr = strs.len();
        let ghost pre_tab = out@;
        let mut t: usize = 0;
        while t != nstr
            invariant
                t <= nstr,
                nstr == strs@.len(),
                strs@.len() == table@.len(),
                forall|u: int| 0 <= u < nstr ==> (#[trigger] strs@[u])@ == table@[u].0,
                out@ == pre_tab + spec_strtab_bytes(table@, t as int),
            decreases nstr - t,
        {
            let enc = sjis_encode(strs[t].as_str());
            out.extend_from_slice(enc.as_slice());
            out.push(0u8);
            proof {
                assert(out@ =~= pre_tab + spec_strtab_bytes(table@, t + 1));
            }
            t += 1;
        }
        let body_len = out.len() - base;
        let pad = (32 - (body_len % 32)) % 32;
        let ghost pre_pad = out@;
        let mut p: usize = 0;
        while p != pad
            invariant
                p <= pad,
                out@.len() == pre_pad.len() + p,
                pre_pad.len() >= base,
                forall|u: int|
                    0 <= u < p ==> #[trigger] out@[pre_pad.len() + u] == 0x40u8,
                out@.take(pre_pad.len() as int) == pre_pad,
            decreases pad - p,
        {
            out.push(0x40u8);
            proof {
                assert(out@.take(pre_pad.len() as int) =~= pre_pad);
            }
            p += 1;
        }
        proof {
            let body = self.header.spec_bytes(endian) + spec_descriptor_bytes(
                spec_updated_fields(self.fields@),
                endian,
                self.fields@.len() as int,
            ) + spec_rows_bytes(self.fields@, sorted@, stepped.1, endian, wvals.len() as int)
                + spec_strtab_bytes(table@, table@.len() as int);
            assert(pre_pad =~= old(out)@ + body);
            assert(body.len() == body_len);
            assert(pad == spec_pad_len(body.len() as int));
            let padseq = Seq::new(spec_pad_len(body.len() as int) as nat, |j: int| 0x40u8);
            assert(out@.len() == old(out)@.len() + body.len() + padseq.len());
            assert forall|u: int|
                0 <= u < out@.len() implies out@[u] == (old(out)@ + body + padseq)[u] by {
                if u < pre_pad.len() {
                    assert(out@.take(pre_pad.len() as int)[u] == out@[u]);
                } else {
                    assert(out@[pre_pad.len() + (u - pre_pad.len())] == 0x40u8);
                }
            }
            assert(out@ =~= old(out)@ + body + padseq);
            let ser = spec_serialized(self.header, self.fields@, cols, endian);
            assert(ser =~= body + padseq);
            assert(out@ =~= old(out)@ + ser);
        }
        Ok(())
    }

    /// Serializes the table into a fresh byte buffer; the write pipeline's
    /// alias that owns its scratch space.
    pub fn to_bytes(&self, endian: Endian) -> (r: Result<Vec<u8>, BcsvError>)
        requires
            self.wf(),
        ensures
            ({
                let sorted = spec_sorted_indices(self.fields@);
                let cols = spec_columns(self.values@);
                let wvals = spec_write_vals(cols, sorted, self.header.entrycount as int);
                let stepped = spec_update_offs(Seq::empty(), wvals);
                let rows = spec_rows_bytes(
                    self.fields@,
                    sorted,
                    stepped.1,
                    endian,
                    wvals.len() as int,
                );
                &&& (r is Ok <==> 16 + 12 * self.fields@.len() + rows.len()
                    == self.header.spec_stringoffset())
                &&& (r is Ok ==> (r->Ok_0)@ == spec_serialized(
                    self.header,
                    self.fields@,
                    cols,
                    endian,
                ))
                &&& (r is Err ==> r->Err_0 == BcsvError::LayoutMismatch)
            }),
    {
        let mut out: Vec<u8> = Vec::new();
        match self.write(&mut out, endian) {
            Ok(_) => {
                proof {
                    assert(out@ =~= spec_serialized(
                        self.header,
                        self.fields@,
                        spec_columns(self.values@),
                        endian,
                    ));
                }
                Ok(out)
            },
            Err(e) => Err(e),
        }
    }
}

/// The first declared index carrying the given hash, or -1.
pub open spec fn spec_first_hash_index(fields: Seq<Field>, hash: u32) -> int
    decreases fields.len(),
{
    if fields.len() == 0 {
        -1
    } else if fields.first().hash == hash {
        0
    } else {
        let rest = spec_first_hash_index(fields.drop_first(), hash);
        if rest < 0 {
            -1
        } else {
            rest + 1
        }
    }
}

/// What the first-index scan finds: -1 exactly when no field carries the
/// hash, else the earliest declared index that does.
pub proof fn lemma_first_hash_index(fields: Seq<Field>, hash: u32)
    ensures
        spec_first_hash_index(fields, hash) < 0 ==> forall|j: int|
            0 <= j < fields.len() ==> (#[trigger] fields[j]).hash != hash,
        spec_first_hash_index(fields, hash) >= 0 ==> {
            let i = spec_first_hash_index(fields, hash);
            &&& i < fields.len()
            &&& fields[i].hash == hash
            &&& forall|j: int| 0 <= j < i ==> (#[trigger] fields[j]).hash != hash
        },
    decreases fields.len(),
{
    if fields.len() > 0 && fields.first().hash != hash {
        lemma_first_hash_index(fields.drop_first(), hash);
        assert forall|j: int| 1 <= j < fields.len() implies (#[trigger] fields[j])
            == fields.drop_first()[j - 1] by {}
    }
}

} // verus!
