//! Round-trip facts about the two pipelines: what the read pipeline's
//! parse functions recover from an image the write pipeline produced.
//!
//! [`crate::bcsv::BCSV::read`] promises its result through
//! [`crate::types::Header::spec_at`], [`crate::bcsv::spec_fields_at`] and
//! [`crate::bcsv::spec_parse_columns`], and [`crate::bcsv::BCSV::to_bytes`]
//! promises its output equals [`crate::bcsv::spec_serialized`]; the laws
//! here relate exactly those functions, so they carry over to the
//! executable pipelines. The capstone is [`lemma_table_round_trip`]: for a
//! canonical table, parsing the written image restores the table, and so
//! rewriting what was parsed reproduces the bytes
//! ([`lemma_bytes_round_trip`]).

use crate::bcsv::{
    spec_descriptor_bytes, spec_fields_at, spec_serialized, spec_serialized_body,
    spec_updated_fields,
};
use crate::codec::{
    lemma_u16_at_of_bytes, lemma_u16_round_trip, lemma_u32_at_of_bytes, lemma_u32_round_trip,
    Endian,
};
use crate::string_table::spec_update_offs;
use crate::types::{lemma_field_bytes_len, lemma_header_bytes_len, Field, FieldType, Header, ValueV};
use vstd::prelude::*;

verus! {

/// A descriptor block hands each field's twelve bytes back from its slot.
proof fn lemma_descriptor_subrange(fields: Seq<Field>, e: Endian, upto: int, i: int)
    requires
        0 <= i < upto <= fields.len(),
    ensures
        spec_descriptor_bytes(fields, e, upto).len() == 12 * upto,
        spec_descriptor_bytes(fields, e, upto).subrange(12 * i, 12 * i + 12) == fields[i].spec_bytes(
            e,
        ),
    decreases upto,
{
    crate::bcsv::lemma_descriptor_block_len(fields, e, upto);
    lemma_field_bytes_len(fields[upto - 1], e);
    if i == upto - 1 {
        crate::bcsv::lemma_descriptor_block_len(fields, e, upto - 1);
        assert(spec_descriptor_bytes(fields, e, upto).subrange(12 * i, 12 * i + 12)
            =~= fields[i].spec_bytes(e));
    } else {
        lemma_descriptor_subrange(fields, e, upto - 1, i);
        assert(spec_descriptor_bytes(fields, e, upto).subrange(12 * i, 12 * i + 12)
            =~= spec_descriptor_bytes(fields, e, upto - 1).subrange(12 * i, 12 * i + 12));
    }
}

/// A descriptor written anywhere into a buffer reads back as itself.
proof fn lemma_field_at_of_bytes(data: Seq<u8>, off: int, f: Field, e: Endian)
    requires
        0 <= off,
        off + 12 <= data.len(),
        data.subrange(off, off + 12) == f.spec_bytes(e),
    ensures
        Field::spec_at(data, off, e) == f,
{
    lemma_u32_round_trip(f.hash, e);
    lemma_u32_round_trip(f.mask, e);
    lemma_u16_round_trip(f.dataoff, e);
    assert forall|t: int|
        0 <= t < 4 implies data.subrange(off, off + 4)[t] == crate::codec::spec_u32_bytes(
        f.hash,
        e,
    )[t] by {
        assert(data.subrange(off, off + 4)[t] == data[off + t]);
        assert(data[off + t] == data.subrange(off, off + 12)[t]);
        assert(f.spec_bytes(e)[t] == crate::codec::spec_u32_bytes(f.hash, e)[t]);
    }
    assert(data.subrange(off, off + 4) =~= crate::codec::spec_u32_bytes(f.hash, e));
    lemma_u32_at_of_bytes(data, off, f.hash, e);
    assert forall|t: int|
        0 <= t < 4 implies data.subrange(off + 4, off + 8)[t] == crate::codec::spec_u32_bytes(
        f.mask,
        e,
    )[t] by {
        assert(data.subrange(off + 4, off + 8)[t] == data[off + 4 + t]);
        assert(data[off + 4 + t] == data.subrange(off, off + 12)[t + 4]);
        assert(f.spec_bytes(e)[t + 4] == crate::codec::spec_u32_bytes(f.mask, e)[t]);
    }
    assert(data.subrange(off + 4, off + 8) =~= crate::codec::spec_u32_bytes(f.mask, e));
    lemma_u32_at_of_bytes(data, off + 4, f.mask, e);
    assert forall|t: int|
        0 <= t < 2 implies data.subrange(off + 8, off + 10)[t] == crate::codec::spec_u16_bytes(
        f.dataoff,
        e,
    )[t] by {
        assert(data.subrange(off + 8, off + 10)[t] == data[off + 8 + t]);
        assert(data[off + 8 + t] == data.subrange(off, off + 12)[t + 8]);
        assert(f.spec_bytes(e)[t + 8] == crate::codec::spec_u16_bytes(f.dataoff, e)[t]);
    }
    assert(data.subrange(off + 8, off + 10) =~= crate::codec::spec_u16_bytes(f.dataoff, e));
    lemma_u16_at_of_bytes(data, off + 8, f.dataoff, e);
    assert(data[off + 10] == data.subrange(off, off + 12)[10]);
    assert(f.spec_bytes(e)[10] == f.shift);
    assert(data[off + 11] == data.subrange(off, off + 12)[11]);
    assert(f.spec_bytes(e)[11] == f.datatype);
}

/// A value whose packing transform loses nothing: unpacking the packed
/// value restores it. This holds of every value a read produced (the
/// masked, shifted word is all a read ever keeps) and of any value whose
/// bits lie within its field's mask above its field's shift.
pub open spec fn spec_normalized(v: ValueV, mask: u32, shift: u8) -> bool {
    v.write_transformed(mask, shift).read_transformed(mask, shift) == v
}

/// A value as the structural decode sees it: a string-offset value's
/// string is not yet resolved.
pub open spec fn spec_unresolved(v: ValueV) -> ValueV {
    match v {
        ValueV::STRINGOFF(o, _) => ValueV::STRINGOFF(o, Seq::empty()),
        x => x,
    }
}

/// The law of the value-slot round trip: a slot holding the packed bytes
/// of a type-matching value decodes, after the read transform, to the
/// packed-then-unpacked value — so to the value itself whenever its
/// packing loses nothing. Resolution of a string-offset value's string is
/// a later, separate step.
pub proof fn lemma_slot_parses_back(
    data: Seq<u8>,
    e: Endian,
    header: Header,
    field: Field,
    row: int,
    v: ValueV,
)
    requires
        v.spec_fieldtype() == field.spec_field_type(),
        v matches ValueV::STRING(s) ==> s.len() == 32,
        0 <= crate::types::spec_value_off(header, field, row),
        crate::types::value_in_bounds(data, header, field, row),
        data.subrange(
            crate::types::spec_value_off(header, field, row),
            crate::types::spec_value_off(header, field, row)
                + field.spec_field_type().spec_size(),
        ) == v.write_transformed(field.mask, field.shift).spec_bytes(e),
    ensures
        crate::types::spec_value_at(data, e, header, field, row) == spec_unresolved(
            v.write_transformed(field.mask, field.shift).read_transformed(
                field.mask,
                field.shift,
            ),
        ),
        spec_normalized(v, field.mask, field.shift) ==> crate::types::spec_value_at(
            data,
            e,
            header,
            field,
            row,
        ) == spec_unresolved(v),
{
    let off = crate::types::spec_value_off(header, field, row);
    let packed = v.write_transformed(field.mask, field.shift);
    crate::transform::lemma_reinterpret_round_trip();
    match field.spec_field_type() {
        FieldType::LONG => {
            let l = packed->LONG_0;
            lemma_u32_at_of_bytes(data, off, crate::transform::as_u32_spec(l), e);
        },
        FieldType::STRING => {
            assert(data.subrange(off, off + 32) == packed->STRING_0);
        },
        FieldType::FLOAT => {
            lemma_u32_at_of_bytes(data, off, packed->FLOAT_0, e);
        },
        FieldType::ULONG => {
            lemma_u32_at_of_bytes(data, off, packed->ULONG_0, e);
        },
        FieldType::SHORT => {
            let s = packed->SHORT_0;
            lemma_u16_at_of_bytes(data, off, crate::transform::as_u16_spec(s), e);
        },
        FieldType::CHAR => {
            let c = packed->CHAR_0;
            assert(data[off] == crate::transform::as_u8_spec(c)) by {
                assert(data.subrange(off, off + 1)[0] == data[off]);
            }
        },
        FieldType::STRINGOFF => {
            let o = packed->STRINGOFF_0;
            lemma_u32_at_of_bytes(data, off, o, e);
        },
        FieldType::NULL => {
        },
    }
}

/// The write-order rank of the field at a declared index.
pub open spec fn rank_of(fields: Seq<Field>, j: int) -> int {
    fields[j].spec_field_type().spec_order() as int
}

/// The sum of the sizes of the fields at the listed declared indices.
pub open spec fn sum_idx(fields: Seq<Field>, idxs: Seq<usize>) -> int
    decreases idxs.len(),
{
    if idxs.len() == 0 {
        0
    } else {
        sum_idx(fields, idxs.drop_last()) + fields[idxs.last() as int].spec_field_type().spec_size()
    }
}

/// How many of the first `upto` fields carry the given rank.
pub open spec fn count_rank(fields: Seq<Field>, r: int, upto: int) -> int
    decreases upto,
{
    if upto <= 0 {
        0
    } else {
        count_rank(fields, r, upto - 1) + if rank_of(fields, upto - 1) == r {
            1int
        } else {
            0int
        }
    }
}

/// The sizes of the fields with the given rank among the first `upto`.
pub open spec fn size_rank_below(fields: Seq<Field>, r: int, upto: int) -> int
    decreases upto,
{
    if upto <= 0 {
        0
    } else {
        size_rank_below(fields, r, upto - 1) + if rank_of(fields, upto - 1) == r {
            fields[upto - 1].spec_field_type().spec_size() as int
        } else {
            0
        }
    }
}

/// The sizes of the fields with rank at most `r` among the first `upto`.
pub open spec fn ranks_size_below(fields: Seq<Field>, r: int, upto: int) -> int
    decreases r + 2,
{
    if r < -1 {
        0
    } else {
        ranks_size_below(fields, r - 1, upto) + size_rank_below(fields, r, upto)
    }
}

/// Every rank the order assigns lies between -1 and 6.
proof fn lemma_rank_range(fields: Seq<Field>, j: int)
    requires
        0 <= j < fields.len(),
    ensures
        -1 <= rank_of(fields, j) <= 6,
{
}

/// The indices of one rank bucket: all in range, all of that rank, listed
/// in ascending declared order, one per matching field.
proof fn lemma_rank_indices_shape(fields: Seq<Field>, r: int)
    requires
        fields.len() <= usize::MAX,
    ensures
        crate::bcsv::spec_rank_indices(fields, r).len() == count_rank(
            fields,
            r,
            fields.len() as int,
        ),
        forall|t: int|
            0 <= t < crate::bcsv::spec_rank_indices(fields, r).len() ==> {
                &&& (#[trigger] crate::bcsv::spec_rank_indices(fields, r)[t]) < fields.len()
                &&& rank_of(fields, crate::bcsv::spec_rank_indices(fields, r)[t] as int) == r
                &&& count_rank(fields, r, crate::bcsv::spec_rank_indices(fields, r)[t] as int)
                    == t
            },
    decreases fields.len(),
{
    if fields.len() > 0 {
        lemma_rank_indices_shape(fields.drop_last(), r);
        let prev = crate::bcsv::spec_rank_indices(fields.drop_last(), r);
        let b = crate::bcsv::spec_rank_indices(fields, r);
        assert forall|t: int|
            0 <= t < prev.len() implies (#[trigger] prev[t]) < fields.len() - 1 && rank_of(
            fields,
            prev[t] as int,
        ) == r && count_rank(fields, r, prev[t] as int) == t by {
            assert(rank_of(fields.drop_last(), prev[t] as int) == rank_of(fields, prev[t] as int));
            lemma_count_rank_prefix(fields, r, prev[t] as int);
        }
        lemma_count_rank_prefix(fields, r, fields.len() - 1);
        assert(count_rank(fields, r, fields.len() - 1) == prev.len());
        assert(fields.last() == fields[fields.len() - 1]);
        if rank_of(fields, fields.len() - 1) == r {
            assert(b =~= prev.push((fields.len() - 1) as usize));
        } else {
            assert(b =~= prev);
        }
        assert forall|t: int|
            0 <= t < b.len() implies (#[trigger] b[t]) < fields.len() && rank_of(
            fields,
            b[t] as int,
        ) == r && count_rank(fields, r, b[t] as int) == t by {
            if t < prev.len() {
                assert(b[t] == prev[t]);
            } else {
                assert(rank_of(fields, fields.len() - 1) == r);
                assert(b[t] == (fields.len() - 1) as usize);
            }
        }
    }
}

/// Counting over a prefix reads the same fields whether through the whole
/// list or its shortened form.
proof fn lemma_count_rank_prefix(fields: Seq<Field>, r: int, upto: int)
    requires
        0 <= upto < fields.len(),
    ensures
        count_rank(fields.drop_last(), r, upto) == count_rank(fields, r, upto),
        size_rank_below(fields.drop_last(), r, upto) == size_rank_below(fields, r, upto),
    decreases upto,
{
    if upto > 0 {
        lemma_count_rank_prefix(fields, r, upto - 1);
    }
}

/// How many of the first `upto` fields carry a rank at most `r`.
pub open spec fn count_ranks_upto(fields: Seq<Field>, r: int, upto: int) -> int
    decreases r + 2,
{
    if r < -1 {
        0
    } else {
        count_ranks_upto(fields, r - 1, upto) + count_rank(fields, r, upto)
    }
}

/// The physical position of declared index `i`: all fields of lower
/// ranks, then the earlier declared fields of its own rank.
pub open spec fn spec_pos(fields: Seq<Field>, i: int) -> int {
    count_ranks_upto(fields, rank_of(fields, i) - 1, fields.len() as int) + count_rank(
        fields,
        rank_of(fields, i),
        i,
    )
}

/// Counting matches over a longer prefix counts at least as many.
proof fn lemma_count_mono(fields: Seq<Field>, r: int, i: int, j: int)
    requires
        i <= j,
    ensures
        count_rank(fields, r, i) <= count_rank(fields, r, j),
    decreases j - i,
{
    if i < j {
        lemma_count_mono(fields, r, i, j - 1);
    }
}

/// A field of rank `r` sits in the rank bucket at the position that
/// counts its earlier rank mates.
proof fn lemma_bucket_at(fields: Seq<Field>, r: int, i: int)
    requires
        fields.len() <= usize::MAX,
        0 <= i < fields.len(),
        rank_of(fields, i) == r,
    ensures
        0 <= count_rank(fields, r, i) < crate::bcsv::spec_rank_indices(fields, r).len(),
        crate::bcsv::spec_rank_indices(fields, r)[count_rank(fields, r, i)] == i as usize,
    decreases fields.len(),
{
    lemma_rank_indices_shape(fields, r);
    lemma_count_mono(fields, r, i + 1, fields.len() as int);
    if i == fields.len() - 1 {
        lemma_rank_indices_shape(fields.drop_last(), r);
        lemma_count_rank_prefix(fields, r, i);
        assert(fields.last() == fields[fields.len() - 1]);
    } else {
        lemma_bucket_at(fields.drop_last(), r, i);
        lemma_count_rank_prefix(fields, r, i);
        assert(rank_of(fields.drop_last(), i) == rank_of(fields, i));
        let prev = crate::bcsv::spec_rank_indices(fields.drop_last(), r);
        let b = crate::bcsv::spec_rank_indices(fields, r);
        assert(fields.last() == fields[fields.len() - 1]);
        if rank_of(fields, fields.len() - 1) == r {
            assert(b =~= prev.push((fields.len() - 1) as usize));
        } else {
            assert(b =~= prev);
        }
        assert(b[count_rank(fields, r, i)] == prev[count_rank(fields.drop_last(), r, i)]);
    }
}

/// The size sum distributes over concatenation of index lists.
proof fn lemma_sum_idx_concat(fields: Seq<Field>, a: Seq<usize>, b: Seq<usize>)
    ensures
        sum_idx(fields, a + b) == sum_idx(fields, a) + sum_idx(fields, b),
    decreases b.len(),
{
    if b.len() == 0 {
        assert(a + b =~= a);
    } else {
        lemma_sum_idx_concat(fields, a, b.drop_last());
        assert((a + b).drop_last() =~= a + b.drop_last());
        assert((a + b).last() == b.last());
    }
}

/// The prefix of a rank bucket that lists the rank mates before `i` sums
/// to their sizes.
proof fn lemma_bucket_prefix_sum(fields: Seq<Field>, r: int, i: int)
    requires
        fields.len() <= usize::MAX,
        0 <= i <= fields.len(),
    ensures
        count_rank(fields, r, i) <= crate::bcsv::spec_rank_indices(fields, r).len(),
        sum_idx(fields, crate::bcsv::spec_rank_indices(fields, r).take(count_rank(fields, r, i)))
            == size_rank_below(fields, r, i),
    decreases i,
{
    lemma_rank_indices_shape(fields, r);
    lemma_count_mono(fields, r, i, fields.len() as int);
    let b = crate::bcsv::spec_rank_indices(fields, r);
    if i == 0 {
        assert(b.take(0) =~= Seq::<usize>::empty());
    } else {
        lemma_bucket_prefix_sum(fields, r, i - 1);
        if rank_of(fields, i - 1) == r {
            lemma_bucket_at(fields, r, i - 1);
            let c = count_rank(fields, r, i - 1);
            assert(b.take(c + 1).drop_last() =~= b.take(c));
            assert(b.take(c + 1).last() == b[c]);
        }
    }
}

/// The whole rank bucket sums to the sizes of all fields of that rank.
proof fn lemma_bucket_sum(fields: Seq<Field>, r: int)
    requires
        fields.len() <= usize::MAX,
    ensures
        sum_idx(fields, crate::bcsv::spec_rank_indices(fields, r)) == size_rank_below(
            fields,
            r,
            fields.len() as int,
        ),
{
    lemma_rank_indices_shape(fields, r);
    lemma_bucket_prefix_sum(fields, r, fields.len() as int);
    let b = crate::bcsv::spec_rank_indices(fields, r);
    assert(b.take(count_rank(fields, r, fields.len() as int)) =~= b);
}

/// The grouped prefix lengths: how many indices the buckets up to a rank
/// hold.
proof fn lemma_upto_len(fields: Seq<Field>, r: int)
    requires
        fields.len() <= usize::MAX,
        r >= -2,
    ensures
        crate::bcsv::spec_ranks_upto(fields, r).len() == count_ranks_upto(
            fields,
            r,
            fields.len() as int,
        ),
    decreases r + 2,
{
    if r >= -1 {
        lemma_upto_len(fields, r - 1);
        lemma_rank_indices_shape(fields, r);
    }
}

/// The grouped buckets up to a rank sum to the sizes of all fields of at
/// most that rank.
proof fn lemma_upto_fullsum(fields: Seq<Field>, r: int)
    requires
        fields.len() <= usize::MAX,
        r >= -2,
    ensures
        sum_idx(fields, crate::bcsv::spec_ranks_upto(fields, r)) == ranks_size_below(
            fields,
            r,
            fields.len() as int,
        ),
    decreases r + 2,
{
    if r >= -1 {
        lemma_upto_fullsum(fields, r - 1);
        lemma_sum_idx_concat(
            fields,
            crate::bcsv::spec_ranks_upto(fields, r - 1),
            crate::bcsv::spec_rank_indices(fields, r),
        );
        lemma_bucket_sum(fields, r);
    }
}

/// Counting one more field raises exactly the bucket of its rank.
proof fn lemma_counts_step(fields: Seq<Field>, r: int, u: int)
    requires
        0 <= u < fields.len(),
        r >= -2,
    ensures
        count_ranks_upto(fields, r, u + 1) == count_ranks_upto(fields, r, u) + if rank_of(
            fields,
            u,
        ) <= r {
            1int
        } else {
            0int
        },
        ranks_size_below(fields, r, u + 1) == ranks_size_below(fields, r, u) + if rank_of(
            fields,
            u,
        ) <= r {
            fields[u].spec_field_type().spec_size() as int
        } else {
            0
        },
    decreases r + 2,
{
    lemma_rank_range(fields, u);
    if r >= -1 {
        lemma_counts_step(fields, r - 1, u);
    }
}

/// Nothing is counted over an empty prefix.
proof fn lemma_counts_zero(fields: Seq<Field>, r: int)
    ensures
        count_ranks_upto(fields, r, 0) == 0,
        ranks_size_below(fields, r, 0) == 0,
    decreases r + 2,
{
    if r >= -1 {
        lemma_counts_zero(fields, r - 1);
    }
}

/// Every field is counted exactly once across all the rank buckets.
proof fn lemma_counts_total(fields: Seq<Field>, u: int)
    requires
        0 <= u <= fields.len(),
    ensures
        count_ranks_upto(fields, 6, u) == u,
    decreases u,
{
    if u > 0 {
        lemma_counts_total(fields, u - 1);
        lemma_counts_step(fields, 6, u - 1);
    } else {
        lemma_counts_zero(fields, 6);
    }
}

/// The bytes physically before declared index `i` split into the buckets
/// of lower ranks and the earlier declared mates of its own rank.
proof fn lemma_size_before_decomp(fields: Seq<Field>, i: int, u: int)
    requires
        0 <= i < fields.len(),
        0 <= u <= fields.len(),
    ensures
        crate::bcsv::spec_size_before(fields, i, u) == ranks_size_below(
            fields,
            rank_of(fields, i) - 1,
            u,
        ) + size_rank_below(
            fields,
            rank_of(fields, i),
            if i <= u {
                i
            } else {
                u
            },
        ),
    decreases u,
{
    if u > 0 {
        lemma_size_before_decomp(fields, i, u - 1);
        lemma_counts_step(fields, rank_of(fields, i) - 1, u - 1);
        lemma_rank_range(fields, u - 1);
    } else {
        lemma_counts_zero(fields, rank_of(fields, i) - 1);
    }
}

/// One row's total stride is the sum over all the rank buckets.
proof fn lemma_size_total_decomp(fields: Seq<Field>, u: int)
    requires
        0 <= u <= fields.len(),
    ensures
        crate::bcsv::spec_size_total(fields, u) == ranks_size_below(fields, 6, u),
    decreases u,
{
    if u > 0 {
        lemma_size_total_decomp(fields, u - 1);
        lemma_counts_step(fields, 6, u - 1);
        lemma_rank_range(fields, u - 1);
    } else {
        lemma_counts_zero(fields, 6);
    }
}

/// The law that ties the two field orders together: the field at declared
/// index `i` is emitted at physical position `spec_pos(fields, i)`, and
/// the slot bytes of all physically earlier fields total exactly the
/// repacked data offset assigned to `i`. The physical sequence holds one
/// position per field.
pub proof fn lemma_field_position(fields: Seq<Field>, i: int)
    requires
        fields.len() <= usize::MAX,
        0 <= i < fields.len(),
    ensures
        crate::bcsv::spec_sorted_indices(fields).len() == fields.len(),
        0 <= spec_pos(fields, i) < fields.len(),
        crate::bcsv::spec_sorted_indices(fields)[spec_pos(fields, i)] == i as usize,
        sum_idx(fields, crate::bcsv::spec_sorted_indices(fields).take(spec_pos(fields, i)))
            == crate::bcsv::spec_size_before(fields, i, fields.len() as int),
        sum_idx(fields, crate::bcsv::spec_sorted_indices(fields)) == crate::bcsv::spec_size_total(
            fields,
            fields.len() as int,
        ),
{
    let nf = fields.len() as int;
    let r = rank_of(fields, i);
    lemma_rank_range(fields, i);
    lemma_upto_len(fields, 6);
    lemma_counts_total(fields, nf);
    lemma_upto_fullsum(fields, 6);
    lemma_size_total_decomp(fields, nf);
    lemma_size_before_decomp(fields, i, nf);
    lemma_pos_and_sum(fields, 6, i);
}

/// Within the buckets up to `r_limit`, a field of admissible rank sits at
/// its physical position and the earlier positions sum to its share.
proof fn lemma_pos_and_sum(fields: Seq<Field>, r_limit: int, i: int)
    requires
        fields.len() <= usize::MAX,
        0 <= i < fields.len(),
        -1 <= r_limit,
        rank_of(fields, i) <= r_limit,
    ensures
        0 <= spec_pos(fields, i) < crate::bcsv::spec_ranks_upto(fields, r_limit).len(),
        crate::bcsv::spec_ranks_upto(fields, r_limit)[spec_pos(fields, i)] == i as usize,
        sum_idx(fields, crate::bcsv::spec_ranks_upto(fields, r_limit).take(spec_pos(fields, i)))
            == ranks_size_below(fields, rank_of(fields, i) - 1, fields.len() as int)
            + size_rank_below(fields, rank_of(fields, i), i),
    decreases r_limit + 2,
{
    let nf = fields.len() as int;
    let r = rank_of(fields, i);
    let pos = spec_pos(fields, i);
    lemma_rank_range(fields, i);
    lemma_upto_len(fields, r_limit);
    lemma_upto_len(fields, r_limit - 1);
    lemma_count_mono(fields, r, i + 1, nf);
    lemma_count_mono(fields, r, 0, i);
    lemma_counts_mono_rank(fields, r - 1, r_limit - 1, nf);
    if r == r_limit {
        let head = crate::bcsv::spec_ranks_upto(fields, r_limit - 1);
        let bucket = crate::bcsv::spec_rank_indices(fields, r_limit);
        let c = count_rank(fields, r, i);
        lemma_rank_indices_shape(fields, r_limit);
        lemma_bucket_at(fields, r, i);
        lemma_bucket_prefix_sum(fields, r, i);
        assert(pos == head.len() + c);
        assert(crate::bcsv::spec_ranks_upto(fields, r_limit)[pos] == bucket[c]);
        assert(crate::bcsv::spec_ranks_upto(fields, r_limit).take(pos) =~= head + bucket.take(c));
        lemma_sum_idx_concat(fields, head, bucket.take(c));
        lemma_upto_fullsum(fields, r_limit - 1);
    } else {
        lemma_pos_and_sum(fields, r_limit - 1, i);
        let head = crate::bcsv::spec_ranks_upto(fields, r_limit - 1);
        assert(pos < head.len());
        assert(crate::bcsv::spec_ranks_upto(fields, r_limit)[pos] == head[pos]);
        assert(crate::bcsv::spec_ranks_upto(fields, r_limit).take(pos) =~= head.take(pos));
    }
}

/// Wider rank limits count at least as many fields.
proof fn lemma_counts_mono_rank(fields: Seq<Field>, r1: int, r2: int, u: int)
    requires
        r1 <= r2,
    ensures
        count_ranks_upto(fields, r1, u) <= count_ranks_upto(fields, r2, u),
    decreases r2 - r1,
{
    if r1 < r2 {
        lemma_counts_mono_rank(fields, r1, r2 - 1, u);
        lemma_count_nonneg(fields, r2, u);
    }
}

/// A count of matches is never negative.
proof fn lemma_count_nonneg(fields: Seq<Field>, r: int, u: int)
    ensures
        count_rank(fields, r, u) >= 0,
    decreases u,
{
    if u > 0 {
        lemma_count_nonneg(fields, r, u - 1);
    }
}

/// A value's slot image is as long as its type's on-disk size, a fixed
/// 32-byte buffer aside, which is as long as its stored bytes.
proof fn lemma_value_bytes_len(v: ValueV, e: Endian)
    ensures
        v matches ValueV::STRING(s) ==> v.spec_bytes(e).len() == s.len(),
        !(v matches ValueV::STRING(s)) ==> v.spec_bytes(e).len()
            == v.spec_fieldtype().spec_size(),
{
    match v {
        ValueV::LONG(l) => {
            lemma_u32_round_trip(crate::transform::as_u32_spec(l), e);
        },
        ValueV::FLOAT(f) => {
            lemma_u32_round_trip(f, e);
        },
        ValueV::ULONG(u) => {
            lemma_u32_round_trip(u, e);
        },
        ValueV::SHORT(s) => {
            lemma_u16_round_trip(crate::transform::as_u16_spec(s), e);
        },
        ValueV::STRINGOFF(o, _) => {
            lemma_u32_round_trip(o, e);
        },
        _ => {
        },
    }
}

/// Well-shaped columns: one column per field with one value per row, each
/// value of its field's type, fixed string buffers 32 bytes long.
pub open spec fn cols_shaped(fields: Seq<Field>, cols: Seq<Seq<ValueV>>, ec: int) -> bool {
    &&& cols.len() == fields.len()
    &&& (forall|i: int| 0 <= i < cols.len() ==> (#[trigger] cols[i]).len() == ec)
    &&& (forall|i: int, r: int|
        0 <= i < cols.len() && 0 <= r < ec ==> (#[trigger] cols[i][r]).spec_fieldtype()
            == fields[i].spec_field_type())
    &&& (forall|i: int, r: int|
        0 <= i < cols.len() && 0 <= r < ec && (#[trigger] cols[i][r]) is STRING
            ==> cols[i][r]->STRING_0.len() == 32)
}

/// Well-shaped emission values: each matches the type of the field its
/// position belongs to, fixed string buffers 32 bytes long.
pub open spec fn pvals_shaped(
    fields: Seq<Field>,
    sorted: Seq<usize>,
    pvals: Seq<ValueV>,
) -> bool {
    forall|m: int|
        0 <= m < pvals.len() ==> {
            &&& (#[trigger] pvals[m]).spec_fieldtype() == fields[sorted[m % (
            sorted.len() as int)] as int].spec_field_type()
            &&& (pvals[m] is STRING ==> pvals[m]->STRING_0.len() == 32)
        }
}

/// The packing transform never changes a value's variant or a string
/// buffer's bytes.
proof fn lemma_write_transformed_shape(v: ValueV, mask: u32, shift: u8)
    ensures
        v.write_transformed(mask, shift).spec_fieldtype() == v.spec_fieldtype(),
        v matches ValueV::STRING(s) ==> v.write_transformed(mask, shift) == v,
{
}

/// The length of an emitted row block: whole rows of the full stride plus
/// the slots already emitted of the current row.
proof fn lemma_rows_len(
    fields: Seq<Field>,
    sorted: Seq<usize>,
    pvals: Seq<ValueV>,
    e: Endian,
    m: int,
)
    requires
        sorted.len() > 0,
        forall|t: int| 0 <= t < sorted.len() ==> (#[trigger] sorted[t]) < fields.len(),
        0 <= m <= pvals.len(),
        pvals_shaped(fields, sorted, pvals),
    ensures
        crate::bcsv::spec_rows_bytes(fields, sorted, pvals, e, m).len() == (m / (
        sorted.len() as int)) * sum_idx(fields, sorted) + sum_idx(
            fields,
            sorted.take(m % (sorted.len() as int)),
        ),
    decreases m,
{
    let ns = sorted.len() as int;
    let total = sum_idx(fields, sorted);
    if m == 0 {
        assert(sorted.take(0) =~= Seq::<usize>::empty());
        assert((0int / ns) * total == 0) by (nonlinear_arith)
            requires
                ns > 0,
        ;
    } else {
        lemma_rows_len(fields, sorted, pvals, e, m - 1);
        vstd::arithmetic::div_mod::lemma_fundamental_div_mod(m - 1, ns);
        let k = (m - 1) % ns;
        let q = (m - 1) / ns;
        vstd::arithmetic::mul::lemma_mul_is_commutative(ns, q);
        let f = fields[sorted[k] as int];
        let packed = pvals[m - 1].write_transformed(f.mask, f.shift);
        lemma_write_transformed_shape(pvals[m - 1], f.mask, f.shift);
        lemma_value_bytes_len(packed, e);
        assert(crate::bcsv::spec_slot_bytes(fields, sorted, pvals, e, m - 1).len()
            == f.spec_field_type().spec_size());
        assert(sum_idx(fields, sorted.take(k + 1)) == sum_idx(fields, sorted.take(k))
            + f.spec_field_type().spec_size()) by {
            assert(sorted.take(k + 1).drop_last() =~= sorted.take(k));
            assert(sorted.take(k + 1).last() == sorted[k]);
        }
        if k + 1 == ns {
            assert(sorted.take(ns) =~= sorted);
            assert(m == (q + 1) * ns) by (nonlinear_arith)
                requires
                    m - 1 == q * ns + k,
                    k + 1 == ns,
            ;
            vstd::arithmetic::div_mod::lemma_fundamental_div_mod_converse(m, ns, q + 1, 0);
            assert((q + 1) * total == q * total + total) by (nonlinear_arith);
            assert(sorted.take(0) =~= Seq::<usize>::empty());
        } else {
            vstd::arithmetic::div_mod::lemma_fundamental_div_mod_converse(m, ns, q, k + 1);
        }
    }
}

/// A longer emission never shortens the row block.
proof fn lemma_rows_len_mono(
    fields: Seq<Field>,
    sorted: Seq<usize>,
    pvals: Seq<ValueV>,
    e: Endian,
    a: int,
    b: int,
)
    requires
        a <= b,
    ensures
        crate::bcsv::spec_rows_bytes(fields, sorted, pvals, e, a).len()
            <= crate::bcsv::spec_rows_bytes(fields, sorted, pvals, e, b).len(),
    decreases b - a,
{
    if a < b {
        lemma_rows_len_mono(fields, sorted, pvals, e, a, b - 1);
    }
}

/// Each emitted slot reads back from its place inside the row block.
proof fn lemma_rows_subrange(
    fields: Seq<Field>,
    sorted: Seq<usize>,
    pvals: Seq<ValueV>,
    e: Endian,
    upto: int,
    m: int,
)
    requires
        0 <= m < upto <= pvals.len(),
    ensures
        crate::bcsv::spec_rows_bytes(fields, sorted, pvals, e, upto).len()
            == crate::bcsv::spec_rows_bytes(fields, sorted, pvals, e, m).len()
            + crate::bcsv::spec_slot_bytes(fields, sorted, pvals, e, m).len()
            + (crate::bcsv::spec_rows_bytes(fields, sorted, pvals, e, upto).len()
            - crate::bcsv::spec_rows_bytes(fields, sorted, pvals, e, m + 1).len()),
        crate::bcsv::spec_rows_bytes(fields, sorted, pvals, e, upto).subrange(
            crate::bcsv::spec_rows_bytes(fields, sorted, pvals, e, m).len() as int,
            crate::bcsv::spec_rows_bytes(fields, sorted, pvals, e, m).len()
                + crate::bcsv::spec_slot_bytes(fields, sorted, pvals, e, m).len() as int,
        ) == crate::bcsv::spec_slot_bytes(fields, sorted, pvals, e, m),
    decreases upto,
{
    let start = crate::bcsv::spec_rows_bytes(fields, sorted, pvals, e, m).len() as int;
    let slen = crate::bcsv::spec_slot_bytes(fields, sorted, pvals, e, m).len() as int;
    lemma_rows_len_mono(fields, sorted, pvals, e, m + 1, upto);
    assert(crate::bcsv::spec_rows_bytes(fields, sorted, pvals, e, m + 1).len() == start + slen);
    if m == upto - 1 {
        assert(crate::bcsv::spec_rows_bytes(fields, sorted, pvals, e, upto).subrange(
            start,
            start + slen,
        ) =~= crate::bcsv::spec_slot_bytes(fields, sorted, pvals, e, m));
    } else {
        lemma_rows_subrange(fields, sorted, pvals, e, upto - 1, m);
        lemma_rows_len_mono(fields, sorted, pvals, e, m + 1, upto - 1);
        assert(crate::bcsv::spec_rows_bytes(fields, sorted, pvals, e, upto).subrange(
            start,
            start + slen,
        ) =~= crate::bcsv::spec_rows_bytes(fields, sorted, pvals, e, upto - 1).subrange(
            start,
            start + slen,
        ));
    }
}

/// A field's share of a row never exceeds the whole row's stride.
proof fn lemma_size_before_le_total(fields: Seq<Field>, i: int, u: int)
    requires
        0 <= u,
    ensures
        0 <= crate::bcsv::spec_size_before(fields, i, u) <= crate::bcsv::spec_size_total(
            fields,
            u,
        ),
    decreases u,
{
    if u > 0 {
        lemma_size_before_le_total(fields, i, u - 1);
    }
}

/// Interning keeps every value's variant, and a string-offset value's
/// string.
proof fn lemma_update_offs_shape(entries: Seq<(Seq<char>, u32)>, vals: Seq<ValueV>)
    ensures
        spec_update_offs(entries, vals).1.len() == vals.len(),
        forall|m: int|
            0 <= m < vals.len() && (#[trigger] vals[m]) is STRINGOFF ==> spec_update_offs(
                entries,
                vals,
            ).1[m] is STRINGOFF && spec_update_offs(entries, vals).1[m]->STRINGOFF_1
                == vals[m]->STRINGOFF_1,
        forall|m: int|
            0 <= m < vals.len() && !((#[trigger] vals[m]) is STRINGOFF) ==> spec_update_offs(
                entries,
                vals,
            ).1[m] == vals[m],
    decreases vals.len(),
{
    if vals.len() > 0 {
        lemma_update_offs_shape(entries, vals.drop_last());
        let full = spec_update_offs(entries, vals);
        let prior = spec_update_offs(entries, vals.drop_last());
        assert forall|m: int| 0 <= m < vals.len() - 1 implies vals.drop_last()[m] == vals[m]
            && #[trigger] full.1[m] == prior.1[m] by {}
    }
}

/// Every physical position names a declared field.
proof fn lemma_sorted_elems(fields: Seq<Field>, r: int)
    requires
        r >= -2,
    ensures
        forall|t: int|
            0 <= t < crate::bcsv::spec_ranks_upto(fields, r).len() ==> (
            #[trigger] crate::bcsv::spec_ranks_upto(fields, r)[t]) < fields.len(),
    decreases r + 2,
{
    if r >= -1 {
        lemma_sorted_elems(fields, r - 1);
        lemma_rank_indices_elems(fields, r);
        let head = crate::bcsv::spec_ranks_upto(fields, r - 1);
        let bucket = crate::bcsv::spec_rank_indices(fields, r);
        assert forall|t: int|
            0 <= t < crate::bcsv::spec_ranks_upto(fields, r).len() implies (
        #[trigger] crate::bcsv::spec_ranks_upto(fields, r)[t]) < fields.len() by {
            if t < head.len() {
                assert(crate::bcsv::spec_ranks_upto(fields, r)[t] == head[t]);
            } else {
                assert(crate::bcsv::spec_ranks_upto(fields, r)[t] == bucket[t - head.len()]);
            }
        }
    }
}

/// Every bucket entry names a declared field.
proof fn lemma_rank_indices_elems(fields: Seq<Field>, r: int)
    ensures
        forall|t: int|
            0 <= t < crate::bcsv::spec_rank_indices(fields, r).len() ==> (
            #[trigger] crate::bcsv::spec_rank_indices(fields, r)[t]) < fields.len(),
    decreases fields.len(),
{
    if fields.len() > 0 {
        lemma_rank_indices_elems(fields.drop_last(), r);
        let prev = crate::bcsv::spec_rank_indices(fields.drop_last(), r);
        let b = crate::bcsv::spec_rank_indices(fields, r);
        assert(fields.last() == fields[fields.len() - 1]);
        if fields.last().spec_field_type().spec_order() as int == r {
            assert(b =~= prev.push((fields.len() - 1) as usize));
        } else {
            assert(b =~= prev);
        }
        assert forall|t: int| 0 <= t < b.len() implies (#[trigger] b[t]) < fields.len() by {
            if t < prev.len() {
                assert(b[t] == prev[t]);
            }
        }
    }
}

/// The law of the rows-layer round trip: in an image written for a
/// canonical table — header geometry consistent with the field list,
/// descriptors already repacked, one type-matching value per slot — the
/// read pipeline's slot decode at a field's repacked data offset
/// recovers, after the read transform, exactly the value the write
/// pipeline emitted there (its interned string offset included), up to
/// the not-yet-resolved string; so exactly that value whenever its
/// packing loses nothing.
pub proof fn lemma_rows_parse_back(
    header: Header,
    fields: Seq<Field>,
    cols: Seq<Seq<ValueV>>,
    e: Endian,
    i: int,
    row: int,
)
    requires
        fields.len() <= usize::MAX,
        fields == spec_updated_fields(fields),
        cols_shaped(fields, cols, header.entrycount as int),
        header.entrydataoff == 16 + 12 * fields.len(),
        header.entrysize == crate::bcsv::spec_size_total(fields, fields.len() as int),
        crate::bcsv::spec_size_total(fields, fields.len() as int) <= 0xFFFF,
        0 <= i < fields.len(),
        0 <= row < header.entrycount,
    ensures
        ({
            let ser = spec_serialized(header, fields, cols, e);
            let sorted = crate::bcsv::spec_sorted_indices(fields);
            let wvals = crate::bcsv::spec_write_vals(cols, sorted, header.entrycount as int);
            let pvals = spec_update_offs(Seq::empty(), wvals).1;
            let m = row * fields.len() + spec_pos(fields, i);
            &&& 0 <= m < pvals.len()
            &&& crate::types::value_in_bounds(ser, header, fields[i], row)
            &&& crate::types::spec_value_at(ser, e, header, fields[i], row) == spec_unresolved(
                pvals[m].write_transformed(fields[i].mask, fields[i].shift).read_transformed(
                    fields[i].mask,
                    fields[i].shift,
                ),
            )
            &&& (spec_normalized(pvals[m], fields[i].mask, fields[i].shift)
                ==> crate::types::spec_value_at(ser, e, header, fields[i], row)
                == spec_unresolved(pvals[m]))
        }),
{
    let nf = fields.len() as int;
    let ec = header.entrycount as int;
    let ser = spec_serialized(header, fields, cols, e);
    let body = spec_serialized_body(header, fields, cols, e);
    let sorted = crate::bcsv::spec_sorted_indices(fields);
    let wvals = crate::bcsv::spec_write_vals(cols, sorted, ec);
    let stepped = spec_update_offs(Seq::empty(), wvals);
    let pvals = stepped.1;
    let total = crate::bcsv::spec_size_total(fields, nf);
    let field = fields[i];
    let fsize = field.spec_field_type().spec_size() as int;

    lemma_field_position(fields, i);
    lemma_sorted_elems(fields, 6);
    let ns = sorted.len() as int;
    assert(ns == nf);
    let pos = spec_pos(fields, i);
    let m = row * nf + pos;
    assert(0 <= m < ec * ns && m % ns == pos && m / ns == row) by {
        assert(m < ec * ns && m >= 0) by (nonlinear_arith)
            requires
                m == row * ns + pos,
                0 <= row < ec,
                0 <= pos < ns,
        ;
        vstd::arithmetic::div_mod::lemma_fundamental_div_mod_converse(m, ns, row, pos);
    }
    crate::string_table::lemma_update_offs_len(Seq::empty(), wvals);
    lemma_update_offs_shape(Seq::empty(), wvals);
    assert(wvals.len() == ec * ns);
    assert(wvals[m] == cols[sorted[pos] as int][row]);
    assert(sorted[pos] == i as usize);
    assert(wvals[m] == cols[i][row]);

    // every emission value is shaped like its field
    assert(pvals_shaped(fields, sorted, pvals)) by {
        assert forall|t: int| 0 <= t < pvals.len() implies ((#[trigger] pvals[t]).spec_fieldtype()
            == fields[sorted[t % ns] as int].spec_field_type() && (pvals[t] is STRING
            ==> pvals[t]->STRING_0.len() == 32)) by {
            vstd::arithmetic::div_mod::lemma_fundamental_div_mod(t, ns);
            let kt = t % ns;
            let qt = t / ns;
            assert(0 <= kt < ns);
            assert(0 <= qt < ec) by (nonlinear_arith)
                requires
                    t == ns * qt + kt,
                    0 <= kt < ns,
                    0 <= t < ec * ns,
                    ns > 0,
            ;
            assert(wvals[t] == cols[sorted[kt] as int][qt]);
        }
    }

    // the slot of position m sits at the field's repacked data offset
    lemma_header_bytes_len(header, e);
    crate::bcsv::lemma_descriptor_block_len(spec_updated_fields(fields), e, nf);
    lemma_rows_len(fields, sorted, pvals, e, m);
    lemma_rows_len(fields, sorted, pvals, e, wvals.len() as int);
    let sbefore = crate::bcsv::spec_size_before(fields, i, nf);
    lemma_size_before_le_total(fields, i, nf);
    assert(field.dataoff == sbefore) by {
        assert(fields[i] == crate::bcsv::spec_updated_field(fields, i));
    }
    let rows_all = crate::bcsv::spec_rows_bytes(fields, sorted, pvals, e, wvals.len() as int);
    let start_m = crate::bcsv::spec_rows_bytes(fields, sorted, pvals, e, m).len() as int;
    assert(start_m == row * total + sbefore) by {
        assert((m / ns) * sum_idx(fields, sorted) == row * total);
        assert(sorted.take(m % ns) == sorted.take(pos));
    }
    lemma_rows_subrange(fields, sorted, pvals, e, wvals.len() as int, m);
    let slot = crate::bcsv::spec_slot_bytes(fields, sorted, pvals, e, m);
    assert(slot.len() == fsize) by {
        lemma_write_transformed_shape(pvals[m], field.mask, field.shift);
        lemma_value_bytes_len(
            pvals[m].write_transformed(field.mask, field.shift),
            e,
        );
    }

    // absolute position within the serialized image
    let base = 16 + 12 * nf;
    let off = crate::types::spec_value_off(header, field, row);
    assert(off == base + row * total + sbefore);
    assert(ser.len() >= body.len());
    assert(body.len() >= base + rows_all.len());
    assert(start_m + slot.len() <= rows_all.len()) by {
        lemma_rows_len_mono(fields, sorted, pvals, e, m + 1, wvals.len() as int);
    }
    assert(crate::types::value_in_bounds(ser, header, field, row));
    assert forall|t: int| 0 <= t < fsize implies ser.subrange(off, off + fsize)[t] == slot[t] by {
        assert(ser.subrange(off, off + fsize)[t] == ser[off + t]);
        assert(ser[off + t] == body[off + t]);
        assert(body[off + t] == rows_all[start_m + t]);
        assert(rows_all[start_m + t] == rows_all.subrange(start_m, start_m + slot.len() as int)[t]);
    }
    assert(ser.subrange(off, off + fsize) =~= slot);
    lemma_slot_parses_back(ser, e, header, field, row, pvals[m]);
}

/// A string at home in the legacy codec: its Shift-JIS image is as long
/// as its UTF-8 image, carries no null byte, and decodes back to it.
/// True of every null-free ASCII string, among others.
pub open spec fn sjis_clean(s: Seq<char>) -> bool {
    &&& crate::sjis::sjis_encode_of(s).len() == vstd::utf8::encode_utf8(s).len()
    &&& (forall|t: int|
        0 <= t < crate::sjis::sjis_encode_of(s).len() ==> (
        #[trigger] crate::sjis::sjis_encode_of(s)[t]) != 0)
    &&& crate::sjis::sjis_decode_of(crate::sjis::sjis_encode_of(s)) == s
}

/// Interning from an empty pool leaves a well-formed pool.
proof fn lemma_update_offs_wf(entries: Seq<(Seq<char>, u32)>, vals: Seq<ValueV>)
    requires
        crate::string_table::entries_wf(entries),
    ensures
        crate::string_table::entries_wf(spec_update_offs(entries, vals).0),
    decreases vals.len(),
{
    if vals.len() > 0 {
        lemma_update_offs_wf(entries, vals.drop_last());
        let prior = spec_update_offs(entries, vals.drop_last());
        let stepped = crate::string_table::spec_intern_value(prior.0, vals.last());
        if stepped.0 != prior.0 {
            let s = vals.last()->STRINGOFF_1;
            assert(stepped.0 == crate::string_table::spec_push(prior.0, s));
            assert(stepped.0.drop_last() =~= prior.0);
            assert forall|j: int|
                0 <= j < prior.0.len() implies (#[trigger] prior.0[j]).0 != s by {
                if prior.0[j].0 == s {
                    crate::string_table::lemma_find_present(prior.0, j);
                }
            }
        }
    }
}

/// Where each interned string's bytes begin inside the serialized table:
/// exactly at its assigned offset, when every string is at home in the
/// codec.
proof fn lemma_strtab_layout(tbl: Seq<(Seq<char>, u32)>, j: int)
    requires
        crate::string_table::entries_wf(tbl),
        forall|t: int| 0 <= t < tbl.len() ==> sjis_clean((#[trigger] tbl[t]).0),
        0 <= j <= tbl.len(),
    ensures
        crate::bcsv::spec_strtab_bytes(tbl, j).len() == crate::string_table::spec_next_off(
            tbl.take(j),
        ),
    decreases j,
{
    if j == 0 {
        assert(tbl.take(0) =~= Seq::<(Seq<char>, u32)>::empty());
    } else {
        lemma_strtab_layout(tbl, j - 1);
        assert(tbl.take(j).drop_last() =~= tbl.take(j - 1));
        assert(tbl.take(j).last() == tbl[j - 1]);
        assert(sjis_clean(tbl[j - 1].0));
    }
}

/// The serialized table never shrinks as more entries are emitted.
proof fn lemma_strtab_len_mono(tbl: Seq<(Seq<char>, u32)>, a: int, b: int)
    requires
        a <= b,
    ensures
        crate::bcsv::spec_strtab_bytes(tbl, a).len() <= crate::bcsv::spec_strtab_bytes(
            tbl,
            b,
        ).len(),
    decreases b - a,
{
    if a < b {
        lemma_strtab_len_mono(tbl, a, b - 1);
    }
}

/// Each entry's bytes, and its terminator, read back from their place in
/// the serialized table.
proof fn lemma_strtab_extract(tbl: Seq<(Seq<char>, u32)>, upto: int, j: int)
    requires
        0 <= j < upto <= tbl.len(),
    ensures
        ({
            let pj = crate::bcsv::spec_strtab_bytes(tbl, j).len() as int;
            let enc = crate::sjis::sjis_encode_of(tbl[j].0);
            &&& pj + enc.len() < crate::bcsv::spec_strtab_bytes(tbl, upto).len()
            &&& crate::bcsv::spec_strtab_bytes(tbl, upto).subrange(pj, pj + enc.len() as int)
                == enc
            &&& crate::bcsv::spec_strtab_bytes(tbl, upto)[pj + enc.len()] == 0u8
        }),
    decreases upto,
{
    let pj = crate::bcsv::spec_strtab_bytes(tbl, j).len() as int;
    let enc = crate::sjis::sjis_encode_of(tbl[j].0);
    if j == upto - 1 {
        assert(crate::bcsv::spec_strtab_bytes(tbl, upto).subrange(pj, pj + enc.len() as int)
            =~= enc);
    } else {
        lemma_strtab_extract(tbl, upto - 1, j);
        assert(crate::bcsv::spec_strtab_bytes(tbl, upto).subrange(pj, pj + enc.len() as int)
            =~= crate::bcsv::spec_strtab_bytes(tbl, upto - 1).subrange(
            pj,
            pj + enc.len() as int,
        ));
        assert(crate::bcsv::spec_strtab_bytes(tbl, upto)[pj + enc.len()]
            == crate::bcsv::spec_strtab_bytes(tbl, upto - 1)[pj + enc.len()]);
    }
}

/// The emission context of a table: the physical sequence covers every
/// field once, and every emitted value is shaped like its field.
proof fn lemma_emission_shaped(header: Header, fields: Seq<Field>, cols: Seq<Seq<ValueV>>)
    requires
        fields.len() <= usize::MAX,
        cols_shaped(fields, cols, header.entrycount as int),
    ensures
        ({
            let sorted = crate::bcsv::spec_sorted_indices(fields);
            let wvals = crate::bcsv::spec_write_vals(cols, sorted, header.entrycount as int);
            let pvals = spec_update_offs(Seq::empty(), wvals).1;
            &&& sorted.len() == fields.len()
            &&& (forall|t: int|
                0 <= t < sorted.len() ==> (#[trigger] sorted[t]) < fields.len())
            &&& pvals.len() == wvals.len()
            &&& wvals.len() == header.entrycount * fields.len()
            &&& (fields.len() > 0 ==> pvals_shaped(fields, sorted, pvals))
        }),
{
    let nf = fields.len() as int;
    let ec = header.entrycount as int;
    let sorted = crate::bcsv::spec_sorted_indices(fields);
    let wvals = crate::bcsv::spec_write_vals(cols, sorted, ec);
    let pvals = spec_update_offs(Seq::empty(), wvals).1;
    lemma_upto_len(fields, 6);
    lemma_counts_total(fields, nf);
    lemma_sorted_elems(fields, 6);
    crate::string_table::lemma_update_offs_len(Seq::empty(), wvals);
    lemma_update_offs_shape(Seq::empty(), wvals);
    let ns = sorted.len() as int;
    if nf > 0 {
        assert forall|t: int| 0 <= t < pvals.len() implies ((#[trigger] pvals[t]).spec_fieldtype()
            == fields[sorted[t % ns] as int].spec_field_type() && (pvals[t] is STRING
            ==> pvals[t]->STRING_0.len() == 32)) by {
            vstd::arithmetic::div_mod::lemma_fundamental_div_mod(t, ns);
            let kt = t % ns;
            let qt = t / ns;
            assert(0 <= kt < ns);
            assert(0 <= qt < ec) by (nonlinear_arith)
                requires
                    t == ns * qt + kt,
                    0 <= kt < ns,
                    0 <= t < ec * ns,
                    ns > 0,
            ;
            assert(wvals[t] == cols[sorted[kt] as int][qt]);
        }
    }
}

/// The law of the string-table round trip: in an image written for a
/// canonical table whose strings are at home in the legacy codec, the
/// deferred resolution pass, pointed at an interned string's assigned
/// offset, hands back exactly that string.
pub proof fn lemma_string_resolves_back(
    header: Header,
    fields: Seq<Field>,
    cols: Seq<Seq<ValueV>>,
    e: Endian,
    s: Seq<char>,
)
    requires
        fields.len() <= usize::MAX,
        fields == spec_updated_fields(fields),
        cols_shaped(fields, cols, header.entrycount as int),
        header.entrydataoff == 16 + 12 * fields.len(),
        header.entrysize == crate::bcsv::spec_size_total(fields, fields.len() as int),
        crate::bcsv::spec_size_total(fields, fields.len() as int) <= 0xFFFF,
        ({
            let sorted = crate::bcsv::spec_sorted_indices(fields);
            let wvals = crate::bcsv::spec_write_vals(cols, sorted, header.entrycount as int);
            let tbl = spec_update_offs(Seq::empty(), wvals).0;
            &&& (forall|t: int| 0 <= t < tbl.len() ==> sjis_clean((#[trigger] tbl[t]).0))
            &&& crate::string_table::spec_find_str(tbl, s) is Some
        }),
    ensures
        ({
            let sorted = crate::bcsv::spec_sorted_indices(fields);
            let wvals = crate::bcsv::spec_write_vals(cols, sorted, header.entrycount as int);
            let tbl = spec_update_offs(Seq::empty(), wvals).0;
            crate::types::spec_string_at(
                spec_serialized(header, fields, cols, e),
                header.spec_stringoffset() + crate::string_table::spec_find_str(tbl, s)->0,
            ) == s
        }),
{
    let nf = fields.len() as int;
    let ec = header.entrycount as int;
    let ser = spec_serialized(header, fields, cols, e);
    let body = spec_serialized_body(header, fields, cols, e);
    let sorted = crate::bcsv::spec_sorted_indices(fields);
    let wvals = crate::bcsv::spec_write_vals(cols, sorted, ec);
    let stepped = spec_update_offs(Seq::empty(), wvals);
    let tbl = stepped.0;
    let pvals = stepped.1;
    let total = crate::bcsv::spec_size_total(fields, nf);
    let o = crate::string_table::spec_find_str(tbl, s)->0 as int;
    lemma_emission_shaped(header, fields, cols);
    let ns = sorted.len() as int;
    crate::string_table::lemma_find_str_witness(tbl, s);
    let j = choose|j: int|
        0 <= j < tbl.len() && (#[trigger] tbl[j]) == (
        s,
        crate::string_table::spec_find_str(tbl, s)->0,
        );
    if nf == 0 {
        assert(wvals.len() == 0);
        assert(wvals =~= Seq::<ValueV>::empty());
        assert(tbl =~= Seq::<(Seq<char>, u32)>::empty());
        assert(false);
    }
    lemma_update_offs_wf(Seq::empty(), wvals);
    crate::string_table::lemma_offsets_cumulative(tbl);
    lemma_strtab_layout(tbl, j);
    assert(tbl[j].1 == crate::string_table::spec_next_off(tbl.take(j)));
    let pj = crate::bcsv::spec_strtab_bytes(tbl, j).len() as int;
    assert(pj == o);
    lemma_strtab_extract(tbl, tbl.len() as int, j);
    let enc = crate::sjis::sjis_encode_of(s);
    assert(sjis_clean(s)) by {
        assert(tbl[j].0 == s);
    }
    let strtab = crate::bcsv::spec_strtab_bytes(tbl, tbl.len() as int);

    // where the string table sits inside the serialized image
    lemma_header_bytes_len(header, e);
    crate::bcsv::lemma_descriptor_block_len(spec_updated_fields(fields), e, nf);
    lemma_rows_len(fields, sorted, pvals, e, wvals.len() as int);
    let rows_all = crate::bcsv::spec_rows_bytes(fields, sorted, pvals, e, wvals.len() as int);
    let base = 16 + 12 * nf;
    lemma_field_position(fields, 0);
    assert(rows_all.len() == ec * total) by {
        vstd::arithmetic::mul::lemma_mul_is_commutative(ec, ns);
        vstd::arithmetic::div_mod::lemma_fundamental_div_mod_converse(ec * ns, ns, ec, 0);
        assert(sorted.take(0) =~= Seq::<usize>::empty());
        assert((ec * ns) / ns == ec);
        assert(sum_idx(fields, sorted) == total);
    }
    let tabstart = base + ec * total;
    assert(header.spec_stringoffset() == tabstart);
    assert(body.len() == tabstart + strtab.len());
    assert(ser.len() >= body.len());
    assert forall|u: int| 0 <= u < strtab.len() implies ser[tabstart + u] == strtab[u] by {
        assert(body[tabstart + u] == strtab[u]);
    }

    // the scan stops exactly at this entry's terminator
    let start = tabstart + o;
    let stop = start + enc.len() as int;
    assert forall|u: int| start <= u < stop implies ser[u] != 0 by {
        assert(ser[u] == strtab[u - tabstart]);
        assert(strtab[u - tabstart] == strtab.subrange(pj, pj + enc.len() as int)[u - start]);
        assert(enc[u - start] != 0);
    }
    assert(ser[stop] == strtab[stop - tabstart]);
    assert(ser[stop] == 0);
    crate::types::lemma_find_null_from(ser, start, stop);
    assert(crate::types::find_null(ser, start) == stop);
    assert(ser.subrange(start, stop) =~= enc) by {
        assert forall|u: int| 0 <= u < enc.len() implies ser.subrange(start, stop)[u] == enc[u] by {
            assert(ser.subrange(start, stop)[u] == ser[start + u]);
            assert(ser[start + u] == strtab[o + u]);
            assert(strtab[o + u] == strtab.subrange(pj, pj + enc.len() as int)[u]);
        }
    }
    assert(crate::types::spec_string_at(ser, start) == crate::sjis::sjis_decode_of(enc));
}

/// The law of the structural round trip, header and descriptor layers:
/// parsing an image the write pipeline produced recovers exactly the
/// header that was written and, at each declared position, exactly the
/// repacked descriptor that was written.
pub proof fn lemma_written_image_parses_back(
    header: Header,
    fields: Seq<Field>,
    cols: Seq<Seq<ValueV>>,
    e: Endian,
)
    ensures
        spec_serialized(header, fields, cols, e).len() >= 16 + 12 * fields.len(),
        Header::spec_at(spec_serialized(header, fields, cols, e), e) == header,
        spec_fields_at(spec_serialized(header, fields, cols, e), e, fields.len() as int)
            == spec_updated_fields(fields),
{
    let ser = spec_serialized(header, fields, cols, e);
    let body = spec_serialized_body(header, fields, cols, e);
    let nf = fields.len() as int;
    let upd = spec_updated_fields(fields);
    lemma_header_bytes_len(header, e);
    crate::bcsv::lemma_descriptor_block_len(upd, e, nf);
    lemma_u32_round_trip(header.entrycount, e);
    lemma_u32_round_trip(header.fieldcount, e);
    lemma_u32_round_trip(header.entrydataoff, e);
    lemma_u32_round_trip(header.entrysize, e);
    assert(ser.len() >= 16 + 12 * nf);
    assert(ser.subrange(0, 4) =~= crate::codec::spec_u32_bytes(header.entrycount, e));
    lemma_u32_at_of_bytes(ser, 0, header.entrycount, e);
    assert(ser.subrange(4, 8) =~= crate::codec::spec_u32_bytes(header.fieldcount, e));
    lemma_u32_at_of_bytes(ser, 4, header.fieldcount, e);
    assert(ser.subrange(8, 12) =~= crate::codec::spec_u32_bytes(header.entrydataoff, e));
    lemma_u32_at_of_bytes(ser, 8, header.entrydataoff, e);
    assert(ser.subrange(12, 16) =~= crate::codec::spec_u32_bytes(header.entrysize, e));
    lemma_u32_at_of_bytes(ser, 12, header.entrysize, e);
    assert(Header::spec_at(ser, e) == header);
    assert forall|i: int| 0 <= i < nf implies #[trigger] spec_fields_at(ser, e, nf)[i] == upd[i] by {
        lemma_descriptor_subrange(upd, e, nf, i);
        assert(ser.subrange(16 + 12 * i, 16 + 12 * i + 12) =~= spec_descriptor_bytes(
            upd,
            e,
            nf,
        ).subrange(12 * i, 12 * i + 12));
        lemma_field_at_of_bytes(ser, 16 + 12 * i, upd[i], e);
    }
    assert(spec_fields_at(ser, e, nf) =~= upd);
}

/// A canonical table: its geometry is derived from its field list as
/// [`crate::bcsv::BCSV::update_layout`] derives it, its columns are
/// shaped, every value survives its packing transform, every string is at
/// home in the legacy codec, and every string-offset value already
/// carries the offset the pool assigns in emission order.
pub open spec fn spec_canonical(
    header: Header,
    fields: Seq<Field>,
    cols: Seq<Seq<ValueV>>,
) -> bool {
    let tbl = spec_update_offs(
        Seq::empty(),
        crate::bcsv::spec_write_vals(
            cols,
            crate::bcsv::spec_sorted_indices(fields),
            header.entrycount as int,
        ),
    ).0;
    &&& fields.len() <= usize::MAX
    &&& fields == spec_updated_fields(fields)
    &&& header.fieldcount == fields.len()
    &&& header.entrydataoff == 16 + 12 * fields.len()
    &&& header.entrysize == crate::bcsv::spec_size_total(fields, fields.len() as int)
    &&& crate::bcsv::spec_size_total(fields, fields.len() as int) <= 0xFFFF
    &&& cols_shaped(fields, cols, header.entrycount as int)
    &&& (forall|i: int, row: int|
        0 <= i < fields.len() && 0 <= row < header.entrycount ==> spec_normalized(
            #[trigger] cols[i][row],
            fields[i].mask,
            fields[i].shift,
        ))
    &&& (forall|t: int| 0 <= t < tbl.len() ==> sjis_clean((#[trigger] tbl[t]).0))
    &&& (forall|i: int, row: int|
        0 <= i < fields.len() && 0 <= row < header.entrycount && (#[trigger] cols[i][row])
            is STRINGOFF ==> crate::string_table::spec_find_str(tbl, cols[i][row]->STRINGOFF_1)
            == Some(cols[i][row]->STRINGOFF_0))
}

/// Every emitted value of a canonical table is exactly the stored value:
/// interning assigns each string-offset value the offset it already
/// carries.
proof fn lemma_pvals_canonical(header: Header, fields: Seq<Field>, cols: Seq<Seq<ValueV>>)
    requires
        spec_canonical(header, fields, cols),
        fields.len() > 0,
    ensures
        ({
            let sorted = crate::bcsv::spec_sorted_indices(fields);
            let wvals = crate::bcsv::spec_write_vals(cols, sorted, header.entrycount as int);
            forall|m: int|
                0 <= m < wvals.len() ==> #[trigger] spec_update_offs(Seq::empty(), wvals).1[m]
                    == wvals[m]
        }),
{
    let nf = fields.len() as int;
    let ec = header.entrycount as int;
    let sorted = crate::bcsv::spec_sorted_indices(fields);
    let wvals = crate::bcsv::spec_write_vals(cols, sorted, ec);
    let tbl = spec_update_offs(Seq::empty(), wvals).0;
    lemma_emission_shaped(header, fields, cols);
    let ns = sorted.len() as int;
    crate::string_table::lemma_update_offs_len(Seq::empty(), wvals);
    assert forall|m: int|
        0 <= m < wvals.len() implies #[trigger] spec_update_offs(Seq::empty(), wvals).1[m]
        == wvals[m] by {
        vstd::arithmetic::div_mod::lemma_fundamental_div_mod(m, ns);
        let kt = m % ns;
        let qt = m / ns;
        assert(0 <= kt < ns);
        assert(0 <= qt < ec) by (nonlinear_arith)
            requires
                m == ns * qt + kt,
                0 <= kt < ns,
                0 <= m < ec * ns,
                ns > 0,
        ;
        assert(wvals[m] == cols[sorted[kt] as int][qt]);
        let head = wvals.take(m + 1);
        let tail = wvals.skip(m + 1);
        assert(wvals =~= head + tail);
        crate::string_table::lemma_update_offs_compose(Seq::empty(), head, tail);
        crate::string_table::lemma_update_offs_len(Seq::empty(), head);
        let invm1 = spec_update_offs(Seq::empty(), head);
        assert(spec_update_offs(Seq::empty(), wvals).1[m] == invm1.1[m]);
        let invm = spec_update_offs(Seq::empty(), wvals.take(m));
        assert(head.drop_last() =~= wvals.take(m));
        assert(head.last() == wvals[m]);
        crate::string_table::lemma_update_offs_len(Seq::empty(), wvals.take(m));
        if wvals[m] is STRINGOFF {
            let s = wvals[m]->STRINGOFF_1;
            let oc = wvals[m]->STRINGOFF_0;
            assert(crate::string_table::spec_find_str(tbl, s) == Some(oc));
            crate::string_table::lemma_update_offs_extends(invm1.0, tail);
            assert(tbl == spec_update_offs(invm1.0, tail).0);
            match crate::string_table::spec_find_str(invm1.0, s) {
                Some(o2) => {
                    crate::string_table::lemma_find_str_prefix(tbl, invm1.0, s);
                    assert(o2 == oc);
                    assert(invm1.1[m] == ValueV::STRINGOFF(oc, s));
                },
                None => {
                    assert(invm1.0 == crate::string_table::spec_push(invm.0, s));
                    if crate::string_table::spec_find_str(invm.0, s) is None
                        && crate::string_table::spec_next_off(invm.0)
                        + crate::string_table::utf8_term_len(s) <= u32::MAX {
                        crate::string_table::lemma_find_str_push(
                            invm.0,
                            (s, crate::string_table::spec_next_off(invm.0) as u32),
                            s,
                        );
                        assert(false);
                    }
                    crate::string_table::lemma_unfit_stays_absent(invm1.0, tail, s);
                    assert(false);
                },
            }
        }
    }
}

/// The law of the full round trip: parsing the image written for a
/// canonical table yields back exactly the table — the header, the
/// descriptors, and every resolved column.
pub proof fn lemma_table_round_trip(
    header: Header,
    fields: Seq<Field>,
    cols: Seq<Seq<ValueV>>,
    e: Endian,
)
    requires
        spec_canonical(header, fields, cols),
    ensures
        crate::bcsv::spec_read_ok(spec_serialized(header, fields, cols, e), e),
        Header::spec_at(spec_serialized(header, fields, cols, e), e) == header,
        spec_fields_at(
            spec_serialized(header, fields, cols, e),
            e,
            header.fieldcount as int,
        ) == fields,
        crate::bcsv::spec_parse_columns(
            spec_serialized(header, fields, cols, e),
            e,
            header,
            fields,
        ) == cols,
{
    let nf = fields.len() as int;
    let ec = header.entrycount as int;
    let ser = spec_serialized(header, fields, cols, e);
    let sorted = crate::bcsv::spec_sorted_indices(fields);
    let wvals = crate::bcsv::spec_write_vals(cols, sorted, ec);
    let tbl = spec_update_offs(Seq::empty(), wvals).0;
    let pvals = spec_update_offs(Seq::empty(), wvals).1;
    lemma_written_image_parses_back(header, fields, cols, e);
    lemma_emission_shaped(header, fields, cols);
    let ns = sorted.len() as int;
    if nf > 0 {
        lemma_pvals_canonical(header, fields, cols);
    }
    crate::string_table::lemma_update_offs_len(Seq::empty(), wvals);

    assert forall|i: int, row: int|
        0 <= i < nf && 0 <= row < ec implies crate::types::value_in_bounds(
        ser,
        header,
        fields[i],
        row,
    ) && crate::types::spec_value_at(ser, e, header, fields[i], row) == spec_unresolved(
        #[trigger] cols[i][row],
    ) by {
        lemma_rows_parse_back(header, fields, cols, e, i, row);
        let m = row * nf + spec_pos(fields, i);
        lemma_field_position(fields, i);
        assert(0 <= m < wvals.len()) by (nonlinear_arith)
            requires
                m == row * nf + spec_pos(fields, i),
                0 <= row < ec,
                0 <= spec_pos(fields, i) < nf,
                wvals.len() == ec * nf,
        ;
        assert(pvals[m] == wvals[m]);
        vstd::arithmetic::div_mod::lemma_fundamental_div_mod_converse(
            m,
            ns,
            row,
            spec_pos(fields, i),
        );
        assert(wvals[m] == cols[sorted[spec_pos(fields, i)] as int][row]);
        assert(wvals[m] == cols[i][row]);
        assert(spec_normalized(cols[i][row], fields[i].mask, fields[i].shift));
    }

    // structural validity of the whole image
    assert(crate::bcsv::spec_read_ok(ser, e)) by {
        assert(ser.len() >= 16) by {
            lemma_header_bytes_len(header, e);
        }
        assert forall|i: int, row: int|
            0 <= i < Header::spec_at(ser, e).fieldcount as int && 0 <= row < Header::spec_at(
                ser,
                e,
            ).entrycount implies #[trigger] crate::types::value_in_bounds(
            ser,
            Header::spec_at(ser, e),
            spec_fields_at(ser, e, Header::spec_at(ser, e).fieldcount as int)[i],
            row,
        ) by {
            assert(Header::spec_at(ser, e) == header);
            assert(spec_fields_at(ser, e, header.fieldcount as int)[i] == fields[i]);
            let v = cols[i][row];
            assert(crate::types::value_in_bounds(ser, header, fields[i], row));
        }
    }

    // each resolved column reads back as stored
    assert forall|i: int|
        0 <= i < nf implies #[trigger] crate::bcsv::spec_parse_columns(ser, e, header, fields)[i]
        == cols[i] by {
        assert forall|row: int|
            0 <= row < ec implies crate::bcsv::spec_column_at(ser, e, header, fields[i])[row]
            == cols[i][row] by {
            let v = cols[i][row];
            assert(crate::types::spec_value_at(ser, e, header, fields[i], row)
                == spec_unresolved(v));
            if v is STRINGOFF {
                let s = v->STRINGOFF_1;
                let oc = v->STRINGOFF_0;
                lemma_string_resolves_back(header, fields, cols, e, s);
                assert(crate::string_table::spec_find_str(tbl, s) == Some(oc));
                assert(crate::types::spec_string_at(ser, header.spec_stringoffset() + oc)
                    == s);
            }
        }
        assert(crate::bcsv::spec_column_at(ser, e, header, fields[i]) =~= cols[i]);
    }
    assert(crate::bcsv::spec_parse_columns(ser, e, header, fields) =~= cols);
}

/// The byte form of the round trip: for bytes the write pipeline produced
/// from a canonical table, writing what the read pipeline parses out of
/// them reproduces the bytes exactly.
pub proof fn lemma_bytes_round_trip(
    header: Header,
    fields: Seq<Field>,
    cols: Seq<Seq<ValueV>>,
    e: Endian,
)
    requires
        spec_canonical(header, fields, cols),
    ensures
        ({
            let bytes = spec_serialized(header, fields, cols, e);
            let h = Header::spec_at(bytes, e);
            let f = spec_fields_at(bytes, e, h.fieldcount as int);
            let c = crate::bcsv::spec_parse_columns(bytes, e, h, f);
            spec_serialized(h, f, c, e) == bytes
        }),
{
    lemma_table_round_trip(header, fields, cols, e);
}

} // verus!
