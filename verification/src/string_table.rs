//! The deduplicating string pool of the write pipeline. Every distinct
//! string is assigned the byte offset at which it will sit inside the
//! string-table region, in first-seen order; the cursor advances by the
//! string's UTF-8 byte length plus one for the null terminator.

use crate::types::{Value, ValueV};
use vstd::prelude::*;
use vstd::string::StringSliceAdditionalSpecFns;
use vstd::utf8::encode_utf8;

verus! {

/// The terminated byte length a string occupies in the table.
pub open spec fn utf8_term_len(s: Seq<char>) -> int {
    encode_utf8(s).len() as int + 1
}

/// The cursor after the given entries: the sum of their terminated
/// lengths.
pub open spec fn spec_next_off(entries: Seq<(Seq<char>, u32)>) -> int
    decreases entries.len(),
{
    if entries.len() == 0 {
        0
    } else {
        spec_next_off(entries.drop_last()) + utf8_term_len(entries.last().0)
    }
}

/// The offset assigned to `s`, when `s` is present: the offset of its
/// first (and only) entry.
pub open spec fn spec_find_str(entries: Seq<(Seq<char>, u32)>, s: Seq<char>) -> Option<u32>
    decreases entries.len(),
{
    if entries.len() == 0 {
        None
    } else if entries.first().0 == s {
        Some(entries.first().1)
    } else {
        spec_find_str(entries.drop_first(), s)
    }
}

/// Well-formed entries: each offset is the cursor its predecessors leave,
/// keys are distinct, and the cursor never leaves the 32-bit range.
pub open spec fn entries_wf(entries: Seq<(Seq<char>, u32)>) -> bool
    decreases entries.len(),
{
    if entries.len() == 0 {
        true
    } else {
        &&& entries_wf(entries.drop_last())
        &&& entries.last().1 == spec_next_off(entries.drop_last())
        &&& spec_next_off(entries) <= u32::MAX
        &&& (forall|j: int|
            0 <= j < entries.len() - 1 ==> (#[trigger] entries[j]).0 != entries.last().0)
    }
}

/// One interning step: a string already present changes nothing; a new
/// string is appended at the current cursor, unless its terminated length
/// would push the cursor past the 32-bit range, in which case nothing
/// happens.
pub open spec fn spec_push(entries: Seq<(Seq<char>, u32)>, s: Seq<char>) -> Seq<(Seq<char>, u32)> {
    if spec_find_str(entries, s) is Some {
        entries
    } else if spec_next_off(entries) + utf8_term_len(s) <= u32::MAX {
        entries.push((s, spec_next_off(entries) as u32))
    } else {
        entries
    }
}

/// One value's pass through the table: a string-offset value interns its
/// string and takes the assigned offset; every other value, and a string
/// the table could not take, is unchanged.
pub open spec fn spec_intern_value(entries: Seq<(Seq<char>, u32)>, v: ValueV) -> (
    Seq<(Seq<char>, u32)>,
    ValueV,
) {
    match v {
        ValueV::STRINGOFF(off, s) => {
            let e2 = spec_push(entries, s);
            match spec_find_str(e2, s) {
                Some(o) => (e2, ValueV::STRINGOFF(o, s)),
                None => (e2, ValueV::STRINGOFF(off, s)),
            }
        },
        _ => (entries, v),
    }
}

/// The table and values after interning a whole column, in order.
pub open spec fn spec_update_offs(entries: Seq<(Seq<char>, u32)>, vals: Seq<ValueV>) -> (
    Seq<(Seq<char>, u32)>,
    Seq<ValueV>,
)
    decreases vals.len(),
{
    if vals.len() == 0 {
        (entries, Seq::empty())
    } else {
        let prior = spec_update_offs(entries, vals.drop_last());
        let stepped = spec_intern_value(prior.0, vals.last());
        (stepped.0, prior.1.push(stepped.1))
    }
}

/// A pool of unique strings, each with the byte offset it will occupy in
/// the serialized string table.
#[derive(Clone, Debug)]
pub struct StringTable {
    table: Vec<(String, u32)>,
    off: u32,
}

impl View for StringTable {
    type V = Seq<(Seq<char>, u32)>;

    closed spec fn view(&self) -> Seq<(Seq<char>, u32)> {
        self.table@.map_values(|p: (String, u32)| (p.0@, p.1))
    }
}

impl StringTable {
    /// The internal consistency of the pool: established by [`StringTable::new`]
    /// and preserved by every method.
    pub closed spec fn wf(self) -> bool {
        entries_wf(self@) && self.off == spec_next_off(self@)
    }

    /// Makes an empty pool.
    pub fn new() -> (r: StringTable)
        ensures
            r@ == Seq::<(Seq<char>, u32)>::empty(),
            r.wf(),
    {
        let r = StringTable { table: Vec::new(), off: 0 };
        proof {
            assert(r@ =~= Seq::<(Seq<char>, u32)>::empty());
        }
        r
    }

    /// Finds the offset assigned to a string, if it has been interned.
    pub fn find(&self, key: &String) -> (r: Option<u32>)
        ensures
            r == spec_find_str(self@, key@),
    {
        let n = self.table.len();
        let mut i: usize = 0;
        proof {
            assert(self@.skip(0) =~= self@);
        }
        while i != n
            invariant
                i <= n,
                n == self.table@.len(),
                spec_find_str(self@, key@) == spec_find_str(self@.skip(i as int), key@),
                forall|j: int| 0 <= j < i ==> (#[trigger] self@[j]).0 != key@,
            decreases n - i,
        {
            proof {
                assert(self@.skip(i as int).first() == self@[i as int]);
                assert(self@.skip(i as int).drop_first() =~= self@.skip(i + 1));
            }
            if self.table[i].0.eq(key) {
                return Some(self.table[i].1);
            }
            i += 1;
        }
        proof {
            assert(self@.skip(n as int) =~= Seq::<(Seq<char>, u32)>::empty());
        }
        None
    }

    /// A well-formed pool's entries carry the open invariant
    /// [`entries_wf`], so a caller holding a pool from [`StringTable::new`]
    /// and [`StringTable::push`] can apply the offset lemmas to its view.
    pub proof fn lemma_wf_entries(&self)
        requires
            self.wf(),
        ensures
            entries_wf(self@),
    {
    }

    /// Interns one string: an already present string changes nothing; a
    /// new one is assigned the current cursor, and the cursor advances by
    /// the string's terminated length. A string whose terminated length
    /// would push the cursor past the 32-bit range is left out.
    pub fn push(&mut self, item: &str)
        requires
            old(self).wf(),
        ensures
            final(self)@ == spec_push(old(self)@, item@),
            final(self).wf(),
    {
        let key = item.to_owned();
        if let Some(_) = self.find(&key) {
            return ;
        }
        let bytes = item.as_bytes();
        let len = bytes.len();
        if (len as u64) < u32::MAX as u64 - self.off as u64 {
            let assigned = self.off;
            self.off = self.off + len as u32 + 1;
            self.table.push((key, assigned));
            proof {
                assert(self@ =~= old(self)@.push((item@, assigned)));
                assert(self@.drop_last() =~= old(self)@);
                assert(forall|j: int|
                    0 <= j < old(self)@.len() ==> (#[trigger] old(self)@[j]).0 != item@) by {
                    assert forall|j: int|
                        0 <= j < old(self)@.len() implies (#[trigger] old(self)@[j]).0
                        != item@ by {
                        if old(self)@[j].0 == item@ {
                            lemma_find_present(old(self)@, j);
                        }
                    }
                }
            }
        }
    }

    /// Hands out the interned strings in first-seen (ascending-offset)
    /// order.
    pub fn data(&self) -> (r: Vec<String>)
        ensures
            r@.len() == self@.len(),
            forall|i: int| 0 <= i < r@.len() ==> (#[trigger] r@[i])@ == self@[i].0,
    {
        let n = self.table.len();
        let mut r: Vec<String> = Vec::new();
        let mut i: usize = 0;
        while i != n
            invariant
                i <= n,
                n == self.table@.len(),
                r@.len() == i,
                forall|j: int| 0 <= j < i ==> (#[trigger] r@[j])@ == self@[j].0,
            decreases n - i,
        {
            r.push(self.table[i].0.clone());
            i += 1;
        }
        r
    }

    /// Interns the string of every string-offset value of `entries`, in
    /// order, and patches each such value's stored offset to the assigned
    /// one.
    pub fn update_offs(&mut self, entries: &mut Vec<Value>)
        requires
            old(self).wf(),
        ensures
            final(self).wf(),
            ({
                let stepped = spec_update_offs(old(self)@, old(entries)@.map_values(|v: Value| v@));
                &&& final(self)@ == stepped.0
                &&& final(entries)@.map_values(|v: Value| v@) == stepped.1
            }),
    {
        let n = entries.len();
        let ghost vals0 = old(entries)@.map_values(|v: Value| v@);
        let mut i: usize = 0;
        while i != n
            invariant
                i <= n,
                n == entries@.len(),
                vals0 == old(entries)@.map_values(|v: Value| v@),
                vals0.len() == n,
                forall|j: int| i <= j < n ==> entries@[j] == old(entries)@[j],
                self.wf(),
                ({
                    let stepped = spec_update_offs(old(self)@, vals0.take(i as int));
                    &&& self@ == stepped.0
                    &&& entries@.take(i as int).map_values(|v: Value| v@) == stepped.1
                }),
            decreases n - i,
        {
            let ghost prior = spec_update_offs(old(self)@, vals0.take(i as int));
            proof {
                assert(vals0.take(i + 1).drop_last() =~= vals0.take(i as int));
                assert(vals0.take(i + 1).last() == vals0[i as int]);
                assert(vals0[i as int] == old(entries)@[i as int]@);
            }
            let updated: Option<(u32, String)> = match &entries[i] {
                Value::STRINGOFF(o, s) => {
                    let st = s.clone();
                    self.push(st.as_str());
                    match self.find(&st) {
                        Some(newoff) => Some((newoff, st)),
                        None => Some((*o, st)),
                    }
                },
                _ => None,
            };
            if let Some((newoff, st)) = updated {
                entries[i] = Value::STRINGOFF(newoff, st);
            }
            proof {
                let stepped = spec_update_offs(old(self)@, vals0.take(i + 1));
                assert(entries@.take(i + 1).map_values(|v: Value| v@) =~= stepped.1);
            }
            i += 1;
        }
        proof {
            assert(vals0.take(n as int) =~= vals0);
            assert(entries@.take(n as int) =~= entries@);
        }
    }
}

/// Interning a column yields exactly one patched value per input value,
/// and the pool only ever grows.
pub proof fn lemma_update_offs_len(entries: Seq<(Seq<char>, u32)>, vals: Seq<ValueV>)
    ensures
        spec_update_offs(entries, vals).1.len() == vals.len(),
        spec_update_offs(entries, vals).0.len() >= entries.len(),
    decreases vals.len(),
{
    if vals.len() > 0 {
        lemma_update_offs_len(entries, vals.drop_last());
    }
}

/// Looking a string up in a pool extended by one entry: an absent string
/// is found exactly when the new entry carries it.
pub proof fn lemma_find_str_push(entries: Seq<(Seq<char>, u32)>, p: (Seq<char>, u32), s: Seq<char>)
    requires
        spec_find_str(entries, s) is None,
    ensures
        spec_find_str(entries.push(p), s) == if p.0 == s {
            Some(p.1)
        } else {
            None::<u32>
        },
    decreases entries.len(),
{
    if entries.len() > 0 {
        assert(entries.push(p).first() == entries.first());
        assert(entries.push(p).drop_first() =~= entries.drop_first().push(p));
        lemma_find_str_push(entries.drop_first(), p, s);
        assert(entries.first().0 != s);
        assert(spec_find_str(entries.push(p), s) == spec_find_str(
            entries.drop_first().push(p),
            s,
        ));
    } else {
        assert(entries.push(p).len() == 1);
        assert(entries.push(p).first() == p);
        assert(entries.push(p).drop_first() =~= Seq::<(Seq<char>, u32)>::empty());
        if p.0 != s {
            assert(spec_find_str(entries.push(p).drop_first(), s) is None);
        }
    }
}

/// Interning is idempotent: a second interning of the same string changes
/// nothing, so both internings leave the string at one offset.
pub proof fn lemma_intern_twice(entries: Seq<(Seq<char>, u32)>, s: Seq<char>)
    ensures
        spec_push(spec_push(entries, s), s) == spec_push(entries, s),
        spec_find_str(spec_push(spec_push(entries, s), s), s) == spec_find_str(
            spec_push(entries, s),
            s,
        ),
{
    if spec_find_str(entries, s) is None && spec_next_off(entries) + utf8_term_len(s)
        <= u32::MAX {
        lemma_find_str_push(entries, (s, spec_next_off(entries) as u32), s);
    }
}

/// In a well-formed pool the offsets are cumulative: each entry's offset
/// is the sum of the terminated byte lengths of all entries interned
/// before it, in first-occurrence order.
pub proof fn lemma_offsets_cumulative(entries: Seq<(Seq<char>, u32)>)
    requires
        entries_wf(entries),
    ensures
        forall|i: int|
            0 <= i < entries.len() ==> (#[trigger] entries[i]).1 == spec_next_off(
                entries.take(i),
            ),
    decreases entries.len(),
{
    if entries.len() > 0 {
        lemma_offsets_cumulative(entries.drop_last());
        assert(entries.take(entries.len() - 1) =~= entries.drop_last());
        assert forall|i: int|
            0 <= i < entries.len() implies (#[trigger] entries[i]).1 == spec_next_off(
            entries.take(i),
        ) by {
            if i < entries.len() - 1 {
                assert(entries.drop_last()[i] == entries[i]);
                assert(entries.take(i) =~= entries.drop_last().take(i));
            }
        }
    }
}

/// A found offset belongs to an entry that carries the looked-up string.
pub proof fn lemma_find_str_witness(entries: Seq<(Seq<char>, u32)>, s: Seq<char>)
    requires
        spec_find_str(entries, s) is Some,
    ensures
        exists|j: int|
            0 <= j < entries.len() && (#[trigger] entries[j]) == (
            s,
            spec_find_str(entries, s)->0,
            ),
    decreases entries.len(),
{
    if entries.first().0 == s {
        assert(entries[0] == (s, spec_find_str(entries, s)->0));
    } else {
        lemma_find_str_witness(entries.drop_first(), s);
        let j = choose|j: int|
            0 <= j < entries.drop_first().len() && (#[trigger] entries.drop_first()[j]) == (
            s,
            spec_find_str(entries.drop_first(), s)->0,
            );
        assert(entries[j + 1] == (s, spec_find_str(entries, s)->0));
    }
}

/// The pool only grows: what interning appends keeps every earlier entry
/// in place.
pub proof fn lemma_update_offs_extends(entries: Seq<(Seq<char>, u32)>, vals: Seq<ValueV>)
    ensures
        spec_update_offs(entries, vals).0.len() >= entries.len(),
        spec_update_offs(entries, vals).0.take(entries.len() as int) == entries,
    decreases vals.len(),
{
    if vals.len() == 0 {
        assert(entries.take(entries.len() as int) =~= entries);
    } else {
        lemma_update_offs_extends(entries, vals.drop_last());
        let prior = spec_update_offs(entries, vals.drop_last());
        let stepped = spec_intern_value(prior.0, vals.last());
        assert(stepped.0.take(prior.0.len() as int) =~= prior.0 || stepped.0 == prior.0) by {
            if stepped.0 != prior.0 {
                assert(stepped.0 =~= prior.0.push(
                    (
                        vals.last()->STRINGOFF_1,
                        spec_next_off(prior.0) as u32,
                    ),
                ) || stepped.0 == prior.0);
            }
        }
        assert(stepped.0.take(entries.len() as int) =~= entries);
    }
}

/// A string found in a prefix of a pool is found in the whole pool, at
/// the same offset.
pub proof fn lemma_find_str_prefix(
    big: Seq<(Seq<char>, u32)>,
    small: Seq<(Seq<char>, u32)>,
    s: Seq<char>,
)
    requires
        small.len() <= big.len(),
        big.take(small.len() as int) == small,
        spec_find_str(small, s) is Some,
    ensures
        spec_find_str(big, s) == spec_find_str(small, s),
    decreases small.len(),
{
    assert(big.first() == small.first()) by {
        assert(big.take(small.len() as int)[0] == big[0]);
    }
    if small.first().0 != s {
        assert(big.drop_first().take(small.drop_first().len() as int) =~= small.drop_first())
            by {
            assert forall|t: int| 0 <= t < small.len() - 1 implies big.drop_first()[t]
                == small.drop_first()[t] by {
                assert(big.take(small.len() as int)[t + 1] == big[t + 1]);
            }
        }
        lemma_find_str_prefix(big.drop_first(), small.drop_first(), s);
    }
}

/// The cursor never moves backwards while interning.
pub proof fn lemma_next_off_grows(entries: Seq<(Seq<char>, u32)>, vals: Seq<ValueV>)
    ensures
        spec_next_off(spec_update_offs(entries, vals).0) >= spec_next_off(entries),
    decreases vals.len(),
{
    if vals.len() > 0 {
        lemma_next_off_grows(entries, vals.drop_last());
        let prior = spec_update_offs(entries, vals.drop_last());
        let stepped = spec_intern_value(prior.0, vals.last());
        assert(stepped.0 == prior.0 || stepped.0.drop_last() =~= prior.0);
    }
}

/// A string whose terminated length cannot fit any more is never interned
/// later either.
pub proof fn lemma_unfit_stays_absent(
    entries: Seq<(Seq<char>, u32)>,
    vals: Seq<ValueV>,
    s: Seq<char>,
)
    requires
        spec_find_str(entries, s) is None,
        spec_next_off(entries) + utf8_term_len(s) > u32::MAX,
    ensures
        spec_find_str(spec_update_offs(entries, vals).0, s) is None,
    decreases vals.len(),
{
    if vals.len() > 0 {
        lemma_unfit_stays_absent(entries, vals.drop_last(), s);
        lemma_next_off_grows(entries, vals.drop_last());
        let prior = spec_update_offs(entries, vals.drop_last());
        let stepped = spec_intern_value(prior.0, vals.last());
        if stepped.0 != prior.0 {
            assert(stepped.0 == spec_push(prior.0, vals.last()->STRINGOFF_1));
            if vals.last()->STRINGOFF_1 != s {
                lemma_find_str_push(
                    prior.0,
                    (vals.last()->STRINGOFF_1, spec_next_off(prior.0) as u32),
                    s,
                );
            }
        }
    }
}

/// Interning a concatenation is interning the parts in turn.
pub proof fn lemma_update_offs_compose(
    entries: Seq<(Seq<char>, u32)>,
    a: Seq<ValueV>,
    b: Seq<ValueV>,
)
    ensures
        spec_update_offs(entries, a + b).0 == spec_update_offs(
            spec_update_offs(entries, a).0,
            b,
        ).0,
        spec_update_offs(entries, a + b).1 == spec_update_offs(entries, a).1 + spec_update_offs(
            spec_update_offs(entries, a).0,
            b,
        ).1,
    decreases b.len(),
{
    if b.len() == 0 {
        assert(a + b =~= a);
        assert(spec_update_offs(entries, a).1 + spec_update_offs(
            spec_update_offs(entries, a).0,
            b,
        ).1 =~= spec_update_offs(entries, a).1);
    } else {
        lemma_update_offs_compose(entries, a, b.drop_last());
        assert((a + b).drop_last() =~= a + b.drop_last());
        assert((a + b).last() == b.last());
    }
}

/// An entry's key is found by the scan, so a present key never reports
/// absent.
pub proof fn lemma_find_present(entries: Seq<(Seq<char>, u32)>, i: int)
    requires
        0 <= i < entries.len(),
    ensures
        spec_find_str(entries, entries[i].0) is Some,
    decreases entries.len(),
{
    if i > 0 && entries.first().0 != entries[i].0 {
        lemma_find_present(entries.drop_first(), i - 1);
    }
}

} // verus!
