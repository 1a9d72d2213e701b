//! The library's laws: what holds of every table the builder emits and
//! of every lookup against it, proved once and for all.

use vstd::prelude::*;

use crate::ascii::fold;
use crate::ascii::lower;
use crate::ascii::upper;
use crate::builder::invert_dict;
use crate::builder::lemma_invert_merge;
use crate::builder::mimes_for;
use crate::lut::lemma_ext_unique;
use crate::lut::spec_lut_index;
use crate::lut::PackedData;

verus! {

/// Round-trip completeness: a table that encodes a dictionary resolves
/// every extension of that dictionary to exactly its media-type list,
/// and misses exactly the extensions the dictionary lacks.  Queries are
/// folded first, so every case variant resolves identically.
pub proof fn lemma_round_trip(d: PackedData, dict: Seq<(Vec<u8>, Vec<Vec<u8>>)>, q: Seq<u8>)
    requires
        d.wf(),
        d.model() == invert_dict(dict),
    ensures
        invert_dict(dict).dom().contains(fold(q)) ==> d.spec_lookup(q) == Some(
            invert_dict(dict)[fold(q)],
        ),
        !invert_dict(dict).dom().contains(fold(q)) ==> d.spec_lookup(q) is None,
{
}

/// Merge order: a table that encodes a dictionary resolves a query to
/// exactly the concatenation, in dictionary order, of the media types
/// of every record listing a case variant of the query — so duplicate
/// extension entries are merged into one lookup result in first-seen
/// order, and the lookup hits exactly when some record lists the
/// extension.
pub proof fn lemma_merge_order(d: PackedData, dict: Seq<(Vec<u8>, Vec<Vec<u8>>)>, q: Seq<u8>)
    requires
        d.wf(),
        d.model() == invert_dict(dict),
    ensures
        d.spec_lookup(q) is Some <==> mimes_for(dict, fold(q)).len() > 0,
        d.spec_lookup(q) is Some ==> d.spec_lookup(q) == Some(mimes_for(dict, fold(q))),
{
    lemma_invert_merge(dict, fold(q));
}

/// Case insensitivity: two queries with the same folded text resolve
/// identically against any table.
pub proof fn lemma_case_insensitive(d: PackedData, q1: Seq<u8>, q2: Seq<u8>)
    requires
        fold(q1) == fold(q2),
    ensures
        d.spec_lookup(q1) == d.spec_lookup(q2),
{
}

/// Bucket completeness, first half: every bucket's range of a
/// well-formed table is well-formed, empty buckets included.
pub proof fn lemma_bucket_table_monotone(d: PackedData, b: int)
    requires
        d.wf(),
        0 <= b < d.extension_lut@.len() - 1,
    ensures
        d.extension_lut@[b] <= d.extension_lut@[b + 1],
{
}

/// Bucket completeness, second half: a query that falls into an empty
/// bucket misses.
pub proof fn lemma_empty_bucket(d: PackedData, q: Seq<u8>, bb: u8)
    requires
        d.wf(),
        spec_lut_index(d.lut_offset, q) == Some(bb),
        bb as int + 1 < d.extension_lut@.len(),
        d.extension_lut@[bb as int] == d.extension_lut@[bb as int + 1],
    ensures
        d.spec_lookup(q) is None,
{
    assert forall|j: int| 0 <= j < d.ext_count() implies d.ext_at(j) != fold(q) by {
        assert(d.ext_wf(j));
        if d.ext_at(j) == fold(q) {
            assert(fold(q)[0] == lower(q[0]));
            assert(upper(d.ext_at(j)[0]) == upper(q[0]));
            assert(d.bucket_of(d.ext_at(j)) == bb as int);
        }
    }
}

/// Dedup invariant: no two stored extensions of a well-formed table
/// compare byte-equal ASCII case-insensitively.
pub proof fn lemma_dedup(d: PackedData, i: int, j: int)
    requires
        d.wf(),
        0 <= i < d.ext_count(),
        0 <= j < d.ext_count(),
        i != j,
    ensures
        fold(d.ext_at(i)) != fold(d.ext_at(j)),
{
    lemma_ext_unique(d, i, j);
    assert(d.ext_wf(i));
    assert(d.ext_wf(j));
    assert(fold(d.ext_at(i)) == d.ext_at(i));
    assert(fold(d.ext_at(j)) == d.ext_at(j));
}

} // verus!
