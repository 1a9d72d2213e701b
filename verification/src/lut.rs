//! The packed lookup table: format invariants, the table's mathematical
//! model, and the runtime decoder.
//!
//! The table is a set of flat offset arrays over two byte buffers.  An
//! extension is resolved by folding its first byte to uppercase, picking a
//! bucket from `extension_lut`, and scanning that bucket's extensions with
//! a byte-wise, ASCII case-insensitive comparison.

use vstd::prelude::*;
use vstd::slice::slice_index_get;
use vstd::slice::slice_subrange;

use crate::ascii::fold;
use crate::ascii::lex_lt;
use crate::ascii::lower;
use crate::ascii::upper;
use crate::ascii::eq_ignore_ascii_case;
use crate::ascii::lemma_lex_trichotomy;
use crate::ascii::to_upper;

verus! {

/// The smallest unsigned type that every index of the packed table fits into.
pub type PackedIdx = u16;

/// An offset array of `n + 1` monotone entries describing `n` contiguous
/// ranges within a companion buffer of length `total`.
pub open spec fn offsets_wf(offsets: Seq<PackedIdx>, total: int) -> bool {
    &&& offsets.len() >= 1
    &&& offsets[0] == 0
    &&& offsets[offsets.len() - 1] == total
    &&& monotone(offsets)
}

/// Entries never decrease.
pub open spec fn monotone(offsets: Seq<PackedIdx>) -> bool {
    forall|i: int, j: int| 0 <= i <= j < offsets.len() ==> offsets[i] <= offsets[j]
}

/// The packed, immutable representation of the extension dictionary.
pub struct PackedData {
    /// Bucket table into `extension_offsets`, indexed by
    /// `uppercase(extension[0]) - lut_offset`.
    pub extension_lut: Vec<PackedIdx>,
    /// Bucket of the first stored extension; buckets before it need no slots.
    pub lut_offset: u8,
    /// Byte ranges of the stored extensions within `packed_extensions`.
    pub extension_offsets: Vec<PackedIdx>,
    /// Every stored extension, lowercase, sorted, concatenated.
    pub packed_extensions: Vec<u8>,
    /// Ranges within `extension_mimes` holding each extension's media types.
    pub extension_mimes_offsets: Vec<PackedIdx>,
    /// Indices into `mime_offsets`.
    pub extension_mimes: Vec<PackedIdx>,
    /// Byte ranges of the distinct media types within `packed_mimes`.
    pub mime_offsets: Vec<PackedIdx>,
    /// Every distinct media type, stored once, concatenated.
    pub packed_mimes: Vec<u8>,
}

impl PackedData {
    /// Number of stored extensions.
    pub open spec fn ext_count(self) -> int {
        self.extension_offsets@.len() - 1
    }

    /// Text of stored extension `i`.
    pub open spec fn ext_at(self, i: int) -> Seq<u8> {
        self.packed_extensions@.subrange(
            self.extension_offsets@[i] as int,
            self.extension_offsets@[i + 1] as int,
        )
    }

    /// Number of distinct stored media types.
    pub open spec fn mime_count(self) -> int {
        self.mime_offsets@.len() - 1
    }

    /// Text of stored media type `j`.
    pub open spec fn mime_text(self, j: int) -> Seq<u8> {
        self.packed_mimes@.subrange(self.mime_offsets@[j] as int, self.mime_offsets@[j + 1] as int)
    }

    /// The ordered media-type texts associated with stored extension `i`.
    pub open spec fn mimes_at(self, i: int) -> Seq<Seq<u8>> {
        Seq::new(
            (self.extension_mimes_offsets@[i + 1] - self.extension_mimes_offsets@[i]) as nat,
            |k: int|
                self.mime_text(
                    self.extension_mimes@[self.extension_mimes_offsets@[i] as int + k] as int,
                ),
        )
    }

    /// Bucket index of a nonempty extension.
    pub open spec fn bucket_of(self, e: Seq<u8>) -> int {
        upper(e[0]) - self.lut_offset
    }

    /// Format invariants of stored extension `i`: nonempty, ASCII leading
    /// byte, folded to lowercase, and placed inside its bucket's range.
    pub open spec fn ext_wf(self, i: int) -> bool {
        &&& self.ext_at(i).len() > 0
        &&& self.ext_at(i)[0] < 128
        &&& fold(self.ext_at(i)) == self.ext_at(i)
        &&& 0 <= self.bucket_of(self.ext_at(i)) < self.extension_lut@.len() - 1
        &&& self.extension_lut@[self.bucket_of(self.ext_at(i))] <= i
        &&& i < self.extension_lut@[self.bucket_of(self.ext_at(i)) + 1]
    }

    /// Well-formedness of the whole packed representation.
    pub open spec fn wf(self) -> bool {
        &&& offsets_wf(self.extension_offsets@, self.packed_extensions@.len() as int)
        &&& offsets_wf(self.extension_mimes_offsets@, self.extension_mimes@.len() as int)
        &&& offsets_wf(self.mime_offsets@, self.packed_mimes@.len() as int)
        &&& self.extension_mimes_offsets@.len() == self.extension_offsets@.len()
        &&& forall|k: int|
            0 <= k < self.extension_mimes@.len() ==> (self.extension_mimes@[k] as int)
                < self.mime_count()
        &&& self.extension_lut@.len() >= 1
        &&& self.extension_lut@[0] == 0
        &&& self.extension_lut@[self.extension_lut@.len() - 1] == self.ext_count()
        &&& monotone(self.extension_lut@)
        &&& forall|i: int| 0 <= i < self.ext_count() ==> self.ext_wf(i)
        &&& forall|i: int, j: int|
            0 <= i < j < self.ext_count() ==> lex_lt(self.ext_at(i), self.ext_at(j))
    }

    /// Whether some stored extension has exactly the text `e`.
    pub open spec fn has_ext(self, e: Seq<u8>) -> bool {
        exists|i: int| 0 <= i < self.ext_count() && self.ext_at(i) == e
    }

    /// Index of the stored extension with text `e`.
    pub open spec fn ext_index(self, e: Seq<u8>) -> int {
        choose|i: int| 0 <= i < self.ext_count() && self.ext_at(i) == e
    }

    /// The dictionary the table encodes: folded extension text to the
    /// ordered media-type texts associated with it.
    pub open spec fn model(self) -> Map<Seq<u8>, Seq<Seq<u8>>> {
        Map::new(|e: Seq<u8>| self.has_ext(e), |e: Seq<u8>| self.mimes_at(self.ext_index(e)))
    }

    /// What a lookup of `q` must return: the model's entry for the folded
    /// query, if any.
    pub open spec fn spec_lookup(self, q: Seq<u8>) -> Option<Seq<Seq<u8>>> {
        if self.has_ext(fold(q)) {
            Some(self.mimes_at(self.ext_index(fold(q))))
        } else {
            None
        }
    }
}

/// No two stored extensions of a well-formed table share their text.
pub proof fn lemma_ext_unique(d: PackedData, i: int, j: int)
    requires
        d.wf(),
        0 <= i < d.ext_count(),
        0 <= j < d.ext_count(),
        i != j,
    ensures
        d.ext_at(i) != d.ext_at(j),
{
    if i < j {
        lemma_lex_trichotomy(d.ext_at(i), d.ext_at(j));
    } else {
        lemma_lex_trichotomy(d.ext_at(j), d.ext_at(i));
    }
}

/// The model of a well-formed table maps stored extension `i`'s text to
/// exactly its media-type list.
pub proof fn lemma_model_at(d: PackedData, i: int)
    requires
        d.wf(),
        0 <= i < d.ext_count(),
    ensures
        d.has_ext(d.ext_at(i)),
        d.ext_index(d.ext_at(i)) == i,
        d.model().dom().contains(d.ext_at(i)),
        d.model()[d.ext_at(i)] == d.mimes_at(i),
{
    assert(d.has_ext(d.ext_at(i)));
    let w = d.ext_index(d.ext_at(i));
    if w != i {
        lemma_ext_unique(d, i, w);
    }
}

/// Reads the pair `indices[i], indices[i + 1]` as a range, absent when the
/// array is too short for it.
fn get_packed_range(indices: &[PackedIdx], i: usize) -> (r: Option<(usize, usize)>)
    ensures
        match r {
            Some(p) => {
                &&& i + 1 < indices@.len()
                &&& p.0 == indices@[i as int]
                &&& p.1 == indices@[i as int + 1]
                &&& monotone(indices@) ==> p.0 <= p.1
            },
            None => i + 1 >= indices@.len(),
        },
{
    if i < indices.len() {
        if i + 1 < indices.len() {
            let s = *slice_index_get(indices, i) as usize;
            let e = *slice_index_get(indices, i + 1) as usize;
            return Some((s, e));
        }
    }
    None
}

/// Bucket index of `ext` in a table built with bucket offset `offset`:
/// absent when `ext` is empty, its leading byte is not ASCII, or its
/// folded leading byte falls before `offset`.
pub open spec fn spec_lut_index(offset: u8, ext: Seq<u8>) -> Option<u8> {
    if ext.len() > 0 && ext[0] < 128 && upper(ext[0]) >= offset {
        Some((upper(ext[0]) - offset) as u8)
    } else {
        None
    }
}

pub fn extension_lut_index(offset: u8, ext: &[u8]) -> (r: Option<u8>)
    ensures
        r == spec_lut_index(offset, ext@),
{
    if ext.len() == 0 {
        return None;
    }
    let b = *slice_index_get(ext, 0);
    if b >= 128 {
        return None;
    }
    let c = to_upper(b);
    if c >= offset {
        Some(c - offset)
    } else {
        None
    }
}

/// A borrowed, zero-copy view over the media types of one matched
/// extension.
#[derive(Clone, Copy)]
pub struct Mimes<'data> {
    extension_mimes: &'data [PackedIdx],
    mime_offsets: &'data [PackedIdx],
    packed_mimes: &'data [u8],
}

impl<'data> View for Mimes<'data> {
    type V = Seq<Seq<u8>>;

    closed spec fn view(&self) -> Seq<Seq<u8>> {
        Seq::new(
            self.extension_mimes@.len(),
            |k: int|
                self.packed_mimes@.subrange(
                    self.mime_offsets@[self.extension_mimes@[k] as int] as int,
                    self.mime_offsets@[self.extension_mimes@[k] as int + 1] as int,
                ),
        )
    }
}

impl<'data> Mimes<'data> {
    /// The view's indices and offsets stay within its buffers.
    pub closed spec fn wf(self) -> bool {
        &&& offsets_wf(self.mime_offsets@, self.packed_mimes@.len() as int)
        &&& forall|k: int|
            0 <= k < self.extension_mimes@.len() ==> (self.extension_mimes@[k] as int)
                < self.mime_offsets@.len() - 1
    }

    /// Number of associated media types.
    pub fn len(&self) -> (r: usize)
        ensures
            r == self@.len(),
    {
        self.extension_mimes.len()
    }

    pub fn is_empty(&self) -> (r: bool)
        ensures
            r <==> self@.len() == 0,
    {
        self.extension_mimes.is_empty()
    }

    /// The text of the `idx`-th associated media type, absent when `idx`
    /// is out of range.  Every access is bounds-checked, so a malformed
    /// view degrades to absence rather than aborting.
    pub fn get(&self, idx: usize) -> (r: Option<&'data [u8]>)
        ensures
            self.wf() ==> match r {
                Some(s) => idx < self@.len() && s@ == self@[idx as int],
                None => idx >= self@.len(),
            },
    {
        if idx >= self.extension_mimes.len() {
            return None;
        }
        let j = *slice_index_get(self.extension_mimes, idx) as usize;
        match get_packed_range(self.mime_offsets, j) {
            Some((s, e)) => {
                if s <= e && e <= self.packed_mimes.len() {
                    Some(slice_subrange(self.packed_mimes, s, e))
                } else {
                    proof {
                        if self.wf() {
                            assert(self.mime_offsets@[j as int] <= self.mime_offsets@[j as int
                                + 1]);
                            assert(self.mime_offsets@[j as int + 1]
                                <= self.mime_offsets@[self.mime_offsets@.len() - 1]);
                        }
                    }
                    None
                }
            },
            None => {
                proof {
                    if self.wf() {
                        assert((self.extension_mimes@[idx as int] as int)
                            < self.mime_offsets@.len() - 1);
                    }
                }
                None
            },
        }
    }
}

/// Looks `ext` up in the packed table, byte-wise and ASCII
/// case-insensitively: a view of its media types when a case variant of
/// `ext` is stored, absent otherwise.  Every index and slice access is
/// bounds-checked, so a malformed table degrades to a miss rather than
/// aborting; on a well-formed table the result is exactly the model's.
pub fn get_mimes<'data>(data: &'data PackedData, ext: &[u8]) -> (r: Option<Mimes<'data>>)
    ensures
        data.wf() ==> match r {
            Some(m) => {
                &&& m.wf()
                &&& data.spec_lookup(ext@) == Some(m@)
            },
            None => data.spec_lookup(ext@) is None,
        },
{
    let lut_idx: usize = match extension_lut_index(data.lut_offset, ext) {
        Some(i) => i as usize,
        None => {
            proof {
                if data.wf() {
                    assert forall|j: int| 0 <= j < data.ext_count() implies data.ext_at(j)
                        != fold(ext@) by {
                        assert(data.ext_wf(j));
                        if ext@.len() > 0 {
                            assert(fold(ext@)[0] == lower(ext@[0]));
                        }
                    }
                }
            }
            return None;
        },
    };
    let range = get_packed_range(data.extension_lut.as_slice(), lut_idx);
    match range {
        None => {
            proof {
                if data.wf() {
                    assert forall|j: int| 0 <= j < data.ext_count() implies data.ext_at(j)
                        != fold(ext@) by {
                        assert(data.ext_wf(j));
                        assert(fold(ext@)[0] == lower(ext@[0]));
                        if data.ext_at(j) == fold(ext@) {
                            assert(upper(data.ext_at(j)[0]) == upper(ext@[0]));
                        }
                    }
                }
            }
            None
        },
        Some((start, end)) => {
            let mut i = start;
            while i < end
                invariant
                    start <= i,
                    i <= end || i == start,
                    data.wf() ==> {
                        &&& end == data.extension_lut@[lut_idx as int + 1]
                        &&& start == data.extension_lut@[lut_idx as int]
                        &&& lut_idx as int + 1 < data.extension_lut@.len()
                    },
                    Some(lut_idx as u8) == spec_lut_index(data.lut_offset, ext@),
                    forall|j: int| start <= j < i ==> data.wf() ==> data.ext_at(j) != fold(ext@),
                decreases end - i,
            {
                proof {
                    if data.wf() {
                        assert(end <= data.ext_count()) by {
                            assert(data.extension_lut@[lut_idx as int + 1]
                                <= data.extension_lut@[data.extension_lut@.len() - 1]);
                        }
                        assert(data.ext_wf(i as int));
                    }
                }
                match get_packed_range(data.extension_offsets.as_slice(), i) {
                    None => {
                        proof {
                            if data.wf() {
                                assert(i < data.ext_count());
                            }
                        }
                        return None;
                    },
                    Some((s, e)) => {
                        if !(s <= e && e <= data.packed_extensions.len()) {
                            proof {
                                if data.wf() {
                                    assert(data.extension_offsets@[i as int]
                                        <= data.extension_offsets@[i as int + 1]);
                                    assert(data.extension_offsets@[i as int + 1]
                                        <= data.extension_offsets@[data.extension_offsets@.len()
                                        - 1]);
                                }
                            }
                            return None;
                        }
                        let stored = slice_subrange(data.packed_extensions.as_slice(), s, e);
                        if eq_ignore_ascii_case(stored, ext) {
                            proof {
                                if data.wf() {
                                    assert(stored@ == data.ext_at(i as int));
                                    assert(fold(data.ext_at(i as int)) == data.ext_at(i as int));
                                    assert(data.ext_at(i as int) == fold(ext@));
                                    lemma_model_at(*data, i as int);
                                }
                            }
                            match get_packed_range(data.extension_mimes_offsets.as_slice(), i) {
                                None => {
                                    proof {
                                        if data.wf() {
                                            assert(i < data.ext_count());
                                        }
                                    }
                                    return None;
                                },
                                Some((ms, me)) => {
                                    if !(ms <= me && me <= data.extension_mimes.len()) {
                                        proof {
                                            if data.wf() {
                                                assert(data.extension_mimes_offsets@[i as int]
                                                    <= data.extension_mimes_offsets@[i as int
                                                    + 1]);
                                                assert(data.extension_mimes_offsets@[i as int + 1]
                                                    <= data.extension_mimes_offsets@[data.extension_mimes_offsets@.len()
                                                    - 1]);
                                            }
                                        }
                                        return None;
                                    }
                                    let m = Mimes {
                                        extension_mimes: slice_subrange(
                                            data.extension_mimes.as_slice(),
                                            ms,
                                            me,
                                        ),
                                        mime_offsets: data.mime_offsets.as_slice(),
                                        packed_mimes: data.packed_mimes.as_slice(),
                                    };
                                    proof {
                                        if data.wf() {
                                            assert(m@ =~= data.mimes_at(i as int));
                                        }
                                    }
                                    return Some(m);
                                },
                            }
                        }
                        proof {
                            if data.wf() {
                                assert(fold(stored@) != fold(ext@));
                                assert(fold(data.ext_at(i as int)) == data.ext_at(i as int));
                            }
                        }
                    },
                }
                i = i + 1;
            }
            proof {
                if data.wf() {
                    assert forall|j: int| 0 <= j < data.ext_count() implies data.ext_at(j)
                        != fold(ext@) by {
                        assert(data.ext_wf(j));
                        if data.ext_at(j) == fold(ext@) {
                            assert(fold(ext@)[0] == lower(ext@[0]));
                            assert(upper(data.ext_at(j)[0]) == upper(ext@[0]));
                            assert(data.bucket_of(data.ext_at(j)) == lut_idx as int);
                        }
                    }
                }
            }
            None
        },
    }
}

} // verus!
