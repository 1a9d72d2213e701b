//! The offline builder: inverts a media-type dictionary into a sorted
//! extension map and packs it into the flat table format.

use vstd::prelude::*;
use vstd::slice::slice_index_get;
use vstd::slice::slice_to_vec;
use vstd::std_specs::vec::vec_index;

use crate::ascii::bytes_equal;
use crate::ascii::fold;
use crate::ascii::fold_to_vec;
use crate::ascii::lemma_fold_fold;
use crate::ascii::lemma_lex_trans;
use crate::ascii::lemma_lex_trichotomy;
use crate::ascii::lex_lt;
use crate::ascii::lex_lt_bytes;
use crate::ascii::to_upper;
use crate::ascii::upper;
use crate::lut::monotone;
use crate::lut::offsets_wf;
use crate::lut::PackedData;
use crate::lut::PackedIdx;

verus! {

/// A fatal defect in the dictionary handed to the builder: no partial
/// table is ever produced.
#[derive(Clone, Copy, Debug, PartialEq, Eq, Structural)]
pub enum BuildError {
    /// The dictionary holds no extension at all.
    EmptyDataset,
    /// Some extension is the empty string.
    EmptyExtension,
    /// Some extension's leading byte is not ASCII.
    NonAsciiExtension,
    /// The folded, sorted extensions do not visit their buckets in order.
    BucketOrder,
    /// Some offset exceeds the packed index width.
    Overflow,
}

/// One inverted dictionary entry: a folded extension together with its
/// media types, in the order their records were first seen.
pub struct ExtEntry {
    pub ext: Vec<u8>,
    pub mimes: Vec<Vec<u8>>,
}

/// The texts of a list of byte vectors.
pub open spec fn texts(v: Seq<Vec<u8>>) -> Seq<Seq<u8>> {
    Seq::new(v.len(), |i: int| v[i]@)
}

/// Entries strictly sorted by extension text.
pub open spec fn entries_sorted(s: Seq<ExtEntry>) -> bool {
    forall|i: int, j: int| 0 <= i < j < s.len() ==> lex_lt(s[i].ext@, s[j].ext@)
}

/// Every entry's extension is already folded to lowercase.
pub open spec fn entries_folded(s: Seq<ExtEntry>) -> bool {
    forall|i: int| 0 <= i < s.len() ==> s[i].ext@ == fold(s[i].ext@)
}

pub open spec fn has_key(s: Seq<ExtEntry>, k: Seq<u8>) -> bool {
    exists|i: int| 0 <= i < s.len() && s[i].ext@ == k
}

pub open spec fn key_index(s: Seq<ExtEntry>, k: Seq<u8>) -> int {
    choose|i: int| 0 <= i < s.len() && s[i].ext@ == k
}

/// The mapping an entry list stands for: extension text to media types.
pub open spec fn entries_map(s: Seq<ExtEntry>) -> Map<Seq<u8>, Seq<Seq<u8>>> {
    Map::new(|k: Seq<u8>| has_key(s, k), |k: Seq<u8>| texts(s[key_index(s, k)].mimes@))
}

/// Records one (media type, extension) association in an inverted map:
/// the media type joins the folded extension's list, at the end.
pub open spec fn assoc_add(
    m: Map<Seq<u8>, Seq<Seq<u8>>>,
    mime: Seq<u8>,
    ext: Seq<u8>,
) -> Map<Seq<u8>, Seq<Seq<u8>>> {
    let k = fold(ext);
    if m.dom().contains(k) {
        m.insert(k, m[k].push(mime))
    } else {
        m.insert(k, seq![mime])
    }
}

pub open spec fn invert_exts(
    m: Map<Seq<u8>, Seq<Seq<u8>>>,
    mime: Seq<u8>,
    exts: Seq<Vec<u8>>,
    j: int,
) -> Map<Seq<u8>, Seq<Seq<u8>>>
    decreases j,
{
    if j <= 0 {
        m
    } else {
        assoc_add(invert_exts(m, mime, exts, j - 1), mime, exts[j - 1]@)
    }
}

pub open spec fn invert_upto(dict: Seq<(Vec<u8>, Vec<Vec<u8>>)>, i: int) -> Map<
    Seq<u8>,
    Seq<Seq<u8>>,
>
    decreases i,
{
    if i <= 0 {
        Map::empty()
    } else {
        invert_exts(
            invert_upto(dict, i - 1),
            dict[i - 1].0@,
            dict[i - 1].1@,
            dict[i - 1].1@.len() as int,
        )
    }
}

/// The inverted dictionary: folded extension text to the media types
/// listing it, in the order their records appear in the dictionary.
pub open spec fn invert_dict(dict: Seq<(Vec<u8>, Vec<Vec<u8>>)>) -> Map<Seq<u8>, Seq<Seq<u8>>> {
    invert_upto(dict, dict.len() as int)
}

/// Strictly sorted entries have pairwise distinct extensions.
pub proof fn lemma_sorted_unique(s: Seq<ExtEntry>, i: int, j: int)
    requires
        entries_sorted(s),
        0 <= i < s.len(),
        0 <= j < s.len(),
        i != j,
    ensures
        s[i].ext@ != s[j].ext@,
{
    if i < j {
        lemma_lex_trichotomy(s[i].ext@, s[j].ext@);
    } else {
        lemma_lex_trichotomy(s[j].ext@, s[i].ext@);
    }
}

/// In a sorted entry list, each entry is its own extension's unique
/// witness, so the list's map sends the extension to that entry's list.
pub proof fn lemma_key_index_of(s: Seq<ExtEntry>, i: int)
    requires
        entries_sorted(s),
        0 <= i < s.len(),
    ensures
        has_key(s, s[i].ext@),
        key_index(s, s[i].ext@) == i,
        entries_map(s).dom().contains(s[i].ext@),
        entries_map(s)[s[i].ext@] == texts(s[i].mimes@),
{
    assert(has_key(s, s[i].ext@));
    let w = key_index(s, s[i].ext@);
    if w != i {
        lemma_sorted_unique(s, i, w);
    }
}

/// Replacing an entry by one with the same extension replaces exactly
/// that extension's list in the map.
proof fn lemma_entries_update(s: Seq<ExtEntry>, p: int, e: ExtEntry)
    requires
        entries_sorted(s),
        0 <= p < s.len(),
        e.ext@ == s[p].ext@,
    ensures
        entries_sorted(s.update(p, e)),
        entries_map(s.update(p, e)) == entries_map(s).insert(e.ext@, texts(e.mimes@)),
{
    let s2 = s.update(p, e);
    assert forall|i: int| 0 <= i < s2.len() implies s2[i].ext@ == s[i].ext@ by {}
    assert(entries_sorted(s2));
    let m2 = entries_map(s).insert(e.ext@, texts(e.mimes@));
    assert forall|k: Seq<u8>| #[trigger] entries_map(s2).dom().contains(k) <==> m2.dom().contains(
        k,
    ) by {
        assert(has_key(s2, k) <==> has_key(s, k)) by {
            if has_key(s2, k) {
                let w = key_index(s2, k);
                assert(s[w].ext@ == k);
            }
            if has_key(s, k) {
                let w = choose|i: int| 0 <= i < s.len() && s[i].ext@ == k;
                assert(s2[w].ext@ == k);
            }
        }
    }
    assert forall|k: Seq<u8>| #[trigger] m2.dom().contains(k) implies entries_map(s2)[k] == m2[k] by {
        let w = key_index(s2, k);
        assert(0 <= w < s2.len() && s2[w].ext@ == k);
        if k == e.ext@ {
            if w != p {
                lemma_sorted_unique(s, w, p);
            }
            assert(entries_map(s2)[k] == texts(e.mimes@));
        } else {
            assert(w != p);
            let w1 = key_index(s, k);
            assert(0 <= w1 < s.len() && s[w1].ext@ == k);
            if w1 != w {
                lemma_sorted_unique(s, w1, w);
            }
            assert(entries_map(s2)[k] == texts(s[w].mimes@));
        }
    }
    assert(entries_map(s2) =~= m2);
}

/// Inserting an entry between its strict lexicographic neighbours keeps
/// the list sorted and adds exactly its extension to the map.
proof fn lemma_entries_insert(s: Seq<ExtEntry>, p: int, e: ExtEntry)
    requires
        entries_sorted(s),
        0 <= p <= s.len(),
        forall|q: int| 0 <= q < p ==> lex_lt(s[q].ext@, e.ext@),
        forall|q: int| p <= q < s.len() ==> lex_lt(e.ext@, s[q].ext@),
    ensures
        entries_sorted(s.insert(p, e)),
        entries_map(s.insert(p, e)) == entries_map(s).insert(e.ext@, texts(e.mimes@)),
{
    s.insert_ensures(p, e);
    let s2 = s.insert(p, e);
    assert forall|i: int, j: int| 0 <= i < j < s2.len() implies lex_lt(s2[i].ext@, s2[j].ext@) by {
        if i < p && j < p {
        } else if i < p && j == p {
        } else if i < p && j > p {
            assert(s2[j] == s[j - 1]);
            if p <= j - 1 {
                lemma_lex_trans(s[i].ext@, e.ext@, s[j - 1].ext@);
            }
        } else if i == p {
            assert(s2[j] == s[j - 1]);
        } else {
            assert(s2[i] == s[i - 1]);
            assert(s2[j] == s[j - 1]);
        }
    }
    assert forall|q: int| 0 <= q < s.len() implies s[q].ext@ != e.ext@ by {
        lemma_lex_trichotomy(s[q].ext@, e.ext@);
    }
    let m2 = entries_map(s).insert(e.ext@, texts(e.mimes@));
    assert forall|k: Seq<u8>| #[trigger] entries_map(s2).dom().contains(k) <==> m2.dom().contains(
        k,
    ) by {
        if has_key(s2, k) {
            let w = key_index(s2, k);
            if w < p {
                assert(s[w].ext@ == k);
            } else if w == p {
            } else {
                assert(s[w - 1].ext@ == k);
            }
        }
        if has_key(s, k) {
            let w = choose|i: int| 0 <= i < s.len() && s[i].ext@ == k;
            if w < p {
                assert(s2[w].ext@ == k);
            } else {
                assert(s2[w + 1].ext@ == k);
            }
        }
        if k == e.ext@ {
            assert(s2[p].ext@ == k);
        }
    }
    assert forall|k: Seq<u8>| #[trigger] m2.dom().contains(k) implies entries_map(s2)[k] == m2[k] by {
        if k == e.ext@ {
            assert(s2[p].ext@ == k);
            assert(has_key(s2, k));
            let w = key_index(s2, k);
            assert(0 <= w < s2.len() && s2[w].ext@ == k);
            if w != p {
                lemma_sorted_unique(s2, w, p);
            }
            assert(entries_map(s2)[k] == texts(e.mimes@));
        } else {
            assert(has_key(s, k));
            let w1 = key_index(s, k);
            assert(0 <= w1 < s.len() && s[w1].ext@ == k);
            if w1 < p {
                assert(s2[w1].ext@ == k);
            } else {
                assert(s2[w1 + 1].ext@ == k);
            }
            assert(has_key(s2, k));
            let w = key_index(s2, k);
            assert(0 <= w < s2.len() && s2[w].ext@ == k);
            assert(w != p);
            let w0: int = if w < p {
                w
            } else {
                w - 1
            };
            assert(s[w0].ext@ == k);
            if w1 != w0 {
                lemma_sorted_unique(s, w1, w0);
            }
            assert(entries_map(s2)[k] == texts(s[w0].mimes@));
            assert(m2[k] == texts(s[w1].mimes@));
        }
    }
    assert(entries_map(s2) =~= m2);
}

/// First position whose entry does not sort strictly before `key`.
fn find_slot(entries: &Vec<ExtEntry>, key: &[u8]) -> (p: usize)
    ensures
        0 <= p <= entries@.len(),
        forall|q: int| 0 <= q < p ==> lex_lt(entries@[q].ext@, key@),
        p < entries@.len() ==> !lex_lt(entries@[p as int].ext@, key@),
{
    let n = entries.len();
    let mut p: usize = 0;
    while p < n
        invariant
            n == entries@.len(),
            0 <= p <= n,
            forall|q: int| 0 <= q < p ==> lex_lt(entries@[q].ext@, key@),
        decreases n - p,
    {
        if !lex_lt_bytes(vec_index(entries, p).ext.as_slice(), key) {
            return p;
        }
        p = p + 1;
    }
    p
}

/// Records one association in the sorted entry list: appends the media
/// type to the folded extension's entry, creating the entry in sorted
/// position when the extension is new.
fn add_assoc(entries: &mut Vec<ExtEntry>, key: Vec<u8>, mime: &Vec<u8>)
    requires
        entries_sorted(old(entries)@),
        entries_folded(old(entries)@),
        key@ == fold(key@),
    ensures
        entries_sorted(final(entries)@),
        entries_folded(final(entries)@),
        entries_map(final(entries)@) == assoc_add(entries_map(old(entries)@), mime@, key@),
{
    let ghost s = entries@;
    let p = find_slot(entries, key.as_slice());
    let mut hit = false;
    if p < entries.len() {
        if bytes_equal(vec_index(entries, p).ext.as_slice(), key.as_slice()) {
            hit = true;
        }
    }
    if hit {
        proof {
            lemma_key_index_of(s, p as int);
            lemma_fold_fold(key@);
        }
        let mut entry = entries.remove(p);
        entry.mimes.push(slice_to_vec(mime.as_slice()));
        let ghost e2 = entry;
        entries.insert(p, entry);
        proof {
            s.remove_ensures(p as int);
            s.remove(p as int).insert_ensures(p as int, e2);
            assert(entries@ =~= s.update(p as int, e2));
            lemma_entries_update(s, p as int, e2);
            assert(texts(e2.mimes@) =~= texts(s[p as int].mimes@).push(mime@));
            assert(entries_map(entries@) == assoc_add(entries_map(s), mime@, key@));
        }
    } else {
        proof {
            assert forall|q: int| p <= q < s.len() implies lex_lt(key@, s[q].ext@) by {
                lemma_lex_trichotomy(s[p as int].ext@, key@);
                if q > p {
                    lemma_lex_trans(key@, s[p as int].ext@, s[q].ext@);
                }
            }
            assert forall|q: int| 0 <= q < s.len() implies s[q].ext@ != key@ by {
                lemma_lex_trichotomy(s[q].ext@, key@);
            }
            assert(!has_key(s, key@));
            lemma_fold_fold(key@);
        }
        let mut mimes: Vec<Vec<u8>> = Vec::new();
        mimes.push(slice_to_vec(mime.as_slice()));
        let e = ExtEntry { ext: key, mimes };
        let ghost e2 = e;
        entries.insert(p, e);
        proof {
            lemma_entries_insert(s, p as int, e2);
            assert(texts(e2.mimes@) =~= seq![mime@]);
            assert(entries_map(entries@) == assoc_add(entries_map(s), mime@, key@));
        }
    }
}

/// Inverts a dictionary of media-type records into the sorted, folded,
/// duplicate-free extension map that the packer consumes.
pub fn invert(dict: &[(Vec<u8>, Vec<Vec<u8>>)]) -> (r: Vec<ExtEntry>)
    ensures
        entries_sorted(r@),
        entries_folded(r@),
        entries_map(r@) == invert_dict(dict@),
{
    let mut entries: Vec<ExtEntry> = Vec::new();
    proof {
        assert(entries_map(entries@) =~= Map::<Seq<u8>, Seq<Seq<u8>>>::empty());
    }
    let n = dict.len();
    let mut di: usize = 0;
    while di < n
        invariant
            n == dict@.len(),
            0 <= di <= n,
            entries_sorted(entries@),
            entries_folded(entries@),
            entries_map(entries@) == invert_upto(dict@, di as int),
        decreases n - di,
    {
        let pair = slice_index_get(dict, di);
        let en = pair.1.len();
        let mut ei: usize = 0;
        while ei < en
            invariant
                n == dict@.len(),
                0 <= di < n,
                *pair == dict@[di as int],
                en == pair.1@.len(),
                0 <= ei <= en,
                entries_sorted(entries@),
                entries_folded(entries@),
                entries_map(entries@) == invert_exts(
                    invert_upto(dict@, di as int),
                    dict@[di as int].0@,
                    dict@[di as int].1@,
                    ei as int,
                ),
            decreases en - ei,
        {
            let ext_v = vec_index(&pair.1, ei);
            let key = fold_to_vec(ext_v.as_slice());
            proof {
                lemma_fold_fold(ext_v@);
            }
            add_assoc(&mut entries, key, &pair.0);
            proof {
                assert(fold(key@) == fold(pair.1@[ei as int]@));
                assert(entries_map(entries@) == invert_exts(
                    invert_upto(dict@, di as int),
                    dict@[di as int].0@,
                    dict@[di as int].1@,
                    ei as int + 1,
                ));
            }
            ei = ei + 1;
        }
        di = di + 1;
    }
    entries
}

/// Total length of a list of byte strings.
pub open spec fn sum_texts(s: Seq<Seq<u8>>) -> int
    decreases s.len(),
{
    if s.len() == 0 {
        0
    } else {
        sum_texts(s.drop_last()) + s.last().len()
    }
}

/// The distinct media-type texts after recording the first `j` of `ms`,
/// each new one appended at its first occurrence.
pub open spec fn add_mimes(acc: Seq<Seq<u8>>, ms: Seq<Vec<u8>>, j: int) -> Seq<Seq<u8>>
    decreases j,
{
    if j <= 0 {
        acc
    } else {
        let a = add_mimes(acc, ms, j - 1);
        if a.contains(ms[j - 1]@) {
            a
        } else {
            a.push(ms[j - 1]@)
        }
    }
}

/// Bytes of extension text in the first `i` entries.
pub open spec fn ext_bytes_upto(s: Seq<ExtEntry>, i: int) -> int
    decreases i,
{
    if i <= 0 {
        0
    } else {
        ext_bytes_upto(s, i - 1) + s[i - 1].ext@.len()
    }
}

/// Media-type references in the first `i` entries.
pub open spec fn refs_upto(s: Seq<ExtEntry>, i: int) -> int
    decreases i,
{
    if i <= 0 {
        0
    } else {
        refs_upto(s, i - 1) + s[i - 1].mimes@.len()
    }
}

/// The distinct media-type texts of the first `i` entries, in first-seen
/// order.
pub open spec fn distinct_upto(s: Seq<ExtEntry>, i: int) -> Seq<Seq<u8>>
    decreases i,
{
    if i <= 0 {
        Seq::empty()
    } else {
        add_mimes(distinct_upto(s, i - 1), s[i - 1].mimes@, s[i - 1].mimes@.len() as int)
    }
}

/// Every offset of the packed table fits the packed index width.
pub open spec fn pack_fits(s: Seq<ExtEntry>) -> bool {
    &&& s.len() <= 0xFFFF
    &&& ext_bytes_upto(s, s.len() as int) <= 0xFFFF
    &&& refs_upto(s, s.len() as int) <= 0xFFFF
    &&& sum_texts(distinct_upto(s, s.len() as int)) <= 0xFFFF
}

/// Every extension is nonempty with an ASCII leading byte.
pub open spec fn exts_ok(s: Seq<ExtEntry>) -> bool {
    forall|i: int| 0 <= i < s.len() ==> s[i].ext@.len() > 0 && s[i].ext@[0] < 128
}

/// The sorted extensions visit their buckets in non-decreasing order.
pub open spec fn buckets_ok(s: Seq<ExtEntry>) -> bool {
    forall|i: int| 1 <= i < s.len() ==> upper(#[trigger] s[i].ext@[0]) >= upper(s[i - 1].ext@[0])
}

/// The packer succeeds on exactly these entry lists.
pub open spec fn pack_ok(s: Seq<ExtEntry>) -> bool {
    &&& s.len() > 0
    &&& exts_ok(s)
    &&& buckets_ok(s)
    &&& pack_fits(s)
}

/// Range `i` of an offset array, read out of its companion buffer.
pub open spec fn range_text(off: Seq<PackedIdx>, buf: Seq<u8>, i: int) -> Seq<u8> {
    buf.subrange(off[i] as int, off[i + 1] as int)
}

/// The interned media-type store mirrors its offset encoding.
pub open spec fn mime_store_wf(seen: Seq<Vec<u8>>, mo: Seq<PackedIdx>, pm: Seq<u8>) -> bool {
    &&& offsets_wf(mo, pm.len() as int)
    &&& mo.len() == seen.len() + 1
    &&& forall|j: int| 0 <= j < seen.len() ==> range_text(mo, pm, j) == seen[j]@
    &&& forall|i: int, j: int| 0 <= i < j < seen.len() ==> seen[i]@ != seen[j]@
    &&& pm.len() == sum_texts(texts(seen))
}

/// Entry `i`'s slot in the reference arrays holds exactly its media
/// types, as indices into the interned store.
pub open spec fn entry_refs_ok(
    emo: Seq<PackedIdx>,
    em: Seq<PackedIdx>,
    seen: Seq<Vec<u8>>,
    e: ExtEntry,
    i: int,
) -> bool {
    &&& emo[i + 1] - emo[i] == e.mimes@.len()
    &&& forall|k: int|
        0 <= k < e.mimes@.len() ==> seen[em[emo[i] as int + k] as int]@ == e.mimes@[k]@
}

proof fn lemma_sum_push(s: Seq<Seq<u8>>, x: Seq<u8>)
    ensures
        sum_texts(s.push(x)) == sum_texts(s) + x.len(),
{
    assert(s.push(x).drop_last() =~= s);
    assert(s.push(x).last() == x);
}

proof fn lemma_add_mimes_sum_mono(acc: Seq<Seq<u8>>, ms: Seq<Vec<u8>>, j1: int, j2: int)
    requires
        0 <= j1 <= j2,
    ensures
        sum_texts(add_mimes(acc, ms, j1)) <= sum_texts(add_mimes(acc, ms, j2)),
    decreases j2 - j1,
{
    if j1 < j2 {
        lemma_add_mimes_sum_mono(acc, ms, j1, j2 - 1);
        let a = add_mimes(acc, ms, j2 - 1);
        if !a.contains(ms[j2 - 1]@) {
            lemma_sum_push(a, ms[j2 - 1]@);
        }
    }
}

proof fn lemma_ext_bytes_mono(s: Seq<ExtEntry>, i1: int, i2: int)
    requires
        0 <= i1 <= i2,
    ensures
        ext_bytes_upto(s, i1) <= ext_bytes_upto(s, i2),
    decreases i2 - i1,
{
    if i1 < i2 {
        lemma_ext_bytes_mono(s, i1, i2 - 1);
    }
}

proof fn lemma_refs_mono(s: Seq<ExtEntry>, i1: int, i2: int)
    requires
        0 <= i1 <= i2,
    ensures
        refs_upto(s, i1) <= refs_upto(s, i2),
    decreases i2 - i1,
{
    if i1 < i2 {
        lemma_refs_mono(s, i1, i2 - 1);
    }
}

proof fn lemma_distinct_sum_mono(s: Seq<ExtEntry>, i1: int, i2: int)
    requires
        0 <= i1 <= i2,
    ensures
        sum_texts(distinct_upto(s, i1)) <= sum_texts(distinct_upto(s, i2)),
    decreases i2 - i1,
{
    if i1 < i2 {
        lemma_distinct_sum_mono(s, i1, i2 - 1);
        lemma_add_mimes_sum_mono(
            distinct_upto(s, i2 - 1),
            s[i2 - 1].mimes@,
            0,
            s[i2 - 1].mimes@.len() as int,
        );
    }
}

/// Appends a byte string to a buffer.
fn append_bytes(dst: &mut Vec<u8>, src: &[u8])
    ensures
        final(dst)@ == old(dst)@ + src@,
{
    let n = src.len();
    let mut i: usize = 0;
    while i < n
        invariant
            n == src@.len(),
            0 <= i <= n,
            dst@ == old(dst)@ + src@.take(i as int),
        decreases n - i,
    {
        dst.push(*slice_index_get(src, i));
        proof {
            assert(dst@ =~= old(dst)@ + src@.take(i as int + 1));
        }
        i = i + 1;
    }
    proof {
        assert(old(dst)@ + src@.take(n as int) =~= old(dst)@ + src@);
    }
}

/// Interns one media-type text in the store, appending its bytes and end
/// offset only the first time it is seen, and hands back its stable
/// index.
#[verifier::loop_isolation(false)]
fn intern_mime(seen: &mut Vec<Vec<u8>>, mo: &mut Vec<PackedIdx>, pm: &mut Vec<u8>, m: &[u8]) -> (r:
    Result<PackedIdx, BuildError>)
    requires
        mime_store_wf(old(seen)@, old(mo)@, old(pm)@),
        old(seen)@.len() <= 0xFFFE,
    ensures
        mime_store_wf(final(seen)@, final(mo)@, final(pm)@),
        match r {
            Ok(idx) => {
                &&& (idx as int) < final(seen)@.len()
                &&& final(seen)@[idx as int]@ == m@
                &&& old(seen)@.len() <= final(seen)@.len()
                &&& forall|j: int| 0 <= j < old(seen)@.len() ==> final(seen)@[j] == old(seen)@[j]
                &&& texts(final(seen)@) == (if texts(old(seen)@).contains(m@) {
                    texts(old(seen)@)
                } else {
                    texts(old(seen)@).push(m@)
                })
                &&& final(mo)@ == (if texts(old(seen)@).contains(m@) {
                    old(mo)@
                } else {
                    old(mo)@.push((old(pm)@.len() + m@.len()) as u16)
                })
                &&& final(pm)@ == (if texts(old(seen)@).contains(m@) {
                    old(pm)@
                } else {
                    old(pm)@ + m@
                })
            },
            Err(e) => {
                &&& e == BuildError::Overflow
                &&& !texts(old(seen)@).contains(m@)
                &&& old(pm)@.len() + m@.len() > 0xFFFF
                &&& final(seen)@ == old(seen)@
                &&& final(mo)@ == old(mo)@
                &&& final(pm)@ == old(pm)@
            },
        },
{
    let k = seen.len();
    let mut i: usize = 0;
    while i < k
        invariant
            k == seen@.len(),
            0 <= i <= k,
            seen@ == old(seen)@,
            mo@ == old(mo)@,
            pm@ == old(pm)@,
            forall|j: int| 0 <= j < i ==> seen@[j]@ != m@,
        decreases k - i,
    {
        if bytes_equal(vec_index(seen, i).as_slice(), m) {
            proof {
                assert(texts(seen@)[i as int] == m@);
                assert(texts(seen@).contains(m@));
            }
            return Ok(i as u16);
        }
        i = i + 1;
    }
    proof {
        assert(!texts(seen@).contains(m@)) by {
            if texts(seen@).contains(m@) {
                let j = choose|j: int| 0 <= j < texts(seen@).len() && texts(seen@)[j] == m@;
                assert(seen@[j]@ == m@);
            }
        }
    }
    if m.len() > 0xFFFF {
        return Err(BuildError::Overflow);
    }
    let new_len = pm.len() + m.len();
    if new_len > 0xFFFF {
        return Err(BuildError::Overflow);
    }
    let idx = seen.len();
    let ghost mo0 = mo@;
    let ghost pm0 = pm@;
    let ghost seen0 = seen@;
    append_bytes(pm, m);
    mo.push(new_len as u16);
    seen.push(slice_to_vec(m));
    proof {
        assert(texts(seen@) =~= texts(seen0).push(m@));
        lemma_sum_push(texts(seen0), m@);
        assert forall|j: int| 0 <= j < seen@.len() implies range_text(mo@, pm@, j)
            == seen@[j]@ by {
            if j < seen0.len() {
                assert(mo@[j] == mo0[j]);
                assert(mo@[j + 1] == mo0[j + 1]);
                assert(range_text(mo@, pm@, j) =~= range_text(mo0, pm0, j));
            } else {
                assert(range_text(mo@, pm@, j) =~= m@);
            }
        }
        assert(offsets_wf(mo@, pm@.len() as int)) by {
            assert forall|a: int, b: int| 0 <= a <= b < mo@.len() implies mo@[a] <= mo@[b] by {
                if b < mo0.len() {
                    assert(mo0[a] <= mo0[b]);
                } else if a < mo0.len() {
                    assert(mo0[a] <= mo0[mo0.len() - 1]);
                }
            }
        }
    }
    Ok(idx as u16)
}

/// Entry `i` of the first `t` lies inside its bucket's range of the
/// bucket table under construction.
pub open spec fn lut_place_at(
    s: Seq<ExtEntry>,
    i: int,
    lut: Seq<PackedIdx>,
    last_bucket: int,
    off: u8,
) -> bool {
    let b = upper(s[i].ext@[0]) - off;
    &&& 0 <= b <= last_bucket
    &&& lut[b] as int <= i
    &&& (b < last_bucket ==> i < lut[b + 1] as int)
}

/// Packs a sorted, folded entry list into the flat table.  Succeeds
/// exactly on the lists `pack_ok` admits, and the table it then returns
/// is well-formed and encodes exactly the entry list's mapping.
#[verifier::loop_isolation(false)]
#[verifier::rlimit(100)]
pub fn pack(entries: &Vec<ExtEntry>) -> (r: Result<PackedData, BuildError>)
    requires
        entries_sorted(entries@),
        entries_folded(entries@),
    ensures
        match r {
            Ok(d) => {
                &&& pack_ok(entries@)
                &&& d.wf()
                &&& d.ext_count() == entries@.len()
                &&& forall|i: int|
                    0 <= i < entries@.len() ==> d.ext_at(i) == entries@[i].ext@ && d.mimes_at(i)
                        == texts(entries@[i].mimes@)
                &&& d.model() == entries_map(entries@)
            },
            Err(e) => {
                &&& !pack_ok(entries@)
                &&& (e == BuildError::EmptyDataset <==> entries@.len() == 0)
                &&& (e == BuildError::EmptyExtension ==> exists|i: int|
                    0 <= i < entries@.len() && entries@[i].ext@.len() == 0)
                &&& (e == BuildError::NonAsciiExtension ==> exists|i: int|
                    0 <= i < entries@.len() && entries@[i].ext@.len() > 0 && entries@[i].ext@[0]
                        >= 128)
                &&& (e == BuildError::BucketOrder ==> !buckets_ok(entries@))
                &&& (e == BuildError::Overflow ==> !pack_fits(entries@))
            },
        },
{
    let ghost s = entries@;
    let n = entries.len();
    if n == 0 {
        return Err(BuildError::EmptyDataset);
    }
    if n > 0xFFFF {
        return Err(BuildError::Overflow);
    }
    let mut extension_lut: Vec<PackedIdx> = Vec::new();
    extension_lut.push(0);
    let mut lut_offset: u8 = 0;
    let mut last_bucket: usize = 0;
    let mut prev_up: u8 = 0;
    let mut extension_offsets: Vec<PackedIdx> = Vec::new();
    extension_offsets.push(0);
    let mut packed_extensions: Vec<u8> = Vec::new();
    let mut extension_mimes_offsets: Vec<PackedIdx> = Vec::new();
    extension_mimes_offsets.push(0);
    let mut extension_mimes: Vec<PackedIdx> = Vec::new();
    let mut mime_offsets: Vec<PackedIdx> = Vec::new();
    mime_offsets.push(0);
    let mut packed_mimes: Vec<u8> = Vec::new();
    let mut seen: Vec<Vec<u8>> = Vec::new();

    let mut t: usize = 0;
    while t < n
        invariant
            0 <= t <= n,
            extension_offsets@.len() == t + 1,
            offsets_wf(extension_offsets@, packed_extensions@.len() as int),
            packed_extensions@.len() == ext_bytes_upto(s, t as int),
            forall|i: int|
                0 <= i < t ==> range_text(extension_offsets@, packed_extensions@, i)
                    == s[i].ext@,
            extension_mimes_offsets@.len() == t + 1,
            offsets_wf(extension_mimes_offsets@, extension_mimes@.len() as int),
            extension_mimes@.len() == refs_upto(s, t as int),
            mime_store_wf(seen@, mime_offsets@, packed_mimes@),
            texts(seen@) == distinct_upto(s, t as int),
            seen@.len() <= extension_mimes@.len(),
            forall|k: int|
                0 <= k < extension_mimes@.len() ==> (extension_mimes@[k] as int) < seen@.len(),
            forall|i: int|
                0 <= i < t ==> entry_refs_ok(
                    extension_mimes_offsets@,
                    extension_mimes@,
                    seen@,
                    s[i],
                    i,
                ),
            extension_lut@.len() == last_bucket + 1,
            extension_lut@[0] == 0,
            monotone(extension_lut@),
            forall|q: int| 0 <= q < extension_lut@.len() ==> extension_lut@[q] as int <= t as int,
            t > 0 ==> prev_up == upper(s[t - 1].ext@[0]) && lut_offset == upper(s[0].ext@[0])
                && prev_up >= lut_offset && last_bucket == prev_up - lut_offset,
            t == 0 ==> last_bucket == 0,
            forall|i: int| 0 <= i < t ==> s[i].ext@.len() > 0 && s[i].ext@[0] < 128,
            forall|i: int|
                1 <= i < t ==> upper(#[trigger] s[i].ext@[0]) >= upper(s[i - 1].ext@[0]),
            forall|i: int|
                0 <= i < t ==> lut_place_at(s, i, extension_lut@, last_bucket as int, lut_offset),
        decreases n - t,
    {
        let e = vec_index(entries, t);
        if e.ext.len() == 0 {
            return Err(BuildError::EmptyExtension);
        }
        let b0 = *slice_index_get(e.ext.as_slice(), 0);
        if b0 >= 128 {
            return Err(BuildError::NonAsciiExtension);
        }
        let cur_up = to_upper(b0);
        if t == 0 {
            lut_offset = cur_up;
            prev_up = cur_up;
        } else {
            if cur_up < prev_up {
                return Err(BuildError::BucketOrder);
            }
            prev_up = cur_up;
        }
        let b = (cur_up - lut_offset) as usize;
        while last_bucket < b
            invariant
                last_bucket <= b,
                extension_lut@.len() == last_bucket + 1,
                extension_lut@[0] == 0,
                monotone(extension_lut@),
                forall|q: int|
                    0 <= q < extension_lut@.len() ==> extension_lut@[q] as int <= t as int,
                forall|i: int|
                    0 <= i < t ==> lut_place_at(
                        s,
                        i,
                        extension_lut@,
                        last_bucket as int,
                        lut_offset,
                    ),
            decreases b - last_bucket,
        {
            let ghost lut0 = extension_lut@;
            extension_lut.push(t as u16);
            last_bucket = last_bucket + 1;
            proof {
                assert forall|a: int, q: int| 0 <= a <= q < extension_lut@.len() implies
                    extension_lut@[a] <= extension_lut@[q] by {
                    if q < lut0.len() {
                        assert(lut0[a] <= lut0[q]);
                    }
                }
                assert forall|i: int| 0 <= i < t implies lut_place_at(
                    s,
                    i,
                    extension_lut@,
                    last_bucket as int,
                    lut_offset,
                ) by {
                    assert(lut_place_at(s, i, lut0, last_bucket as int - 1, lut_offset));
                }
            }
        }
        let ghost ext_off0 = extension_offsets@;
        let ghost packed0 = packed_extensions@;
        if e.ext.len() > 0xFFFF {
            proof {
                assert(ext_bytes_upto(s, t as int + 1) > 0xFFFF);
                lemma_ext_bytes_mono(s, t as int + 1, n as int);
            }
            return Err(BuildError::Overflow);
        }
        let new_ext_len = packed_extensions.len() + e.ext.len();
        if new_ext_len > 0xFFFF {
            proof {
                assert(ext_bytes_upto(s, t as int + 1) > 0xFFFF);
                lemma_ext_bytes_mono(s, t as int + 1, n as int);
            }
            return Err(BuildError::Overflow);
        }
        append_bytes(&mut packed_extensions, e.ext.as_slice());
        extension_offsets.push(new_ext_len as u16);
        proof {
            assert forall|a: int, q: int| 0 <= a <= q < extension_offsets@.len() implies
                extension_offsets@[a] <= extension_offsets@[q] by {
                if q < ext_off0.len() {
                    assert(ext_off0[a] <= ext_off0[q]);
                } else if a < ext_off0.len() {
                    assert(ext_off0[a] <= ext_off0[ext_off0.len() - 1]);
                }
            }
            assert forall|i: int| 0 <= i <= t implies range_text(
                extension_offsets@,
                packed_extensions@,
                i,
            ) == s[i].ext@ by {
                if i < t {
                    assert(extension_offsets@[i] == ext_off0[i]);
                    assert(extension_offsets@[i + 1] == ext_off0[i + 1]);
                    assert(range_text(extension_offsets@, packed_extensions@, i) =~= range_text(
                        ext_off0,
                        packed0,
                        i,
                    ));
                } else {
                    assert(range_text(extension_offsets@, packed_extensions@, i) =~= s[i].ext@);
                }
            }
        }
        let mn = e.mimes.len();
        let mut mi: usize = 0;
        while mi < mn
            invariant
                0 <= mi <= mn,
                mime_store_wf(seen@, mime_offsets@, packed_mimes@),
                texts(seen@) == add_mimes(distinct_upto(s, t as int), s[t as int].mimes@, mi as int),
                extension_mimes@.len() == refs_upto(s, t as int) + mi,
                extension_mimes@.len() <= 0xFFFF,
                seen@.len() <= extension_mimes@.len(),
                forall|k: int|
                    0 <= k < extension_mimes@.len() ==> (extension_mimes@[k] as int) < seen@.len(),
                forall|i: int|
                    0 <= i < t ==> entry_refs_ok(
                        extension_mimes_offsets@,
                        extension_mimes@,
                        seen@,
                        s[i],
                        i,
                    ),
                forall|k: int|
                    0 <= k < mi ==> seen@[extension_mimes@[refs_upto(s, t as int) + k] as int]@
                        == s[t as int].mimes@[k]@,
            decreases mn - mi,
        {
            if extension_mimes.len() >= 0xFFFF {
                proof {
                    assert(refs_upto(s, t as int + 1) > 0xFFFF);
                    lemma_refs_mono(s, t as int + 1, n as int);
                }
                return Err(BuildError::Overflow);
            }
            let m = vec_index(&e.mimes, mi);
            let ghost seen0 = seen@;
            let ghost em0 = extension_mimes@;
            match intern_mime(&mut seen, &mut mime_offsets, &mut packed_mimes, m.as_slice()) {
                Ok(idx) => {
                    extension_mimes.push(idx);
                    proof {
                        assert(texts(seen@) == add_mimes(
                            distinct_upto(s, t as int),
                            s[t as int].mimes@,
                            mi as int + 1,
                        ));
                        assert(seen@[idx as int]@ == m@);
                        assert(seen0.len() <= seen@.len());
                        assert(forall|j: int| 0 <= j < seen0.len() ==> seen@[j] == seen0[j]);
                        let ghost refs = refs_upto(s, t as int);
                        assert forall|k: int| 0 <= k < mi + 1 implies seen@[extension_mimes@[refs
                            + k] as int]@ == s[t as int].mimes@[k]@ by {
                            if k < mi {
                                assert(extension_mimes@[refs + k] == em0[refs + k]);
                                assert(seen0[em0[refs + k] as int]@ == s[t as int].mimes@[k]@);
                            } else {
                                assert(extension_mimes@[refs + k] == idx);
                            }
                        }
                        assert forall|i: int| 0 <= i < t implies entry_refs_ok(
                            extension_mimes_offsets@,
                            extension_mimes@,
                            seen@,
                            s[i],
                            i,
                        ) by {
                            assert(entry_refs_ok(
                                extension_mimes_offsets@,
                                em0,
                                seen0,
                                s[i],
                                i,
                            ));
                            let lo = extension_mimes_offsets@[i] as int;
                            assert(extension_mimes_offsets@[i + 1]
                                <= extension_mimes_offsets@[t as int]);
                            assert forall|k: int| 0 <= k < s[i].mimes@.len() implies
                                seen@[extension_mimes@[lo + k] as int]@ == s[i].mimes@[k]@ by {
                                assert(lo + k < refs);
                                assert(extension_mimes@[lo + k] == em0[lo + k]);
                                assert(seen0[em0[lo + k] as int]@ == s[i].mimes@[k]@);
                            }
                        }
                    }
                },
                Err(err) => {
                    proof {
                        assert(sum_texts(
                            add_mimes(distinct_upto(s, t as int), s[t as int].mimes@, mi as int + 1),
                        ) > 0xFFFF) by {
                            lemma_sum_push(texts(seen0), m@);
                        }
                        lemma_add_mimes_sum_mono(
                            distinct_upto(s, t as int),
                            s[t as int].mimes@,
                            mi as int + 1,
                            mn as int,
                        );
                        lemma_distinct_sum_mono(s, t as int + 1, n as int);
                    }
                    return Err(err);
                },
            }
            mi = mi + 1;
        }
        let ghost emo0 = extension_mimes_offsets@;
        extension_mimes_offsets.push(extension_mimes.len() as u16);
        proof {
            assert forall|a: int, q: int| 0 <= a <= q < extension_mimes_offsets@.len() implies
                extension_mimes_offsets@[a] <= extension_mimes_offsets@[q] by {
                if q < emo0.len() {
                    assert(emo0[a] <= emo0[q]);
                } else if a < emo0.len() {
                    assert(emo0[a] <= emo0[emo0.len() - 1]);
                }
            }
            assert forall|i: int| 0 <= i <= t implies entry_refs_ok(
                extension_mimes_offsets@,
                extension_mimes@,
                seen@,
                s[i],
                i,
            ) by {
                if i < t {
                    assert(extension_mimes_offsets@[i] == emo0[i]);
                    assert(extension_mimes_offsets@[i + 1] == emo0[i + 1]);
                    assert(entry_refs_ok(emo0, extension_mimes@, seen@, s[i], i));
                } else {
                    assert(extension_mimes_offsets@[i] == emo0[emo0.len() - 1]);
                    assert(extension_mimes_offsets@[i] as int == refs_upto(s, t as int));
                    assert(extension_mimes_offsets@[i + 1] as int == extension_mimes@.len());
                }
            }
        }
        t = t + 1;
    }
    let ghost lut_pre = extension_lut@;
    extension_lut.push(n as u16);
    let d = PackedData {
        extension_lut,
        lut_offset,
        extension_offsets,
        packed_extensions,
        extension_mimes_offsets,
        extension_mimes,
        mime_offsets,
        packed_mimes,
    };
    proof {
        assert forall|a: int, q: int| 0 <= a <= q < d.extension_lut@.len() implies
            d.extension_lut@[a] <= d.extension_lut@[q] by {
            if q < lut_pre.len() {
                assert(lut_pre[a] <= lut_pre[q]);
            } else if a < lut_pre.len() {
                assert(lut_pre[a] as int <= n as int);
            }
        }
        assert(d.ext_count() == n);
        assert forall|i: int| 0 <= i < n implies d.ext_at(i) == s[i].ext@ && d.mimes_at(i)
            =~= texts(s[i].mimes@) by {
            assert(d.ext_at(i) == range_text(d.extension_offsets@, d.packed_extensions@, i));
            assert(entry_refs_ok(d.extension_mimes_offsets@, d.extension_mimes@, seen@, s[i], i));
            assert forall|k: int|
                0 <= k < s[i].mimes@.len() implies d.mimes_at(i)[k] == s[i].mimes@[k]@ by {
                let j = d.extension_mimes@[d.extension_mimes_offsets@[i] as int + k] as int;
                assert(0 <= d.extension_mimes_offsets@[i] as int + k < d.extension_mimes@.len());
                assert(j < seen@.len());
                assert(range_text(d.mime_offsets@, d.packed_mimes@, j) == seen@[j]@);
                assert(d.mimes_at(i)[k] == d.mime_text(j));
            }
        }
        assert forall|i: int| 0 <= i < n implies d.ext_wf(i) by {
            let bi = upper(s[i].ext@[0]) - lut_offset;
            assert(lut_place_at(s, i, lut_pre, last_bucket as int, lut_offset));
            assert(d.extension_lut@[bi] == lut_pre[bi]);
            if bi < last_bucket {
                assert(d.extension_lut@[bi + 1] == lut_pre[bi + 1]);
            } else {
                assert(d.extension_lut@[bi + 1] == n as u16);
            }
            assert(fold(d.ext_at(i)) == d.ext_at(i));
        }
        assert(d.wf());
        assert forall|k: Seq<u8>| #[trigger] entries_map(s).dom().contains(k) implies d.model()
            .dom().contains(k) && d.model()[k] == entries_map(s)[k] by {
            let w = key_index(s, k);
            assert(0 <= w < s.len() && s[w].ext@ == k);
            lemma_key_index_of(s, w);
            crate::lut::lemma_model_at(d, w);
        }
        assert forall|k: Seq<u8>| #[trigger] d.model().dom().contains(k) implies entries_map(
            s,
        ).dom().contains(k) by {
            let w = d.ext_index(k);
            assert(0 <= w < n && d.ext_at(w) == k);
            assert(s[w].ext@ == k);
            assert(has_key(s, k));
        }
        assert(d.model() =~= entries_map(s));
    }
    Ok(d)
}

/// The media types that the first `j` extensions of one record
/// contribute to folded key `k`: one copy of the record's media type
/// for each listed extension that folds to `k`.
pub open spec fn record_occ(mime: Seq<u8>, exts: Seq<Vec<u8>>, k: Seq<u8>, j: int) -> Seq<Seq<u8>>
    decreases j,
{
    if j <= 0 {
        Seq::empty()
    } else if fold(exts[j - 1]@) == k {
        record_occ(mime, exts, k, j - 1).push(mime)
    } else {
        record_occ(mime, exts, k, j - 1)
    }
}

/// The media types the first `i` records associate with folded key `k`,
/// in record order.
pub open spec fn mimes_for_upto(dict: Seq<(Vec<u8>, Vec<Vec<u8>>)>, k: Seq<u8>, i: int) -> Seq<
    Seq<u8>,
>
    decreases i,
{
    if i <= 0 {
        Seq::empty()
    } else {
        mimes_for_upto(dict, k, i - 1) + record_occ(
            dict[i - 1].0@,
            dict[i - 1].1@,
            k,
            dict[i - 1].1@.len() as int,
        )
    }
}

/// Every media type the dictionary associates with folded key `k`, in
/// first-seen order.
pub open spec fn mimes_for(dict: Seq<(Vec<u8>, Vec<Vec<u8>>)>, k: Seq<u8>) -> Seq<Seq<u8>> {
    mimes_for_upto(dict, k, dict.len() as int)
}

proof fn lemma_invert_exts_at(
    m: Map<Seq<u8>, Seq<Seq<u8>>>,
    mime: Seq<u8>,
    exts: Seq<Vec<u8>>,
    k: Seq<u8>,
    j: int,
)
    requires
        0 <= j,
    ensures
        invert_exts(m, mime, exts, j).dom().contains(k) <==> m.dom().contains(k) || record_occ(
            mime,
            exts,
            k,
            j,
        ).len() > 0,
        invert_exts(m, mime, exts, j).dom().contains(k) ==> invert_exts(m, mime, exts, j)[k] == (
        if m.dom().contains(k) {
            m[k]
        } else {
            Seq::empty()
        }) + record_occ(mime, exts, k, j),
    decreases j,
{
    let base: Seq<Seq<u8>> = if m.dom().contains(k) {
        m[k]
    } else {
        Seq::empty()
    };
    if j == 0 {
        if m.dom().contains(k) {
            assert(base + Seq::<Seq<u8>>::empty() =~= m[k]);
        }
    } else {
        lemma_invert_exts_at(m, mime, exts, k, j - 1);
        let m1 = invert_exts(m, mime, exts, j - 1);
        let kk = fold(exts[j - 1]@);
        if kk == k {
            if m1.dom().contains(k) {
                assert((base + record_occ(mime, exts, k, j - 1)).push(mime) =~= base + record_occ(
                    mime,
                    exts,
                    k,
                    j,
                ));
            } else {
                assert(seq![mime] =~= base + record_occ(mime, exts, k, j));
            }
        }
    }
}

proof fn lemma_invert_upto_at(dict: Seq<(Vec<u8>, Vec<Vec<u8>>)>, k: Seq<u8>, i: int)
    requires
        0 <= i,
    ensures
        invert_upto(dict, i).dom().contains(k) <==> mimes_for_upto(dict, k, i).len() > 0,
        invert_upto(dict, i).dom().contains(k) ==> invert_upto(dict, i)[k] == mimes_for_upto(
            dict,
            k,
            i,
        ),
    decreases i,
{
    if i > 0 {
        lemma_invert_upto_at(dict, k, i - 1);
        lemma_invert_exts_at(
            invert_upto(dict, i - 1),
            dict[i - 1].0@,
            dict[i - 1].1@,
            k,
            dict[i - 1].1@.len() as int,
        );
        if !invert_upto(dict, i - 1).dom().contains(k) {
            assert(mimes_for_upto(dict, k, i - 1) =~= Seq::<Seq<u8>>::empty());
        }
    }
}

/// The inverted dictionary's entry for a folded extension is exactly
/// the concatenation, in dictionary order, of the media types of every
/// record that lists a case variant of that extension.
pub proof fn lemma_invert_merge(dict: Seq<(Vec<u8>, Vec<Vec<u8>>)>, k: Seq<u8>)
    ensures
        invert_dict(dict).dom().contains(k) <==> mimes_for(dict, k).len() > 0,
        invert_dict(dict).dom().contains(k) ==> invert_dict(dict)[k] == mimes_for(dict, k),
{
    lemma_invert_upto_at(dict, k, dict.len() as int);
}

/// Dropping the first entry of a sorted list removes exactly its
/// extension from the mapping.
proof fn lemma_entries_map_drop_first(s: Seq<ExtEntry>)
    requires
        entries_sorted(s),
        s.len() > 0,
    ensures
        entries_sorted(s.drop_first()),
        entries_map(s.drop_first()) == entries_map(s).remove(s[0].ext@),
{
    let s2 = s.drop_first();
    assert(forall|i: int| 0 <= i < s2.len() ==> s2[i] == s[i + 1]);
    assert(entries_sorted(s2));
    let m2 = entries_map(s).remove(s[0].ext@);
    assert forall|k: Seq<u8>| #[trigger] entries_map(s2).dom().contains(k) <==> m2.dom().contains(
        k,
    ) by {
        if has_key(s2, k) {
            let w = key_index(s2, k);
            assert(s[w + 1].ext@ == k);
            lemma_sorted_unique(s, 0, w + 1);
            assert(has_key(s, k));
        }
        if m2.dom().contains(k) {
            let w = choose|i: int| 0 <= i < s.len() && s[i].ext@ == k;
            assert(w != 0);
            assert(s2[w - 1].ext@ == k);
        }
    }
    assert forall|k: Seq<u8>| #[trigger] m2.dom().contains(k) implies entries_map(s2)[k]
        == m2[k] by {
        let w = choose|i: int| 0 <= i < s.len() && s[i].ext@ == k;
        assert(w != 0);
        assert(s2[w - 1].ext@ == k);
        let w2 = key_index(s2, k);
        assert(0 <= w2 < s2.len() && s2[w2].ext@ == k);
        if w2 != w - 1 {
            lemma_sorted_unique(s2, w2, w - 1);
        }
        lemma_key_index_of(s, w);
        assert(entries_map(s2)[k] == texts(s2[w2].mimes@));
    }
    assert(entries_map(s2) =~= m2);
}

/// The first entry of a sorted list carries the mapping's least key.
proof fn lemma_min_first(s: Seq<ExtEntry>, k: Seq<u8>)
    requires
        entries_sorted(s),
        s.len() > 0,
        entries_map(s).dom().contains(k),
    ensures
        k == s[0].ext@ || lex_lt(s[0].ext@, k),
{
    let w = key_index(s, k);
    assert(0 <= w < s.len() && s[w].ext@ == k);
}

/// Two sorted entry lists that stand for the same mapping agree
/// position by position on extension and media-type texts.
proof fn lemma_canonical_entries(s1: Seq<ExtEntry>, s2: Seq<ExtEntry>)
    requires
        entries_sorted(s1),
        entries_sorted(s2),
        entries_map(s1) == entries_map(s2),
    ensures
        s1.len() == s2.len(),
        forall|i: int|
            0 <= i < s1.len() ==> s1[i].ext@ == s2[i].ext@ && texts(s1[i].mimes@) == texts(
                s2[i].mimes@,
            ),
    decreases s1.len(),
{
    if s1.len() == 0 {
        if s2.len() > 0 {
            lemma_key_index_of(s2, 0);
            assert(has_key(s1, s2[0].ext@));
        }
    } else if s2.len() == 0 {
        lemma_key_index_of(s1, 0);
        assert(has_key(s2, s1[0].ext@));
    } else {
        lemma_key_index_of(s1, 0);
        lemma_key_index_of(s2, 0);
        lemma_min_first(s2, s1[0].ext@);
        lemma_min_first(s1, s2[0].ext@);
        if s1[0].ext@ != s2[0].ext@ {
            lemma_lex_trichotomy(s1[0].ext@, s2[0].ext@);
        }
        assert(s1[0].ext@ == s2[0].ext@);
        assert(texts(s1[0].mimes@) == texts(s2[0].mimes@));
        lemma_entries_map_drop_first(s1);
        lemma_entries_map_drop_first(s2);
        lemma_canonical_entries(s1.drop_first(), s2.drop_first());
        assert forall|i: int| 0 <= i < s1.len() implies s1[i].ext@ == s2[i].ext@ && texts(
            s1[i].mimes@,
        ) == texts(s2[i].mimes@) by {
            if i >= 1 {
                assert(s1.drop_first()[i - 1] == s1[i]);
                assert(s2.drop_first()[i - 1] == s2[i]);
            }
        }
    }
}

proof fn lemma_add_mimes_congruent(acc: Seq<Seq<u8>>, ms1: Seq<Vec<u8>>, ms2: Seq<Vec<u8>>, j: int)
    requires
        texts(ms1) == texts(ms2),
        j <= ms1.len(),
    ensures
        add_mimes(acc, ms1, j) == add_mimes(acc, ms2, j),
    decreases j,
{
    if j > 0 {
        lemma_add_mimes_congruent(acc, ms1, ms2, j - 1);
        assert(ms2.len() == texts(ms2).len());
        assert(texts(ms1)[j - 1] == ms1[j - 1]@);
        assert(texts(ms2)[j - 1] == ms2[j - 1]@);
    }
}

/// Whether an entry list packs depends only on its texts.
proof fn lemma_pack_ok_congruent(s1: Seq<ExtEntry>, s2: Seq<ExtEntry>, i: int)
    requires
        0 <= i <= s1.len(),
        s1.len() == s2.len(),
        forall|j: int|
            0 <= j < s1.len() ==> s1[j].ext@ == s2[j].ext@ && texts(s1[j].mimes@) == texts(
                s2[j].mimes@,
            ),
    ensures
        ext_bytes_upto(s1, i) == ext_bytes_upto(s2, i),
        refs_upto(s1, i) == refs_upto(s2, i),
        distinct_upto(s1, i) == distinct_upto(s2, i),
    decreases i,
{
    if i > 0 {
        lemma_pack_ok_congruent(s1, s2, i - 1);
        assert(texts(s1[i - 1].mimes@).len() == texts(s2[i - 1].mimes@).len());
        lemma_add_mimes_congruent(
            distinct_upto(s1, i - 1),
            s1[i - 1].mimes@,
            s2[i - 1].mimes@,
            s1[i - 1].mimes@.len() as int,
        );
    }
}

/// Compiles a dictionary of media-type records into the packed table:
/// the one-shot builder.  The table it returns encodes exactly the
/// inverted dictionary; it fails exactly when no sorted entry list for
/// this dictionary fits the packed format.
pub fn build_packed_data(dict: &[(Vec<u8>, Vec<Vec<u8>>)]) -> (r: Result<PackedData, BuildError>)
    ensures
        match r {
            Ok(d) => {
                &&& d.wf()
                &&& d.model() == invert_dict(dict@)
            },
            Err(e) => {
                &&& forall|s2: Seq<ExtEntry>|
                    entries_sorted(s2) && entries_map(s2) == invert_dict(dict@) ==> !pack_ok(s2)
                &&& (e == BuildError::EmptyDataset <==> invert_dict(dict@).dom() == Set::<
                    Seq<u8>,
                >::empty())
                &&& (e == BuildError::Overflow ==> exists|s2: Seq<ExtEntry>|
                    entries_sorted(s2) && entries_map(s2) == invert_dict(dict@) && !pack_fits(s2))
                &&& (e == BuildError::EmptyExtension ==> exists|s2: Seq<ExtEntry>|
                    entries_sorted(s2) && entries_map(s2) == invert_dict(dict@) && !exts_ok(s2))
                &&& (e == BuildError::NonAsciiExtension ==> exists|s2: Seq<ExtEntry>|
                    entries_sorted(s2) && entries_map(s2) == invert_dict(dict@) && !exts_ok(s2))
                &&& (e == BuildError::BucketOrder ==> exists|s2: Seq<ExtEntry>|
                    entries_sorted(s2) && entries_map(s2) == invert_dict(dict@) && !buckets_ok(s2))
            },
        },
{
    let entries = invert(dict);
    let r = pack(&entries);
    proof {
        let s = entries@;
        match &r {
            Ok(_) => {},
            Err(e0) => {
                let e = *e0;
                assert forall|s2: Seq<ExtEntry>|
                    entries_sorted(s2) && entries_map(s2) == invert_dict(dict@) implies !pack_ok(
                    s2,
                ) by {
                    lemma_canonical_entries(s, s2);
                    lemma_pack_ok_congruent(s, s2, s.len() as int);
                }
                if s.len() == 0 {
                    assert(invert_dict(dict@).dom() =~= Set::<Seq<u8>>::empty());
                } else {
                    lemma_key_index_of(s, 0);
                    assert(invert_dict(dict@).dom().contains(s[0].ext@));
                }
                if e == BuildError::Overflow {
                    assert(entries_sorted(s) && entries_map(s) == invert_dict(dict@) && !pack_fits(
                        s,
                    ));
                }
                if e == BuildError::EmptyExtension || e == BuildError::NonAsciiExtension {
                    assert(entries_sorted(s) && entries_map(s) == invert_dict(dict@) && !exts_ok(
                        s,
                    )) by {
                        let i = choose|i: int|
                            0 <= i < s.len() && (s[i].ext@.len() == 0 || s[i].ext@[0] >= 128);
                    }
                }
                if e == BuildError::BucketOrder {
                    assert(entries_sorted(s) && entries_map(s) == invert_dict(dict@)
                        && !buckets_ok(s));
                }
            },
        }
    }
    r
}

} // verus!
