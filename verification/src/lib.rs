//! Guessing of media types by file extension, backed by a compact packed
//! lookup table: a builder compiles an extension dictionary into flat
//! offset arrays, and a decoder resolves an extension against them with a
//! bucket lookup and a bounded linear scan.
//!
//! All text is handled as bytes; extensions compare ASCII
//! case-insensitively.

use vstd::prelude::*;
use vstd::slice::slice_index_get;
use vstd::slice::slice_subrange;
use vstd::slice::slice_to_vec;
use vstd::std_specs::vec::vec_index;

pub mod ascii;
pub mod builder;
pub mod laws;
pub mod lut;

use crate::ascii::fold;
use crate::builder::texts;
use crate::lut::get_mimes;
use crate::lut::Mimes;
use crate::lut::PackedData;

verus! {

/// Looks up the media types stored for `ext`: the packed-table backend
/// of the guessing API.
pub fn get_mime_types<'data>(data: &'data PackedData, ext: &[u8]) -> (r: Option<Mimes<'data>>)
    ensures
        data.wf() ==> match r {
            Some(m) => m.wf() && data.spec_lookup(ext@) == Some(m@),
            None => data.spec_lookup(ext@) is None,
        },
{
    get_mimes(data, ext)
}

/// What a guess holds for query `q` against table `d`: the stored
/// media-type list of the folded query, or nothing.
pub open spec fn spec_guess(d: PackedData, q: Seq<u8>) -> Seq<Seq<u8>> {
    match d.spec_lookup(q) {
        Some(l) => l,
        None => Seq::empty(),
    }
}

/// Index of the last occurrence of `b` in `p`, or `-1`.
pub open spec fn last_index_of(p: Seq<u8>, b: u8) -> int
    decreases p.len(),
{
    if p.len() == 0 {
        -1
    } else if p[p.len() - 1] == b {
        p.len() - 1
    } else {
        last_index_of(p.drop_last(), b)
    }
}

/// `p` with its trailing `/` separators removed.
pub open spec fn strip_seps(p: Seq<u8>) -> Seq<u8>
    decreases p.len(),
{
    if p.len() > 0 && p[p.len() - 1] == 47 {
        strip_seps(p.drop_last())
    } else {
        p
    }
}

/// The extension of a path: what follows the last dot of its final
/// `/`-separated component, unless that dot leads the component.
/// Trailing separators are ignored; `.` and `..` components are read
/// literally, not resolved.
pub open spec fn path_ext(p: Seq<u8>) -> Option<Seq<u8>> {
    let q = strip_seps(p);
    let fs = last_index_of(q, 47) + 1;
    let dot = last_index_of(q, 46);
    if dot > fs {
        Some(q.skip(dot + 1))
    } else {
        None
    }
}

/// What a path-based guess holds: the guess for the path's extension,
/// or nothing when the path has none.
pub open spec fn spec_guess_path(d: PackedData, p: Seq<u8>) -> Seq<Seq<u8>> {
    match path_ext(p) {
        Some(e) => spec_guess(d, e),
        None => Seq::empty(),
    }
}

pub proof fn lemma_last_index_of(p: Seq<u8>, b: u8)
    ensures
        last_index_of(p, b) == -1 ==> forall|j: int| 0 <= j < p.len() ==> p[j] != b,
        last_index_of(p, b) != -1 ==> {
            let r = last_index_of(p, b);
            &&& 0 <= r < p.len()
            &&& p[r] == b
            &&& forall|j: int| r < j < p.len() ==> p[j] != b
        },
    decreases p.len(),
{
    if p.len() > 0 && p[p.len() - 1] != b {
        lemma_last_index_of(p.drop_last(), b);
        assert(forall|j: int| 0 <= j < p.len() - 1 ==> p.drop_last()[j] == p[j]);
    }
}

/// Length of `p` once its trailing `/` separators are removed.
fn strip_trailing_seps(p: &[u8]) -> (end: usize)
    ensures
        end <= p@.len(),
        p@.take(end as int) == strip_seps(p@),
{
    let mut end = p.len();
    proof {
        assert(p@.take(p@.len() as int) =~= p@);
    }
    while end > 0
        invariant
            end <= p@.len(),
            strip_seps(p@) == strip_seps(p@.take(end as int)),
        decreases end,
    {
        if *slice_index_get(p, end - 1) != 47 {
            return end;
        }
        proof {
            assert(p@.take(end as int).drop_last() =~= p@.take(end as int - 1));
        }
        end = end - 1;
    }
    proof {
        assert(p@.take(0) =~= Seq::<u8>::empty());
    }
    0
}

/// Index of the last occurrence of `b` in `p`, scanning from the end.
fn rfind_byte(p: &[u8], b: u8) -> (r: Option<usize>)
    ensures
        match r {
            Some(i) => i < p@.len() && last_index_of(p@, b) == i,
            None => last_index_of(p@, b) == -1,
        },
{
    let mut i = p.len();
    while i > 0
        invariant
            i <= p@.len(),
            forall|j: int| i <= j < p@.len() ==> p@[j] != b,
        decreases i,
    {
        i = i - 1;
        if *slice_index_get(p, i) == b {
            proof {
                lemma_last_index_of(p@, b);
            }
            return Some(i);
        }
    }
    proof {
        lemma_last_index_of(p@, b);
    }
    None
}

/// Copies a list of byte strings.
fn clone_texts(v: &Vec<Vec<u8>>) -> (r: Vec<Vec<u8>>)
    ensures
        texts(r@) == texts(v@),
{
    let n = v.len();
    let mut out: Vec<Vec<u8>> = Vec::new();
    let mut i: usize = 0;
    while i < n
        invariant
            n == v@.len(),
            0 <= i <= n,
            out@.len() == i,
            forall|j: int| 0 <= j < i ==> out@[j]@ == v@[j]@,
        decreases n - i,
    {
        out.push(slice_to_vec(vec_index(v, i).as_slice()));
        i = i + 1;
    }
    proof {
        assert(texts(out@) =~= texts(v@));
    }
    out
}

/// A guess of the media types of an extension or path: zero or more
/// media-type texts, first-declared first.
pub struct MimeGuess {
    mimes: Vec<Vec<u8>>,
}

impl View for MimeGuess {
    type V = Seq<Seq<u8>>;

    closed spec fn view(&self) -> Seq<Seq<u8>> {
        texts(self.mimes@)
    }
}

impl MimeGuess {
    /// Guess the media types mapped to the given extension, ASCII
    /// case-insensitively.  Empty when `ext` is empty or unknown.
    pub fn from_ext(data: &PackedData, ext: &[u8]) -> (g: MimeGuess)
        requires
            data.wf(),
        ensures
            g@ == spec_guess(*data, ext@),
    {
        if ext.len() == 0 {
            proof {
                assert forall|j: int| 0 <= j < data.ext_count() implies data.ext_at(j) != fold(
                    ext@,
                ) by {
                    assert(data.ext_wf(j));
                }
                assert(texts(Seq::<Vec<u8>>::empty()) =~= Seq::<Seq<u8>>::empty());
            }
            return MimeGuess { mimes: Vec::new() };
        }
        match get_mime_types(data, ext) {
            Some(m) => {
                let len = m.len();
                let mut mimes: Vec<Vec<u8>> = Vec::new();
                let mut i: usize = 0;
                while i < len
                    invariant
                        m.wf(),
                        len == m@.len(),
                        0 <= i <= len,
                        mimes@.len() == i,
                        forall|j: int| 0 <= j < i ==> mimes@[j]@ == m@[j],
                    decreases len - i,
                {
                    match m.get(i) {
                        Some(sl) => {
                            mimes.push(slice_to_vec(sl));
                        },
                        None => {
                            proof {
                                assert(false);
                            }
                        },
                    }
                    i = i + 1;
                }
                proof {
                    assert(texts(mimes@) =~= m@);
                }
                MimeGuess { mimes }
            },
            None => {
                proof {
                    assert(texts(Seq::<Vec<u8>>::empty()) =~= Seq::<Seq<u8>>::empty());
                }
                MimeGuess { mimes: Vec::new() }
            },
        }
    }

    /// Guess the media types of a path by its extension.
    pub fn from_path(data: &PackedData, path: &[u8]) -> (g: MimeGuess)
        requires
            data.wf(),
        ensures
            g@ == spec_guess_path(*data, path@),
    {
        let end = strip_trailing_seps(path);
        let q = slice_subrange(path, 0, end);
        proof {
            assert(q@ =~= path@.take(end as int));
        }
        let fs: usize = match rfind_byte(q, 47) {
            Some(i) => i + 1,
            None => 0,
        };
        match rfind_byte(q, 46) {
            Some(d) => {
                if d > fs {
                    let e = slice_subrange(q, d + 1, end);
                    proof {
                        assert(e@ =~= q@.skip(d + 1));
                    }
                    MimeGuess::from_ext(data, e)
                } else {
                    proof {
                        assert(texts(Seq::<Vec<u8>>::empty()) =~= Seq::<Seq<u8>>::empty());
                    }
                    MimeGuess { mimes: Vec::new() }
                }
            },
            None => {
                proof {
                    assert(texts(Seq::<Vec<u8>>::empty()) =~= Seq::<Seq<u8>>::empty());
                }
                MimeGuess { mimes: Vec::new() }
            },
        }
    }

    /// The first guessed media-type text, if any.
    pub fn first_as_str(&self) -> (r: Option<&Vec<u8>>)
        ensures
            match r {
                Some(v) => self@.len() > 0 && v@ == self@[0],
                None => self@.len() == 0,
            },
    {
        if self.mimes.len() == 0 {
            None
        } else {
            Some(vec_index(&self.mimes, 0))
        }
    }

    /// Whether the guess holds no media type.
    pub fn is_empty(&self) -> (r: bool)
        ensures
            r <==> self@.len() == 0,
    {
        self.mimes.is_empty()
    }

    /// Number of media types in the guess.
    pub fn count(&self) -> (r: usize)
        ensures
            r == self@.len(),
    {
        self.mimes.len()
    }

    /// An iterator over the raw media-type texts of this guess.
    pub fn iter_raw(&self) -> (it: IterRaw)
        ensures
            it@ == self@,
    {
        let items = clone_texts(&self.mimes);
        let n = items.len();
        let it = IterRaw { items, pos: 0, end: n };
        proof {
            assert(it@ =~= self@);
        }
        it
    }
}

/// An iterator over the raw media-type texts of a guess, which hands
/// them out from either end.
pub struct IterRaw {
    items: Vec<Vec<u8>>,
    pos: usize,
    end: usize,
}

impl View for IterRaw {
    type V = Seq<Seq<u8>>;

    closed spec fn view(&self) -> Seq<Seq<u8>> {
        if self.pos <= self.end && self.end <= self.items@.len() {
            texts(self.items@).subrange(self.pos as int, self.end as int)
        } else {
            Seq::empty()
        }
    }
}

impl IterRaw {
    /// The next media-type text, front to back.
    pub fn next(&mut self) -> (r: Option<Vec<u8>>)
        ensures
            match r {
                Some(v) => old(self)@.len() > 0 && v@ == old(self)@[0] && final(self)@ == old(
                    self,
                )@.drop_first(),
                None => old(self)@.len() == 0 && final(self)@ == old(self)@,
            },
    {
        if self.pos < self.end && self.end <= self.items.len() {
            let v = slice_to_vec(vec_index(&self.items, self.pos).as_slice());
            self.pos = self.pos + 1;
            proof {
                assert(final(self)@ =~= old(self)@.drop_first());
            }
            Some(v)
        } else {
            None
        }
    }

    /// The next media-type text, back to front.
    pub fn next_back(&mut self) -> (r: Option<Vec<u8>>)
        ensures
            match r {
                Some(v) => old(self)@.len() > 0 && v@ == old(self)@.last() && final(self)@ == old(
                    self,
                )@.drop_last(),
                None => old(self)@.len() == 0 && final(self)@ == old(self)@,
            },
    {
        if self.pos < self.end && self.end <= self.items.len() {
            self.end = self.end - 1;
            let v = slice_to_vec(vec_index(&self.items, self.end).as_slice());
            proof {
                assert(final(self)@ =~= old(self)@.drop_last());
            }
            Some(v)
        } else {
            None
        }
    }

    /// Number of media-type texts not yet handed out.
    pub fn len(&self) -> (r: usize)
        ensures
            r == self@.len(),
    {
        if self.pos < self.end && self.end <= self.items.len() {
            self.end - self.pos
        } else {
            0
        }
    }
}

/// Wrapper of [`MimeGuess::from_ext()`].
pub fn from_ext(data: &PackedData, ext: &[u8]) -> (g: MimeGuess)
    requires
        data.wf(),
    ensures
        g@ == spec_guess(*data, ext@),
{
    MimeGuess::from_ext(data, ext)
}

/// Wrapper of [`MimeGuess::from_path()`].
pub fn from_path(data: &PackedData, path: &[u8]) -> (g: MimeGuess)
    requires
        data.wf(),
    ensures
        g@ == spec_guess_path(*data, path@),
{
    MimeGuess::from_path(data, path)
}

/// The first media-type text guessed for `path`'s extension, if any.
pub fn mime_str_for_path_ext(data: &PackedData, path: &[u8]) -> (r: Option<Vec<u8>>)
    requires
        data.wf(),
    ensures
        match r {
            Some(v) => spec_guess_path(*data, path@).len() > 0 && v@ == spec_guess_path(
                *data,
                path@,
            )[0],
            None => spec_guess_path(*data, path@).len() == 0,
        },
{
    let g = MimeGuess::from_path(data, path);
    match g.first_as_str() {
        Some(v) => Some(slice_to_vec(v.as_slice())),
        None => None,
    }
}

/// The first media-type text associated with the file extension
/// `search_ext`, ASCII case-insensitively; absent when `search_ext` is
/// empty or has no mapping.
pub fn get_mime_type_str(data: &PackedData, search_ext: &[u8]) -> (r: Option<Vec<u8>>)
    requires
        data.wf(),
    ensures
        match r {
            Some(v) => spec_guess(*data, search_ext@).len() > 0 && v@ == spec_guess(
                *data,
                search_ext@,
            )[0],
            None => spec_guess(*data, search_ext@).len() == 0,
        },
{
    let g = MimeGuess::from_ext(data, search_ext);
    match g.first_as_str() {
        Some(v) => Some(slice_to_vec(v.as_slice())),
        None => None,
    }
}

} // verus!
