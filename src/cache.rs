//! The cache file: the whole history as one postcard document.
//!
//! On the wire a history is a sequence of (root, name counts, most recent)
//! triples and name counts a sequence of (name, count) pairs, the layout that
//! postcard gives a map from path to a record of a name map and a flag.
use vstd::prelude::*;
use crate::history::{entries_view, names_view, NamesView, history_wf, unique_names, History, HistoryRecord, HistoryView};

verus! {

/// The history as postcard reads and writes it.
pub type Wire = Vec<(String, Vec<(String, u32)>, bool)>;

/// The wire form of a history, viewed.
pub open spec fn wire_view(w: Seq<(String, Vec<(String, u32)>, bool)>) -> HistoryView {
    w.map_values(|e: (String, Vec<(String, u32)>, bool)| (e.0@, names_view(e.1@), e.2))
}

/// The bytes that postcard writes for a history.
pub uninterp spec fn postcard_bytes(h: HistoryView) -> Seq<u8>;

/// The history that postcard reads from the front of bytes, with the bytes
/// left after it, if it accepts them.
pub uninterp spec fn postcard_take(b: Seq<u8>) -> Option<(HistoryView, Seq<u8>)>;

/// postcard's error type, carried through without being looked into.
#[verifier::external_type_specification]
#[verifier::external_body]
pub struct ExPostcardError(postcard::Error);

/// Relies on `postcard::to_allocvec`: the encoding of a value depends on the
/// value alone, and it cannot fail for this type (the vector flavor never
/// reports an error, and a `Vec` always gives `serialize_seq` its length).
#[verifier::external_body]
fn to_postcard(w: &Wire) -> (r: Result<Vec<u8>, postcard::Error>)
    ensures
        r is Ok,
        r is Ok ==> r->Ok_0@ == postcard_bytes(wire_view(w@)),
{
    postcard::to_allocvec(w)
}

/// Relies on `postcard::take_from_bytes`: it reads one value from the front
/// of the bytes and hands back the bytes after it. From exactly what
/// `to_allocvec` wrote for a value it reads that value, with nothing left;
/// otherwise the result depends on the bytes alone.
#[verifier::external_body]
fn take_postcard<'a>(b: &'a [u8]) -> (r: Result<(Wire, &'a [u8]), postcard::Error>)
    ensures
        r is Ok <==> postcard_take(b@) is Some,
        r is Ok ==> postcard_take(b@) == Some((wire_view((r->Ok_0).0@), (r->Ok_0).1@)),
        forall|h: HistoryView| b@ == #[trigger] postcard_bytes(h)
            ==> r is Ok && wire_view((r->Ok_0).0@) == h && (r->Ok_0).1@.len() == 0,
{
    postcard::take_from_bytes(b)
}

/// Why the cache could not be read or written.
#[derive(Clone, Copy, PartialEq, Eq, Structural, Debug)]
pub enum CacheError {
    /// The cache file holds something other than a well-formed history.
    Corrupt,
    /// The history to be written repeats a root, or a name within a record.
    Malformed,
}

fn clone_names(v: &Vec<(String, u32)>) -> (r: Vec<(String, u32)>)
    ensures
        names_view(r@) == names_view(v@),
{
    let mut r: Vec<(String, u32)> = Vec::new();
    let mut i: usize = 0;
    while i < v.len()
        invariant
            0 <= i <= v.len(),
            names_view(r@) == names_view(v@.take(i as int)),
        decreases v.len() - i,
    {
        let ghost prev = r@;
        let name = v[i].0.clone();
        r.push((name, v[i].1));
        assert(r@ == prev.push((name, v@[i as int].1)));
        assert(names_view(r@) =~= names_view(prev).push((name@, v@[i as int].1)));
        assert(names_view(v@.take(i + 1)) =~= names_view(v@.take(i as int)).push((name@, v@[i as int].1)));
        i = i + 1;
    }
    assert(v@.take(v.len() as int) =~= v@);
    r
}

fn to_wire(h: &History) -> (r: Wire)
    ensures
        wire_view(r@) == h@,
{
    let mut r: Wire = Vec::new();
    let mut i: usize = 0;
    while i < h.entries.len()
        invariant
            0 <= i <= h.entries.len(),
            wire_view(r@) == h@.take(i as int),
        decreases h.entries.len() - i,
    {
        let ghost prev = r@;
        let e = &h.entries[i];
        let root = e.0.clone();
        let names = clone_names(&e.1.names);
        let item = (root, names, e.1.most_recent);
        let ghost iv = (item.0@, names_view(item.1@), item.2);
        r.push(item);
        assert(iv == h@[i as int]);
        assert(wire_view(r@) =~= wire_view(prev).push(iv));
        assert(h@.take(i + 1) =~= h@.take(i as int).push(iv));
        i = i + 1;
    }
    assert(h@.take(h.entries.len() as int) =~= h@);
    r
}

fn from_wire(w: &Wire) -> (r: History)
    ensures
        r@ == wire_view(w@),
{
    let mut entries: Vec<(String, HistoryRecord)> = Vec::new();
    let mut i: usize = 0;
    while i < w.len()
        invariant
            0 <= i <= w.len(),
            entries_view(entries@) == wire_view(w@.take(i as int)),
        decreases w.len() - i,
    {
        let ghost prev = entries@;
        let record = HistoryRecord { names: clone_names(&w[i].1), most_recent: w[i].2 };
        let item = (w[i].0.clone(), record);
        let ghost iv = (item.0@, names_view(item.1.names@), item.1.most_recent);
        entries.push(item);
        assert(iv == wire_view(w@)[i as int]);
        assert(entries_view(entries@) =~= entries_view(prev).push(iv));
        assert(wire_view(w@.take(i + 1)) =~= wire_view(w@.take(i as int)).push(iv));
        i = i + 1;
    }
    assert(w@.take(w.len() as int) =~= w@);
    History { entries }
}

fn names_are_unique(v: &Vec<(String, u32)>) -> (r: bool)
    ensures
        r == unique_names(names_view(v@)),
{
    let ghost nv = names_view(v@);
    let mut i: usize = 0;
    while i < v.len()
        invariant
            0 <= i <= v.len(),
            nv == names_view(v@),
            forall|a: int, b: int| 0 <= a < i && 0 <= b < v.len() && a != b ==> nv[a].0 != nv[b].0,
        decreases v.len() - i,
    {
        let mut j: usize = 0;
        while j < v.len()
            invariant
                0 <= i < v.len(),
                0 <= j <= v.len(),
                nv == names_view(v@),
                forall|a: int, b: int| 0 <= a < i && 0 <= b < v.len() && a != b ==> nv[a].0 != nv[b].0,
                forall|b: int| 0 <= b < j && b != i ==> nv[i as int].0 != nv[b].0,
            decreases v.len() - j,
        {
            if j != i && v[i].0 == v[j].0 {
                assert(nv[i as int].0 == nv[j as int].0);
                return false;
            }
            j = j + 1;
        }
        i = i + 1;
    }
    true
}

fn wire_is_wf(w: &Wire) -> (r: bool)
    ensures
        r == history_wf(wire_view(w@)),
{
    let ghost hv = wire_view(w@);
    let mut i: usize = 0;
    while i < w.len()
        invariant
            0 <= i <= w.len(),
            hv == wire_view(w@),
            forall|a: int, b: int| 0 <= a < i && 0 <= b < w.len() && a != b ==> hv[a].0 != hv[b].0,
            forall|a: int| 0 <= a < i ==> unique_names(#[trigger] hv[a].1),
        decreases w.len() - i,
    {
        if !names_are_unique(&w[i].1) {
            assert(!unique_names(hv[i as int].1));
            return false;
        }
        let mut j: usize = 0;
        while j < w.len()
            invariant
                0 <= i < w.len(),
                0 <= j <= w.len(),
                hv == wire_view(w@),
                forall|a: int, b: int| 0 <= a < i && 0 <= b < w.len() && a != b ==> hv[a].0 != hv[b].0,
                forall|b: int| 0 <= b < j && b != i ==> hv[i as int].0 != hv[b].0,
            decreases w.len() - j,
        {
            if j != i && w[i].0 == w[j].0 {
                assert(hv[i as int].0 == hv[j as int].0);
                return false;
            }
            j = j + 1;
        }
        i = i + 1;
    }
    true
}

/// Encodes the whole history for the cache file. A history that repeats a
/// root, or a name within a record, is refused: it could not be read back.
pub fn encode_history(h: &History) -> (r: Result<Vec<u8>, CacheError>)
    ensures
        r is Ok <==> history_wf(h@),
        r is Ok ==> r->Ok_0@ == postcard_bytes(h@),
        r is Err ==> r->Err_0 == CacheError::Malformed,
{
    let w = to_wire(h);
    if !wire_is_wf(&w) {
        return Err(CacheError::Malformed);
    }
    match to_postcard(&w) {
        Ok(b) => Ok(b),
        Err(_) => Err(CacheError::Malformed),
    }
}

/// A decoded history, viewed.
pub open spec fn result_view(r: Result<History, CacheError>) -> Result<HistoryView, CacheError> {
    match r {
        Ok(h) => Ok(h@),
        Err(e) => Err(e),
    }
}

/// Whether `bytes` are, in their entirety, one well-formed history as
/// postcard reads it.
pub open spec fn conforms(bytes: Seq<u8>) -> bool {
    &&& postcard_take(bytes) is Some
    &&& (postcard_take(bytes)->0).1.len() == 0
    &&& history_wf((postcard_take(bytes)->0).0)
}

/// What reading `bytes` gives: a corrupt-cache error exactly when they do not
/// conform (postcard rejects them, bytes are left after the history, or the
/// history repeats a root or a name), the history that postcard reads
/// otherwise; and from the bytes written for a well-formed history, that
/// history.
pub open spec fn decodes_to(bytes: Seq<u8>, r: Result<HistoryView, CacheError>) -> bool {
    &&& r is Err <==> !conforms(bytes)
    &&& r is Err ==> r->Err_0 == CacheError::Corrupt
    &&& r is Ok ==> (postcard_take(bytes)->0).0 == r->Ok_0
    &&& forall|g: HistoryView| #[trigger] postcard_bytes(g) == bytes && history_wf(g) ==> r == Ok::<HistoryView, CacheError>(g)
}

/// Saving, loading and saving again writes the same bytes as saving once:
/// what is read from the bytes written for a well-formed history is that
/// history, which encodes to those bytes again.
pub proof fn lemma_cache_round_trip(h: HistoryView, r: Result<HistoryView, CacheError>)
    requires
        history_wf(h),
        decodes_to(postcard_bytes(h), r),
    ensures
        r == Ok::<HistoryView, CacheError>(h),
        postcard_bytes(r->Ok_0) == postcard_bytes(h),
{
}

/// A cache file freshly written with the empty history reads back as the
/// empty history.
pub proof fn lemma_fresh_cache_is_empty(r: Result<HistoryView, CacheError>)
    requires
        decodes_to(postcard_bytes(Seq::<(Seq<char>, NamesView, bool)>::empty()), r),
    ensures
        r == Ok::<HistoryView, CacheError>(Seq::<(Seq<char>, NamesView, bool)>::empty()),
{
    lemma_cache_round_trip(Seq::<(Seq<char>, NamesView, bool)>::empty(), r);
}

/// Decodes the contents of a cache file. Bytes that postcard does not read
/// as a history, bytes left over after it, or a history that repeats a root
/// or a name within a record, are corrupt.
/// The bytes written for a well-formed history read back as that history.
pub fn decode_history(bytes: &[u8]) -> (r: Result<History, CacheError>)
    ensures
        decodes_to(bytes@, result_view(r)),
{
    match take_postcard(bytes) {
        Ok((w, rest)) => {
            if rest.len() == 0 && wire_is_wf(&w) {
                Ok(from_wire(&w))
            } else {
                Err(CacheError::Corrupt)
            }
        },
        Err(_) => Err(CacheError::Corrupt),
    }
}

/// What the start-up check found of the cache directory and file.
#[derive(Clone, Copy, PartialEq, Eq, Structural, Debug)]
pub enum CacheState {
    /// Directory and file are both there: the file is to be loaded.
    Ready,
    /// The directory is there, the file is not: it is to be created.
    FileMissing,
    /// Neither is there: both are to be created.
    DirMissing,
}

impl CacheState {
    /// Classifies what the start-up check found.
    pub fn from_checks(dir_exists: bool, file_exists: bool) -> (r: CacheState)
        ensures
            r == (if !dir_exists {
                CacheState::DirMissing
            } else if !file_exists {
                CacheState::FileMissing
            } else {
                CacheState::Ready
            }),
    {
        if !dir_exists {
            CacheState::DirMissing
        } else if !file_exists {
            CacheState::FileMissing
        } else {
            CacheState::Ready
        }
    }

    /// Whether a fresh cache file, holding the empty history, must be written.
    pub fn needs_new_file(&self) -> (r: bool)
        ensures
            r == !(*self is Ready),
    {
        !matches!(self, CacheState::Ready)
    }
}

/// Loads the history from the cache file's contents, or from no file at
/// all, which gives the empty history.
pub fn load_cache(contents: Option<Vec<u8>>) -> (r: Result<History, CacheError>)
    ensures
        contents is None ==> (r is Ok && r->Ok_0@.len() == 0),
        contents matches Some(b) ==> decodes_to(b@, result_view(r)),
{
    match contents {
        None => Ok(History::new()),
        Some(b) => decode_history(b.as_slice()),
    }
}

} // verus!
