//! The per-root search history: for each crawled root, how often each leaf
//! file name was seen under it, and whether that record is from the latest
//! scan.
use vstd::prelude::*;
use crate::paths::{distinct, path_set};

verus! {

/// What a history record is, viewed: the name counts and the recency flag.
pub type NamesView = Seq<(Seq<char>, u32)>;

/// A history viewed as its entries in order: (root, name counts, most recent).
pub type HistoryView = Seq<(Seq<char>, NamesView, bool)>;

/// The last component of a path, as `std::path::Path::file_name` gives it.
pub uninterp spec fn file_name_of(p: Seq<char>) -> Option<Seq<char>>;

/// Relies on `std::path::Path::file_name`: the leaf name of a path, or none
/// where the path ends in `..` or is a root. The result depends on the path alone.
#[verifier::external_body]
fn file_name(p: &str) -> (r: Option<String>)
    ensures
        r is None <==> file_name_of(p@) is None,
        r matches Some(n) ==> file_name_of(p@) == Some(n@),
{
    std::path::Path::new(p).file_name().map(|n| n.to_string_lossy().into_owned())
}

/// The summary of one root.
#[derive(Debug)]
pub struct HistoryRecord {
    /// How often each leaf file name was seen under the root.
    pub names: Vec<(String, u32)>,
    /// Whether this record comes from the latest scan of the root.
    pub most_recent: bool,
}

/// The summaries of all roots crawled so far, one entry per root.
#[derive(Debug)]
pub struct History {
    pub entries: Vec<(String, HistoryRecord)>,
}

/// Name counts, viewed.
pub open spec fn names_view(v: Seq<(String, u32)>) -> NamesView {
    v.map_values(|e: (String, u32)| (e.0@, e.1))
}

/// No key occurs twice among the first components.
pub open spec fn unique_names(v: NamesView) -> bool {
    forall|i: int, j: int| 0 <= i < v.len() && 0 <= j < v.len() && i != j ==> v[i].0 != v[j].0
}

/// No root occurs twice, and no name twice within a record.
pub open spec fn history_wf(h: HistoryView) -> bool {
    &&& forall|i: int, j: int| 0 <= i < h.len() && 0 <= j < h.len() && i != j ==> h[i].0 != h[j].0
    &&& forall|i: int| 0 <= i < h.len() ==> unique_names(#[trigger] h[i].1)
}

/// Whether `root` has an entry.
pub open spec fn has_root(h: HistoryView, root: Seq<char>) -> bool {
    exists|i: int| 0 <= i < h.len() && h[i].0 == root
}

/// How often `name` occurs in `items`.
pub open spec fn occurrences(items: Seq<Seq<char>>, name: Seq<char>) -> nat
    decreases items.len(),
{
    if items.len() == 0 {
        0
    } else {
        occurrences(items.drop_last(), name) + if items.last() == name {
            1nat
        } else {
            0nat
        }
    }
}

/// `names` tallies `items`: one entry for each distinct item, holding how
/// often it occurs.
pub open spec fn tallies(names: NamesView, items: Seq<Seq<char>>) -> bool {
    &&& unique_names(names)
    &&& forall|i: int| 0 <= i < names.len() ==> #[trigger] names[i].1 == occurrences(items, names[i].0)
        && names[i].1 > 0
    &&& forall|n: Seq<char>| #[trigger] occurrences(items, n) > 0 ==> exists|i: int| 0 <= i < names.len() && names[i].0 == n
}

/// The leaf names of `files`, in order; a path without one gives none.
pub open spec fn leaf_names(files: Seq<Seq<char>>) -> Seq<Seq<char>>
    decreases files.len(),
{
    if files.len() == 0 {
        Seq::empty()
    } else {
        match file_name_of(files.last()) {
            Some(n) => leaf_names(files.drop_last()).push(n),
            None => leaf_names(files.drop_last()),
        }
    }
}

/// History entries, viewed.
pub open spec fn entries_view(s: Seq<(String, HistoryRecord)>) -> HistoryView {
    s.map_values(|e: (String, HistoryRecord)| (e.0@, names_view(e.1.names@), e.1.most_recent))
}

/// Paths, viewed.
pub open spec fn path_views(v: Seq<String>) -> Seq<Seq<char>> {
    v.map_values(|s: String| s@)
}

impl View for History {
    type V = HistoryView;

    open spec fn view(&self) -> HistoryView {
        entries_view(self.entries@)
    }
}

impl History {
    /// A history with no entries.
    pub fn new() -> (r: History)
        ensures
            r@ == Seq::<(Seq<char>, NamesView, bool)>::empty(),
    {
        let r = History { entries: Vec::new() };
        assert(r@ =~= Seq::<(Seq<char>, NamesView, bool)>::empty());
        r
    }

    /// Replaces the record of `root` by one that counts the leaf names of
    /// `files`, the files of a scan just finished, and marks it most recent.
    /// A root not in the history yet is appended. Other records are kept as
    /// they are, their flags included.
    pub fn record_scan(&mut self, root: &String, files: &Vec<String>)
        requires
            files.len() <= u32::MAX,
        ensures
            has_root(old(self)@, root@) ==> exists|i: int|
                0 <= i < old(self)@.len() && old(self)@[i].0 == root@
                && final(self)@ == old(self)@.update(i, (root@, #[trigger] final(self)@[i].1, true))
                && tallies(final(self)@[i].1, leaf_names(path_views(files@))),
            !has_root(old(self)@, root@) ==> final(self)@ == old(self)@.push(
                (root@, final(self)@.last().1, true),
            ) && tallies(final(self)@.last().1, leaf_names(path_views(files@))),
            history_wf(old(self)@) ==> history_wf(final(self)@),
    {
        let names = count_names(files);
        let record = HistoryRecord { names, most_recent: true };
        let ghost h = old(self)@;
        let ghost rec_names = names_view(record.names@);
        let mut i: usize = 0;
        while i < self.entries.len()
            invariant
                0 <= i <= self.entries.len(),
                self.entries == old(self).entries,
                h == old(self)@,
                rec_names == names_view(record.names@),
                record.most_recent,
                tallies(rec_names, leaf_names(path_views(files@))),
                forall|j: int| 0 <= j < i ==> self.entries@[j].0@ != root@,
            decreases self.entries.len() - i,
        {
            if self.entries[i].0 == *root {
                assert(h[i as int].0 == root@);
                self.entries.set(i, (root.clone(), record));
                assert(self@ =~= h.update(i as int, (root@, rec_names, true)));
                assert(self@[i as int].1 == rec_names);
                proof {
                    if history_wf(h) {
                        assert forall|j: int| 0 <= j < h.len() && j != i implies h[j].0 != root@ by {
                            assert(h[i as int].0 == root@);
                        }
                    }
                }
                return;
            }
            i = i + 1;
        }
        self.entries.push((root.clone(), record));
        assert(self@ =~= h.push((root@, rec_names, true)));
        assert(!has_root(h, root@));
    }
}

proof fn lemma_occurrences_bound(files: Seq<Seq<char>>, name: Seq<char>)
    ensures
        occurrences(files, name) <= files.len(),
    decreases files.len(),
{
    if files.len() > 0 {
        lemma_occurrences_bound(files.drop_last(), name);
    }
}

/// Where the entry named `name` stands in `names`, if anywhere.
fn find_name(names: &Vec<(String, u32)>, name: &String) -> (r: Option<usize>)
    ensures
        r matches Some(k) ==> k < names.len() && names@[k as int].0@ == name@,
        r is None ==> forall|i: int| 0 <= i < names.len() ==> names@[i].0@ != name@,
{
    let mut i: usize = 0;
    while i < names.len()
        invariant
            0 <= i <= names.len(),
            forall|j: int| 0 <= j < i ==> names@[j].0@ != name@,
        decreases names.len() - i,
    {
        if names[i].0 == *name {
            return Some(i);
        }
        i = i + 1;
    }
    None
}

/// Counts the leaf names of `files`, the files of one scan.
pub fn count_names(files: &Vec<String>) -> (r: Vec<(String, u32)>)
    requires
        files.len() <= u32::MAX,
    ensures
        tallies(names_view(r@), leaf_names(path_views(files@))),
{
    let mut leaves: Vec<String> = Vec::new();
    let mut i: usize = 0;
    while i < files.len()
        invariant
            0 <= i <= files.len() <= u32::MAX,
            leaves.len() <= i,
            path_views(leaves@) == leaf_names(path_views(files@.take(i as int))),
        decreases files.len() - i,
    {
        let ghost before = path_views(files@.take(i as int));
        let ghost after = path_views(files@.take(i + 1));
        assert(after.drop_last() =~= before);
        assert(after.last() == files@[i as int]@);
        let ghost prev = leaves@;
        match file_name(files[i].as_str()) {
            Some(n) => {
                let ghost nv = n@;
                leaves.push(n);
                assert(path_views(leaves@) =~= path_views(prev).push(nv));
            },
            None => {},
        }
        i = i + 1;
    }
    assert(files@.take(files.len() as int) =~= files@);
    tally(&leaves)
}

/// Counts how often each distinct string occurs in `items`.
pub fn tally(items: &Vec<String>) -> (r: Vec<(String, u32)>)
    requires
        items.len() <= u32::MAX,
    ensures
        tallies(names_view(r@), path_views(items@)),
{
    let mut names: Vec<(String, u32)> = Vec::new();
    let mut i: usize = 0;
    while i < items.len()
        invariant
            0 <= i <= items.len() <= u32::MAX,
            tallies(names_view(names@), path_views(items@.take(i as int))),
        decreases items.len() - i,
    {
        let ghost prev = names_view(names@);
        let ghost before = path_views(items@.take(i as int));
        let ghost after = path_views(items@.take(i + 1));
        assert(after.drop_last() =~= before);
        assert(after.last() == items@[i as int]@);
        proof {
            assert forall|n: Seq<char>| #[trigger] occurrences(before, n) <= i by {
                lemma_occurrences_bound(before, n);
            }
        }
        let ghost mut slot: int = 0;
        let name = items[i].clone();
        match find_name(&names, &name) {
            Some(k) => {
                let c = names[k].1;
                assert(prev[k as int] == (names@[k as int].0@, names@[k as int].1));
                assert(prev[k as int].1 == occurrences(before, prev[k as int].0));
                assert(occurrences(before, name@) <= i);
                proof { slot = k as int; }
                names.set(k, (name, c + 1));
                assert(names_view(names@) =~= prev.update(k as int, (prev[k as int].0, (c + 1) as u32)));
            },
            None => {
                assert(occurrences(before, name@) == 0);
                names.push((name, 1));
                assert(names_view(names@) =~= prev.push((name@, 1u32)));
                proof { slot = prev.len() as int; }
            },
        }
        proof {
            let cur = names_view(names@);
            assert forall|n: Seq<char>| #[trigger] occurrences(after, n) == occurrences(before, n) + if after.last() == n {
                1nat
            } else {
                0nat
            } by {}
            let nm = after.last();
            assert(cur[slot].0 == nm);
            assert(cur[slot].1 == occurrences(after, nm));
            assert forall|j: int| 0 <= j < cur.len() && j != slot implies cur[j] == prev[j] && cur[j].0 != nm by {
                assert(cur[j] == prev[j]);
                if j < prev.len() && prev[j].0 == nm && slot < prev.len() {
                    assert(prev[slot].0 == nm);
                }
            }
            assert(unique_names(cur));
            assert forall|n: Seq<char>| #[trigger] occurrences(after, n) > 0 implies exists|j: int|
                0 <= j < cur.len() && cur[j].0 == n by {
                if occurrences(before, n) > 0 {
                    let j = choose|j: int| 0 <= j < prev.len() && prev[j].0 == n;
                    assert(cur[j].0 == n);
                } else {
                    assert(after.last() == n);
                    assert(cur[slot].0 == n);
                }
            }
        }
        i = i + 1;
    }
    assert(items@.take(items.len() as int) =~= items@);
    names
}

} // verus!
