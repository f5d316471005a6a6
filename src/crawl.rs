//! The round-synchronized frontier crawl.
//!
//! A [`Crawl`] holds the directories still to be read (the frontier), the
//! files found so far and the directories that could not be read. The caller
//! reads every directory of the frontier, classifies what it found, and hands
//! the listings back to [`Crawl::advance`], which merges them into the next
//! round. Rounds stop after `max_depth` of them, or as soon as the frontier
//! is empty.
use vstd::prelude::*;
use crate::paths::{contains_path, distinct, extend_paths, insert_path, path_set};

verus! {

/// What a path was found to be when its status was checked.
#[derive(Clone, Copy, PartialEq, Eq, Structural, Debug)]
pub enum Kind {
    Directory,
    File,
    /// Gone by the time it was checked, or neither a file nor a directory.
    Other,
}

/// One child of a directory, with its classification.
#[derive(Debug)]
pub struct Entry {
    pub path: String,
    pub kind: Kind,
}

/// What reading one directory of the frontier gave.
#[derive(Debug)]
pub enum Listing {
    Read(Vec<Entry>),
    Failed,
}

/// Why a crawl could not be carried out.
#[derive(Clone, Copy, PartialEq, Eq, Structural, Debug)]
pub enum CrawlError {
    /// The root could not be classified, or could not be read.
    RootInaccessible,
}

/// The pairs (path, kind) that a sequence of entries holds.
pub open spec fn entry_set(es: Seq<Entry>) -> Set<(Seq<char>, Kind)> {
    Set::new(|x: (Seq<char>, Kind)| exists|i: int| 0 <= i < es.len() && (es[i].path@, es[i].kind) == x)
}

/// The paths of the given kind among classified entries.
pub open spec fn of_kind(s: Set<(Seq<char>, Kind)>, kind: Kind) -> Set<Seq<char>> {
    Set::new(|p: Seq<char>| s.contains((p, kind)))
}

/// The directories among classified entries.
pub open spec fn dirs_in(s: Set<(Seq<char>, Kind)>) -> Set<Seq<char>> {
    of_kind(s, Kind::Directory)
}

/// The files among classified entries.
pub open spec fn files_in(s: Set<(Seq<char>, Kind)>) -> Set<Seq<char>> {
    of_kind(s, Kind::File)
}

/// What a listing contributes; a failed read contributes nothing.
pub open spec fn listed(l: Listing) -> Set<(Seq<char>, Kind)> {
    match l {
        Listing::Read(es) => entry_set(es@),
        Listing::Failed => Set::empty(),
    }
}

/// The paths of the given kind found by the first `n` listings.
pub open spec fn found_upto(ls: Seq<Listing>, n: int, kind: Kind) -> Set<Seq<char>>
    decreases n,
{
    if n <= 0 {
        Set::empty()
    } else {
        found_upto(ls, n - 1, kind).union(of_kind(listed(ls[n - 1]), kind))
    }
}

/// The directories among the first `n` of `frontier` whose read failed.
pub open spec fn failed_upto(frontier: Seq<String>, ls: Seq<Listing>, n: int) -> Set<Seq<char>>
    decreases n,
{
    if n <= 0 {
        Set::empty()
    } else if ls[n - 1] is Failed {
        failed_upto(frontier, ls, n - 1).insert(frontier[n - 1]@)
    } else {
        failed_upto(frontier, ls, n - 1)
    }
}

/// The paths of `source` classified as directories, each once.
pub fn select_dirs(source: &Vec<Entry>) -> (r: Vec<String>)
    ensures
        distinct(r@),
        path_set(r@) == dirs_in(entry_set(source@)),
{
    select_kind(source, Kind::Directory)
}

/// The paths of `source` classified as files, each once.
pub fn select_files(source: &Vec<Entry>) -> (r: Vec<String>)
    ensures
        distinct(r@),
        path_set(r@) == files_in(entry_set(source@)),
{
    select_kind(source, Kind::File)
}

fn select_kind(source: &Vec<Entry>, kind: Kind) -> (r: Vec<String>)
    ensures
        distinct(r@),
        path_set(r@) == Set::new(|p: Seq<char>| entry_set(source@).contains((p, kind))),
{
    let mut r: Vec<String> = Vec::new();
    let mut i: usize = 0;
    while i < source.len()
        invariant
            0 <= i <= source.len(),
            distinct(r@),
            forall|p: Seq<char>| path_set(r@).contains(p) <==>
                exists|j: int| 0 <= j < i && (#[trigger] source@[j].path@, source@[j].kind) == (p, kind),
        decreases source.len() - i,
    {
        if source[i].kind == kind {
            insert_path(&mut r, source[i].path.clone());
        }
        proof {
            assert forall|p: Seq<char>| path_set(r@).contains(p) <==>
                exists|j: int| 0 <= j < i + 1 && (#[trigger] source@[j].path@, source@[j].kind) == (p, kind) by {
                if exists|j: int| 0 <= j < i + 1 && (#[trigger] source@[j].path@, source@[j].kind) == (p, kind) {
                    let j = choose|j: int| 0 <= j < i + 1 && (#[trigger] source@[j].path@, source@[j].kind) == (p, kind);
                    if j < i {
                        assert(exists|j: int| 0 <= j < i && (#[trigger] source@[j].path@, source@[j].kind) == (p, kind));
                    }
                }
            }
        }
        i = i + 1;
    }
    assert(path_set(r@) =~= Set::new(|p: Seq<char>| entry_set(source@).contains((p, kind))));
    r
}

/// A model of the tree being crawled: each readable directory, with the
/// classified entries that reading it gives. A directory outside the domain
/// cannot be read.
pub type Tree = Map<Seq<char>, Set<(Seq<char>, Kind)>>;

/// What reading `d` gives in `tree`; nothing where `d` cannot be read.
pub open spec fn tree_listed(tree: Tree, d: Seq<char>) -> Set<(Seq<char>, Kind)> {
    if tree.contains_key(d) {
        tree[d]
    } else {
        Set::empty()
    }
}

/// The paths of the given kind listed by some directory of `lvl`.
pub open spec fn reached(tree: Tree, lvl: Set<Seq<char>>, kind: Kind) -> Set<Seq<char>> {
    Set::new(|p: Seq<char>| exists|d: Seq<char>| lvl.contains(d) && #[trigger] tree_listed(tree, d).contains((p, kind)))
}

/// The directories listed by some directory of `lvl`.
pub open spec fn next_level(tree: Tree, lvl: Set<Seq<char>>) -> Set<Seq<char>> {
    reached(tree, lvl, Kind::Directory)
}

/// The files listed by some directory of `lvl`.
pub open spec fn level_files(tree: Tree, lvl: Set<Seq<char>>) -> Set<Seq<char>> {
    reached(tree, lvl, Kind::File)
}

/// The directories of `lvl` that cannot be read.
pub open spec fn level_failures(tree: Tree, lvl: Set<Seq<char>>) -> Set<Seq<char>> {
    Set::new(|d: Seq<char>| lvl.contains(d) && !tree.contains_key(d))
}

/// The directories reached `k` levels below the starting directories.
pub open spec fn level(tree: Tree, start: Set<Seq<char>>, k: nat) -> Set<Seq<char>>
    decreases k,
{
    if k == 0 {
        start
    } else {
        next_level(tree, level(tree, start, (k - 1) as nat))
    }
}

/// The files listed by the directories of the first `k` levels, with `base`.
pub open spec fn files_within(tree: Tree, start: Set<Seq<char>>, base: Set<Seq<char>>, k: nat) -> Set<Seq<char>>
    decreases k,
{
    if k == 0 {
        base
    } else {
        files_within(tree, start, base, (k - 1) as nat).union(
            level_files(tree, level(tree, start, (k - 1) as nat)),
        )
    }
}

/// The unreadable directories of the first `k` levels.
pub open spec fn failures_within(tree: Tree, start: Set<Seq<char>>, k: nat) -> Set<Seq<char>>
    decreases k,
{
    if k == 0 {
        Set::empty()
    } else {
        failures_within(tree, start, (k - 1) as nat).union(
            level_failures(tree, level(tree, start, (k - 1) as nat)),
        )
    }
}

/// The listings are what reading each directory of `frontier` gives in `tree`.
pub open spec fn agrees(tree: Tree, frontier: Seq<String>, ls: Seq<Listing>) -> bool {
    &&& ls.len() == frontier.len()
    &&& forall|i: int| 0 <= i < ls.len() ==> if tree.contains_key(#[trigger] frontier[i]@) {
        ls[i] is Read && listed(ls[i]) == tree[frontier[i]@]
    } else {
        ls[i] is Failed
    }
}

/// The state of one crawl between rounds.
#[derive(Debug)]
pub struct Crawl {
    pub root: String,
    pub root_kind: Kind,
    pub max_depth: u16,
    /// How many rounds have been merged.
    pub round: u16,
    /// The directories to read in the next round.
    pub frontier: Vec<String>,
    /// The files found so far.
    pub discovered: Vec<String>,
    /// The directories that could not be read.
    pub failures: Vec<String>,
}

/// What a finished crawl found.
#[derive(Debug)]
pub struct ScanResult {
    pub files: Vec<String>,
    pub failures: Vec<String>,
}

impl Crawl {
    /// No path is held twice, and no round past the depth bound was run.
    pub open spec fn wf(&self) -> bool {
        &&& distinct(self.frontier@)
        &&& distinct(self.discovered@)
        &&& distinct(self.failures@)
        &&& self.round <= self.max_depth
    }

    /// The directories of round zero: the root, where it is a directory.
    pub open spec fn start(&self) -> Set<Seq<char>> {
        if self.root_kind is Directory {
            set![self.root@]
        } else {
            Set::empty()
        }
    }

    /// The files known before any read: the root, where it is a file.
    pub open spec fn base(&self) -> Set<Seq<char>> {
        if self.root_kind is File {
            set![self.root@]
        } else {
            Set::empty()
        }
    }

    /// The state is what `self.round` rounds over `tree` give.
    pub open spec fn models(&self, tree: Tree) -> bool {
        &&& path_set(self.frontier@) == level(tree, self.start(), self.round as nat)
        &&& path_set(self.discovered@) == files_within(tree, self.start(), self.base(), self.round as nat)
        &&& path_set(self.failures@) == failures_within(tree, self.start(), self.round as nat)
    }

    /// No round is left.
    pub open spec fn done_spec(&self) -> bool {
        self.round >= self.max_depth || self.frontier.len() == 0
    }

    /// Starts a crawl at `root`, classified as `root_kind`. A root that is
    /// neither a file nor a directory cannot be crawled.
    pub fn new(root: String, root_kind: Kind, max_depth: u16) -> (r: Result<Crawl, CrawlError>)
        ensures
            r is Err <==> root_kind is Other,
            r is Err ==> r->Err_0 == CrawlError::RootInaccessible,
            r matches Ok(c) ==> {
                &&& c.wf()
                &&& c.root@ == root@
                &&& c.root_kind == root_kind
                &&& c.max_depth == max_depth
                &&& c.round == 0
                &&& c.failures@.len() == 0
                &&& root_kind is Directory ==> c.frontier@.len() == 1 && c.frontier@[0]@ == root@ && c.discovered@.len() == 0
                &&& root_kind is File ==> c.discovered@.len() == 1 && c.discovered@[0]@ == root@ && c.frontier@.len() == 0
                &&& forall|tree: Tree| #[trigger] c.models(tree)
            },
    {
        let mut frontier: Vec<String> = Vec::new();
        let mut discovered: Vec<String> = Vec::new();
        match root_kind {
            Kind::Directory => frontier.push(root.clone()),
            Kind::File => discovered.push(root.clone()),
            Kind::Other => return Err(CrawlError::RootInaccessible),
        }
        let c = Crawl { root, root_kind, max_depth, round: 0, frontier, discovered, failures: Vec::new() };
        assert forall|tree: Tree| #[trigger] c.models(tree) by {
            assert(path_set(c.frontier@) =~= c.start()) by {
                if root_kind is Directory {
                    assert(c.frontier@[0]@ == c.root@);
                }
            }
            assert(path_set(c.discovered@) =~= c.base()) by {
                if root_kind is File {
                    assert(c.discovered@[0]@ == c.root@);
                }
            }
            assert(path_set(c.failures@) =~= Set::empty());
        }
        Ok(c)
    }

    /// Merges the listings of one round, one for each directory of the
    /// frontier and in its order, and moves to the next round.
    pub fn advance(&mut self, listings: Vec<Listing>)
        requires
            old(self).wf(),
            !old(self).done_spec(),
            listings.len() == old(self).frontier.len(),
        ensures
            final(self).wf(),
            final(self).root == old(self).root,
            final(self).root_kind == old(self).root_kind,
            final(self).max_depth == old(self).max_depth,
            final(self).round == old(self).round + 1,
            path_set(final(self).frontier@) == found_upto(listings@, listings.len() as int, Kind::Directory),
            path_set(final(self).discovered@) == path_set(old(self).discovered@).union(
                found_upto(listings@, listings.len() as int, Kind::File),
            ),
            path_set(final(self).failures@) == path_set(old(self).failures@).union(
                failed_upto(old(self).frontier@, listings@, listings.len() as int),
            ),
            forall|tree: Tree|
                old(self).models(tree) && agrees(tree, old(self).frontier@, listings@)
                    ==> #[trigger] final(self).models(tree),
    {
        let mut next: Vec<String> = Vec::new();
        let mut i: usize = 0;
        while i < listings.len()
            invariant
                0 <= i <= listings.len(),
                listings.len() == self.frontier.len(),
                self.frontier == old(self).frontier,
                self.root == old(self).root,
                self.root_kind == old(self).root_kind,
                self.max_depth == old(self).max_depth,
                self.round == old(self).round,
                distinct(next@),
                distinct(self.discovered@),
                distinct(self.failures@),
                path_set(next@) == found_upto(listings@, i as int, Kind::Directory),
                path_set(self.discovered@) == path_set(old(self).discovered@).union(
                    found_upto(listings@, i as int, Kind::File),
                ),
                path_set(self.failures@) == path_set(old(self).failures@).union(
                    failed_upto(self.frontier@, listings@, i as int),
                ),
            decreases listings.len() - i,
        {
            match &listings[i] {
                Listing::Read(es) => {
                    extend_paths(&mut next, select_dirs(es));
                    extend_paths(&mut self.discovered, select_files(es));
                },
                Listing::Failed => {
                    let d = self.frontier[i].clone();
                    insert_path(&mut self.failures, d);
                },
            }
            assert(path_set(next@) =~= found_upto(listings@, i + 1, Kind::Directory));
            assert(path_set(self.discovered@) =~= path_set(old(self).discovered@).union(
                found_upto(listings@, i + 1, Kind::File),
            ));
            assert(path_set(self.failures@) =~= path_set(old(self).failures@).union(
                failed_upto(self.frontier@, listings@, i + 1),
            ));
            i = i + 1;
        }
        self.frontier = next;
        self.round = self.round + 1;
        proof {
            assert forall|tree: Tree|
                old(self).models(tree) && agrees(tree, old(self).frontier@, listings@)
                    implies #[trigger] self.models(tree) by {
                let lvl = path_set(old(self).frontier@);
                lemma_round_matches_tree(tree, old(self).frontier@, listings@, Kind::Directory);
                lemma_round_matches_tree(tree, old(self).frontier@, listings@, Kind::File);
                lemma_round_failures_match_tree(tree, old(self).frontier@, listings@);
                assert(self.start() == old(self).start());
                assert(self.base() == old(self).base());
            }
        }
    }

    /// Ends a finished crawl. The crawl fails where the root itself could
    /// not be read; other unreadable directories are reported beside the files.
    pub fn finish(self) -> (r: Result<ScanResult, CrawlError>)
        requires
            self.wf(),
            self.done_spec(),
        ensures
            r is Err <==> path_set(self.failures@).contains(self.root@),
            r is Err ==> r->Err_0 == CrawlError::RootInaccessible,
            r matches Ok(s) ==> s.files@ == self.discovered@ && s.failures@ == self.failures@,
    {
        if contains_path(&self.failures, &self.root) {
            Err(CrawlError::RootInaccessible)
        } else {
            Ok(ScanResult { files: self.discovered, failures: self.failures })
        }
    }

    /// Whether no round is left: the depth is used up or nothing is left to read.
    pub fn is_done(&self) -> (r: bool)
        ensures
            r == self.done_spec(),
    {
        self.round >= self.max_depth || self.frontier.len() == 0
    }
}

/// Once a level is empty, every later level is empty, and no later round
/// finds a file or a failure: stopping at an empty frontier changes nothing.
pub proof fn lemma_empty_level_is_final(tree: Tree, start: Set<Seq<char>>, base: Set<Seq<char>>, k: nat, j: nat)
    requires
        level(tree, start, k) == Set::<Seq<char>>::empty(),
        k <= j,
    ensures
        level(tree, start, j) == Set::<Seq<char>>::empty(),
        files_within(tree, start, base, j) == files_within(tree, start, base, k),
        failures_within(tree, start, j) == failures_within(tree, start, k),
    decreases j - k,
{
    if j > k {
        let i = (j - 1) as nat;
        lemma_empty_level_is_final(tree, start, base, k, i);
        assert(level(tree, start, j) =~= Set::<Seq<char>>::empty());
        assert(files_within(tree, start, base, j) =~= files_within(tree, start, base, i));
        assert(failures_within(tree, start, j) =~= failures_within(tree, start, i));
    }
}

/// Depth bound: after `k` rounds a path is a found file exactly when it was
/// the root file or is listed as a file by a directory fewer than `k` levels
/// below the root.
pub proof fn lemma_files_within_levels(tree: Tree, start: Set<Seq<char>>, base: Set<Seq<char>>, k: nat, p: Seq<char>)
    ensures
        files_within(tree, start, base, k).contains(p) <==> (base.contains(p) || exists|j: nat|
            j < k && #[trigger] level_files(tree, level(tree, start, j)).contains(p)),
    decreases k,
{
    if k > 0 {
        let i = (k - 1) as nat;
        lemma_files_within_levels(tree, start, base, i, p);
        if level_files(tree, level(tree, start, i)).contains(p) {
            assert(exists|j: nat| j < k && #[trigger] level_files(tree, level(tree, start, j)).contains(p));
        }
        if exists|j: nat| j < k && #[trigger] level_files(tree, level(tree, start, j)).contains(p) {
            let j = choose|j: nat| j < k && #[trigger] level_files(tree, level(tree, start, j)).contains(p);
            if j < i {
                assert(exists|j: nat| j < i && #[trigger] level_files(tree, level(tree, start, j)).contains(p));
            }
        }
    }
}

/// A finished crawl has found exactly the files within `max_depth` levels of
/// the tree, and exactly its unreadable directories within those levels.
pub proof fn lemma_finished_crawl_is_exact(c: Crawl, tree: Tree)
    requires
        c.wf(),
        c.models(tree),
        c.done_spec(),
    ensures
        path_set(c.discovered@) == files_within(tree, c.start(), c.base(), c.max_depth as nat),
        path_set(c.failures@) == failures_within(tree, c.start(), c.max_depth as nat),
{
    if c.round < c.max_depth {
        assert(path_set(c.frontier@) =~= Set::<Seq<char>>::empty());
        lemma_empty_level_is_final(tree, c.start(), c.base(), c.round as nat, c.max_depth as nat);
    }
}

/// Two finished crawls of one unchanged tree, from the same root with the
/// same depth, find the same files and the same failures.
pub proof fn lemma_crawl_is_repeatable(c1: Crawl, c2: Crawl, tree: Tree)
    requires
        c1.wf(),
        c2.wf(),
        c1.models(tree),
        c2.models(tree),
        c1.done_spec(),
        c2.done_spec(),
        c1.root@ == c2.root@,
        c1.root_kind == c2.root_kind,
        c1.max_depth == c2.max_depth,
    ensures
        path_set(c1.discovered@) == path_set(c2.discovered@),
        path_set(c1.failures@) == path_set(c2.failures@),
{
    lemma_finished_crawl_is_exact(c1, tree);
    lemma_finished_crawl_is_exact(c2, tree);
    assert(c1.start() == c2.start());
    assert(c1.base() == c2.base());
}

/// Membership in `found_upto`, one listing at a time.
proof fn lemma_found_upto(ls: Seq<Listing>, n: int, kind: Kind, p: Seq<char>)
    requires
        0 <= n <= ls.len(),
    ensures
        found_upto(ls, n, kind).contains(p) <==> exists|j: int| 0 <= j < n && #[trigger] listed(ls[j]).contains((p, kind)),
    decreases n,
{
    if n > 0 {
        lemma_found_upto(ls, n - 1, kind, p);
        if listed(ls[n - 1]).contains((p, kind)) {
            assert(of_kind(listed(ls[n - 1]), kind).contains(p));
        }
    }
}

/// Membership in `failed_upto`, one listing at a time.
proof fn lemma_failed_upto(frontier: Seq<String>, ls: Seq<Listing>, n: int, p: Seq<char>)
    requires
        0 <= n <= ls.len(),
        ls.len() == frontier.len(),
    ensures
        failed_upto(frontier, ls, n).contains(p) <==> exists|j: int| 0 <= j < n && ls[j] is Failed && #[trigger] frontier[j]@ == p,
    decreases n,
{
    if n > 0 {
        lemma_failed_upto(frontier, ls, n - 1, p);
    }
}

/// Listings that agree with `tree` find what `tree` lists under the frontier.
proof fn lemma_round_matches_tree(tree: Tree, frontier: Seq<String>, ls: Seq<Listing>, kind: Kind)
    requires
        agrees(tree, frontier, ls),
    ensures
        found_upto(ls, ls.len() as int, kind) == reached(tree, path_set(frontier), kind),
{
    let n = ls.len() as int;
    assert forall|j: int| 0 <= j < n implies #[trigger] listed(ls[j]) == tree_listed(tree, frontier[j]@) by {
        if tree.contains_key(frontier[j]@) {
        } else {
            assert(ls[j] is Failed);
        }
    }
    assert forall|p: Seq<char>| found_upto(ls, n, kind).contains(p) <==> reached(tree, path_set(frontier), kind).contains(p) by {
        lemma_found_upto(ls, n, kind, p);
        if found_upto(ls, n, kind).contains(p) {
            let j = choose|j: int| 0 <= j < n && #[trigger] listed(ls[j]).contains((p, kind));
            assert(path_set(frontier).contains(frontier[j]@));
            assert(tree_listed(tree, frontier[j]@).contains((p, kind)));
        }
        if reached(tree, path_set(frontier), kind).contains(p) {
            let d = choose|d: Seq<char>| path_set(frontier).contains(d) && #[trigger] tree_listed(tree, d).contains((p, kind));
            let j = choose|j: int| 0 <= j < frontier.len() && frontier[j]@ == d;
            assert(listed(ls[j]).contains((p, kind)));
        }
    }
    assert(found_upto(ls, n, kind) =~= reached(tree, path_set(frontier), kind));
}

/// Listings that agree with `tree` fail exactly on the unreadable directories.
proof fn lemma_round_failures_match_tree(tree: Tree, frontier: Seq<String>, ls: Seq<Listing>)
    requires
        agrees(tree, frontier, ls),
    ensures
        failed_upto(frontier, ls, ls.len() as int) == level_failures(tree, path_set(frontier)),
{
    let n = ls.len() as int;
    assert forall|p: Seq<char>| failed_upto(frontier, ls, n).contains(p) <==> level_failures(tree, path_set(frontier)).contains(p) by {
        lemma_failed_upto(frontier, ls, n, p);
        if failed_upto(frontier, ls, n).contains(p) {
            let j = choose|j: int| 0 <= j < n && ls[j] is Failed && #[trigger] frontier[j]@ == p;
            assert(path_set(frontier).contains(frontier[j]@));
            if tree.contains_key(frontier[j]@) {
                assert(ls[j] is Read);
            }
        }
        if level_failures(tree, path_set(frontier)).contains(p) {
            let j = choose|j: int| 0 <= j < frontier.len() && frontier[j]@ == p;
            assert(ls[j] is Failed);
        }
    }
    assert(failed_upto(frontier, ls, n) =~= level_failures(tree, path_set(frontier)));
}

} // verus!
