use std::collections::{HashMap, HashSet};

use findr::crawl::{select_dirs, select_files, Crawl, CrawlError, Entry, Kind, Listing, ScanResult};

/// A directory tree for the tests: each readable directory with its entries.
type Tree = HashMap<&'static str, Vec<(&'static str, Kind)>>;

fn entries(items: &[(&str, Kind)]) -> Vec<Entry> {
    items.iter().map(|(p, k)| Entry { path: p.to_string(), kind: *k }).collect()
}

fn crawl(tree: &Tree, root: &str, root_kind: Kind, max_depth: u16) -> Result<ScanResult, CrawlError> {
    let mut c = Crawl::new(root.to_string(), root_kind, max_depth)?;
    while !c.is_done() {
        let listings = c
            .frontier
            .iter()
            .map(|d| match tree.get(d.as_str()) {
                Some(items) => Listing::Read(entries(items)),
                None => Listing::Failed,
            })
            .collect();
        c.advance(listings);
    }
    c.finish()
}

fn set(v: &[String]) -> HashSet<String> {
    v.iter().cloned().collect()
}

fn strs(v: &[&str]) -> HashSet<String> {
    v.iter().map(|s| s.to_string()).collect()
}

fn scenario_tree() -> Tree {
    let mut t = Tree::new();
    t.insert("/tmp/r", vec![("/tmp/r/a", Kind::Directory), ("/tmp/r/y.txt", Kind::File)]);
    t.insert("/tmp/r/a", vec![("/tmp/r/a/x.txt", Kind::File)]);
    t
}

/// Files at depths one to four: /d/f1, /d/a/f2, /d/a/b/f3, /d/a/b/c/f4.
fn deep_tree() -> Tree {
    let mut t = Tree::new();
    t.insert("/d", vec![("/d/a", Kind::Directory), ("/d/f1", Kind::File)]);
    t.insert("/d/a", vec![("/d/a/b", Kind::Directory), ("/d/a/f2", Kind::File)]);
    t.insert("/d/a/b", vec![("/d/a/b/c", Kind::Directory), ("/d/a/b/f3", Kind::File)]);
    t.insert("/d/a/b/c", vec![("/d/a/b/c/f4", Kind::File)]);
    t
}

#[test]
fn scenario_two_files_under_root() {
    let r = crawl(&scenario_tree(), "/tmp/r", Kind::Directory, 5).unwrap();
    assert_eq!(set(&r.files), strs(&["/tmp/r/y.txt", "/tmp/r/a/x.txt"]));
    assert!(r.failures.is_empty());
}

#[test]
fn scenario_stops_when_frontier_is_empty() {
    let mut c = Crawl::new("/tmp/r".to_string(), Kind::Directory, 5).unwrap();
    c.advance(vec![Listing::Read(entries(&[("/tmp/r/a", Kind::Directory), ("/tmp/r/y.txt", Kind::File)]))]);
    assert_eq!(c.frontier, vec!["/tmp/r/a".to_string()]);
    c.advance(vec![Listing::Read(entries(&[("/tmp/r/a/x.txt", Kind::File)]))]);
    assert!(c.frontier.is_empty());
    assert!(c.is_done());
    assert_eq!(c.round, 2);
}

#[test]
fn depth_bound_excludes_deeper_files() {
    let t = deep_tree();
    let r = crawl(&t, "/d", Kind::Directory, 3).unwrap();
    assert_eq!(set(&r.files), strs(&["/d/f1", "/d/a/f2", "/d/a/b/f3"]));
}

#[test]
fn depth_bound_reaches_all_files() {
    let t = deep_tree();
    let all = strs(&["/d/f1", "/d/a/f2", "/d/a/b/f3", "/d/a/b/c/f4"]);
    assert_eq!(set(&crawl(&t, "/d", Kind::Directory, 4).unwrap().files), all);
    assert_eq!(set(&crawl(&t, "/d", Kind::Directory, 30).unwrap().files), all);
}

#[test]
fn depth_zero_reads_nothing() {
    let t = deep_tree();
    assert!(crawl(&t, "/d", Kind::Directory, 0).unwrap().files.is_empty());
}

#[test]
fn file_root_is_its_own_result() {
    let t = Tree::new();
    let r = crawl(&t, "/d/f1", Kind::File, 0).unwrap();
    assert_eq!(r.files, vec!["/d/f1".to_string()]);
    let r = crawl(&t, "/d/f1", Kind::File, 5).unwrap();
    assert_eq!(r.files, vec!["/d/f1".to_string()]);
}

#[test]
fn empty_root_finishes_after_one_round() {
    let mut t = Tree::new();
    t.insert("/e", vec![]);
    let mut c = Crawl::new("/e".to_string(), Kind::Directory, 10).unwrap();
    c.advance(vec![Listing::Read(vec![])]);
    assert!(c.is_done());
    assert_eq!(c.round, 1);
    assert!(crawl(&t, "/e", Kind::Directory, 10).unwrap().files.is_empty());
}

#[test]
fn crawl_twice_gives_same_files() {
    let t = deep_tree();
    let a = crawl(&t, "/d", Kind::Directory, 20).unwrap();
    let b = crawl(&t, "/d", Kind::Directory, 20).unwrap();
    assert_eq!(set(&a.files), set(&b.files));
}

#[test]
fn unreadable_directory_is_isolated() {
    let mut t = Tree::new();
    t.insert("/p", vec![("/p/ok", Kind::Directory), ("/p/locked", Kind::Directory), ("/p/top", Kind::File)]);
    t.insert("/p/ok", vec![("/p/ok/f", Kind::File)]);
    let r = crawl(&t, "/p", Kind::Directory, 5).unwrap();
    assert_eq!(set(&r.files), strs(&["/p/top", "/p/ok/f"]));
    assert_eq!(r.failures, vec!["/p/locked".to_string()]);
}

#[test]
fn unreadable_root_is_an_error() {
    let t = Tree::new();
    assert_eq!(crawl(&t, "/nope", Kind::Directory, 5).unwrap_err(), CrawlError::RootInaccessible);
}

#[test]
fn unclassifiable_root_is_an_error() {
    assert_eq!(Crawl::new("/gone".to_string(), Kind::Other, 5).unwrap_err(), CrawlError::RootInaccessible);
}

#[test]
fn cycle_is_bounded_by_depth() {
    let mut t = Tree::new();
    t.insert("/c", vec![("/c/loop", Kind::Directory), ("/c/f", Kind::File)]);
    t.insert("/c/loop", vec![("/c/loop/loop", Kind::Directory), ("/c/loop/g", Kind::File)]);
    t.insert("/c/loop/loop", vec![("/c/loop/loop/loop", Kind::Directory), ("/c/loop/loop/g", Kind::File)]);
    let r = crawl(&t, "/c", Kind::Directory, 2).unwrap();
    assert_eq!(set(&r.files), strs(&["/c/f", "/c/loop/g"]));
}

#[test]
fn paths_found_twice_are_kept_once() {
    let mut c = Crawl::new("/m".to_string(), Kind::Directory, 5).unwrap();
    c.advance(vec![Listing::Read(entries(&[("/m/a", Kind::Directory), ("/m/b", Kind::Directory)]))]);
    c.advance(vec![
        Listing::Read(entries(&[("/m/s", Kind::Directory), ("/m/h", Kind::File)])),
        Listing::Read(entries(&[("/m/s", Kind::Directory), ("/m/h", Kind::File), ("/m/h", Kind::File)])),
    ]);
    assert_eq!(c.frontier, vec!["/m/s".to_string()]);
    assert_eq!(c.discovered, vec!["/m/h".to_string()]);
}

#[test]
fn other_entries_are_dropped() {
    let mut t = Tree::new();
    t.insert("/o", vec![("/o/sock", Kind::Other), ("/o/f", Kind::File)]);
    let r = crawl(&t, "/o", Kind::Directory, 3).unwrap();
    assert_eq!(r.files, vec!["/o/f".to_string()]);
    assert!(r.failures.is_empty());
}

#[test]
fn select_partitions_by_kind() {
    let es = entries(&[
        ("/s/d1", Kind::Directory),
        ("/s/f1", Kind::File),
        ("/s/x", Kind::Other),
        ("/s/d1", Kind::Directory),
        ("/s/f2", Kind::File),
    ]);
    assert_eq!(select_dirs(&es), vec!["/s/d1".to_string()]);
    assert_eq!(select_files(&es), vec!["/s/f1".to_string(), "/s/f2".to_string()]);
    assert!(select_dirs(&vec![]).is_empty());
}
