//! Collections of paths without repeats, viewed as sets of character
//! sequences.
use vstd::prelude::*;

verus! {

/// The set of paths that a sequence of strings holds.
pub open spec fn path_set(v: Seq<String>) -> Set<Seq<char>> {
    Set::new(|p: Seq<char>| exists|i: int| 0 <= i < v.len() && v[i]@ == p)
}

/// No path occurs twice.
pub open spec fn distinct(v: Seq<String>) -> bool {
    forall|i: int, j: int| 0 <= i < v.len() && 0 <= j < v.len() && i != j ==> v[i]@ != v[j]@
}

/// Whether `p` occurs in `v`.
pub fn contains_path(v: &Vec<String>, p: &String) -> (r: bool)
    ensures
        r == path_set(v@).contains(p@),
{
    let mut i: usize = 0;
    while i < v.len()
        invariant
            0 <= i <= v.len(),
            forall|j: int| 0 <= j < i ==> v@[j]@ != p@,
        decreases v.len() - i,
    {
        if v[i] == *p {
            assert(path_set(v@).contains(p@)) by {
                assert(v@[i as int]@ == p@);
            }
            return true;
        }
        i = i + 1;
    }
    false
}

/// Adds `p` to `v` unless it is already there.
pub fn insert_path(v: &mut Vec<String>, p: String)
    requires
        distinct(old(v)@),
    ensures
        distinct(final(v)@),
        path_set(final(v)@) == path_set(old(v)@).insert(p@),
{
    if !contains_path(v, &p) {
        let ghost pv = p@;
        v.push(p);
        assert(path_set(v@) =~= path_set(old(v)@).insert(pv)) by {
            assert(v@[v@.len() - 1]@ == pv);
            assert forall|q: Seq<char>| path_set(old(v)@).contains(q) implies path_set(v@).contains(q) by {
                let i = choose|i: int| 0 <= i < old(v)@.len() && old(v)@[i]@ == q;
                assert(v@[i] == old(v)@[i]);
            }
        }
    } else {
        assert(path_set(v@) =~= path_set(old(v)@).insert(p@));
    }
}

/// Adds every path of `src` to `v`, keeping `v` free of repeats.
pub fn extend_paths(v: &mut Vec<String>, src: Vec<String>)
    requires
        distinct(old(v)@),
    ensures
        distinct(final(v)@),
        path_set(final(v)@) == path_set(old(v)@).union(path_set(src@)),
{
    let mut i: usize = 0;
    while i < src.len()
        invariant
            0 <= i <= src.len(),
            distinct(v@),
            path_set(v@) == path_set(old(v)@).union(path_set(src@.take(i as int))),
        decreases src.len() - i,
    {
        let p = src[i].clone();
        insert_path(v, p);
        assert(path_set(src@.take(i + 1)) =~= path_set(src@.take(i as int)).insert(src@[i as int]@)) by {
            assert(src@.take(i + 1)[i as int] == src@[i as int]);
            assert forall|q: Seq<char>| path_set(src@.take(i as int)).contains(q) implies path_set(src@.take(i + 1)).contains(q) by {
                let k = choose|k: int| 0 <= k < i && #[trigger] src@.take(i as int)[k]@ == q;
                assert(src@.take(i + 1)[k] == src@[k]);
            }
            assert forall|q: Seq<char>| path_set(src@.take(i + 1)).contains(q) && q != src@[i as int]@ implies path_set(src@.take(i as int)).contains(q) by {
                let k = choose|k: int| 0 <= k < i + 1 && #[trigger] src@.take(i + 1)[k]@ == q;
                assert(src@.take(i as int)[k] == src@[k]);
            }
        }
        i = i + 1;
    }
    assert(src@.take(src@.len() as int) =~= src@);
    assert(path_set(v@) =~= path_set(old(v)@).union(path_set(src@)));
}

} // verus!
