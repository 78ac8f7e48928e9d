//! Turning the files found under the store's root into candidate entries.
use vstd::prelude::*;
use crate::text::{chars_of, string_of};

verus! {

/// The views of a list of strings.
pub open spec fn views(s: Seq<String>) -> Seq<Seq<char>> {
    s.map_values(|x: String| x@)
}

/// `path` relative to the directory `root`, when it lies beneath it.
pub open spec fn strip_root(root: Seq<char>, path: Seq<char>) -> Option<Seq<char>> {
    if root.len() > 0 && root.last() == '/' && root.is_prefix_of(path) {
        Some(path.skip(root.len() as int))
    } else if root.push('/').is_prefix_of(path) {
        Some(path.skip(root.len() + 1int))
    } else {
        None
    }
}

/// The name of the store's version-control directory.
pub open spec fn bookkeeping_dir() -> Seq<char> {
    seq!['.', 'g', 'i', 't']
}

/// The relative path `rel` lies in the store's version-control directory.
pub open spec fn is_bookkeeping(rel: Seq<char>) -> bool {
    rel == bookkeeping_dir() || bookkeeping_dir().push('/').is_prefix_of(rel)
}

/// The candidate entry for the file `path`, if it is one.
pub open spec fn entry_of(root: Seq<char>, path: Seq<char>) -> Option<Seq<char>> {
    match strip_root(root, path) {
        Some(rel) => if is_bookkeeping(rel) { None } else { Some(rel) },
        None => None,
    }
}

/// The candidate entries for the files `paths`, in the order they were found.
pub open spec fn scanned(root: Seq<char>, paths: Seq<Seq<char>>) -> Seq<Seq<char>>
    decreases paths.len(),
{
    if paths.len() == 0 {
        Seq::empty()
    } else {
        let before = scanned(root, paths.drop_last());
        match entry_of(root, paths.last()) {
            Some(rel) => before.push(rel),
            None => before,
        }
    }
}

/// Whether `p` is a prefix of `v`.
fn starts_with(v: &Vec<char>, p: &Vec<char>) -> (r: bool)
    ensures
        r == p@.is_prefix_of(v@),
{
    if p.len() > v.len() {
        return false;
    }
    let mut i: usize = 0;
    while i < p.len()
        invariant
            p.len() <= v.len(),
            i <= p.len(),
            forall|k: int| 0 <= k < i ==> p@[k] == v@[k],
        decreases p.len() - i,
    {
        if p[i] != v[i] {
            assert(p@ != v@.subrange(0, p.len() as int)) by {
                assert(v@.subrange(0, p.len() as int)[i as int] == v@[i as int]);
            }
            return false;
        }
        i = i + 1;
    }
    assert(p@ =~= v@.subrange(0, p.len() as int));
    true
}

/// The candidate entry for the file `path` found under `root`: its path
/// relative to `root`, or `None` when it lies outside `root` or in the
/// store's version-control directory.
pub fn relative_entry(root: &str, path: &str) -> (r: Option<String>)
    ensures
        r matches Some(s) ==> entry_of(root@, path@) == Some(s@),
        r is None ==> entry_of(root@, path@) is None,
{
    let rv = chars_of(root);
    let pv = chars_of(path);
    let start: usize;
    if rv.len() > 0 && rv[rv.len() - 1] == '/' && starts_with(&pv, &rv) {
        start = rv.len();
    } else {
        let mut with_sep = rv.clone();
        with_sep.push('/');
        assert(with_sep@ == root@.push('/'));
        if starts_with(&pv, &with_sep) {
            start = with_sep.len();
        } else {
            return None;
        }
    }
    let n = pv.len();
    let rel = Ghost(pv@.skip(start as int));
    let s = string_of(&pv, start, n);
    assert(s@ == rel@);
    if in_bookkeeping_dir(&pv, start) {
        None
    } else {
        Some(s)
    }
}

/// Whether `v[start..]` lies in the store's version-control directory.
fn in_bookkeeping_dir(v: &Vec<char>, start: usize) -> (r: bool)
    requires
        start <= v.len(),
    ensures
        r == is_bookkeeping(v@.skip(start as int)),
{
    let rel = Ghost(v@.skip(start as int));
    let n = v.len() - start;
    assert(bookkeeping_dir().len() == 4);
    assert(bookkeeping_dir().push('/').len() == 5);
    if n < 4 {
        assert(rel@ != bookkeeping_dir());
        return false;
    }
    let head = v[start] == '.' && v[start + 1] == 'g' && v[start + 2] == 'i' && v[start + 3] == 't';
    if !head {
        assert(rel@ != bookkeeping_dir() && !bookkeeping_dir().push('/').is_prefix_of(rel@)) by {
            if rel@ == bookkeeping_dir() || bookkeeping_dir().push('/').is_prefix_of(rel@) {
                assert(rel@.subrange(0, 4) =~= bookkeeping_dir()) by {
                    if rel@ != bookkeeping_dir() {
                        assert(rel@.subrange(0, 5) == bookkeeping_dir().push('/'));
                        assert(rel@.subrange(0, 5).drop_last() =~= rel@.subrange(0, 4));
                    }
                }
                assert(rel@[0] == bookkeeping_dir()[0]);
                assert(rel@[1] == bookkeeping_dir()[1]);
                assert(rel@[2] == bookkeeping_dir()[2]);
                assert(rel@[3] == bookkeeping_dir()[3]);
            }
        }
        return false;
    }
    if n == 4 {
        assert(rel@ =~= bookkeeping_dir());
        return true;
    }
    let r = v[start + 4] == '/';
    if r {
        assert(bookkeeping_dir().push('/') =~= rel@.subrange(0, 5));
    } else {
        assert(!bookkeeping_dir().push('/').is_prefix_of(rel@)) by {
            if bookkeeping_dir().push('/').is_prefix_of(rel@) {
                assert(rel@[4] == bookkeeping_dir().push('/')[4]);
            }
        }
    }
    r
}

/// The candidate entries for the files `paths` found under `root`, in the
/// order they were found.
pub fn collect_entries(root: &str, paths: &Vec<String>) -> (r: Vec<String>)
    ensures
        views(r@) == scanned(root@, views(paths@)),
{
    let mut r: Vec<String> = Vec::new();
    let mut i: usize = 0;
    while i < paths.len()
        invariant
            i <= paths.len(),
            views(r@) == scanned(root@, views(paths@).take(i as int)),
        decreases paths.len() - i,
    {
        let e = relative_entry(root, paths[i].as_str());
        let ghost before = r@;
        assert(views(paths@).take(i + 1).drop_last() == views(paths@).take(i as int));
        assert(views(paths@).take(i + 1).last() == paths@[i as int]@);
        match e {
            Some(s) => {
                r.push(s);
                assert(views(r@) =~= views(before).push(r@.last()@));
            },
            None => {},
        }
        i = i + 1;
    }
    assert(views(paths@).take(paths.len() as int) == views(paths@));
    r
}

/// No entry of the store's version-control directory becomes a candidate.
pub proof fn lemma_scan_skips_bookkeeping(root: Seq<char>, paths: Seq<Seq<char>>)
    ensures
        forall|k: int| 0 <= k < scanned(root, paths).len() ==> !is_bookkeeping(#[trigger] scanned(root, paths)[k]),
    decreases paths.len(),
{
    if paths.len() > 0 {
        lemma_scan_skips_bookkeeping(root, paths.drop_last());
        let before = scanned(root, paths.drop_last());
        match entry_of(root, paths.last()) {
            Some(rel) => {
                assert(scanned(root, paths) == before.push(rel));
                assert(!is_bookkeeping(rel));
            },
            None => {},
        }
    }
}

} // verus!
