//! Turning a matched entry into the title, subtitle and identity shown to the
//! user.
use vstd::prelude::*;
use crate::text::{chars_of, string_of};

verus! {

/// The extension that marks an encrypted entry of the store.
pub open spec fn marker() -> Seq<char> {
    seq!['.', 'g', 'p', 'g']
}

/// The position of the last `/` in `p`, or -1 when there is none.
pub open spec fn last_separator(p: Seq<char>) -> int
    decreases p.len(),
{
    if p.len() == 0 {
        -1
    } else if p.last() == '/' {
        p.len() - 1
    } else {
        last_separator(p.drop_last())
    }
}

/// The final segment of `p`.
pub open spec fn file_name(p: Seq<char>) -> Seq<char> {
    p.subrange(last_separator(p) + 1, p.len() as int)
}

/// What stands before the final segment of `p`; empty for an entry at the
/// root of the store.
pub open spec fn parent(p: Seq<char>) -> Seq<char> {
    if last_separator(p) < 0 {
        Seq::empty()
    } else {
        p.subrange(0, last_separator(p))
    }
}

/// `s` ends with the marker extension.
pub open spec fn has_marker(s: Seq<char>) -> bool {
    s.len() >= 4 && s.subrange(s.len() - 4, s.len() as int) == marker()
}

/// The title of a leaf entry: its final segment without the marker
/// extension (a name that is nothing but the marker stays as it is).
pub open spec fn leaf_title(p: Seq<char>) -> Seq<char> {
    let name = file_name(p);
    if has_marker(name) && name.len() > 4 {
        name.subrange(0, name.len() - 4)
    } else {
        name
    }
}

/// One line of the result list.
pub struct ResultItem {
    pub title: String,
    pub subtitle: Option<String>,
    /// The position of the entry in the candidate list; directory-like
    /// entries carry none, as they cannot be retrieved.
    pub id: Option<u64>,
}

/// `item` is how the entry `path` at `position` is shown: a directory-like
/// entry as its path with a trailing `/`, a leaf as its name under its
/// parent.
pub open spec fn formats_as(item: ResultItem, path: Seq<char>, position: int, is_dir: bool) -> bool {
    if is_dir {
        &&& item.title@ == path.push('/')
        &&& item.subtitle is None
        &&& item.id is None
    } else {
        &&& item.title@ == leaf_title(path)
        &&& item.subtitle matches Some(s) && s@ == parent(path)
        &&& item.id matches Some(id) && id as int == position
    }
}

/// The position of the last `/` among the characters of `v`.
fn find_last_separator(v: &Vec<char>) -> (r: Option<usize>)
    ensures
        r matches Some(i) ==> i < v.len() && i as int == last_separator(v@),
        r is None ==> last_separator(v@) == -1,
{
    let mut i: usize = v.len();
    assert(v@.take(i as int) =~= v@);
    while i > 0
        invariant
            i <= v.len(),
            last_separator(v@) == last_separator(v@.take(i as int)),
        decreases i,
    {
        if v[i - 1] == '/' {
            return Some(i - 1);
        }
        assert(v@.take(i as int).drop_last() == v@.take(i - 1));
        i = i - 1;
    }
    None
}

/// Whether `v[from..to]` ends with the marker extension.
pub fn ends_with_marker(v: &Vec<char>, from: usize, to: usize) -> (r: bool)
    requires
        from <= to <= v.len(),
    ensures
        r == has_marker(v@.subrange(from as int, to as int)),
{
    let s = Ghost(v@.subrange(from as int, to as int));
    if to - from < 4 {
        return false;
    }
    let r = v[to - 4] == '.' && v[to - 3] == 'g' && v[to - 2] == 'p' && v[to - 1] == 'g';
    assert(s@.subrange(s@.len() - 4, s@.len() as int) == v@.subrange(to - 4, to as int));
    if r {
        assert(v@.subrange(to - 4, to as int) =~= marker());
    } else {
        assert(v@.subrange(to - 4, to as int) != marker()) by {
            if v@.subrange(to - 4, to as int) == marker() {
                assert(v@.subrange(to - 4, to as int)[0] == v@[to - 4]);
                assert(v@.subrange(to - 4, to as int)[1] == v@[to - 3]);
                assert(v@.subrange(to - 4, to as int)[2] == v@[to - 2]);
                assert(v@.subrange(to - 4, to as int)[3] == v@[to - 1]);
            }
        }
    }
    r
}

/// The result line for the entry `path` at `position` of the candidate
/// list; `is_dir` tells whether the entry is a directory.
pub fn format_entry(path: &str, position: usize, is_dir: bool) -> (r: ResultItem)
    ensures
        formats_as(r, path@, position as int, is_dir),
{
    let v = chars_of(path);
    if is_dir {
        let mut title: Vec<char> = v;
        title.push('/');
        let len = title.len();
        let t = string_of(&title, 0, len);
        assert(title@.subrange(0, len as int) == title@);
        return ResultItem { title: t, subtitle: None, id: None };
    }
    let start: usize = match find_last_separator(&v) {
        Some(i) => i + 1,
        None => 0,
    };
    let end: usize = if ends_with_marker(&v, start, v.len()) && v.len() - start > 4 {
        v.len() - 4
    } else {
        v.len()
    };
    let title = string_of(&v, start, end);
    let subtitle = match find_last_separator(&v) {
        Some(i) => string_of(&v, 0, i),
        None => string_of(&v, 0, 0),
    };
    proof {
        let name = file_name(path@);
        assert(name == v@.subrange(start as int, v@.len() as int));
        if end < v.len() {
            assert(v@.subrange(start as int, end as int) == name.subrange(0, name.len() - 4));
        } else {
            assert(v@.subrange(start as int, v.len() as int) == name);
        }
        if last_separator(path@) < 0 {
            assert(v@.subrange(0, 0) == Seq::<char>::empty());
        }
    }
    ResultItem { title, subtitle: Some(subtitle), id: Some(position as u64) }
}

} // verus!
