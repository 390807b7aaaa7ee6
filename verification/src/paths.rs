//! Path text handling.
//!
//! The library treats a filesystem path as plain text with `/` as the
//! separator.  These spec functions fix what the crate means by a path's
//! file name, stem, extension and parent, mirroring the usual component
//! rules: trailing separators are ignored, the file name is the last
//! segment, the extension is what follows the last dot of the file name
//! (none when the dot is missing or leads the name), and the parent is
//! everything before the last separator.

use vstd::prelude::*;

use crate::strutil::{chars_to_string, push_char, to_chars};

verus! {

/// `s` with every trailing `/` removed.
pub open spec fn strip_slashes(s: Seq<char>) -> Seq<char>
    decreases s.len(),
{
    if s.len() > 0 && s.last() == '/' {
        strip_slashes(s.drop_last())
    } else {
        s
    }
}

/// The suffix of `s` after its last `/`, or all of `s` when it has none.
pub open spec fn last_segment(s: Seq<char>) -> Seq<char>
    decreases s.len(),
{
    if s.len() == 0 {
        s
    } else if s.last() == '/' {
        Seq::empty()
    } else {
        last_segment(s.drop_last()).push(s.last())
    }
}

/// The index of the last `.` in `s`, or `-1` when it has none.
pub open spec fn last_dot(s: Seq<char>) -> int
    decreases s.len(),
{
    if s.len() == 0 {
        -1
    } else if s.last() == '.' {
        s.len() - 1
    } else {
        last_dot(s.drop_last())
    }
}

/// The file name of a path: its last segment once trailing separators are
/// dropped; none when that segment is empty.
pub open spec fn spec_file_name(path: Seq<char>) -> Option<Seq<char>> {
    let f = last_segment(strip_slashes(path));
    if f.len() == 0 {
        None
    } else {
        Some(f)
    }
}

/// The extension: what follows the last dot of the file name, provided that
/// dot is not the name's first character.
pub open spec fn spec_extension(path: Seq<char>) -> Option<Seq<char>> {
    match spec_file_name(path) {
        None => None,
        Some(f) => {
            let d = last_dot(f);
            if d > 0 {
                Some(f.subrange(d + 1, f.len() as int))
            } else {
                None
            }
        },
    }
}

/// The stem: the file name up to its last dot, or the whole name when the
/// dot is missing or leads the name.
pub open spec fn spec_file_stem(path: Seq<char>) -> Option<Seq<char>> {
    match spec_file_name(path) {
        None => None,
        Some(f) => {
            let d = last_dot(f);
            if d > 0 {
                Some(f.subrange(0, d))
            } else {
                Some(f)
            }
        },
    }
}

/// The parent of a path: the text before the last separator, `/` itself for
/// a top-level absolute path, the empty path for a bare segment, and none
/// for an empty or root path.
pub open spec fn spec_parent(path: Seq<char>) -> Option<Seq<char>> {
    let t = strip_slashes(path);
    if t.len() == 0 {
        None
    } else {
        let j = last_slash(t);
        if j < 0 {
            Some(Seq::empty())
        } else if j == 0 {
            Some(seq!['/'])
        } else {
            Some(t.subrange(0, j))
        }
    }
}

/// The index of the last `/` in `s`, or `-1` when it has none.
pub open spec fn last_slash(s: Seq<char>) -> int
    decreases s.len(),
{
    if s.len() == 0 {
        -1
    } else if s.last() == '/' {
        s.len() - 1
    } else {
        last_slash(s.drop_last())
    }
}

/// Joining a path and a relative component: a `/` goes between them unless
/// the left side is empty or already ends in one.
pub open spec fn spec_join(a: Seq<char>, b: Seq<char>) -> Seq<char> {
    if a.len() == 0 {
        b
    } else if a.last() == '/' {
        a + b
    } else {
        a + seq!['/'] + b
    }
}

// ---------------------------------------------------------------------------
// Executable scanning
// ---------------------------------------------------------------------------

/// The end of the path text once trailing separators are dropped.
pub fn find_strip_end(v: &Vec<char>) -> (e: usize)
    ensures
        e <= v@.len(),
        strip_slashes(v@) =~= v@.subrange(0, e as int),
        e == 0 || v@[e - 1] != '/',
{
    let mut e = v.len();
    proof {
        assert(v@.subrange(0, e as int) =~= v@);
    }
    while e > 0 && v[e - 1] == '/'
        invariant
            e <= v@.len(),
            strip_slashes(v@) == strip_slashes(v@.subrange(0, e as int)),
        decreases e,
    {
        proof {
            assert(v@.subrange(0, e as int).drop_last() =~= v@.subrange(0, e - 1 as int));
        }
        e = e - 1;
    }
    e
}

/// The start of the last segment of `v[0 .. e]`.
pub fn find_segment_start(v: &Vec<char>, e: usize) -> (s: usize)
    requires
        e <= v@.len(),
    ensures
        s <= e,
        last_segment(v@.subrange(0, e as int)) =~= v@.subrange(s as int, e as int),
        forall|j: int| s <= j < e ==> v@[j] != '/',
{
    let mut s = e;
    proof {
        assert(last_segment(v@.subrange(0, e as int)) + v@.subrange(e as int, e as int)
            =~= last_segment(v@.subrange(0, e as int)));
    }
    while s > 0 && v[s - 1] != '/'
        invariant
            s <= e <= v@.len(),
            last_segment(v@.subrange(0, e as int)) == last_segment(v@.subrange(0, s as int))
                + v@.subrange(s as int, e as int),
            forall|j: int| s <= j < e ==> v@[j] != '/',
        decreases s,
    {
        proof {
            let pre = v@.subrange(0, s as int);
            assert(pre.drop_last() =~= v@.subrange(0, s - 1 as int));
            assert(last_segment(v@.subrange(0, s - 1 as int)) + v@.subrange(s - 1 as int, e as int)
                =~= last_segment(v@.subrange(0, s - 1 as int)).push(v@[s - 1]) + v@.subrange(
                s as int,
                e as int,
            ));
        }
        s = s - 1;
    }
    proof {
        if s > 0 {
            assert(v@.subrange(0, s as int).last() == '/');
        }
        assert(last_segment(v@.subrange(0, s as int)) =~= Seq::<char>::empty());
        assert(last_segment(v@.subrange(0, e as int)) =~= v@.subrange(s as int, e as int));
    }
    s
}

/// The absolute index of the last `.` strictly inside `v[s .. e]`, if any.
pub fn find_last_dot(v: &Vec<char>, s: usize, e: usize) -> (r: Option<usize>)
    requires
        s <= e <= v@.len(),
    ensures
        match r {
            Some(d) => s <= d < e && last_dot(v@.subrange(s as int, e as int)) == d - s,
            None => last_dot(v@.subrange(s as int, e as int)) == -1,
        },
{
    let mut j = e;
    while j > s
        invariant
            s <= j <= e <= v@.len(),
            last_dot(v@.subrange(s as int, e as int)) == last_dot(v@.subrange(s as int, j as int)),
        decreases j,
    {
        proof {
            assert(v@.subrange(s as int, j as int).drop_last() =~= v@.subrange(
                s as int,
                j - 1 as int,
            ));
        }
        if v[j - 1] == '.' {
            return Some(j - 1);
        }
        j = j - 1;
    }
    None
}

/// The parent of a path string, following [`spec_parent`].
pub fn parent_of(path: &str) -> (r: Option<String>)
    ensures
        match r {
            Some(p) => spec_parent(path@) == Some(p@),
            None => spec_parent(path@) is None,
        },
{
    let v = to_chars(path);
    let e = find_strip_end(&v);
    if e == 0 {
        return None;
    }
    match find_last_slash(&v, e) {
        None => Some(String::new()),
        Some(j) => {
            if j == 0 {
                let mut root = String::new();
                push_char(&mut root, '/');
                proof {
                    assert(root@ =~= seq!['/']);
                }
                Some(root)
            } else {
                let mut pv: Vec<char> = Vec::new();
                let mut k: usize = 0;
                while k < j
                    invariant
                        k <= j <= v@.len(),
                        pv@ =~= v@.subrange(0, k as int),
                    decreases j - k,
                {
                    pv.push(v[k]);
                    proof {
                        assert(pv@ =~= v@.subrange(0, k + 1 as int));
                    }
                    k = k + 1;
                }
                proof {
                    assert(strip_slashes(v@).subrange(0, j as int) =~= v@.subrange(0, j as int));
                }
                Some(chars_to_string(&pv))
            }
        },
    }
}

/// The absolute index of the last `/` in `v[0 .. e]`, if any.
pub fn find_last_slash(v: &Vec<char>, e: usize) -> (r: Option<usize>)
    requires
        e <= v@.len(),
    ensures
        match r {
            Some(d) => d < e && last_slash(v@.subrange(0, e as int)) == d,
            None => last_slash(v@.subrange(0, e as int)) == -1,
        },
{
    let mut j = e;
    while j > 0
        invariant
            j <= e <= v@.len(),
            last_slash(v@.subrange(0, e as int)) == last_slash(v@.subrange(0, j as int)),
        decreases j,
    {
        proof {
            assert(v@.subrange(0, j as int).drop_last() =~= v@.subrange(0, j - 1 as int));
        }
        if v[j - 1] == '/' {
            return Some(j - 1);
        }
        j = j - 1;
    }
    None
}

} // verus!
