//! The directory that holds a file, from its path.

use vstd::prelude::*;

use crate::text;

verus! {

/// Length of what comes before the components of the path `p`: a root `/`, or a `.`
/// that starts a relative path on its own.
pub open spec fn start_len(p: Seq<char>) -> int {
    if p.len() > 0 && p[0] == '/' {
        1
    } else if p.len() > 0 && p[0] == '.' && (p.len() == 1 || p[1] == '/') {
        1
    } else {
        0
    }
}

/// The end of `p[..e]` once its trailing empty and `.` components, after the first `pre`
/// characters, are taken off.
pub open spec fn trim_back(p: Seq<char>, pre: int, e: int) -> int
    decreases e - pre,
{
    if e <= pre || pre < 0 || e > p.len() {
        e
    } else {
        let k = text::last_index(p.subrange(pre, e), '/');
        let comp = p.subrange(pre + k + 1, e);
        if comp.len() == 0 || comp == seq!['.'] {
            if k < 0 {
                pre
            } else {
                proof {
                    text::lemma_last_index_bounds(p.subrange(pre, e), '/');
                }
                trim_back(p, pre, pre + k)
            }
        } else {
            e
        }
    }
}

/// The end of the parent of the path `p`, as `Path::parent` gives it: the path without
/// its last component and the separators and `.` components before it; `None` where
/// the path has no component but its root or leading `.`.
pub open spec fn parent_end(p: Seq<char>) -> Option<int> {
    let pre = start_len(p);
    let e1 = trim_back(p, pre, p.len() as int);
    if e1 <= pre {
        None
    } else {
        let k = text::last_index(p.subrange(pre, e1), '/');
        Some(trim_back(p, pre, if k < 0 { pre } else { pre + k }))
    }
}

/// The directory to create before writing a file at `p`: its parent, where it has one
/// that is not empty.
pub open spec fn writable_parent_of(p: Seq<char>) -> Option<Seq<char>> {
    match parent_end(p) {
        Some(e) => if e > 0 {
            Some(p.take(e))
        } else {
            None
        },
        None => None,
    }
}

fn trim_back_exec(v: &Vec<char>, pre: usize, e: usize) -> (r: usize)
    requires
        pre <= e <= v@.len(),
    ensures
        pre <= r <= e,
        r as int == trim_back(v@, pre as int, e as int),
{
    let mut end = e;
    loop
        invariant
            pre <= end <= e <= v@.len(),
            trim_back(v@, pre as int, e as int) == trim_back(v@, pre as int, end as int),
        decreases end,
    {
        if end <= pre {
            return end;
        }
        let ghost body = v@.subrange(pre as int, end as int);
        let k = text::find_last(v, pre, end, '/');
        let start = match k {
            Some(i) => i + 1,
            None => pre,
        };
        let ghost comp = v@.subrange(start as int, end as int);
        assert(comp == v@.subrange(pre + text::last_index(body, '/') + 1, end as int));
        let is_dot = end - start == 1 && v[start] == '.';
        proof {
            if comp == seq!['.'] {
                assert(comp[0] == v@[start as int]);
            }
            if is_dot {
                assert(comp =~= seq!['.']);
            }
        }
        if start == end || is_dot {
            match k {
                None => {
                    return pre;
                },
                Some(i) => {
                    end = i;
                },
            }
        } else {
            return end;
        }
    }
}

/// The directory to create before writing a file at `path`: its parent, where it has
/// one that is not empty.
pub fn writable_parent(path: &str) -> (r: Option<String>)
    ensures
        match r {
            Some(d) => writable_parent_of(path@) == Some(d@),
            None => writable_parent_of(path@) is None,
        },
{
    let v = text::chars_of(path);
    let n = v.len();
    let pre: usize = if n > 0 && v[0] == '/' {
        1
    } else if n > 0 && v[0] == '.' && (n == 1 || v[1] == '/') {
        1
    } else {
        0
    };
    let e1 = trim_back_exec(&v, pre, n);
    if e1 <= pre {
        return None;
    }
    let k = text::find_last(&v, pre, e1, '/');
    let r = match k {
        Some(i) => i,
        None => pre,
    };
    let q = trim_back_exec(&v, pre, r);
    if q == 0 {
        return None;
    }
    assert(v@.take(q as int) =~= v@.subrange(0, q as int));
    Some(text::string_of(&v, 0, q))
}

} // verus!
