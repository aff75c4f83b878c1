//! Which paths are hidden: those with a segment that starts with a dot.

use vstd::prelude::*;

verus! {

/// The segment of `p` that starts at `i` begins with a dot and is neither
/// `.` nor `..`.
pub open spec fn hidden_at(p: Seq<char>, i: int) -> bool {
    &&& 0 <= i < p.len()
    &&& p[i] == '.'
    &&& (i == 0 || p[i - 1] == '/')
    &&& !(i + 1 == p.len() || p[i + 1] == '/')
    &&& !(p[i + 1] == '.' && (i + 2 == p.len() || p[i + 2] == '/'))
}

/// A path is hidden when one of its `/`-separated segments, other than `.`
/// and `..`, starts with a dot.
pub open spec fn path_hidden(p: Seq<char>) -> bool {
    exists|i: int| hidden_at(p, i)
}

/// Tells whether `path` (taken relative to the root of the walk) is hidden.
pub fn is_hidden(path: &str) -> (r: bool)
    ensures
        r == path_hidden(path@),
{
    let n = path.unicode_len();
    let mut i: usize = 0;
    while i < n
        invariant
            n == path@.len(),
            i <= n,
            forall|k: int| 0 <= k < i ==> !hidden_at(path@, k),
        decreases n - i,
    {
        if path.get_char(i) == '.' && (i == 0 || path.get_char(i - 1) == '/') {
            let single = i + 1 == n || path.get_char(i + 1) == '/';
            let double = !single && path.get_char(i + 1) == '.' && (i + 2 == n || path.get_char(
                i + 2,
            ) == '/');
            if !single && !double {
                assert(hidden_at(path@, i as int));
                return true;
            }
        }
        i = i + 1;
    }
    false
}

/// Path `p` lies below directory `dir`: it is `dir`, a `/`, then more.
pub open spec fn is_below(p: Seq<char>, dir: Seq<char>) -> bool {
    &&& p.len() > dir.len()
    &&& p.subrange(0, dir.len() as int) == dir
    &&& p[dir.len() as int] == '/'
}

/// Everything below a hidden directory is hidden too, whatever its own name.
pub proof fn lemma_below_hidden_is_hidden(dir: Seq<char>, p: Seq<char>)
    requires
        path_hidden(dir),
        is_below(p, dir),
    ensures
        path_hidden(p),
{
    let i = choose|i: int| hidden_at(dir, i);
    assert(p[i] == dir[i]);
    assert(p[i + 1] == dir[i + 1]);
    if i + 2 < dir.len() {
        assert(p[i + 2] == dir[i + 2]);
    }
    if i > 0 {
        assert(p[i - 1] == dir[i - 1]);
    }
    assert(hidden_at(p, i));
}

} // verus!
