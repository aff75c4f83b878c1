//! Turns the shown entries of a walk into the text of the tree.

use vstd::prelude::*;
use crate::entry::{
    count_totals, dir_count, file_count, shown, visible, visible_entries, Entry, Options, Totals,
};

verus! {

/// Connector of an entry that has more siblings after it.
pub const MIDDLE_BRANCH: &'static str = "├── ";

/// Connector of the last entry among its siblings.
pub const LAST_BRANCH: &'static str = "└── ";

/// Filler for an ancestor level whose branch goes on below.
pub const OPEN_INDENT: &'static str = "│   ";

/// Filler for an ancestor level whose last branch has been drawn.
pub const CLOSED_INDENT: &'static str = "    ";

/// Scanning `s` from position `j`, the first entry at depth `d` or shallower is
/// shallower than `d`, or there is none: the branch at depth `d` that is open
/// just before `j` has no sibling to come.
pub open spec fn last_from(s: Seq<Entry>, d: int, j: int) -> bool
    decreases s.len() - j,
{
    if !(0 <= j < s.len()) {
        true
    } else if (s[j].depth as int) < d {
        true
    } else if s[j].depth as int == d {
        false
    } else {
        last_from(s, d, j + 1)
    }
}

/// Entry `i` of `s` is the last among its siblings.
pub open spec fn last_sibling(s: Seq<Entry>, i: int) -> bool {
    last_from(s, s[i].depth as int, i + 1)
}

pub open spec fn glyph(last: bool) -> Seq<char> {
    if last {
        LAST_BRANCH@
    } else {
        MIDDLE_BRANCH@
    }
}

pub open spec fn filler(closed: bool) -> Seq<char> {
    if closed {
        CLOSED_INDENT@
    } else {
        OPEN_INDENT@
    }
}

/// Fillers for the levels `1 .. k`, where `closed(l)` tells whether level `l`
/// has drawn its last branch.
pub open spec fn indent(closed: spec_fn(int) -> bool, k: int) -> Seq<char>
    decreases k,
{
    if k <= 1 {
        seq![]
    } else {
        indent(closed, k - 1) + filler(closed(k - 1))
    }
}

/// The line of `e`, given for each level whether its last branch is drawn
/// (at the entry's own level: whether the entry is that last branch). The
/// root has no line.
pub open spec fn branch_line(e: Entry, closed: spec_fn(int) -> bool) -> Seq<char> {
    if e.depth == 0 {
        seq![]
    } else {
        indent(closed, e.depth as int) + glyph(closed(e.depth as int)) + e.name@ + seq!['\n']
    }
}

/// The line of entry `i` of `s`.
pub open spec fn line(s: Seq<Entry>, i: int) -> Seq<char> {
    branch_line(s[i], |d: int| last_from(s, d, i + 1))
}

/// The lines of the first `n` entries of `s`.
pub open spec fn lines_upto(s: Seq<Entry>, n: int) -> Seq<char>
    decreases n,
{
    if n <= 0 {
        seq![]
    } else {
        lines_upto(s, n - 1) + line(s, n - 1)
    }
}

pub open spec fn digit_char(d: nat) -> char {
    if d == 0 {
        '0'
    } else if d == 1 {
        '1'
    } else if d == 2 {
        '2'
    } else if d == 3 {
        '3'
    } else if d == 4 {
        '4'
    } else if d == 5 {
        '5'
    } else if d == 6 {
        '6'
    } else if d == 7 {
        '7'
    } else if d == 8 {
        '8'
    } else {
        '9'
    }
}

/// `n` in decimal, without leading zeros.
pub open spec fn decimal(n: nat) -> Seq<char>
    decreases n,
{
    if n < 10 {
        seq![digit_char(n)]
    } else {
        decimal(n / 10) + seq![digit_char(n % 10)]
    }
}

/// The line that ends the tree.
pub open spec fn summary(dirs: nat, files: nat) -> Seq<char> {
    decimal(dirs) + " directories, "@ + decimal(files) + " files\n"@
}

/// The text of the tree whose shown entries are `s`.
pub open spec fn tree_text(s: Seq<Entry>) -> Seq<char> {
    lines_upto(s, s.len() as int) + summary(dir_count(s), file_count(s))
}

/// The text of the tree over the walked `entries` under `o`.
pub open spec fn tree_text_of(entries: Seq<Entry>, o: Options) -> Seq<char> {
    tree_text(visible(entries, o))
}

/// Depths small enough that a flag per level fits in memory.
pub open spec fn depths_fit(s: Seq<Entry>) -> bool {
    forall|i: int| 0 <= i < s.len() ==> s[i].depth < usize::MAX
}

fn digit_str(d: usize) -> (r: &'static str)
    requires
        d < 10,
    ensures
        r@ == seq![digit_char(d as nat)],
{
    proof {
        reveal_strlit("0");
        reveal_strlit("1");
        reveal_strlit("2");
        reveal_strlit("3");
        reveal_strlit("4");
        reveal_strlit("5");
        reveal_strlit("6");
        reveal_strlit("7");
        reveal_strlit("8");
        reveal_strlit("9");
    }
    if d == 0 {
        "0"
    } else if d == 1 {
        "1"
    } else if d == 2 {
        "2"
    } else if d == 3 {
        "3"
    } else if d == 4 {
        "4"
    } else if d == 5 {
        "5"
    } else if d == 6 {
        "6"
    } else if d == 7 {
        "7"
    } else if d == 8 {
        "8"
    } else {
        assert(seq!['9'] =~= "9"@);
        "9"
    }
}

fn push_decimal(out: &mut String, n: usize)
    ensures
        final(out)@ == old(out)@ + decimal(n as nat),
    decreases n,
{
    if n >= 10 {
        push_decimal(out, n / 10);
    }
    out.append(digit_str(n % 10));
    proof {
        if n < 10 {
            assert(n % 10 == n);
        }
        assert(final(out)@ =~= old(out)@ + decimal(n as nat));
    }
}

/// The line that ends the tree: `"<dirs> directories, <files> files\n"`.
pub fn summary_line(totals: Totals) -> (r: String)
    ensures
        r@ == summary(totals.dirs as nat, totals.files as nat),
{
    let mut r = String::new();
    push_decimal(&mut r, totals.dirs);
    r.append(" directories, ");
    push_decimal(&mut r, totals.files);
    r.append(" files\n");
    assert(r@ =~= summary(totals.dirs as nat, totals.files as nat));
    r
}

/// Whether level `d` has drawn its last branch, where `flags` holds one flag
/// per level and the levels past its end are all closed.
pub open spec fn flag_of(flags: Seq<bool>, d: int) -> bool {
    if 0 <= d < flags.len() {
        flags[d]
    } else {
        true
    }
}

fn flag_at(flags: &Vec<bool>, d: usize) -> (r: bool)
    ensures
        r == flag_of(flags@, d as int),
{
    if d < flags.len() {
        flags[d]
    } else {
        true
    }
}

/// The line of `e` under the per-level flags `flags`.
fn entry_line(e: &Entry, flags: &Vec<bool>) -> (r: String)
    ensures
        r@ == branch_line(*e, |d: int| flag_of(flags@, d)),
{
    let ghost closed = |d: int| flag_of(flags@, d);
    let mut r = String::new();
    if e.depth == 0 {
        return r;
    }
    let mut k: usize = 1;
    while k < e.depth
        invariant
            1 <= k <= e.depth,
            closed == (|d: int| flag_of(flags@, d)),
            r@ == indent(closed, k as int),
        decreases e.depth - k,
    {
        if flag_at(flags, k) {
            r.append(CLOSED_INDENT);
        } else {
            r.append(OPEN_INDENT);
        }
        assert(indent(closed, k + 1) == indent(closed, k as int) + filler(closed(k as int)));
        k = k + 1;
    }
    if flag_at(flags, e.depth) {
        r.append(LAST_BRANCH);
    } else {
        r.append(MIDDLE_BRANCH);
    }
    r.append(e.name.as_str());
    r.append("\n");
    proof {
        reveal_strlit("\n");
    }
    assert(r@ =~= branch_line(*e, closed));
    r
}

/// Renders the tree whose shown entries are `shown_entries`, in walk order:
/// one line per entry below the root, then the summary line.
pub fn render(shown_entries: &Vec<Entry>) -> (r: String)
    requires
        depths_fit(shown_entries@),
    ensures
        r@ == tree_text(shown_entries@),
{
    let ghost s = shown_entries@;
    let n = shown_entries.len();
    let mut flags: Vec<bool> = Vec::new();
    let mut rev: Vec<String> = Vec::new();
    let mut i: usize = n;
    while i > 0
        invariant
            s == shown_entries@,
            n == s.len(),
            i <= n,
            depths_fit(s),
            forall|d: int| 0 <= d < flags@.len() ==> flags@[d] == last_from(s, d, i as int),
            forall|d: int|
                #![trigger last_from(s, d, i as int)]
                !(0 <= d < flags@.len()) ==> last_from(s, d, i as int),
            rev@.len() == n - i,
            forall|k: int| 0 <= k < n - i ==> rev@[k]@ == line(s, n - 1 - k),
        decreases i,
    {
        let j = i - 1;
        let e = &shown_entries[j];
        let l = entry_line(e, &flags);
        proof {
            let by_flags = |d: int| flag_of(flags@, d);
            let by_walk = |d: int| last_from(s, d, j + 1);
            assert forall|d: int| #[trigger] flag_of(flags@, d) == last_from(s, d, j + 1) by {
                if !(0 <= d < flags@.len()) {
                    assert(last_from(s, d, i as int));
                }
            }
            assert(by_flags =~= by_walk);
        }
        rev.push(l);
        let depth = e.depth;
        let ghost before = flags@;
        if flags.len() > depth {
            flags.truncate(depth);
        }
        while flags.len() < depth
            invariant
                flags@.len() <= depth,
                flags@.len() == depth || flags@.len() >= before.len(),
                forall|d: int| 0 <= d < flags@.len() ==> flags@[d] == flag_of(before, d),
            decreases depth - flags@.len(),
        {
            flags.push(true);
        }
        flags.push(false);
        proof {
            assert forall|d: int| 0 <= d < flags@.len() implies flags@[d] == last_from(s, d, j as int) by {
                if d < depth {
                    if !(0 <= d < before.len()) {
                        assert(last_from(s, d, i as int));
                    }
                    assert(flags@[d] == flag_of(before, d));
                }
            }
            assert forall|d: int| !(0 <= d < flags@.len()) implies last_from(s, d, j as int) by {
                if d < 0 {
                    assert(last_from(s, d, i as int));
                }
            }
            assert(n - 1 - (n - j - 1) == j);
        }
        i = j;
    }
    let mut out = String::new();
    let mut k: usize = n;
    while k > 0
        invariant
            k <= n,
            n == s.len(),
            rev@.len() == n,
            forall|m: int| 0 <= m < n ==> rev@[m]@ == line(s, n - 1 - m),
            out@ == lines_upto(s, n - k),
        decreases k,
    {
        k = k - 1;
        out.append(rev[k].as_str());
        assert(out@ == lines_upto(s, n - k));
    }
    let totals = count_totals(shown_entries);
    out.append(summary_line(totals).as_str());
    out
}

/// Renders the tree over the walked `entries` (in walk order, root first)
/// under `options`.
pub fn emit_tree(entries: &Vec<Entry>, options: Options) -> (r: String)
    requires
        depths_fit(entries@),
    ensures
        r@ == tree_text_of(entries@, options),
{
    let shown_entries = visible_entries(entries, options);
    proof {
        let v = shown_entries@;
        crate::entry::lemma_visible_members(entries@, options);
        assert forall|i: int| 0 <= i < v.len() implies v[i].depth < usize::MAX by {
            assert(entries@.contains(v[i]));
        }
    }
    render(&shown_entries)
}

/// No entry at depth `d` comes in `s[j..]` before one shallower than `d`.
pub open spec fn no_sibling_from(s: Seq<Entry>, d: int, j: int) -> bool {
    forall|m: int|
        j <= m < s.len() && #[trigger] s[m].depth == d ==> exists|k: int|
            j <= k < m && (#[trigger] s[k].depth as int) < d
}

proof fn lemma_last_from_no_sibling(s: Seq<Entry>, d: int, j: int)
    requires
        0 <= j,
    ensures
        last_from(s, d, j) == no_sibling_from(s, d, j),
    decreases s.len() - j,
{
    if j < s.len() {
        if (s[j].depth as int) < d {
            assert forall|m: int| j <= m < s.len() && #[trigger] s[m].depth == d implies exists|
                k: int,
            | j <= k < m && (#[trigger] s[k].depth as int) < d by {
                assert((s[j].depth as int) < d);
            }
        } else if s[j].depth as int == d {
            assert(!no_sibling_from(s, d, j)) by {
                assert(s[j].depth == d);
            }
        } else {
            lemma_last_from_no_sibling(s, d, j + 1);
            if no_sibling_from(s, d, j + 1) {
                assert forall|m: int| j <= m < s.len() && #[trigger] s[m].depth == d implies exists|
                    k: int,
                | j <= k < m && (#[trigger] s[k].depth as int) < d by {
                    let k = choose|k: int| j + 1 <= k < m && (#[trigger] s[k].depth as int) < d;
                    assert((s[k].depth as int) < d);
                }
            } else {
                let m = choose|m: int|
                    !(j + 1 <= m < s.len() && #[trigger] s[m].depth == d ==> exists|k: int|
                        j + 1 <= k < m && (#[trigger] s[k].depth as int) < d);
                assert(!(exists|k: int| j <= k < m && (#[trigger] s[k].depth as int) < d)) by {
                    if exists|k: int| j <= k < m && (#[trigger] s[k].depth as int) < d {
                        let k = choose|k: int| j <= k < m && (#[trigger] s[k].depth as int) < d;
                        assert(k != j);
                    }
                }
            }
        }
    }
}

proof fn lemma_indent_len(closed: spec_fn(int) -> bool, k: int)
    requires
        k >= 1,
    ensures
        indent(closed, k).len() == 4 * (k - 1),
    decreases k,
{
    reveal_strlit("    ");
    reveal_strlit("│   ");
    if k > 1 {
        lemma_indent_len(closed, k - 1);
    }
}

/// Every line below the root carries exactly one of the two connectors,
/// right after the fillers of its ancestor levels: the last one exactly when
/// no entry at the same depth follows before one at a shallower depth. So
/// when the next entry is no deeper than this one, the entry gets the last
/// connector exactly when the next entry is shallower or there is none.
pub proof fn lemma_one_connector(s: Seq<Entry>, i: int)
    requires
        0 <= i < s.len(),
        s[i].depth > 0,
    ensures
        MIDDLE_BRANCH@ != LAST_BRANCH@,
        line(s, i).subrange(4 * (s[i].depth - 1), 4 * (s[i].depth as int)) == if last_sibling(
            s,
            i,
        ) {
            LAST_BRANCH@
        } else {
            MIDDLE_BRANCH@
        },
        last_sibling(s, i) == no_sibling_from(s, s[i].depth as int, i + 1),
        i + 1 == s.len() || s[i + 1].depth <= s[i].depth ==> (last_sibling(s, i) <==> (i + 1
            == s.len() || s[i + 1].depth < s[i].depth)),
{
    reveal_strlit("├── ");
    reveal_strlit("└── ");
    assert(MIDDLE_BRANCH@[0] != LAST_BRANCH@[0]);
    let closed = |d: int| last_from(s, d, i + 1);
    let d = s[i].depth as int;
    lemma_indent_len(closed, d);
    let pre = indent(closed, d);
    let g = glyph(closed(d));
    assert(line(s, i) == pre + g + s[i].name@ + seq!['\n']);
    assert(line(s, i).subrange(4 * (d - 1), 4 * d) =~= g);
    lemma_last_from_no_sibling(s, d, i + 1);
}

/// Walks with the same entries, field by field in the views.
pub open spec fn same_walk(a: Seq<Entry>, b: Seq<Entry>) -> bool {
    &&& a.len() == b.len()
    &&& forall|i: int| 0 <= i < a.len() ==> #[trigger] same_entry(a[i], b[i])
}

pub open spec fn same_entry(x: Entry, y: Entry) -> bool {
    &&& x.depth == y.depth
    &&& x.path@ == y.path@
    &&& x.is_dir == y.is_dir
    &&& x.name@ == y.name@
    &&& x.hidden == y.hidden
}

/// Dropping the root from the walk leaves the text of the tree as it is:
/// the root is neither drawn nor counted.
pub proof fn lemma_root_not_in_text(s: Seq<Entry>, o: Options)
    requires
        s.len() > 0,
        s[0].depth == 0,
    ensures
        tree_text_of(s, o) == tree_text_of(s.drop_first(), o),
{
    crate::entry::lemma_root_not_shown(s, o);
}

proof fn lemma_same_walk_visible(a: Seq<Entry>, b: Seq<Entry>, o: Options)
    requires
        same_walk(a, b),
    ensures
        same_walk(visible(a, o), visible(b, o)),
    decreases a.len(),
{
    reveal(Seq::filter);
    if a.len() > 0 {
        assert(same_entry(a[a.len() - 1], b[b.len() - 1]));
        assert(same_walk(a.drop_last(), b.drop_last())) by {
            assert forall|i: int| 0 <= i < a.len() - 1 implies #[trigger] same_entry(
                a.drop_last()[i],
                b.drop_last()[i],
            ) by {
                assert(same_entry(a[i], b[i]));
            }
        }
        lemma_same_walk_visible(a.drop_last(), b.drop_last(), o);
        let va = visible(a.drop_last(), o);
        let vb = visible(b.drop_last(), o);
        if shown(a.last(), o) {
            assert forall|i: int| 0 <= i < va.len() + 1 implies #[trigger] same_entry(
                va.push(a.last())[i],
                vb.push(b.last())[i],
            ) by {
                if i < va.len() {
                    assert(same_entry(va[i], vb[i]));
                }
            }
        }
    }
}

proof fn lemma_same_walk_last_from(a: Seq<Entry>, b: Seq<Entry>, d: int, j: int)
    requires
        same_walk(a, b),
    ensures
        last_from(a, d, j) == last_from(b, d, j),
    decreases a.len() - j,
{
    if 0 <= j < a.len() {
        assert(same_entry(a[j], b[j]));
        lemma_same_walk_last_from(a, b, d, j + 1);
    }
}

proof fn lemma_same_walk_lines(a: Seq<Entry>, b: Seq<Entry>, n: int)
    requires
        same_walk(a, b),
        n <= a.len(),
    ensures
        lines_upto(a, n) == lines_upto(b, n),
    decreases n,
{
    if n > 0 {
        lemma_same_walk_lines(a, b, n - 1);
        let i = n - 1;
        let ca = |d: int| last_from(a, d, i + 1);
        let cb = |d: int| last_from(b, d, i + 1);
        assert forall|d: int| #[trigger] ca(d) == cb(d) by {
            lemma_same_walk_last_from(a, b, d, i + 1);
        }
        assert(ca =~= cb);
        assert(same_entry(a[i], b[i]));
    }
}

proof fn lemma_same_walk_counts(a: Seq<Entry>, b: Seq<Entry>)
    requires
        same_walk(a, b),
    ensures
        dir_count(a) == dir_count(b),
        file_count(a) == file_count(b),
    decreases a.len(),
{
    if a.len() > 0 {
        assert(same_entry(a[a.len() - 1], b[b.len() - 1]));
        assert(same_walk(a.drop_last(), b.drop_last())) by {
            assert forall|i: int| 0 <= i < a.len() - 1 implies #[trigger] same_entry(
                a.drop_last()[i],
                b.drop_last()[i],
            ) by {
                assert(same_entry(a[i], b[i]));
            }
        }
        lemma_same_walk_counts(a.drop_last(), b.drop_last());
    }
}

/// The text depends only on what the walk found: walking an unchanged tree
/// again, and rendering it under the same options, gives the same text.
pub proof fn lemma_same_walk_same_text(a: Seq<Entry>, b: Seq<Entry>, o: Options)
    requires
        same_walk(a, b),
    ensures
        tree_text_of(a, o) == tree_text_of(b, o),
{
    lemma_same_walk_visible(a, b, o);
    let va = visible(a, o);
    let vb = visible(b, o);
    lemma_same_walk_lines(va, vb, va.len() as int);
    lemma_same_walk_counts(va, vb);
}

} // verus!
