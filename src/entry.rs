//! Entries of a walk, the options that select which of them are shown, and
//! the totals reported for the shown ones.

use vstd::prelude::*;
use crate::hidden::{is_below, is_hidden, lemma_below_hidden_is_hidden, path_hidden};

verus! {

/// One file or directory met by the walk.
#[derive(Debug)]
pub struct Entry {
    /// Number of path segments between the root and this entry (0 for the root).
    pub depth: usize,
    /// Path of the entry relative to the root, segments separated by `/`.
    pub path: String,
    pub is_dir: bool,
    /// Last segment of `path`: the label that is printed.
    pub name: String,
    /// Whether `path` has a segment that starts with a dot.
    pub hidden: bool,
}

/// Which entries the tree shows besides the visible ones.
#[derive(Clone, Copy, Debug, PartialEq, Eq, Structural)]
pub struct Options {
    /// Show hidden entries as well.
    pub show_hidden: bool,
    /// Show directories only.
    pub directories_only: bool,
}

/// The counts printed under the tree.
#[derive(Clone, Copy, Debug, PartialEq, Eq, Structural)]
pub struct Totals {
    pub dirs: usize,
    pub files: usize,
}

/// Where the last segment of `p[..j]` starts.
pub open spec fn segment_start(p: Seq<char>, j: int) -> int
    decreases j,
{
    if j <= 0 {
        0
    } else if p[j - 1] == '/' {
        j
    } else {
        segment_start(p, j - 1)
    }
}

/// The last `/`-separated segment of `p`.
pub open spec fn last_segment(p: Seq<char>) -> Seq<char> {
    p.subrange(segment_start(p, p.len() as int), p.len() as int)
}

impl Entry {
    /// Name and hiddenness agree with the path.
    pub open spec fn wf(&self) -> bool {
        &&& self.name@ == last_segment(self.path@)
        &&& self.hidden == path_hidden(self.path@)
    }

    /// Makes the entry for `path` (relative to the root) at `depth`.
    pub fn new(depth: usize, path: String, is_dir: bool) -> (r: Entry)
        ensures
            r.wf(),
            r.depth == depth,
            r.path@ == path@,
            r.is_dir == is_dir,
    {
        let n = path.as_str().unicode_len();
        let mut j: usize = n;
        while j > 0 && path.as_str().get_char(j - 1) != '/'
            invariant
                n == path@.len(),
                j <= n,
                segment_start(path@, n as int) == segment_start(path@, j as int),
            decreases j,
        {
            j = j - 1;
        }
        let name = String::from_str(path.as_str().substring_char(j, n));
        let hidden = is_hidden(path.as_str());
        Entry { depth, path, is_dir, name, hidden }
    }

    /// A copy of the entry with the same contents.
    pub fn duplicate(&self) -> (r: Entry)
        ensures
            r == *self,
    {
        Entry {
            depth: self.depth,
            path: self.path.clone(),
            is_dir: self.is_dir,
            name: self.name.clone(),
            hidden: self.hidden,
        }
    }
}

impl Options {
    pub fn new(show_hidden: bool, directories_only: bool) -> (r: Options)
        ensures
            r.show_hidden == show_hidden,
            r.directories_only == directories_only,
    {
        Options { show_hidden, directories_only }
    }
}

/// Whether the tree shows `e`: never the root, hidden entries only when asked
/// for, files only when not restricted to directories.
pub open spec fn shown(e: Entry, o: Options) -> bool {
    &&& e.depth > 0
    &&& (o.show_hidden || !e.hidden)
    &&& (!o.directories_only || e.is_dir)
}

pub open spec fn shown_under(o: Options) -> spec_fn(Entry) -> bool {
    |e: Entry| shown(e, o)
}

/// The entries of `s` that the tree shows, in their order.
pub open spec fn visible(s: Seq<Entry>, o: Options) -> Seq<Entry> {
    s.filter(shown_under(o))
}

/// Each shown entry is one of the walked entries, and is shown.
pub proof fn lemma_visible_members(s: Seq<Entry>, o: Options)
    ensures
        forall|k: int|
            0 <= k < visible(s, o).len() ==> #[trigger] s.contains(visible(s, o)[k]) && shown(
                visible(s, o)[k],
                o,
            ),
{
    let v = visible(s, o);
    assert forall|k: int| 0 <= k < v.len() implies #[trigger] s.contains(v[k]) && shown(v[k], o) by {
        s.lemma_filter_pred(shown_under(o), k);
        s.lemma_filter_contains_rev(shown_under(o), v[k]);
    }
}

/// Number of directories in `s`.
pub open spec fn dir_count(s: Seq<Entry>) -> nat
    decreases s.len(),
{
    if s.len() == 0 {
        0
    } else {
        dir_count(s.drop_last()) + if s.last().is_dir {
            1nat
        } else {
            0nat
        }
    }
}

/// Number of entries of `s` that are not directories.
pub open spec fn file_count(s: Seq<Entry>) -> nat
    decreases s.len(),
{
    if s.len() == 0 {
        0
    } else {
        file_count(s.drop_last()) + if s.last().is_dir {
            0nat
        } else {
            1nat
        }
    }
}

proof fn lemma_counts_bounded(s: Seq<Entry>)
    ensures
        dir_count(s) + file_count(s) == s.len(),
    decreases s.len(),
{
    if s.len() > 0 {
        lemma_counts_bounded(s.drop_last());
    }
}

/// The entries of `entries` that the tree shows under `options`, in order.
pub fn visible_entries(entries: &Vec<Entry>, options: Options) -> (r: Vec<Entry>)
    ensures
        r@ == visible(entries@, options),
{
    let mut r: Vec<Entry> = Vec::new();
    let mut i: usize = 0;
    while i < entries.len()
        invariant
            i <= entries@.len(),
            r@ == visible(entries@.subrange(0, i as int), options),
        decreases entries@.len() - i,
    {
        let e = &entries[i];
        proof {
            reveal(Seq::filter);
            assert(entries@.subrange(0, i + 1).drop_last() == entries@.subrange(0, i as int));
            assert(entries@.subrange(0, i + 1).last() == *e);
        }
        if e.depth > 0 && (options.show_hidden || !e.hidden) && (!options.directories_only
            || e.is_dir) {
            r.push(e.duplicate());
        }
        i = i + 1;
    }
    assert(entries@.subrange(0, entries@.len() as int) == entries@);
    r
}

/// Counts the directories and the files among `shown_entries`.
pub fn count_totals(shown_entries: &Vec<Entry>) -> (r: Totals)
    ensures
        r.dirs == dir_count(shown_entries@),
        r.files == file_count(shown_entries@),
{
    let mut dirs: usize = 0;
    let mut files: usize = 0;
    let mut i: usize = 0;
    while i < shown_entries.len()
        invariant
            i <= shown_entries@.len(),
            dirs == dir_count(shown_entries@.subrange(0, i as int)),
            files == file_count(shown_entries@.subrange(0, i as int)),
        decreases shown_entries@.len() - i,
    {
        proof {
            let s = shown_entries@.subrange(0, i + 1);
            assert(s.drop_last() == shown_entries@.subrange(0, i as int));
            lemma_counts_bounded(s);
        }
        if shown_entries[i].is_dir {
            dirs = dirs + 1;
        } else {
            files = files + 1;
        }
        i = i + 1;
    }
    assert(shown_entries@.subrange(0, shown_entries@.len() as int) == shown_entries@);
    Totals { dirs, files }
}

/// Options that show neither hidden entries nor only directories.
pub open spec fn default_options() -> Options {
    Options { show_hidden: false, directories_only: false }
}

/// A directory below the root that is not hidden.
pub open spec fn visible_dir() -> spec_fn(Entry) -> bool {
    |e: Entry| e.depth > 0 && !e.hidden && e.is_dir
}

/// A file (any entry but a directory) below the root that is not hidden.
pub open spec fn visible_file() -> spec_fn(Entry) -> bool {
    |e: Entry| e.depth > 0 && !e.hidden && !e.is_dir
}

/// Under the default options, the directory total is the number of walked
/// directories below the root that are not hidden, and the file total the
/// number of walked entries below the root that are neither hidden nor
/// directories.
pub proof fn lemma_totals_count_visible(s: Seq<Entry>)
    ensures
        dir_count(visible(s, default_options())) == s.filter(visible_dir()).len(),
        file_count(visible(s, default_options())) == s.filter(visible_file()).len(),
    decreases s.len(),
{
    reveal(Seq::filter);
    if s.len() > 0 {
        lemma_totals_count_visible(s.drop_last());
        let v = visible(s.drop_last(), default_options());
        let x = s.last();
        assert(v.push(x).drop_last() == v);
    }
}

/// The root (the entry at depth 0 that the walk starts with) is never
/// shown: dropping it changes nothing that the tree shows or counts.
pub proof fn lemma_root_not_shown(s: Seq<Entry>, o: Options)
    requires
        s.len() > 0,
        s[0].depth == 0,
    ensures
        visible(s, o) == visible(s.drop_first(), o),
        forall|k: int| 0 <= k < visible(s, o).len() ==> #[trigger] visible(s, o)[k].depth > 0,
{
    assert(s == seq![s[0]] + s.drop_first());
    s.drop_first().lemma_filter_prepend(s[0], shown_under(o));
    lemma_visible_members(s, o);
    assert forall|k: int| 0 <= k < visible(s, o).len() implies #[trigger] visible(s, o)[k].depth > 0 by {
        assert(s.contains(visible(s, o)[k]));
    }
}

/// Unless hidden entries are asked for, nothing below a hidden directory is
/// shown, whatever its own name.
pub proof fn lemma_nothing_shown_below_hidden(s: Seq<Entry>, o: Options, dir: Seq<char>)
    requires
        forall|i: int| 0 <= i < s.len() ==> #[trigger] s[i].wf(),
        !o.show_hidden,
        path_hidden(dir),
    ensures
        forall|k: int|
            0 <= k < visible(s, o).len() ==> !is_below(#[trigger] visible(s, o)[k].path@, dir),
{
    lemma_visible_members(s, o);
    let v = visible(s, o);
    assert forall|k: int| 0 <= k < v.len() implies !is_below(#[trigger] v[k].path@, dir) by {
        assert(s.contains(v[k]));
        let m = choose|m: int| 0 <= m < s.len() && s[m] == v[k];
        assert(s[m].wf());
        if is_below(v[k].path@, dir) {
            lemma_below_hidden_is_hidden(dir, v[k].path@);
        }
    }
}

} // verus!
