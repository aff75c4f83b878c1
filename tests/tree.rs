use tree_rs::{emit_tree, is_hidden, parse_args, render, summary_line, visible_entries};
use tree_rs::{count_totals, Command, Entry, Options, Totals};

fn entry(depth: usize, path: &str, is_dir: bool) -> Entry {
    Entry::new(depth, path.to_string(), is_dir)
}

fn args(words: &[&str]) -> Vec<String> {
    words.iter().map(|w| w.to_string()).collect()
}

/// A root with three hidden files, two visible files and a directory `d`
/// that holds `z`, in walk order.
fn small_tree() -> Vec<Entry> {
    vec![
        entry(0, "", true),
        entry(1, ".a", false),
        entry(1, ".b", false),
        entry(1, ".c", false),
        entry(1, "d", true),
        entry(2, "d/z", false),
        entry(1, "x", false),
        entry(1, "y", false),
    ]
}

/// The tree that the walk finds under a root holding `tmpd1..3` (each with a
/// file `f`), files `tmpf1..5`, and `foo/bar` with `baz`, `qux` and `.hidden`.
fn sample_tree() -> Vec<Entry> {
    vec![
        entry(0, "", true),
        entry(1, "foo", true),
        entry(2, "foo/bar", true),
        entry(3, "foo/bar/.hidden", false),
        entry(3, "foo/bar/baz", false),
        entry(3, "foo/bar/qux", false),
        entry(1, "tmpd1", true),
        entry(2, "tmpd1/f", false),
        entry(1, "tmpd2", true),
        entry(2, "tmpd2/f", false),
        entry(1, "tmpd3", true),
        entry(2, "tmpd3/f", false),
        entry(1, "tmpf1", false),
        entry(1, "tmpf2", false),
        entry(1, "tmpf3", false),
        entry(1, "tmpf4", false),
        entry(1, "tmpf5", false),
    ]
}

#[test]
fn parse_empty_args() {
    let test_args = args(&["name/of/program"]);
    assert!(parse_args(&test_args).is_ok())
}

#[test]
fn parse_bad_arg() {
    let test_args = args(&["name/of/program", "--foo"]);
    assert!(parse_args(&test_args).is_err());

    let test_args = args(&["", "--bar"]);
    assert!(parse_args(&test_args).is_err())
}

#[test]
fn parse_good_args() {
    let valid_args = vec!["--help", "--version"];
    for a in valid_args {
        let test_args = args(&["name/of/program", a]);
        assert!(parse_args(&test_args).is_ok())
    }
}

#[test]
fn emit_tree_expected() {
    let expected_s = "5 directories, 10 files\n";
    let actual = emit_tree(&sample_tree(), Options::new(false, false));
    assert!(actual.ends_with(expected_s));
    assert_eq!(
        actual,
        "├── foo\n\
         │   └── bar\n\
         │       ├── baz\n\
         │       └── qux\n\
         ├── tmpd1\n\
         │   └── f\n\
         ├── tmpd2\n\
         │   └── f\n\
         ├── tmpd3\n\
         │   └── f\n\
         ├── tmpf1\n\
         ├── tmpf2\n\
         ├── tmpf3\n\
         ├── tmpf4\n\
         └── tmpf5\n\
         5 directories, 10 files\n"
    );
}

#[test]
fn hidden_file() {
    assert!(is_hidden(".a"), "did not match")
}

#[test]
fn file_within_hidden_dir() {
    assert!(is_hidden(".hidden/foo/bar"))
}

#[test]
fn subdir_within_hidden_dir() {
    assert!(is_hidden(".hidden/foo"))
}

#[test]
fn visible_paths_are_not_hidden() {
    assert!(!is_hidden(""));
    assert!(!is_hidden("foo/bar"));
    assert!(!is_hidden("./foo"));
    assert!(!is_hidden("../foo/bar"));
    assert!(!is_hidden("a.b/c."));
    assert!(is_hidden("foo/.bar/baz"));
    assert!(is_hidden("foo/..x"));
    assert!(is_hidden("foo/.../x"));
}

#[test]
fn entry_takes_name_and_hiddenness_from_path() {
    let e = entry(3, "foo/bar/.hidden", false);
    assert_eq!(e.name, ".hidden");
    assert!(e.hidden);
    assert_eq!(e.depth, 3);
    let e = entry(1, "tmpf1", false);
    assert_eq!(e.name, "tmpf1");
    assert!(!e.hidden);
    let e = entry(2, ".git/objects", true);
    assert_eq!(e.name, "objects");
    assert!(e.hidden);
}

#[test]
fn hidden_files_and_a_subdirectory() {
    let out = emit_tree(&small_tree(), Options::new(false, false));
    assert_eq!(out, "├── d\n│   └── z\n├── x\n└── y\n1 directories, 3 files\n");
}

#[test]
fn empty_root_gives_summary_only() {
    let entries = vec![entry(0, "", true)];
    assert_eq!(emit_tree(&entries, Options::new(false, false)), "0 directories, 0 files\n");
    assert_eq!(emit_tree(&Vec::new(), Options::new(true, true)), "0 directories, 0 files\n");
}

#[test]
fn show_hidden_lists_hidden_files() {
    let out = emit_tree(&small_tree(), Options::new(true, false));
    assert_eq!(
        out,
        "├── .a\n├── .b\n├── .c\n├── d\n│   └── z\n├── x\n└── y\n1 directories, 6 files\n"
    );
}

#[test]
fn directories_only_drops_files() {
    let out = emit_tree(&sample_tree(), Options::new(false, true));
    assert_eq!(
        out,
        "├── foo\n│   └── bar\n├── tmpd1\n├── tmpd2\n└── tmpd3\n5 directories, 0 files\n"
    );
}

#[test]
fn closed_levels_get_blank_filler() {
    let entries = vec![
        entry(0, "", true),
        entry(1, "a", true),
        entry(2, "a/b", true),
        entry(3, "a/b/c", false),
        entry(2, "a/e", false),
        entry(1, "z", true),
        entry(2, "z/y", true),
        entry(3, "z/y/x", false),
    ];
    let out = emit_tree(&entries, Options::new(false, false));
    assert_eq!(
        out,
        "├── a\n│   ├── b\n│   │   └── c\n│   └── e\n└── z\n    └── y\n        └── x\n4 directories, 3 files\n"
    );
}

#[test]
fn last_connector_only_before_shallower_entry() {
    let entries = vec![
        entry(1, "a", false),
        entry(1, "b", true),
        entry(2, "b/c", false),
    ];
    let out = render(&entries);
    assert_eq!(out, "├── a\n└── b\n    └── c\n1 directories, 2 files\n");
    for line in out.lines().take(3) {
        let middle = line.contains("├── ");
        let last = line.contains("└── ");
        assert!(middle != last);
    }
}

#[test]
fn rendering_twice_gives_same_text() {
    let first = emit_tree(&sample_tree(), Options::new(false, false));
    let second = emit_tree(&sample_tree(), Options::new(false, false));
    assert_eq!(first, second);
}

#[test]
fn root_is_neither_drawn_nor_counted() {
    let with_root = emit_tree(&small_tree(), Options::new(true, false));
    let mut without = small_tree();
    without.remove(0);
    assert_eq!(with_root, emit_tree(&without, Options::new(true, false)));
    let shown = visible_entries(&small_tree(), Options::new(true, true));
    assert_eq!(shown.len(), 1);
    assert_eq!(shown[0].path, "d");
}

#[test]
fn file_under_hidden_directory_is_not_shown() {
    let entries = vec![
        entry(0, "", true),
        entry(1, ".cache", true),
        entry(2, ".cache/data", false),
        entry(1, "src", true),
    ];
    assert_eq!(
        emit_tree(&entries, Options::new(false, false)),
        "└── src\n1 directories, 0 files\n"
    );
}

#[test]
fn totals_count_shown_entries() {
    let shown = visible_entries(&sample_tree(), Options::new(false, false));
    let t = count_totals(&shown);
    assert_eq!(t.dirs, 5);
    assert_eq!(t.files, 10);
}

#[test]
fn summary_line_in_decimal() {
    assert_eq!(summary_line(Totals { dirs: 0, files: 7 }), "0 directories, 7 files\n");
    assert_eq!(
        summary_line(Totals { dirs: 120, files: 3045 }),
        "120 directories, 3045 files\n"
    );
    assert_eq!(
        summary_line(Totals { dirs: usize::MAX, files: 10 }),
        format!("{} directories, 10 files\n", usize::MAX)
    );
}

#[test]
fn parse_flags_set_options() {
    assert_eq!(parse_args(&args(&["tree"])), Ok(Command::Run(Options::new(false, false))));
    assert_eq!(
        parse_args(&args(&["tree", "-a", "-l"])),
        Ok(Command::Run(Options::new(true, false)))
    );
    assert_eq!(
        parse_args(&args(&["tree", "-d", "-a"])),
        Ok(Command::Run(Options::new(true, true)))
    );
    assert_eq!(parse_args(&args(&["tree", "-a", "--version"])), Ok(Command::Version));
    assert_eq!(parse_args(&args(&["tree", "--help", "--foo"])), Ok(Command::Help));
    assert_eq!(parse_args(&args(&["tree", "-x", "--help"])), Err("-x".to_string()));
}
