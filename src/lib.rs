//! Renders a directory tree as indented text with box-drawing connectors,
//! followed by a count of the directories and files shown.

pub mod args;
pub mod entry;
pub mod hidden;
pub mod render;

pub use args::{parse_args, Command};
pub use entry::{count_totals, visible_entries, Entry, Options, Totals};
pub use hidden::is_hidden;
pub use render::{emit_tree, render, summary_line};
