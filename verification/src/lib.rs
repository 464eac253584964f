//! Recursive disk-usage accounting over a snapshot of a directory tree.
//!
//! The crate sums file lengths bottom-up, decides which entries are worth
//! reporting under a depth limit and a size threshold, and renders the report
//! lines. Reading the file system and writing the report are left to the
//! caller.
//!
//! What lies in between is verified, with one exception: the entries of a
//! directory are handed to rayon's worker pool, and that rayon returns one
//! result for each entry, in the order of the entries, is taken on trust (see
//! `parallel`). Everything proved of a walk rests on that one assumption.

pub mod args;
pub mod format;
pub mod laws;
pub mod options;
mod parallel;
pub mod report;
pub mod tree;
pub mod walk;

pub use args::{parse_args, parse_int_arg, parse_signed_arg, ParseError};
pub use format::format_size;
pub use options::Options;
pub use report::{display_path, write_lines, ReportLine};
pub use tree::{Directory, Entry};
pub use walk::{display_dir, walk, Report};
