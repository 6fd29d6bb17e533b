//! A small grep: literal pattern matching over the lines of a text, a
//! single-file search and a recursive directory search, with the decisions
//! kept apart from the filesystem so that all of them are verified.

pub mod cli;
pub mod encoding;
pub mod laws;
pub mod matching;
pub mod order;
pub mod paths;
pub mod search;
pub mod text;
pub mod tree;

pub use cli::{run, Exit, Run, Step};
pub use matching::{matching_lines, matching_lines_ignoring_case};
pub use search::{
    search_file, search_file_ignoring_case, search_path, search_path_ignoring_case, walk_files,
    Entry, EntryKind, Progress, Reply, Request, Search, Walk,
};
