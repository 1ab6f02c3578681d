//! Finds files under a set of folders, filtered by extension and by the
//! date of last modification, with the parsing of the user's inputs and the
//! decisions of the command line and window front ends.
//!
//! The library decides; reading folders, the environment and the clock is
//! left to its caller, which hands in what it read.
use vstd::prelude::*;

pub mod cli;
pub mod date;
pub mod error;
pub mod paths;
pub mod search;
pub mod text;
pub mod ui;

pub use cli::{parse_cli, parse_cli_with};
pub use date::{DATE_FORMAT, Timestamp, parse_date};
pub use error::CliError;
pub use search::{Config, EntryKind, FileEntry, find_files, parse_extensions, parse_folders};

verus! {

} // verus!
