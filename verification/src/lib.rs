//! A small directory-listing library in the style of the Unix `ls` command.
//!
//! The crate holds the logic of the command: turning command-line tokens into
//! option settings and classified path lists, ordering directory entries,
//! filtering hidden entries, and rendering the output lines. All filesystem
//! probing and printing stays with the caller, which hands the library plain
//! values (tokens, probe outcomes, entry names) and prints the lines it
//! returns.

pub mod ls;
pub mod unix;

use vstd::prelude::*;

use crate::unix::config::{all_dir_lines, regular_file_lines, Config, DirEntry};

verus! {

/// The stdout lines of one run, for an already-classified configuration and
/// the entries the caller read for each of its directories, in order: the
/// regular-file lines first, then each directory's header and listing.
pub fn run_for_unix(config: &Config, listings: &Vec<Vec<DirEntry>>) -> (lines: Vec<String>)
    requires
        listings@.len() == config.directories@.len(),
    ensures
        lines.deep_view() == regular_file_lines(config.regular_files.deep_view())
            + all_dir_lines(config.settings, config.directories.deep_view(), listings.deep_view()),
{
    let mut lines = config.print_regular_files();
    let mut dirs = config.print_directories(listings);
    let ghost files_v = lines.deep_view();
    let ghost dirs_v = dirs.deep_view();
    lines.append(&mut dirs);
    proof {
        assert(lines.deep_view() =~= files_v + dirs_v);
    }
    lines
}

} // verus!
