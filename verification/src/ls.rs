//! An earlier, simpler flavour of the listing command: arguments are
//! partitioned into options and path names, each path name is classified by
//! the probe outcome the caller supplies, and the collected lines are
//! rendered without sorting.

pub mod config;
pub mod file;
pub mod long_list_utils;

use vstd::prelude::*;

use crate::ls::config::{
    dir_lines_of, parse_args_model, unrecognized_of_tokens, Config, LsClassified, PathInfo,
};
use crate::ls::long_list_utils::{
    entry_line_of, is_hidden, make_long_list_string, name_is_hidden, FileKind,
};
use crate::unix::config::regular_file_lines;

verus! {

/// The stdout lines of one run: the collected file names, then each
/// collected directory's header and visible entry lines.
pub open spec fn run_lines_of(m: LsClassified) -> Seq<Seq<char>> {
    regular_file_lines(m.files) + dir_lines_of(m.list_all, m.dirs)
}

/// Lists the path arguments: scans the argument tokens after the program
/// name, with the probe outcome the caller supplies for each. Returns the
/// stdout lines, then the diagnostic lines for path arguments that named
/// nothing, then the unrecognized option characters; the caller reports the
/// latter two on the error stream.
pub fn run(args: &Vec<String>, infos: &Vec<PathInfo>, cwd_info: &PathInfo) -> (r: (
    Vec<String>,
    Vec<String>,
    Vec<char>,
))
    requires
        args@.len() >= 1,
        infos@.len() == args@.len(),
    ensures
        ({
            let m = parse_args_model(
                args.deep_view().skip(1),
                infos.deep_view().skip(1),
                cwd_info@,
            );
            &&& r.0.deep_view() == run_lines_of(m)
            &&& r.1.deep_view() == m.errors
        }),
        r.2@ == unrecognized_of_tokens(args.deep_view().skip(1)),
{
    let (config, unrecognized) = Config::parse_args(args, infos, cwd_info);
    let errors = config.print_errors();
    let mut lines = config.print_files();
    let mut dirs = config.print_dirs();
    let ghost files_v = lines.deep_view();
    let ghost dirs_v = dirs.deep_view();
    lines.append(&mut dirs);
    proof {
        assert(lines.deep_view() =~= files_v + dirs_v);
    }
    (lines, errors, unrecognized)
}

/// The line displayed for one directory entry, or nothing when the entry is
/// hidden and the list-all option is off: the long-format line when the
/// long-list option is on, the bare name otherwise.
pub fn process_entry(file_name: &String, kind: FileKind, config: &Config) -> (line: Option<
    String,
>)
    ensures
        (line is Some) == (config.list_all || !is_hidden(file_name@)),
        line matches Some(l) ==> l@ == entry_line_of(config.long_list, kind, file_name@),
{
    if !config.list_all && name_is_hidden(file_name) {
        None
    } else if config.long_list {
        Some(make_long_list_string(kind, file_name.as_str()))
    } else {
        Some(file_name.clone())
    }
}

} // verus!
