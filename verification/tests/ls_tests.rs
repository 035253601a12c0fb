use rust_cl_tools::ls::config::{Config, PathInfo};
use rust_cl_tools::ls::long_list_utils::FileKind;
use rust_cl_tools::ls::process_entry;
use rust_cl_tools::ls::run;

fn dir(names: &[&str]) -> PathInfo {
    PathInfo::Directory(names.iter().map(|n| n.to_string()).collect())
}

#[test]
fn parse_config_adds_directory_paths_and_sets_options() {
    let args: Vec<String> = vec![
        String::from("ls"),
        String::from("."),
        String::from("-l"),
        String::from(".."),
        String::from("-a"),
        String::from("~"),
    ];
    let infos = vec![
        PathInfo::Missing,
        dir(&[]),
        PathInfo::Missing,
        dir(&[]),
        PathInfo::Missing,
        PathInfo::Missing,
    ];
    let (config, _unrecognized) = Config::parse_args(&args, &infos, &dir(&[]));

    assert!(config.list_all);

    let path_name_vec = config.path_name_vec;
    assert!(path_name_vec.contains(&String::from(".")));
    assert!(path_name_vec.contains(&String::from("..")));
    assert!(path_name_vec.contains(&String::from("~")));

    assert!(!path_name_vec.contains(&String::from("-l")));
    assert!(!path_name_vec.contains(&String::from("-a")));
}

#[test]
fn parse_args_classifies_by_probe_outcome() {
    let args: Vec<String> = vec![
        String::from("ls"),
        String::from("notes.txt"),
        String::from("docs"),
        String::from("ghost"),
    ];
    let infos = vec![
        PathInfo::Missing,
        PathInfo::RegularFile,
        dir(&["a.txt", "b.txt"]),
        PathInfo::Missing,
    ];
    let (config, _) = Config::parse_args(&args, &infos, &dir(&[]));

    assert_eq!(config.file_vec.len(), 1);
    assert_eq!(config.file_vec[0].file_str, "notes.txt");
    assert_eq!(config.dir_vec.len(), 1);
    assert_eq!(config.dir_vec[0].dir_str, "docs");
    assert_eq!(
        config.dir_vec[0].file_name_vec,
        vec![String::from("a.txt"), String::from("b.txt")]
    );
    assert_eq!(config.error_vec.len(), 1);
    assert_eq!(
        config.error_vec[0].error_str,
        "could not find file or directory: ghost"
    );
}

#[test]
fn parse_args_defaults_to_cwd_when_nothing_valid() {
    let args: Vec<String> = vec![String::from("ls"), String::from("-a")];
    let infos = vec![PathInfo::Missing, PathInfo::Missing];
    let (config, _) = Config::parse_args(&args, &infos, &dir(&["x"]));

    assert_eq!(config.dir_vec.len(), 1);
    assert_eq!(config.dir_vec[0].dir_str, ".");
    assert_eq!(config.dir_vec[0].file_name_vec, vec![String::from("x")]);
    assert!(config.file_vec.is_empty());
}

#[test]
fn set_option_recognizes_list_all_and_long_list() {
    let (mut config, _) = Config::parse_args(
        &vec![String::from("ls")],
        &vec![PathInfo::Missing],
        &dir(&[]),
    );
    config.list_all = false;
    config.long_list = false;
    assert!(config.set_option('a'));
    assert!(config.list_all);
    assert!(config.set_option('l'));
    assert!(config.long_list);
    assert!(!config.set_option('r'));
    assert!(!config.set_option('z'));
    assert!(config.list_all);
    assert!(config.long_list);
}

#[test]
fn run_returns_stdout_and_diagnostics_separately() {
    let args: Vec<String> = vec![
        String::from("ls"),
        String::from("gone"),
        String::from("dir/f.txt"),
        String::from("d"),
    ];
    let infos = vec![
        PathInfo::Missing,
        PathInfo::Missing,
        PathInfo::RegularFile,
        dir(&["two", ".h", "one"]),
    ];
    let (lines, errors, unrecognized) = run(&args, &infos, &dir(&[]));
    assert_eq!(
        lines,
        vec![
            String::from("f.txt"),
            String::from("d:"),
            String::from("one"),
            String::from("two"),
        ]
    );
    assert_eq!(
        errors,
        vec![String::from("could not find file or directory: gone")]
    );
    assert!(unrecognized.is_empty());
}

#[test]
fn print_files_shows_file_name_components() {
    let args: Vec<String> = vec![String::from("ls"), String::from("/a/b/c.txt")];
    let infos = vec![PathInfo::Missing, PathInfo::RegularFile];
    let (config, _) = Config::parse_args(&args, &infos, &dir(&[]));
    assert_eq!(config.print_files(), vec![String::from("c.txt")]);
}

#[test]
fn print_dirs_sorts_and_filters_entries() {
    let args: Vec<String> = vec![String::from("ls"), String::from("d")];
    let infos = vec![PathInfo::Missing, dir(&["b", ".hidden", "A", "a"])];

    let (config, _) = Config::parse_args(&args, &infos, &dir(&[]));
    assert_eq!(
        config.print_dirs(),
        vec![
            String::from("d:"),
            String::from("A"),
            String::from("a"),
            String::from("b"),
        ]
    );

    let args_all: Vec<String> = vec![String::from("ls"), String::from("-a"), String::from("d")];
    let infos_all = vec![
        PathInfo::Missing,
        PathInfo::Missing,
        dir(&["b", ".hidden", "A", "a"]),
    ];
    let (config, _) = Config::parse_args(&args_all, &infos_all, &dir(&[]));
    assert_eq!(
        config.print_dirs(),
        vec![
            String::from("d:"),
            String::from(".hidden"),
            String::from("A"),
            String::from("a"),
            String::from("b"),
        ]
    );
}

#[test]
fn process_entry_skips_hidden_without_list_all() {
    let (config, _) = Config::parse_args(
        &vec![String::from("ls")],
        &vec![PathInfo::Missing],
        &dir(&[]),
    );
    let line = process_entry(&String::from(".secret"), FileKind::Regular, &config);
    assert!(line.is_none());
    let line = process_entry(&String::from("plain"), FileKind::Regular, &config);
    assert_eq!(line, Some(String::from("plain")));
}

#[test]
fn process_entry_long_list_line() {
    let (mut config, _) = Config::parse_args(
        &vec![String::from("ls")],
        &vec![PathInfo::Missing],
        &dir(&[]),
    );
    config.long_list = true;
    config.list_all = true;
    let line = process_entry(&String::from(".secret"), FileKind::Directory, &config);
    assert_eq!(line, Some(String::from("d\t.secret")));
}
