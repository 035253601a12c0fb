use rust_cl_tools::ls::long_list_utils::{make_long_list_string, name_is_hidden, FileKind};
use rust_cl_tools::run_for_unix;
use rust_cl_tools::unix::config::{file_name, Config, Diag, DirEntry, PathKind};

fn entries(names: &[&str]) -> Vec<DirEntry> {
    names
        .iter()
        .map(|n| DirEntry { name: n.to_string(), kind: FileKind::Regular })
        .collect()
}

fn strings(items: &[&str]) -> Vec<String> {
    items.iter().map(|s| s.to_string()).collect()
}

#[test]
fn config_adds_directory_paths_and_sets_options() {
    let args: Vec<String> = vec![
        String::from("ls"),
        String::from("."),
        String::from("-l"),
        String::from(".."),
        String::from("-a"),
        String::from("/"),
    ];
    let kinds = vec![
        PathKind::Missing,
        PathKind::Directory,
        PathKind::Missing,
        PathKind::Directory,
        PathKind::Missing,
        PathKind::Directory,
    ];
    let (config, _diags) = Config::from_args(&args, &kinds);

    assert!(config.settings.list_all);

    assert!(config.directories.contains(&String::from(".")));
    assert!(config.directories.contains(&String::from("..")));
    assert!(config.directories.contains(&String::from("/")));

    assert!(!config.directories.contains(&String::from("-l")));
    assert!(!config.directories.contains(&String::from("-a")));
    assert!(!config.regular_files.contains(&String::from("-l")));
    assert!(!config.regular_files.contains(&String::from("-a")));
}

#[test]
fn no_valid_path_defaults_to_one_directory() {
    let (config, _) = Config::from_args(&Vec::<String>::new(), &Vec::<PathKind>::new());
    assert_eq!(config.directories, strings(&["."]));
    assert!(config.regular_files.is_empty());

    let (config, diags) = Config::from_args(
        &strings(&["-a", "ghost"]),
        &vec![PathKind::Missing, PathKind::Missing],
    );
    assert_eq!(config.directories, strings(&["."]));
    assert!(config.regular_files.is_empty());
    assert_eq!(diags.len(), 1);
}

#[test]
fn nonexistent_path_gives_exactly_one_diagnostic() {
    let (config, diags) = Config::from_args(&strings(&["nope"]), &vec![PathKind::Missing]);
    assert_eq!(diags.len(), 1);
    match &diags[0] {
        Diag::PathNotFound(p) => assert_eq!(p, "nope"),
        Diag::UnrecognizedOption(_) => panic!("wrong diagnostic"),
    }
    assert!(config.regular_files.is_empty());
    assert_eq!(config.directories, strings(&["."]));
}

#[test]
fn unrecognized_option_characters_are_reported_in_order() {
    let (config, diags) = Config::from_args(&strings(&["-zaq"]), &vec![PathKind::Missing]);
    assert!(config.settings.list_all);
    assert_eq!(diags.len(), 2);
    assert!(matches!(diags[0], Diag::UnrecognizedOption('z')));
    assert!(matches!(diags[1], Diag::UnrecognizedOption('q')));
}

#[test]
fn hidden_entry_shows_only_with_list_all() {
    let config = Config::default();
    let lines = config.print_dir_entries(entries(&["x", ".hidden"]));
    assert_eq!(lines, strings(&["x"]));

    let mut config = Config::default();
    config.settings.list_all = true;
    let lines = config.print_dir_entries(entries(&["x", ".hidden"]));
    assert_eq!(lines, strings(&[".hidden", "x"]));
}

#[test]
fn hidden_entry_filtering_in_empty_directory() {
    let config = Config::default();
    assert!(config.print_dir_entries(entries(&[])).is_empty());
    let lines = config.print_dir_entries(entries(&[".only"]));
    assert!(lines.is_empty());

    let mut config = Config::default();
    config.settings.list_all = true;
    assert!(config.print_dir_entries(entries(&[])).is_empty());
    let lines = config.print_dir_entries(entries(&[".only"]));
    assert_eq!(lines, strings(&[".only"]));
}

#[test]
fn directory_listing_sorts_and_filters() {
    let (config, _) = Config::from_args(&strings(&["/tmp/t"]), &vec![PathKind::Directory]);
    let lines = config.dir_lines(
        &String::from("/tmp/t"),
        entries(&["b.txt", ".secret", "a.txt"]),
    );
    assert_eq!(lines, strings(&["/tmp/t:", "a.txt", "b.txt"]));

    let (config, _) = Config::from_args(
        &strings(&["-a", "/tmp/t"]),
        &vec![PathKind::Missing, PathKind::Directory],
    );
    let lines = config.dir_lines(
        &String::from("/tmp/t"),
        entries(&["b.txt", ".secret", "a.txt"]),
    );
    assert_eq!(lines, strings(&["/tmp/t:", ".secret", "a.txt", "b.txt"]));
}

#[test]
fn regular_file_then_directory_ordering() {
    let (config, diags) = Config::from_args(
        &strings(&["notes/todo.txt", "docs"]),
        &vec![PathKind::RegularFile, PathKind::Directory],
    );
    assert!(diags.is_empty());
    let listings = vec![entries(&["z", "y"])];
    let lines = run_for_unix(&config, &listings);
    assert_eq!(lines, strings(&["todo.txt", "docs:", "y", "z"]));
}

#[test]
fn print_regular_files_uses_the_file_name_component() {
    let (config, _) = Config::from_args(
        &strings(&["/a/b/c.txt", "plain.txt"]),
        &vec![PathKind::RegularFile, PathKind::RegularFile],
    );
    assert_eq!(
        config.print_regular_files(),
        strings(&["c.txt", "plain.txt"])
    );
}

#[test]
fn file_name_component_follows_the_last_separator() {
    assert_eq!(file_name(&String::from("/a/b/c.txt")), "c.txt");
    assert_eq!(file_name(&String::from("plain")), "plain");
    assert_eq!(file_name(&String::from("dir/")), "");
    assert_eq!(file_name(&String::from("")), "");
}

#[test]
fn long_list_line_has_marker_tab_and_name() {
    assert_eq!(make_long_list_string(FileKind::Regular, "f"), "-\tf");
    assert_eq!(make_long_list_string(FileKind::Directory, "d"), "d\td");
    assert_eq!(make_long_list_string(FileKind::Symlink, "s"), "l\ts");
    assert_eq!(make_long_list_string(FileKind::Other, "o"), "\to");
}

#[test]
fn long_list_mode_formats_directory_entries() {
    let (config, _) = Config::from_args(&strings(&["-l"]), &vec![PathKind::Missing]);
    let mut items = entries(&["b", "a"]);
    items[0].kind = FileKind::Directory;
    let lines = config.print_dir_entries(items);
    assert_eq!(lines, strings(&["-\ta", "d\tb"]));
}

#[test]
fn hidden_marker_is_a_leading_dot() {
    assert!(name_is_hidden(&String::from(".hidden")));
    assert!(!name_is_hidden(&String::from("visible")));
    assert!(!name_is_hidden(&String::from("")));
    assert!(!name_is_hidden(&String::from("not.hidden")));
}

#[test]
fn settings_getter_matches_the_field() {
    let (config, _) = Config::from_args(&strings(&["-r"]), &vec![PathKind::Missing]);
    assert!(config.settings().sort().reversed());
    assert!(!config.settings().list_all);
}
