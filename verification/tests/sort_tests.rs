use rust_cl_tools::ls::long_list_utils::FileKind;
use rust_cl_tools::unix::config::config_utils::{Sort, SortType};
use rust_cl_tools::unix::config::{lex_leq_names, name_in_order, Config, DirEntry};

fn entries(names: &[&str]) -> Vec<DirEntry> {
    names
        .iter()
        .map(|n| DirEntry { name: n.to_string(), kind: FileKind::Regular })
        .collect()
}

fn names(entries: &[DirEntry]) -> Vec<String> {
    entries.iter().map(|e| e.name.clone()).collect()
}

#[test]
fn alphabetic_sort_orders_by_raw_codepoint() {
    let config = Config::default();
    let sorted = config.get_sorted_dir_entries(entries(&["b", "A", "a", "B"]));
    assert_eq!(names(&sorted), vec!["A", "B", "a", "b"]);
}

#[test]
fn reversed_sort_inverts_the_comparison() {
    let mut config = Config::default();
    config.settings.sort.reversed = true;
    let sorted = config.get_sorted_dir_entries(entries(&["b", "A", "a", "B"]));
    assert_eq!(names(&sorted), vec!["b", "a", "B", "A"]);
}

#[test]
fn comparator_is_inverted_end_to_end() {
    let ascending = Sort { sort_type: SortType::Alphabetic, reversed: false };
    let descending = Sort { sort_type: SortType::Alphabetic, reversed: true };
    let a = String::from("A");
    let b = String::from("b");
    assert!(name_in_order(&ascending, &a, &b));
    assert!(!name_in_order(&ascending, &b, &a));
    assert!(!name_in_order(&descending, &a, &b));
    assert!(name_in_order(&descending, &b, &a));
}

#[test]
fn lexicographic_comparison_on_names() {
    assert!(lex_leq_names("abc", "abd"));
    assert!(!lex_leq_names("abd", "abc"));
    assert!(lex_leq_names("ab", "abc"));
    assert!(!lex_leq_names("abc", "ab"));
    assert!(lex_leq_names("", "a"));
    assert!(lex_leq_names("same", "same"));
    assert!(lex_leq_names(".secret", "a"));
}

#[test]
fn creation_time_kind_performs_no_reordering() {
    let mut config = Config::default();
    config.settings.sort.sort_type = SortType::CreationTime;
    let sorted = config.get_sorted_dir_entries(entries(&["b", "a", "c"]));
    assert_eq!(names(&sorted), vec!["b", "a", "c"]);
}

#[test]
fn sort_keeps_every_entry() {
    let config = Config::default();
    let mut input = entries(&["z", "m", "z", "a"]);
    config.sort_dir_entries(&mut input);
    assert_eq!(names(&input), vec!["a", "m", "z", "z"]);
}
