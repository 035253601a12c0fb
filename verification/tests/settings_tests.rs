use rust_cl_tools::unix::config::config_utils::{Settings, Sort, SortType};

#[test]
fn default_settings_have_everything_off() {
    let s = Settings::default();
    assert!(!s.list_all);
    assert!(!s.long_list);
    assert!(!s.sort.reversed);
    assert!(matches!(s.sort.sort_type, SortType::Alphabetic));
}

#[test]
fn separate_and_combined_tokens_give_identical_settings() {
    let mut combined = Settings::default();
    let unrec = combined.try_apply_settings(&vec!['a', 'l', 'r']);
    assert!(unrec.is_empty());

    let mut separate = Settings::default();
    assert!(separate.try_apply_settings(&vec!['a']).is_empty());
    assert!(separate.try_apply_settings(&vec!['l']).is_empty());
    assert!(separate.try_apply_settings(&vec!['r']).is_empty());

    assert_eq!(combined, separate);
    assert!(combined.list_all);
    assert!(combined.long_list);
    assert!(combined.sort.reversed);
}

#[test]
fn unrecognized_characters_do_not_stop_later_flags() {
    let mut s = Settings::default();
    let unrec = s.try_apply_settings(&vec!['x', 'a', 'q', 'l']);
    assert_eq!(unrec, vec!['x', 'q']);
    assert!(s.list_all);
    assert!(s.long_list);
    assert!(!s.sort.reversed);
}

#[test]
fn unrecognized_characters_leave_settings_unchanged() {
    let mut s = Settings::default();
    let unrec = s.try_apply_settings(&vec!['z']);
    assert_eq!(unrec, vec!['z']);
    assert_eq!(s, Settings::default());
}

#[test]
fn sort_reverse_sets_the_flag_and_keeps_the_kind() {
    let mut sort = Sort::default();
    assert!(!sort.reversed());
    sort.reverse();
    assert!(sort.reversed());
    assert!(matches!(sort.sort_type(), SortType::Alphabetic));
}

#[test]
fn settings_sort_getter_returns_the_active_sort() {
    let mut s = Settings::default();
    s.try_apply_settings(&vec!['r']);
    assert!(s.sort().reversed());
}
