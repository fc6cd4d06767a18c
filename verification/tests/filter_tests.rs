use findcore::args::Args;
use findcore::filter::file_name_of;
use findcore::filter::matches_glob_bytes;
use findcore::filter::should_print;
use findcore::filter::should_print_with_metadata;
use findcore::filter::EntryKind;

fn no_filters() -> Args {
    Args { name: None, name_bytes: None, iname: None, iname_bytes: None, type_filter: None }
}

#[test]
fn file_name_of_plain_paths() {
    assert_eq!(file_name_of(b"notes.txt"), Some(b"notes.txt".to_vec()));
    assert_eq!(file_name_of(b"/tmp/notes.txt"), Some(b"notes.txt".to_vec()));
    assert_eq!(file_name_of(b"a/b/c"), Some(b"c".to_vec()));
}

#[test]
fn file_name_of_ignores_trailing_separators() {
    assert_eq!(file_name_of(b"dir/"), Some(b"dir".to_vec()));
    assert_eq!(file_name_of(b"a//"), Some(b"a".to_vec()));
}

#[test]
fn file_name_of_dot_components() {
    assert_eq!(file_name_of(b"."), None);
    assert_eq!(file_name_of(b"./"), None);
    assert_eq!(file_name_of(b"dir/."), Some(b"dir".to_vec()));
    assert_eq!(file_name_of(b"./a"), Some(b"a".to_vec()));
}

#[test]
fn file_name_of_parent_components() {
    assert_eq!(file_name_of(b".."), None);
    assert_eq!(file_name_of(b"a/.."), None);
    assert_eq!(file_name_of(b"a/../b"), Some(b"b".to_vec()));
    assert_eq!(file_name_of(b"..."), Some(b"...".to_vec()));
}

#[test]
fn file_name_of_empty_and_root() {
    assert_eq!(file_name_of(b""), None);
    assert_eq!(file_name_of(b"/"), None);
}

#[test]
fn glob_on_final_component_only() {
    assert!(matches_glob_bytes(b"/tmp/sub/notes.txt", b"*.txt", false));
    assert!(!matches_glob_bytes(b"/tmp/notes.txt/sub", b"*.txt", false));
    assert!(!matches_glob_bytes(b"/", b"*", false));
}

#[test]
fn glob_case_insensitive_lowers_the_name() {
    assert!(matches_glob_bytes(b"/tmp/Notes.TXT", b"*.txt", true));
    assert!(!matches_glob_bytes(b"/tmp/Notes.TXT", b"*.txt", false));
    assert!(matches_glob_bytes(b"/tmp/notes.txt", b"*.txt", true));
}

#[test]
fn type_filter_alone() {
    let mut opts = no_filters();
    opts.type_filter = Some('f');
    assert!(should_print(b"/x/file", EntryKind::File, &opts));
    assert!(!should_print(b"/x/dir", EntryKind::Dir, &opts));
    assert!(!should_print(b"/x/link", EntryKind::Symlink, &opts));
    opts.type_filter = Some('d');
    assert!(!should_print(b"/x/file", EntryKind::File, &opts));
    assert!(should_print(b"/x/dir", EntryKind::Dir, &opts));
}

#[test]
fn no_filters_accept_everything() {
    let opts = no_filters();
    assert!(should_print(b"/x/file", EntryKind::File, &opts));
    assert!(should_print(b"/x/dir", EntryKind::Dir, &opts));
    assert!(should_print(b"/x/other", EntryKind::Other, &opts));
}

#[test]
fn name_and_type_are_and_combined() {
    let mut opts = no_filters();
    opts.type_filter = Some('f');
    opts.name_bytes = Some(b"*.txt".to_vec());
    assert!(should_print_with_metadata(b"/x/a.txt", EntryKind::File, &opts));
    assert!(!should_print_with_metadata(b"/x/a.txt", EntryKind::Dir, &opts));
    assert!(!should_print_with_metadata(b"/x/a.md", EntryKind::File, &opts));
}

#[test]
fn name_and_iname_both_apply() {
    let mut opts = no_filters();
    opts.name_bytes = Some(b"*.TXT".to_vec());
    opts.iname_bytes = Some(b"a*".to_vec());
    assert!(should_print_with_metadata(b"/x/A.TXT", EntryKind::File, &opts));
    assert!(!should_print_with_metadata(b"/x/A.txt", EntryKind::File, &opts));
    assert!(!should_print_with_metadata(b"/x/B.TXT", EntryKind::File, &opts));
}

#[test]
fn nameless_path_fails_name_filters() {
    let mut opts = no_filters();
    opts.name_bytes = Some(b"*".to_vec());
    assert!(!should_print_with_metadata(b"..", EntryKind::Dir, &opts));
    assert!(!should_print_with_metadata(b"/", EntryKind::Dir, &opts));
    let opts = no_filters();
    assert!(should_print_with_metadata(b"..", EntryKind::Dir, &opts));
}
