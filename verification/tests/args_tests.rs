use findcore::args::parse_args;

fn words(ws: &[&str]) -> Vec<String> {
    ws.iter().map(|w| w.to_string()).collect()
}

#[test]
fn empty_args_set_nothing() {
    let (opts, bad) = parse_args(&words(&[]));
    assert!(opts.name.is_none());
    assert!(opts.name_bytes.is_none());
    assert!(opts.iname.is_none());
    assert!(opts.iname_bytes.is_none());
    assert!(opts.type_filter.is_none());
    assert!(bad.is_empty());
}

#[test]
fn name_pattern_is_stored_verbatim() {
    let (opts, bad) = parse_args(&words(&["-name", "*.txt"]));
    assert_eq!(opts.name.as_deref(), Some("*.txt"));
    assert_eq!(opts.name_bytes.as_deref(), Some(b"*.txt".as_slice()));
    assert!(opts.iname.is_none());
    assert!(bad.is_empty());
}

#[test]
fn iname_pattern_is_lowered_once() {
    let (opts, _) = parse_args(&words(&["-iname", "*.TXT"]));
    assert_eq!(opts.iname.as_deref(), Some("*.TXT"));
    assert_eq!(opts.iname_bytes.as_deref(), Some(b"*.txt".as_slice()));
}

#[test]
fn type_file_and_dir() {
    let (opts, bad) = parse_args(&words(&["-type", "f"]));
    assert_eq!(opts.type_filter, Some('f'));
    assert!(bad.is_empty());
    let (opts, bad) = parse_args(&words(&["-type", "d"]));
    assert_eq!(opts.type_filter, Some('d'));
    assert!(bad.is_empty());
}

#[test]
fn type_takes_the_whole_word() {
    let (opts, bad) = parse_args(&words(&["-type", "directory"]));
    assert!(opts.type_filter.is_none());
    assert_eq!(bad, words(&["directory"]));
    let (opts, bad) = parse_args(&words(&["-type", "foo"]));
    assert!(opts.type_filter.is_none());
    assert_eq!(bad, words(&["foo"]));
}

#[test]
fn invalid_type_is_reported_and_leaves_constraint() {
    let (opts, bad) = parse_args(&words(&["-type", "x"]));
    assert!(opts.type_filter.is_none());
    assert_eq!(bad, words(&["x"]));

    let (opts, bad) = parse_args(&words(&["-type", "f", "-type", "x"]));
    assert_eq!(opts.type_filter, Some('f'));
    assert_eq!(bad, words(&["x"]));

    let (opts, bad) = parse_args(&words(&["-type", ""]));
    assert!(opts.type_filter.is_none());
    assert_eq!(bad, words(&[""]));
}

#[test]
fn last_occurrence_wins() {
    let (opts, _) = parse_args(&words(&["-name", "a", "-name", "b"]));
    assert_eq!(opts.name.as_deref(), Some("b"));
    assert_eq!(opts.name_bytes.as_deref(), Some(b"b".as_slice()));
    let (opts, _) = parse_args(&words(&["-type", "f", "-type", "d"]));
    assert_eq!(opts.type_filter, Some('d'));
}

#[test]
fn flag_without_value_is_ignored() {
    let (opts, bad) = parse_args(&words(&["-name"]));
    assert!(opts.name.is_none());
    assert!(bad.is_empty());
    let (opts, _) = parse_args(&words(&["-iname"]));
    assert!(opts.iname.is_none());
}

#[test]
fn unknown_words_are_skipped() {
    let (opts, bad) = parse_args(&words(&["stray", "-name", "*.rs", "more"]));
    assert_eq!(opts.name.as_deref(), Some("*.rs"));
    assert!(bad.is_empty());
}

#[test]
fn all_three_flags_together() {
    let (opts, bad) = parse_args(&words(&["-name", "*.txt", "-iname", "READ*", "-type", "f"]));
    assert_eq!(opts.name.as_deref(), Some("*.txt"));
    assert_eq!(opts.iname.as_deref(), Some("READ*"));
    assert_eq!(opts.iname_bytes.as_deref(), Some(b"read*".as_slice()));
    assert_eq!(opts.type_filter, Some('f'));
    assert!(bad.is_empty());
}

#[test]
fn flag_value_looking_like_flag_is_consumed() {
    // The word after `-name` is taken as the pattern even if it looks
    // like a flag.
    let (opts, _) = parse_args(&words(&["-name", "-type", "f"]));
    assert_eq!(opts.name.as_deref(), Some("-type"));
    assert!(opts.type_filter.is_none());
}
