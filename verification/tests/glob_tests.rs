use findcore::glob::glob_match;
use findcore::glob::lower_bytes;

#[test]
fn exact_literal_match() {
    assert!(glob_match(b"hello.txt", b"hello.txt"));
    assert!(!glob_match(b"hello.txt", b"hello.txc"));
    assert!(!glob_match(b"hello", b"hello.txt"));
    assert!(!glob_match(b"hello.txt", b"hello"));
}

#[test]
fn empty_pattern_matches_only_empty_name() {
    assert!(glob_match(b"", b""));
    assert!(!glob_match(b"a", b""));
}

#[test]
fn star_matches_everything() {
    assert!(glob_match(b"", b"*"));
    assert!(glob_match(b"a", b"*"));
    assert!(glob_match(b"anything at all", b"*"));
    assert!(glob_match(b"*", b"*"));
}

#[test]
fn question_matches_exactly_one_byte() {
    assert!(!glob_match(b"", b"?"));
    assert!(glob_match(b"x", b"?"));
    assert!(glob_match(b"?", b"?"));
    assert!(!glob_match(b"xy", b"?"));
}

#[test]
fn star_prefix_and_suffix() {
    assert!(glob_match(b"notes.txt", b"*.txt"));
    assert!(!glob_match(b"notes.txt", b"*.md"));
    assert!(glob_match(b"notes.txt", b"notes.*"));
    assert!(glob_match(b"abc", b"a*c"));
    assert!(!glob_match(b"abd", b"a*c"));
    assert!(glob_match(b".txt", b"*.txt"));
}

#[test]
fn star_needs_backtracking() {
    assert!(glob_match(b"aXbXc", b"*X*c"));
    assert!(glob_match(b"xxy", b"*xy"));
    assert!(glob_match(b"abcbc", b"a*bc"));
    assert!(!glob_match(b"abcb", b"a*bc"));
    assert!(glob_match(b"aaa", b"*a*a*"));
}

#[test]
fn mixed_wildcards() {
    assert!(glob_match(b"abc", b"a?c"));
    assert!(!glob_match(b"ac", b"a?c"));
    assert!(glob_match(b"file1.rs", b"file?.rs"));
    assert!(!glob_match(b"file10.rs", b"file?.rs"));
    assert!(glob_match(b"file10.rs", b"file?*.rs"));
}

#[test]
fn matcher_is_deterministic() {
    let first = glob_match(b"notes.txt", b"*.t?t");
    let second = glob_match(b"notes.txt", b"*.t?t");
    assert_eq!(first, second);
    assert!(first);
}

#[test]
fn lowering_folds_ascii_only() {
    assert_eq!(lower_bytes(b"MiXeD-09_Z").as_slice(), b"mixed-09_z");
    assert_eq!(lower_bytes(b"").as_slice(), b"");
    assert_eq!(lower_bytes(b"already lower").as_slice(), b"already lower");
}

#[test]
fn lowering_is_idempotent() {
    let once = lower_bytes(b"AbC.TXT");
    let twice = lower_bytes(once.as_slice());
    assert_eq!(once, twice);
}

#[test]
fn case_insensitive_equals_lowering_both() {
    let name = b"README.TXT";
    let pattern = b"readme.*";
    let lowered_name = lower_bytes(name);
    let lowered_pattern = lower_bytes(pattern);
    assert_eq!(
        glob_match(lowered_name.as_slice(), lowered_pattern.as_slice()),
        true,
    );
}
