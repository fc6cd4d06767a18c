//! The filter evaluator: deciding whether one filesystem entry,
//! given as a path and a type classification, satisfies every
//! configured constraint.
//!
//! Name patterns are always held against the path's final component,
//! never against intermediate segments.  The final component is read
//! off the raw path bytes: trailing separators are ignored, a trailing
//! `.` component stands for the directory before it, and a path whose
//! last component is `..` has no name of its own.

use vstd::prelude::*;
use crate::args::Args;
use crate::args::ArgsV;
use crate::glob::glob_match;
use crate::glob::glob_matches;
use crate::glob::lower_bytes;
use crate::glob::lower_of;

verus! {

/// Byte values of the path separator and of `.`.
pub const SLASH: u8 = 47;

pub const DOT: u8 = 46;

/// The classification of one filesystem entry, read without following
/// symbolic links: the link itself is classified, not its target.
#[derive(Clone, Copy, PartialEq, Eq, Structural, Debug)]
pub enum EntryKind {
    File,
    Dir,
    Symlink,
    Other,
}

/// The run of bytes after the last separator: the whole path when no
/// separator occurs, and empty when the path ends with one.
pub open spec fn spec_name_of(path: Seq<u8>) -> Seq<u8>
    decreases path.len(),
{
    if path.len() == 0 {
        path
    } else if path.last() == SLASH {
        Seq::empty()
    } else {
        spec_name_of(path.drop_last()).push(path.last())
    }
}

/// The final component of a path, if it has one: trailing separators
/// are dropped, a trailing `.` component is dropped too, and a last
/// component of `..` (or nothing left at all) yields no name.
pub open spec fn spec_file_name(path: Seq<u8>) -> Option<Seq<u8>>
    decreases path.len(),
{
    if path.len() == 0 {
        Option::None
    } else if path.last() == SLASH {
        spec_file_name(path.drop_last())
    } else {
        let n = spec_name_of(path);
        if n == seq![DOT] {
            spec_file_name(path.drop_last())
        } else if n == seq![DOT, DOT] {
            Option::None
        } else {
            Option::Some(n)
        }
    }
}

/// When the bytes from `j` to the end hold no separator and `j` sits
/// right after one (or at the start), they are exactly the run after
/// the last separator.
proof fn lemma_name_of_run(s: Seq<u8>, j: int)
    requires
        0 <= j <= s.len(),
        forall|k: int| j <= k < s.len() ==> s[k] != SLASH,
        j == 0 || s[j - 1] == SLASH,
    ensures
        spec_name_of(s) == s.subrange(j, s.len() as int),
    decreases s.len(),
{
    if s.len() == 0 {
        assert(s.subrange(0, 0) =~= s);
    } else if j == s.len() {
        assert(s.last() == SLASH);
        assert(spec_name_of(s) =~= s.subrange(j, s.len() as int));
    } else {
        assert(s.last() != SLASH);
        lemma_name_of_run(s.drop_last(), j);
        assert(s.drop_last().subrange(j, s.len() - 1).push(s.last())
            =~= s.subrange(j, s.len() as int));
    }
}

/// Returns the final component of `path`, or `None` when the path has
/// none (see [`spec_file_name`]).
pub fn file_name_of(path: &[u8]) -> (r: Option<Vec<u8>>)
    ensures
        r.deep_view() == spec_file_name(path@),
{
    let mut end: usize = path.len();
    proof {
        assert(path@.take(end as int) =~= path@);
    }
    loop
        invariant
            end <= path@.len(),
            spec_file_name(path@.take(end as int)) == spec_file_name(path@),
        decreases end,
    {
        let ghost end_at_entry = end;
        // Drop trailing separators.
        while end > 0 && path[end - 1] == SLASH
            invariant
                end <= end_at_entry <= path@.len(),
                spec_file_name(path@.take(end as int)) == spec_file_name(path@),
            decreases end,
        {
            proof {
                assert(path@.take(end as int).drop_last() =~= path@.take(end - 1));
            }
            end = end - 1;
        }
        if end == 0 {
            return None;
        }
        // Find the start of the last component.
        let mut j: usize = end;
        while j > 0 && path[j - 1] != SLASH
            invariant
                j <= end <= path@.len(),
                forall|k: int| j <= k < end ==> path@[k] != SLASH,
            decreases j,
        {
            j = j - 1;
        }
        proof {
            lemma_name_of_run(path@.take(end as int), j as int);
        }
        let ghost n = spec_name_of(path@.take(end as int));
        proof {
            assert(n == path@.subrange(j as int, end as int));
        }
        if end - j == 1 && path[j] == DOT {
            // A `.` component stands for the directory before it.
            proof {
                assert(n =~= seq![DOT]);
                assert(path@.take(end as int).drop_last() =~= path@.take(end - 1));
            }
            end = end - 1;
        } else if end - j == 2 && path[j] == DOT && path[j + 1] == DOT {
            proof {
                assert(n =~= seq![DOT, DOT]);
            }
            return None;
        } else {
            let mut out: Vec<u8> = Vec::new();
            let mut k: usize = j;
            while k < end
                invariant
                    j <= k <= end <= path@.len(),
                    out@ =~= path@.subrange(j as int, k as int),
                decreases end - k,
            {
                out.push(path[k]);
                proof {
                    assert(out@ =~= path@.subrange(j as int, k + 1));
                }
                k = k + 1;
            }
            proof {
                assert(n != seq![DOT] && n != seq![DOT, DOT]) by {
                    if end - j == 1 {
                        assert(n.len() == 1 && n[0] == path@[j as int]);
                    } else if end - j == 2 {
                        assert(n[0] == path@[j as int] && n[1] == path@[j + 1]);
                    }
                    assert(seq![DOT].len() == 1);
                    assert(seq![DOT, DOT].len() == 2);
                }
            }
            return Some(out);
        }
    }
}

/// Whether the final component of `path` matches `pattern`; with
/// `ci`, the component is lowered first (the pattern is expected to
/// have been lowered at configuration time).  A path without a final
/// component matches nothing.
pub open spec fn spec_matches_glob_bytes(path: Seq<u8>, pattern: Seq<u8>, ci: bool) -> bool {
    match spec_file_name(path) {
        Option::Some(n) => glob_matches(if ci { lower_of(n) } else { n }, pattern),
        Option::None => false,
    }
}

/// Holds the final component of `path` against a glob `pattern`,
/// lowering the component first when `case_insensitive` is set.
pub fn matches_glob_bytes(path: &[u8], pattern_bytes: &[u8], case_insensitive: bool) -> (r: bool)
    ensures
        r == spec_matches_glob_bytes(path@, pattern_bytes@, case_insensitive),
{
    let fname = file_name_of(path);
    proof {
        match &fname {
            Option::Some(v) => {
                assert(spec_file_name(path@) == Option::Some(v@));
            },
            Option::None => {
                assert(spec_file_name(path@) == Option::None::<Seq<u8>>);
            },
        }
    }
    match fname {
        Some(name) => {
            if case_insensitive {
                let lowered = lower_bytes(name.as_slice());
                glob_match(lowered.as_slice(), pattern_bytes)
            } else {
                glob_match(name.as_slice(), pattern_bytes)
            }
        },
        None => false,
    }
}

/// Whether `kind` satisfies the configured type constraint: `'f'`
/// asks for a regular file, `'d'` for a directory, and no constraint
/// accepts everything.
pub open spec fn spec_type_ok(kind: EntryKind, type_filter: Option<char>) -> bool {
    match type_filter {
        Option::Some(t) => {
            if t == 'f' {
                kind == EntryKind::File
            } else if t == 'd' {
                kind == EntryKind::Dir
            } else {
                true
            }
        },
        Option::None => true,
    }
}

/// Whether an entry at `path`, classified as `kind`, satisfies every
/// configured constraint: the type constraint and both name patterns,
/// combined with AND semantics.
pub open spec fn spec_should_print(path: Seq<u8>, kind: EntryKind, opts: ArgsV) -> bool {
    &&& spec_type_ok(kind, opts.type_filter)
    &&& (opts.name_bytes matches Option::Some(p) ==> spec_matches_glob_bytes(path, p, false))
    &&& (opts.iname_bytes matches Option::Some(p) ==> spec_matches_glob_bytes(path, p, true))
}

/// Evaluates every configured constraint against one entry, stopping
/// at the first that fails.
pub fn should_print_with_metadata(path: &[u8], kind: EntryKind, opts: &Args) -> (r: bool)
    ensures
        r == spec_should_print(path@, kind, opts@),
{
    if let Some(t) = opts.type_filter {
        if t == 'f' && !(kind == EntryKind::File) {
            return false;
        }
        if t == 'd' && !(kind == EntryKind::Dir) {
            return false;
        }
    }
    if let Some(pattern) = &opts.name_bytes {
        if !matches_glob_bytes(path, pattern.as_slice(), false) {
            return false;
        }
    }
    if let Some(pattern) = &opts.iname_bytes {
        if !matches_glob_bytes(path, pattern.as_slice(), true) {
            return false;
        }
    }
    true
}

/// The filter as the traversal calls it on a discovered entry.
pub fn should_print(path: &[u8], kind: EntryKind, opts: &Args) -> (r: bool)
    ensures
        r == spec_should_print(path@, kind, opts@),
{
    should_print_with_metadata(path, kind, opts)
}

} // verus!
