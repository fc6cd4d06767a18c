//! Glob-pattern matching over raw byte sequences.
//!
//! A pattern is a byte sequence in which `*` matches any run of bytes
//! (including the empty run), `?` matches exactly one byte, and every
//! other byte matches itself.  Matching is always byte-exact; callers
//! that want case-insensitive semantics lowercase both operands first
//! (see [`lower_bytes`]).

use vstd::prelude::*;

verus! {

/// Byte values of the two wildcard markers and of the ASCII letters
/// that case folding moves.
pub const STAR: u8 = 42;

pub const QMARK: u8 = 63;

pub const UPPER_A: u8 = 65;

pub const UPPER_Z: u8 = 90;

/// What it means for `name` to match the glob `pattern`: an empty
/// pattern matches only the empty name; a leading `*` matches either
/// no bytes or one byte (and then tries the same `*` again); a leading
/// `?` or an equal literal byte consumes one byte from each side.
pub open spec fn glob_matches(name: Seq<u8>, pattern: Seq<u8>) -> bool
    decreases name.len() + pattern.len(),
{
    if pattern.len() == 0 {
        name.len() == 0
    } else if pattern[0] == STAR {
        ||| glob_matches(name, pattern.skip(1))
        ||| (name.len() > 0 && glob_matches(name.skip(1), pattern))
    } else {
        &&& name.len() > 0
        &&& (pattern[0] == QMARK || pattern[0] == name[0])
        &&& glob_matches(name.skip(1), pattern.skip(1))
    }
}

/// Backtracking matcher on the suffixes `name[ni..]` and `pattern[pi..]`.
pub fn glob_match_impl(name: &[u8], pattern: &[u8], ni: usize, pi: usize) -> (r: bool)
    requires
        ni <= name@.len(),
        pi <= pattern@.len(),
    ensures
        r == glob_matches(name@.skip(ni as int), pattern@.skip(pi as int)),
    decreases name@.len() - ni, pattern@.len() - pi,
{
    let ghost ns = name@.skip(ni as int);
    let ghost ps = pattern@.skip(pi as int);
    proof {
        if pi < pattern@.len() {
            assert(ps[0] == pattern@[pi as int]);
            assert(pattern@.skip(pi as int + 1) =~= ps.skip(1));
        }
        if ni < name@.len() {
            assert(ns[0] == name@[ni as int]);
            assert(name@.skip(ni as int + 1) =~= ns.skip(1));
        }
    }

    if pi == pattern.len() && ni == name.len() {
        return true;
    }
    if pi == pattern.len() {
        return false;
    }

    if pattern[pi] == STAR {
        if glob_match_impl(name, pattern, ni, pi + 1) {
            return true;
        }
        if ni < name.len() && glob_match_impl(name, pattern, ni + 1, pi) {
            return true;
        }
        return false;
    }

    if ni == name.len() {
        return false;
    }

    if pattern[pi] == QMARK || pattern[pi] == name[ni] {
        return glob_match_impl(name, pattern, ni + 1, pi + 1);
    }

    false
}

/// Whether `name` matches the glob `pattern`, byte-exactly.
pub fn glob_match(name: &[u8], pattern: &[u8]) -> (r: bool)
    ensures
        r == glob_matches(name@, pattern@),
{
    proof {
        assert(name@.skip(0) =~= name@);
        assert(pattern@.skip(0) =~= pattern@);
    }
    glob_match_impl(name, pattern, 0, 0)
}

/// ASCII lowercasing of one byte: `A`..`Z` shift to `a`..`z`, all
/// other bytes are unchanged.
pub open spec fn lower_byte(b: u8) -> u8 {
    if UPPER_A <= b && b <= UPPER_Z {
        (b + 32) as u8
    } else {
        b
    }
}

/// ASCII lowercasing of a byte sequence, applied byte by byte.
pub open spec fn lower_of(s: Seq<u8>) -> Seq<u8> {
    s.map_values(|b: u8| lower_byte(b))
}

/// Returns `v` with every ASCII upper-case letter lowered.
pub fn lower_bytes(v: &[u8]) -> (r: Vec<u8>)
    ensures
        r@ == lower_of(v@),
{
    let mut r: Vec<u8> = Vec::new();
    let mut i: usize = 0;
    while i < v.len()
        invariant
            i <= v@.len(),
            r@.len() == i,
            forall|j: int| 0 <= j < i ==> r@[j] == lower_byte(v@[j]),
        decreases v@.len() - i,
    {
        let b = v[i];
        let lb = if UPPER_A <= b && b <= UPPER_Z { b + 32 } else { b };
        r.push(lb);
        i = i + 1;
    }
    proof {
        assert(r@ =~= lower_of(v@));
    }
    r
}

/// A pattern with no wildcards matches exactly one name: itself.
pub proof fn lemma_no_wildcards_exact(name: Seq<u8>, pattern: Seq<u8>)
    requires
        forall|i: int| 0 <= i < pattern.len() ==> pattern[i] != STAR && pattern[i] != QMARK,
    ensures
        glob_matches(name, pattern) == (name == pattern),
    decreases pattern.len(),
{
    if pattern.len() == 0 {
        assert(name.len() == 0 ==> name =~= pattern);
    } else {
        if name.len() > 0 {
            lemma_no_wildcards_exact(name.skip(1), pattern.skip(1));
            if name[0] == pattern[0] && name.skip(1) == pattern.skip(1) {
                assert forall|i: int| 0 <= i < name.len() implies name[i] == pattern[i] by {
                    if i > 0 {
                        assert(name.skip(1)[i - 1] == name[i]);
                        assert(pattern.skip(1)[i - 1] == pattern[i]);
                    }
                }
                assert(name =~= pattern);
            }
            if name == pattern {
                assert(name.skip(1) =~= pattern.skip(1));
            }
        } else {
            assert(name != pattern) by {
                assert(name.len() != pattern.len());
            }
        }
    }
}

/// The pattern holding a single `*` matches every name, the empty one
/// included.
pub proof fn lemma_star_matches_all(name: Seq<u8>)
    ensures
        glob_matches(name, seq![STAR]),
    decreases name.len(),
{
    let pattern = seq![STAR];
    if name.len() == 0 {
        assert(pattern.skip(1) =~= Seq::<u8>::empty());
        assert(glob_matches(name, pattern.skip(1)));
    } else {
        lemma_star_matches_all(name.skip(1));
    }
}

/// The pattern holding a single `?` matches exactly the names of
/// length one.
pub proof fn lemma_question_matches_singletons(name: Seq<u8>)
    ensures
        glob_matches(name, seq![QMARK]) == (name.len() == 1),
{
    let pattern = seq![QMARK];
    if name.len() > 0 {
        assert(pattern.skip(1) =~= Seq::<u8>::empty());
        assert(glob_matches(name.skip(1), pattern.skip(1)) == (name.skip(1).len() == 0));
    }
}

/// Lowercasing is idempotent: a sequence lowered once is unchanged by
/// lowering it again.  This is why a case-insensitive pattern can be
/// lowered once, at configuration time.
pub proof fn lemma_lower_idempotent(s: Seq<u8>)
    ensures
        lower_of(lower_of(s)) == lower_of(s),
{
    assert(lower_of(lower_of(s)) =~= lower_of(s));
}

/// Case-insensitive matching of a name against a pattern that was
/// lowered at configuration time is the same as lowering both operands
/// and matching byte-exactly.
pub proof fn lemma_case_insensitive_equiv(name: Seq<u8>, pattern: Seq<u8>)
    ensures
        glob_matches(lower_of(name), lower_of(pattern))
            == glob_matches(lower_of(lower_of(name)), lower_of(lower_of(pattern))),
{
    lemma_lower_idempotent(name);
    lemma_lower_idempotent(pattern);
}

/// The matcher has no hidden state: its result is a function of the
/// two operands alone, so any two runs on the same inputs agree.
pub proof fn lemma_match_deterministic(name: Seq<u8>, pattern: Seq<u8>, r1: bool, r2: bool)
    requires
        r1 == glob_matches(name, pattern),
        r2 == glob_matches(name, pattern),
    ensures
        r1 == r2,
{
}

} // verus!
