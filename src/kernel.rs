use vstd::prelude::*;

use vstd::slice::slice_subrange;

use crate::occurrence::{is_first_match, is_all_matches, matches_at, lemma_matches_in_suffix};

verus! {

/// A literal substring search kernel: a configuration names the pattern, a state is
/// precomputed from it once, and `find_bytes` locates the pattern's first match in a text.
pub trait StringSearch {
    type Config;

    type State;

    /// The pattern that a configuration searches for.
    spec fn pattern_of(config: &Self::Config) -> Seq<u8>;

    /// Whether an `_` in the pattern matches any byte for this kernel.
    spec fn underscore_wild() -> bool;

    /// The patterns for which a state can be built.
    spec fn accepts(pattern: Seq<u8>) -> bool;

    /// `state` was built from `config`.
    spec fn state_ok(config: &Self::Config, state: &Self::State) -> bool;

    /// The configuration that searches for `literal`.
    fn config_for(literal: &[u8]) -> (r: Self::Config)
        ensures
            Self::pattern_of(&r) == literal@,
    ;

    /// Precomputes the per-pattern state.
    fn build(config: &Self::Config) -> (r: Self::State)
        requires
            Self::accepts(Self::pattern_of(config)),
        ensures
            Self::state_ok(config, &r),
    ;

    /// The smallest offset at which the pattern matches `text`.
    fn find_bytes(config: &Self::Config, state: &Self::State, text: &[u8]) -> (r: Option<usize>)
        requires
            Self::state_ok(config, state),
        ensures
            is_first_match(text@, Self::pattern_of(config), Self::underscore_wild(), r),
    ;

    /// Every offset at which the pattern matches `text`, in increasing order.
    fn find_all_bytes(config: &Self::Config, state: &Self::State, text: &[u8]) -> (r: Vec<usize>)
        requires
            Self::state_ok(config, state),
        ensures
            is_all_matches(text@, Self::pattern_of(config), Self::underscore_wild(), r@),
    ;
}

/// Collects every match by calling `find_bytes` on ever shorter suffixes of `text`, resuming one
/// byte after each hit, so that overlapping matches are all reported.
pub fn find_all_by_first<S: StringSearch>(config: &S::Config, state: &S::State, text: &[u8]) -> (r:
    Vec<usize>)
    requires
        S::state_ok(config, state),
    ensures
        is_all_matches(text@, S::pattern_of(config), S::underscore_wild(), r@),
{
    let ghost pat = S::pattern_of(config);
    let ghost uw = S::underscore_wild();
    let n = text.len();
    let mut result: Vec<usize> = Vec::new();
    let mut pos: usize = 0;
    while pos <= n
        invariant
            n == text@.len(),
            pos <= n + 1,
            S::state_ok(config, state),
            pat == S::pattern_of(config),
            uw == S::underscore_wild(),
            forall|a: int, b: int| 0 <= a < b < result@.len() ==> result@[a] < result@[b],
            forall|a: int| 0 <= a < result@.len() ==> result@[a] < pos,
            forall|a: int|
                0 <= a < result@.len() ==> matches_at(text@, pat, uw, #[trigger] result@[a] as int),
            forall|j: int|
                0 <= j < pos && matches_at(text@, pat, uw, j) ==> exists|a: int|
                    0 <= a < result@.len() && result@[a] == j,
        decreases n + 1 - pos,
    {
        let rest = slice_subrange(text, pos, n);
        let found = S::find_bytes(config, state, rest);
        match found {
            Some(off) => {
                proof {
                    lemma_matches_in_suffix(text@, pat, uw, pos as int, off as int);
                }
                let hit = pos + off;
                let ghost old_result = result@;
                result.push(hit);
                assert forall|j: int|
                    0 <= j < hit + 1 && matches_at(text@, pat, uw, j) implies exists|a: int|
                    0 <= a < result@.len() && result@[a] == j by {
                    if j < pos {
                        let a = choose|a: int| 0 <= a < old_result.len() && old_result[a] == j;
                        assert(result@[a] == j);
                    } else if j < hit {
                        lemma_matches_in_suffix(text@, pat, uw, pos as int, j - pos);
                    } else {
                        assert(result@[result@.len() - 1] == j);
                    }
                }
                if hit == n {
                    assert forall|j: int| matches_at(text@, pat, uw, j) implies exists|a: int|
                        0 <= a < result@.len() && result@[a] == j by {
                    }
                    return result;
                }
                pos = hit + 1;
            },
            None => {
                assert forall|j: int| 0 <= j && matches_at(text@, pat, uw, j) implies exists|a: int|
                    0 <= a < result@.len() && result@[a] == j by {
                    if j >= pos {
                        lemma_matches_in_suffix(text@, pat, uw, pos as int, j - pos);
                    }
                }
                return result;
            },
        }
    }
    assert forall|j: int| matches_at(text@, pat, uw, j) implies exists|a: int|
        0 <= a < result@.len() && result@[a] == j by {
    }
    result
}

} // verus!
