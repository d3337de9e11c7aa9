use vstd::prelude::*;

use crate::bm::bm_find_all;
use crate::kernel::StringSearch;
use crate::kmp::kmp_find_all;
use crate::lut_short::LutShort;
use crate::naive::{naive_find_all, naive_find_all_scalar, NaiveVectorized};
use crate::occurrence::is_all_occurrences;

verus! {

/// The search kernels that a caller can pick by name.
#[derive(Debug, Clone, Copy, PartialEq, Eq, Structural)]
pub enum Algorithm {
    Naive,
    NaiveScalar,
    NaiveVectorized,
    Kmp,
    Bm,
    LutShort,
}

/// Every occurrence of `pattern` in `text`, found with kernel `algo`.
pub fn run_search(algo: Algorithm, text: &[u8], pattern: &[u8]) -> (r: Vec<usize>)
    ensures
        is_all_occurrences(text@, pattern@, r@),
{
    match algo {
        Algorithm::Naive => naive_find_all(text, pattern),
        Algorithm::NaiveScalar => naive_find_all_scalar(text, pattern),
        Algorithm::NaiveVectorized => {
            let config = NaiveVectorized::config_for(pattern);
            NaiveVectorized::find_all_bytes(&config, &(), text)
        },
        Algorithm::Kmp => kmp_find_all(text, pattern),
        Algorithm::Bm => bm_find_all(text, pattern),
        Algorithm::LutShort => {
            let config = LutShort::config_for(pattern);
            let state = LutShort::build(&config);
            LutShort::find_all_bytes(&config, &state, text)
        },
    }
}

/// The alphabet-size option had neither one value nor one per text plus one for the pattern.
#[derive(Debug, Clone, Copy, PartialEq, Eq, Structural)]
pub struct AlphabetSizeMismatch {
    pub expected: usize,
    pub got: usize,
}

/// The alphabet size of each of `text_count` texts and then of the pattern: none when `sizes`
/// is empty, the one value for all when it has one, the values as given when there is one per
/// text plus one for the pattern; any other count is refused.
pub fn resolve_alphabet_sizes(text_count: usize, sizes: &[usize]) -> (r: Result<
    Option<Vec<Option<usize>>>,
    AlphabetSizeMismatch,
>)
    requires
        text_count < usize::MAX,
    ensures
        sizes@.len() == 0 ==> r == Ok::<Option<Vec<Option<usize>>>, AlphabetSizeMismatch>(None),
        sizes@.len() == 1 ==> (r matches Ok(Some(v)) && v@ == Seq::new(
            (text_count + 1) as nat,
            |i: int| Some(sizes@[0]),
        )),
        sizes@.len() > 1 && sizes@.len() == text_count + 1 ==> (r matches Ok(Some(v)) && v@
            == sizes@.map_values(|x: usize| Some(x))),
        sizes@.len() > 1 && sizes@.len() != text_count + 1 ==> r == Err::<
            Option<Vec<Option<usize>>>,
            AlphabetSizeMismatch,
        >(AlphabetSizeMismatch { expected: (text_count + 1) as usize, got: sizes@.len() as usize }),
{
    if sizes.len() == 0 {
        return Ok(None);
    }
    if sizes.len() == 1 {
        let mut v: Vec<Option<usize>> = Vec::new();
        let mut i: usize = 0;
        while i <= text_count
            invariant
                text_count < usize::MAX,
                sizes@.len() == 1,
                i <= text_count + 1,
                v@ == Seq::new(i as nat, |k: int| Some(sizes@[0])),
            decreases text_count + 1 - i,
        {
            v.push(Some(sizes[0]));
            i += 1;
            assert(v@ =~= Seq::new(i as nat, |k: int| Some(sizes@[0])));
        }
        return Ok(Some(v));
    }
    if sizes.len() == text_count + 1 {
        let mut v: Vec<Option<usize>> = Vec::new();
        let mut i: usize = 0;
        while i < sizes.len()
            invariant
                i <= sizes@.len(),
                v@ == sizes@.take(i as int).map_values(|x: usize| Some(x)),
            decreases sizes@.len() - i,
        {
            v.push(Some(sizes[i]));
            i += 1;
            assert(v@ =~= sizes@.take(i as int).map_values(|x: usize| Some(x)));
        }
        assert(sizes@.take(sizes@.len() as int) =~= sizes@);
        return Ok(Some(v));
    }
    Err(AlphabetSizeMismatch { expected: text_count + 1, got: sizes.len() })
}

} // verus!
