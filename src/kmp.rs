use vstd::prelude::*;

use vstd::slice::slice_to_vec;

use crate::kernel::StringSearch;
use crate::occurrence::{every_offset, is_all_occurrences, is_first_occurrence, matches_at};

verus! {

/// `p[0..k]` is a proper border of `p[0..q]`: it is also its suffix, and shorter.
pub open spec fn is_border(p: Seq<u8>, q: int, k: int) -> bool {
    &&& 0 <= k < q <= p.len()
    &&& forall|x: int| 0 <= x < k ==> #[trigger] p[q - k + x] == p[x]
}

/// `lps[i]` is the length of the longest proper border of `p[0..i + 1]`, for every `i`.
pub open spec fn lps_ok(p: Seq<u8>, lps: Seq<usize>) -> bool {
    &&& lps.len() == p.len()
    &&& forall|i: int| 0 <= i < p.len() ==> is_border(p, i + 1, #[trigger] lps[i] as int)
    &&& forall|i: int, k: int| 0 <= i < p.len() && #[trigger] is_border(p, i + 1, k) ==> k <= lps[i]
}

proof fn lemma_border_shrink(p: Seq<u8>, q: int, k: int)
    requires
        is_border(p, q + 1, k),
        k >= 1,
    ensures
        is_border(p, q, k - 1),
        p[k - 1] == p[q],
{
    assert forall|x: int| 0 <= x < k - 1 implies #[trigger] p[q - (k - 1) + x] == p[x] by {
        assert(p[q + 1 - k + x] == p[x]);
    }
    assert(p[q + 1 - k + (k - 1)] == p[k - 1]);
}

proof fn lemma_border_grow(p: Seq<u8>, q: int, k: int)
    requires
        is_border(p, q, k),
        q < p.len(),
        p[k] == p[q],
    ensures
        is_border(p, q + 1, k + 1),
{
    assert forall|x: int| 0 <= x < k + 1 implies #[trigger] p[q + 1 - (k + 1) + x] == p[x] by {
        if x < k {
            assert(p[q - k + x] == p[x]);
        }
    }
}

proof fn lemma_border_compose(p: Seq<u8>, q: int, j: int, k: int)
    requires
        is_border(p, q, j),
        is_border(p, j, k),
    ensures
        is_border(p, q, k),
{
    assert forall|x: int| 0 <= x < k implies #[trigger] p[q - k + x] == p[x] by {
        assert(p[q - j + (j - k + x)] == p[j - k + x]);
        assert(p[j - k + x] == p[x]);
    }
}

proof fn lemma_border_of_border(p: Seq<u8>, q: int, j: int, k: int)
    requires
        is_border(p, q, j),
        is_border(p, q, k),
        k < j,
    ensures
        is_border(p, j, k),
{
    assert forall|x: int| 0 <= x < k implies #[trigger] p[j - k + x] == p[x] by {
        assert(p[q - j + (j - k + x)] == p[j - k + x]);
        assert(p[q - k + x] == p[x]);
    }
}

/// The longest-proper-prefix-that-is-also-suffix table of `pattern`.
fn build_lps(pattern: &[u8]) -> (r: Vec<usize>)
    ensures
        lps_ok(pattern@, r@),
{
    let ghost p = pattern@;
    let m = pattern.len();
    let mut lps: Vec<usize> = vec![0usize; m];
    if m == 0 {
        return lps;
    }
    let mut len: usize = 0;
    let mut i: usize = 1;
    assert(is_border(p, 1, 0));
    while i < m
        invariant
            p == pattern@,
            m == p.len(),
            lps@.len() == m,
            1 <= i <= m,
            len < i,
            is_border(p, i as int, len as int),
            forall|q: int| 0 <= q < i ==> is_border(p, q + 1, #[trigger] lps@[q] as int),
            forall|q: int, k: int| 0 <= q < i && #[trigger] is_border(p, q + 1, k) ==> k <= lps@[q],
            i < m ==> forall|k: int| #[trigger] is_border(p, i + 1, k) ==> k <= len + 1,
        decreases m - i, len,
    {
        if pattern[i] == pattern[len] {
            proof {
                lemma_border_grow(p, i as int, len as int);
            }
            len += 1;
            lps.set(i, len);
            i += 1;
            proof {
                if i < m {
                    assert forall|k: int| #[trigger] is_border(p, i + 1, k) implies k <= len + 1 by {
                        if k >= 1 {
                            lemma_border_shrink(p, i as int, k);
                        }
                    }
                }
            }
        } else if len != 0 {
            let next = lps[len - 1];
            proof {
                assert(is_border(p, len as int, next as int));
                lemma_border_compose(p, i as int, len as int, next as int);
                assert forall|k: int| #[trigger] is_border(p, i + 1, k) implies k <= next + 1 by {
                    if k >= 1 {
                        lemma_border_shrink(p, i as int, k);
                        if k - 1 < len {
                            lemma_border_of_border(p, i as int, len as int, k - 1);
                            assert(is_border(p, (len - 1) + 1, k - 1));
                        }
                    }
                }
            }
            len = next;
        } else {
            lps.set(i, 0);
            proof {
                assert forall|k: int| #[trigger] is_border(p, i + 1, k) implies k <= 0 by {
                    if k >= 1 {
                        lemma_border_shrink(p, i as int, k);
                    }
                }
            }
            i += 1;
            proof {
                if i < m {
                    assert forall|k: int| #[trigger] is_border(p, i + 1, k) implies k <= len + 1 by {
                        if k >= 1 {
                            lemma_border_shrink(p, i as int, k);
                        }
                    }
                }
            }
        }
    }
    lps
}

/// No match of `p` in `text` starts in `[i - j, i - jn)`, when `text[i - j..i]` is `p[0..j]`,
/// `jn` is the longest proper border of `p[0..j]`, and a match from `i - j` is ruled out.
proof fn lemma_fallback(text: Seq<u8>, p: Seq<u8>, i: int, j: int, jn: int, lps: Seq<usize>)
    requires
        lps_ok(p, lps),
        0 < j <= p.len(),
        j <= i <= text.len(),
        jn == lps[j - 1],
        forall|x: int| 0 <= x < j ==> #[trigger] text[i - j + x] == p[x],
        !matches_at(text, p, false, i - j),
    ensures
        forall|s: int| i - j <= s < i - jn ==> !matches_at(text, p, false, s),
{
    assert forall|s: int| i - j <= s < i - jn implies !matches_at(text, p, false, s) by {
        let k = i - s;
        if k < j && matches_at(text, p, false, s) {
            assert forall|x: int| 0 <= x < k implies #[trigger] p[j - k + x] == p[x] by {
                assert(text[i - j + (j - k + x)] == p[j - k + x]);
                assert(text[s + x] == p[x]);
            }
            assert(is_border(p, (j - 1) + 1, k));
        }
    }
}

/// KMP search with a prebuilt table: the first occurrence of `pattern` in `text`.
fn kmp_search(text: &[u8], pattern: &[u8], lps: &Vec<usize>) -> (r: Option<usize>)
    requires
        lps_ok(pattern@, lps@),
    ensures
        is_first_occurrence(text@, pattern@, r),
{
    let ghost p = pattern@;
    let ghost t = text@;
    let n = text.len();
    let m = pattern.len();
    if m == 0 {
        assert(matches_at(t, p, false, 0));
        return Some(0);
    }
    if m > n {
        return None;
    }
    let mut i: usize = 0;
    let mut j: usize = 0;
    while i < n
        invariant
            p == pattern@,
            t == text@,
            n == t.len(),
            m == p.len(),
            0 < m <= n,
            lps_ok(p, lps@),
            j < m,
            j <= i <= n,
            forall|x: int| 0 <= x < j ==> #[trigger] t[i - j + x] == p[x],
            forall|s: int| 0 <= s < i - j ==> !matches_at(t, p, false, s),
        decreases n - i, j,
    {
        if text[i] == pattern[j] {
            i += 1;
            j += 1;
            assert forall|x: int| 0 <= x < j implies #[trigger] t[i - j + x] == p[x] by {
                if x < j - 1 {
                    assert(t[(i - 1) - (j - 1) + x] == p[x]);
                }
            }
            if j == m {
                assert(matches_at(t, p, false, i - j));
                return Some(i - j);
            }
        } else if j != 0 {
            let jn = lps[j - 1];
            proof {
                assert(!matches_at(t, p, false, i - j)) by {
                    if matches_at(t, p, false, i - j) {
                        assert(t[(i - j) + j] == p[j as int]);
                    }
                }
                lemma_fallback(t, p, i as int, j as int, jn as int, lps@);
                assert(is_border(p, (j - 1) + 1, jn as int));
                assert forall|x: int| 0 <= x < jn implies #[trigger] t[i - jn + x] == p[x] by {
                    assert(t[i - j + (j - jn + x)] == p[j - jn + x]);
                    assert(p[j - jn + x] == p[x]);
                }
            }
            j = jn;
        } else {
            assert(!matches_at(t, p, false, i as int)) by {
                if matches_at(t, p, false, i as int) {
                    assert(t[i + 0] == p[0]);
                }
            }
            i += 1;
        }
    }
    None
}

/// KMP search with a prebuilt table: every occurrence of `pattern` in `text`, overlaps included.
fn kmp_search_all(text: &[u8], pattern: &[u8], lps: &Vec<usize>) -> (r: Vec<usize>)
    requires
        lps_ok(pattern@, lps@),
    ensures
        is_all_occurrences(text@, pattern@, r@),
{
    let ghost p = pattern@;
    let ghost t = text@;
    let n = text.len();
    let m = pattern.len();
    let mut result: Vec<usize> = Vec::new();
    if m > n {
        return result;
    }
    if m == 0 {
        let mut i: usize = 0;
        while i < n
            invariant
                i <= n,
                n == text@.len(),
                m == pattern@.len(),
                m == 0,
                result@ == every_offset(i as nat).take(i as int),
            decreases n - i,
        {
            result.push(i);
            i += 1;
            assert(result@ =~= every_offset(i as nat).take(i as int));
        }
        result.push(n);
        assert(result@ =~= every_offset(n as nat));
        assert forall|j: int| matches_at(text@, pattern@, false, j) implies exists|a: int|
            0 <= a < result@.len() && result@[a] == j by {
            assert(result@[j] == j);
        }
        return result;
    }
    let mut i: usize = 0;
    let mut j: usize = 0;
    while i < n
        invariant
            p == pattern@,
            t == text@,
            n == t.len(),
            m == p.len(),
            0 < m <= n,
            lps_ok(p, lps@),
            j < m,
            j <= i <= n,
            forall|x: int| 0 <= x < j ==> #[trigger] t[i - j + x] == p[x],
            forall|a: int, b: int| 0 <= a < b < result@.len() ==> result@[a] < result@[b],
            forall|a: int| 0 <= a < result@.len() ==> result@[a] < i - j,
            forall|a: int| 0 <= a < result@.len() ==> matches_at(t, p, false, #[trigger] result@[a] as int),
            forall|s: int|
                0 <= s < i - j && matches_at(t, p, false, s) ==> exists|a: int| 0 <= a < result@.len() && result@[a] == s,
        decreases n - i, j,
    {
        if text[i] == pattern[j] {
            i += 1;
            j += 1;
            assert forall|x: int| 0 <= x < j implies #[trigger] t[i - j + x] == p[x] by {
                if x < j - 1 {
                    assert(t[(i - 1) - (j - 1) + x] == p[x]);
                }
            }
            if j == m {
                let s = i - m;
                assert(matches_at(t, p, false, s as int));
                let ghost old_result = result@;
                result.push(s);
                let jn = lps[m - 1];
                proof {
                    assert(is_border(p, (m - 1) + 1, jn as int));
                    assert forall|s2: int| s < s2 < i - jn implies !matches_at(t, p, false, s2) by {
                        let k = i - s2;
                        if matches_at(t, p, false, s2) {
                            assert forall|x: int| 0 <= x < k implies #[trigger] p[m - k + x] == p[x] by {
                                assert(t[i - j + (m - k + x)] == p[m - k + x]);
                                assert(t[s2 + x] == p[x]);
                            }
                            assert(is_border(p, (m - 1) + 1, k));
                        }
                    }
                    assert forall|s2: int| 0 <= s2 < i - jn && matches_at(t, p, false, s2) implies exists|a: int|
                        0 <= a < result@.len() && result@[a] == s2 by {
                        if s2 < s {
                            let a = choose|a: int| 0 <= a < old_result.len() && old_result[a] == s2;
                            assert(result@[a] == s2);
                        } else if s2 == s {
                            assert(result@[result@.len() - 1] == s2);
                        }
                    }
                    assert forall|x: int| 0 <= x < jn implies #[trigger] t[i - jn + x] == p[x] by {
                        assert(t[i - j + (m - jn + x)] == p[m - jn + x]);
                        assert(p[m - jn + x] == p[x]);
                    }
                }
                j = jn;
            }
        } else if j != 0 {
            let jn = lps[j - 1];
            proof {
                assert(!matches_at(t, p, false, i - j)) by {
                    if matches_at(t, p, false, i - j) {
                        assert(t[(i - j) + j] == p[j as int]);
                    }
                }
                lemma_fallback(t, p, i as int, j as int, jn as int, lps@);
                assert(is_border(p, (j - 1) + 1, jn as int));
                assert forall|x: int| 0 <= x < jn implies #[trigger] t[i - jn + x] == p[x] by {
                    assert(t[i - j + (j - jn + x)] == p[j - jn + x]);
                    assert(p[j - jn + x] == p[x]);
                }
            }
            j = jn;
        } else {
            assert(!matches_at(t, p, false, i as int)) by {
                if matches_at(t, p, false, i as int) {
                    assert(t[i + 0] == p[0]);
                }
            }
            i += 1;
        }
    }
    assert forall|s: int| matches_at(t, p, false, s) implies exists|a: int| 0 <= a < result@.len() && result@[a] == s by {
    }
    result
}

/// KMP search: the first occurrence of `pattern` in `text`.
pub fn kmp_find(text: &[u8], pattern: &[u8]) -> (r: Option<usize>)
    ensures
        is_first_occurrence(text@, pattern@, r),
{
    let lps = build_lps(pattern);
    kmp_search(text, pattern, &lps)
}

/// KMP search: every occurrence of `pattern` in `text`, overlaps included.
pub fn kmp_find_all(text: &[u8], pattern: &[u8]) -> (r: Vec<usize>)
    ensures
        is_all_occurrences(text@, pattern@, r@),
{
    let lps = build_lps(pattern);
    kmp_search_all(text, pattern, &lps)
}

/// The Knuth-Morris-Pratt kernel.
pub struct KMP;

impl StringSearch for KMP {
    type Config = Vec<u8>;

    type State = Vec<usize>;

    open spec fn pattern_of(config: &Vec<u8>) -> Seq<u8> {
        config@
    }

    open spec fn underscore_wild() -> bool {
        false
    }

    open spec fn accepts(pattern: Seq<u8>) -> bool {
        true
    }

    open spec fn state_ok(config: &Vec<u8>, state: &Vec<usize>) -> bool {
        lps_ok(config@, state@)
    }

    fn config_for(literal: &[u8]) -> (r: Vec<u8>) {
        slice_to_vec(literal)
    }

    fn build(config: &Vec<u8>) -> (r: Vec<usize>) {
        build_lps(config.as_slice())
    }

    fn find_bytes(config: &Vec<u8>, state: &Vec<usize>, text: &[u8]) -> (r: Option<usize>) {
        kmp_search(text, config.as_slice(), state)
    }

    fn find_all_bytes(config: &Vec<u8>, state: &Vec<usize>, text: &[u8]) -> (r: Vec<usize>) {
        kmp_search_all(text, config.as_slice(), state)
    }
}

} // verus!
