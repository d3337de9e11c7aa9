use vstd::prelude::*;

verus! {

/// `pat` matches `text` at byte offset `i`; when `underscore_wild` holds, an `_` in `pat`
/// matches any byte.
pub open spec fn matches_at(text: Seq<u8>, pat: Seq<u8>, underscore_wild: bool, i: int) -> bool {
    &&& 0 <= i
    &&& i + pat.len() <= text.len()
    &&& forall|k: int|
        0 <= k < pat.len() ==> #[trigger] text[i + k] == pat[k] || (underscore_wild && pat[k]
            == 0x5fu8)
}

/// `pat` occurs literally in `text` at byte offset `i`.
pub open spec fn occurs_at(text: Seq<u8>, pat: Seq<u8>, i: int) -> bool {
    matches_at(text, pat, false, i)
}

/// `r` is the smallest offset at which `pat` matches `text`, or `None` when it matches nowhere.
pub open spec fn is_first_match(text: Seq<u8>, pat: Seq<u8>, underscore_wild: bool, r: Option<
    usize,
>) -> bool {
    match r {
        Some(i) => matches_at(text, pat, underscore_wild, i as int) && forall|j: int|
            0 <= j < i ==> !matches_at(text, pat, underscore_wild, j),
        None => forall|j: int| !matches_at(text, pat, underscore_wild, j),
    }
}

/// `r` lists every offset at which `pat` matches `text`, in strictly increasing order.
pub open spec fn is_all_matches(text: Seq<u8>, pat: Seq<u8>, underscore_wild: bool, r: Seq<
    usize,
>) -> bool {
    &&& forall|a: int, b: int| 0 <= a < b < r.len() ==> r[a] < r[b]
    &&& forall|a: int| 0 <= a < r.len() ==> matches_at(text, pat, underscore_wild, #[trigger] r[a] as int)
    &&& forall|j: int|
        matches_at(text, pat, underscore_wild, j) ==> exists|a: int| 0 <= a < r.len() && r[a] == j
}

/// `r` is the smallest offset at which `pat` occurs literally in `text`, or `None`.
pub open spec fn is_first_occurrence(text: Seq<u8>, pat: Seq<u8>, r: Option<usize>) -> bool {
    is_first_match(text, pat, false, r)
}

/// `r` lists every offset at which `pat` occurs literally in `text`, in increasing order.
pub open spec fn is_all_occurrences(text: Seq<u8>, pat: Seq<u8>, r: Seq<usize>) -> bool {
    is_all_matches(text, pat, false, r)
}

/// The offsets `[0, 1, ..., n]`.
pub open spec fn every_offset(n: nat) -> Seq<usize> {
    Seq::new(n + 1, |i: int| i as usize)
}

/// A match in a suffix of `text` is a match in `text`, shifted by where the suffix starts.
pub proof fn lemma_matches_in_suffix(text: Seq<u8>, pat: Seq<u8>, uw: bool, s: int, j: int)
    requires
        0 <= s <= text.len(),
    ensures
        matches_at(text.subrange(s, text.len() as int), pat, uw, j) <==> (0 <= j && matches_at(
            text,
            pat,
            uw,
            s + j,
        )),
{
    let suf = text.subrange(s, text.len() as int);
    if matches_at(suf, pat, uw, j) {
        assert forall|k: int| 0 <= k < pat.len() implies #[trigger] text[s + j + k] == pat[k] || (uw
            && pat[k] == 0x5fu8) by {
            assert(suf[j + k] == text[s + j + k]);
        }
    }
    if 0 <= j && matches_at(text, pat, uw, s + j) {
        assert forall|k: int| 0 <= k < pat.len() implies #[trigger] suf[j + k] == pat[k] || (uw
            && pat[k] == 0x5fu8) by {
            assert(suf[j + k] == text[s + j + k]);
        }
    }
}

/// The first match in the text up to the end of a known match at `c` is the first match in the
/// whole text.
pub proof fn lemma_first_in_prefix(text: Seq<u8>, pat: Seq<u8>, uw: bool, c: int, r: Option<usize>)
    requires
        matches_at(text, pat, uw, c),
        is_first_match(text.subrange(0, c + pat.len()), pat, uw, r),
    ensures
        is_first_match(text, pat, uw, r),
{
    let limit = c + pat.len();
    let prefix = text.subrange(0, limit);
    assert forall|j: int| #[trigger] matches_at(prefix, pat, uw, j) <==> (matches_at(text, pat, uw, j) && j + pat.len()
        <= limit) by {
        if matches_at(prefix, pat, uw, j) {
            assert forall|x: int| 0 <= x < pat.len() implies #[trigger] text[j + x] == pat[x] || (uw && pat[x] == 0x5fu8) by {
                assert(prefix[j + x] == text[j + x]);
            }
        }
        if matches_at(text, pat, uw, j) && j + pat.len() <= limit {
            assert forall|x: int| 0 <= x < pat.len() implies #[trigger] prefix[j + x] == pat[x] || (uw && pat[x] == 0x5fu8) by {
                assert(prefix[j + x] == text[j + x]);
            }
        }
    }
    assert(matches_at(prefix, pat, uw, c));
    match r {
        Some(i) => {
            assert forall|j: int| 0 <= j < i implies !matches_at(text, pat, uw, j) by {
                if matches_at(text, pat, uw, j) {
                    assert(i <= c);
                    assert(matches_at(prefix, pat, uw, j));
                }
            }
        },
        None => {},
    }
}

/// Kernel parity: the first-match result is unique, so every kernel whose `find_bytes` meets
/// `is_first_match` returns what the naive scalar search returns.
pub proof fn lemma_first_match_unique(text: Seq<u8>, pat: Seq<u8>, uw: bool, r1: Option<usize>, r2: Option<usize>)
    requires
        is_first_match(text, pat, uw, r1),
        is_first_match(text, pat, uw, r2),
    ensures
        r1 == r2,
{
    match (r1, r2) {
        (Some(a), Some(b)) => {
            if a < b {
                assert(!matches_at(text, pat, uw, a as int));
            } else if b < a {
                assert(!matches_at(text, pat, uw, b as int));
            }
        },
        (Some(a), None) => {
            assert(!matches_at(text, pat, uw, a as int));
        },
        (None, Some(b)) => {
            assert(!matches_at(text, pat, uw, b as int));
        },
        (None, None) => {},
    }
}

/// `find_all` ordering: after each reported offset `r[a]`, the next one, `r[a + 1]`, is the first
/// match in the suffix that starts one byte later, and after the last one no match follows.
pub proof fn lemma_all_matches_step(text: Seq<u8>, pat: Seq<u8>, uw: bool, r: Seq<usize>, a: int)
    requires
        is_all_matches(text, pat, uw, r),
        0 <= a < r.len(),
        r[a] < text.len(),
    ensures
        a + 1 < r.len() ==> is_first_match(
            text.subrange(r[a] + 1, text.len() as int),
            pat,
            uw,
            Some((r[a + 1] - r[a] - 1) as usize),
        ),
        a + 1 == r.len() ==> is_first_match(text.subrange(r[a] + 1, text.len() as int), pat, uw, None),
{
    let start = r[a] + 1;
    if a + 1 < r.len() {
        lemma_matches_in_suffix(text, pat, uw, start, r[a + 1] - start);
        assert(matches_at(text, pat, uw, r[a + 1] as int));
        assert forall|j: int| 0 <= j < r[a + 1] - start implies !matches_at(
            text.subrange(start, text.len() as int),
            pat,
            uw,
            j,
        ) by {
            lemma_matches_in_suffix(text, pat, uw, start, j);
            if matches_at(text, pat, uw, start + j) {
                let b = choose|b: int| 0 <= b < r.len() && r[b] == start + j;
                if b <= a {
                    if b < a {
                        assert(r[b] < r[a]);
                    }
                } else if b > a + 1 {
                    assert(r[a + 1] < r[b]);
                }
            }
        }
    } else {
        assert forall|j: int| !matches_at(text.subrange(start, text.len() as int), pat, uw, j) by {
            lemma_matches_in_suffix(text, pat, uw, start, j);
            if 0 <= j && matches_at(text, pat, uw, start + j) {
                let b = choose|b: int| 0 <= b < r.len() && r[b] == start + j;
                if b < a {
                    assert(r[b] < r[a]);
                }
            }
        }
    }
}

/// The empty pattern matches first at 0, and at every offset `0..=|text|`.
pub proof fn lemma_empty_pattern(text: Seq<u8>, uw: bool, r1: Option<usize>, r2: Seq<usize>)
    requires
        is_first_match(text, Seq::empty(), uw, r1),
        is_all_matches(text, Seq::empty(), uw, r2),
    ensures
        r1 == Some(0usize),
        r2 == every_offset(text.len()),
{
    assert(matches_at(text, Seq::empty(), uw, 0));
    if r1 != Some(0usize) {
        assert(r1 is Some);
    }
    assert forall|k: int| 0 <= k <= text.len() implies #[trigger] has_value(r2, k) by {
        assert(matches_at(text, Seq::empty(), uw, k));
    }
    lemma_increasing_cover(r2, text.len());
}

/// `r` holds `k`.
pub open spec fn has_value(r: Seq<usize>, k: int) -> bool {
    exists|x: int| 0 <= x < r.len() && r[x] == k
}

proof fn lemma_increasing_cover(r: Seq<usize>, n: nat)
    requires
        forall|a: int, b: int| 0 <= a < b < r.len() ==> r[a] < r[b],
        forall|a: int| 0 <= a < r.len() ==> #[trigger] r[a] <= n,
        forall|k: int| 0 <= k <= n ==> #[trigger] has_value(r, k),
    ensures
        r == every_offset(n),
{
    assert forall|a: int| 0 <= a <= n implies a < r.len() && #[trigger] r[a] == a by {
        lemma_cover_identity(r, n, a);
    }
    if r.len() > n + 1 {
        lemma_increasing_lower(r, n + 1 as int);
        assert(r[n + 1 as int] <= n);
    }
    lemma_cover_identity(r, n, n as int);
    assert(r.len() == n + 1);
    assert forall|a: int| 0 <= a < r.len() implies r[a] == every_offset(n)[a] by {
        assert(r[a] == a);
    }
    assert(r =~= every_offset(n));
}

proof fn lemma_cover_identity(r: Seq<usize>, n: nat, a: int)
    requires
        forall|x: int, y: int| 0 <= x < y < r.len() ==> r[x] < r[y],
        forall|k: int| 0 <= k <= n ==> #[trigger] has_value(r, k),
        0 <= a <= n,
    ensures
        a < r.len(),
        r[a] == a,
    decreases a,
{
    assert(has_value(r, a));
    let b = choose|x: int| 0 <= x < r.len() && r[x] == a;
    lemma_increasing_lower(r, b);
    if a > 0 {
        lemma_cover_identity(r, n, a - 1);
        if b > a {
            assert(r[a - 1] < r[a] && r[a] < r[b]);
        }
    } else if b > 0 {
        assert(r[0] < r[b]);
    }
}

proof fn lemma_increasing_lower(r: Seq<usize>, a: int)
    requires
        forall|x: int, y: int| 0 <= x < y < r.len() ==> r[x] < r[y],
        0 <= a < r.len(),
    ensures
        r[a] >= a,
    decreases a,
{
    if a > 0 {
        lemma_increasing_lower(r, a - 1);
    }
}

/// A pattern longer than the text matches nowhere: no first match, and no match at all.
pub proof fn lemma_pattern_longer(text: Seq<u8>, pat: Seq<u8>, uw: bool, r1: Option<usize>, r2: Seq<usize>)
    requires
        pat.len() > text.len(),
        is_first_match(text, pat, uw, r1),
        is_all_matches(text, pat, uw, r2),
    ensures
        r1 is None,
        r2.len() == 0,
{
    if r2.len() > 0 {
        assert(matches_at(text, pat, uw, r2[0] as int));
    }
}

} // verus!
