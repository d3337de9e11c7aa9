use vstd::prelude::*;

use std::collections::HashMap;
use vstd::slice::slice_to_vec;

use vstd::slice::slice_subrange;

use crate::kernel::StringSearch;
use crate::naive::{naive_find_all_scalar, naive_find_scalar};
use crate::occurrence::{is_all_matches, is_first_match, lemma_first_in_prefix, matches_at};

verus! {

broadcast use vstd::std_specs::hash::group_hash_axioms;

/// A k-mer search: the pattern, the window length `k`, and how many k-mer hits one diagonal
/// needs before its alignment is checked.
#[derive(Debug, Clone)]
pub struct KmerConfig {
    pub pattern: Vec<u8>,
    pub k: usize,
    pub min_hits: usize,
}

/// The positions of the pattern's k-mers, grouped by a hash of their bytes.
#[derive(Debug)]
pub struct KmerIndexInner {
    map: HashMap<u64, Vec<usize>>,
    pattern: Vec<u8>,
    k: usize,
    min_hits: usize,
}

/// The state of the k-mer kernel.
#[derive(Debug)]
pub struct KmerIndex {
    inner: KmerIndexInner,
}

/// The hash of a window: `h * 257 + b` over its bytes, wrapping.
pub open spec fn hash_of(w: Seq<u8>) -> u64
    decreases w.len(),
{
    if w.len() == 0 {
        0
    } else {
        hash_of(w.drop_last()).wrapping_mul(257).wrapping_add(w.last() as u64)
    }
}

/// The `k` bytes of `s` from `i`.
pub open spec fn window(s: Seq<u8>, i: int, k: int) -> Seq<u8> {
    s.subrange(i, i + k)
}

/// How many of the k-mers of an occurrence at diagonal `d` the text positions below `t` hold:
/// those at `d..=d + m - k`.
pub open spec fn occ_hits(d: int, t: int, m: int, k: int) -> int {
    let hi = if t < d + m - k + 1 { t } else { d + m - k + 1 };
    if hi - d > 0 { hi - d } else { 0 }
}

impl KmerIndex {
    pub closed spec fn pattern_spec(&self) -> Seq<u8> {
        self.inner.pattern@
    }

    pub closed spec fn k_spec(&self) -> nat {
        self.inner.k as nat
    }

    pub closed spec fn min_hits_spec(&self) -> nat {
        self.inner.min_hits as nat
    }

    /// The settings under which each occurrence collects enough hits to be reported: windows of
    /// one byte or more that fit in the pattern, and no more hits asked for than it has windows.
    pub open spec fn complete(&self) -> bool {
        &&& 1 <= self.k_spec() <= self.pattern_spec().len()
        &&& self.min_hits_spec() <= self.pattern_spec().len() - self.k_spec() + 1
    }

    /// The positions posted under hash `h`.
    pub closed spec fn list(&self, h: u64) -> Seq<usize> {
        if self.inner.map@.contains_key(h) {
            self.inner.map@[h]@
        } else {
            Seq::empty()
        }
    }

    pub closed spec fn wf(&self) -> bool {
        &&& forall|h: u64, i: int|
            0 <= i < self.list(h).len() ==> #[trigger] self.list(h)[i] + self.inner.k <= self.inner.pattern@.len()
        &&& self.inner.k > 0 ==> forall|q: int|
            0 <= q && q + self.inner.k <= self.inner.pattern@.len() ==> #[trigger] self.list(
                hash_of(window(self.inner.pattern@, q, self.inner.k as int)),
            ).contains(q as usize)
    }
}

/// The count of diagonal `d`.
pub open spec fn count_of(counts: Map<usize, usize>, d: int) -> int {
    if counts.contains_key(d as usize) {
        counts[d as usize] as int
    } else {
        0
    }
}

/// A hash of the `k` bytes of `s` from `start`.
fn window_hash(s: &[u8], start: usize, k: usize) -> (r: u64)
    requires
        start + k <= s@.len(),
    ensures
        r == hash_of(window(s@, start as int, k as int)),
{
    let n = s.len();
    let mut h: u64 = 0;
    let mut i: usize = 0;
    assert(window(s@, start as int, 0) =~= Seq::<u8>::empty());
    while i < k
        invariant
            n == s@.len(),
            i <= k,
            start + k <= s@.len(),
            h == hash_of(window(s@, start as int, i as int)),
        decreases k - i,
    {
        assert(window(s@, start as int, i + 1).drop_last() =~= window(s@, start as int, i as int));
        h = h.wrapping_mul(257).wrapping_add(s[start + i] as u64);
        i += 1;
    }
    h
}

/// Whether the `k` bytes of `a` from `i` equal those of `b` from `j`.
fn windows_equal(a: &[u8], i: usize, b: &[u8], j: usize, k: usize) -> (r: bool)
    requires
        i + k <= a@.len(),
        j + k <= b@.len(),
    ensures
        r == (a@.subrange(i as int, i + k) == b@.subrange(j as int, j + k)),
{
    let na = a.len();
    let nb = b.len();
    let mut x: usize = 0;
    while x < k
        invariant
            na == a@.len(),
            nb == b@.len(),
            x <= k,
            i + k <= a@.len(),
            j + k <= b@.len(),
            forall|y: int| 0 <= y < x ==> #[trigger] a@[i + y] == b@[j + y],
        decreases k - x,
    {
        if a[i + x] != b[j + x] {
            assert(a@.subrange(i as int, i + k)[x as int] != b@.subrange(j as int, j + k)[x as int]);
            return false;
        }
        x += 1;
    }
    assert(a@.subrange(i as int, i + k) =~= b@.subrange(j as int, j + k)) by {
        assert forall|y: int| 0 <= y < k implies #[trigger] a@.subrange(i as int, i + k)[y] == b@.subrange(j as int, j + k)[y] by {
            assert(a@[i + y] == b@[j + y]);
        }
    }
    true
}

/// Whether `pattern` occurs in `text` at `pos`.
fn occurs_here(text: &[u8], pattern: &[u8], pos: usize) -> (r: bool)
    ensures
        r == matches_at(text@, pattern@, false, pos as int),
{
    let n = text.len();
    let m = pattern.len();
    if pos > n || m > n - pos {
        return false;
    }
    let mut x: usize = 0;
    while x < m
        invariant
            n == text@.len(),
            m == pattern@.len(),
            pos + m <= n,
            x <= m,
            forall|j: int| 0 <= j < x ==> #[trigger] text@[pos + j] == pattern@[j],
        decreases m - x,
    {
        if text[pos + x] != pattern[x] {
            return false;
        }
        x += 1;
    }
    true
}

/// The k-mer kernel: a diagonal is reported once `min_hits` k-mers of the text fall on it and
/// the whole pattern is confirmed there.
pub struct KmerSearch;

impl KmerSearch {
    /// Indexes the k-mers of the configured pattern by position.
    /// Indexes the k-mers of the configured pattern by position.
    pub fn build(config: KmerConfig) -> (r: KmerIndex)
        ensures
            r.wf(),
            r.pattern_spec() == config.pattern@,
            r.k_spec() == config.k,
            r.min_hits_spec() == config.min_hits,
    {
        Self::build_index(config.pattern.as_slice(), config.k, config.min_hits)
    }

    /// The first diagonal, in text order, that reaches `min_hits` k-mer hits and where the
    /// pattern occurs; `pattern` is not read, the index holds it.
    pub fn find_bytes(state: &KmerIndex, text: &[u8], pattern: &[u8]) -> (r: Option<usize>)
        requires
            state.wf(),
        ensures
            r matches Some(d) ==> matches_at(text@, state.pattern_spec(), false, d as int),
            state.complete() && (exists|d: int| matches_at(text@, state.pattern_spec(), false, d)) ==> r is Some,
    {
        Self::scan_first(state, text)
    }

    /// Every diagonal that reaches `min_hits` k-mer hits and where the pattern occurs, in
    /// increasing order; with complete settings, that is every occurrence.
    pub fn find_all_bytes(state: &KmerIndex, text: &[u8], pattern: &[u8]) -> (r: Vec<usize>)
        requires
            state.wf(),
        ensures
            forall|a: int, b: int| 0 <= a < b < r@.len() ==> r@[a] < r@[b],
            forall|a: int| 0 <= a < r@.len() ==> matches_at(text@, state.pattern_spec(), false, #[trigger] r@[a] as int),
            state.complete() ==> forall|d: int|
                #[trigger] matches_at(text@, state.pattern_spec(), false, d) ==> r@.to_set().contains(d as usize),
    {
        Self::scan_all(state, text)
    }

    fn build_index(pattern_in: &[u8], k: usize, min_hits: usize) -> (r: KmerIndex)
        ensures
            r.wf(),
            r.pattern_spec() == pattern_in@,
            r.k_spec() == k,
            r.min_hits_spec() == min_hits,
    {
        let m = pattern_in.len();
        let mut map: HashMap<u64, Vec<usize>> = HashMap::new();
        let ghost pat = pattern_in@;
        if k > 0 && m >= k {
            let mut i: usize = 0;
            while i <= m - k
                invariant
                    m == pat.len(),
                    pat == pattern_in@,
                    m >= k,
                    k > 0,
                    i <= m - k + 1,
                    forall|h: u64, q: int|
                        map@.contains_key(h) && 0 <= q < map@[h]@.len() ==> #[trigger] map@[h]@[q] + k <= m,
                    forall|q: int|
                        0 <= q < i ==> map@.contains_key(#[trigger] hash_of(window(pat, q, k as int))) && map@[hash_of(
                            window(pat, q, k as int),
                        )]@.contains(q as usize),
                decreases m - k + 1 - i,
            {
                let h = window_hash(pattern_in, i, k);
                let mut list = match map.get(&h) {
                    Some(l) => l.clone(),
                    None => Vec::new(),
                };
                let ghost before = map@;
                let ghost old_list = list@;
                list.push(i);
                assert forall|q: int| 0 <= q < list@.len() implies #[trigger] list@[q] + k <= m by {
                    if q < list@.len() - 1 {
                        assert(before.contains_key(h));
                    }
                }
                map.insert(h, list);
                assert forall|g: u64, q: int| map@.contains_key(g) && 0 <= q < map@[g]@.len() implies #[trigger] map@[g]@[q]
                    + k <= m by {
                    if g != h {
                        assert(before.contains_key(g));
                    }
                }
                assert forall|q: int| 0 <= q < i + 1 implies map@.contains_key(#[trigger] hash_of(window(pat, q, k as int)))
                    && map@[hash_of(window(pat, q, k as int))]@.contains(q as usize) by {
                    let g = hash_of(window(pat, q, k as int));
                    if q == i {
                        assert(map@[h]@[map@[h]@.len() - 1] == i);
                    } else if g == h {
                        assert(before[g]@.contains(q as usize));
                        let a = choose|a: int| 0 <= a < before[g]@.len() && before[g]@[a] == q as usize;
                        assert(old_list == before[g]@);
                        assert(map@[g]@[a] == q as usize);
                    }
                }
                i += 1;
            }
        }
        let pattern = slice_to_vec(pattern_in);
        let r = KmerIndex { inner: KmerIndexInner { map, pattern, k, min_hits } };
        assert forall|h: u64, i: int| 0 <= i < r.list(h).len() implies #[trigger] r.list(h)[i] + r.inner.k <= r.inner.pattern@.len() by {
        }
        if k > 0 {
            assert forall|q: int| 0 <= q && q + r.inner.k <= r.inner.pattern@.len() implies #[trigger] r.list(
                hash_of(window(r.inner.pattern@, q, r.inner.k as int)),
            ).contains(q as usize) by {
                assert(q <= m - k);
            }
        }
        r
    }

    /// The first diagonal, in text order, that reaches `min_hits` k-mer hits and where the
    /// pattern occurs; `pattern` is not read, the index holds it.
    #[verifier::rlimit(100)]
    fn scan_first(state: &KmerIndex, text: &[u8]) -> (r: Option<usize>)
        requires
            state.wf(),
        ensures
            r matches Some(d) ==> matches_at(text@, state.pattern_spec(), false, d as int),
            state.complete() && (exists|d: int| matches_at(text@, state.pattern_spec(), false, d)) ==> r is Some,
    {
        let inner = &state.inner;
        let k = inner.k;
        let n = text.len();
        let ghost pat = inner.pattern@;
        let ghost m = pat.len() as int;
        let ghost tx = text@;
        if k == 0 || n < k {
            proof {
                if state.complete() && exists|d: int| matches_at(tx, pat, false, d) {
                    let d = choose|d: int| matches_at(tx, pat, false, d);
                    assert(d + m <= n);
                }
            }
            return None;
        }
        let mut counts: HashMap<usize, usize> = HashMap::new();
        let mut text_pos: usize = 0;
        while text_pos <= n - k
            invariant
                state.wf(),
                inner == &state.inner,
                k == inner.k,
                pat == inner.pattern@,
                m == pat.len(),
                tx == text@,
                k > 0,
                n == tx.len(),
                n >= k,
                text_pos <= n - k + 1,
                forall|d: int|
                    #[trigger] matches_at(tx, pat, false, d) ==> count_of(counts@, d) >= occ_hits(d, text_pos as int, m, k as int)
                        && (count_of(counts@, d) == 0 || count_of(counts@, d) < inner.min_hits),
            decreases n - k + 1 - text_pos,
        {
            let t = text_pos;
            let h = window_hash(text, t, k);
            let ghost lst = state.list(h);
            let query_positions: &Vec<usize> = match inner.map.get(&h) {
                Some(l) => l,
                None => &Vec::new(),
            };
            assert(query_positions@ == lst);
            let mut qi: usize = 0;
            while qi < query_positions.len()
                invariant
                    state.wf(),
                    inner == &state.inner,
                    k == inner.k,
                    pat == inner.pattern@,
                    m == pat.len(),
                    tx == text@,
                    k > 0,
                    n == tx.len(),
                    t + k <= n,
                    query_positions@ == lst,
                    lst == state.list(h),
                    h == hash_of(window(tx, t as int, k as int)),
                    qi <= lst.len(),
                    forall|d: int|
                        #[trigger] matches_at(tx, pat, false, d) ==> count_of(counts@, d) >= occ_hits(d, t as int, m, k as int)
                            + (if d <= t <= d + m - k && lst.take(qi as int).contains((t - d) as usize) {
                            1int
                        } else {
                            0int
                        }) && (count_of(counts@, d) == 0 || count_of(counts@, d) < inner.min_hits),
                decreases lst.len() - qi,
            {
                let query_pos = query_positions[qi];
                assert(lst[qi as int] + k <= m);
                let ghost before = counts@;
                if query_pos <= t && windows_equal(text, t, inner.pattern.as_slice(), query_pos, k) {
                    let diagonal = t - query_pos;
                    let count = match counts.get(&diagonal) {
                        Some(c) => *c,
                        None => 0,
                    };
                    let count = if count < usize::MAX {
                        count + 1
                    } else {
                        count
                    };
                    counts.insert(diagonal, count);
                    if count >= inner.min_hits && occurs_here(text, inner.pattern.as_slice(), diagonal) {
                        return Some(diagonal);
                    }
                    assert forall|d: int| #[trigger] matches_at(tx, pat, false, d) implies count_of(counts@, d) >= occ_hits(
                        d,
                        t as int,
                        m,
                        k as int,
                    ) + (if d <= t <= d + m - k && lst.take(qi + 1).contains((t - d) as usize) {
                        1int
                    } else {
                        0int
                    }) && (count_of(counts@, d) == 0 || count_of(counts@, d) < inner.min_hits) by {
                        assert(lst.take(qi + 1) =~= lst.take(qi as int).push(query_pos));
                        if d != diagonal as int {
                            assert(count_of(counts@, d) == count_of(before, d));
                        }
                    }
                } else {
                    assert forall|d: int| #[trigger] matches_at(tx, pat, false, d) implies count_of(counts@, d) >= occ_hits(
                        d,
                        t as int,
                        m,
                        k as int,
                    ) + (if d <= t <= d + m - k && lst.take(qi + 1).contains((t - d) as usize) {
                        1int
                    } else {
                        0int
                    }) && (count_of(counts@, d) == 0 || count_of(counts@, d) < inner.min_hits) by {
                        assert(lst.take(qi + 1) =~= lst.take(qi as int).push(query_pos));
                        if d <= t <= d + m - k && query_pos as int == t - d {
                            assert forall|y: int| 0 <= y < k implies window(tx, t as int, k as int)[y] == window(
                                pat,
                                query_pos as int,
                                k as int,
                            )[y] by {
                                assert(tx[d + (t - d + y)] == pat[t - d + y]);
                            }
                            assert(window(tx, t as int, k as int) =~= window(pat, query_pos as int, k as int));
                        }
                    }
                }
                qi += 1;
            }
            assert forall|d: int| #[trigger] matches_at(tx, pat, false, d) implies count_of(counts@, d) >= occ_hits(
                d,
                t + 1,
                m,
                k as int,
            ) && (count_of(counts@, d) == 0 || count_of(counts@, d) < inner.min_hits) by {
                assert(lst.take(lst.len() as int) =~= lst);
                if d <= t <= d + m - k {
                    let q = t - d;
                    assert(window(tx, t as int, k as int) =~= window(pat, q, k as int)) by {
                        assert forall|y: int| 0 <= y < k implies window(tx, t as int, k as int)[y] == window(pat, q, k as int)[y] by {
                            assert(tx[d + (q + y)] == pat[q + y]);
                        }
                    }
                    assert(state.list(hash_of(window(pat, q, k as int))).contains(q as usize));
                }
            }
            text_pos += 1;
        }
        proof {
            if state.complete() && exists|d: int| matches_at(tx, pat, false, d) {
                let d = choose|d: int| matches_at(tx, pat, false, d);
                assert(occ_hits(d, (n - k + 1) as int, m, k as int) == m - k + 1);
            }
        }
        None
    }

    /// Every diagonal that reaches `min_hits` k-mer hits and where the pattern occurs, in
    /// increasing order; with complete settings, that is every occurrence.
    #[verifier::rlimit(100)]
    fn scan_all(state: &KmerIndex, text: &[u8]) -> (r: Vec<usize>)
        requires
            state.wf(),
        ensures
            forall|a: int, b: int| 0 <= a < b < r@.len() ==> r@[a] < r@[b],
            forall|a: int| 0 <= a < r@.len() ==> matches_at(text@, state.pattern_spec(), false, #[trigger] r@[a] as int),
            state.complete() ==> forall|d: int|
                #[trigger] matches_at(text@, state.pattern_spec(), false, d) ==> r@.to_set().contains(d as usize),
    {
        let inner = &state.inner;
        let k = inner.k;
        let n = text.len();
        let ghost pat = inner.pattern@;
        let ghost m = pat.len() as int;
        let ghost tx = text@;
        let mut results: Vec<usize> = Vec::new();
        if k == 0 || n < k {
            proof {
                if state.complete() {
                    assert forall|d: int| #[trigger] matches_at(tx, pat, false, d) implies results@.to_set().contains(d as usize) by {
                        assert(d + m <= n);
                    }
                }
            }
            return results;
        }
        let mut counts: HashMap<usize, usize> = HashMap::new();
        let mut text_pos: usize = 0;
        while text_pos <= n - k
            invariant
                state.wf(),
                inner == &state.inner,
                k == inner.k,
                pat == inner.pattern@,
                m == pat.len(),
                tx == text@,
                k > 0,
                n == tx.len(),
                n >= k,
                text_pos <= n - k + 1,
                forall|a: int, b: int| 0 <= a < b < results@.len() ==> results@[a] < results@[b],
                forall|a: int| 0 <= a < results@.len() ==> matches_at(tx, pat, false, #[trigger] results@[a] as int),
                forall|d: int|
                    #[trigger] matches_at(tx, pat, false, d) ==> count_of(counts@, d) >= occ_hits(d, text_pos as int, m, k as int)
                        && (count_of(counts@, d) > 0 && count_of(counts@, d) >= inner.min_hits ==> results@.to_set().contains(d as usize)),
            decreases n - k + 1 - text_pos,
        {
            let t = text_pos;
            let h = window_hash(text, t, k);
            let ghost lst = state.list(h);
            let query_positions: &Vec<usize> = match inner.map.get(&h) {
                Some(l) => l,
                None => &Vec::new(),
            };
            assert(query_positions@ == lst);
            let mut qi: usize = 0;
            while qi < query_positions.len()
                invariant
                    state.wf(),
                    inner == &state.inner,
                    k == inner.k,
                    pat == inner.pattern@,
                    m == pat.len(),
                    tx == text@,
                    k > 0,
                    n == tx.len(),
                    t + k <= n,
                    query_positions@ == lst,
                    lst == state.list(h),
                    h == hash_of(window(tx, t as int, k as int)),
                    qi <= lst.len(),
                    forall|a: int, b: int| 0 <= a < b < results@.len() ==> results@[a] < results@[b],
                    forall|a: int| 0 <= a < results@.len() ==> matches_at(tx, pat, false, #[trigger] results@[a] as int),
                    forall|d: int|
                        #[trigger] matches_at(tx, pat, false, d) ==> count_of(counts@, d) >= occ_hits(d, t as int, m, k as int)
                            + (if d <= t <= d + m - k && lst.take(qi as int).contains((t - d) as usize) {
                            1int
                        } else {
                            0int
                        }) && (count_of(counts@, d) > 0 && count_of(counts@, d) >= inner.min_hits ==> results@.to_set().contains(d as usize)),
                decreases lst.len() - qi,
            {
                let query_pos = query_positions[qi];
                assert(lst[qi as int] + k <= m);
                let ghost before = counts@;
                let ghost before_results = results@;
                if query_pos <= t && windows_equal(text, t, inner.pattern.as_slice(), query_pos, k) {
                    let diagonal = t - query_pos;
                    let count = match counts.get(&diagonal) {
                        Some(c) => *c,
                        None => 0,
                    };
                    let count = if count < usize::MAX {
                        count + 1
                    } else {
                        count
                    };
                    counts.insert(diagonal, count);
                    if count >= inner.min_hits && occurs_here(text, inner.pattern.as_slice(), diagonal) {
                        crate::fm_index::insert_sorted(&mut results, diagonal);
                        assert forall|a: int| 0 <= a < results@.len() implies matches_at(tx, pat, false, #[trigger] results@[a] as int) by {
                            assert(results@.to_set().contains(results@[a]));
                            if results@[a] != diagonal {
                                assert(before_results.to_set().contains(results@[a]));
                                let b = choose|b: int| 0 <= b < before_results.len() && before_results[b] == results@[a];
                                assert(matches_at(tx, pat, false, before_results[b] as int));
                            }
                        }
                    }
                    assert forall|d: int| #[trigger] matches_at(tx, pat, false, d) implies count_of(counts@, d) >= occ_hits(
                        d,
                        t as int,
                        m,
                        k as int,
                    ) + (if d <= t <= d + m - k && lst.take(qi + 1).contains((t - d) as usize) {
                        1int
                    } else {
                        0int
                    }) && (count_of(counts@, d) > 0 && count_of(counts@, d) >= inner.min_hits ==> results@.to_set().contains(d as usize)) by {
                        assert(lst.take(qi + 1) =~= lst.take(qi as int).push(query_pos));
                        if d != diagonal as int {
                            assert(count_of(counts@, d) == count_of(before, d));
                        }
                    }
                } else {
                    assert forall|d: int| #[trigger] matches_at(tx, pat, false, d) implies count_of(counts@, d) >= occ_hits(
                        d,
                        t as int,
                        m,
                        k as int,
                    ) + (if d <= t <= d + m - k && lst.take(qi + 1).contains((t - d) as usize) {
                        1int
                    } else {
                        0int
                    }) && (count_of(counts@, d) > 0 && count_of(counts@, d) >= inner.min_hits ==> results@.to_set().contains(d as usize)) by {
                        assert(lst.take(qi + 1) =~= lst.take(qi as int).push(query_pos));
                        if d <= t <= d + m - k && query_pos as int == t - d {
                            assert forall|y: int| 0 <= y < k implies window(tx, t as int, k as int)[y] == window(
                                pat,
                                query_pos as int,
                                k as int,
                            )[y] by {
                                assert(tx[d + (t - d + y)] == pat[t - d + y]);
                            }
                            assert(window(tx, t as int, k as int) =~= window(pat, query_pos as int, k as int));
                        }
                    }
                }
                qi += 1;
            }
            assert forall|d: int| #[trigger] matches_at(tx, pat, false, d) implies count_of(counts@, d) >= occ_hits(
                d,
                t + 1,
                m,
                k as int,
            ) && (count_of(counts@, d) > 0 && count_of(counts@, d) >= inner.min_hits ==> results@.to_set().contains(d as usize)) by {
                assert(lst.take(lst.len() as int) =~= lst);
                if d <= t <= d + m - k {
                    let q = t - d;
                    assert(window(tx, t as int, k as int) =~= window(pat, q, k as int)) by {
                        assert forall|y: int| 0 <= y < k implies window(tx, t as int, k as int)[y] == window(pat, q, k as int)[y] by {
                            assert(tx[d + (q + y)] == pat[q + y]);
                        }
                    }
                    assert(state.list(hash_of(window(pat, q, k as int))).contains(q as usize));
                }
            }
            text_pos += 1;
        }
        proof {
            if state.complete() {
                assert forall|d: int| #[trigger] matches_at(tx, pat, false, d) implies results@.to_set().contains(d as usize) by {
                    assert(occ_hits(d, (n - k + 1) as int, m, k as int) == m - k + 1);
                }
            }
        }
        results
    }
}

impl StringSearch for KmerSearch {
    type Config = KmerConfig;

    type State = KmerIndex;

    open spec fn pattern_of(config: &KmerConfig) -> Seq<u8> {
        config.pattern@
    }

    open spec fn underscore_wild() -> bool {
        false
    }

    open spec fn accepts(pattern: Seq<u8>) -> bool {
        true
    }

    open spec fn state_ok(config: &KmerConfig, state: &KmerIndex) -> bool {
        state.wf() && state.pattern_spec() == config.pattern@
    }

    /// Windows of three bytes (fewer for a shorter literal), every window asked to hit.
    fn config_for(literal: &[u8]) -> (r: KmerConfig) {
        let m = literal.len();
        let k = if m < 3 {
            m
        } else {
            3
        };
        KmerConfig { pattern: slice_to_vec(literal), k, min_hits: m - k + 1 }
    }

    fn build(config: &KmerConfig) -> (r: KmerIndex) {
        KmerSearch::build_index(config.pattern.as_slice(), config.k, config.min_hits)
    }

    /// With complete settings the k-mer scan finds an occurrence whenever there is one, and
    /// the text up to its end is then searched directly for the first; otherwise the text is
    /// searched directly.
    fn find_bytes(config: &KmerConfig, state: &KmerIndex, text: &[u8]) -> (r: Option<usize>) {
        let inner = &state.inner;
        let m = inner.pattern.len();
        let k = inner.k;
        if 1 <= k && k <= m && inner.min_hits <= m - k + 1 {
            match KmerSearch::scan_first(state, text) {
                Some(d) => {
                    let n = text.len();
                    assert(d + m <= n);
                    let prefix = slice_subrange(text, 0, d + m);
                    let r = naive_find_scalar(prefix, inner.pattern.as_slice());
                    proof {
                        lemma_first_in_prefix(text@, inner.pattern@, false, d as int, r);
                    }
                    r
                },
                None => None,
            }
        } else {
            naive_find_scalar(text, inner.pattern.as_slice())
        }
    }

    fn find_all_bytes(config: &KmerConfig, state: &KmerIndex, text: &[u8]) -> (r: Vec<usize>) {
        let inner = &state.inner;
        let m = inner.pattern.len();
        let k = inner.k;
        if 1 <= k && k <= m && inner.min_hits <= m - k + 1 {
            let n = text.len();
            let r = KmerSearch::scan_all(state, text);
            assert(state.complete());
            assert forall|j: int| matches_at(text@, inner.pattern@, false, j) implies exists|a: int|
                0 <= a < r@.len() && r@[a] == j by {
                assert(0 <= j <= n);
                assert(r@.to_set().contains(j as usize));
                assert(r@.contains(j as usize));
                let a = choose|a: int| 0 <= a < r@.len() && r@[a] == j as usize;
                assert(r@[a] == j);
            }
            r
        } else {
            naive_find_all_scalar(text, inner.pattern.as_slice())
        }
    }
}

} // verus!
