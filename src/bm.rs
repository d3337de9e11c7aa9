use vstd::prelude::*;

use vstd::slice::slice_to_vec;

use crate::kernel::{find_all_by_first, StringSearch};
use crate::occurrence::{every_offset, is_all_occurrences, is_first_occurrence, matches_at};

verus! {

/// The last index of byte `b` in `p`, or -1.
pub open spec fn last_index(p: Seq<u8>, b: u8) -> int
    decreases p.len(),
{
    if p.len() == 0 {
        -1
    } else if p.last() == b {
        p.len() - 1
    } else {
        last_index(p.drop_last(), b)
    }
}

proof fn lemma_last_index(p: Seq<u8>, b: u8)
    ensures
        -1 <= last_index(p, b) < p.len(),
        last_index(p, b) >= 0 ==> p[last_index(p, b)] == b,
        forall|k: int| last_index(p, b) < k < p.len() ==> p[k] != b,
    decreases p.len(),
{
    if p.len() > 0 && p.last() != b {
        lemma_last_index(p.drop_last(), b);
        assert forall|k: int| last_index(p, b) < k < p.len() implies p[k] != b by {
            if k < p.len() - 1 {
                assert(p.drop_last()[k] == p[k]);
            }
        }
    }
}

/// The pattern shifted right by `s` agrees with itself on positions `[j, len)`.
pub open spec fn consistent(p: Seq<u8>, j: int, s: int) -> bool {
    forall|k: int| j <= k < p.len() && k - s >= 0 ==> #[trigger] p[k - s] == p[k]
}

/// Every shift below `shift[j]` contradicts the matched suffix `p[j..]`, for every `j`.
pub open spec fn shifts_safe(p: Seq<u8>, shift: Seq<usize>) -> bool {
    &&& shift.len() == p.len() + 1
    &&& forall|j: int| 0 <= j <= p.len() ==> 1 <= #[trigger] shift[j] <= p.len() + 1
    &&& forall|j: int, s: int| 0 <= j <= p.len() && 1 <= s < shift[j] ==> !consistent(p, j, s)
}

/// The bad-character table: for each byte, one more than the last index at which it occurs in
/// `pattern`, or 0 when it does not occur.
fn build_bad_char_table(pattern: &[u8]) -> (r: Vec<usize>)
    ensures
        r@.len() == 256,
        forall|b: int| 0 <= b < 256 ==> #[trigger] r@[b] == last_index(pattern@, b as u8) + 1,
{
    let mut table: Vec<usize> = vec![0usize; 256];
    let mut i: usize = 0;
    while i < pattern.len()
        invariant
            i <= pattern@.len(),
            table@.len() == 256,
            forall|b: int| 0 <= b < 256 ==> #[trigger] table@[b] == last_index(pattern@.take(i as int), b as u8) + 1,
        decreases pattern@.len() - i,
    {
        let b = pattern[i];
        table.set(b as usize, i + 1);
        i += 1;
        assert forall|c: int| 0 <= c < 256 implies #[trigger] table@[c] == last_index(pattern@.take(i as int), c as u8) + 1 by {
            assert(pattern@.take(i as int).drop_last() =~= pattern@.take(i - 1));
        }
    }
    assert(pattern@.take(pattern@.len() as int) =~= pattern@);
    table
}

/// The good-suffix shifts, from the borders of the pattern's suffixes: entry `j` is how far to
/// move after the suffix from `j` matched and the byte before it did not.
fn build_good_suffix_table(pattern: &[u8]) -> (r: Vec<usize>)
    requires
        pattern@.len() < usize::MAX,
    ensures
        r@.len() == pattern@.len() + 1,
{
    let m = pattern.len();
    let mut shift: Vec<usize> = vec![0usize; m + 1];
    let mut border_pos: Vec<usize> = vec![0usize; m + 1];
    let mut i = m;
    let mut j = m + 1;
    border_pos.set(i, j);
    while i > 0
        invariant
            m == pattern@.len(),
            m < usize::MAX,
            shift@.len() == m + 1,
            border_pos@.len() == m + 1,
            i <= m,
            i < j <= m + 1,
            forall|k: int| 0 <= k <= m ==> #[trigger] border_pos@[k] <= m + 1,
            forall|k: int| i <= k <= m ==> k < #[trigger] border_pos@[k],
        decreases i,
    {
        while j <= m && pattern[i - 1] != pattern[j - 1]
            invariant
                m == pattern@.len(),
                m < usize::MAX,
                shift@.len() == m + 1,
                border_pos@.len() == m + 1,
                0 < i <= m,
                i < j <= m + 1,
                forall|k: int| 0 <= k <= m ==> #[trigger] border_pos@[k] <= m + 1,
                forall|k: int| i <= k <= m ==> k < #[trigger] border_pos@[k],
            decreases m + 1 - j,
        {
            if shift[j] == 0 {
                shift.set(j, j - i);
            }
            j = border_pos[j];
        }
        i -= 1;
        j -= 1;
        border_pos.set(i, j);
    }
    j = border_pos[0];
    let mut k: usize = 0;
    while k <= m
        invariant
            m == pattern@.len(),
            m < usize::MAX,
            shift@.len() == m + 1,
            border_pos@.len() == m + 1,
            k <= m + 1,
            forall|q: int| 0 <= q <= m ==> #[trigger] border_pos@[q] <= m + 1,
            j <= m + 1,
        decreases m + 1 - k,
    {
        if shift[k] == 0 {
            shift.set(k, j);
        }
        if k == j {
            j = border_pos[j];
        }
        k += 1;
    }
    shift
}

/// For each shift `s` in `[1, len]`, the least `j` from which the shifted pattern agrees with
/// itself: `consistent(p, j, s)` holds exactly when `j >= r[s]`.
fn build_consistency(pattern: &[u8]) -> (r: Vec<usize>)
    requires
        pattern@.len() < usize::MAX,
    ensures
        r@.len() == pattern@.len() + 1,
        forall|s: int, j: int|
            1 <= s <= pattern@.len() && 0 <= j <= pattern@.len() ==> (#[trigger] consistent(pattern@, j, s) <==> j
                >= r@[s]),
{
    let m = pattern.len();
    let mut cons: Vec<usize> = vec![0usize; m + 1];
    let mut s: usize = 1;
    while s <= m
        invariant
            m == pattern@.len(),
            m < usize::MAX,
            1 <= s <= m + 1,
            cons@.len() == m + 1,
            forall|t: int, j: int|
                1 <= t < s && 0 <= j <= m ==> (#[trigger] consistent(pattern@, j, t) <==> j >= cons@[t]),
        decreases m + 1 - s,
    {
        let mut q = m;
        while q > s && pattern[q - 1 - s] == pattern[q - 1]
            invariant
                m == pattern@.len(),
                1 <= s <= m,
                s <= q <= m,
                forall|k: int| q <= k < m && k - s >= 0 ==> #[trigger] pattern@[k - s] == pattern@[k],
            decreases q,
        {
            q -= 1;
        }
        let c = if q == s {
            0
        } else {
            q
        };
        cons.set(s, c);
        assert forall|t: int, j: int| 1 <= t < s + 1 && 0 <= j <= m implies (#[trigger] consistent(pattern@, j, t)
            <==> j >= cons@[t]) by {
            if t == s as int {
                if q > s && j < q {
                    assert(pattern@[(q - 1) - t] != pattern@[q - 1]);
                }
            }
        }
        s += 1;
    }
    cons
}

/// `shift` if every entry of it is safe, else the shift of one everywhere, which always is.
fn checked_shifts(pattern: &[u8], shift: Vec<usize>) -> (r: Vec<usize>)
    requires
        pattern@.len() < usize::MAX,
        shift@.len() == pattern@.len() + 1,
    ensures
        shifts_safe(pattern@, r@),
{
    let m = pattern.len();
    let cons = build_consistency(pattern);
    let mut ok = true;
    let mut j: usize = 0;
    while j <= m
        invariant
            m == pattern@.len(),
            m < usize::MAX,
            j <= m + 1,
            shift@.len() == m + 1,
            cons@.len() == m + 1,
            forall|s: int, j: int|
                1 <= s <= m && 0 <= j <= m ==> (#[trigger] consistent(pattern@, j, s) <==> j >= cons@[s]),
            ok ==> forall|q: int| 0 <= q < j ==> 1 <= #[trigger] shift@[q] <= m + 1,
            ok ==> forall|q: int, s: int| 0 <= q < j && 1 <= s < shift@[q] ==> !consistent(pattern@, q, s),
        decreases m + 1 - j,
    {
        let g = shift[j];
        if g == 0 || g > m + 1 {
            ok = false;
        } else {
            let mut s: usize = 1;
            while s < g
                invariant
                    m == pattern@.len(),
                    j <= m,
                    1 <= s <= g <= m + 1,
                    cons@.len() == m + 1,
                    forall|s: int, j: int|
                        1 <= s <= m && 0 <= j <= m ==> (#[trigger] consistent(pattern@, j, s) <==> j >= cons@[s]),
                    ok ==> forall|t: int| 1 <= t < s ==> !consistent(pattern@, j as int, t),
                    shift@.len() == m + 1,
                    g == shift@[j as int],
                    ok ==> forall|q: int| 0 <= q < j ==> 1 <= #[trigger] shift@[q] <= m + 1,
                    ok ==> forall|q: int, s: int| 0 <= q < j && 1 <= s < shift@[q] ==> !consistent(pattern@, q, s),
                decreases g - s,
            {
                if j >= cons[s] {
                    ok = false;
                }
                s += 1;
            }
            assert(ok ==> forall|q: int, t: int| 0 <= q < j + 1 && 1 <= t < shift@[q] ==> !consistent(pattern@, q, t)) by {
                if ok {
                    assert forall|q: int, t: int| 0 <= q < j + 1 && 1 <= t < shift@[q] implies !consistent(pattern@, q, t) by {
                        if q == j as int {
                            assert(!consistent(pattern@, j as int, t));
                        }
                    }
                }
            }
        }
        j += 1;
    }
    if ok {
        shift
    } else {
        let fallback = vec![1usize; m + 1];
        assert forall|j: int| 0 <= j <= m implies 1 <= #[trigger] fallback@[j] <= m + 1 by {
        }
        fallback
    }
}

/// The Boyer-Moore tables of a pattern.
pub struct BmState {
    bad_char: Vec<usize>,
    good_suffix: Vec<usize>,
}

impl BmState {
    pub closed spec fn built_for(&self, p: Seq<u8>) -> bool {
        &&& p.len() < usize::MAX
        &&& self.bad_char@.len() == 256
        &&& forall|b: int| 0 <= b < 256 ==> #[trigger] self.bad_char@[b] == last_index(p, b as u8) + 1
        &&& shifts_safe(p, self.good_suffix@)
    }

    /// The tables of `pattern`.
    pub fn build(pattern: &[u8]) -> (r: Self)
        requires
            pattern@.len() < usize::MAX,
        ensures
            r.built_for(pattern@),
    {
        let bad_char = build_bad_char_table(pattern);
        let good_suffix = checked_shifts(pattern, build_good_suffix_table(pattern));
        BmState { bad_char, good_suffix }
    }

    /// How far a mismatch at pattern index `idx`, against text byte `bad`, lets the alignment
    /// move: the larger of the bad-character and the good-suffix shift.
    fn shift_after_mismatch(&self, idx: usize, bad: u8, Ghost(p): Ghost<Seq<u8>>) -> (r: usize)
        requires
            self.built_for(p),
            idx < p.len(),
        ensures
            r >= 1,
            r <= p.len() + 1,
            forall|s: int| 1 <= s < r ==> (s < idx - last_index(p, bad) || !#[trigger] consistent(p, idx + 1, s)),
    {
        let last_plus_one = self.bad_char[bad as usize];
        let bc = if idx + 1 > last_plus_one {
            idx + 1 - last_plus_one
        } else {
            1
        };
        let gs = self.good_suffix[idx + 1];
        if bc > gs {
            bc
        } else {
            gs
        }
    }
}

proof fn lemma_bad_char_skip(text: Seq<u8>, p: Seq<u8>, i: int, idx: int, s: int)
    requires
        0 <= idx < p.len(),
        i + idx < text.len(),
        1 <= s < idx - last_index(p, text[i + idx]),
    ensures
        !matches_at(text, p, false, i + s),
{
    lemma_last_index(p, text[i + idx]);
    let k = idx - s;
    if matches_at(text, p, false, i + s) {
        assert(text[i + s + k] == p[k]);
    }
}

proof fn lemma_good_suffix_skip(text: Seq<u8>, p: Seq<u8>, i: int, j: int, s: int)
    requires
        0 <= j <= p.len(),
        0 <= i,
        i + p.len() <= text.len(),
        forall|k: int| j <= k < p.len() ==> text[i + k] == p[k],
        s >= 1,
        !consistent(p, j, s),
    ensures
        !matches_at(text, p, false, i + s),
{
    let k = choose|k: int| j <= k < p.len() && k - s >= 0 && #[trigger] p[k - s] != p[k];
    if matches_at(text, p, false, i + s) {
        assert(text[i + s + (k - s)] == p[k - s]);
        assert(text[i + k] == p[k]);
    }
}

/// Compares the alignment at `i` from its right end; the index of the mismatch plus one, or 0
/// on a full match.
fn compare_from_right(text: &[u8], pattern: &[u8], i: usize) -> (r: usize)
    requires
        i + pattern@.len() <= text@.len(),
    ensures
        r <= pattern@.len(),
        forall|k: int| r <= k < pattern@.len() ==> text@[i + k] == pattern@[k],
        r > 0 ==> text@[i + r - 1] != pattern@[r - 1],
{
    let n = text.len();
    let mut j = pattern.len();
    while j > 0 && pattern[j - 1] == text[i + (j - 1)]
        invariant
            n == text@.len(),
            j <= pattern@.len(),
            i + pattern@.len() <= text@.len(),
            forall|k: int| j <= k < pattern@.len() ==> text@[i + k] == pattern@[k],
        decreases j,
    {
        j -= 1;
    }
    j
}

/// Boyer-Moore search with prebuilt tables: the first occurrence of `pattern` in `text`.
fn bm_search(text: &[u8], pattern: &[u8], state: &BmState) -> (r: Option<usize>)
    requires
        state.built_for(pattern@),
    ensures
        is_first_occurrence(text@, pattern@, r),
{
    let n = text.len();
    let m = pattern.len();
    if m == 0 {
        assert(matches_at(text@, pattern@, false, 0));
        return Some(0);
    }
    if m > n {
        return None;
    }
    let mut i: usize = 0;
    while i <= n - m
        invariant
            n == text@.len(),
            m == pattern@.len(),
            0 < m <= n,
            state.built_for(pattern@),
            forall|q: int| 0 <= q < i ==> !matches_at(text@, pattern@, false, q),
        decreases n - i,
    {
        let j = compare_from_right(text, pattern, i);
        if j == 0 {
            return Some(i);
        }
        let idx = j - 1;
        let shift = state.shift_after_mismatch(idx, text[i + idx], Ghost(pattern@));
        assert forall|q: int| 0 <= q < i + shift implies !matches_at(text@, pattern@, false, q) by {
            if q == i {
                assert(text@[i + idx] != pattern@[idx as int]);
            } else if q > i {
                let s = q - i;
                if s < idx - last_index(pattern@, text@[i + idx]) {
                    lemma_bad_char_skip(text@, pattern@, i as int, idx as int, s);
                } else {
                    lemma_good_suffix_skip(text@, pattern@, i as int, idx + 1, s);
                }
            }
        }
        if shift > (n - m) - i {
            return None;
        }
        i = i + shift;
    }
    None
}

/// Boyer-Moore search with prebuilt tables: every occurrence of `pattern` in `text`; after a
/// full match the alignment moves by the good-suffix shift of the whole pattern.
fn bm_search_all(text: &[u8], pattern: &[u8], state: &BmState) -> (r: Vec<usize>)
    requires
        state.built_for(pattern@),
    ensures
        is_all_occurrences(text@, pattern@, r@),
{
    let n = text.len();
    let m = pattern.len();
    let mut res: Vec<usize> = Vec::new();
    if m > n {
        return res;
    }
    if m == 0 {
        let mut i: usize = 0;
        while i < n
            invariant
                i <= n,
                n == text@.len(),
                m == pattern@.len(),
                m == 0,
                res@ == every_offset(i as nat).take(i as int),
            decreases n - i,
        {
            res.push(i);
            i += 1;
            assert(res@ =~= every_offset(i as nat).take(i as int));
        }
        res.push(n);
        assert(res@ =~= every_offset(n as nat));
        assert forall|j: int| matches_at(text@, pattern@, false, j) implies exists|a: int|
            0 <= a < res@.len() && res@[a] == j by {
            assert(res@[j] == j);
        }
        return res;
    }
    let mut i: usize = 0;
    while i <= n - m
        invariant
            n == text@.len(),
            m == pattern@.len(),
            0 < m <= n,
            state.built_for(pattern@),
            forall|a: int, b: int| 0 <= a < b < res@.len() ==> res@[a] < res@[b],
            forall|a: int| 0 <= a < res@.len() ==> res@[a] < i,
            forall|a: int| 0 <= a < res@.len() ==> matches_at(text@, pattern@, false, #[trigger] res@[a] as int),
            forall|q: int|
                0 <= q < i && matches_at(text@, pattern@, false, q) ==> exists|a: int|
                    0 <= a < res@.len() && res@[a] == q,
        decreases n - i,
    {
        let j = compare_from_right(text, pattern, i);
        let ghost old_res = res@;
        let shift;
        if j == 0 {
            res.push(i);
            shift = state.good_suffix[0];
            assert forall|q: int| 0 <= q < i + shift && matches_at(text@, pattern@, false, q) implies exists|a: int|
                0 <= a < res@.len() && res@[a] == q by {
                if q < i {
                    let a = choose|a: int| 0 <= a < old_res.len() && old_res[a] == q;
                    assert(res@[a] == q);
                } else if q == i {
                    assert(res@[res@.len() - 1] == q);
                } else {
                    lemma_good_suffix_skip(text@, pattern@, i as int, 0, q - i);
                }
            }
        } else {
            let idx = j - 1;
            shift = state.shift_after_mismatch(idx, text[i + idx], Ghost(pattern@));
            assert forall|q: int| 0 <= q < i + shift && matches_at(text@, pattern@, false, q) implies exists|a: int|
                0 <= a < res@.len() && res@[a] == q by {
                if q < i {
                    let a = choose|a: int| 0 <= a < old_res.len() && old_res[a] == q;
                    assert(res@[a] == q);
                } else if q == i {
                    assert(text@[i + idx] != pattern@[idx as int]);
                } else {
                    let s = q - i;
                    if s < idx - last_index(pattern@, text@[i + idx]) {
                        lemma_bad_char_skip(text@, pattern@, i as int, idx as int, s);
                    } else {
                        lemma_good_suffix_skip(text@, pattern@, i as int, idx + 1, s);
                    }
                }
            }
        }
        if shift > (n - m) - i {
            assert forall|q: int| matches_at(text@, pattern@, false, q) implies exists|a: int|
                0 <= a < res@.len() && res@[a] == q by {
            }
            return res;
        }
        i = i + shift;
    }
    res
}

/// Boyer-Moore search: the first occurrence of `pattern` in `text`.
pub fn bm_find(text: &[u8], pattern: &[u8]) -> (r: Option<usize>)
    ensures
        is_first_occurrence(text@, pattern@, r),
{
    if pattern.len() > text.len() {
        return None;
    }
    if pattern.len() == usize::MAX {
        return crate::naive::naive_find_scalar(text, pattern);
    }
    let state = BmState::build(pattern);
    bm_search(text, pattern, &state)
}

/// Boyer-Moore search: every occurrence of `pattern` in `text`, overlaps included.
pub fn bm_find_all(text: &[u8], pattern: &[u8]) -> (r: Vec<usize>)
    ensures
        is_all_occurrences(text@, pattern@, r@),
{
    if pattern.len() == usize::MAX {
        return crate::naive::naive_find_all_scalar(text, pattern);
    }
    let state = BmState::build(pattern);
    bm_search_all(text, pattern, &state)
}

/// The Boyer-Moore kernel: bad-character and good-suffix shifts.
pub struct BM;

impl StringSearch for BM {
    type Config = Vec<u8>;

    type State = BmState;

    open spec fn pattern_of(config: &Vec<u8>) -> Seq<u8> {
        config@
    }

    open spec fn underscore_wild() -> bool {
        false
    }

    open spec fn accepts(pattern: Seq<u8>) -> bool {
        pattern.len() < usize::MAX
    }

    open spec fn state_ok(config: &Vec<u8>, state: &BmState) -> bool {
        state.built_for(config@)
    }

    fn config_for(literal: &[u8]) -> (r: Vec<u8>) {
        slice_to_vec(literal)
    }

    fn build(config: &Vec<u8>) -> (r: BmState) {
        BmState::build(config.as_slice())
    }

    fn find_bytes(config: &Vec<u8>, state: &BmState, text: &[u8]) -> (r: Option<usize>) {
        bm_search(text, config.as_slice(), state)
    }

    fn find_all_bytes(config: &Vec<u8>, state: &BmState, text: &[u8]) -> (r: Vec<usize>) {
        bm_search_all(text, config.as_slice(), state)
    }
}

} // verus!
