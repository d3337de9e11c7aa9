use vstd::prelude::*;

use vstd::slice::{slice_subrange, slice_to_vec};

use crate::fm_index::count_in;
use crate::kernel::StringSearch;
use crate::naive::naive_find_scalar;
use crate::occurrence::{is_all_matches, is_first_occurrence, lemma_matches_in_suffix, matches_at};

verus! {

/// The longest pattern that the lookup tables serve; longer ones go to the naive search.
pub const SHORT_MAX: usize = 8;

/// How often `b` occurs in `p`, counted up to 255.
pub open spec fn capped_count(p: Seq<u8>, b: u8) -> nat {
    if count_in(p, b) > 255 {
        255
    } else {
        count_in(p, b)
    }
}

/// `(sig, idx)` is the rarest byte of `p` and its leftmost index: no byte of `p` is rarer, and
/// every byte before `idx` is more frequent.
pub open spec fn is_rarest(p: Seq<u8>, sig: u8, idx: int) -> bool {
    &&& 0 <= idx < p.len()
    &&& p[idx] == sig
    &&& forall|k: int| 0 <= k < p.len() ==> capped_count(p, sig) <= capped_count(p, #[trigger] p[k])
    &&& forall|k: int| 0 <= k < idx ==> capped_count(p, sig) < capped_count(p, #[trigger] p[k])
}

/// The state of the short-pattern kernel: the pattern, its rarest byte as a signature, and one
/// lookup table per nibble that marks the signature's nibble with `0xff`.
pub struct LutShortState {
    pattern: Vec<u8>,
    len: usize,
    sig: u8,
    sig_index: usize,
    lut_lo: Vec<u8>,
    lut_hi: Vec<u8>,
}

impl LutShortState {
    pub closed spec fn built_for(&self, p: Seq<u8>) -> bool {
        &&& self.len == p.len()
        &&& self.pattern@ == p.take(if p.len() < 8 { p.len() as int } else { 8 })
        &&& p.len() > 0 ==> is_rarest(p, self.sig, self.sig_index as int)
        &&& self.lut_lo@.len() == 16
        &&& self.lut_hi@.len() == 16
        &&& forall|x: int| 0 <= x < 16 ==> #[trigger] self.lut_lo@[x] == if x == (self.sig % 16) as int {
            0xffu8
        } else {
            0u8
        }
        &&& forall|x: int| 0 <= x < 16 ==> #[trigger] self.lut_hi@[x] == if x == (self.sig / 16) as int {
            0xffu8
        } else {
            0u8
        }
    }
}

/// Byte counts of `pattern`, each capped at 255.
fn capped_counts(pattern: &[u8]) -> (r: Vec<u8>)
    ensures
        r@.len() == 256,
        forall|b: int| 0 <= b < 256 ==> #[trigger] r@[b] == capped_count(pattern@, b as u8),
{
    let mut counts: Vec<u8> = vec![0u8; 256];
    let mut i: usize = 0;
    assert(pattern@.take(0) =~= Seq::<u8>::empty());
    while i < pattern.len()
        invariant
            i <= pattern@.len(),
            counts@.len() == 256,
            forall|b: int| 0 <= b < 256 ==> #[trigger] counts@[b] == capped_count(pattern@.take(i as int), b as u8),
        decreases pattern@.len() - i,
    {
        let b = pattern[i] as usize;
        let c = counts[b];
        let v = if c == 255u8 {
            255u8
        } else {
            c + 1
        };
        counts.set(b, v);
        i += 1;
        assert forall|x: int| 0 <= x < 256 implies #[trigger] counts@[x] == capped_count(pattern@.take(i as int), x as u8) by {
            assert(pattern@.take(i as int).drop_last() =~= pattern@.take(i - 1));
        }
    }
    assert(pattern@.take(pattern@.len() as int) =~= pattern@);
    counts
}

/// The rarest byte of `pattern` and the leftmost index at which it occurs; `(0, 0)` for the
/// empty pattern.
fn rarest_byte(pattern: &[u8]) -> (r: (u8, usize))
    ensures
        pattern@.len() > 0 ==> is_rarest(pattern@, r.0, r.1 as int),
        pattern@.len() == 0 ==> r == (0u8, 0usize),
{
    if pattern.len() == 0 {
        return (0, 0);
    }
    let counts = capped_counts(pattern);
    let mut best = pattern[0];
    let mut best_idx: usize = 0;
    let mut best_count = counts[best as usize];
    let mut idx: usize = 0;
    while idx < pattern.len()
        invariant
            0 < pattern@.len(),
            idx <= pattern@.len(),
            counts@.len() == 256,
            forall|b: int| 0 <= b < 256 ==> #[trigger] counts@[b] == capped_count(pattern@, b as u8),
            best_idx < pattern@.len(),
            pattern@[best_idx as int] == best,
            best_count == capped_count(pattern@, best),
            forall|k: int| 0 <= k < idx ==> best_count <= capped_count(pattern@, #[trigger] pattern@[k]),
            forall|k: int| 0 <= k < best_idx ==> best_count < capped_count(pattern@, #[trigger] pattern@[k]),
        decreases pattern@.len() - idx,
    {
        let b = pattern[idx];
        let count = counts[b as usize];
        if count < best_count {
            best = b;
            best_idx = idx;
            best_count = count;
        }
        idx += 1;
    }
    (best, best_idx)
}

/// The state for `pattern`: its first eight bytes, its signature and the nibble tables.
fn build_state(pattern: &[u8]) -> (r: LutShortState)
    ensures
        r.built_for(pattern@),
{
    let len = pattern.len();
    let copy_len = if len < SHORT_MAX {
        len
    } else {
        SHORT_MAX
    };
    let mut buf: Vec<u8> = Vec::new();
    let mut i: usize = 0;
    while i < copy_len
        invariant
            copy_len <= pattern@.len(),
            i <= copy_len,
            buf@ == pattern@.take(i as int),
        decreases copy_len - i,
    {
        buf.push(pattern[i]);
        i += 1;
        assert(buf@ =~= pattern@.take(i as int));
    }
    let (sig, sig_index) = rarest_byte(pattern);
    let mut lut_lo: Vec<u8> = vec![0u8; 16];
    let mut lut_hi: Vec<u8> = vec![0u8; 16];
    let lo = (sig & 0x0f) as usize;
    let hi = (sig >> 4) as usize;
    assert(sig & 0x0f == sig % 16 && sig >> 4 == sig / 16) by (bit_vector);
    lut_lo.set(lo, 0xff);
    lut_hi.set(hi, 0xff);
    LutShortState { pattern: buf, len, sig, sig_index, lut_lo, lut_hi }
}

/// Whether the stored pattern occurs in `text` at `pos`.
fn matches_at_pos(state: &LutShortState, text: &[u8], pos: usize, Ghost(p): Ghost<Seq<u8>>) -> (r: bool)
    requires
        state.built_for(p),
        p.len() <= SHORT_MAX,
    ensures
        r == matches_at(text@, p, false, pos as int),
{
    let m = state.len;
    let n = text.len();
    if pos > n || m > n - pos {
        return false;
    }
    assert(state.pattern@ =~= p);
    let mut k: usize = 0;
    while k < m
        invariant
            m == p.len(),
            n == text@.len(),
            pos + m <= n,
            state.pattern@ == p,
            k <= m,
            forall|j: int| 0 <= j < k ==> text@[pos + j] == p[j],
        decreases m - k,
    {
        if text[pos + k] != state.pattern[k] {
            return false;
        }
        k += 1;
    }
    true
}

/// Whether the nibble tables mark byte `c` as the signature.
fn lane_hit(state: &LutShortState, c: u8, Ghost(p): Ghost<Seq<u8>>) -> (r: bool)
    requires
        state.built_for(p),
    ensures
        r == (c == state.sig),
{
    let sig = state.sig;
    assert(c & 0x0f == c % 16 && c >> 4 == c / 16 && c & 0x0f < 16 && c >> 4 < 16) by (bit_vector);
    let lo = state.lut_lo[(c & 0x0f) as usize];
    let hi = state.lut_hi[(c >> 4) as usize];
    assert((c % 16 == sig % 16 && c / 16 == sig / 16) <==> c == sig) by (nonlinear_arith);
    assert(lo == 0u8 || lo == 0xffu8);
    assert(hi == 0u8 || hi == 0xffu8);
    assert(((lo & hi) == 0xffu8) <==> (lo == 0xffu8 && hi == 0xffu8)) by (bit_vector)
        requires
            lo == 0u8 || lo == 0xffu8,
            hi == 0u8 || hi == 0xffu8,
    ;
    (lo & hi) == 0xffu8
}

/// Scans the lanes `[base, base + limit)`: each lane whose byte is the signature names the
/// alignment that would put the signature there, and the first such alignment that matches is
/// returned.
fn scan_block(state: &LutShortState, text: &[u8], base: usize, limit: usize, Ghost(p): Ghost<Seq<u8>>) -> (r: Option<usize>)
    requires
        state.built_for(p),
        0 < p.len() <= SHORT_MAX,
        base + limit <= text@.len(),
        forall|s: int| 0 <= s && s + state.sig_index < base ==> !matches_at(text@, p, false, s),
    ensures
        match r {
            Some(s) => is_first_occurrence(text@, p, Some(s)),
            None => forall|s: int| 0 <= s && s + state.sig_index < base + limit ==> !matches_at(text@, p, false, s),
        },
{
    let sig_index = state.sig_index;
    let n = text.len();
    let mut lane: usize = 0;
    while lane < limit
        invariant
            n == text@.len(),
            state.built_for(p),
            0 < p.len() <= SHORT_MAX,
            base + limit <= text@.len(),
            sig_index == state.sig_index,
            lane <= limit,
            forall|s: int| 0 <= s && s + sig_index < base + lane ==> !matches_at(text@, p, false, s),
        decreases limit - lane,
    {
        let cand = base + lane;
        if lane_hit(state, text[cand], Ghost(p)) && cand >= sig_index {
            let start = cand - sig_index;
            if matches_at_pos(state, text, start, Ghost(p)) {
                return Some(start);
            }
        } else {
            assert forall|s: int| 0 <= s && s + sig_index == cand implies !matches_at(text@, p, false, s) by {
                if matches_at(text@, p, false, s) {
                    assert(text@[s + sig_index] == p[sig_index as int]);
                }
            }
        }
        lane += 1;
    }
    None
}

/// The short-pattern search: patterns of up to eight bytes through the nibble tables, 16 lanes
/// at a time, then the tail; longer ones through the naive search.
pub fn lut_find(state: &LutShortState, text: &[u8], pattern: &[u8]) -> (r: Option<usize>)
    requires
        state.built_for(pattern@),
    ensures
        is_first_occurrence(text@, pattern@, r),
{
    let m = state.len;
    let n = text.len();
    let ghost p = pattern@;
    if m == 0 {
        assert(matches_at(text@, p, false, 0));
        return Some(0);
    }
    if m > SHORT_MAX {
        return naive_find_scalar(text, pattern);
    }
    if m > n {
        return None;
    }
    if m == 1 {
        let target = state.pattern[0];
        assert(state.pattern@[0] == p[0]);
        let mut i: usize = 0;
        while i < n
            invariant
                n == text@.len(),
                p == pattern@,
                p.len() == 1,
                target == p[0],
                i <= n,
                forall|s: int| 0 <= s < i ==> !matches_at(text@, p, false, s),
            decreases n - i,
        {
            if text[i] == target {
                assert(text@[i + 0] == p[0]);
                assert(matches_at(text@, p, false, i as int));
                return Some(i);
            }
            assert(!matches_at(text@, p, false, i as int)) by {
                if matches_at(text@, p, false, i as int) {
                    assert(text@[i + 0] == p[0]);
                }
            }
            i += 1;
        }
        return None;
    }
    let mut i: usize = 0;
    while i < n && n - i >= 16
        invariant
            state.built_for(p),
            p == pattern@,
            0 < p.len() <= SHORT_MAX,
            n == text@.len(),
            i <= n,
            forall|s: int| 0 <= s && s + state.sig_index < i ==> !matches_at(text@, p, false, s),
        decreases n - i,
    {
        match scan_block(state, text, i, 16, Ghost(p)) {
            Some(pos) => {
                return Some(pos);
            },
            None => {},
        }
        i += 16;
    }
    if i < n {
        match scan_block(state, text, i, n - i, Ghost(p)) {
            Some(pos) => {
                return Some(pos);
            },
            None => {},
        }
    }
    assert forall|s: int| !matches_at(text@, p, false, s) by {
        if 0 <= s && matches_at(text@, p, false, s) {
            assert(s + state.sig_index < n);
        }
    }
    None
}

/// Every occurrence of `pattern` in `text`: the short-pattern search on ever shorter suffixes,
/// resuming one byte after each hit.
pub fn lut_find_all(state: &LutShortState, text: &[u8], pattern: &[u8]) -> (r: Vec<usize>)
    requires
        state.built_for(pattern@),
    ensures
        is_all_matches(text@, pattern@, false, r@),
{
    let ghost pat = pattern@;
    let ghost uw = false;
    let n = text.len();
    let mut result: Vec<usize> = Vec::new();
    let mut pos: usize = 0;
    while pos <= n
        invariant
            n == text@.len(),
            pos <= n + 1,
            state.built_for(pattern@),
            pat == pattern@,
            uw == false,
            forall|a: int, b: int| 0 <= a < b < result@.len() ==> result@[a] < result@[b],
            forall|a: int| 0 <= a < result@.len() ==> result@[a] < pos,
            forall|a: int|
                0 <= a < result@.len() ==> matches_at(text@, pat, uw, #[trigger] result@[a] as int),
            forall|j: int|
                0 <= j < pos && matches_at(text@, pat, uw, j) ==> exists|a: int|
                    0 <= a < result@.len() && result@[a] == j,
        decreases n + 1 - pos,
    {
        let rest = slice_subrange(text, pos, n);
        let found = lut_find(state, rest, pattern);
        match found {
            Some(off) => {
                proof {
                    lemma_matches_in_suffix(text@, pat, uw, pos as int, off as int);
                }
                let hit = pos + off;
                let ghost old_result = result@;
                result.push(hit);
                assert forall|j: int|
                    0 <= j < hit + 1 && matches_at(text@, pat, uw, j) implies exists|a: int|
                    0 <= a < result@.len() && result@[a] == j by {
                    if j < pos {
                        let a = choose|a: int| 0 <= a < old_result.len() && old_result[a] == j;
                        assert(result@[a] == j);
                    } else if j < hit {
                        lemma_matches_in_suffix(text@, pat, uw, pos as int, j - pos);
                    } else {
                        assert(result@[result@.len() - 1] == j);
                    }
                }
                if hit == n {
                    assert forall|j: int| matches_at(text@, pat, uw, j) implies exists|a: int|
                        0 <= a < result@.len() && result@[a] == j by {
                    }
                    return result;
                }
                pos = hit + 1;
            },
            None => {
                assert forall|j: int| 0 <= j && matches_at(text@, pat, uw, j) implies exists|a: int|
                    0 <= a < result@.len() && result@[a] == j by {
                    if j >= pos {
                        lemma_matches_in_suffix(text@, pat, uw, pos as int, j - pos);
                    }
                }
                return result;
            },
        }
    }
    assert forall|j: int| matches_at(text@, pat, uw, j) implies exists|a: int|
        0 <= a < result@.len() && result@[a] == j by {
    }
    result
}

/// The short-pattern kernel.
pub struct LutShort;

impl StringSearch for LutShort {
    type Config = Vec<u8>;

    type State = LutShortState;

    open spec fn pattern_of(config: &Vec<u8>) -> Seq<u8> {
        config@
    }

    open spec fn underscore_wild() -> bool {
        false
    }

    open spec fn accepts(pattern: Seq<u8>) -> bool {
        true
    }

    open spec fn state_ok(config: &Vec<u8>, state: &LutShortState) -> bool {
        state.built_for(config@)
    }

    fn config_for(literal: &[u8]) -> (r: Vec<u8>) {
        slice_to_vec(literal)
    }

    fn build(config: &Vec<u8>) -> (r: LutShortState) {
        build_state(config.as_slice())
    }

    fn find_bytes(config: &Vec<u8>, state: &LutShortState, text: &[u8]) -> (r: Option<usize>) {
        lut_find(state, text, config.as_slice())
    }

    fn find_all_bytes(config: &Vec<u8>, state: &LutShortState, text: &[u8]) -> (r: Vec<usize>) {
        lut_find_all(state, text, config.as_slice())
    }
}

} // verus!
