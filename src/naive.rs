use vstd::prelude::*;

use vstd::slice::slice_to_vec;

use crate::kernel::StringSearch;
use crate::occurrence::{matches_at, is_first_occurrence, is_all_occurrences, every_offset};

verus! {

/// The scalar nested-loop kernel, the reference that every other kernel agrees with.
pub struct NaiveScalar;

/// The default naive kernel.
pub struct Naive;

/// The naive kernel that filters candidates by the first byte, 16 lanes at a time.
pub struct NaiveVectorized;

impl StringSearch for NaiveVectorized {
    type Config = Vec<u8>;

    type State = ();

    open spec fn pattern_of(config: &Vec<u8>) -> Seq<u8> {
        config@
    }

    open spec fn underscore_wild() -> bool {
        false
    }

    open spec fn accepts(pattern: Seq<u8>) -> bool {
        true
    }

    open spec fn state_ok(config: &Vec<u8>, state: &()) -> bool {
        true
    }

    fn config_for(literal: &[u8]) -> (r: Vec<u8>) {
        slice_to_vec(literal)
    }

    fn build(config: &Vec<u8>) -> (r: ()) {
    }

    fn find_bytes(config: &Vec<u8>, state: &(), text: &[u8]) -> (r: Option<usize>) {
        naive_find_lanes(text, config.as_slice())
    }

    fn find_all_bytes(config: &Vec<u8>, state: &(), text: &[u8]) -> (r: Vec<usize>) {
        naive_find_all_lanes(text, config.as_slice())
    }
}

impl StringSearch for NaiveScalar {
    type Config = Vec<u8>;

    type State = ();

    open spec fn pattern_of(config: &Vec<u8>) -> Seq<u8> {
        config@
    }

    open spec fn underscore_wild() -> bool {
        false
    }

    open spec fn accepts(pattern: Seq<u8>) -> bool {
        true
    }

    open spec fn state_ok(config: &Vec<u8>, state: &()) -> bool {
        true
    }

    fn config_for(literal: &[u8]) -> (r: Vec<u8>) {
        slice_to_vec(literal)
    }

    fn build(config: &Vec<u8>) -> (r: ()) {
    }

    fn find_bytes(config: &Vec<u8>, state: &(), text: &[u8]) -> (r: Option<usize>) {
        naive_find_scalar(text, config.as_slice())
    }

    fn find_all_bytes(config: &Vec<u8>, state: &(), text: &[u8]) -> (r: Vec<usize>) {
        naive_find_all_scalar(text, config.as_slice())
    }
}

impl StringSearch for Naive {
    type Config = Vec<u8>;

    type State = ();

    open spec fn pattern_of(config: &Vec<u8>) -> Seq<u8> {
        config@
    }

    open spec fn underscore_wild() -> bool {
        false
    }

    open spec fn accepts(pattern: Seq<u8>) -> bool {
        true
    }

    open spec fn state_ok(config: &Vec<u8>, state: &()) -> bool {
        true
    }

    fn config_for(literal: &[u8]) -> (r: Vec<u8>) {
        slice_to_vec(literal)
    }

    fn build(config: &Vec<u8>) -> (r: ()) {
    }

    fn find_bytes(config: &Vec<u8>, state: &(), text: &[u8]) -> (r: Option<usize>) {
        naive_find(text, config.as_slice())
    }

    fn find_all_bytes(config: &Vec<u8>, state: &(), text: &[u8]) -> (r: Vec<usize>) {
        naive_find_all(text, config.as_slice())
    }
}

/// The naive search in 16-byte lanes: each lane whose byte is the pattern's first byte is a
/// candidate that the full comparison confirms or rejects; the tail goes byte by byte.
pub fn naive_find_lanes(text: &[u8], pattern: &[u8]) -> (r: Option<usize>)
    ensures
        is_first_occurrence(text@, pattern@, r),
{
    let n = text.len();
    let m = pattern.len();
    if m == 0 {
        assert(matches_at(text@, pattern@, false, 0));
        return Some(0);
    }
    if m > n {
        return None;
    }
    let first = pattern[0];
    let chunk: usize = 16;
    let mut i: usize = 0;
    while i < n && n - i >= chunk
        invariant
            n == text@.len(),
            m == pattern@.len(),
            0 < m <= n,
            first == pattern@[0],
            chunk == 16,
            i <= n,
            forall|j: int| 0 <= j < i ==> !matches_at(text@, pattern@, false, j),
        decreases n - i,
    {
        let mut lane: usize = 0;
        while lane < chunk
            invariant
                n == text@.len(),
                m == pattern@.len(),
                0 < m <= n,
                first == pattern@[0],
                chunk == 16,
                i + chunk <= n,
                lane <= chunk,
                forall|j: int| 0 <= j < i + lane ==> !matches_at(text@, pattern@, false, j),
            decreases chunk - lane,
        {
            let cand = i + lane;
            if text[cand] == first {
                if m <= n - cand && matches_here(text, pattern, cand) {
                    return Some(cand);
                }
            } else {
                assert(!matches_at(text@, pattern@, false, cand as int)) by {
                    if matches_at(text@, pattern@, false, cand as int) {
                        assert(text@[cand + 0] == pattern@[0]);
                    }
                }
            }
            lane += 1;
        }
        i += chunk;
    }
    while i < n && m <= n - i
        invariant
            n == text@.len(),
            m == pattern@.len(),
            0 < m <= n,
            i <= n,
            forall|j: int| 0 <= j < i ==> !matches_at(text@, pattern@, false, j),
        decreases n - i,
    {
        if matches_here(text, pattern, i) {
            return Some(i);
        }
        i += 1;
    }
    None
}

/// Every occurrence of `pattern` in `text`, candidates filtered by the first byte in 16-byte
/// lanes, the tail byte by byte.
pub fn naive_find_all_lanes(text: &[u8], pattern: &[u8]) -> (r: Vec<usize>)
    ensures
        is_all_occurrences(text@, pattern@, r@),
{
    let n = text.len();
    let m = pattern.len();
    if m == 0 || m > n {
        return naive_find_all_scalar(text, pattern);
    }
    let mut result: Vec<usize> = Vec::new();
    let first = pattern[0];
    let chunk: usize = 16;
    let mut i: usize = 0;
    while i < n && n - i >= chunk
        invariant
            n == text@.len(),
            m == pattern@.len(),
            0 < m <= n,
            first == pattern@[0],
            chunk == 16,
            i <= n,
            forall|a: int, b: int| 0 <= a < b < result@.len() ==> result@[a] < result@[b],
            forall|a: int| 0 <= a < result@.len() ==> result@[a] < i,
            forall|a: int| 0 <= a < result@.len() ==> matches_at(text@, pattern@, false, #[trigger] result@[a] as int),
            forall|j: int| 0 <= j < i && matches_at(text@, pattern@, false, j) ==> exists|a: int| 0 <= a < result@.len() && result@[a] == j,
        decreases n - i,
    {
        let mut lane: usize = 0;
        while lane < chunk
            invariant
                n == text@.len(),
                m == pattern@.len(),
                0 < m <= n,
                first == pattern@[0],
                chunk == 16,
                i + chunk <= n,
                lane <= chunk,
                forall|a: int, b: int| 0 <= a < b < result@.len() ==> result@[a] < result@[b],
                forall|a: int| 0 <= a < result@.len() ==> result@[a] < i + lane,
                forall|a: int| 0 <= a < result@.len() ==> matches_at(text@, pattern@, false, #[trigger] result@[a] as int),
                forall|j: int| 0 <= j < i + lane && matches_at(text@, pattern@, false, j) ==> exists|a: int| 0 <= a < result@.len() && result@[a] == j,
            decreases chunk - lane,
        {
            let cand = i + lane;
            let ghost old_result = result@;
            if text[cand] == first && m <= n - cand && matches_here(text, pattern, cand) {
                result.push(cand);
                assert(result@[result@.len() - 1] == cand);
            } else {
                assert(!matches_at(text@, pattern@, false, cand as int)) by {
                    if matches_at(text@, pattern@, false, cand as int) {
                        assert(text@[cand + 0] == pattern@[0]);
                    }
                }
            }
            assert forall|j: int| 0 <= j < cand + 1 && matches_at(text@, pattern@, false, j) implies exists|a: int|
                0 <= a < result@.len() && result@[a] == j by {
                if j < cand {
                    let a = choose|a: int| 0 <= a < old_result.len() && old_result[a] == j;
                    assert(result@[a] == j);
                } else {
                    assert(result@[result@.len() - 1] == j);
                }
            }
            lane += 1;
        }
        i += chunk;
    }
    while i < n && m <= n - i
        invariant
            n == text@.len(),
            m == pattern@.len(),
            0 < m <= n,
            i <= n,
            forall|a: int, b: int| 0 <= a < b < result@.len() ==> result@[a] < result@[b],
            forall|a: int| 0 <= a < result@.len() ==> result@[a] < i,
            forall|a: int| 0 <= a < result@.len() ==> matches_at(text@, pattern@, false, #[trigger] result@[a] as int),
            forall|j: int| 0 <= j < i && matches_at(text@, pattern@, false, j) ==> exists|a: int| 0 <= a < result@.len() && result@[a] == j,
        decreases n - i,
    {
        let ghost old_result = result@;
        if matches_here(text, pattern, i) {
            result.push(i);
            assert(result@[result@.len() - 1] == i);
        }
        assert forall|j: int| 0 <= j < i + 1 && matches_at(text@, pattern@, false, j) implies exists|a: int|
            0 <= a < result@.len() && result@[a] == j by {
            if j < i {
                let a = choose|a: int| 0 <= a < old_result.len() && old_result[a] == j;
                assert(result@[a] == j);
            } else {
                assert(result@[result@.len() - 1] == j);
            }
        }
        i += 1;
    }
    assert forall|j: int| matches_at(text@, pattern@, false, j) implies exists|a: int| 0 <= a < result@.len() && result@[a] == j by {
    }
    result
}

/// The naive search: the smallest offset at which `pattern` occurs in `text`.
pub fn naive_find(text: &[u8], pattern: &[u8]) -> (r: Option<usize>)
    ensures
        is_first_occurrence(text@, pattern@, r),
{
    naive_find_scalar(text, pattern)
}

/// The naive search: every offset at which `pattern` occurs in `text`.
pub fn naive_find_all(text: &[u8], pattern: &[u8]) -> (r: Vec<usize>)
    ensures
        is_all_occurrences(text@, pattern@, r@),
{
    naive_find_all_scalar(text, pattern)
}

/// Compares `pattern` with `text` at offset `i`, byte by byte.
pub fn matches_here(text: &[u8], pattern: &[u8], i: usize) -> (r: bool)
    requires
        i + pattern@.len() <= text@.len(),
    ensures
        r == matches_at(text@, pattern@, false, i as int),
{
    let n = text.len();
    let m = pattern.len();
    let mut j: usize = 0;
    while j < m
        invariant
            j <= m,
            n == text@.len(),
            m == pattern@.len(),
            i + m <= text@.len(),
            forall|k: int| 0 <= k < j ==> text@[i + k] == pattern@[k],
        decreases m - j,
    {
        if text[i + j] != pattern[j] {
            return false;
        }
        j += 1;
    }
    true
}

/// Scalar nested-loop search: the smallest offset at which `pattern` occurs in `text`.
pub fn naive_find_scalar(text: &[u8], pattern: &[u8]) -> (r: Option<usize>)
    ensures
        is_first_occurrence(text@, pattern@, r),
{
    let n = text.len();
    let m = pattern.len();
    if m == 0 {
        assert(matches_at(text@, pattern@, false, 0));
        return Some(0);
    }
    if m > n {
        return None;
    }
    let mut i: usize = 0;
    while i <= n - m
        invariant
            n == text@.len(),
            m == pattern@.len(),
            0 < m <= n,
            i <= n - m + 1,
            forall|j: int| 0 <= j < i ==> !matches_at(text@, pattern@, false, j),
        decreases n - m + 1 - i,
    {
        if matches_here(text, pattern, i) {
            return Some(i);
        }
        i += 1;
    }
    None
}

/// Scalar nested-loop search: every offset at which `pattern` occurs in `text`, overlaps included.
pub fn naive_find_all_scalar(text: &[u8], pattern: &[u8]) -> (r: Vec<usize>)
    ensures
        is_all_occurrences(text@, pattern@, r@),
{
    let n = text.len();
    let m = pattern.len();
    let mut result: Vec<usize> = Vec::new();
    if m > n {
        return result;
    }
    if m == 0 {
        let mut i: usize = 0;
        while i < n
            invariant
                i <= n,
                n == text@.len(),
                m == pattern@.len(),
                result@ == every_offset(i as nat).take(i as int),
            decreases n - i,
        {
            result.push(i);
            i += 1;
            assert(result@ =~= every_offset(i as nat).take(i as int));
        }
        result.push(n);
        assert(result@ =~= every_offset(n as nat));
        assert forall|j: int| matches_at(text@, pattern@, false, j) implies exists|a: int|
            0 <= a < result@.len() && result@[a] == j by {
            assert(result@[j] == j);
        }
        return result;
    }
    let mut i: usize = 0;
    while i <= n - m
        invariant
            0 < m,
            n == text@.len(),
            m == pattern@.len(),
            m <= n,
            i <= n - m + 1,
            forall|a: int, b: int| 0 <= a < b < result@.len() ==> result@[a] < result@[b],
            forall|a: int| 0 <= a < result@.len() ==> result@[a] < i,
            forall|a: int| 0 <= a < result@.len() ==> matches_at(text@, pattern@, false, #[trigger] result@[a] as int),
            forall|j: int| 0 <= j < i && matches_at(text@, pattern@, false, j) ==> exists|a: int| 0 <= a < result@.len() && result@[a] == j,
        decreases n - m + 1 - i,
    {
        let ghost old_result = result@;
        let ghost old_len = result@.len();
        if matches_here(text, pattern, i) {
            result.push(i);
            assert(result@[result@.len() - 1] == i);
        }
        assert forall|j: int| 0 <= j < i + 1 && matches_at(text@, pattern@, false, j) implies exists|a: int|
            0 <= a < result@.len() && result@[a] == j by {
            if j == i {
                assert(result@[result@.len() - 1] == i);
            } else {
                let a = choose|a: int| 0 <= a < old_len && old_result[a] == j;
                assert(result@[a] == j);
            }
        }
        i += 1;
    }
    result
}

} // verus!
