use vstd::prelude::*;

use vstd::math::min;
use vstd::set_lib::{lemma_int_range, lemma_map_size, lemma_subset_equality, set_int_range};
use vstd::slice::slice_subrange;

verus! {

/// How many times `b` occurs in `s`.
pub open spec fn count_in(s: Seq<u8>, b: u8) -> nat
    decreases s.len(),
{
    if s.len() == 0 {
        0
    } else {
        count_in(s.drop_last(), b) + if s.last() == b {
            1nat
        } else {
            0nat
        }
    }
}

/// The sum of `s`.
pub open spec fn seq_sum(s: Seq<usize>) -> nat
    decreases s.len(),
{
    if s.len() == 0 {
        0
    } else {
        seq_sum(s.drop_last()) + s.last() as nat
    }
}

/// `Occ(r, i)`: how many times rank `r` occurs in `bwt[0..i]`.
pub open spec fn occ(bwt: Seq<u8>, r: u8, i: int) -> nat {
    count_in(bwt.take(i), r)
}

proof fn lemma_count_push(s: Seq<u8>, x: u8, b: u8)
    ensures
        count_in(s.push(x), b) == count_in(s, b) + if x == b {
            1nat
        } else {
            0nat
        },
{
    assert(s.push(x).drop_last() =~= s);
}

proof fn lemma_sum_push(s: Seq<usize>, x: usize)
    ensures
        seq_sum(s.push(x)) == seq_sum(s) + x,
{
    assert(s.push(x).drop_last() =~= s);
}

proof fn lemma_sum_update(s: Seq<usize>, j: int, x: usize)
    requires
        0 <= j < s.len(),
    ensures
        seq_sum(s.update(j, x)) + s[j] == seq_sum(s) + x,
    decreases s.len(),
{
    let u = s.update(j, x);
    if j == s.len() - 1 {
        assert(u.drop_last() =~= s.drop_last());
    } else {
        lemma_sum_update(s.drop_last(), j, x);
        assert(u.drop_last() =~= s.drop_last().update(j, x));
    }
}

proof fn lemma_sum_first(s: Seq<usize>)
    requires
        s.len() > 0,
    ensures
        seq_sum(s) == s[0] + seq_sum(s.drop_first()),
    decreases s.len(),
{
    if s.len() > 1 {
        lemma_sum_first(s.drop_last());
        assert(s.drop_last().drop_first() =~= s.drop_first().drop_last());
        assert(s.drop_first().last() == s.last());
        assert(s.drop_last()[0] == s[0]);
        assert(seq_sum(s) == seq_sum(s.drop_last()) + s.last());
        assert(seq_sum(s.drop_first()) == seq_sum(s.drop_first().drop_last()) + s.drop_first().last());
    } else {
        assert(s.drop_first().len() == 0);
        assert(s.drop_last().len() == 0);
        assert(seq_sum(s.drop_first()) == 0);
        assert(seq_sum(s.drop_last()) == 0);
        assert(seq_sum(s) == seq_sum(s.drop_last()) + s.last());
    }
}

proof fn lemma_count_positive(s: Seq<u8>, k: int)
    requires
        0 <= k < s.len(),
    ensures
        count_in(s, s[k]) > 0,
    decreases s.len(),
{
    if k < s.len() - 1 {
        lemma_count_positive(s.drop_last(), k);
    }
}

proof fn lemma_count_bound(s: Seq<u8>, b: u8)
    ensures
        count_in(s, b) <= s.len(),
    decreases s.len(),
{
    if s.len() > 0 {
        lemma_count_bound(s.drop_last(), b);
    }
}

/// Dense ranks for the bytes that occur in `text`, in byte order: the rank of each byte (-1 for
/// one that does not occur), the byte of each rank, and how often each rank's byte occurs.
fn build_alphabet(text: &[u8]) -> (r: (Vec<i16>, Vec<u8>, Vec<usize>))
    ensures
        r.0@.len() == 256,
        r.1@.len() == r.2@.len(),
        r.1@.len() <= 256,
        forall|b: int| 0 <= b < 256 ==> (#[trigger] r.0@[b] >= 0 <==> count_in(text@, b as u8) > 0),
        forall|b: int|
            0 <= b < 256 && #[trigger] r.0@[b] >= 0 ==> r.0@[b] < r.1@.len() && r.1@[r.0@[b] as int]
                == b as u8,
        forall|k: int|
            0 <= k < r.1@.len() ==> r.0@[#[trigger] r.1@[k] as int] == k && r.2@[k] == count_in(
                text@,
                r.1@[k],
            ) && r.2@[k] > 0,
        forall|k: int, l: int| 0 <= k < l < r.1@.len() ==> r.1@[k] < r.1@[l],
        seq_sum(r.2@) == text@.len(),
{
    let n = text.len();
    let mut counts_by_byte: Vec<usize> = vec![0usize; 256];
    let mut i: usize = 0;
    assert(text@.take(0) =~= Seq::<u8>::empty());
    assert(seq_sum(counts_by_byte@) == 0) by {
        let z = counts_by_byte@;
        assert forall|k: int| 0 <= k <= 256 implies seq_sum(#[trigger] z.take(k)) == 0 by {
            lemma_sum_zero(z, k);
        }
        assert(z.take(256) =~= z);
    }
    while i < n
        invariant
            n == text@.len(),
            i <= n,
            counts_by_byte@.len() == 256,
            forall|b: int|
                0 <= b < 256 ==> #[trigger] counts_by_byte@[b] == count_in(text@.take(i as int), b as u8),
            seq_sum(counts_by_byte@) == i,
        decreases n - i,
    {
        let b = text[i] as usize;
        proof {
            lemma_count_bound(text@.take(i as int), b as u8);
            assert(text@.take(i + 1) =~= text@.take(i as int).push(text@[i as int]));
            assert forall|c: u8| #[trigger] count_in(text@.take(i + 1), c) == count_in(text@.take(i as int), c)
                + if c == text@[i as int] {
                1nat
            } else {
                0nat
            } by {
                lemma_count_push(text@.take(i as int), text@[i as int], c);
            }
            lemma_sum_update(counts_by_byte@, b as int, (counts_by_byte@[b as int] + 1) as usize);
        }
        let v = counts_by_byte[b] + 1;
        counts_by_byte.set(b, v);
        i += 1;
    }
    assert(text@.take(n as int) =~= text@);
    let mut byte_to_rank: Vec<i16> = vec![-1i16; 256];
    let mut rank_to_byte: Vec<u8> = Vec::new();
    let mut counts: Vec<usize> = Vec::new();
    let mut byte: usize = 0;
    assert(counts_by_byte@.subrange(0, 256) =~= counts_by_byte@);
    while byte < 256
        invariant
            n == text@.len(),
            byte <= 256,
            counts_by_byte@.len() == 256,
            forall|b: int| 0 <= b < 256 ==> #[trigger] counts_by_byte@[b] == count_in(text@, b as u8),
            byte_to_rank@.len() == 256,
            rank_to_byte@.len() == counts@.len(),
            rank_to_byte@.len() <= byte,
            forall|b: int| 0 <= b < byte ==> (#[trigger] byte_to_rank@[b] >= 0 <==> count_in(text@, b as u8) > 0),
            forall|b: int|
                0 <= b < byte && #[trigger] byte_to_rank@[b] >= 0 ==> byte_to_rank@[b] < rank_to_byte@.len()
                    && rank_to_byte@[byte_to_rank@[b] as int] == b as u8,
            forall|b: int| byte <= b < 256 ==> #[trigger] byte_to_rank@[b] == -1,
            forall|k: int|
                0 <= k < rank_to_byte@.len() ==> rank_to_byte@[k] < byte && byte_to_rank@[
                    #[trigger] rank_to_byte@[k] as int] == k && counts@[k] == count_in(
                    text@,
                    rank_to_byte@[k],
                ) && counts@[k] > 0,
            forall|k: int, l: int| 0 <= k < l < rank_to_byte@.len() ==> rank_to_byte@[k] < rank_to_byte@[l],
            seq_sum(counts@) + seq_sum(counts_by_byte@.subrange(byte as int, 256)) == n,
        decreases 256 - byte,
    {
        let count = counts_by_byte[byte];
        proof {
            let rest = counts_by_byte@.subrange(byte as int, 256);
            lemma_sum_first(rest);
            assert(rest.drop_first() =~= counts_by_byte@.subrange(byte + 1, 256));
            lemma_sum_push(counts@, count);
        }
        if count > 0 {
            let rank = rank_to_byte.len();
            byte_to_rank.set(byte, rank as i16);
            rank_to_byte.push(byte as u8);
            counts.push(count);
        }
        byte += 1;
    }
    assert(counts_by_byte@.subrange(256, 256).len() == 0);
    (byte_to_rank, rank_to_byte, counts)
}

proof fn lemma_sum_zero(z: Seq<usize>, k: int)
    requires
        0 <= k <= z.len(),
        forall|j: int| 0 <= j < z.len() ==> z[j] == 0,
    ensures
        seq_sum(z.take(k)) == 0,
    decreases k,
{
    if k > 0 {
        lemma_sum_zero(z, k - 1);
        assert(z.take(k).drop_last() =~= z.take(k - 1));
    }
}

proof fn lemma_sum_take_le(s: Seq<usize>, i: int)
    requires
        0 <= i <= s.len(),
    ensures
        seq_sum(s.take(i)) <= seq_sum(s),
    decreases s.len(),
{
    if i == s.len() {
        assert(s.take(i) =~= s);
    } else {
        lemma_sum_take_le(s.drop_last(), i);
        assert(s.drop_last().take(i) =~= s.take(i));
    }
}

/// `C[r]`: how many symbols of rank below `r` there are, for every rank.
fn build_c(counts: &[usize]) -> (r: Vec<usize>)
    requires
        seq_sum(counts@) <= usize::MAX,
    ensures
        r@.len() == counts@.len(),
        forall|k: int| 0 <= k < r@.len() ==> #[trigger] r@[k] == seq_sum(counts@.take(k)),
{
    let mut c: Vec<usize> = Vec::new();
    let mut total: usize = 0;
    let mut i: usize = 0;
    assert(counts@.take(0) =~= Seq::<usize>::empty());
    while i < counts.len()
        invariant
            i <= counts@.len(),
            seq_sum(counts@) <= usize::MAX,
            c@.len() == i,
            total == seq_sum(counts@.take(i as int)),
            forall|k: int| 0 <= k < i ==> #[trigger] c@[k] == seq_sum(counts@.take(k)),
        decreases counts@.len() - i,
    {
        proof {
            assert(counts@.take(i + 1) =~= counts@.take(i as int).push(counts@[i as int]));
            lemma_sum_push(counts@.take(i as int), counts@[i as int]);
            lemma_sum_take_le(counts@, i + 1);
        }
        c.push(total);
        total = total + counts[i];
        i += 1;
    }
    c
}

/// The Burrows-Wheeler transform: the byte before each suffix in suffix-array order, the
/// sentinel before the whole text.
fn build_bwt(text: &[u8], sa: &[usize], sentinel: u8) -> (r: Vec<u8>)
    requires
        forall|i: int| 0 <= i < sa@.len() ==> #[trigger] sa@[i] < text@.len(),
    ensures
        r@.len() == sa@.len(),
        forall|i: int|
            0 <= i < sa@.len() ==> #[trigger] r@[i] == if sa@[i] == 0 {
                sentinel
            } else {
                text@[sa@[i] - 1]
            },
{
    let mut bwt: Vec<u8> = Vec::new();
    let mut i: usize = 0;
    while i < sa.len()
        invariant
            i <= sa@.len(),
            forall|i: int| 0 <= i < sa@.len() ==> #[trigger] sa@[i] < text@.len(),
            bwt@.len() == i,
            forall|k: int|
                0 <= k < i ==> #[trigger] bwt@[k] == if sa@[k] == 0 {
                    sentinel
                } else {
                    text@[sa@[k] - 1]
                },
        decreases sa@.len() - i,
    {
        let pos = sa[i];
        if pos == 0 {
            bwt.push(sentinel);
        } else {
            bwt.push(text[pos - 1]);
        }
        i += 1;
    }
    bwt
}

/// The BWT with each byte replaced by its rank.
fn remap_bwt(bwt: &[u8], byte_to_rank: &[i16]) -> (r: Vec<u8>)
    requires
        byte_to_rank@.len() == 256,
        forall|i: int|
            0 <= i < bwt@.len() ==> 0 <= #[trigger] byte_to_rank@[bwt@[i] as int] < 256,
    ensures
        r@.len() == bwt@.len(),
        forall|i: int| 0 <= i < bwt@.len() ==> #[trigger] r@[i] == byte_to_rank@[bwt@[i] as int] as u8,
{
    let mut out: Vec<u8> = Vec::new();
    let mut i: usize = 0;
    while i < bwt.len()
        invariant
            i <= bwt@.len(),
            byte_to_rank@.len() == 256,
            forall|i: int|
                0 <= i < bwt@.len() ==> 0 <= #[trigger] byte_to_rank@[bwt@[i] as int] < 256,
            out@.len() == i,
            forall|k: int| 0 <= k < i ==> #[trigger] out@[k] == byte_to_rank@[bwt@[k] as int] as u8,
        decreases bwt@.len() - i,
    {
        let rank = byte_to_rank[bwt[i] as usize];
        out.push(rank as u8);
        i += 1;
    }
    out
}

/// Positions between two Occ checkpoints.
pub const CHECKPOINT: usize = 128;

/// The number of Occ checkpoints for a BWT of length `n`: one at every multiple of
/// `CHECKPOINT`, and one at the end.
pub open spec fn checkpoint_count(n: nat) -> nat {
    (n + CHECKPOINT - 1) as nat / CHECKPOINT as nat + 1
}

/// `Occ` at every checkpoint: entry `k` holds, for each rank, its count in
/// `bwt[0..min(k * CHECKPOINT, n)]`.
fn build_occ(bwt: &[u8], sigma: usize) -> (r: Vec<Vec<usize>>)
    requires
        sigma <= 256,
        forall|i: int| 0 <= i < bwt@.len() ==> #[trigger] bwt@[i] < sigma,
    ensures
        r@.len() == checkpoint_count(bwt@.len()),
        forall|k: int| 0 <= k < r@.len() ==> #[trigger] r@[k]@.len() == sigma,
        forall|k: int, q: int|
            0 <= k < r@.len() && 0 <= q < sigma ==> #[trigger] r@[k]@[q] == occ(
                bwt@,
                q as u8,
                min(k * CHECKPOINT, bwt@.len() as int),
            ),
{
    let n = bwt.len();
    let mut occ_table: Vec<Vec<usize>> = Vec::new();
    let mut counts: Vec<usize> = vec![0usize; sigma];
    assert(bwt@.take(0) =~= Seq::<u8>::empty());
    occ_table.push(counts.clone());
    let mut idx: usize = 0;
    while idx < n
        invariant
            n == bwt@.len(),
            idx <= n,
            sigma <= 256,
            forall|i: int| 0 <= i < bwt@.len() ==> #[trigger] bwt@[i] < sigma,
            counts@.len() == sigma,
            forall|q: int| 0 <= q < sigma ==> #[trigger] counts@[q] == occ(bwt@, q as u8, idx as int),
            occ_table@.len() == idx / CHECKPOINT + 1,
            forall|k: int| 0 <= k < occ_table@.len() ==> #[trigger] occ_table@[k]@.len() == sigma,
            forall|k: int, q: int|
                0 <= k < occ_table@.len() && 0 <= q < sigma ==> #[trigger] occ_table@[k]@[q] == occ(
                    bwt@,
                    q as u8,
                    k * CHECKPOINT,
                ),
        decreases n - idx,
    {
        let rank = bwt[idx] as usize;
        proof {
            assert(bwt@.take(idx + 1) =~= bwt@.take(idx as int).push(bwt@[idx as int]));
            assert forall|c: u8| #[trigger] count_in(bwt@.take(idx + 1), c) == count_in(bwt@.take(idx as int), c)
                + if c == bwt@[idx as int] {
                1nat
            } else {
                0nat
            } by {
                lemma_count_push(bwt@.take(idx as int), bwt@[idx as int], c);
            }
            lemma_count_bound(bwt@.take(idx as int), rank as u8);
        }
        let v = counts[rank] + 1;
        counts.set(rank, v);
        idx += 1;
        if idx % CHECKPOINT == 0 {
            occ_table.push(counts.clone());
        }
    }
    if n % CHECKPOINT != 0 {
        occ_table.push(counts);
    }
    assert(bwt@.take(n as int) =~= bwt@);
    occ_table
}

/// `x` sorts before `y`: byte by byte, a proper prefix first.
pub open spec fn lex_lt(x: Seq<u8>, y: Seq<u8>) -> bool
    decreases x.len(),
{
    if x.len() == 0 {
        y.len() > 0
    } else if y.len() == 0 {
        false
    } else if x[0] != y[0] {
        x[0] < y[0]
    } else {
        lex_lt(x.drop_first(), y.drop_first())
    }
}

/// The suffix of `text` that starts at `a`.
pub open spec fn suffix(text: Seq<u8>, a: int) -> Seq<u8> {
    text.subrange(a, text.len() as int)
}

proof fn lemma_lex_total(x: Seq<u8>, y: Seq<u8>)
    requires
        x.len() != y.len(),
    ensures
        lex_lt(x, y) || lex_lt(y, x),
    decreases x.len(),
{
    if x.len() > 0 && y.len() > 0 && x[0] == y[0] {
        lemma_lex_total(x.drop_first(), y.drop_first());
    }
}

/// Whether the suffix at `a` sorts before the suffix at `b`.
fn suffix_less(text: &[u8], a: usize, b: usize) -> (r: bool)
    requires
        a <= text@.len(),
        b <= text@.len(),
    ensures
        r == lex_lt(suffix(text@, a as int), suffix(text@, b as int)),
{
    let n = text.len();
    let mut k: usize = 0;
    while a + k < n && b + k < n
        invariant
            n == text@.len(),
            a + k <= n,
            b + k <= n,
            lex_lt(suffix(text@, a as int), suffix(text@, b as int)) == lex_lt(
                suffix(text@, a + k),
                suffix(text@, b + k),
            ),
        decreases n - a - k,
    {
        if text[a + k] != text[b + k] {
            return text[a + k] < text[b + k];
        }
        assert(suffix(text@, a + k).drop_first() =~= suffix(text@, a + k + 1));
        assert(suffix(text@, b + k).drop_first() =~= suffix(text@, b + k + 1));
        k += 1;
    }
    a + k == n && b + k < n
}

/// The suffix array of `text`: every start position, ordered by the suffix that starts there.
fn build_suffix_array(text: &[u8]) -> (r: Vec<usize>)
    ensures
        r@.len() == text@.len(),
        forall|i: int| 0 <= i < r@.len() ==> #[trigger] r@[i] < text@.len(),
        forall|p: int, q: int| 0 <= p < q < r@.len() ==> r@[p] != r@[q],
        forall|i: int|
            0 <= i < r@.len() - 1 ==> lex_lt(
                suffix(text@, #[trigger] r@[i] as int),
                suffix(text@, r@[i + 1] as int),
            ),
{
    let n = text.len();
    let mut sa: Vec<usize> = Vec::new();
    let mut i: usize = 0;
    while i < n
        invariant
            n == text@.len(),
            i <= n,
            sa@.len() == i,
            forall|k: int| 0 <= k < i ==> #[trigger] sa@[k] == k,
        decreases n - i,
    {
        sa.push(i);
        i += 1;
    }
    if n == 0 {
        return sa;
    }
    i = 1;
    while i < n
        invariant
            n == text@.len(),
            1 <= i <= n,
            sa@.len() == n,
            forall|k: int| 0 <= k < n ==> #[trigger] sa@[k] < n,
            forall|p: int, q: int| 0 <= p < q < n ==> sa@[p] != sa@[q],
            forall|k: int|
                0 <= k < i - 1 ==> lex_lt(
                    suffix(text@, #[trigger] sa@[k] as int),
                    suffix(text@, sa@[k + 1] as int),
                ),
        decreases n - i,
    {
        let mut j: usize = i;
        while j > 0 && suffix_less(text, sa[j], sa[j - 1])
            invariant
                n == text@.len(),
                1 <= i < n,
                j <= i,
                sa@.len() == n,
                forall|k: int| 0 <= k < n ==> #[trigger] sa@[k] < n,
                forall|p: int, q: int| 0 <= p < q < n ==> sa@[p] != sa@[q],
                forall|k: int|
                    0 <= k < i && k + 1 < j ==> lex_lt(
                        suffix(text@, #[trigger] sa@[k] as int),
                        suffix(text@, sa@[k + 1] as int),
                    ),
                forall|k: int|
                    j <= k < i ==> lex_lt(
                        suffix(text@, #[trigger] sa@[k] as int),
                        suffix(text@, sa@[k + 1] as int),
                    ),
                0 < j < i ==> lex_lt(
                    suffix(text@, sa@[j - 1] as int),
                    suffix(text@, sa@[j + 1] as int),
                ),
            decreases j,
        {
            let x = sa[j];
            let y = sa[j - 1];
            let ghost old_sa = sa@;
            sa.set(j, y);
            sa.set(j - 1, x);
            assert forall|p: int, q: int| 0 <= p < q < n implies sa@[p] != sa@[q] by {
                let pp = if p == j { j - 1 } else if p == j - 1 { j as int } else { p };
                let qq = if q == j { j - 1 } else if q == j - 1 { j as int } else { q };
                assert(sa@[p] == old_sa[pp] && sa@[q] == old_sa[qq]);
                assert(pp != qq);
                if pp < qq {
                    assert(old_sa[pp] != old_sa[qq]);
                } else {
                    assert(old_sa[qq] != old_sa[pp]);
                }
            }
            j -= 1;
        }
        if j > 0 {
            proof {
                let a = sa@[j - 1] as int;
                let b = sa@[j as int] as int;
                assert(a != b);
                assert(suffix(text@, a).len() != suffix(text@, b).len());
                lemma_lex_total(suffix(text@, a), suffix(text@, b));
            }
        }
        i += 1;
    }
    sa
}

/// Inserts `x` into the strictly increasing `v`, unless it is there already.
/// Inserts `x` into the strictly increasing `v`, unless it is there already.
pub(crate) fn insert_sorted(v: &mut Vec<usize>, x: usize)
    requires
        forall|a: int, b: int| 0 <= a < b < old(v)@.len() ==> old(v)@[a] < old(v)@[b],
    ensures
        forall|a: int, b: int| 0 <= a < b < final(v)@.len() ==> final(v)@[a] < final(v)@[b],
        final(v)@.to_set() == old(v)@.to_set().insert(x),
{
    let ghost v0 = v@;
    let n = v.len();
    let mut i: usize = 0;
    while i < n && v[i] < x
        invariant
            n == v@.len(),
            v@ == v0,
            i <= n,
            forall|a: int| 0 <= a < i ==> v@[a] < x,
        decreases n - i,
    {
        i += 1;
    }
    if i < n && v[i] == x {
        assert(v@.to_set() =~= v0.to_set().insert(x)) by {
            assert(v@[i as int] == x);
        }
        return;
    }
    v.insert(i, x);
    assert(v@.to_set() =~= v0.to_set().insert(x)) by {
        assert forall|y: usize| #[trigger] v@.contains(y) implies v0.contains(y) || y == x by {
            let k = choose|k: int| 0 <= k < v@.len() && v@[k] == y;
            if k < i {
                assert(v0[k] == y);
            } else if k > i {
                assert(v0[k - 1] == y);
            }
        }
        assert forall|y: usize| #[trigger] v0.contains(y) implies v@.contains(y) by {
            let k = choose|k: int| 0 <= k < v0.len() && v0[k] == y;
            if k < i {
                assert(v@[k] == y);
            } else {
                assert(v@[k + 1] == y);
            }
        }
        assert(v@[i as int] == x);
    }
}

/// An FM-index over a byte corpus: the text with its sentinel, its suffix array, its BWT in
/// ranks, and the `C` and `Occ` tables that backward search reads.
pub struct FMIndex {
    text: Vec<u8>,
    sa: Vec<usize>,
    bwt: Vec<u8>,
    c: Vec<usize>,
    counts: Vec<usize>,
    occ_table: Vec<Vec<usize>>,
    byte_to_rank: Vec<i16>,
    rank_to_byte: Vec<u8>,
    sentinel_rank: usize,
    separator_rank: Option<usize>,
    sentinel: u8,
    separator: Option<u8>,
}

impl FMIndex {
    /// The indexed text, sentinel included.
    pub closed spec fn text_spec(&self) -> Seq<u8> {
        self.text@
    }

    /// `C`, per rank.
    pub closed spec fn c_spec(&self) -> Seq<usize> {
        self.c@
    }

    /// The count of each rank's byte in the text.
    pub closed spec fn counts_spec(&self) -> Seq<usize> {
        self.counts@
    }

    /// The byte of each rank, in increasing byte order.
    pub closed spec fn rank_to_byte_spec(&self) -> Seq<u8> {
        self.rank_to_byte@
    }

    /// The index invariant: the text ends with its only sentinel, the suffix array orders all
    /// suffixes, the BWT and the rank maps agree with them, and `C` and `Occ` count the BWT.
    pub closed spec fn wf(&self) -> bool {
        let n = self.text@.len();
        let sigma = self.counts@.len();
        &&& 1 <= n <= usize::MAX / 2
        &&& self.text@.last() == self.sentinel
        &&& forall|i: int| 0 <= i < n - 1 ==> self.text@[i] != self.sentinel
        &&& self.sa@.len() == n
        &&& forall|i: int| 0 <= i < n ==> #[trigger] self.sa@[i] < n
        &&& forall|p: int, q: int| 0 <= p < q < n ==> self.sa@[p] != self.sa@[q]
        &&& forall|i: int|
            0 <= i < n - 1 ==> lex_lt(
                suffix(self.text@, #[trigger] self.sa@[i] as int),
                suffix(self.text@, self.sa@[i + 1] as int),
            )
        &&& self.byte_to_rank@.len() == 256
        &&& self.rank_to_byte@.len() == sigma
        &&& forall|k: int, l: int| 0 <= k < l < sigma ==> self.rank_to_byte@[k] < self.rank_to_byte@[l]
        &&& sigma <= 256
        &&& forall|b: int|
            0 <= b < 256 ==> (#[trigger] self.byte_to_rank@[b] >= 0 <==> count_in(self.text@, b as u8) > 0)
        &&& forall|b: int|
            0 <= b < 256 && #[trigger] self.byte_to_rank@[b] >= 0 ==> self.byte_to_rank@[b] < sigma
                && self.rank_to_byte@[self.byte_to_rank@[b] as int] == b as u8
        &&& forall|k: int|
            0 <= k < sigma ==> self.byte_to_rank@[#[trigger] self.rank_to_byte@[k] as int] == k
                && self.counts@[k] == count_in(self.text@, self.rank_to_byte@[k]) && self.counts@[k] > 0
        &&& seq_sum(self.counts@) == n
        &&& self.c@.len() == sigma
        &&& forall|k: int| 0 <= k < sigma ==> #[trigger] self.c@[k] == seq_sum(self.counts@.take(k))
        &&& self.bwt@.len() == n
        &&& forall|i: int|
            0 <= i < n ==> #[trigger] self.bwt@[i] == self.byte_to_rank@[(if self.sa@[i] == 0 {
                self.sentinel
            } else {
                self.text@[self.sa@[i] - 1]
            }) as int] as u8
        &&& forall|i: int| 0 <= i < n ==> #[trigger] self.bwt@[i] < sigma
        &&& self.occ_table@.len() == checkpoint_count(n)
        &&& forall|k: int| 0 <= k < self.occ_table@.len() ==> #[trigger] self.occ_table@[k]@.len() == sigma
        &&& forall|k: int, q: int|
            0 <= k < self.occ_table@.len() && 0 <= q < sigma ==> #[trigger] self.occ_table@[k]@[q]
                == occ(self.bwt@, q as u8, min(k * CHECKPOINT, n as int))
        &&& self.sentinel_rank == self.byte_to_rank@[self.sentinel as int]
        &&& self.separator_rank == match self.separator {
            Some(sep) => if self.byte_to_rank@[sep as int] >= 0 {
                Some(self.byte_to_rank@[sep as int] as usize)
            } else {
                None
            },
            None => None,
        }
    }

    /// Builds the index of `text`: appends `sentinel`, sorts the suffixes, derives the BWT,
    /// ranks the bytes and tabulates `C` and `Occ`.
    pub fn new(text: Vec<u8>, sentinel: u8, separator: Option<u8>) -> (r: Self)
        requires
            separator != Some(sentinel),
            forall|i: int| 0 <= i < text@.len() ==> text@[i] != sentinel,
            text@.len() < usize::MAX / 2,
        ensures
            r.wf(),
            r.text_spec() == text@.push(sentinel),
    {
        let mut text = text;
        text.push(sentinel);
        let n = text.len();
        let sa = build_suffix_array(text.as_slice());
        let bwt_bytes = build_bwt(text.as_slice(), sa.as_slice(), sentinel);
        let (byte_to_rank, rank_to_byte, counts) = build_alphabet(text.as_slice());
        proof {
            lemma_count_positive(text@, n - 1);
            assert forall|i: int| 0 <= i < bwt_bytes@.len() implies 0 <= #[trigger] byte_to_rank@[
                bwt_bytes@[i] as int] < 256 by {
                if sa@[i] == 0 {
                    lemma_count_positive(text@, n - 1);
                } else {
                    lemma_count_positive(text@, sa@[i] - 1);
                }
            }
        }
        let sentinel_rank = byte_to_rank[sentinel as usize] as usize;
        let separator_rank = match separator {
            Some(sep) => {
                let rank = byte_to_rank[sep as usize];
                if rank < 0 {
                    None
                } else {
                    Some(rank as usize)
                }
            },
            None => None,
        };
        let c = build_c(counts.as_slice());
        let bwt = remap_bwt(bwt_bytes.as_slice(), byte_to_rank.as_slice());
        let sigma = counts.len();
        assert forall|i: int| 0 <= i < n implies #[trigger] bwt@[i] < sigma by {
            let b = bwt_bytes@[i] as int;
            assert(byte_to_rank@[b] >= 0);
        }
        let occ_table = build_occ(bwt.as_slice(), sigma);
        FMIndex {
            text,
            sa,
            bwt,
            c,
            counts,
            occ_table,
            byte_to_rank,
            rank_to_byte,
            sentinel_rank,
            separator_rank,
            sentinel,
            separator,
        }
    }

    /// The length of the indexed text, sentinel included.
    pub fn len(&self) -> (r: usize)
        requires
            self.wf(),
        ensures
            r == self.text_spec().len(),
    {
        self.text.len()
    }

    /// `Occ(rank, index)`, with `index` capped at the text length: from the nearest checkpoint
    /// at or below it, counting the rest of the way.
    fn occ_at(&self, rank: usize, index: usize) -> (r: usize)
        requires
            self.wf(),
            rank < self.counts@.len(),
        ensures
            r == occ(self.bwt@, rank as u8, min(index as int, self.text@.len() as int)),
            r <= self.text@.len(),
    {
        let n = self.text.len();
        let capped = if index < n {
            index
        } else {
            n
        };
        let base_idx = capped / CHECKPOINT;
        let base_pos = base_idx * CHECKPOINT;
        let mut count = self.occ_table[base_idx][rank];
        let mut i = base_pos;
        proof {
            lemma_count_bound(self.bwt@.take(base_pos as int), rank as u8);
        }
        while i < capped
            invariant
                self.wf(),
                n == self.text@.len(),
                rank < self.counts@.len(),
                base_pos <= i <= capped <= n,
                count == occ(self.bwt@, rank as u8, i as int),
            decreases capped - i,
        {
            proof {
                assert(self.bwt@.take(i + 1) =~= self.bwt@.take(i as int).push(self.bwt@[i as int]));
                lemma_count_push(self.bwt@.take(i as int), self.bwt@[i as int], rank as u8);
                lemma_count_bound(self.bwt@.take(i as int), rank as u8);
            }
            if self.bwt[i] as usize == rank {
                count += 1;
            }
            i += 1;
        }
        proof {
            lemma_count_bound(self.bwt@.take(capped as int), rank as u8);
        }
        count
    }

    /// The rank of byte `ch`, if it occurs in the text.
    fn rank_for_byte(&self, ch: u8) -> (r: Option<usize>)
        requires
            self.wf(),
        ensures
            match r {
                Some(k) => self.byte_to_rank@[ch as int] >= 0 && k == self.byte_to_rank@[ch as int]
                    && k < self.counts@.len(),
                None => self.byte_to_rank@[ch as int] < 0,
            },
    {
        let rank = self.byte_to_rank[ch as usize];
        if rank < 0 {
            None
        } else {
            Some(rank as usize)
        }
    }

    /// `C[r] + Occ(r, i)`: where the range bound `i` moves when rank `r` is prepended.
    pub closed spec fn lf(&self, r: int, i: int) -> int {
        self.c@[r] + occ(self.bwt@, r as u8, min(i, self.text@.len() as int))
    }

    /// The suffix-array range `[top, bottom)` that backward search gives for `pat[j..]`; `None`
    /// when a byte does not occur or the range runs empty.
    pub closed spec fn search_range(&self, pat: Seq<u8>, j: int) -> Option<(int, int)>
        decreases pat.len() - j,
    {
        if j >= pat.len() || j < 0 {
            Some((0, self.text@.len() as int))
        } else {
            match self.search_range(pat, j + 1) {
                None => None,
                Some((t, b)) => {
                    let rk = self.byte_to_rank@[pat[j] as int];
                    if rk < 0 {
                        None
                    } else if self.lf(rk as int, t) >= self.lf(rk as int, b) {
                        None
                    } else {
                        Some((self.lf(rk as int, t), self.lf(rk as int, b)))
                    }
                },
            }
        }
    }

    /// The text positions at suffix-array rows `[top, bottom)`, the rows past the end left out.
    pub closed spec fn rows_positions(&self, top: int, bottom: int) -> Set<usize> {
        Set::new(|p: usize| exists|i: int| top <= i < min(bottom, self.sa@.len() as int) && self.sa@[i] == p)
    }

    /// A rank that an `_` may stand for: neither the sentinel's nor the separator's.
    pub closed spec fn wild_rank(&self, r: int) -> bool {
        r != self.sentinel_rank && self.separator_rank != Some(r as usize) && self.counts@[r] > 0
    }

    /// The positions that wildcard backward search reports for `pat[..j]` from range
    /// `[top, bottom)`: an `_` tries every rank that may stand for it.
    pub closed spec fn wild_hits(&self, pat: Seq<u8>, j: int, top: int, bottom: int) -> Set<usize>
        decreases j, 257int,
    {
        if j <= 0 || j > pat.len() || self.counts@.len() > 256 {
            self.rows_positions(top, bottom)
        } else if pat[j - 1] == 0x5fu8 {
            self.wild_hits_ranks(pat, j, top, bottom, self.counts@.len() as int)
        } else {
            let rk = self.byte_to_rank@[pat[j - 1] as int];
            if rk >= 0 && self.lf(rk as int, top) < self.lf(rk as int, bottom) {
                self.wild_hits(pat, j - 1, self.lf(rk as int, top), self.lf(rk as int, bottom))
            } else {
                Set::empty()
            }
        }
    }

    /// What ranks `[0, r)` contribute at the `_` at `pat[j - 1]`.
    pub closed spec fn wild_hits_ranks(&self, pat: Seq<u8>, j: int, top: int, bottom: int, r: int) -> Set<
        usize,
    >
        decreases j, r,
    {
        if r <= 0 || j <= 0 || r > self.counts@.len() || r > 256 {
            Set::empty()
        } else {
            let prev = self.wild_hits_ranks(pat, j, top, bottom, r - 1);
            let k = r - 1;
            if self.wild_rank(k) && self.lf(k, top) < self.lf(k, bottom) {
                prev.union(self.wild_hits(pat, j - 1, self.lf(k, top), self.lf(k, bottom)))
            } else {
                prev
            }
        }
    }

    proof fn lemma_range_none(&self, pat: Seq<u8>, j: int)
        requires
            0 <= j <= pat.len(),
            self.search_range(pat, j) is None,
        ensures
            self.search_range(pat, 0) is None,
        decreases j,
    {
        if j > 0 {
            self.lemma_range_none(pat, j - 1);
        }
    }

    /// Backward search for `pattern`: the suffix-array range of the rows that start with it.
    pub fn backward_search(&self, pattern: &[u8]) -> (r: Option<(usize, usize)>)
        requires
            self.wf(),
        ensures
            match r {
                Some((t, b)) => self.search_range(pattern@, 0) == Some((t as int, b as int)),
                None => self.search_range(pattern@, 0) is None,
            },
    {
        let n = self.text.len();
        let m = pattern.len();
        let mut top: usize = 0;
        let mut bottom: usize = n;
        let mut j: usize = m;
        while j > 0
            invariant
                self.wf(),
                n == self.text@.len(),
                m == pattern@.len(),
                j <= m,
                self.search_range(pattern@, j as int) == Some((top as int, bottom as int)),
            decreases j,
        {
            j -= 1;
            let ch = pattern[j];
            let rank = match self.rank_for_byte(ch) {
                Some(rank) => rank,
                None => {
                    proof {
                        self.lemma_range_none(pattern@, j as int);
                    }
                    return None;
                },
            };
            if self.counts[rank] == 0 {
                return None;
            }
            proof {
                lemma_sum_take_le(self.counts@, rank as int);
            }
            top = self.c[rank] + self.occ_at(rank, top);
            bottom = self.c[rank] + self.occ_at(rank, bottom);
            if top >= bottom {
                proof {
                    self.lemma_range_none(pattern@, j as int);
                }
                return None;
            }
        }
        Some((top, bottom))
    }

    /// The text positions at suffix-array rows `[top, i)`.
    pub closed spec fn rows_upto(&self, top: int, i: int) -> Set<usize> {
        Set::new(|p: usize| exists|k: int| top <= k < i && self.sa@[k] == p)
    }

    proof fn lemma_rows_step(&self, top: int, i: int)
        requires
            top <= i < self.sa@.len(),
            0 <= i,
        ensures
            self.rows_upto(top, i + 1) == self.rows_upto(top, i).insert(self.sa@[i]),
    {
        assert forall|p: usize| #[trigger] self.rows_upto(top, i + 1).contains(p) implies self.rows_upto(
            top,
            i,
        ).insert(self.sa@[i]).contains(p) by {
            let k = choose|k: int| top <= k < i + 1 && self.sa@[k] == p;
            if k < i {
                assert(self.rows_upto(top, i).contains(p));
            }
        }
        assert forall|p: usize| #[trigger] self.rows_upto(top, i).insert(self.sa@[i]).contains(p) implies self.rows_upto(
            top,
            i + 1,
        ).contains(p) by {
            if p != self.sa@[i] {
                let k = choose|k: int| top <= k < i && self.sa@[k] == p;
                assert(top <= k < i + 1 && self.sa@[k] == p);
            }
        }
        assert(self.rows_upto(top, i + 1) =~= self.rows_upto(top, i).insert(self.sa@[i]));
    }

    /// Adds the text positions at suffix-array rows `[top, bottom)` to `results`.
    fn collect_rows(&self, top: usize, bottom: usize, results: &mut Vec<usize>)
        requires
            self.wf(),
            forall|a: int, b: int| 0 <= a < b < old(results)@.len() ==> old(results)@[a] < old(results)@[b],
        ensures
            forall|a: int, b: int| 0 <= a < b < final(results)@.len() ==> final(results)@[a] < final(results)@[b],
            final(results)@.to_set() == old(results)@.to_set().union(self.rows_positions(top as int, bottom as int)),
    {
        let ghost r0 = results@.to_set();
        let n = self.sa.len();
        let end = if bottom < n {
            bottom
        } else {
            n
        };
        if top >= end {
            assert(self.rows_positions(top as int, bottom as int) =~= Set::<usize>::empty());
            assert(results@.to_set() =~= r0.union(self.rows_positions(top as int, bottom as int)));
            return;
        }
        let mut i = top;
        assert(self.rows_upto(top as int, top as int) =~= Set::<usize>::empty());
        assert(results@.to_set() =~= r0.union(self.rows_upto(top as int, top as int)));
        while i < end
            invariant
                self.wf(),
                n == self.sa@.len(),
                end <= n,
                end == min(bottom as int, n as int),
                top <= i <= end,
                forall|a: int, b: int| 0 <= a < b < results@.len() ==> results@[a] < results@[b],
                results@.to_set() == r0.union(self.rows_upto(top as int, i as int)),
            decreases end - i,
        {
            proof {
                self.lemma_rows_step(top as int, i as int);
            }
            insert_sorted(results, self.sa[i]);
            assert(results@.to_set() =~= r0.union(self.rows_upto(top as int, i + 1)));
            i += 1;
        }
        assert(self.rows_positions(top as int, bottom as int) =~= self.rows_upto(top as int, end as int));
    }

    /// Every text position where `pattern` starts, in increasing order: the rows of its
    /// backward-search range.
    pub fn search(&self, pattern: &[u8]) -> (r: Vec<usize>)
        requires
            self.wf(),
        ensures
            forall|a: int, b: int| 0 <= a < b < r@.len() ==> r@[a] < r@[b],
            r@.to_set() == match self.search_range(pattern@, 0) {
                Some((t, b)) => self.rows_positions(t, b),
                None => Set::empty(),
            },
    {
        let mut out: Vec<usize> = Vec::new();
        match self.backward_search(pattern) {
            Some((top, bottom)) => {
                assert(out@.to_set() =~= Set::<usize>::empty());
                self.collect_rows(top, bottom, &mut out);
                assert(out@.to_set() =~= self.rows_positions(top as int, bottom as int));
            },
            None => {
                assert(out@.to_set() =~= Set::<usize>::empty());
            },
        }
        out
    }

    /// Adds to `results` the positions that wildcard backward search reports for
    /// `pattern[..j]` from range `[top, bottom)`.
    fn collect_hits(&self, pattern: &[u8], j: usize, top: usize, bottom: usize, results: &mut Vec<usize>)
        requires
            self.wf(),
            j <= pattern@.len(),
            forall|a: int, b: int| 0 <= a < b < old(results)@.len() ==> old(results)@[a] < old(results)@[b],
        ensures
            forall|a: int, b: int| 0 <= a < b < final(results)@.len() ==> final(results)@[a] < final(results)@[b],
            final(results)@.to_set() == old(results)@.to_set().union(
                self.wild_hits(pattern@, j as int, top as int, bottom as int),
            ),
        decreases j,
    {
        if j == 0 {
            self.collect_rows(top, bottom, results);
            return;
        }
        let ch = pattern[j - 1];
        if ch == 0x5fu8 {
            let sigma = self.counts.len();
            let ghost r0 = results@.to_set();
            let mut r: usize = 0;
            assert(results@.to_set() =~= r0.union(
                self.wild_hits_ranks(pattern@, j as int, top as int, bottom as int, 0),
            ));
            while r < sigma
                invariant
                    self.wf(),
                    sigma == self.counts@.len(),
                    0 < j <= pattern@.len(),
                    pattern@[j - 1] == 0x5fu8,
                    r <= sigma,
                    forall|a: int, b: int| 0 <= a < b < results@.len() ==> results@[a] < results@[b],
                    results@.to_set() == r0.union(
                        self.wild_hits_ranks(pattern@, j as int, top as int, bottom as int, r as int),
                    ),
                decreases sigma - r,
            {
                let ghost prev = results@.to_set();
                let usable = r != self.sentinel_rank && match self.separator_rank {
                    Some(sep) => r != sep,
                    None => true,
                } && self.counts[r] > 0;
                if usable {
                    proof {
                        lemma_sum_take_le(self.counts@, r as int);
                    }
                    let new_top = self.c[r] + self.occ_at(r, top);
                    let new_bottom = self.c[r] + self.occ_at(r, bottom);
                    if new_top < new_bottom {
                        self.collect_hits(pattern, j - 1, new_top, new_bottom, results);
                        assert(results@.to_set() =~= r0.union(
                            self.wild_hits_ranks(pattern@, j as int, top as int, bottom as int, r + 1),
                        ));
                    }
                }
                r += 1;
            }
            return;
        }
        let rank = match self.rank_for_byte(ch) {
            Some(rank) => rank,
            None => {
                assert(self.wild_hits(pattern@, j as int, top as int, bottom as int) =~= Set::<usize>::empty());
                assert(results@.to_set() =~= results@.to_set().union(Set::<usize>::empty()));
                return;
            },
        };
        if self.counts[rank] == 0 {
            return;
        }
        proof {
            lemma_sum_take_le(self.counts@, rank as int);
        }
        let new_top = self.c[rank] + self.occ_at(rank, top);
        let new_bottom = self.c[rank] + self.occ_at(rank, bottom);
        if new_top < new_bottom {
            self.collect_hits(pattern, j - 1, new_top, new_bottom, results);
        } else {
            assert(self.wild_hits(pattern@, j as int, top as int, bottom as int) =~= Set::<usize>::empty());
            assert(results@.to_set() =~= results@.to_set().union(Set::<usize>::empty()));
        }
    }

    /// Every text position where `pattern` starts with each `_` standing for any byte but the
    /// sentinel and the separator, in increasing order. The empty pattern starts everywhere.
    pub fn search_with_underscore(&self, pattern: &[u8]) -> (r: Vec<usize>)
        requires
            self.wf(),
        ensures
            forall|a: int, b: int| 0 <= a < b < r@.len() ==> r@[a] < r@[b],
            pattern@.len() > 0 ==> r@.to_set() == self.wild_hits(
                pattern@,
                pattern@.len() as int,
                0,
                self.text_spec().len() as int,
            ),
            pattern@.len() == 0 ==> r@ == Seq::new(self.text_spec().len(), |i: int| i as usize),
    {
        let n = self.text.len();
        let mut out: Vec<usize> = Vec::new();
        if pattern.len() == 0 {
            let mut i: usize = 0;
            while i < n
                invariant
                    i <= n,
                    out@ == Seq::new(i as nat, |k: int| k as usize),
                decreases n - i,
            {
                out.push(i);
                i += 1;
                assert(out@ =~= Seq::new(i as nat, |k: int| k as usize));
            }
            return out;
        }
        assert(out@.to_set() =~= Set::<usize>::empty());
        self.collect_hits(pattern, pattern.len(), 0, n, &mut out);
        assert(out@.to_set() =~= self.wild_hits(pattern@, pattern@.len() as int, 0, n as int));
        out
    }
}

/// The ranks list the bytes of the text in increasing order, each with its count.
pub proof fn lemma_alphabet(fm: &FMIndex)
    requires
        fm.wf(),
    ensures
        fm.rank_to_byte_spec().len() == fm.counts_spec().len(),
        forall|k: int, l: int|
            0 <= k < l < fm.rank_to_byte_spec().len() ==> fm.rank_to_byte_spec()[k] < fm.rank_to_byte_spec()[l],
        forall|k: int|
            0 <= k < fm.counts_spec().len() ==> #[trigger] fm.counts_spec()[k] == count_in(
                fm.text_spec(),
                fm.rank_to_byte_spec()[k],
            ) && fm.counts_spec()[k] > 0,
        forall|b: u8| count_in(fm.text_spec(), b) > 0 ==> #[trigger] fm.rank_to_byte_spec().contains(b),
        fm.counts_spec().len() > 0 ==> fm.c_spec()[0] == 0,
{
    assert forall|b: u8| count_in(fm.text_spec(), b) > 0 implies #[trigger] fm.rank_to_byte_spec().contains(b) by {
        let r = fm.byte_to_rank@[b as int];
        assert(fm.byte_to_rank@[b as int] >= 0);
        assert(fm.rank_to_byte@[r as int] == b);
    }
    if fm.counts@.len() > 0 {
        assert(fm.counts@.take(0) =~= Seq::<usize>::empty());
    }
}

/// The `C` table is cumulative: `C[r + 1] = C[r] + count[r]` for every rank, and the last rank's
/// entry plus its count is the text length.
pub proof fn lemma_c_cumulative(fm: &FMIndex, r: int)
    requires
        fm.wf(),
        0 <= r < fm.counts_spec().len(),
    ensures
        r + 1 < fm.counts_spec().len() ==> fm.c_spec()[r + 1] == fm.c_spec()[r] + fm.counts_spec()[r],
        r + 1 == fm.counts_spec().len() ==> fm.c_spec()[r] + fm.counts_spec()[r] == fm.text_spec().len(),
{
    let counts = fm.counts_spec();
    assert(counts.take(r + 1) =~= counts.take(r).push(counts[r]));
    lemma_sum_push(counts.take(r), counts[r]);
    if r + 1 == counts.len() {
        assert(counts.take(r + 1) =~= counts);
    }
}

/// The positions of `s` that hold `b`.
pub open spec fn positions_of(s: Seq<u8>, b: u8) -> Set<int> {
    Set::new(|i: int| 0 <= i < s.len() && s[i] == b)
}

proof fn lemma_count_is_size(s: Seq<u8>, b: u8)
    ensures
        positions_of(s, b).finite(),
        positions_of(s, b).len() == count_in(s, b),
    decreases s.len(),
{
    if s.len() == 0 {
        assert(positions_of(s, b) =~= Set::empty());
    } else {
        let d = s.drop_last();
        lemma_count_is_size(d, b);
        if s.last() == b {
            assert(positions_of(s, b) =~= positions_of(d, b).insert(s.len() - 1));
        } else {
            assert(positions_of(s, b) =~= positions_of(d, b));
        }
    }
}

impl FMIndex {
    /// The text position whose byte precedes the suffix at row `i`, wrapping to the sentinel.
    pub closed spec fn pred_pos(&self, i: int) -> int {
        if self.sa@[i] == 0 {
            self.text@.len() - 1
        } else {
            self.sa@[i] - 1
        }
    }

    /// Some row of the suffix array starts at position `p`.
    pub closed spec fn has_row(&self, p: int) -> bool {
        exists|i: int| 0 <= i < self.text@.len() && self.sa@[i] == p
    }

    proof fn lemma_sa_covers(&self)
        requires
            self.wf(),
        ensures
            forall|p: int| 0 <= p < self.text@.len() ==> #[trigger] self.has_row(p),
    {
        let n = self.text@.len() as int;
        let rows = set_int_range(0, n);
        lemma_int_range(0, n);
        let f = |i: int| self.sa@[i] as int;
        let vals = rows.map(f);
        assert(vstd::relations::injective_on(f, rows)) by {
            assert forall|x: int, y: int| rows.contains(x) && rows.contains(y) && #[trigger] f(x) == #[trigger] f(y) implies x == y by {
                if x < y {
                    assert(self.sa@[x] != self.sa@[y]);
                } else if y < x {
                    assert(self.sa@[y] != self.sa@[x]);
                }
            }
        }
        lemma_map_size(rows, vals, f);
        assert(vals.subset_of(rows)) by {
            assert forall|p: int| vals.contains(p) implies rows.contains(p) by {
                let i = choose|i: int| rows.contains(i) && f(i) == p;
                assert(self.sa@[i] < n);
            }
        }
        lemma_subset_equality(vals, rows);
        assert forall|p: int| 0 <= p < n implies #[trigger] self.has_row(p) by {
            assert(rows.contains(p));
            assert(vals.contains(p));
            let i = choose|i: int| rows.contains(i) && f(i) == p;
            assert(0 <= i < n && self.sa@[i] == p);
        }
    }

    proof fn lemma_bwt_counts(&self, x: u8)
        requires
            self.wf(),
        ensures
            Set::new(|i: int| 0 <= i < self.text@.len() && self.text@[self.pred_pos(i)] == x).len() == count_in(self.text@, x),
            Set::new(|i: int| 0 <= i < self.text@.len() && self.text@[self.pred_pos(i)] == x).finite(),
    {
        let n = self.text@.len() as int;
        let rows = Set::new(|i: int| 0 <= i < n && self.text@[self.pred_pos(i)] == x);
        let target = positions_of(self.text@, x);
        lemma_count_is_size(self.text@, x);
        lemma_int_range(0, n);
        assert(rows.finite()) by {
            assert(rows.subset_of(set_int_range(0, n)));
            vstd::set_lib::lemma_len_subset(rows, set_int_range(0, n));
        }
        let f = |i: int| self.pred_pos(i);
        self.lemma_sa_covers();
        assert(vstd::relations::injective_on(f, rows)) by {
            assert forall|a: int, b: int| rows.contains(a) && rows.contains(b) && #[trigger] f(a) == #[trigger] f(b) implies a == b by {
                assert(self.sa@[a] < n && self.sa@[b] < n);
                assert(self.sa@[a] == self.sa@[b]);
                if a != b {
                    if a < b {
                        assert(self.sa@[a] != self.sa@[b]);
                    } else {
                        assert(self.sa@[b] != self.sa@[a]);
                    }
                }
            }
        }
        assert(rows.map(f) =~= target) by {
            assert forall|j: int| #[trigger] target.contains(j) implies rows.map(f).contains(j) by {
                let p = if j == n - 1 { 0 } else { j + 1 };
                assert(self.has_row(p));
                let i = choose|i: int| 0 <= i < n && self.sa@[i] == p;
                assert(f(i) == j);
                assert(rows.contains(i));
            }
            assert forall|j: int| rows.map(f).contains(j) implies #[trigger] target.contains(j) by {
                let i = choose|i: int| rows.contains(i) && f(i) == j;
                assert(self.sa@[i] < n);
            }
        }
        lemma_map_size(rows, target, f);
    }
}

/// BWT correctness: for every rank `r`, `C[r] + Occ(r, N)` is `C[r] + count[r]`, which is
/// `C[r + 1]` (or `N` for the last rank): the BWT holds each byte exactly as often as the text.
pub proof fn lemma_occ_total(fm: &FMIndex, r: int)
    requires
        fm.wf(),
        0 <= r < fm.counts_spec().len(),
    ensures
        fm.lf(r, fm.text_spec().len() as int) == fm.c_spec()[r] + fm.counts_spec()[r],
        r + 1 < fm.counts_spec().len() ==> fm.lf(r, fm.text_spec().len() as int) == fm.c_spec()[r + 1],
        r + 1 == fm.counts_spec().len() ==> fm.lf(r, fm.text_spec().len() as int) == fm.text_spec().len(),
{
    lemma_c_cumulative(fm, r);
    let n = fm.text@.len() as int;
    let x = fm.rank_to_byte@[r];
    fm.lemma_bwt_counts(x);
    assert(fm.bwt@.take(n) =~= fm.bwt@);
    lemma_count_is_size(fm.bwt@, r as u8);
    assert(positions_of(fm.bwt@, r as u8) =~= Set::new(|i: int| 0 <= i < n && fm.text@[fm.pred_pos(i)] == x)) by {
        assert forall|i: int| 0 <= i < n implies (fm.bwt@[i] == r as u8 <==> fm.text@[fm.pred_pos(i)] == x) by {
            let orig = if fm.sa@[i] == 0 { fm.sentinel } else { fm.text@[fm.sa@[i] - 1] };
            assert(orig == fm.text@[fm.pred_pos(i)]) by {
                if fm.sa@[i] == 0 {
                    assert(fm.pred_pos(i) == n - 1);
                } else {
                    assert(fm.pred_pos(i) == fm.sa@[i] - 1);
                }
            }
            let k = if fm.sa@[i] == 0 { n - 1 } else { fm.sa@[i] - 1 };
            assert(fm.text@[k] == orig);
            lemma_count_positive(fm.text@, k);
            assert(fm.byte_to_rank@[orig as int] >= 0);
            assert(fm.rank_to_byte@[fm.byte_to_rank@[orig as int] as int] == orig);
            assert(fm.byte_to_rank@[x as int] == r);
        }
    }
}

} // verus!
